//! Lexical path operations on Unix-style paths: joining, splitting into
//! components, and comparing two paths component by component.
use vstd::prelude::*;

verus! {

/// The path starts at the filesystem root.
pub open spec fn has_root(p: Seq<char>) -> bool {
    p.len() > 0 && p[0] == '/'
}

/// `tail` appended to `base`: an absolute `tail` replaces `base`; otherwise a
/// separator is put between them unless `base` is empty or already ends in one.
pub open spec fn join(base: Seq<char>, tail: Seq<char>) -> Seq<char> {
    if has_root(tail) {
        tail
    } else if base.len() > 0 && base.last() != '/' {
        base + seq!['/'] + tail
    } else {
        base + tail
    }
}

/// Appends `tail` to `base` as a path.
pub fn join_paths(base: &str, tail: &str) -> (r: String)
    ensures
        r@ == join(base@, tail@),
{
    let tail_len = tail.unicode_len();
    if tail_len > 0 && tail.get_char(0) == '/' {
        return tail.to_owned();
    }
    let mut r = base.to_owned();
    let base_len = base.unicode_len();
    if base_len > 0 && base.get_char(base_len - 1) != '/' {
        let sep = "/";
        proof {
            reveal_strlit("/");
        }
        r.append(sep);
    }
    r.append(tail);
    r
}

/// The '/'-separated fields of `p`, in order. There is always at least one
/// field; empty fields come from leading, trailing or repeated separators.
pub open spec fn fields(p: Seq<char>) -> Seq<Seq<char>>
    decreases p.len(),
{
    if p.len() == 0 {
        seq![Seq::<char>::empty()]
    } else {
        let f = fields(p.drop_last());
        if p.last() == '/' {
            f.push(Seq::<char>::empty())
        } else {
            f.update(f.len() - 1, f.last().push(p.last()))
        }
    }
}

/// A field that names a component: neither empty nor the current directory `.`.
pub open spec fn is_name(f: Seq<char>) -> bool {
    f.len() > 0 && f != seq!['.']
}

/// The fields of `fs` that name components, in order.
pub open spec fn names_of(fs: Seq<Seq<char>>) -> Seq<Seq<char>>
    decreases fs.len(),
{
    if fs.len() == 0 {
        Seq::<Seq<char>>::empty()
    } else {
        let rest = names_of(fs.drop_last());
        if is_name(fs.last()) {
            rest.push(fs.last())
        } else {
            rest
        }
    }
}

/// The named components of `p`: repeated separators, a trailing separator and
/// `.` fields are normalized away.
pub open spec fn names(p: Seq<char>) -> Seq<Seq<char>> {
    names_of(fields(p))
}

/// A relative path whose first component is `.`, which is kept as a leading
/// current-directory component.
pub open spec fn starts_at_cur_dir(p: Seq<char>) -> bool {
    !has_root(p) && p.len() > 0 && p[0] == '.' && (p.len() == 1 || p[1] == '/')
}

/// Two paths denote the same sequence of components.
pub open spec fn same_path(a: Seq<char>, b: Seq<char>) -> bool {
    &&& has_root(a) == has_root(b)
    &&& starts_at_cur_dir(a) == starts_at_cur_dir(b)
    &&& names(a) == names(b)
}

/// The character sequences of a sequence of strings.
pub open spec fn views(v: Seq<String>) -> Seq<Seq<char>> {
    v.map_values(|s: String| s@)
}

/// Whether the field `p[start..end]` names a component.
fn field_is_name(p: &str, start: usize, end: usize) -> (b: bool)
    requires
        start <= end <= p@.len(),
    ensures
        b == is_name(p@.subrange(start as int, end as int)),
{
    if start == end {
        return false;
    }
    if end - start == 1 {
        let c = p.get_char(start);
        proof {
            let f = p@.subrange(start as int, end as int);
            assert(f.len() == 1 && f[0] == c);
            if c == '.' {
                assert(f =~= seq!['.']);
            } else {
                assert(f[0] != seq!['.'][0]);
            }
        }
        return c != '.';
    }
    proof {
        assert(p@.subrange(start as int, end as int).len() != seq!['.'].len());
    }
    true
}

/// The named components of `p`, in order.
pub fn path_names(p: &str) -> (r: Vec<String>)
    ensures
        views(r@) == names(p@),
{
    let n = p.unicode_len();
    let mut out: Vec<String> = Vec::new();
    let mut start: usize = 0;
    let mut i: usize = 0;
    proof {
        assert(p@.take(0) =~= Seq::<char>::empty());
    }
    while i < n
        invariant
            n == p@.len(),
            start <= i <= n,
            fields(p@.take(i as int)).len() >= 1,
            names_of(fields(p@.take(i as int)).drop_last()) == views(out@),
            fields(p@.take(i as int)).last() == p@.subrange(start as int, i as int),
        decreases n - i,
    {
        let ghost before = p@.take(i as int);
        let ghost f = fields(before);
        let c = p.get_char(i);
        proof {
            assert(p@.take(i + 1).drop_last() =~= before);
            assert(p@.take(i + 1).last() == c);
        }
        if c == '/' {
            let named = field_is_name(p, start, i);
            proof {
                assert(fields(p@.take(i + 1)) == f.push(Seq::<char>::empty()));
                assert(f.push(Seq::<char>::empty()).drop_last() =~= f);
            }
            if named {
                let field = p.substring_char(start, i).to_owned();
                out.push(field);
            }
            proof {
                assert(views(out@) =~= names_of(f));
                assert(p@.subrange(i + 1, i + 1) =~= Seq::<char>::empty());
            }
            start = i + 1;
        } else {
            proof {
                let g = f.update(f.len() - 1, f.last().push(c));
                assert(fields(p@.take(i + 1)) == g);
                assert(g.drop_last() =~= f.drop_last());
                assert(g.last() =~= p@.subrange(start as int, i + 1));
            }
        }
        i = i + 1;
    }
    proof {
        assert(p@.take(n as int) =~= p@);
    }
    let named = field_is_name(p, start, n);
    if named {
        let field = p.substring_char(start, n).to_owned();
        out.push(field);
    }
    proof {
        let f = fields(p@);
        assert(f =~= f.drop_last().push(f.last()));
        assert(views(out@) =~= names_of(f));
    }
    out
}

fn starts_with_root(p: &str) -> (b: bool)
    ensures
        b == has_root(p@),
{
    p.unicode_len() > 0 && p.get_char(0) == '/'
}

fn starts_with_cur_dir(p: &str) -> (b: bool)
    ensures
        b == starts_at_cur_dir(p@),
{
    let n = p.unicode_len();
    if n == 0 {
        return false;
    }
    let first = p.get_char(0);
    if first != '.' {
        return false;
    }
    n == 1 || p.get_char(1) == '/'
}

/// Whether `a` and `b` denote the same path, compared component by component
/// (as `Path` equality does on Unix).
pub fn paths_equal(a: &str, b: &str) -> (r: bool)
    ensures
        r == same_path(a@, b@),
{
    if starts_with_root(a) != starts_with_root(b) {
        return false;
    }
    if starts_with_cur_dir(a) != starts_with_cur_dir(b) {
        return false;
    }
    let na = path_names(a);
    let nb = path_names(b);
    let ghost va = views(na@);
    let ghost vb = views(nb@);
    if na.len() != nb.len() {
        proof {
            assert(va.len() != vb.len());
        }
        return false;
    }
    let len = na.len();
    let mut i: usize = 0;
    while i < len
        invariant
            len == na@.len(),
            len == nb@.len(),
            va == views(na@),
            vb == views(nb@),
            va == names(a@),
            vb == names(b@),
            has_root(a@) == has_root(b@),
            starts_at_cur_dir(a@) == starts_at_cur_dir(b@),
            i <= len,
            forall|j: int| 0 <= j < i ==> va[j] == vb[j],
        decreases len - i,
    {
        let same = na[i] == nb[i];
        proof {
            assert(va[i as int] == na@[i as int]@);
            assert(vb[i as int] == nb@[i as int]@);
        }
        if !same {
            proof {
                assert(va[i as int] != vb[i as int]);
            }
            return false;
        }
        i = i + 1;
    }
    proof {
        assert(va =~= vb);
    }
    true
}

proof fn lemma_fields_nonempty(p: Seq<char>)
    ensures
        fields(p).len() >= 1,
    decreases p.len(),
{
    if p.len() > 0 {
        lemma_fields_nonempty(p.drop_last());
    }
}

/// Splitting a concatenation: the last field of `q` and the first field of
/// `t` run together, and the other fields are kept.
proof fn lemma_fields_concat(q: Seq<char>, t: Seq<char>)
    ensures
        fields(q + t) == fields(q).drop_last() + seq![fields(q).last() + fields(t)[0]] + fields(
            t,
        ).skip(1),
    decreases t.len(),
{
    lemma_fields_nonempty(q);
    lemma_fields_nonempty(t);
    let fq = fields(q);
    if t.len() == 0 {
        assert(q + t =~= q);
        assert(fields(t) =~= seq![Seq::<char>::empty()]);
        assert(fq.last() + Seq::<char>::empty() =~= fq.last());
        assert(fq.drop_last() + seq![fq.last()] + fields(t).skip(1) =~= fq);
    } else {
        let t0 = t.drop_last();
        let x = t.last();
        lemma_fields_concat(q, t0);
        lemma_fields_nonempty(t0);
        assert((q + t).drop_last() =~= q + t0);
        assert((q + t).last() == x);
        let ft0 = fields(t0);
        let g = fields(q + t0);
        assert(g == fq.drop_last() + seq![fq.last() + ft0[0]] + ft0.skip(1));
        if x == '/' {
            assert(fields(t) == ft0.push(Seq::<char>::empty()));
            assert(fields(q + t) == g.push(Seq::<char>::empty()));
            assert(fields(t)[0] == ft0[0]);
            assert(fields(t).skip(1) =~= ft0.skip(1).push(Seq::<char>::empty()));
            assert(fields(q + t) =~= fq.drop_last() + seq![fq.last() + fields(t)[0]] + fields(
                t,
            ).skip(1));
        } else {
            assert(fields(t) == ft0.update(ft0.len() - 1, ft0.last().push(x)));
            assert(fields(q + t) == g.update(g.len() - 1, g.last().push(x)));
            if ft0.len() == 1 {
                assert(fields(t)[0] == ft0[0].push(x));
                assert((fq.last() + ft0[0]).push(x) =~= fq.last() + ft0[0].push(x));
                assert(fields(t).skip(1) =~= Seq::<Seq<char>>::empty());
                assert(ft0.skip(1) =~= Seq::<Seq<char>>::empty());
            } else {
                assert(fields(t)[0] == ft0[0]);
                assert(fields(t).skip(1) =~= ft0.skip(1).update(
                    ft0.len() - 2,
                    ft0.last().push(x),
                ));
            }
            assert(fields(q + t) =~= fq.drop_last() + seq![fq.last() + fields(t)[0]] + fields(
                t,
            ).skip(1));
        }
    }
}

/// The named components of a concatenation of field lists.
proof fn lemma_names_of_concat(a: Seq<Seq<char>>, b: Seq<Seq<char>>)
    ensures
        names_of(a + b) == names_of(a) + names_of(b),
    decreases b.len(),
{
    if b.len() == 0 {
        assert(a + b =~= a);
        assert(names_of(a) + names_of(b) =~= names_of(a));
    } else {
        lemma_names_of_concat(a, b.drop_last());
        assert((a + b).drop_last() =~= a + b.drop_last());
        assert((a + b).last() == b.last());
        if is_name(b.last()) {
            assert(names_of(a + b) =~= names_of(a) + names_of(b));
        } else {
            assert(names_of(a + b) =~= names_of(a) + names_of(b));
        }
    }
}

/// A path followed by a separator and another path has the components of
/// both, in order: no component of either is dropped or merged.
pub proof fn lemma_names_of_separated(p: Seq<char>, t: Seq<char>)
    ensures
        names(p.push('/') + t) == names(p) + names(t),
{
    lemma_fields_nonempty(p);
    lemma_fields_nonempty(t);
    let q = p.push('/');
    assert(q.drop_last() =~= p);
    assert(fields(q) == fields(p).push(Seq::<char>::empty()));
    lemma_fields_concat(q, t);
    let ft = fields(t);
    assert(fields(q).drop_last() =~= fields(p));
    assert(Seq::<char>::empty() + ft[0] =~= ft[0]);
    assert(seq![ft[0]] + ft.skip(1) =~= ft);
    assert(fields(q + t) =~= fields(p) + ft);
    lemma_names_of_concat(fields(p), ft);
}

/// A single component names itself: a field that holds no separator and is
/// neither empty nor `.`.
pub proof fn lemma_names_of_component(c: Seq<char>)
    requires
        c.len() > 0,
        c != seq!['.'],
        forall|i: int| 0 <= i < c.len() ==> c[i] != '/',
    ensures
        names(c) == seq![c],
{
    lemma_fields_single(c);
    assert(seq![c].drop_last() =~= Seq::<Seq<char>>::empty());
    assert(names_of(Seq::<Seq<char>>::empty()) =~= Seq::<Seq<char>>::empty());
    assert(names_of(seq![c]) =~= seq![c]);
}

/// A sequence without separators is one field.
proof fn lemma_fields_single(c: Seq<char>)
    requires
        forall|i: int| 0 <= i < c.len() ==> c[i] != '/',
    ensures
        fields(c) == seq![c],
    decreases c.len(),
{
    if c.len() == 0 {
        assert(c =~= Seq::<char>::empty());
    } else {
        lemma_fields_single(c.drop_last());
        assert(c.drop_last().push(c.last()) =~= c);
        assert(fields(c) =~= seq![c]);
    }
}

/// Appending a component adds exactly that component, whatever the path
/// already holds; appending a separator or a `.` field adds none.
pub proof fn lemma_names_append(p: Seq<char>, c: Seq<char>)
    requires
        c.len() > 0,
        c != seq!['.'],
        forall|i: int| 0 <= i < c.len() ==> c[i] != '/',
    ensures
        names(p.push('/') + c) == names(p).push(c),
        names(p.push('/')) == names(p),
        names(p.push('/').push('.')) == names(p),
{
    lemma_names_of_separated(p, c);
    lemma_names_of_component(c);
    assert(names(p) + seq![c] =~= names(p).push(c));
    lemma_names_of_separated(p, Seq::<char>::empty());
    assert(p.push('/') + Seq::<char>::empty() =~= p.push('/'));
    assert(fields(Seq::<char>::empty()) =~= seq![Seq::<char>::empty()]);
    assert(seq![Seq::<char>::empty()].drop_last() =~= Seq::<Seq<char>>::empty());
    assert(names_of(Seq::<Seq<char>>::empty()) =~= Seq::<Seq<char>>::empty());
    assert(names(Seq::<char>::empty()) =~= Seq::<Seq<char>>::empty());
    assert(names(p) + Seq::<Seq<char>>::empty() =~= names(p));
    lemma_names_of_separated(p, seq!['.']);
    assert(p.push('/') + seq!['.'] =~= p.push('/').push('.'));
    lemma_fields_single(seq!['.']);
    assert(seq![seq!['.']].drop_last() =~= Seq::<Seq<char>>::empty());
    assert(!is_name(seq!['.']));
    assert(names(seq!['.']) =~= Seq::<Seq<char>>::empty());
}

/// Two paths are the same exactly when they agree on starting at the root, on
/// a leading `.`, and component by component as whole strings.
pub proof fn lemma_same_path_is_componentwise(a: Seq<char>, b: Seq<char>)
    ensures
        same_path(a, b) <==> {
            &&& has_root(a) == has_root(b)
            &&& starts_at_cur_dir(a) == starts_at_cur_dir(b)
            &&& names(a).len() == names(b).len()
            &&& forall|j: int|
                #![trigger names(a)[j], names(b)[j]]
                0 <= j < names(a).len() ==> names(a)[j] == names(b)[j]
        },
{
    if names(a).len() == names(b).len() && forall|j: int|
        #![trigger names(a)[j], names(b)[j]]
        0 <= j < names(a).len() ==> names(a)[j] == names(b)[j] {
        assert(names(a) =~= names(b));
    }
}

/// Path sameness is an equivalence: reflexive, symmetric and transitive.
pub proof fn lemma_same_path_equivalence(a: Seq<char>, b: Seq<char>, c: Seq<char>)
    ensures
        same_path(a, a),
        same_path(a, b) ==> same_path(b, a),
        same_path(a, b) && same_path(b, c) ==> same_path(a, c),
{
}

/// Joining: an absolute tail replaces the base; a relative tail keeps the
/// base's start and appends the tail's components to the base's.
pub proof fn lemma_join_components(b: Seq<char>, t: Seq<char>)
    ensures
        has_root(t) ==> join(b, t) == t,
        !has_root(t) ==> names(join(b, t)) == names(b) + names(t) && has_root(join(b, t))
            == has_root(b),
{
    if !has_root(t) {
        if b.len() > 0 && b.last() != '/' {
            assert(b + seq!['/'] + t =~= b.push('/') + t);
            lemma_names_of_separated(b, t);
            assert((b + seq!['/'] + t)[0] == b[0]);
        } else if b.len() == 0 {
            assert(b + t =~= t);
            assert(fields(b) =~= seq![Seq::<char>::empty()]);
            assert(seq![Seq::<char>::empty()].drop_last() =~= Seq::<Seq<char>>::empty());
            assert(names_of(Seq::<Seq<char>>::empty()) =~= Seq::<Seq<char>>::empty());
            assert(names(b) + names(t) =~= names(t));
        } else {
            let b0 = b.drop_last();
            assert(b0.push('/') =~= b);
            lemma_names_of_separated(b0, t);
            lemma_names_of_separated(b0, Seq::<char>::empty());
            assert(b0.push('/') + Seq::<char>::empty() =~= b);
            assert(fields(Seq::<char>::empty()) =~= seq![Seq::<char>::empty()]);
            assert(seq![Seq::<char>::empty()].drop_last() =~= Seq::<Seq<char>>::empty());
            assert(names_of(Seq::<Seq<char>>::empty()) =~= Seq::<Seq<char>>::empty());
            assert(names(b0) + Seq::<Seq<char>>::empty() =~= names(b0));
            assert((b + t)[0] == b[0]);
        }
    }
}

} // verus!
