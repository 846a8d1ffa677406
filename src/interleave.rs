use vstd::multiset::Multiset;
use vstd::prelude::*;
use vstd::multiset::lemma_multiset_empty_len;
use vstd::seq_lib::{to_multiset_build, to_multiset_len};

verus! {

/// The elements of `out` that came from part `p`, in order, where `src[k]`
/// names the part that `out[k]` came from.
pub open spec fn from_part<T>(out: Seq<T>, src: Seq<int>, p: int) -> Seq<T>
    decreases out.len(),
{
    if out.len() == 0 || src.len() != out.len() {
        Seq::empty()
    } else if src.last() == p {
        from_part(out.drop_last(), src.drop_last(), p).push(out.last())
    } else {
        from_part(out.drop_last(), src.drop_last(), p)
    }
}

/// `out` interleaves `parts`, each element coming from the part that `src`
/// names, and each part's elements keeping their order.
pub open spec fn is_interleaving<T>(out: Seq<T>, parts: Seq<Seq<T>>, src: Seq<int>) -> bool {
    &&& src.len() == out.len()
    &&& forall|k: int| 0 <= k < src.len() ==> 0 <= #[trigger] src[k] < parts.len()
    &&& forall|p: int| 0 <= p < parts.len() ==> from_part(out, src, p) == #[trigger] parts[p]
}

/// All elements of all parts, counted with multiplicity.
pub open spec fn union_of<T>(parts: Seq<Seq<T>>) -> Multiset<T>
    decreases parts.len(),
{
    if parts.len() == 0 {
        Multiset::empty()
    } else {
        union_of(parts.drop_last()).add(parts.last().to_multiset())
    }
}

pub(crate) proof fn lemma_from_part_push<T>(out: Seq<T>, src: Seq<int>, x: T, s: int)
    requires
        src.len() == out.len(),
    ensures
        forall|p: int| #[trigger] from_part(out.push(x), src.push(s), p) == if p == s {
            from_part(out, src, p).push(x)
        } else {
            from_part(out, src, p)
        },
{
    assert(out.push(x).drop_last() =~= out);
    assert(src.push(s).drop_last() =~= src);
}

/// Each element of `out` is among the elements of the part it came from.
pub(crate) proof fn lemma_from_part_contains<T>(out: Seq<T>, src: Seq<int>, k: int)
    requires
        src.len() == out.len(),
        0 <= k < out.len(),
    ensures
        from_part(out, src, src[k]).contains(out[k]),
    decreases out.len(),
{
    let init = out.drop_last();
    let sinit = src.drop_last();
    assert(init.push(out.last()) =~= out);
    assert(sinit.push(src.last()) =~= src);
    lemma_from_part_push(init, sinit, out.last(), src.last());
    if k == out.len() - 1 {
        let f = from_part(out, src, src[k]);
        assert(f[f.len() - 1] == out[k]);
    } else {
        lemma_from_part_contains(init, sinit, k);
        let f = from_part(init, sinit, src[k]);
        let j = choose|j: int| 0 <= j < f.len() && f[j] == out[k];
        if src.last() == src[k] {
            assert(f.push(out.last())[j] == out[k]);
        }
    }
}

proof fn lemma_union_of_push<T>(parts: Seq<Seq<T>>, s: int, q: Seq<T>, x: T)
    requires
        0 <= s < parts.len(),
    ensures
        union_of(parts.update(s, q.push(x))) == union_of(parts.update(s, q)).insert(x),
    decreases parts.len(),
{
    broadcast use to_multiset_build;
    let a = parts.update(s, q.push(x));
    let b = parts.update(s, q);
    if s == parts.len() - 1 {
        assert(a.drop_last() =~= b.drop_last());
        assert(union_of(a) =~= union_of(b).insert(x));
    } else {
        lemma_union_of_push(parts.drop_last(), s, q, x);
        assert(a.drop_last() =~= parts.drop_last().update(s, q.push(x)));
        assert(b.drop_last() =~= parts.drop_last().update(s, q));
        assert(union_of(a) =~= union_of(b).insert(x));
    }
}

/// An interleaving holds each element of each part, and nothing else.
pub proof fn lemma_interleaving_multiset<T>(out: Seq<T>, parts: Seq<Seq<T>>, src: Seq<int>)
    requires
        is_interleaving(out, parts, src),
    ensures
        out.to_multiset() == union_of(parts),
    decreases out.len(),
{
    broadcast use to_multiset_build;
    if out.len() == 0 {
        assert forall|p: int| 0 <= p < parts.len() implies #[trigger] parts[p] == Seq::<T>::empty() by {
            assert(from_part(out, src, p) == parts[p]);
        }
        lemma_union_of_empty_parts(parts);
        lemma_empty_to_multiset(out);
    } else {
        let init = out.drop_last();
        let sinit = src.drop_last();
        let x = out.last();
        let s = src.last();
        assert(init.push(x) =~= out);
        assert(sinit.push(s) =~= src);
        lemma_from_part_push(init, sinit, x, s);
        assert(0 <= src[src.len() - 1] < parts.len());
        let q = from_part(init, sinit, s);
        let fewer = parts.update(s, q);
        assert forall|k: int| 0 <= k < sinit.len() implies 0 <= #[trigger] sinit[k] < fewer.len() by {
            assert(sinit[k] == src[k]);
        }
        assert forall|p: int| 0 <= p < fewer.len() implies from_part(init, sinit, p) == #[trigger] fewer[p] by {
            assert(from_part(out, src, p) == parts[p]);
        }
        lemma_interleaving_multiset(init, fewer, sinit);
        assert(from_part(out, src, s) == parts[s]);
        assert(parts.update(s, q.push(x)) =~= parts);
        lemma_union_of_push(parts, s, q, x);
    }
}

proof fn lemma_empty_to_multiset<T>(s: Seq<T>)
    requires
        s.len() == 0,
    ensures
        s.to_multiset() == Multiset::<T>::empty(),
{
    to_multiset_len(s);
    lemma_multiset_empty_len(s.to_multiset());
}

proof fn lemma_union_of_empty_parts<T>(parts: Seq<Seq<T>>)
    requires
        forall|p: int| 0 <= p < parts.len() ==> #[trigger] parts[p] == Seq::<T>::empty(),
    ensures
        union_of(parts) == Multiset::<T>::empty(),
    decreases parts.len(),
{
    if parts.len() > 0 {
        lemma_union_of_empty_parts(parts.drop_last());
        lemma_empty_to_multiset(parts.last());
        assert(union_of(parts) =~= Multiset::empty());
    }
}

} // verus!
