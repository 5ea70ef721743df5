//! Multisets of a sequence of parts, used to account for elements that sit in
//! several places at once during partitioning.
use vstd::multiset::Multiset;
use vstd::prelude::*;
use vstd::seq_lib::*;

verus! {

/// The multiset union of `parts[0..m]`.
pub open spec fn sum_ms<T>(parts: Seq<Seq<T>>, m: int) -> Multiset<T>
    decreases m,
{
    if m <= 0 {
        Multiset::empty()
    } else {
        sum_ms(parts, m - 1).add(parts[m - 1].to_multiset())
    }
}

pub proof fn lemma_sum_ms_frame<T>(a: Seq<Seq<T>>, b: Seq<Seq<T>>, m: int)
    requires
        m <= a.len(),
        m <= b.len(),
        forall|i: int| 0 <= i < m ==> #[trigger] a[i] == b[i],
    ensures
        sum_ms(a, m) == sum_ms(b, m),
    decreases m,
{
    if m > 0 {
        lemma_sum_ms_frame(a, b, m - 1);
    }
}

/// Replacing one part changes the union by exactly that part.
pub proof fn lemma_sum_ms_update<T>(parts: Seq<Seq<T>>, m: int, i: int, p: Seq<T>)
    requires
        0 <= i < m <= parts.len(),
    ensures
        sum_ms(parts.update(i, p), m).add(parts[i].to_multiset()) == sum_ms(parts, m).add(
            p.to_multiset(),
        ),
    decreases m,
{
    broadcast use vstd::multiset::group_multiset_axioms;

    let u = parts.update(i, p);
    assert(sum_ms(u, m) == sum_ms(u, m - 1).add(u[m - 1].to_multiset()));
    assert(sum_ms(parts, m) == sum_ms(parts, m - 1).add(parts[m - 1].to_multiset()));
    if i == m - 1 {
        lemma_sum_ms_frame(u, parts, m - 1);
        assert(u[m - 1] == p);
    } else {
        lemma_sum_ms_update(parts, m - 1, i, p);
        assert(u[m - 1] == parts[m - 1]);
        assert forall|v: T|
            #[trigger] sum_ms(u, m).add(parts[i].to_multiset()).count(v) == sum_ms(parts, m).add(
                p.to_multiset(),
            ).count(v) by {
            assert(sum_ms(u, m - 1).add(parts[i].to_multiset()).count(v) == sum_ms(
                parts,
                m - 1,
            ).add(p.to_multiset()).count(v));
        }
    }
    assert(sum_ms(u, m).add(parts[i].to_multiset()) =~= sum_ms(parts, m).add(p.to_multiset()));
}

pub proof fn lemma_sum_ms_empty<T>(parts: Seq<Seq<T>>, m: int)
    requires
        m <= parts.len(),
        forall|i: int| 0 <= i < m ==> (#[trigger] parts[i]).len() == 0,
    ensures
        sum_ms(parts, m) == Multiset::<T>::empty(),
    decreases m,
{
    broadcast use vstd::multiset::group_multiset_axioms;

    if m > 0 {
        lemma_sum_ms_empty(parts, m - 1);
        assert(sum_ms(parts, m) == sum_ms(parts, m - 1).add(parts[m - 1].to_multiset()));
        lemma_empty_seq_ms(parts[m - 1]);
        assert(sum_ms(parts, m) =~= Multiset::<T>::empty());
    }
}

/// The union is at least as large as each part.
pub proof fn lemma_sum_ms_len<T>(parts: Seq<Seq<T>>, m: int, i: int)
    requires
        0 <= i < m <= parts.len(),
    ensures
        sum_ms(parts, m).len() >= parts[i].len(),
{
    broadcast use vstd::multiset::group_multiset_axioms;
    broadcast use group_to_multiset_ensures;

    lemma_sum_ms_update(parts, m, i, Seq::empty());
    lemma_empty_seq_ms(Seq::<T>::empty());
    parts[i].to_multiset_ensures();
    let u = parts.update(i, Seq::empty());
    assert(sum_ms(u, m).add(parts[i].to_multiset()).len() == sum_ms(u, m).len() + parts[i].len());
}

pub proof fn lemma_empty_seq_ms<T>(s: Seq<T>)
    requires
        s.len() == 0,
    ensures
        s.to_multiset() == Multiset::<T>::empty(),
{
    broadcast use vstd::multiset::group_multiset_axioms;
    broadcast use group_to_multiset_ensures;

    assert(s.to_multiset() =~= Multiset::<T>::empty());
}

/// Splitting a sequence splits its multiset.
pub proof fn lemma_ms_split<T>(s: Seq<T>, a: int, b: int, c: int)
    requires
        0 <= a <= b <= c <= s.len(),
    ensures
        s.subrange(a, c).to_multiset() == s.subrange(a, b).to_multiset().add(
            s.subrange(b, c).to_multiset(),
        ),
{
    lemma_multiset_commutative(s.subrange(a, b), s.subrange(b, c));
    assert(s.subrange(a, b) + s.subrange(b, c) =~= s.subrange(a, c));
}

} // verus!
