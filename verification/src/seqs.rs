//! Small sequence and multiset facts shared by the sorting routines.

use vstd::prelude::*;

verus! {

/// Inserting into a sequence at any position inserts into its multiset.
pub(crate) proof fn lemma_insert_to_multiset<A>(s: Seq<A>, pos: int, x: A)
    requires
        0 <= pos <= s.len(),
    ensures
        s.insert(pos, x).to_multiset() =~= s.to_multiset().insert(x),
{
    broadcast use vstd::seq_lib::group_to_multiset_ensures;
    broadcast use vstd::multiset::group_multiset_axioms;

    let a = s.subrange(0, pos);
    let b = s.subrange(pos, s.len() as int);
    assert(s.insert(pos, x) == a.push(x) + b);
    assert(s =~= a + b);
    vstd::seq_lib::lemma_multiset_commutative(a.push(x), b);
    vstd::seq_lib::lemma_multiset_commutative(a, b);
    assert(a.push(x).to_multiset() =~= a.to_multiset().insert(x));
    assert(a.to_multiset().insert(x).add(b.to_multiset()) =~= a.to_multiset().add(
        b.to_multiset(),
    ).insert(x));
}

/// Two positions holding the same value put it twice in the multiset.
pub(crate) proof fn lemma_count_two_at<A>(s: Seq<A>, i: int, j: int)
    requires
        0 <= i < j < s.len(),
        s[i] == s[j],
    ensures
        s.to_multiset().count(s[i]) >= 2,
{
    broadcast use vstd::seq_lib::group_to_multiset_ensures;
    broadcast use vstd::multiset::group_multiset_axioms;

    let s0 = s.subrange(0, j);
    let s1 = s.subrange(j, s.len() as int);
    assert(s =~= s0 + s1);
    vstd::seq_lib::lemma_multiset_commutative(s0, s1);
    assert(s0[i] == s[i]);
    assert(s0.contains(s[i]));
    assert(s0.to_multiset().count(s[i]) > 0);
    assert(s1[0] == s[i]);
    assert(s1.contains(s[i]));
    assert(s1.to_multiset().count(s[i]) > 0);
}

/// A value counted twice in a sequence's multiset sits at two positions.
pub(crate) proof fn lemma_two_indices<A>(s: Seq<A>, x: A)
    requires
        s.to_multiset().count(x) >= 2,
    ensures
        exists|i: int, j: int| 0 <= i < j < s.len() && s[i] == x && s[j] == x,
    decreases s.len(),
{
    broadcast use vstd::seq_lib::group_to_multiset_ensures;
    broadcast use vstd::multiset::group_multiset_axioms;

    if s.len() == 0 {
        assert(s.to_multiset().len() == 0);
        assert(s.to_multiset().count(x) <= 0);
    } else {
        let s0 = s.drop_last();
        assert(s0.push(s.last()) =~= s);
        assert(s.to_multiset() =~= s0.to_multiset().insert(s.last()));
        if s.last() == x {
            assert(s0.to_multiset().count(x) >= 1);
            assert(s0.contains(x));
            let i = choose|i: int| 0 <= i < s0.len() && s0[i] == x;
            assert(s[i] == x && s[s.len() - 1] == x && i < s.len() - 1);
        } else {
            assert(s0.to_multiset().count(x) >= 2);
            lemma_two_indices(s0, x);
            let (i, j) = choose|i: int, j: int| 0 <= i < j < s0.len() && s0[i] == x && s0[j] == x;
            assert(s[i] == x && s[j] == x);
        }
    }
}

/// Removing the first element of a sequence removes it from the multiset.
pub(crate) proof fn lemma_remove_first_to_multiset<A>(s: Seq<A>)
    requires
        s.len() > 0,
    ensures
        s.remove(0).to_multiset() =~= s.to_multiset().remove(s[0]),
        s.to_multiset().count(s[0]) > 0,
{
    broadcast use vstd::seq_lib::group_to_multiset_ensures;
    broadcast use vstd::multiset::group_multiset_axioms;

    assert(s.contains(s[0]));
}

} // verus!
