//! Shared machinery of the insertion sorts: inserting one element keeps a
//! chain ordered and adds exactly its multiplicity, and integer vectors are
//! sorted by repeated ordered insertion.

use vstd::multiset::Multiset;
use vstd::prelude::*;

verus! {

/// Inserting an element between a left neighbour it may follow and a right
/// neighbour it may precede keeps a chain ordered.
pub proof fn lemma_chain_insert<A>(pre: Seq<A>, x: A, j: int, le: spec_fn(A, A) -> bool)
    requires
        forall|i: int| 0 <= i && i + 1 < pre.len() ==> le(#[trigger] pre[i], pre[i + 1]),
        0 <= j <= pre.len(),
        j > 0 ==> le(pre[j - 1], x),
        j < pre.len() ==> le(x, pre[j]),
    ensures
        forall|i: int|
            0 <= i && i + 1 < pre.insert(j, x).len() ==> le(
                #[trigger] pre.insert(j, x)[i],
                pre.insert(j, x)[i + 1],
            ),
{
    let s2 = pre.insert(j, x);
    assert(forall|m: int| #![trigger s2[m]] 0 <= m < j ==> s2[m] == pre[m]);
    assert(s2[j] == x);
    assert(forall|m: int| #![trigger s2[m]] j < m < s2.len() ==> s2[m] == pre[m - 1]);
    assert forall|i: int| 0 <= i && i + 1 < s2.len() implies le(#[trigger] s2[i], s2[i + 1]) by {
        if i + 1 < j {
            assert(le(pre[i], pre[i + 1]));
        } else if i + 1 == j {
            assert(s2[i] == pre[j - 1]);
        } else if i > j {
            assert(le(pre[i - 1], pre[i]));
        }
    }
}

/// Inserting an element anywhere adds exactly its multiplicity.
pub proof fn lemma_insert_multiset<A>(s: Seq<A>, j: int, x: A)
    requires
        0 <= j <= s.len(),
    ensures
        s.insert(j, x).to_multiset() == s.to_multiset().insert(x),
{
    broadcast use vstd::seq_lib::group_to_multiset_ensures;

    let s2 = s.insert(j, x);
    assert(s2.remove(j) =~= s);
    assert(s2[j] == x);
    assert(s2.remove(j).to_multiset() =~= s2.to_multiset().remove(x));
    assert(s2.contains(x));
    assert(s2.to_multiset().count(x) > 0);
    assert(s2.to_multiset() =~= s.to_multiset().insert(x)) by {
        assert forall|y: A| s2.to_multiset().count(y) == s.to_multiset().insert(x).count(y) by {
            assert(s.to_multiset().count(y) == s2.to_multiset().remove(x).count(y));
        }
    }
}

/// Removing the last element splits off its multiplicity.
pub proof fn lemma_ms_drop_last<A>(s: Seq<A>)
    requires
        s.len() > 0,
    ensures
        s.to_multiset() == s.drop_last().to_multiset().insert(s.last()),
{
    broadcast use vstd::seq_lib::group_to_multiset_ensures;

    assert(s.drop_last().push(s.last()) =~= s);
    assert(s.drop_last().push(s.last()).to_multiset() =~= s.drop_last().to_multiset().insert(
        s.last(),
    ));
}

pub open spec fn sorted_u64(v: Seq<u64>) -> bool {
    forall|i: int, j: int| 0 <= i <= j < v.len() ==> v[i] <= v[j]
}

proof fn lemma_sorted_adjacent_i64(v: Seq<i64>, a: int, b: int)
    requires
        forall|i: int| 0 <= i && i + 1 < v.len() ==> #[trigger] v[i] <= v[i + 1],
        0 <= a <= b < v.len(),
    ensures
        v[a] <= v[b],
    decreases b - a,
{
    if a < b {
        lemma_sorted_adjacent_i64(v, a, b - 1);
        assert(v[b - 1] <= v[b]);
    }
}

proof fn lemma_sorted_adjacent_u64(v: Seq<u64>, a: int, b: int)
    requires
        forall|i: int| 0 <= i && i + 1 < v.len() ==> #[trigger] v[i] <= v[i + 1],
        0 <= a <= b < v.len(),
    ensures
        v[a] <= v[b],
    decreases b - a,
{
    if a < b {
        lemma_sorted_adjacent_u64(v, a, b - 1);
        assert(v[b - 1] <= v[b]);
    }
}

/// Sorts the values ascending; the result is a permutation of the input.
pub fn sort_i64(values: Vec<i64>) -> (r: Vec<i64>)
    ensures
        r@.to_multiset() == values@.to_multiset(),
        r@.len() == values@.len(),
        crate::percentile::sorted_i64(r@),
        forall|i: int| 0 <= i < r@.len() ==> values@.contains(#[trigger] r@[i]),
{
    broadcast use vstd::seq_lib::group_to_multiset_ensures;

    let ghost orig = values@;
    let mut rest = values;
    let mut out: Vec<i64> = Vec::new();
    proof {
        assert(out@.to_multiset().len() == 0);
        assert(out@.to_multiset() =~= Multiset::<i64>::empty());
        assert(out@.to_multiset().add(rest@.to_multiset()) =~= orig.to_multiset());
    }
    while rest.len() > 0
        invariant
            out@.to_multiset().add(rest@.to_multiset()) == orig.to_multiset(),
            out@.len() + rest@.len() == orig.len(),
            forall|a: int| 0 <= a && a + 1 < out@.len() ==> #[trigger] out@[a] <= out@[a + 1],
        decreases rest@.len(),
    {
        let ghost before = rest@;
        let x = rest.remove(rest.len() - 1);
        proof {
            assert(rest@ =~= before.drop_last());
            lemma_ms_drop_last(before);
        }
        let mut j: usize = out.len();
        while j > 0 && out[j - 1] > x
            invariant
                j <= out@.len(),
                forall|m: int| j <= m < out@.len() ==> x < #[trigger] out@[m],
            decreases j,
        {
            j -= 1;
        }
        let ghost pre = out@;
        let ghost out_before = out@.to_multiset();
        proof {
            lemma_chain_insert(pre, x, j as int, |a: i64, b: i64| a <= b);
            lemma_insert_multiset(pre, j as int, x);
        }
        out.insert(j, x);
        proof {
            broadcast use vstd::multiset::group_multiset_axioms;

            assert(out@.to_multiset() == out_before.insert(before.last()));
            assert(before.to_multiset() == rest@.to_multiset().insert(before.last()));
            assert(out@.to_multiset().add(rest@.to_multiset()) =~= orig.to_multiset());
        }
    }
    proof {
        broadcast use vstd::multiset::group_multiset_axioms;

        assert(rest@.to_multiset().len() == 0);
        assert(rest@.to_multiset() =~= Multiset::<i64>::empty());
        assert(out@.to_multiset() =~= orig.to_multiset());
        assert forall|a: int, b: int| 0 <= a <= b < out@.len() implies out@[a] <= out@[b] by {
            lemma_sorted_adjacent_i64(out@, a, b);
        }
        assert forall|i: int| 0 <= i < out@.len() implies values@.contains(
            #[trigger] out@[i],
        ) by {
            assert(out@.contains(out@[i]));
            assert(out@.to_multiset().count(out@[i]) > 0);
            assert(orig.to_multiset().count(out@[i]) > 0);
            assert(orig.contains(out@[i]));
        }
    }
    out
}

/// Sorts the values ascending; the result is a permutation of the input.
pub fn sort_u64(values: Vec<u64>) -> (r: Vec<u64>)
    ensures
        r@.to_multiset() == values@.to_multiset(),
        r@.len() == values@.len(),
        sorted_u64(r@),
        forall|i: int| 0 <= i < r@.len() ==> values@.contains(#[trigger] r@[i]),
{
    broadcast use vstd::seq_lib::group_to_multiset_ensures;

    let ghost orig = values@;
    let mut rest = values;
    let mut out: Vec<u64> = Vec::new();
    proof {
        assert(out@.to_multiset().len() == 0);
        assert(out@.to_multiset() =~= Multiset::<u64>::empty());
        assert(out@.to_multiset().add(rest@.to_multiset()) =~= orig.to_multiset());
    }
    while rest.len() > 0
        invariant
            out@.to_multiset().add(rest@.to_multiset()) == orig.to_multiset(),
            out@.len() + rest@.len() == orig.len(),
            forall|a: int| 0 <= a && a + 1 < out@.len() ==> #[trigger] out@[a] <= out@[a + 1],
        decreases rest@.len(),
    {
        let ghost before = rest@;
        let x = rest.remove(rest.len() - 1);
        proof {
            assert(rest@ =~= before.drop_last());
            lemma_ms_drop_last(before);
        }
        let mut j: usize = out.len();
        while j > 0 && out[j - 1] > x
            invariant
                j <= out@.len(),
                forall|m: int| j <= m < out@.len() ==> x < #[trigger] out@[m],
            decreases j,
        {
            j -= 1;
        }
        let ghost pre = out@;
        let ghost out_before = out@.to_multiset();
        proof {
            lemma_chain_insert(pre, x, j as int, |a: u64, b: u64| a <= b);
            lemma_insert_multiset(pre, j as int, x);
        }
        out.insert(j, x);
        proof {
            broadcast use vstd::multiset::group_multiset_axioms;

            assert(out@.to_multiset() == out_before.insert(before.last()));
            assert(before.to_multiset() == rest@.to_multiset().insert(before.last()));
            assert(out@.to_multiset().add(rest@.to_multiset()) =~= orig.to_multiset());
        }
    }
    proof {
        broadcast use vstd::multiset::group_multiset_axioms;

        assert(rest@.to_multiset().len() == 0);
        assert(rest@.to_multiset() =~= Multiset::<u64>::empty());
        assert(out@.to_multiset() =~= orig.to_multiset());
        assert forall|a: int, b: int| 0 <= a <= b < out@.len() implies out@[a] <= out@[b] by {
            lemma_sorted_adjacent_u64(out@, a, b);
        }
        assert forall|i: int| 0 <= i < out@.len() implies values@.contains(
            #[trigger] out@[i],
        ) by {
            assert(out@.contains(out@[i]));
            assert(out@.to_multiset().count(out@[i]) > 0);
            assert(orig.to_multiset().count(out@[i]) > 0);
            assert(orig.contains(out@[i]));
        }
    }
    out
}

} // verus!
