use vstd::prelude::*;

use vstd::arithmetic::div_mod::{
    lemma_basic_div, lemma_div_denominator, lemma_hoist_over_denominator,
    lemma_mod_multiples_vanish,
};

use crate::merkle::{
    leaf_digests_of, reconstruct_from, sha256_of, spec_is_pow2, spec_pow2, tree_of, TreeView,
};

verus! {

/// Two raised to any power is positive.
pub proof fn lemma_pow2_pos(k: nat)
    ensures
        spec_pow2(k) >= 1,
    decreases k,
{
    if k > 0 {
        lemma_pow2_pos((k - 1) as nat);
    }
}

/// Every power of two satisfies the divisibility characterisation, in the
/// direction from an exponent to the predicate's witness.
pub proof fn lemma_is_pow2_exists(n: int)
    requires
        spec_is_pow2(n),
    ensures
        exists|k: nat| n == spec_pow2(k),
    decreases n,
{
    if n == 1 {
        assert(n == spec_pow2(0));
    } else {
        lemma_is_pow2_exists(n / 2);
        let k = choose|k: nat| n / 2 == spec_pow2(k);
        assert(n == spec_pow2(k + 1));
    }
}

/// The tree built over `2^k` digests is complete, has height `k`, and carries
/// exactly those digests at its leaves, in order.
pub proof fn lemma_built_tree_shape(digests: Seq<Seq<u8>>, k: nat)
    requires
        digests.len() == spec_pow2(k),
    ensures
        tree_of(digests).height() == k,
        tree_of(digests).complete(),
        tree_of(digests).leaf_digests() == digests,
    decreases k,
{
    lemma_pow2_pos(k);
    if k == 0 {
        assert(tree_of(digests).leaf_digests() =~= digests);
    } else {
        let n = digests.len() as int;
        lemma_pow2_pos((k - 1) as nat);
        assert(n == 2 * spec_pow2((k - 1) as nat));
        let left = digests.take(n / 2);
        let right = digests.skip(n / 2);
        assert(left.len() == spec_pow2((k - 1) as nat));
        assert(right.len() == spec_pow2((k - 1) as nat));
        lemma_built_tree_shape(left, (k - 1) as nat);
        lemma_built_tree_shape(right, (k - 1) as nat);
        assert(tree_of(digests).leaf_digests() =~= digests);
    }
}

/// Over any record list whose length is a power of two, the built tree is
/// complete, carries the records' digests at its leaves in order, and its
/// height is the base-two logarithm of the record count.
pub proof fn lemma_build_shape(records: Seq<Seq<u8>>)
    requires
        spec_is_pow2(records.len() as int),
    ensures
        tree_of(leaf_digests_of(records)).complete(),
        tree_of(leaf_digests_of(records)).leaf_digests() == leaf_digests_of(records),
        spec_pow2(tree_of(leaf_digests_of(records)).height()) == records.len(),
{
    lemma_is_pow2_exists(records.len() as int);
    let k = choose|k: nat| records.len() as int == spec_pow2(k);
    lemma_built_tree_shape(leaf_digests_of(records), k);
}

/// Building from identical records is deterministic: any two trees built over
/// the same record list carry the same root digest.
pub proof fn lemma_build_deterministic(t1: TreeView, t2: TreeView, records: Seq<Seq<u8>>)
    requires
        t1 == tree_of(leaf_digests_of(records)),
        t2 == tree_of(leaf_digests_of(records)),
    ensures
        t1.root_digest() == t2.root_digest(),
{
}

/// A complete tree of height `h` has exactly `2^h` leaves.
pub proof fn lemma_complete_leaf_count(t: TreeView)
    requires
        t.complete(),
    ensures
        t.leaf_digests().len() == spec_pow2(t.height()),
    decreases t,
{
    match t {
        TreeView::Leaf(_) => {},
        TreeView::Internal(l, r) => {
            lemma_complete_leaf_count(*l);
            lemma_complete_leaf_count(*r);
        },
    }
}

/// Every tree has at least one leaf, and its pre-order flattening lists
/// exactly `2*N - 1` nodes for `N` leaves.
pub proof fn lemma_flatten_count(t: TreeView)
    ensures
        t.leaf_digests().len() >= 1,
        t.flattened().len() == 2 * t.leaf_digests().len() - 1,
    decreases t,
{
    match t {
        TreeView::Leaf(_) => {},
        TreeView::Internal(l, r) => {
            lemma_flatten_count(*l);
            lemma_flatten_count(*r);
        },
    }
}

/// In a complete tree the sibling path for any position has one entry per
/// level.
pub proof fn lemma_sibling_path_len(t: TreeView, i: int)
    requires
        t.complete(),
    ensures
        t.sibling_path(i).len() == t.height(),
    decreases t,
{
    match t {
        TreeView::Leaf(_) => {},
        TreeView::Internal(l, r) => {
            let half = (*l).leaf_digests().len() as int;
            if i < half {
                lemma_sibling_path_len(*l, i);
            } else {
                lemma_sibling_path_len(*r, i - half);
            }
        },
    }
}

/// Appending one more sibling to a proof combines the reconstruction so far
/// with that sibling, on the side chosen by the leaf position's bit at the
/// new level.
pub proof fn lemma_reconstruct_snoc(d: Seq<u8>, i: int, p: Seq<Seq<u8>>, x: Seq<u8>)
    requires
        i >= 0,
    ensures
        reconstruct_from(d, i, p + seq![x]) == (if (i / spec_pow2(p.len()) as int) % 2 == 0 {
            sha256_of(reconstruct_from(d, i, p) + x)
        } else {
            sha256_of(x + reconstruct_from(d, i, p))
        }),
    decreases p.len(),
{
    if p.len() == 0 {
        let q = p + seq![x];
        let combined = if i % 2 == 0 {
            sha256_of(d + x)
        } else {
            sha256_of(x + d)
        };
        assert(q[0] == x);
        assert(q.skip(1) =~= Seq::<Seq<u8>>::empty());
        assert(reconstruct_from(combined, i / 2, q.skip(1)) == combined);
        assert(reconstruct_from(d, i, q) == combined);
        assert(reconstruct_from(d, i, p) == d);
        vstd::arithmetic::div_mod::lemma_div_basics(i);
        assert(spec_pow2(p.len()) == 1);
        assert(i / spec_pow2(p.len()) as int == i);
    } else {
        let q = p + seq![x];
        assert(q[0] == p[0]);
        assert(q.skip(1) =~= p.skip(1) + seq![x]);
        let combined = if i % 2 == 0 {
            sha256_of(d + p[0])
        } else {
            sha256_of(p[0] + d)
        };
        lemma_reconstruct_snoc(combined, i / 2, p.skip(1), x);
        let m = spec_pow2((p.len() - 1) as nat) as int;
        lemma_pow2_pos((p.len() - 1) as nat);
        lemma_div_denominator(i, 2, m);
        assert(spec_pow2(p.len()) == 2 * spec_pow2((p.len() - 1) as nat));
        assert((i / 2) / m == i / spec_pow2(p.len()) as int);
        assert(reconstruct_from(d, i, q) == reconstruct_from(combined, i / 2, q.skip(1)));
        assert(reconstruct_from(d, i, p) == reconstruct_from(combined, i / 2, p.skip(1)));
    }
}

/// Shifting the leaf position by a full multiple of the subtree width does
/// not change what a proof of that width reconstructs.
pub proof fn lemma_reconstruct_index_shift(d: Seq<u8>, i: int, p: Seq<Seq<u8>>)
    requires
        i >= 0,
    ensures
        reconstruct_from(d, i + spec_pow2(p.len()) as int, p) == reconstruct_from(d, i, p),
    decreases p.len(),
{
    if p.len() > 0 {
        let m = spec_pow2((p.len() - 1) as nat) as int;
        lemma_pow2_pos((p.len() - 1) as nat);
        assert(spec_pow2(p.len()) == 2 * spec_pow2((p.len() - 1) as nat));
        let j = i + 2 * m;
        lemma_mod_multiples_vanish(m, i, 2);
        assert(j % 2 == i % 2);
        lemma_hoist_over_denominator(i, m, 2);
        assert(j / 2 == i / 2 + m);
        let combined = if i % 2 == 0 {
            sha256_of(d + p[0])
        } else {
            sha256_of(p[0] + d)
        };
        lemma_reconstruct_index_shift(combined, i / 2, p.skip(1));
    }
}

/// Walking from leaf `i` to the root along the derived sibling path
/// reconstructs exactly the tree's root digest.
pub proof fn lemma_sibling_path_reconstructs(t: TreeView, i: int)
    requires
        t.complete(),
        0 <= i < t.leaf_digests().len(),
    ensures
        reconstruct_from(t.leaf_digests()[i], i, t.sibling_path(i)) == t.root_digest(),
    decreases t,
{
    match t {
        TreeView::Leaf(_) => {
            assert(t.sibling_path(i) =~= Seq::<Seq<u8>>::empty());
        },
        TreeView::Internal(l, r) => {
            let half = (*l).leaf_digests().len() as int;
            let h = (*l).height();
            lemma_complete_leaf_count(*l);
            lemma_complete_leaf_count(*r);
            let d = t.leaf_digests()[i];
            if i < half {
                lemma_sibling_path_reconstructs(*l, i);
                let pl = (*l).sibling_path(i);
                lemma_sibling_path_len(*l, i);
                assert(d == (*l).leaf_digests()[i]);
                lemma_reconstruct_snoc(d, i, pl, (*r).root_digest());
                lemma_basic_div(i, spec_pow2(h) as int);
                assert(reconstruct_from(d, i, pl + seq![(*r).root_digest()]) == sha256_of(
                    (*l).root_digest() + (*r).root_digest(),
                ));
            } else {
                let i2 = i - half;
                lemma_sibling_path_reconstructs(*r, i2);
                let pr = (*r).sibling_path(i2);
                lemma_sibling_path_len(*r, i2);
                assert(pr.len() == h);
                assert(d == (*r).leaf_digests()[i2]);
                lemma_reconstruct_index_shift(d, i2, pr);
                assert(reconstruct_from(d, i, pr) == (*r).root_digest());
                lemma_reconstruct_snoc(d, i, pr, (*l).root_digest());
                lemma_pow2_pos(h);
                lemma_basic_div(i2, spec_pow2(h) as int);
                lemma_hoist_over_denominator(i2, 1, spec_pow2(h));
                assert(i / spec_pow2(h) as int == 1);
                assert(reconstruct_from(d, i, pr + seq![(*l).root_digest()]) == sha256_of(
                    (*l).root_digest() + (*r).root_digest(),
                ));
            }
        },
    }
}

/// For every leaf position of a complete tree, the proof derived by walking
/// from that leaf to the root verifies as a member proof for any record whose
/// digest sits at that position.
pub proof fn lemma_derived_proof_verifies(t: TreeView, leaf: Seq<u8>, i: int)
    requires
        t.complete(),
        0 <= i < t.leaf_digests().len(),
        t.leaf_digests()[i] == sha256_of(leaf),
    ensures
        t.accepts(leaf, t.sibling_path(i)),
{
    lemma_sibling_path_len(t, i);
    lemma_sibling_path_reconstructs(t, i);
}

/// For a tree built over a power-of-two record list, the proof derived by
/// walking from any record's leaf position to the root verifies that record
/// as a member.
pub proof fn lemma_built_tree_proofs_verify(records: Seq<Seq<u8>>, i: int)
    requires
        spec_is_pow2(records.len() as int),
        0 <= i < records.len(),
    ensures
        tree_of(leaf_digests_of(records)).accepts(
            records[i],
            tree_of(leaf_digests_of(records)).sibling_path(i),
        ),
{
    lemma_build_shape(records);
    let t = tree_of(leaf_digests_of(records));
    assert(t.leaf_digests()[i] == sha256_of(records[i]));
    lemma_derived_proof_verifies(t, records[i], i);
}

/// A proof whose length differs from the tree's height is rejected, whatever
/// its content.
pub proof fn lemma_wrong_length_rejected(t: TreeView, leaf: Seq<u8>, proof: Seq<Seq<u8>>)
    requires
        proof.len() != t.height(),
    ensures
        !t.accepts(leaf, proof),
{
}

} // verus!
