use vstd::prelude::*;

verus! {

use crate::model::{
    contains_val, fold_if_new, fold_or_update, lemma_fold_if_new_vals, lemma_vals_after_membership,
    lookup, pos_of, step_or_update, vals_after, view_wf, MapView,
};

/// The set of unique non-null byte sequences among `vals`.
pub open spec fn seen_set(vals: Seq<Option<Seq<u8>>>) -> Set<Seq<u8>>
    decreases vals.len(),
{
    if vals.len() == 0 {
        Set::empty()
    } else {
        match vals.last() {
            Some(b) => seen_set(vals.drop_last()).insert(b),
            None => seen_set(vals.drop_last()),
        }
    }
}

/// The seen set holds exactly the non-null values of the sequence, and is
/// finite.
pub proof fn lemma_seen_set_membership(vals: Seq<Option<Seq<u8>>>, b: Seq<u8>)
    ensures
        seen_set(vals).contains(b) <==> contains_val(vals, Some(b)),
        seen_set(vals).finite(),
    decreases vals.len(),
{
    if vals.len() == 0 {
        if contains_val(vals, Some(b)) {
            let p = choose|p: int| 0 <= p < vals.len() && vals[p] == Some(b);
            assert(false);
        }
    } else {
        lemma_seen_set_membership(vals.drop_last(), b);
        if contains_val(vals, Some(b)) {
            let p = choose|p: int| 0 <= p < vals.len() && vals[p] == Some(b);
            if p < vals.len() - 1 {
                assert(vals.drop_last()[p] == Some(b));
                assert(contains_val(vals.drop_last(), Some(b)));
            } else {
                assert(vals.last() == Some(b));
            }
        }
        if contains_val(vals.drop_last(), Some(b)) {
            let p = choose|p: int|
                0 <= p < vals.drop_last().len() && vals.drop_last()[p] == Some(b);
            assert(vals[p] == Some(b));
            assert(contains_val(vals, Some(b)));
        }
    }
}

/// Number of non-null entries of the sequence.
pub open spec fn non_null_count(vals: Seq<Option<Seq<u8>>>) -> int
    decreases vals.len(),
{
    if vals.len() == 0 {
        0
    } else {
        non_null_count(vals.drop_last()) + if vals.last() is Some {
            1int
        } else {
            0int
        }
    }
}

/// With no value stored twice, the number of non-null entries equals the
/// cardinality of the set of unique non-null sequences: entries and unique
/// values are in one-to-one correspondence.
pub proof fn lemma_distinct_count_is_card(vals: Seq<Option<Seq<u8>>>)
    requires
        forall|p: int, q: int| 0 <= p < q < vals.len() ==> vals[p] != vals[q],
    ensures
        non_null_count(vals) == seen_set(vals).len(),
    decreases vals.len(),
{
    broadcast use vstd::set::group_set_axioms;

    if vals.len() > 0 {
        let prefix = vals.drop_last();
        assert(forall|p: int, q: int| 0 <= p < q < prefix.len() ==> prefix[p] != prefix[q]) by {
            assert(forall|p: int| 0 <= p < prefix.len() ==> prefix[p] == vals[p]);
        }
        lemma_distinct_count_is_card(prefix);
        match vals.last() {
            Some(b) => {
                lemma_seen_set_membership(prefix, b);
                if seen_set(prefix).contains(b) {
                    let p = choose|p: int| 0 <= p < prefix.len() && prefix[p] == Some(b);
                    assert(vals[p] == Some(b) && vals[vals.len() - 1] == Some(b));
                    assert(false);
                }
            },
            None => {},
        }
    }
}

/// A sequence with no repeats has at most one null, so the non-null count is
/// the length minus one exactly when a null is present.
pub proof fn lemma_non_null_count_split(vals: Seq<Option<Seq<u8>>>)
    requires
        forall|p: int, q: int| 0 <= p < q < vals.len() ==> vals[p] != vals[q],
    ensures
        non_null_count(vals) == vals.len() - (if contains_val(vals, None) {
            1int
        } else {
            0int
        }),
    decreases vals.len(),
{
    if vals.len() > 0 {
        let prefix = vals.drop_last();
        assert(forall|p: int, q: int| 0 <= p < q < prefix.len() ==> prefix[p] != prefix[q]) by {
            assert(forall|p: int| 0 <= p < prefix.len() ==> prefix[p] == vals[p]);
        }
        lemma_non_null_count_split(prefix);
        if vals.last() is None {
            assert(contains_val(vals, None)) by {
                assert(vals[vals.len() - 1] == None::<Seq<u8>>);
            }
            if contains_val(prefix, None) {
                let p = choose|p: int| 0 <= p < prefix.len() && prefix[p] == None::<Seq<u8>>;
                assert(vals[p] == None::<Seq<u8>> && vals[vals.len() - 1] == None::<Seq<u8>>);
                assert(false);
            }
        } else {
            if contains_val(vals, None) {
                let p = choose|p: int| 0 <= p < vals.len() && vals[p] == None::<Seq<u8>>;
                assert(prefix[p] == None::<Seq<u8>>);
                assert(contains_val(prefix, None));
            }
            if contains_val(prefix, None) {
                let p = choose|p: int| 0 <= p < prefix.len() && prefix[p] == None::<Seq<u8>>;
                assert(vals[p] == None::<Seq<u8>>);
                assert(contains_val(vals, None));
            }
        }
    }
}

/// In every well-formed map state, the number of distinct non-null entries
/// (what `non_null_len` returns) equals the cardinality of the set of unique
/// non-null byte sequences seen so far.
pub proof fn lemma_non_null_len_is_distinct_card<P>(m: MapView<P>)
    requires
        view_wf(m),
    ensures
        m.vals.len() - (if contains_val(m.vals, None) {
            1int
        } else {
            0int
        }) == seen_set(m.vals).len(),
{
    lemma_distinct_count_is_card(m.vals);
    lemma_non_null_count_split(m.vals);
}

/// An insertion pass makes seen exactly the union of what was seen before and
/// the batch's non-null values: nothing is lost, nothing else appears.
pub proof fn lemma_seen_set_after(vals: Seq<Option<Seq<u8>>>, batch: Seq<Option<Seq<u8>>>)
    ensures
        seen_set(vals_after(vals, batch)) == seen_set(vals).union(seen_set(batch)),
{
    let after = vals_after(vals, batch);
    assert forall|b: Seq<u8>|
        seen_set(after).contains(b) <==> seen_set(vals).union(seen_set(batch)).contains(b) by {
        lemma_seen_set_membership(after, b);
        lemma_seen_set_membership(vals, b);
        lemma_seen_set_membership(batch, b);
        lemma_vals_after_membership(vals, batch, Some(b));
        assert(batch.contains(Some(b)) == contains_val(batch, Some(b)));
    }
    assert(seen_set(after) =~= seen_set(vals).union(seen_set(batch)));
}

/// A well-formed state holds at most one null entry.
pub proof fn lemma_single_null<P>(m: MapView<P>, p: int, q: int)
    requires
        view_wf(m),
        0 <= p < m.vals.len(),
        0 <= q < m.vals.len(),
        m.vals[p] is None,
        m.vals[q] is None,
    ensures
        p == q,
{
}

/// The batch's values that are not yet stored, in order of their first
/// occurrence in the batch.
pub open spec fn new_values(
    vals: Seq<Option<Seq<u8>>>,
    batch: Seq<Option<Seq<u8>>>,
) -> Seq<Option<Seq<u8>>>
    decreases batch.len(),
{
    if batch.len() == 0 {
        Seq::empty()
    } else if contains_val(vals, batch[0]) {
        new_values(vals, batch.skip(1))
    } else {
        seq![batch[0]] + new_values(vals.push(batch[0]), batch.skip(1))
    }
}

/// First-seen order: an insertion pass keeps every stored value at its
/// position and appends the batch's unseen values behind them, in the order
/// of their first occurrence. Chained over batches, and with `into_state`
/// emitting the value sequence as it stands, the output order is the order in
/// which each distinct value was first encountered.
pub proof fn lemma_first_seen_order(vals: Seq<Option<Seq<u8>>>, batch: Seq<Option<Seq<u8>>>)
    ensures
        vals_after(vals, batch) == vals + new_values(vals, batch),
    decreases batch.len(),
{
    if batch.len() == 0 {
        assert(vals_after(vals, batch) =~= vals + new_values(vals, batch));
    } else if contains_val(vals, batch[0]) {
        lemma_first_seen_order(vals, batch.skip(1));
    } else {
        let vals1 = vals.push(batch[0]);
        lemma_first_seen_order(vals1, batch.skip(1));
        assert(vals1 + new_values(vals1, batch.skip(1)) =~= vals + (seq![batch[0]] + new_values(
            vals1,
            batch.skip(1),
        )));
    }
}

/// An insert-or-update pass touches only the batch's values: the payload of
/// every stored value that does not occur in the batch stays as it was.
pub proof fn lemma_or_update_untouched<P>(
    m: MapView<P>,
    batch: Seq<Option<Seq<u8>>>,
    out: Seq<P>,
    p: int,
)
    requires
        view_wf(m),
        0 <= p < m.vals.len(),
        forall|k: int| 0 <= k < batch.len() ==> batch[k] != m.vals[p],
    ensures
        fold_or_update(m, batch, out).vals[p] == m.vals[p],
        fold_or_update(m, batch, out).pays[p] == m.pays[p],
    decreases batch.len(),
{
    if batch.len() > 0 {
        let m1 = step_or_update(m, batch[0], out[0]);
        assert(m1.vals[p] == m.vals[p] && m1.pays[p] == m.pays[p]) by {
            if contains_val(m.vals, batch[0]) {
                let q = pos_of(m.vals, batch[0]);
                assert(0 <= q < m.vals.len() && m.vals[q] == batch[0]);
                assert(q != p);
            }
        }
        assert(view_wf(m1)) by {
            if !contains_val(m.vals, batch[0]) {
                assert forall|p2: int, q2: int|
                    0 <= p2 < q2 < m1.vals.len() implies m1.vals[p2] != m1.vals[q2] by {
                    if q2 == m.vals.len() {
                        if m1.vals[p2] == batch[0] {
                            assert(contains_val(m.vals, batch[0]));
                        }
                    }
                }
            }
        }
        lemma_or_update_untouched(m1, batch.skip(1), out.skip(1), p);
        assert(forall|k: int| 0 <= k < batch.skip(1).len() ==> batch.skip(1)[k] == batch[k + 1]);
    }
}

/// Re-querying any value of a batch just passed through insert-if-new finds a
/// payload: every batch position is present afterwards.
pub proof fn lemma_requery_present<P>(
    m: MapView<P>,
    batch: Seq<Option<Seq<u8>>>,
    out: Seq<P>,
    k: int,
)
    requires
        0 <= k < batch.len(),
    ensures
        lookup(fold_if_new(m, batch, out), batch[k]) is Some,
{
    lemma_fold_if_new_vals(m, batch, out);
    lemma_vals_after_membership(m.vals, batch, batch[k]);
    assert(batch.contains(batch[k]));
}

} // verus!
