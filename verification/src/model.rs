use vstd::prelude::*;

verus! {

/// Whether the finished output is meant as text (`Utf8View`) or raw bytes
/// (`BinaryView`). Fixed when a map is created; every batch must match it.
#[derive(Clone, Copy, PartialEq, Eq, Structural)]
pub enum OutputType {
    Utf8View,
    BinaryView,
}

/// One input batch: a columnar sequence of values, each either a byte
/// sequence or null, tagged with the kind of data it carries.
pub struct Batch {
    pub output_type: OutputType,
    pub values: Vec<Option<Vec<u8>>>,
}

impl View for Batch {
    type V = Seq<Option<Seq<u8>>>;

    open spec fn view(&self) -> Seq<Option<Seq<u8>>> {
        self.values.deep_view()
    }
}

/// The abstract state of a map: the distinct values in first-seen order
/// (`None` stands for the single null entry) and the payload attached to each.
#[verifier::ext_equal]
pub ghost struct MapView<P> {
    pub kind: OutputType,
    pub vals: Seq<Option<Seq<u8>>>,
    pub pays: Seq<P>,
}

/// A well-formed map state: one payload per value, and no value twice.
/// Since `None` is a value of the sequence, this also says there is at most
/// one null entry.
pub open spec fn view_wf<P>(m: MapView<P>) -> bool {
    &&& m.pays.len() == m.vals.len()
    &&& forall|p: int, q: int| 0 <= p < q < m.vals.len() ==> m.vals[p] != m.vals[q]
}

/// Whether `v` (a byte sequence, or null as `None`) has been seen.
pub open spec fn contains_val(vals: Seq<Option<Seq<u8>>>, v: Option<Seq<u8>>) -> bool {
    exists|p: int| 0 <= p < vals.len() && vals[p] == v
}

/// The position at which `v` was first (and, well-formed, only) seen.
pub open spec fn pos_of(vals: Seq<Option<Seq<u8>>>, v: Option<Seq<u8>>) -> int {
    choose|p: int| 0 <= p < vals.len() && vals[p] == v
}

/// The payload attached to `v`, or `None` if `v` has never been inserted.
pub open spec fn lookup<P>(m: MapView<P>, v: Option<Seq<u8>>) -> Option<P> {
    if contains_val(m.vals, v) {
        Some(m.pays[pos_of(m.vals, v)])
    } else {
        None
    }
}

/// One position of an insert-if-new pass: a seen value leaves the state
/// unchanged; an unseen one is appended with payload `x`.
pub open spec fn step_if_new<P>(m: MapView<P>, v: Option<Seq<u8>>, x: P) -> MapView<P> {
    if contains_val(m.vals, v) {
        m
    } else {
        MapView { vals: m.vals.push(v), pays: m.pays.push(x), ..m }
    }
}

/// One position of an insert-or-update pass: a seen value has its payload
/// replaced by `x`; an unseen one is appended with payload `x`.
pub open spec fn step_or_update<P>(m: MapView<P>, v: Option<Seq<u8>>, x: P) -> MapView<P> {
    if contains_val(m.vals, v) {
        MapView { pays: m.pays.update(pos_of(m.vals, v), x), ..m }
    } else {
        MapView { vals: m.vals.push(v), pays: m.pays.push(x), ..m }
    }
}

/// A whole insert-if-new pass over `batch`, position by position, in input
/// order. `out[i]` is the payload the caller's strategy produced at position
/// `i`; it is used only where position `i` appends a new value.
pub open spec fn fold_if_new<P>(m: MapView<P>, batch: Seq<Option<Seq<u8>>>, out: Seq<P>) -> MapView<P>
    decreases batch.len(),
{
    if batch.len() == 0 {
        m
    } else {
        fold_if_new(step_if_new(m, batch[0], out[0]), batch.skip(1), out.skip(1))
    }
}

/// A whole insert-or-update pass over `batch`, position by position, in input
/// order. `out[i]` is the payload the caller's strategy left at position `i`
/// (freshly made, or the updated value).
pub open spec fn fold_or_update<P>(m: MapView<P>, batch: Seq<Option<Seq<u8>>>, out: Seq<P>) -> MapView<P>
    decreases batch.len(),
{
    if batch.len() == 0 {
        m
    } else {
        fold_or_update(step_or_update(m, batch[0], out[0]), batch.skip(1), out.skip(1))
    }
}

/// The distinct values after a pass over `batch`: what both insertion
/// operations do to the value sequence, independent of any payload.
pub open spec fn vals_after(vals: Seq<Option<Seq<u8>>>, batch: Seq<Option<Seq<u8>>>) -> Seq<Option<Seq<u8>>>
    decreases batch.len(),
{
    if batch.len() == 0 {
        vals
    } else {
        vals_after(
            if contains_val(vals, batch[0]) {
                vals
            } else {
                vals.push(batch[0])
            },
            batch.skip(1),
        )
    }
}

/// Unfolds one position from the right of an insert-if-new pass.
pub proof fn lemma_fold_if_new_snoc<P>(m: MapView<P>, batch: Seq<Option<Seq<u8>>>, out: Seq<P>, v: Option<Seq<u8>>, x: P)
    requires
        out.len() == batch.len(),
    ensures
        fold_if_new(m, batch.push(v), out.push(x)) == step_if_new(fold_if_new(m, batch, out), v, x),
    decreases batch.len(),
{
    if batch.len() == 0 {
        assert(batch.push(v).skip(1) =~= Seq::<Option<Seq<u8>>>::empty());
        assert(out.push(x).skip(1) =~= Seq::<P>::empty());
        assert(fold_if_new(m, batch.push(v), out.push(x)) == fold_if_new(
            step_if_new(m, v, x),
            batch.push(v).skip(1),
            out.push(x).skip(1),
        ));
        assert(fold_if_new(step_if_new(m, v, x), Seq::<Option<Seq<u8>>>::empty(), Seq::<P>::empty())
            == step_if_new(m, v, x));
    } else {
        assert(batch.push(v).skip(1) =~= batch.skip(1).push(v));
        assert(out.push(x).skip(1) =~= out.skip(1).push(x));
        assert(fold_if_new(m, batch.push(v), out.push(x)) == fold_if_new(
            step_if_new(m, batch[0], out[0]),
            batch.skip(1).push(v),
            out.skip(1).push(x),
        ));
        lemma_fold_if_new_snoc(step_if_new(m, batch[0], out[0]), batch.skip(1), out.skip(1), v, x);
    }
}

/// Unfolds one position from the right of an insert-or-update pass.
pub proof fn lemma_fold_or_update_snoc<P>(m: MapView<P>, batch: Seq<Option<Seq<u8>>>, out: Seq<P>, v: Option<Seq<u8>>, x: P)
    requires
        out.len() == batch.len(),
    ensures
        fold_or_update(m, batch.push(v), out.push(x)) == step_or_update(fold_or_update(m, batch, out), v, x),
    decreases batch.len(),
{
    if batch.len() == 0 {
        assert(batch.push(v).skip(1) =~= Seq::<Option<Seq<u8>>>::empty());
        assert(out.push(x).skip(1) =~= Seq::<P>::empty());
        assert(fold_or_update(m, batch.push(v), out.push(x)) == fold_or_update(
            step_or_update(m, v, x),
            batch.push(v).skip(1),
            out.push(x).skip(1),
        ));
        assert(fold_or_update(
            step_or_update(m, v, x),
            Seq::<Option<Seq<u8>>>::empty(),
            Seq::<P>::empty(),
        ) == step_or_update(m, v, x));
    } else {
        assert(batch.push(v).skip(1) =~= batch.skip(1).push(v));
        assert(out.push(x).skip(1) =~= out.skip(1).push(x));
        assert(fold_or_update(m, batch.push(v), out.push(x)) == fold_or_update(
            step_or_update(m, batch[0], out[0]),
            batch.skip(1).push(v),
            out.skip(1).push(x),
        ));
        lemma_fold_or_update_snoc(step_or_update(m, batch[0], out[0]), batch.skip(1), out.skip(1), v, x);
    }
}

/// An insert-if-new pass never touches existing positions: previously seen
/// values and their payloads stay exactly where they were.
pub proof fn lemma_fold_if_new_prefix<P>(m: MapView<P>, batch: Seq<Option<Seq<u8>>>, out: Seq<P>)
    requires
        m.pays.len() == m.vals.len(),
    ensures
        fold_if_new(m, batch, out).vals.len() >= m.vals.len(),
        fold_if_new(m, batch, out).pays.len() == fold_if_new(m, batch, out).vals.len(),
        forall|p: int| 0 <= p < m.vals.len() ==> fold_if_new(m, batch, out).vals[p] == m.vals[p],
        forall|p: int| 0 <= p < m.vals.len() ==> fold_if_new(m, batch, out).pays[p] == m.pays[p],
    decreases batch.len(),
{
    if batch.len() > 0 {
        let m1 = step_if_new(m, batch[0], out[0]);
        lemma_fold_if_new_prefix(m1, batch.skip(1), out.skip(1));
        assert(fold_if_new(m, batch, out) == fold_if_new(m1, batch.skip(1), out.skip(1)));
        assert forall|p: int| 0 <= p < m.vals.len() implies fold_if_new(m, batch, out).vals[p]
            == m.vals[p] by {
            assert(m1.vals[p] == m.vals[p]);
            assert(fold_if_new(m1, batch.skip(1), out.skip(1)).vals[p] == m1.vals[p]);
        }
        assert forall|p: int| 0 <= p < m.vals.len() implies fold_if_new(m, batch, out).pays[p]
            == m.pays[p] by {
            assert(m1.pays[p] == m.pays[p]);
            assert(fold_if_new(m1, batch.skip(1), out.skip(1)).pays[p] == m1.pays[p]);
        }
    }
}

/// A pass adds at most one distinct value per batch position. Callers chaining
/// insertions use this to bound the map's size against its capacity limit.
pub proof fn lemma_vals_after_len(vals: Seq<Option<Seq<u8>>>, batch: Seq<Option<Seq<u8>>>)
    ensures
        vals.len() <= vals_after(vals, batch).len() <= vals.len() + batch.len(),
    decreases batch.len(),
{
    if batch.len() > 0 {
        let vals1 = if contains_val(vals, batch[0]) {
            vals
        } else {
            vals.push(batch[0])
        };
        lemma_vals_after_len(vals1, batch.skip(1));
    }
}

/// A pass makes exactly the batch's values seen, and forgets none.
pub proof fn lemma_vals_after_membership(
    vals: Seq<Option<Seq<u8>>>,
    batch: Seq<Option<Seq<u8>>>,
    v: Option<Seq<u8>>,
)
    ensures
        contains_val(vals_after(vals, batch), v) <==> (contains_val(vals, v) || batch.contains(v)),
    decreases batch.len(),
{
    if batch.len() == 0 {
        assert(!batch.contains(v));
    } else {
        let vals1 = if contains_val(vals, batch[0]) {
            vals
        } else {
            vals.push(batch[0])
        };
        lemma_vals_after_membership(vals1, batch.skip(1), v);
        assert(contains_val(vals1, v) <==> (contains_val(vals, v) || v == batch[0])) by {
            if contains_val(vals, batch[0]) {
                if v == batch[0] {
                    assert(contains_val(vals, v));
                }
            } else {
                if contains_val(vals1, v) {
                    let p = choose|p: int| 0 <= p < vals1.len() && vals1[p] == v;
                    if p < vals.len() {
                        assert(contains_val(vals, v));
                    } else {
                        assert(v == batch[0]);
                    }
                }
                if contains_val(vals, v) {
                    let p = choose|p: int| 0 <= p < vals.len() && vals[p] == v;
                    assert(vals1[p] == v);
                }
                if v == batch[0] {
                    assert(vals1[vals.len() as int] == v);
                }
            }
        }
        assert(batch.contains(v) <==> (v == batch[0] || batch.skip(1).contains(v))) by {
            if batch.contains(v) {
                let k = choose|k: int| 0 <= k < batch.len() && batch[k] == v;
                if k > 0 {
                    assert(batch.skip(1)[k - 1] == v);
                    assert(batch.skip(1).contains(v));
                }
            }
            if batch.skip(1).contains(v) {
                let k = choose|k: int| 0 <= k < batch.skip(1).len() && batch.skip(1)[k] == v;
                assert(batch[k + 1] == v);
            }
            if v == batch[0] {
                assert(batch[0] == v);
            }
        }
    }
}

/// The value sequence of an insert-if-new pass does not depend on payloads.
pub proof fn lemma_fold_if_new_vals<P>(m: MapView<P>, batch: Seq<Option<Seq<u8>>>, out: Seq<P>)
    ensures
        fold_if_new(m, batch, out).vals == vals_after(m.vals, batch),
        fold_if_new(m, batch, out).kind == m.kind,
    decreases batch.len(),
{
    if batch.len() > 0 {
        lemma_fold_if_new_vals(step_if_new(m, batch[0], out[0]), batch.skip(1), out.skip(1));
    }
}

/// The value sequence of an insert-or-update pass does not depend on payloads.
pub proof fn lemma_fold_or_update_vals<P>(m: MapView<P>, batch: Seq<Option<Seq<u8>>>, out: Seq<P>)
    ensures
        fold_or_update(m, batch, out).vals == vals_after(m.vals, batch),
        fold_or_update(m, batch, out).kind == m.kind,
    decreases batch.len(),
{
    if batch.len() > 0 {
        lemma_fold_or_update_vals(step_or_update(m, batch[0], out[0]), batch.skip(1), out.skip(1));
    }
}

} // verus!
