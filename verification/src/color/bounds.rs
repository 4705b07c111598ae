//! Bounding boxes, detections, and the fixed-capacity detection batch.
//!
//! Coordinates and confidences are fixed-point integers; see the crate root.

use vstd::prelude::*;
use vstd::seq_lib::group_to_multiset_ensures;
use vstd::seq_lib::lemma_multiset_commutative;

use crate::config::COORD_LIMIT;
use crate::config::DETECTIONS_CAPACITY;
use crate::utils::sort::comparator_orders;

verus! {

/// An axis-aligned rectangle `(x1, y1)`–`(x2, y2)` delimiting a detected
/// object.
#[derive(Debug, Clone, Copy, PartialEq, Eq, Structural)]
pub struct BoundingBox {
    /// Left edge.
    pub x1: i64,
    /// Top edge.
    pub y1: i64,
    /// Right edge.
    pub x2: i64,
    /// Bottom edge.
    pub y2: i64,
}

impl BoundingBox {
    /// All four coordinates within `[-COORD_LIMIT, COORD_LIMIT]`, so that
    /// widths, heights and areas stay inside `i64`.
    pub open spec fn well_formed(self) -> bool {
        &&& -COORD_LIMIT <= self.x1 <= COORD_LIMIT
        &&& -COORD_LIMIT <= self.y1 <= COORD_LIMIT
        &&& -COORD_LIMIT <= self.x2 <= COORD_LIMIT
        &&& -COORD_LIMIT <= self.y2 <= COORD_LIMIT
    }

    /// Absolute horizontal extent.
    pub open spec fn spec_width(self) -> int {
        if self.x2 >= self.x1 {
            self.x2 - self.x1
        } else {
            self.x1 - self.x2
        }
    }

    /// Absolute vertical extent.
    pub open spec fn spec_height(self) -> int {
        if self.y2 >= self.y1 {
            self.y2 - self.y1
        } else {
            self.y1 - self.y2
        }
    }

    /// Area from the absolute extents.
    pub open spec fn spec_area(self) -> int {
        self.spec_width() * self.spec_height()
    }

    /// A box from its four corners.
    pub fn new(x1: i64, y1: i64, x2: i64, y2: i64) -> (r: Self)
        ensures
            r == (BoundingBox { x1, y1, x2, y2 }),
    {
        BoundingBox { x1, y1, x2, y2 }
    }

    /// The degenerate box at the origin.
    pub fn default() -> (r: Self)
        ensures
            r == (BoundingBox { x1: 0, y1: 0, x2: 0, y2: 0 }),
    {
        BoundingBox { x1: 0, y1: 0, x2: 0, y2: 0 }
    }

    /// Width of the box.
    pub fn width(&self) -> (r: i64)
        requires
            self.well_formed(),
        ensures
            r == self.spec_width(),
    {
        if self.x2 >= self.x1 {
            self.x2 - self.x1
        } else {
            self.x1 - self.x2
        }
    }

    /// Height of the box.
    pub fn height(&self) -> (r: i64)
        requires
            self.well_formed(),
        ensures
            r == self.spec_height(),
    {
        if self.y2 >= self.y1 {
            self.y2 - self.y1
        } else {
            self.y1 - self.y2
        }
    }

    /// Area of the box.
    pub fn area(&self) -> (r: i64)
        requires
            self.well_formed(),
        ensures
            r == self.spec_area(),
    {
        let w = self.width();
        let h = self.height();
        proof {
            assert(w * h <= 2 * COORD_LIMIT * (2 * COORD_LIMIT) && w * h >= 0) by (nonlinear_arith)
                requires
                    0 <= w <= 2 * COORD_LIMIT,
                    0 <= h <= 2 * COORD_LIMIT,
            ;
        }
        w * h
    }

    /// Whether both extents are strictly positive.
    pub fn is_valid(&self) -> (r: bool)
        requires
            self.well_formed(),
        ensures
            r == (self.spec_width() > 0 && self.spec_height() > 0),
    {
        self.width() > 0 && self.height() > 0
    }
}

/// One detected object: its box in source-image coordinates, its class, and
/// its confidence in `SCORE_SCALE` units. Immutable once produced.
#[derive(Debug, Clone)]
pub struct Detection {
    /// Bounding box in source-image coordinates.
    pub bbox: BoundingBox,
    /// Class identifier; this pipeline only ever emits class 0.
    pub class_id: usize,
    /// Human-readable class name.
    pub class_name: String,
    /// Confidence in `SCORE_SCALE` units.
    pub confidence: i64,
}

impl Detection {
    /// A detection from its parts.
    pub fn new(bbox: BoundingBox, class_id: usize, class_name: String, confidence: i64) -> (r:
        Self)
        ensures
            r.bbox == bbox,
            r.class_id == class_id,
            r.class_name@ == class_name@,
            r.confidence == confidence,
    {
        Detection { bbox, class_id, class_name, confidence }
    }

    /// The all-zero detection with an empty class name.
    pub fn default() -> (r: Self)
        ensures
            r.bbox == (BoundingBox { x1: 0, y1: 0, x2: 0, y2: 0 }),
            r.class_id == 0,
            r.class_name@ == Seq::<char>::empty(),
            r.confidence == 0,
    {
        Detection {
            bbox: BoundingBox { x1: 0, y1: 0, x2: 0, y2: 0 },
            class_id: 0,
            class_name: String::new(),
            confidence: 0,
        }
    }
}

/// Fixed-capacity, order-preserving batch of detections. Appending beyond
/// [`DETECTIONS_CAPACITY`] is a silent drop — an explicit backpressure
/// policy, not an error; `push` reports whether the item was kept so callers
/// that need overflow visibility have it.
pub struct Bounds {
    items: Vec<Detection>,
}

impl View for Bounds {
    type V = Seq<Detection>;

    /// The held detections, oldest first.
    closed spec fn view(&self) -> Seq<Detection> {
        self.items@
    }
}

impl Bounds {
    /// Structural invariant: never more than the capacity.
    pub closed spec fn wf(self) -> bool {
        self.items@.len() <= DETECTIONS_CAPACITY
    }

    /// A well-formed batch never holds more than `DETECTIONS_CAPACITY`
    /// detections.
    pub proof fn lemma_count_bound(self)
        requires
            self.wf(),
        ensures
            self@.len() <= DETECTIONS_CAPACITY,
    {
    }

    /// An empty batch.
    pub fn new() -> (r: Self)
        ensures
            r.wf(),
            r@ == Seq::<Detection>::empty(),
    {
        Bounds { items: Vec::new() }
    }

    /// Appends `detection` if the batch is below capacity; drops it
    /// otherwise. Returns whether the item was kept.
    pub fn push(&mut self, detection: Detection) -> (kept: bool)
        requires
            old(self).wf(),
        ensures
            final(self).wf(),
            kept == (old(self)@.len() < DETECTIONS_CAPACITY),
            kept ==> final(self)@ == old(self)@.push(detection),
            !kept ==> final(self)@ == old(self)@,
    {
        if self.items.len() < DETECTIONS_CAPACITY {
            self.items.push(detection);
            true
        } else {
            false
        }
    }

    /// Removes every detection.
    pub fn clear(&mut self)
        ensures
            final(self).wf(),
            final(self)@ == Seq::<Detection>::empty(),
    {
        self.items.clear();
    }

    /// Number of detections held.
    pub fn len(&self) -> (r: usize)
        ensures
            r == self@.len(),
    {
        self.items.len()
    }

    /// Whether the batch holds nothing.
    pub fn is_empty(&self) -> (r: bool)
        ensures
            r == (self@.len() == 0),
    {
        self.items.len() == 0
    }

    /// The held detections as a slice, oldest first.
    pub fn as_slice(&self) -> (r: &[Detection])
        ensures
            r@ == self@,
    {
        self.items.as_slice()
    }

    /// The held detections as a mutable slice. Element writes keep the
    /// slice's length, and with it the batch's capacity bound.
    pub fn as_mut_slice(&mut self) -> (r: &mut [Detection])
        requires
            old(self).wf(),
        ensures
            r@ == old(self)@,
            final(self)@ == final(r)@,
            final(r)@.len() == r@.len() ==> final(self).wf(),
    {
        self.items.as_mut_slice()
    }

    /// The detection at `index`, or `None` past the end.
    pub fn get(&self, index: usize) -> (r: Option<&Detection>)
        ensures
            index < self@.len() ==> r is Some && *r->0 == self@[index as int],
            index >= self@.len() ==> r is None,
    {
        if index < self.items.len() {
            Some(&self.items[index])
        } else {
            None
        }
    }

    /// Mutable access to the detection at `index`, or `None` past the end.
    pub fn get_mut(&mut self, index: usize) -> (r: Option<&mut Detection>)
        requires
            old(self).wf(),
        ensures
            index >= old(self)@.len() ==> r is None && *final(self) == *old(self),
            index < old(self)@.len() ==> r is Some && {
                &&& *r->0 == old(self)@[index as int]
                &&& final(self)@ == old(self)@.update(index as int, *final(r->0))
                &&& final(self).wf()
            },
    {
        if index < self.items.len() {
            Some(&mut self.items[index])
        } else {
            None
        }
    }

    /// The oldest detection, or `None` when empty.
    pub fn first(&self) -> (r: Option<&Detection>)
        ensures
            self@.len() > 0 ==> r is Some && *r->0 == self@[0],
            self@.len() == 0 ==> r is None,
    {
        if self.items.len() > 0 {
            Some(&self.items[0])
        } else {
            None
        }
    }

    /// Keeps only the detections the predicate approves, in their original
    /// order. The contract hands the caller the exact decision record: a
    /// boolean per original detection, each one a result the predicate
    /// really returned for it, with the survivors being precisely the
    /// approved ones.
    pub fn retain<F: Fn(&Detection) -> bool>(&mut self, f: F)
        requires
            old(self).wf(),
            forall|d: Detection| #[trigger] f.requires((&d,)),
        ensures
            final(self).wf(),
            final(self)@.len() <= old(self)@.len(),
            exists|keep: Seq<bool>|
                {
                    &&& keep.len() == old(self)@.len()
                    &&& final(self)@ == spec_filtered(old(self)@, keep)
                    &&& forall|i: int|
                        0 <= i < keep.len() ==> f.ensures(
                            (&old(self)@[i],),
                            #[trigger] keep[i],
                        )
                },
    {
        let ghost orig = self.items@;
        let mut out: Vec<Detection> = Vec::new();
        let ghost mut keep: Seq<bool> = Seq::empty();
        proof {
            assert(orig.subrange(0, 0) =~= Seq::<Detection>::empty());
            assert(orig.subrange(0, orig.len() as int) =~= orig);
        }
        while self.items.len() > 0
            invariant
                forall|d: Detection| #[trigger] f.requires((&d,)),
                keep.len() + self.items@.len() == orig.len(),
                orig.len() <= DETECTIONS_CAPACITY,
                self.items@ == orig.subrange(keep.len() as int, orig.len() as int),
                out@ == spec_filtered(orig.subrange(0, keep.len() as int), keep),
                out@.len() <= keep.len(),
                forall|i: int|
                    0 <= i < keep.len() ==> f.ensures((&orig[i],), #[trigger] keep[i]),
            decreases self.items@.len(),
        {
            let ghost pre_keep = keep;
            let ghost pre_out = out@;
            let ghost done = keep.len() as int;
            let d = self.items.remove(0);
            proof {
                assert(d == orig.subrange(done, orig.len() as int)[0]);
                assert(d == orig[done]);
                assert(self.items@ =~= orig.subrange(done + 1, orig.len() as int));
            }
            let kept = f(&d);
            if kept {
                out.push(d);
            }
            proof {
                keep = keep.push(kept);
                let prefix = orig.subrange(0, done + 1);
                assert(prefix.drop_last() =~= orig.subrange(0, done));
                assert(keep.drop_last() =~= pre_keep);
                assert(prefix.last() == orig[done]);
                assert(keep.last() == kept);
                if kept {
                    assert(out@ =~= spec_filtered(prefix, keep));
                } else {
                    assert(out@ == spec_filtered(prefix, keep));
                }
            }
        }
        proof {
            assert(orig.subrange(0, keep.len() as int) =~= orig);
        }
        self.items = out;
    }

    /// Reorders the detections by confidence, highest first. The batch
    /// keeps exactly the detections it had (same multiset).
    pub fn sort_by_confidence(&mut self)
        requires
            old(self).wf(),
        ensures
            final(self).wf(),
            final(self)@.len() == old(self)@.len(),
            final(self)@.to_multiset() == old(self)@.to_multiset(),
            forall|p: int, q: int|
                0 <= p < q < final(self)@.len() ==> (#[trigger] final(self)@[p]).confidence >= (
                #[trigger] final(self)@[q]).confidence,
    {
        proof {
            broadcast use group_to_multiset_ensures;

        }
        let ghost orig = self.items@;
        let mut out: Vec<Detection> = Vec::new();
        proof {
            assert(out@.to_multiset().add(self.items@.to_multiset()) =~= orig.to_multiset());
        }
        while self.items.len() > 0
            invariant
                out@.len() + self.items@.len() == orig.len(),
                orig.len() <= DETECTIONS_CAPACITY,
                out@.to_multiset().add(self.items@.to_multiset()) == orig.to_multiset(),
                forall|p: int, q: int|
                    0 <= p < q < out@.len() ==> (#[trigger] out@[p]).confidence >= (
                    #[trigger] out@[q]).confidence,
            decreases self.items@.len(),
        {
            let ghost pre_items = self.items@;
            let ghost pre_out = out@;
            let d = self.items.remove(0);
            let ghost conf = d.confidence;
            let mut j: usize = out.len();
            while j > 0 && out[j - 1].confidence < d.confidence
                invariant
                    j <= out@.len(),
                    out@ == pre_out,
                    d.confidence == conf,
                    forall|k: int| j <= k < out@.len() ==> (#[trigger] out@[k]).confidence < conf,
                decreases j,
            {
                j -= 1;
            }
            out.insert(j, d);
            proof {
                broadcast use group_to_multiset_ensures;

                lemma_seq_insert_multiset_det(pre_out, j as int, pre_items[0]);
                pre_out.insert_ensures(j as int, pre_items[0]);
                assert(pre_items.remove(0).to_multiset() =~= pre_items.to_multiset().remove(
                    pre_items[0],
                ));
                assert(pre_items.to_multiset().contains(pre_items[0])) by {
                    assert(pre_items.contains(pre_items[0]));
                }
                assert(pre_out.to_multiset().insert(pre_items[0]).add(
                    pre_items.to_multiset().remove(pre_items[0]),
                ) =~= pre_out.to_multiset().add(pre_items.to_multiset()));
                assert forall|p: int, q: int| 0 <= p < q < out@.len() implies (
                #[trigger] out@[p]).confidence >= (#[trigger] out@[q]).confidence by {
                    if q < j {
                        assert(out@[p] == pre_out[p] && out@[q] == pre_out[q]);
                    } else if q == j {
                        if p < j {
                            assert(out@[p] == pre_out[p]);
                            if j > 0 {
                                assert(pre_out[p].confidence >= pre_out[j - 1].confidence);
                            }
                        }
                    } else {
                        assert(out@[q] == pre_out[q - 1] && pre_out[q - 1].confidence < conf);
                        if p == j {
                        } else if p < j {
                            assert(out@[p] == pre_out[p]);
                            assert(pre_out[p].confidence >= pre_out[q - 1].confidence);
                        } else {
                            assert(out@[p] == pre_out[p - 1]);
                            assert(pre_out[p - 1].confidence >= pre_out[q - 1].confidence);
                        }
                    }
                }
            }
        }
        self.items = out;
        proof {
            broadcast use group_to_multiset_ensures;

            assert(self.items@.to_multiset().add(Seq::<Detection>::empty().to_multiset())
                =~= self.items@.to_multiset());
            assert(self@.to_multiset().len() == orig.to_multiset().len());
        }
    }

    /// Reorders the detections with a caller-supplied comparator. The
    /// batch keeps exactly the detections it had (same multiset), and every
    /// adjacent pair of the result is backed by an answer the comparator
    /// really returned: non-`Greater` on that pair, or `Greater` on the
    /// swapped pair. A consistent comparator therefore leaves the batch
    /// sorted by it; an inconsistent one is answered only with its own
    /// decisions.
    pub fn sort_by<F: Fn(&Detection, &Detection) -> std::cmp::Ordering>(&mut self, compare: F)
        requires
            old(self).wf(),
            forall|a: Detection, b: Detection| #[trigger] compare.requires((&a, &b)),
        ensures
            final(self).wf(),
            final(self)@.len() == old(self)@.len(),
            final(self)@.to_multiset() == old(self)@.to_multiset(),
            forall|i: int|
                0 <= i < final(self)@.len() - 1 ==> #[trigger] comparator_orders(
                    compare,
                    final(self)@[i],
                    final(self)@[i + 1],
                ),
    {
        proof {
            broadcast use group_to_multiset_ensures;

        }
        let ghost orig = self.items@;
        let mut out: Vec<Detection> = Vec::new();
        proof {
            assert(out@.to_multiset().add(self.items@.to_multiset()) =~= orig.to_multiset());
        }
        while self.items.len() > 0
            invariant
                forall|a: Detection, b: Detection| #[trigger] compare.requires((&a, &b)),
                out@.len() + self.items@.len() == orig.len(),
                orig.len() <= DETECTIONS_CAPACITY,
                out@.to_multiset().add(self.items@.to_multiset()) == orig.to_multiset(),
                forall|p: int|
                    0 <= p < out@.len() - 1 ==> #[trigger] comparator_orders(
                        compare,
                        out@[p],
                        out@[p + 1],
                    ),
            decreases self.items@.len(),
        {
            let ghost pre_items = self.items@;
            let ghost pre_out = out@;
            let d = self.items.remove(0);
            let ghost d_val = d;
            let mut j: usize = out.len();
            let ghost mut stop_ord = std::cmp::Ordering::Equal;
            let mut scanning = j > 0;
            while scanning
                invariant
                    j <= out@.len(),
                    out@ == pre_out,
                    d == d_val,
                    forall|a: Detection, b: Detection| #[trigger] compare.requires((&a, &b)),
                    scanning ==> j > 0,
                    forall|k: int|
                        j <= k < out@.len() ==> #[trigger] compare.ensures(
                            (&out@[k], &d_val),
                            std::cmp::Ordering::Greater,
                        ),
                    !scanning && j > 0 ==> stop_ord != std::cmp::Ordering::Greater
                        && compare.ensures((&out@[j - 1], &d_val), stop_ord),
                decreases j + if scanning {
                    1int
                } else {
                    0int
                },
            {
                let ordering = compare(&out[j - 1], &d);
                match ordering {
                    std::cmp::Ordering::Greater => {
                        j -= 1;
                        scanning = j > 0;
                    },
                    _ => {
                        proof {
                            stop_ord = ordering;
                        }
                        scanning = false;
                    },
                }
            }
            out.insert(j, d);
            proof {
                broadcast use group_to_multiset_ensures;

                lemma_seq_insert_multiset_det(pre_out, j as int, pre_items[0]);
                pre_out.insert_ensures(j as int, d_val);
                assert(pre_items.remove(0).to_multiset() =~= pre_items.to_multiset().remove(
                    pre_items[0],
                ));
                assert(pre_items.to_multiset().contains(pre_items[0])) by {
                    assert(pre_items.contains(pre_items[0]));
                }
                assert(pre_out.to_multiset().insert(pre_items[0]).add(
                    pre_items.to_multiset().remove(pre_items[0]),
                ) =~= pre_out.to_multiset().add(pre_items.to_multiset()));
                assert forall|p: int| 0 <= p < out@.len() - 1 implies #[trigger] comparator_orders(
                    compare,
                    out@[p],
                    out@[p + 1],
                ) by {
                    if p + 1 < j {
                        assert(out@[p] == pre_out[p] && out@[p + 1] == pre_out[p + 1]);
                        assert(comparator_orders(compare, pre_out[p], pre_out[p + 1]));
                    } else if p + 1 == j {
                        assert(out@[p] == pre_out[p] && out@[p + 1] == d_val);
                        assert(compare.ensures((&pre_out[j - 1], &d_val), stop_ord));
                    } else if p == j {
                        assert(out@[p] == d_val && out@[p + 1] == pre_out[p]);
                        assert(compare.ensures(
                            (&pre_out[p], &d_val),
                            std::cmp::Ordering::Greater,
                        ));
                    } else {
                        assert(out@[p] == pre_out[p - 1] && out@[p + 1] == pre_out[p]);
                        assert(comparator_orders(compare, pre_out[p - 1], pre_out[p]));
                    }
                }
            }
        }
        self.items = out;
        proof {
            broadcast use group_to_multiset_ensures;

            assert(self.items@.to_multiset().add(Seq::<Detection>::empty().to_multiset())
                =~= self.items@.to_multiset());
            assert(self@.to_multiset().len() == orig.to_multiset().len());
        }
    }

    /// The newest detection, or `None` when empty.
    pub fn last(&self) -> (r: Option<&Detection>)
        ensures
            self@.len() > 0 ==> r is Some && *r->0 == self@[self@.len() - 1],
            self@.len() == 0 ==> r is None,
    {
        if self.items.len() > 0 {
            Some(&self.items[self.items.len() - 1])
        } else {
            None
        }
    }
}

/// The elements of `s` whose entry in `keep` is true, in order.
pub open spec fn spec_filtered(s: Seq<Detection>, keep: Seq<bool>) -> Seq<Detection>
    recommends
        keep.len() == s.len(),
    decreases s.len(),
{
    if s.len() == 0 {
        Seq::empty()
    } else {
        let rest = spec_filtered(s.drop_last(), keep.drop_last());
        if keep.len() > 0 && keep.last() {
            rest.push(s.last())
        } else {
            rest
        }
    }
}

/// Inserting a detection anywhere adds exactly it to the multiset.
proof fn lemma_seq_insert_multiset_det(s: Seq<Detection>, j: int, x: Detection)
    requires
        0 <= j <= s.len(),
    ensures
        s.insert(j, x).to_multiset() == s.to_multiset().insert(x),
        s.insert(j, x).len() == s.len() + 1,
{
    broadcast use group_to_multiset_ensures;

    let a = s.subrange(0, j);
    let b = s.subrange(j, s.len() as int);
    lemma_multiset_commutative(a.push(x), b);
    lemma_multiset_commutative(a, b);
    assert(s =~= a + b);
    assert(a.push(x).to_multiset() =~= a.to_multiset().insert(x));
    assert(a.to_multiset().insert(x).add(b.to_multiset()) =~= a.to_multiset().add(
        b.to_multiset(),
    ).insert(x));
}

} // verus!
