//! The suppression engine: confidence filtering, greedy non-maximum
//! suppression, and the rescale from model space to source-image space.
//!
//! Raw model output arrives as a flat buffer of `num_boxes` records of
//! `num_params >= 5` integers each, the first five being
//! `[x1, y1, x2, y2, confidence]` in model-input coordinates. The engine
//! orders the records by confidence descending, greedily accepts records
//! whose confidence reaches the threshold and whose area is positive,
//! suppresses every later record that overlaps an accepted one with an IoU
//! of at least the threshold, stops once the output capacity is reached, and
//! rescales each accepted box to source-image coordinates.

use vstd::prelude::*;
use vstd::string::StringExecFns;

use crate::color::bounds::BoundingBox;
use crate::color::bounds::Bounds;
use crate::color::bounds::Detection;
use crate::color::image::ScaleMessage;
use crate::config::COORD_LIMIT;
use crate::config::DETECTIONS_CAPACITY;
use crate::config::PERSON_CLASS_LABEL;
use crate::config::SCORE_SCALE;

verus! {

/// One raw candidate record: box corners in model-input space and a
/// confidence, all in fixed-point units.
#[derive(Debug, Clone, Copy, PartialEq, Eq, Structural)]
pub struct Candidate {
    /// Left edge in model-input space.
    pub x1: i64,
    /// Top edge in model-input space.
    pub y1: i64,
    /// Right edge in model-input space.
    pub x2: i64,
    /// Bottom edge in model-input space.
    pub y2: i64,
    /// Confidence in `SCORE_SCALE` units.
    pub confidence: i64,
}

impl Candidate {
    /// Coordinates within `[0, COORD_LIMIT]`, so every product the engine
    /// forms stays inside `i64`.
    pub open spec fn well_formed(self) -> bool {
        &&& 0 <= self.x1 <= COORD_LIMIT
        &&& 0 <= self.y1 <= COORD_LIMIT
        &&& 0 <= self.x2 <= COORD_LIMIT
        &&& 0 <= self.y2 <= COORD_LIMIT
    }

    /// Signed area `(x2 - x1) * (y2 - y1)`; an inverted box may make it zero
    /// or negative, and such a candidate is never accepted.
    pub open spec fn spec_area(self) -> int {
        (self.x2 - self.x1) * (self.y2 - self.y1)
    }
}

/// Every record in the sequence is well formed.
pub open spec fn wf_candidates(s: Seq<Candidate>) -> bool {
    forall|i: int| 0 <= i < s.len() ==> (#[trigger] s[i]).well_formed()
}

/// Intersection area of two candidate boxes: max-of-mins by min-of-maxes,
/// clamped to zero when the boxes do not overlap.
pub open spec fn spec_intersection(a: Candidate, b: Candidate) -> int {
    let x_left = if a.x1 >= b.x1 {
        a.x1 as int
    } else {
        b.x1 as int
    };
    let y_top = if a.y1 >= b.y1 {
        a.y1 as int
    } else {
        b.y1 as int
    };
    let x_right = if a.x2 <= b.x2 {
        a.x2 as int
    } else {
        b.x2 as int
    };
    let y_bottom = if a.y2 <= b.y2 {
        a.y2 as int
    } else {
        b.y2 as int
    };
    if x_right > x_left && y_bottom > y_top {
        (x_right - x_left) * (y_bottom - y_top)
    } else {
        0
    }
}

/// Union area of two candidate boxes.
pub open spec fn spec_union(a: Candidate, b: Candidate) -> int {
    a.spec_area() + b.spec_area() - spec_intersection(a, b)
}

/// Whether an accepted candidate `a` suppresses a later candidate `b`: they
/// overlap, and either `b` is degenerate (area at most zero) or their IoU
/// reaches `nms_t / SCORE_SCALE`. The ratio comparison
/// `intersection / union >= nms_t / SCORE_SCALE` is stated cross-multiplied,
/// so no division is involved.
pub open spec fn spec_suppresses(a: Candidate, b: Candidate, nms_t: i64) -> bool {
    &&& spec_intersection(a, b) > 0
    &&& (b.spec_area() <= 0 || spec_intersection(a, b) * SCORE_SCALE >= nms_t * spec_union(a, b))
}

/// Signed area of a candidate's box.
pub fn signed_area(c: &Candidate) -> (r: i64)
    requires
        c.well_formed(),
    ensures
        r == c.spec_area(),
        -(COORD_LIMIT * COORD_LIMIT) <= r <= COORD_LIMIT * COORD_LIMIT,
{
    let w = c.x2 - c.x1;
    let h = c.y2 - c.y1;
    proof {
        assert(-(COORD_LIMIT * COORD_LIMIT) <= w * h <= COORD_LIMIT * COORD_LIMIT)
            by (nonlinear_arith)
            requires
                -COORD_LIMIT <= w <= COORD_LIMIT,
                -COORD_LIMIT <= h <= COORD_LIMIT,
        ;
    }
    w * h
}

/// Intersection area of two candidate boxes, clamped to zero when they do
/// not overlap.
pub fn intersection(a: &Candidate, b: &Candidate) -> (r: i64)
    requires
        a.well_formed(),
        b.well_formed(),
    ensures
        r == spec_intersection(*a, *b),
        0 <= r <= COORD_LIMIT * COORD_LIMIT,
{
    let x_left = if a.x1 >= b.x1 {
        a.x1
    } else {
        b.x1
    };
    let y_top = if a.y1 >= b.y1 {
        a.y1
    } else {
        b.y1
    };
    let x_right = if a.x2 <= b.x2 {
        a.x2
    } else {
        b.x2
    };
    let y_bottom = if a.y2 <= b.y2 {
        a.y2
    } else {
        b.y2
    };
    if x_right > x_left && y_bottom > y_top {
        let w = x_right - x_left;
        let h = y_bottom - y_top;
        proof {
            assert(0 <= w * h <= COORD_LIMIT * COORD_LIMIT) by (nonlinear_arith)
                requires
                    0 < w <= COORD_LIMIT,
                    0 < h <= COORD_LIMIT,
            ;
        }
        w * h
    } else {
        0
    }
}

/// Union area of two candidate boxes.
pub fn union_area(a: &Candidate, b: &Candidate) -> (r: i64)
    requires
        a.well_formed(),
        b.well_formed(),
    ensures
        r == spec_union(*a, *b),
{
    let area_a = signed_area(a);
    let area_b = signed_area(b);
    let inter = intersection(a, b);
    area_a + area_b - inter
}

/// Whether `a` suppresses `b` under the IoU threshold `nms_t`.
pub fn suppresses(a: &Candidate, b: &Candidate, nms_t: i64) -> (r: bool)
    requires
        a.well_formed(),
        b.well_formed(),
        0 <= nms_t <= SCORE_SCALE,
    ensures
        r == spec_suppresses(*a, *b, nms_t),
{
    let inter = intersection(a, b);
    if inter <= 0 {
        return false;
    }
    let area_b = signed_area(b);
    if area_b <= 0 {
        return true;
    }
    let area_a = signed_area(a);
    let union_v = area_a + area_b - inter;
    proof {
        let lim = COORD_LIMIT * COORD_LIMIT;
        assert(inter * SCORE_SCALE <= 3 * (lim * SCORE_SCALE) && inter * SCORE_SCALE >= -(3 * (
        lim * SCORE_SCALE))) by (nonlinear_arith)
            requires
                0 <= inter <= lim,
                lim == COORD_LIMIT * COORD_LIMIT,
        ;
        assert(nms_t * union_v <= 3 * (lim * SCORE_SCALE) && nms_t * union_v >= -(3 * (lim
            * SCORE_SCALE))) by (nonlinear_arith)
            requires
                0 <= nms_t <= SCORE_SCALE,
                -(3 * lim) <= union_v <= 3 * lim,
                lim == COORD_LIMIT * COORD_LIMIT,
        ;
    }
    inter * SCORE_SCALE >= nms_t * union_v
}

/// Descending order by confidence.
pub open spec fn sorted_desc(s: Seq<Candidate>) -> bool {
    forall|i: int, j: int|
        0 <= i < j < s.len() ==> (#[trigger] s[i]).confidence >= (#[trigger] s[j]).confidence
}

/// The candidates of `s`, in order, that `anchor` does not suppress.
pub open spec fn spec_remove_suppressed(anchor: Candidate, s: Seq<Candidate>, nms_t: i64) -> Seq<
    Candidate,
>
    decreases s.len(),
{
    if s.len() == 0 {
        Seq::empty()
    } else {
        let rest = spec_remove_suppressed(anchor, s.drop_first(), nms_t);
        if spec_suppresses(anchor, s[0], nms_t) {
            rest
        } else {
            seq![s[0]] + rest
        }
    }
}

/// Removing suppressed candidates never lengthens the sequence.
pub proof fn lemma_remove_suppressed_len(anchor: Candidate, s: Seq<Candidate>, nms_t: i64)
    ensures
        spec_remove_suppressed(anchor, s, nms_t).len() <= s.len(),
    decreases s.len(),
{
    if s.len() > 0 {
        lemma_remove_suppressed_len(anchor, s.drop_first(), nms_t);
    }
}

proof fn lemma_drop_first_contains(s: Seq<Candidate>, x: Candidate)
    requires
        s.len() > 0,
        s.drop_first().contains(x),
    ensures
        s.contains(x),
{
    let j = choose|j: int| 0 <= j < s.drop_first().len() && s.drop_first()[j] == x;
    assert(s[j + 1] == x);
}

/// Every survivor is an element of `s` that `anchor` does not suppress.
pub proof fn lemma_remove_suppressed_elems(anchor: Candidate, s: Seq<Candidate>, nms_t: i64)
    ensures
        forall|i: int|
            0 <= i < spec_remove_suppressed(anchor, s, nms_t).len() ==> s.contains(
                #[trigger] spec_remove_suppressed(anchor, s, nms_t)[i],
            ) && !spec_suppresses(anchor, spec_remove_suppressed(anchor, s, nms_t)[i], nms_t),
    decreases s.len(),
{
    if s.len() > 0 {
        let tail = s.drop_first();
        lemma_remove_suppressed_elems(anchor, tail, nms_t);
        let out = spec_remove_suppressed(anchor, s, nms_t);
        let rest = spec_remove_suppressed(anchor, tail, nms_t);
        assert forall|i: int| 0 <= i < out.len() implies s.contains(#[trigger] out[i])
            && !spec_suppresses(anchor, out[i], nms_t) by {
            if spec_suppresses(anchor, s[0], nms_t) {
                assert(out[i] == rest[i]);
                lemma_drop_first_contains(s, rest[i]);
            } else {
                if i == 0 {
                    assert(out[0] == s[0]);
                    assert(s.contains(s[0]));
                } else {
                    assert(out[i] == rest[i - 1]);
                    lemma_drop_first_contains(s, rest[i - 1]);
                }
            }
        }
    }
}

/// Removing suppressed candidates keeps the descending order.
pub proof fn lemma_remove_suppressed_sorted(anchor: Candidate, s: Seq<Candidate>, nms_t: i64)
    requires
        sorted_desc(s),
    ensures
        sorted_desc(spec_remove_suppressed(anchor, s, nms_t)),
    decreases s.len(),
{
    if s.len() > 0 {
        let tail = s.drop_first();
        assert forall|i: int, j: int| 0 <= i < j < tail.len() implies (#[trigger] tail[i]).confidence
            >= (#[trigger] tail[j]).confidence by {
            assert(tail[i] == s[i + 1]);
            assert(tail[j] == s[j + 1]);
        }
        lemma_remove_suppressed_sorted(anchor, tail, nms_t);
        lemma_remove_suppressed_elems(anchor, tail, nms_t);
        let out = spec_remove_suppressed(anchor, s, nms_t);
        let rest = spec_remove_suppressed(anchor, tail, nms_t);
        if !spec_suppresses(anchor, s[0], nms_t) {
            assert forall|i: int, j: int| 0 <= i < j < out.len() implies (
            #[trigger] out[i]).confidence >= (#[trigger] out[j]).confidence by {
                if i == 0 {
                    assert(out[j] == rest[j - 1]);
                    assert(tail.contains(rest[j - 1]));
                    let k = choose|k: int| 0 <= k < tail.len() && tail[k] == rest[j - 1];
                    assert(s[k + 1] == rest[j - 1]);
                } else {
                    assert(out[i] == rest[i - 1]);
                    assert(out[j] == rest[j - 1]);
                }
            }
        }
    }
}

/// The survivors of `cands` once `anchor` has suppressed its overlaps.
fn filter_unsuppressed(anchor: &Candidate, cands: &Vec<Candidate>, nms_t: i64) -> (r: Vec<
    Candidate,
>)
    requires
        anchor.well_formed(),
        wf_candidates(cands@),
        0 <= nms_t <= SCORE_SCALE,
    ensures
        r@ == spec_remove_suppressed(*anchor, cands@, nms_t),
        wf_candidates(r@),
{
    let ghost len = cands@.len() as int;
    let mut r: Vec<Candidate> = Vec::new();
    let mut i: usize = 0;
    proof {
        assert(cands@.subrange(0, len) =~= cands@);
        assert(r@ + spec_remove_suppressed(*anchor, cands@, nms_t) =~= spec_remove_suppressed(
            *anchor,
            cands@,
            nms_t,
        ));
    }
    while i < cands.len()
        invariant
            i <= cands@.len(),
            anchor.well_formed(),
            wf_candidates(cands@),
            wf_candidates(r@),
            0 <= nms_t <= SCORE_SCALE,
            len == cands@.len() as int,
            r@ + spec_remove_suppressed(*anchor, cands@.subrange(i as int, len), nms_t)
                == spec_remove_suppressed(*anchor, cands@, nms_t),
        decreases cands@.len() - i,
    {
        let ghost pre = r@;
        let ghost suffix = cands@.subrange(i as int, len);
        let c = cands[i];
        proof {
            assert(suffix[0] == cands@[i as int]);
            assert(suffix.drop_first() =~= cands@.subrange(i as int + 1, len));
        }
        if !suppresses(anchor, &c, nms_t) {
            r.push(c);
            proof {
                assert(spec_remove_suppressed(*anchor, suffix, nms_t) =~= seq![c]
                    + spec_remove_suppressed(*anchor, suffix.drop_first(), nms_t));
                assert(r@ + spec_remove_suppressed(
                    *anchor,
                    cands@.subrange(i as int + 1, len),
                    nms_t,
                ) =~= pre + spec_remove_suppressed(*anchor, suffix, nms_t));
            }
        } else {
            proof {
                assert(spec_remove_suppressed(*anchor, suffix, nms_t) == spec_remove_suppressed(
                    *anchor,
                    suffix.drop_first(),
                    nms_t,
                ));
            }
        }
        i += 1;
    }
    proof {
        assert(cands@.subrange(len, len) =~= Seq::<Candidate>::empty());
        assert(r@ + Seq::<Candidate>::empty() =~= r@);
    }
    r
}

/// Where `c` belongs in a descending run: after every element whose
/// confidence is at least its own, so equals keep their arrival order.
pub open spec fn spec_insert_desc(s: Seq<Candidate>, c: Candidate) -> Seq<Candidate>
    decreases s.len(),
{
    if s.len() == 0 {
        seq![c]
    } else if s.last().confidence >= c.confidence {
        s.push(c)
    } else {
        spec_insert_desc(s.drop_last(), c).push(s.last())
    }
}

/// Stable insertion sort of candidates, descending by confidence.
pub open spec fn spec_sort_desc(s: Seq<Candidate>) -> Seq<Candidate>
    decreases s.len(),
{
    if s.len() == 0 {
        Seq::empty()
    } else {
        spec_insert_desc(spec_sort_desc(s.drop_last()), s.last())
    }
}

proof fn lemma_insert_desc_position(s: Seq<Candidate>, c: Candidate, j: int)
    requires
        0 <= j <= s.len(),
        forall|k: int| j <= k < s.len() ==> (#[trigger] s[k]).confidence < c.confidence,
        j > 0 ==> s[j - 1].confidence >= c.confidence,
    ensures
        spec_insert_desc(s, c) == s.insert(j, c),
    decreases s.len(),
{
    if s.len() == 0 {
        assert(spec_insert_desc(s, c) =~= s.insert(0, c));
    } else if s.last().confidence >= c.confidence {
        assert(j == s.len());
        assert(s.push(c) =~= s.insert(j, c));
    } else {
        assert(j < s.len());
        let head = s.drop_last();
        assert forall|k: int| j <= k < head.len() implies (#[trigger] head[k]).confidence
            < c.confidence by {
            assert(head[k] == s[k]);
        }
        if j > 0 {
            assert(head[j - 1] == s[j - 1]);
        }
        lemma_insert_desc_position(head, c, j);
        assert(head.insert(j, c).push(s.last()) =~= s.insert(j, c));
    }
}

/// Inserting adds exactly one record.
pub proof fn lemma_insert_desc_len(s: Seq<Candidate>, c: Candidate)
    ensures
        spec_insert_desc(s, c).len() == s.len() + 1,
    decreases s.len(),
{
    if s.len() > 0 && s.last().confidence < c.confidence {
        lemma_insert_desc_len(s.drop_last(), c);
    }
}

/// Every record of the inserted run is `c` or a record of `s`.
pub proof fn lemma_insert_desc_elems(s: Seq<Candidate>, c: Candidate)
    ensures
        forall|i: int|
            0 <= i < spec_insert_desc(s, c).len() ==> (#[trigger] spec_insert_desc(s, c)[i]) == c
                || s.contains(spec_insert_desc(s, c)[i]),
    decreases s.len(),
{
    if s.len() == 0 {
    } else if s.last().confidence >= c.confidence {
        assert forall|i: int| 0 <= i < spec_insert_desc(s, c).len() implies (
        #[trigger] spec_insert_desc(s, c)[i]) == c || s.contains(spec_insert_desc(s, c)[i]) by {
            if i < s.len() {
                assert(spec_insert_desc(s, c)[i] == s[i]);
                assert(s.contains(s[i]));
            }
        }
    } else {
        let head = s.drop_last();
        lemma_insert_desc_elems(head, c);
        let out = spec_insert_desc(s, c);
        let ins = spec_insert_desc(head, c);
        lemma_insert_desc_len(head, c);
        assert forall|i: int| 0 <= i < out.len() implies (#[trigger] out[i]) == c || s.contains(
            out[i],
        ) by {
            if i < ins.len() {
                assert(out[i] == ins[i]);
                if ins[i] != c {
                    assert(head.contains(ins[i]));
                    let k = choose|k: int| 0 <= k < head.len() && head[k] == ins[i];
                    assert(s[k] == ins[i]);
                }
            } else {
                assert(out[i] == s.last());
                assert(s.contains(s[s.len() - 1]));
            }
        }
    }
}

/// Inserting into a descending run keeps it descending.
pub proof fn lemma_insert_desc_sorted(s: Seq<Candidate>, c: Candidate)
    requires
        sorted_desc(s),
    ensures
        sorted_desc(spec_insert_desc(s, c)),
    decreases s.len(),
{
    if s.len() == 0 {
    } else if s.last().confidence >= c.confidence {
        let out = s.push(c);
        assert forall|i: int, j: int| 0 <= i < j < out.len() implies (#[trigger] out[i]).confidence
            >= (#[trigger] out[j]).confidence by {
            if j == out.len() - 1 {
                if i < s.len() - 1 {
                    assert(s[i].confidence >= s[s.len() - 1].confidence);
                }
            }
        }
    } else {
        let head = s.drop_last();
        assert forall|i: int, j: int| 0 <= i < j < head.len() implies (
        #[trigger] head[i]).confidence >= (#[trigger] head[j]).confidence by {
            assert(head[i] == s[i]);
            assert(head[j] == s[j]);
        }
        lemma_insert_desc_sorted(head, c);
        lemma_insert_desc_elems(head, c);
        lemma_insert_desc_len(head, c);
        let ins = spec_insert_desc(head, c);
        let out = ins.push(s.last());
        assert forall|i: int, j: int| 0 <= i < j < out.len() implies (#[trigger] out[i]).confidence
            >= (#[trigger] out[j]).confidence by {
            if j == out.len() - 1 {
                assert(out[j] == s.last());
                assert(out[i] == ins[i]);
                if ins[i] == c {
                } else {
                    assert(head.contains(ins[i]));
                    let k = choose|k: int| 0 <= k < head.len() && head[k] == ins[i];
                    assert(s[k].confidence >= s[s.len() - 1].confidence);
                }
            } else {
                assert(out[i] == ins[i]);
                assert(out[j] == ins[j]);
            }
        }
    }
}

/// The sorted run is descending.
pub proof fn lemma_sort_desc_sorted(s: Seq<Candidate>)
    ensures
        sorted_desc(spec_sort_desc(s)),
    decreases s.len(),
{
    if s.len() > 0 {
        lemma_sort_desc_sorted(s.drop_last());
        lemma_insert_desc_sorted(spec_sort_desc(s.drop_last()), s.last());
    }
}

/// Sorting preserves the records: same multiset, same length.
pub proof fn lemma_sort_desc_multiset(s: Seq<Candidate>)
    ensures
        spec_sort_desc(s).to_multiset() == s.to_multiset(),
        spec_sort_desc(s).len() == s.len(),
    decreases s.len(),
{
    broadcast use vstd::seq_lib::group_to_multiset_ensures;

    if s.len() > 0 {
        let head = s.drop_last();
        lemma_sort_desc_multiset(head);
        lemma_insert_desc_multiset(spec_sort_desc(head), s.last());
        lemma_insert_desc_len(spec_sort_desc(head), s.last());
        assert(s =~= head.push(s.last()));
        assert(s.to_multiset() == head.push(s.last()).to_multiset());
    }
}

/// Inserting a record adds it to the multiset.
pub proof fn lemma_insert_desc_multiset(s: Seq<Candidate>, c: Candidate)
    ensures
        spec_insert_desc(s, c).to_multiset() == s.to_multiset().insert(c),
    decreases s.len(),
{
    broadcast use vstd::seq_lib::group_to_multiset_ensures;

    if s.len() == 0 {
        assert(spec_insert_desc(s, c) =~= Seq::<Candidate>::empty().push(c));
    } else if s.last().confidence >= c.confidence {
    } else {
        let head = s.drop_last();
        lemma_insert_desc_multiset(head, c);
        assert(s =~= head.push(s.last()));
        assert(spec_insert_desc(s, c).to_multiset() == head.to_multiset().insert(c).insert(
            s.last(),
        ));
        assert(s.to_multiset().insert(c) == head.to_multiset().insert(s.last()).insert(c));
        assert(head.to_multiset().insert(c).insert(s.last()) =~= head.to_multiset().insert(
            s.last(),
        ).insert(c));
    }
}

fn insert_desc(out: &mut Vec<Candidate>, c: Candidate)
    ensures
        final(out)@ == spec_insert_desc(old(out)@, c),
{
    let mut j: usize = out.len();
    while j > 0 && out[j - 1].confidence < c.confidence
        invariant
            j <= out@.len(),
            out@ == old(out)@,
            forall|k: int| j <= k < out@.len() ==> (#[trigger] out@[k]).confidence < c.confidence,
        decreases j,
    {
        j -= 1;
    }
    proof {
        lemma_insert_desc_position(out@, c, j as int);
    }
    out.insert(j, c);
}

/// Sorts the candidates descending by confidence, keeping equals in their
/// arrival order.
pub fn sort_candidates(v: &mut Vec<Candidate>)
    ensures
        final(v)@ == spec_sort_desc(old(v)@),
{
    let mut out: Vec<Candidate> = Vec::new();
    let mut i: usize = 0;
    while i < v.len()
        invariant
            i <= v@.len(),
            v@ == old(v)@,
            out@ == spec_sort_desc(v@.subrange(0, i as int)),
        decreases v@.len() - i,
    {
        let c = v[i];
        insert_desc(&mut out, c);
        proof {
            assert(v@.subrange(0, i as int + 1).drop_last() =~= v@.subrange(0, i as int));
            assert(v@.subrange(0, i as int + 1).last() == v@[i as int]);
        }
        i += 1;
    }
    proof {
        assert(v@.subrange(0, v@.len() as int) =~= v@);
    }
    *v = out;
}

/// Sorting keeps every record well formed.
pub proof fn lemma_sort_desc_wf(s: Seq<Candidate>)
    requires
        wf_candidates(s),
    ensures
        wf_candidates(spec_sort_desc(s)),
{
    broadcast use vstd::seq_lib::group_to_multiset_ensures;

    lemma_sort_desc_multiset(s);
    let out = spec_sort_desc(s);
    assert forall|i: int| 0 <= i < out.len() implies (#[trigger] out[i]).well_formed() by {
        assert(out.to_multiset().contains(out[i]));
        assert(s.to_multiset().contains(out[i]));
        assert(s.contains(out[i]));
        let k = choose|k: int| 0 <= k < s.len() && s[k] == out[i];
        assert(s[k].well_formed());
    }
}

/// Greedy suppression over candidates in the given order: a record below the
/// confidence threshold, or with non-positive area, is skipped without being
/// accepted; any other record is accepted and every later record it
/// suppresses is dropped; acceptance stops once `cap` records are out.
pub open spec fn spec_nms(cands: Seq<Candidate>, conf_t: i64, nms_t: i64, cap: nat) -> Seq<
    Candidate,
>
    decreases cands.len(),
    via spec_nms_decreases
{
    if cands.len() == 0 || cap == 0 {
        Seq::empty()
    } else {
        let c = cands[0];
        let rest = cands.drop_first();
        if c.confidence < conf_t || c.spec_area() <= 0 {
            spec_nms(rest, conf_t, nms_t, cap)
        } else {
            seq![c] + spec_nms(
                spec_remove_suppressed(c, rest, nms_t),
                conf_t,
                nms_t,
                (cap - 1) as nat,
            )
        }
    }
}

#[via_fn]
proof fn spec_nms_decreases(cands: Seq<Candidate>, conf_t: i64, nms_t: i64, cap: nat) {
    if cands.len() != 0 && cap != 0 {
        lemma_remove_suppressed_len(cands[0], cands.drop_first(), nms_t);
    }
}

proof fn lemma_sorted_tail(s: Seq<Candidate>)
    requires
        s.len() > 0,
        sorted_desc(s),
    ensures
        sorted_desc(s.drop_first()),
{
    let tail = s.drop_first();
    assert forall|i: int, j: int| 0 <= i < j < tail.len() implies (#[trigger] tail[i]).confidence
        >= (#[trigger] tail[j]).confidence by {
        assert(tail[i] == s[i + 1]);
        assert(tail[j] == s[j + 1]);
    }
}

/// The suppression output never exceeds the capacity.
pub proof fn lemma_nms_len(cands: Seq<Candidate>, conf_t: i64, nms_t: i64, cap: nat)
    ensures
        spec_nms(cands, conf_t, nms_t, cap).len() <= cap,
    decreases cands.len(),
{
    if cands.len() != 0 && cap != 0 {
        let c = cands[0];
        let rest = cands.drop_first();
        if c.confidence < conf_t || c.spec_area() <= 0 {
            lemma_nms_len(rest, conf_t, nms_t, cap);
        } else {
            lemma_remove_suppressed_len(c, rest, nms_t);
            lemma_nms_len(spec_remove_suppressed(c, rest, nms_t), conf_t, nms_t, (cap - 1) as nat);
        }
    }
}

/// Every accepted record is an input record whose confidence reaches the
/// threshold and whose area is positive.
pub proof fn lemma_nms_elems(cands: Seq<Candidate>, conf_t: i64, nms_t: i64, cap: nat)
    ensures
        forall|i: int|
            0 <= i < spec_nms(cands, conf_t, nms_t, cap).len() ==> {
                let d = #[trigger] spec_nms(cands, conf_t, nms_t, cap)[i];
                cands.contains(d) && d.confidence >= conf_t && d.spec_area() > 0
            },
    decreases cands.len(),
{
    if cands.len() != 0 && cap != 0 {
        let c = cands[0];
        let rest = cands.drop_first();
        let out = spec_nms(cands, conf_t, nms_t, cap);
        if c.confidence < conf_t || c.spec_area() <= 0 {
            lemma_nms_elems(rest, conf_t, nms_t, cap);
            assert forall|i: int| 0 <= i < out.len() implies {
                let d = #[trigger] out[i];
                cands.contains(d) && d.confidence >= conf_t && d.spec_area() > 0
            } by {
                assert(out[i] == spec_nms(rest, conf_t, nms_t, cap)[i]);
                assert(rest.contains(out[i]));
                lemma_drop_first_contains(cands, out[i]);
            }
        } else {
            let filtered = spec_remove_suppressed(c, rest, nms_t);
            lemma_remove_suppressed_len(c, rest, nms_t);
            lemma_nms_elems(filtered, conf_t, nms_t, (cap - 1) as nat);
            lemma_remove_suppressed_elems(c, rest, nms_t);
            let out_tail = spec_nms(filtered, conf_t, nms_t, (cap - 1) as nat);
            assert forall|i: int| 0 <= i < out.len() implies {
                let d = #[trigger] out[i];
                cands.contains(d) && d.confidence >= conf_t && d.spec_area() > 0
            } by {
                if i == 0 {
                    assert(out[0] == c);
                    assert(cands.contains(cands[0]));
                } else {
                    assert(out[i] == out_tail[i - 1]);
                    assert(filtered.contains(out_tail[i - 1]));
                    let k = choose|k: int|
                        0 <= k < filtered.len() && filtered[k] == out_tail[i - 1];
                    assert(rest.contains(filtered[k]));
                    lemma_drop_first_contains(cands, filtered[k]);
                }
            }
        }
    }
}

/// On a descending input the suppression output is descending too.
pub proof fn lemma_nms_sorted(cands: Seq<Candidate>, conf_t: i64, nms_t: i64, cap: nat)
    requires
        sorted_desc(cands),
    ensures
        sorted_desc(spec_nms(cands, conf_t, nms_t, cap)),
    decreases cands.len(),
{
    if cands.len() != 0 && cap != 0 {
        let c = cands[0];
        let rest = cands.drop_first();
        lemma_sorted_tail(cands);
        let out = spec_nms(cands, conf_t, nms_t, cap);
        if c.confidence < conf_t || c.spec_area() <= 0 {
            lemma_nms_sorted(rest, conf_t, nms_t, cap);
            assert forall|i: int, j: int| 0 <= i < j < out.len() implies (
            #[trigger] out[i]).confidence >= (#[trigger] out[j]).confidence by {
                assert(out[i] == spec_nms(rest, conf_t, nms_t, cap)[i]);
                assert(out[j] == spec_nms(rest, conf_t, nms_t, cap)[j]);
            }
        } else {
            let filtered = spec_remove_suppressed(c, rest, nms_t);
            lemma_remove_suppressed_len(c, rest, nms_t);
            lemma_remove_suppressed_sorted(c, rest, nms_t);
            lemma_remove_suppressed_elems(c, rest, nms_t);
            lemma_nms_sorted(filtered, conf_t, nms_t, (cap - 1) as nat);
            lemma_nms_elems(filtered, conf_t, nms_t, (cap - 1) as nat);
            let out_tail = spec_nms(filtered, conf_t, nms_t, (cap - 1) as nat);
            assert forall|i: int, j: int| 0 <= i < j < out.len() implies (
            #[trigger] out[i]).confidence >= (#[trigger] out[j]).confidence by {
                if i == 0 {
                    assert(out[j] == out_tail[j - 1]);
                    assert(filtered.contains(out_tail[j - 1]));
                    let k = choose|k: int|
                        0 <= k < filtered.len() && filtered[k] == out_tail[j - 1];
                    assert(rest.contains(filtered[k]));
                    let m = choose|m: int| 0 <= m < rest.len() && rest[m] == filtered[k];
                    assert(rest[m] == cands[m + 1]);
                    assert(cands[0].confidence >= cands[m + 1].confidence);
                } else {
                    assert(out[i] == out_tail[i - 1]);
                    assert(out[j] == out_tail[j - 1]);
                }
            }
        }
    }
}

/// No accepted record suppresses a later accepted record: any two entries of
/// the output overlap with an IoU below the threshold (or not at all).
pub proof fn lemma_nms_pairwise(cands: Seq<Candidate>, conf_t: i64, nms_t: i64, cap: nat)
    ensures
        forall|i: int, j: int|
            0 <= i < j < spec_nms(cands, conf_t, nms_t, cap).len() ==> !spec_suppresses(
                #[trigger] spec_nms(cands, conf_t, nms_t, cap)[i],
                #[trigger] spec_nms(cands, conf_t, nms_t, cap)[j],
                nms_t,
            ),
    decreases cands.len(),
{
    if cands.len() != 0 && cap != 0 {
        let c = cands[0];
        let rest = cands.drop_first();
        let out = spec_nms(cands, conf_t, nms_t, cap);
        if c.confidence < conf_t || c.spec_area() <= 0 {
            lemma_nms_pairwise(rest, conf_t, nms_t, cap);
            assert forall|i: int, j: int| 0 <= i < j < out.len() implies !spec_suppresses(
                #[trigger] out[i],
                #[trigger] out[j],
                nms_t,
            ) by {
                assert(out[i] == spec_nms(rest, conf_t, nms_t, cap)[i]);
                assert(out[j] == spec_nms(rest, conf_t, nms_t, cap)[j]);
            }
        } else {
            let filtered = spec_remove_suppressed(c, rest, nms_t);
            lemma_remove_suppressed_len(c, rest, nms_t);
            lemma_remove_suppressed_elems(c, rest, nms_t);
            lemma_nms_pairwise(filtered, conf_t, nms_t, (cap - 1) as nat);
            lemma_nms_elems(filtered, conf_t, nms_t, (cap - 1) as nat);
            let out_tail = spec_nms(filtered, conf_t, nms_t, (cap - 1) as nat);
            assert forall|i: int, j: int| 0 <= i < j < out.len() implies !spec_suppresses(
                #[trigger] out[i],
                #[trigger] out[j],
                nms_t,
            ) by {
                if i == 0 {
                    assert(out[j] == out_tail[j - 1]);
                    assert(filtered.contains(out_tail[j - 1]));
                    let k = choose|k: int|
                        0 <= k < filtered.len() && filtered[k] == out_tail[j - 1];
                    assert(!spec_suppresses(c, filtered[k], nms_t));
                } else {
                    assert(out[i] == out_tail[i - 1]);
                    assert(out[j] == out_tail[j - 1]);
                }
            }
        }
    }
}

/// Greedy non-maximum suppression over `cands` in the given order.
pub fn apply_nms(cands: Vec<Candidate>, conf_t: i64, nms_t: i64, cap: usize) -> (r: Vec<Candidate>)
    requires
        wf_candidates(cands@),
        0 <= nms_t <= SCORE_SCALE,
    ensures
        r@ == spec_nms(cands@, conf_t, nms_t, cap as nat),
{
    let ghost orig = cands@;
    let mut rest = cands;
    let mut out: Vec<Candidate> = Vec::new();
    proof {
        assert(out@ + spec_nms(rest@, conf_t, nms_t, cap as nat) =~= spec_nms(
            orig,
            conf_t,
            nms_t,
            cap as nat,
        ));
    }
    while rest.len() > 0 && out.len() < cap
        invariant
            wf_candidates(rest@),
            out@.len() <= cap,
            0 <= nms_t <= SCORE_SCALE,
            out@ + spec_nms(rest@, conf_t, nms_t, (cap - out@.len()) as nat) == spec_nms(
                orig,
                conf_t,
                nms_t,
                cap as nat,
            ),
        decreases rest@.len(),
    {
        let ghost pre_rest = rest@;
        let ghost pre_out = out@;
        let ghost k = (cap - out@.len()) as nat;
        let c = rest.remove(0);
        proof {
            assert(rest@ =~= pre_rest.drop_first());
            assert forall|i: int| 0 <= i < rest@.len() implies (#[trigger] rest@[i]).well_formed()
                by {
                assert(rest@[i] == pre_rest[i + 1]);
            }
        }
        let area = signed_area(&c);
        if c.confidence < conf_t || area <= 0 {
            proof {
                assert(spec_nms(pre_rest, conf_t, nms_t, k) == spec_nms(rest@, conf_t, nms_t, k));
            }
        } else {
            out.push(c);
            let filtered = filter_unsuppressed(&c, &rest, nms_t);
            proof {
                lemma_remove_suppressed_len(c, rest@, nms_t);
            }
            rest = filtered;
            proof {
                assert(spec_nms(pre_rest, conf_t, nms_t, k) == seq![c] + spec_nms(
                    rest@,
                    conf_t,
                    nms_t,
                    (k - 1) as nat,
                ));
                assert(out@ =~= pre_out + seq![c]);
                assert((pre_out + seq![c]) + spec_nms(rest@, conf_t, nms_t, (k - 1) as nat)
                    =~= pre_out + (seq![c] + spec_nms(rest@, conf_t, nms_t, (k - 1) as nat)));
            }
        }
    }
    proof {
        if rest@.len() == 0 {
            assert(spec_nms(rest@, conf_t, nms_t, (cap - out@.len()) as nat)
                == Seq::<Candidate>::empty());
        } else {
            assert(out@.len() == cap);
            assert(spec_nms(rest@, conf_t, nms_t, 0) == Seq::<Candidate>::empty());
        }
        assert(out@ + Seq::<Candidate>::empty() =~= out@);
    }
    out
}

/// Two-box suppression law: given two acceptable candidates in descending
/// confidence order, the greedy pass keeps only the higher-confidence one
/// when the lower one overlaps it with an IoU at or above the threshold, and
/// keeps both when it does not.
pub proof fn lemma_nms_pair(a: Candidate, b: Candidate, conf_t: i64, nms_t: i64, cap: nat)
    requires
        a.confidence >= conf_t,
        b.confidence >= conf_t,
        a.confidence >= b.confidence,
        a.spec_area() > 0,
        b.spec_area() > 0,
        cap >= 2,
    ensures
        spec_suppresses(a, b, nms_t) ==> spec_nms(seq![a, b], conf_t, nms_t, cap) == seq![a],
        !spec_suppresses(a, b, nms_t) ==> spec_nms(seq![a, b], conf_t, nms_t, cap) == seq![a, b],
{
    let pair = seq![a, b];
    assert(pair.drop_first() =~= seq![b]);
    assert(seq![b].drop_first() =~= Seq::<Candidate>::empty());
    assert(spec_remove_suppressed(a, Seq::<Candidate>::empty(), nms_t)
        == Seq::<Candidate>::empty());
    if spec_suppresses(a, b, nms_t) {
        assert(spec_remove_suppressed(a, seq![b], nms_t) == Seq::<Candidate>::empty());
        assert(spec_nms(Seq::<Candidate>::empty(), conf_t, nms_t, (cap - 1) as nat)
            == Seq::<Candidate>::empty());
        assert(spec_nms(pair, conf_t, nms_t, cap) =~= seq![a]);
    } else {
        assert(spec_remove_suppressed(a, seq![b], nms_t) =~= seq![b]);
        assert(spec_remove_suppressed(b, Seq::<Candidate>::empty(), nms_t)
            == Seq::<Candidate>::empty());
        assert(spec_nms(
            Seq::<Candidate>::empty(),
            conf_t,
            nms_t,
            ((cap - 1) as nat - 1) as nat,
        ) == Seq::<Candidate>::empty());
        assert(spec_nms(seq![b], conf_t, nms_t, (cap - 1) as nat) =~= seq![b]);
        assert(spec_nms(pair, conf_t, nms_t, cap) =~= seq![a, b]);
    }
}

/// Every accepted record is well formed when every input record is.
pub proof fn lemma_nms_wf(cands: Seq<Candidate>, conf_t: i64, nms_t: i64, cap: nat)
    requires
        wf_candidates(cands),
    ensures
        wf_candidates(spec_nms(cands, conf_t, nms_t, cap)),
{
    lemma_nms_elems(cands, conf_t, nms_t, cap);
    let out = spec_nms(cands, conf_t, nms_t, cap);
    assert forall|i: int| 0 <= i < out.len() implies (#[trigger] out[i]).well_formed() by {
        assert(cands.contains(out[i]));
        let k = choose|k: int| 0 <= k < cands.len() && cands[k] == out[i];
        assert(cands[k].well_formed());
    }
}

/// The `i`-th record of a flat buffer of `num_params`-wide rows: the first
/// five columns are `[x1, y1, x2, y2, confidence]`.
pub open spec fn spec_candidate_at(data: Seq<i64>, num_params: int, i: int) -> Candidate {
    Candidate {
        x1: data[i * num_params],
        y1: data[i * num_params + 1],
        x2: data[i * num_params + 2],
        y2: data[i * num_params + 3],
        confidence: data[i * num_params + 4],
    }
}

/// The `num_boxes` records of the flat buffer, in order.
pub open spec fn spec_candidates(data: Seq<i64>, num_boxes: int, num_params: int) -> Seq<
    Candidate,
> {
    Seq::new(num_boxes as nat, |i: int| spec_candidate_at(data, num_params, i))
}

/// Reads the records out of the flat buffer.
fn collect_candidates(data: &Vec<i64>, num_boxes: usize, num_params: usize) -> (r: Vec<Candidate>)
    requires
        num_params >= 5,
        num_boxes * num_params <= data@.len(),
    ensures
        r@ == spec_candidates(data@, num_boxes as int, num_params as int),
{
    let mut r: Vec<Candidate> = Vec::new();
    let mut i: usize = 0;
    let total = data.len();
    proof {
        assert(r@ =~= spec_candidates(data@, 0, num_params as int));
    }
    while i < num_boxes
        invariant
            i <= num_boxes,
            num_params >= 5,
            num_boxes * num_params <= total,
            total == data@.len(),
            r@ == spec_candidates(data@, i as int, num_params as int),
        decreases num_boxes - i,
    {
        proof {
            assert((i + 1) * num_params <= num_boxes * num_params && i * num_params + num_params
                == (i + 1) * num_params) by (nonlinear_arith)
                requires
                    i < num_boxes,
                    num_params >= 5,
            ;
        }
        let base = i * num_params;
        let c = Candidate {
            x1: data[base],
            y1: data[base + 1],
            x2: data[base + 2],
            y2: data[base + 3],
            confidence: data[base + 4],
        };
        r.push(c);
        proof {
            assert(r@ =~= spec_candidates(data@, i as int + 1, num_params as int));
        }
        i += 1;
    }
    r
}

/// One coordinate rescaled from model space to source space:
/// `x * o / s`, the exact ratio rounded down.
pub open spec fn spec_scale_coord(x: int, o: int, s: int) -> int
    recommends
        s > 0,
{
    (x * o) / s
}

/// A candidate's box rescaled by the axis-wise factors
/// `o_width / s_width` and `o_height / s_height`.
pub open spec fn spec_scale_box(c: Candidate, msg: ScaleMessage) -> BoundingBox {
    BoundingBox {
        x1: spec_scale_coord(c.x1 as int, msg.o_width as int, msg.s_width as int) as i64,
        y1: spec_scale_coord(c.y1 as int, msg.o_height as int, msg.s_height as int) as i64,
        x2: spec_scale_coord(c.x2 as int, msg.o_width as int, msg.s_width as int) as i64,
        y2: spec_scale_coord(c.y2 as int, msg.o_height as int, msg.s_height as int) as i64,
    }
}

fn scale_coord(x: i64, o: u32, s: u32) -> (r: i64)
    requires
        0 <= x <= COORD_LIMIT,
        s > 0,
    ensures
        r as int == spec_scale_coord(x as int, o as int, s as int),
        r >= 0,
{
    proof {
        assert((x as int) * (o as int) <= COORD_LIMIT * 0xffff_ffffu32 && 0 <= (x as int) * (
        o as int)) by (nonlinear_arith)
            requires
                0 <= x as int <= COORD_LIMIT,
                0 <= o as int <= 0xffff_ffffu32,
        ;
    }
    let prod: u64 = (x as u64) * (o as u64);
    let q = prod / (s as u64);
    proof {
        assert(q <= prod) by (nonlinear_arith)
            requires
                s >= 1,
                q == prod / (s as u64),
        ;
    }
    q as i64
}

/// Detections standing for the accepted candidates: each box rescaled to
/// source coordinates, class 0 with the person label, confidence kept.
pub open spec fn detections_match(
    dets: Seq<Detection>,
    accepted: Seq<Candidate>,
    msg: ScaleMessage,
) -> bool {
    &&& dets.len() == accepted.len()
    &&& forall|i: int|
        0 <= i < dets.len() ==> {
            &&& (#[trigger] dets[i]).bbox == spec_scale_box(accepted[i], msg)
            &&& dets[i].class_id == 0
            &&& dets[i].class_name@ == PERSON_CLASS_LABEL@
            &&& dets[i].confidence == accepted[i].confidence
        }
}

/// Builds the output detections for the accepted candidates.
fn detections_from(accepted: &Vec<Candidate>, message: &ScaleMessage) -> (r: Vec<Detection>)
    requires
        wf_candidates(accepted@),
        message.s_width > 0,
        message.s_height > 0,
    ensures
        detections_match(r@, accepted@, *message),
{
    let mut r: Vec<Detection> = Vec::new();
    let mut i: usize = 0;
    while i < accepted.len()
        invariant
            i <= accepted@.len(),
            wf_candidates(accepted@),
            message.s_width > 0,
            message.s_height > 0,
            detections_match(r@, accepted@.subrange(0, i as int), *message),
        decreases accepted@.len() - i,
    {
        let ghost pre = r@;
        let c = accepted[i];
        let bbox = BoundingBox {
            x1: scale_coord(c.x1, message.o_width, message.s_width),
            y1: scale_coord(c.y1, message.o_height, message.s_height),
            x2: scale_coord(c.x2, message.o_width, message.s_width),
            y2: scale_coord(c.y2, message.o_height, message.s_height),
        };
        let name = String::from_str(PERSON_CLASS_LABEL);
        let d = Detection { bbox, class_id: 0, class_name: name, confidence: c.confidence };
        r.push(d);
        proof {
            let prefix = accepted@.subrange(0, i as int + 1);
            assert(bbox == spec_scale_box(c, *message));
            assert forall|k: int| 0 <= k < r@.len() implies {
                &&& (#[trigger] r@[k]).bbox == spec_scale_box(prefix[k], *message)
                &&& r@[k].class_id == 0
                &&& r@[k].class_name@ == PERSON_CLASS_LABEL@
                &&& r@[k].confidence == prefix[k].confidence
            } by {
                if k < pre.len() {
                    assert(r@[k] == pre[k]);
                    assert(prefix[k] == accepted@.subrange(0, i as int)[k]);
                } else {
                    assert(r@[k] == d);
                    assert(prefix[k] == accepted@[i as int]);
                }
            }
        }
        i += 1;
    }
    proof {
        assert(accepted@.subrange(0, accepted@.len() as int) =~= accepted@);
    }
    r
}

/// The ranked, non-overlapping candidates the engine accepts from a raw
/// buffer: its records sorted by confidence descending, then greedily
/// suppressed under the two thresholds, capped at `DETECTIONS_CAPACITY`.
pub open spec fn spec_accepted(
    data: Seq<i64>,
    num_boxes: int,
    num_params: int,
    conf_t: i64,
    nms_t: i64,
) -> Seq<Candidate> {
    spec_nms(
        spec_sort_desc(spec_candidates(data, num_boxes, num_params)),
        conf_t,
        nms_t,
        DETECTIONS_CAPACITY as nat,
    )
}

/// Ranking law of the engine's accepted set, whatever the raw buffer: it
/// never exceeds the batch capacity; it is ordered by confidence
/// descending; every accepted record reaches the confidence threshold and
/// has positive area; and no accepted record suppresses a later accepted
/// one, so any two of them overlap with an IoU below the threshold.
pub proof fn lemma_accepted_ranked(
    data: Seq<i64>,
    num_boxes: int,
    num_params: int,
    conf_t: i64,
    nms_t: i64,
)
    ensures
        spec_accepted(data, num_boxes, num_params, conf_t, nms_t).len() <= DETECTIONS_CAPACITY,
        sorted_desc(spec_accepted(data, num_boxes, num_params, conf_t, nms_t)),
        forall|i: int|
            0 <= i < spec_accepted(data, num_boxes, num_params, conf_t, nms_t).len() ==> (
            #[trigger] spec_accepted(data, num_boxes, num_params, conf_t, nms_t)[i]).confidence
                >= conf_t && spec_accepted(data, num_boxes, num_params, conf_t, nms_t)[i].spec_area()
                > 0,
        forall|i: int, j: int|
            0 <= i < j < spec_accepted(data, num_boxes, num_params, conf_t, nms_t).len()
                ==> !spec_suppresses(
                #[trigger] spec_accepted(data, num_boxes, num_params, conf_t, nms_t)[i],
                #[trigger] spec_accepted(data, num_boxes, num_params, conf_t, nms_t)[j],
                nms_t,
            ),
{
    let sorted = spec_sort_desc(spec_candidates(data, num_boxes, num_params));
    lemma_sort_desc_sorted(spec_candidates(data, num_boxes, num_params));
    lemma_nms_len(sorted, conf_t, nms_t, DETECTIONS_CAPACITY as nat);
    lemma_nms_sorted(sorted, conf_t, nms_t, DETECTIONS_CAPACITY as nat);
    lemma_nms_elems(sorted, conf_t, nms_t, DETECTIONS_CAPACITY as nat);
    lemma_nms_pairwise(sorted, conf_t, nms_t, DETECTIONS_CAPACITY as nat);
}

/// Full suppression pass over a raw output buffer: orders the records by
/// confidence descending, greedily suppresses overlaps, and rescales each
/// accepted box from the model-input size to the source-image size.
pub fn process_detections(
    data: &Vec<i64>,
    num_boxes: usize,
    num_params: usize,
    img_width: u32,
    img_height: u32,
    input_width: u32,
    input_height: u32,
    confidence_threshold: i64,
    nms_threshold: i64,
) -> (r: Vec<Detection>)
    requires
        num_params >= 5,
        num_boxes * num_params <= data@.len(),
        wf_candidates(spec_candidates(data@, num_boxes as int, num_params as int)),
        input_width > 0,
        input_height > 0,
        0 <= nms_threshold <= SCORE_SCALE,
    ensures
        detections_match(
            r@,
            spec_accepted(
                data@,
                num_boxes as int,
                num_params as int,
                confidence_threshold,
                nms_threshold,
            ),
            ScaleMessage {
                o_width: img_width,
                o_height: img_height,
                s_width: input_width,
                s_height: input_height,
            },
        ),
{
    let message = ScaleMessage {
        o_width: img_width,
        o_height: img_height,
        s_width: input_width,
        s_height: input_height,
    };
    let mut cands = collect_candidates(data, num_boxes, num_params);
    proof {
        lemma_sort_desc_wf(cands@);
    }
    sort_candidates(&mut cands);
    let accepted = apply_nms(cands, confidence_threshold, nms_threshold, DETECTIONS_CAPACITY);
    proof {
        lemma_nms_wf(
            spec_sort_desc(spec_candidates(data@, num_boxes as int, num_params as int)),
            confidence_threshold,
            nms_threshold,
            DETECTIONS_CAPACITY as nat,
        );
    }
    detections_from(&accepted, &message)
}

/// As [`process_detections`], with the dimensions taken from a
/// [`ScaleMessage`].
pub fn to_bounds(
    data: &Vec<i64>,
    num_boxes: usize,
    num_params: usize,
    message: &ScaleMessage,
    confidence_threshold: i64,
    nms_threshold: i64,
) -> (r: Vec<Detection>)
    requires
        num_params >= 5,
        num_boxes * num_params <= data@.len(),
        wf_candidates(spec_candidates(data@, num_boxes as int, num_params as int)),
        message.s_width > 0,
        message.s_height > 0,
        0 <= nms_threshold <= SCORE_SCALE,
    ensures
        detections_match(
            r@,
            spec_accepted(
                data@,
                num_boxes as int,
                num_params as int,
                confidence_threshold,
                nms_threshold,
            ),
            *message,
        ),
{
    process_detections(
        data,
        num_boxes,
        num_params,
        message.o_width,
        message.o_height,
        message.s_width,
        message.s_height,
        confidence_threshold,
        nms_threshold,
    )
}

/// Suppression pass that refills a pre-allocated batch: clears `bounds` and
/// fills it with the accepted detections, oldest-to-newest in ranking order.
/// The cap of the greedy pass equals the batch capacity, so nothing is ever
/// silently dropped here.
pub fn nms_tensor(
    data: &Vec<i64>,
    num_boxes: usize,
    num_params: usize,
    bounds: &mut Bounds,
    message: &ScaleMessage,
    confidence_threshold: i64,
    nms_threshold: i64,
)
    requires
        num_params >= 5,
        num_boxes * num_params <= data@.len(),
        wf_candidates(spec_candidates(data@, num_boxes as int, num_params as int)),
        message.s_width > 0,
        message.s_height > 0,
        0 <= nms_threshold <= SCORE_SCALE,
    ensures
        final(bounds).wf(),
        detections_match(
            final(bounds)@,
            spec_accepted(
                data@,
                num_boxes as int,
                num_params as int,
                confidence_threshold,
                nms_threshold,
            ),
            *message,
        ),
{
    let dets = to_bounds(data, num_boxes, num_params, message, confidence_threshold, nms_threshold);
    let ghost accepted = spec_accepted(
        data@,
        num_boxes as int,
        num_params as int,
        confidence_threshold,
        nms_threshold,
    );
    proof {
        lemma_nms_len(
            spec_sort_desc(spec_candidates(data@, num_boxes as int, num_params as int)),
            confidence_threshold,
            nms_threshold,
            DETECTIONS_CAPACITY as nat,
        );
    }
    bounds.clear();
    let mut dets = dets;
    let mut i: usize = 0;
    let ghost total = dets@.len();
    while dets.len() > 0
        invariant
            bounds.wf(),
            i + dets@.len() == total,
            total == accepted.len() <= DETECTIONS_CAPACITY,
            bounds@.len() == i,
            detections_match(bounds@, accepted.subrange(0, i as int), *message),
            detections_match(bounds@ + dets@, accepted, *message),
        decreases dets@.len(),
    {
        let ghost pre_bounds = bounds@;
        let ghost pre_dets = dets@;
        let d = dets.remove(0);
        let kept = bounds.push(d);
        proof {
            assert(kept);
            assert(d == (pre_bounds + pre_dets)[i as int]);
            assert(bounds@ =~= pre_bounds.push(d));
            assert(bounds@ + dets@ =~= pre_bounds + pre_dets);
            assert forall|k: int| 0 <= k < bounds@.len() implies {
                &&& (#[trigger] bounds@[k]).bbox == spec_scale_box(
                    accepted.subrange(0, i as int + 1)[k],
                    *message,
                )
                &&& bounds@[k].class_id == 0
                &&& bounds@[k].class_name@ == PERSON_CLASS_LABEL@
                &&& bounds@[k].confidence == accepted.subrange(0, i as int + 1)[k].confidence
            } by {
                assert(bounds@[k] == (bounds@ + dets@)[k]);
                assert(accepted.subrange(0, i as int + 1)[k] == accepted[k]);
            }
        }
        i += 1;
    }
    proof {
        assert(bounds@ + dets@ =~= bounds@);
    }
}

} // verus!
