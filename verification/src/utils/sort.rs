//! Sorting utilities: a plain ascending sort, and strided sorts that keep
//! runs of `split` values together as records while ordering the records by
//! one key column.

use vstd::prelude::*;
use vstd::seq_lib::group_to_multiset_ensures;
use vstd::seq_lib::lemma_multiset_commutative;

verus! {

/// Inserting an element anywhere adds exactly it to the multiset.
proof fn lemma_seq_insert_multiset<A>(s: Seq<A>, j: int, x: A)
    requires
        0 <= j <= s.len(),
    ensures
        s.insert(j, x).to_multiset() == s.to_multiset().insert(x),
        s.insert(j, x).len() == s.len() + 1,
{
    broadcast use group_to_multiset_ensures;

    let a = s.subrange(0, j);
    let b = s.subrange(j, s.len() as int);
    lemma_multiset_commutative(a.push(x), b);
    lemma_multiset_commutative(a, b);
    assert(s =~= a + b);
    assert(a.push(x).to_multiset() =~= a.to_multiset().insert(x));
    assert(a.to_multiset().insert(x).add(b.to_multiset()) =~= a.to_multiset().add(
        b.to_multiset(),
    ).insert(x));
}

/// Evidence that a comparator really placed `a` before `b`: some call of it
/// returned non-`Greater` on `(a, b)`, or `Greater` on `(b, a)`. A sort
/// driven by an arbitrary comparator can promise no more of its order than
/// such a record of the answers it was given.
pub open spec fn comparator_orders<T, F: Fn(&T, &T) -> std::cmp::Ordering>(
    compare: F,
    a: T,
    b: T,
) -> bool {
    ||| exists|o: std::cmp::Ordering|
        o != std::cmp::Ordering::Greater && compare.ensures((&a, &b), o)
    ||| compare.ensures((&b, &a), std::cmp::Ordering::Greater)
}

/// Sorts the values ascending, in place. The result holds exactly the input
/// values (same multiset), in non-decreasing order — which pins it down
/// completely.
pub fn quick_sort(arr: &mut Vec<i32>)
    ensures
        final(arr)@.len() == old(arr)@.len(),
        final(arr)@.to_multiset() == old(arr)@.to_multiset(),
        forall|i: int, j: int|
            0 <= i < j < final(arr)@.len() ==> final(arr)@[i] <= final(arr)@[j],
{
    proof {
        broadcast use group_to_multiset_ensures;

    }
    let mut out: Vec<i32> = Vec::new();
    let mut i: usize = 0;
    proof {
        assert(arr@.subrange(0, 0) =~= Seq::<i32>::empty());
        assert(out@.to_multiset() =~= arr@.subrange(0, 0).to_multiset());
    }
    while i < arr.len()
        invariant
            i <= arr@.len(),
            out@.len() == i,
            out@.to_multiset() == arr@.subrange(0, i as int).to_multiset(),
            forall|p: int, q: int| 0 <= p < q < out@.len() ==> out@[p] <= out@[q],
        decreases arr@.len() - i,
    {
        let x = arr[i];
        let ghost pre = out@;
        let mut j: usize = out.len();
        while j > 0 && out[j - 1] > x
            invariant
                j <= out@.len(),
                out@ == pre,
                forall|k: int| j <= k < out@.len() ==> out@[k] > x,
            decreases j,
        {
            j -= 1;
        }
        out.insert(j, x);
        proof {
            broadcast use group_to_multiset_ensures;

            lemma_seq_insert_multiset(pre, j as int, x);
            pre.insert_ensures(j as int, x);
            assert(arr@.subrange(0, i as int + 1) =~= arr@.subrange(0, i as int).push(x));
            assert(arr@.subrange(0, i as int).push(x).to_multiset() =~= arr@.subrange(
                0,
                i as int,
            ).to_multiset().insert(x));
            assert forall|p: int, q: int| 0 <= p < q < out@.len() implies out@[p] <= out@[q] by {
                if q < j {
                    assert(out@[p] == pre[p] && out@[q] == pre[q]);
                } else if q == j {
                    if p < j {
                        assert(out@[p] == pre[p]);
                        if j > 0 {
                            assert(pre[p] <= pre[j - 1]);
                        }
                    }
                } else {
                    assert(out@[q] == pre[q - 1] && pre[q - 1] > x);
                    if p == j {
                    } else if p < j {
                        assert(out@[p] == pre[p]);
                        assert(pre[p] <= pre[q - 1]);
                    } else {
                        assert(out@[p] == pre[p - 1]);
                        assert(pre[p - 1] <= pre[q - 1]);
                    }
                }
            }
        }
        i += 1;
    }
    proof {
        assert(arr@.subrange(0, arr@.len() as int) =~= arr@);
    }
    *arr = out;
}

/// The records of a flat buffer: consecutive runs of `split` values.
pub open spec fn records_of(s: Seq<i64>, split: int) -> Seq<Seq<i64>>
    recommends
        split > 0,
{
    Seq::new((s.len() as int / split) as nat, |i: int| s.subrange(i * split, (i + 1) * split))
}

/// The views of a vector of records.
pub open spec fn record_views(recs: Seq<Vec<i64>>) -> Seq<Seq<i64>> {
    recs.map_values(|v: Vec<i64>| v@)
}

/// Cuts the flat buffer into its records.
fn split_records(arr: &Vec<i64>, split: usize) -> (r: Vec<Vec<i64>>)
    requires
        split > 0,
        arr@.len() as int % (split as int) == 0,
    ensures
        record_views(r@) == records_of(arr@, split as int),
        r@.len() == arr@.len() as int / (split as int),
        forall|i: int| 0 <= i < r@.len() ==> (#[trigger] r@[i])@.len() == split,
{
    let total = arr.len();
    let count = total / split;
    proof {
        assert(count * split == total) by (nonlinear_arith)
            requires
                split > 0,
                total as int % (split as int) == 0,
                count == total as int / split as int,
        ;
    }
    let mut r: Vec<Vec<i64>> = Vec::new();
    let mut i: usize = 0;
    while i < count
        invariant
            i <= count,
            split > 0,
            count * split == total,
            total == arr@.len(),
            count == arr@.len() as int / (split as int),
            r@.len() == i,
            forall|p: int|
                0 <= p < i ==> (#[trigger] r@[p])@ == arr@.subrange(
                    p * split,
                    (p + 1) * split,
                ),
            forall|p: int| 0 <= p < r@.len() ==> (#[trigger] r@[p])@.len() == split,
        decreases count - i,
    {
        proof {
            assert((i + 1) * split <= count * split && i * split + split == (i + 1) * split && 0
                <= i * split) by (nonlinear_arith)
                requires
                    0 <= i < count,
                    split > 0,
            ;
        }
        let base = i * split;
        let mut rec: Vec<i64> = Vec::new();
        let mut k: usize = 0;
        while k < split
            invariant
                k <= split,
                base == i * split,
                base + split <= total,
                total == arr@.len(),
                rec@ == arr@.subrange(base as int, base as int + k as int),
            decreases split - k,
        {
            rec.push(arr[base + k]);
            proof {
                assert(rec@ =~= arr@.subrange(base as int, base as int + k as int + 1));
            }
            k += 1;
        }
        r.push(rec);
        i += 1;
    }
    proof {
        assert(record_views(r@) =~= records_of(arr@, split as int));
    }
    r
}

/// Concatenates the records back into a flat buffer.
fn join_records(recs: &Vec<Vec<i64>>, split: usize) -> (r: Vec<i64>)
    requires
        split > 0,
        forall|i: int| 0 <= i < recs@.len() ==> (#[trigger] recs@[i])@.len() == split,
        recs@.len() * split <= usize::MAX,
    ensures
        r@.len() == recs@.len() * split,
        r@.len() as int % (split as int) == 0,
        records_of(r@, split as int) == record_views(recs@),
{
    let mut r: Vec<i64> = Vec::new();
    let mut i: usize = 0;
    while i < recs.len()
        invariant
            i <= recs@.len(),
            split > 0,
            forall|p: int| 0 <= p < recs@.len() ==> (#[trigger] recs@[p])@.len() == split,
            recs@.len() * split <= usize::MAX,
            r@.len() == i * split,
            forall|p: int|
                0 <= p < i ==> r@.subrange(p * split, (p + 1) * split) == (
                #[trigger] recs@[p])@,
        decreases recs@.len() - i,
    {
        proof {
            assert((i + 1) * split <= recs@.len() * split && i * split + split == (i + 1) * split
                && 0 <= i * split) by (nonlinear_arith)
                requires
                    0 <= i < recs@.len(),
                    split > 0,
        ;
        }
        let ghost pre = r@;
        r.extend_from_slice(recs[i].as_slice());
        proof {
            assert forall|p: int| 0 <= p < i + 1 implies r@.subrange(p * split, (p + 1) * split)
                == (#[trigger] recs@[p])@ by {
                assert(0 <= p * split && (p + 1) * split <= i * split + split && p * split + split
                    == (p + 1) * split && (p < i ==> (p + 1) * split <= i * split))
                    by (nonlinear_arith)
                    requires
                        0 <= p <= i,
                        split > 0,
                ;
                if p < i {
                    assert(r@.subrange(p * split, (p + 1) * split) =~= pre.subrange(
                        p * split,
                        (p + 1) * split,
                    ));
                } else {
                    assert(r@.subrange(p * split, (p + 1) * split) =~= recs@[p]@);
                }
            }
        }
        i += 1;
    }
    proof {
        vstd::arithmetic::div_mod::lemma_mod_multiples_basic(recs@.len() as int, split as int);
        vstd::arithmetic::div_mod::lemma_div_multiples_vanish(recs@.len() as int, split as int);
        assert((split as int) * (recs@.len() as int) == recs@.len() as int * (split as int))
            by (nonlinear_arith);
        assert(records_of(r@, split as int) =~= record_views(recs@));
    }
    r
}

/// Sorts the records of a flat buffer in place, ascending by the key column
/// at `offset` within each record. A buffer shorter than one record, an
/// offset outside the record, or a length that is not a whole number of
/// records leaves the buffer untouched. Otherwise the records are kept
/// intact and complete (same multiset of records) and end up ordered by
/// their key.
pub fn group_sort(arr: &mut Vec<i64>, split: usize, offset: usize)
    ensures
        (old(arr)@.len() < split || offset >= split || old(arr)@.len() as int % (split as int) != 0)
            ==> final(arr)@ == old(arr)@,
        !(old(arr)@.len() < split || offset >= split || old(arr)@.len() as int % (split as int) != 0)
            ==> {
            &&& final(arr)@.len() == old(arr)@.len()
            &&& records_of(final(arr)@, split as int).to_multiset() == records_of(
                old(arr)@,
                split as int,
            ).to_multiset()
            &&& forall|i: int, j: int|
                0 <= i < j < records_of(final(arr)@, split as int).len() ==> records_of(
                    final(arr)@,
                    split as int,
                )[i][offset as int] <= records_of(final(arr)@, split as int)[j][offset as int]
        },
{
    if arr.len() < split || offset >= split {
        return ;
    }
    if arr.len() % split != 0 {
        return ;
    }
    let recs = split_records(arr, split);
    let ghost orig_views = record_views(recs@);
    let mut sorted: Vec<Vec<i64>> = Vec::new();
    let mut i: usize = 0;
    proof {
        broadcast use group_to_multiset_ensures;

        assert(record_views(recs@.subrange(0, 0)) =~= Seq::<Seq<i64>>::empty());
        assert(record_views(sorted@) =~= Seq::<Seq<i64>>::empty());
        assert(record_views(sorted@).to_multiset() =~= record_views(
            recs@.subrange(0, 0),
        ).to_multiset());
    }
    while i < recs.len()
        invariant
            i <= recs@.len(),
            offset < split,
            forall|p: int| 0 <= p < recs@.len() ==> (#[trigger] recs@[p])@.len() == split,
            forall|p: int| 0 <= p < sorted@.len() ==> (#[trigger] sorted@[p])@.len() == split,
            sorted@.len() == i,
            record_views(sorted@).to_multiset() == record_views(
                recs@.subrange(0, i as int),
            ).to_multiset(),
            forall|p: int, q: int|
                0 <= p < q < sorted@.len() ==> (#[trigger] sorted@[p])@[offset as int] <= (
                #[trigger] sorted@[q])@[offset as int],
        decreases recs@.len() - i,
    {
        let ghost pre = sorted@;
        let key = recs[i][offset];
        let mut j: usize = sorted.len();
        while j > 0 && sorted[j - 1][offset] > key
            invariant
                j <= sorted@.len(),
                sorted@ == pre,
                offset < split,
                forall|p: int| 0 <= p < sorted@.len() ==> (#[trigger] sorted@[p])@.len() == split,
                forall|k: int| j <= k < sorted@.len() ==> (#[trigger] sorted@[k])@[offset as int] > key,
            decreases j,
        {
            j -= 1;
        }
        let rec = recs[i].clone();
        proof {
            assert(rec@ == recs@[i as int]@);
        }
        sorted.insert(j, rec);
        proof {
            broadcast use group_to_multiset_ensures;

            lemma_seq_insert_multiset(record_views(pre), j as int, rec@);
            assert(record_views(sorted@) =~= record_views(pre).insert(j as int, rec@));
            assert(recs@.subrange(0, i as int + 1) =~= recs@.subrange(0, i as int).push(
                recs@[i as int],
            ));
            assert(record_views(recs@.subrange(0, i as int + 1)) =~= record_views(
                recs@.subrange(0, i as int),
            ).push(rec@));
            assert(record_views(recs@.subrange(0, i as int)).push(rec@).to_multiset()
                =~= record_views(recs@.subrange(0, i as int)).to_multiset().insert(rec@));
            record_views(pre).insert_ensures(j as int, rec@);
            assert forall|p: int, q: int| 0 <= p < q < sorted@.len() implies (
            #[trigger] sorted@[p])@[offset as int] <= (#[trigger] sorted@[q])@[offset as int] by {
                if q < j {
                    assert(sorted@[p] == pre[p] && sorted@[q] == pre[q]);
                } else if q == j {
                    if p < j {
                        assert(sorted@[p] == pre[p]);
                        if j > 0 {
                            assert(pre[p]@[offset as int] <= pre[j - 1]@[offset as int]);
                        }
                    }
                } else {
                    assert(sorted@[q] == pre[q - 1] && pre[q - 1]@[offset as int] > key);
                    if p == j {
                    } else if p < j {
                        assert(sorted@[p] == pre[p]);
                        assert(pre[p]@[offset as int] <= pre[q - 1]@[offset as int]);
                    } else {
                        assert(sorted@[p] == pre[p - 1]);
                        assert(pre[p - 1]@[offset as int] <= pre[q - 1]@[offset as int]);
                    }
                }
            }
        }
        i += 1;
    }
    proof {
        assert(recs@.subrange(0, recs@.len() as int) =~= recs@);
        assert(sorted@.len() * split == arr@.len()) by (nonlinear_arith)
            requires
                split > 0,
                sorted@.len() == arr@.len() as int / (split as int),
                arr@.len() as int % (split as int) == 0,
        ;
    }
    let out = join_records(&sorted, split);
    proof {
        broadcast use group_to_multiset_ensures;

        assert(record_views(recs@) == records_of(arr@, split as int));
    }
    *arr = out;
}

/// Sorts the records of a flat buffer in place with a caller-supplied
/// comparator on the key column at `offset`. The same degenerate inputs as
/// in [`group_sort`] leave the buffer untouched; otherwise the records are
/// kept intact and complete (same multiset of records), and every adjacent
/// pair of keys in the result is backed by an answer the comparator really
/// returned: non-`Greater` on that pair, or `Greater` on the swapped pair.
/// A consistent comparator therefore leaves the records sorted by it; an
/// inconsistent one is answered only with its own decisions.
pub fn group_sort_by<F: Fn(&i64, &i64) -> std::cmp::Ordering>(
    arr: &mut Vec<i64>,
    split: usize,
    offset: usize,
    compare: F,
)
    requires
        forall|x: i64, y: i64| #[trigger] compare.requires((&x, &y)),
    ensures
        (old(arr)@.len() < split || offset >= split || old(arr)@.len() as int % (split as int) != 0)
            ==> final(arr)@ == old(arr)@,
        !(old(arr)@.len() < split || offset >= split || old(arr)@.len() as int % (split as int) != 0)
            ==> {
            &&& final(arr)@.len() == old(arr)@.len()
            &&& records_of(final(arr)@, split as int).to_multiset() == records_of(
                old(arr)@,
                split as int,
            ).to_multiset()
            &&& forall|i: int|
                0 <= i < records_of(final(arr)@, split as int).len() - 1
                    ==> #[trigger] comparator_orders(
                    compare,
                    records_of(final(arr)@, split as int)[i][offset as int],
                    records_of(final(arr)@, split as int)[i + 1][offset as int],
                )
        },
{
    if arr.len() < split || offset >= split {
        return ;
    }
    if arr.len() % split != 0 {
        return ;
    }
    let recs = split_records(arr, split);
    let mut sorted: Vec<Vec<i64>> = Vec::new();
    let mut i: usize = 0;
    proof {
        broadcast use group_to_multiset_ensures;

        assert(record_views(recs@.subrange(0, 0)) =~= Seq::<Seq<i64>>::empty());
        assert(record_views(sorted@) =~= Seq::<Seq<i64>>::empty());
        assert(record_views(sorted@).to_multiset() =~= record_views(
            recs@.subrange(0, 0),
        ).to_multiset());
    }
    while i < recs.len()
        invariant
            i <= recs@.len(),
            offset < split,
            forall|x: i64, y: i64| #[trigger] compare.requires((&x, &y)),
            forall|p: int| 0 <= p < recs@.len() ==> (#[trigger] recs@[p])@.len() == split,
            forall|p: int| 0 <= p < sorted@.len() ==> (#[trigger] sorted@[p])@.len() == split,
            sorted@.len() == i,
            record_views(sorted@).to_multiset() == record_views(
                recs@.subrange(0, i as int),
            ).to_multiset(),
            forall|p: int|
                0 <= p < sorted@.len() - 1 ==> #[trigger] comparator_orders(
                    compare,
                    sorted@[p]@[offset as int],
                    sorted@[p + 1]@[offset as int],
                ),
        decreases recs@.len() - i,
    {
        let ghost pre = sorted@;
        let key = recs[i][offset];
        let ghost key_val = key;
        let mut j: usize = sorted.len();
        let ghost mut stop_ord = std::cmp::Ordering::Equal;
        let mut scanning = j > 0;
        while scanning
            invariant
                j <= sorted@.len(),
                sorted@ == pre,
                offset < split,
                key == key_val,
                forall|x: i64, y: i64| #[trigger] compare.requires((&x, &y)),
                forall|p: int| 0 <= p < sorted@.len() ==> (#[trigger] sorted@[p])@.len() == split,
                scanning ==> j > 0,
                forall|k: int|
                    j <= k < sorted@.len() ==> #[trigger] compare.ensures(
                        (&sorted@[k]@[offset as int], &key_val),
                        std::cmp::Ordering::Greater,
                    ),
                !scanning && j > 0 ==> stop_ord != std::cmp::Ordering::Greater
                    && compare.ensures((&sorted@[j - 1]@[offset as int], &key_val), stop_ord),
            decreases j + if scanning {
                1int
            } else {
                0int
            },
        {
            let prev = sorted[j - 1][offset];
            let ordering = compare(&prev, &key);
            match ordering {
                std::cmp::Ordering::Greater => {
                    j -= 1;
                    scanning = j > 0;
                },
                _ => {
                    proof {
                        stop_ord = ordering;
                    }
                    scanning = false;
                },
            }
        }
        let rec = recs[i].clone();
        proof {
            assert(rec@ == recs@[i as int]@);
        }
        sorted.insert(j, rec);
        proof {
            broadcast use group_to_multiset_ensures;

            lemma_seq_insert_multiset(record_views(pre), j as int, rec@);
            pre.insert_ensures(j as int, rec);
            assert(record_views(sorted@) =~= record_views(pre).insert(j as int, rec@));
            assert(recs@.subrange(0, i as int + 1) =~= recs@.subrange(0, i as int).push(
                recs@[i as int],
            ));
            assert(record_views(recs@.subrange(0, i as int + 1)) =~= record_views(
                recs@.subrange(0, i as int),
            ).push(rec@));
            assert(record_views(recs@.subrange(0, i as int)).push(rec@).to_multiset()
                =~= record_views(recs@.subrange(0, i as int)).to_multiset().insert(rec@));
            assert(rec@[offset as int] == key_val);
            assert forall|p: int| 0 <= p < sorted@.len() - 1 implies #[trigger] comparator_orders(
                compare,
                sorted@[p]@[offset as int],
                sorted@[p + 1]@[offset as int],
            ) by {
                if p + 1 < j {
                    assert(sorted@[p] == pre[p] && sorted@[p + 1] == pre[p + 1]);
                    assert(comparator_orders(
                        compare,
                        pre[p]@[offset as int],
                        pre[p + 1]@[offset as int],
                    ));
                } else if p + 1 == j {
                    assert(sorted@[p] == pre[p] && sorted@[p + 1] == rec);
                    assert(compare.ensures(
                        (&pre[j - 1]@[offset as int], &key_val),
                        stop_ord,
                    ));
                } else if p == j {
                    assert(sorted@[p] == rec && sorted@[p + 1] == pre[p]);
                    assert(compare.ensures(
                        (&pre[p]@[offset as int], &key_val),
                        std::cmp::Ordering::Greater,
                    ));
                } else {
                    assert(sorted@[p] == pre[p - 1] && sorted@[p + 1] == pre[p]);
                    assert(comparator_orders(
                        compare,
                        pre[p - 1]@[offset as int],
                        pre[p]@[offset as int],
                    ));
                }
            }
        }
        i += 1;
    }
    proof {
        assert(recs@.subrange(0, recs@.len() as int) =~= recs@);
        assert(sorted@.len() * split == arr@.len()) by (nonlinear_arith)
            requires
                split > 0,
                sorted@.len() == arr@.len() as int / (split as int),
                arr@.len() as int % (split as int) == 0,
        ;
    }
    let out = join_records(&sorted, split);
    proof {
        assert(record_views(recs@) == records_of(arr@, split as int));
        assert forall|i: int| 0 <= i < records_of(out@, split as int).len() - 1
            implies #[trigger] comparator_orders(
            compare,
            records_of(out@, split as int)[i][offset as int],
            records_of(out@, split as int)[i + 1][offset as int],
        ) by {
            assert(records_of(out@, split as int)[i] == record_views(sorted@)[i]);
            assert(records_of(out@, split as int)[i + 1] == record_views(sorted@)[i + 1]);
            assert(record_views(sorted@)[i] == sorted@[i]@);
            assert(record_views(sorted@)[i + 1] == sorted@[i + 1]@);
            assert(comparator_orders(
                compare,
                sorted@[i]@[offset as int],
                sorted@[i + 1]@[offset as int],
            ));
        }
    }
    *arr = out;
}

} // verus!
