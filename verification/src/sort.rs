//! Sorting a region of fixed-width records by the record type's order.
//!
//! This is the sort step of the sorted streaming container: it takes the
//! raw bytes of a record region, orders the records, and returns the
//! reordered bytes.  Sorting neither loses nor duplicates a record: the
//! multiset of record byte images is preserved.  A pair of records the
//! record type cannot order makes the whole sort fail.

use crate::arrayview::{lemma_records_read_back, record_at};
use crate::error::ResourceStorageError;
use crate::records::{SortableStruct, Struct};
use vstd::prelude::*;
use vstd::seq_lib::lemma_multiset_commutative;

verus! {

broadcast use vstd::seq_lib::group_to_multiset_ensures;

/// The byte images of a sequence of record buffers.
pub open spec fn views_of(s: Seq<Vec<u8>>) -> Seq<Seq<u8>> {
    s.map_values(|v: Vec<u8>| v@)
}

/// Every record image has width `sz`.
pub open spec fn recs_wf(s: Seq<Seq<u8>>, sz: int) -> bool {
    forall|i: int| 0 <= i < s.len() ==> #[trigger] s[i].len() == sz
}

/// Whether the run holds two records the order cannot compare.
pub open spec fn has_incomparable_pair<T: SortableStruct>(s: Seq<Seq<u8>>) -> bool {
    exists|x: Seq<u8>, y: Seq<u8>| s.contains(x) && s.contains(y) && !T::comparable(x, y)
}

/// An element of a concatenation comes from one of the parts.
proof fn lemma_contains_concat_split(a: Seq<Seq<u8>>, b: Seq<Seq<u8>>, x: Seq<u8>)
    requires
        (a + b).contains(x),
    ensures
        a.contains(x) || b.contains(x),
{
    let i = choose|i: int| 0 <= i < (a + b).len() && (a + b)[i] == x;
    if i < a.len() {
        assert(a[i] == x);
    } else {
        assert(b[i - a.len()] == x);
    }
}

/// An element of a prefix is an element of the whole.
proof fn lemma_contains_take(s: Seq<Seq<u8>>, m: int, x: Seq<u8>)
    requires
        0 <= m <= s.len(),
        s.take(m).contains(x),
    ensures
        s.contains(x),
{
    let i = choose|i: int| 0 <= i < s.take(m).len() && s.take(m)[i] == x;
    assert(s[i] == x);
}

/// An element of a suffix is an element of the whole.
proof fn lemma_contains_skip(s: Seq<Seq<u8>>, m: int, x: Seq<u8>)
    requires
        0 <= m <= s.len(),
        s.skip(m).contains(x),
    ensures
        s.contains(x),
{
    let i = choose|i: int| 0 <= i < s.skip(m).len() && s.skip(m)[i] == x;
    assert(s[m + i] == x);
}

/// Runs with equal record multisets hold the same records.
proof fn lemma_contains_of_multiset(a: Seq<Seq<u8>>, b: Seq<Seq<u8>>, x: Seq<u8>)
    requires
        a.to_multiset() == b.to_multiset(),
        a.contains(x),
    ensures
        b.contains(x),
{
    assert(a.to_multiset().count(x) > 0);
    assert(b.to_multiset().count(x) > 0);
}

/// Every neighbouring pair of records is ordered.
pub open spec fn adj_sorted_by<T: SortableStruct>(s: Seq<Seq<u8>>) -> bool {
    forall|i: int| 0 <= i < s.len() - 1 ==> T::le(#[trigger] s[i], s[i + 1])
}

/// Every record is ordered at or before every later one.
pub open spec fn sorted_by<T: SortableStruct>(s: Seq<Seq<u8>>) -> bool {
    forall|i: int, j: int| 0 <= i < j < s.len() ==> T::le(#[trigger] s[i], #[trigger] s[j])
}

/// A run whose neighbouring records are ordered is sorted throughout:
/// the record order is transitive, so the pairwise order follows from
/// the neighbour-by-neighbour one.
pub proof fn lemma_adj_sorted_is_sorted<T: SortableStruct>(s: Seq<Seq<u8>>)
    requires
        adj_sorted_by::<T>(s),
    ensures
        sorted_by::<T>(s),
{
    assert forall|i: int, j: int| 0 <= i < j < s.len() implies T::le(
        #[trigger] s[i],
        #[trigger] s[j],
    ) by {
        lemma_le_chain::<T>(s, i, j);
    }
}

/// The order carries from a record to any later one in an
/// adjacent-sorted run.
proof fn lemma_le_chain<T: SortableStruct>(s: Seq<Seq<u8>>, i: int, j: int)
    requires
        adj_sorted_by::<T>(s),
        0 <= i < j < s.len(),
    ensures
        T::le(s[i], s[j]),
    decreases j - i,
{
    if i + 1 < j {
        lemma_le_chain::<T>(s, i + 1, j);
        T::lemma_le_trans(s[i], s[i + 1], s[j]);
    }
}

/// The record images of a record region: the region split into
/// `sz`-byte chunks.
pub open spec fn records_of(b: Seq<u8>, sz: int) -> Seq<Seq<u8>>
    recommends
        1 <= sz,
{
    Seq::new(((b.len() as int) / sz) as nat, |i: int| record_at(b, sz, i))
}

/// Copies a byte buffer.
fn clone_bytes(v: &Vec<u8>) -> (r: Vec<u8>)
    ensures
        r@ == v@,
{
    let r = v.clone();
    proof {
        assert forall|j: int| 0 <= j < r@.len() implies r@[j] == v@[j] by {
            assert(r.deep_view()[j] == r@[j]);
            assert(v.deep_view()[j] == v@[j]);
        }
        assert(r@ =~= v@);
    }
    r
}

/// Merges two runs of ordered records into one, preserving the record
/// multiset.  Two incomparable records abort the merge.
fn merge<T: SortableStruct>(left: Vec<Vec<u8>>, right: Vec<Vec<u8>>) -> (r: Result<
    Vec<Vec<u8>>,
    ResourceStorageError,
>)
    requires
        recs_wf(views_of(left@), T::size_spec()),
        recs_wf(views_of(right@), T::size_spec()),
        adj_sorted_by::<T>(views_of(left@)),
        adj_sorted_by::<T>(views_of(right@)),
    ensures
        r matches Ok(out) ==> {
            &&& recs_wf(views_of(out@), T::size_spec())
            &&& adj_sorted_by::<T>(views_of(out@))
            &&& views_of(out@).to_multiset() == views_of(left@).to_multiset().add(
                views_of(right@).to_multiset(),
            )
        },
        r matches Err(e) ==> e == ResourceStorageError::IncomparableRecords
            && has_incomparable_pair::<T>(views_of(left@) + views_of(right@)),
{
    let nl = left.len();
    let nr = right.len();
    let mut out: Vec<Vec<u8>> = Vec::new();
    let mut i: usize = 0;
    let mut j: usize = 0;
    proof {
        assert(views_of(left@).take(0) =~= Seq::<Seq<u8>>::empty());
        assert(views_of(right@).take(0) =~= Seq::<Seq<u8>>::empty());
        assert(views_of(out@) =~= Seq::<Seq<u8>>::empty());
        assert(views_of(out@).to_multiset() =~= views_of(left@).take(
            0,
        ).to_multiset().add(views_of(right@).take(0).to_multiset()));
    }
    while i < nl || j < nr
        invariant
            i <= nl,
            j <= nr,
            nl == left@.len(),
            nr == right@.len(),
            recs_wf(views_of(left@), T::size_spec()),
            recs_wf(views_of(right@), T::size_spec()),
            adj_sorted_by::<T>(views_of(left@)),
            adj_sorted_by::<T>(views_of(right@)),
            recs_wf(views_of(out@), T::size_spec()),
            adj_sorted_by::<T>(views_of(out@)),
            views_of(out@).to_multiset() == views_of(left@).take(i as int).to_multiset().add(
                views_of(right@).take(j as int).to_multiset(),
            ),
            out@.len() > 0 && i < nl ==> T::le(views_of(out@).last(), views_of(left@)[i as int]),
            out@.len() > 0 && j < nr ==> T::le(views_of(out@).last(), views_of(right@)[j as int]),
        decreases nl - i + nr - j,
    {
        let take_left: bool = if i >= nl {
            false
        } else if j >= nr {
            true
        } else {
            proof {
                assert(views_of(left@)[i as int] == left@[i as int]@);
                assert(views_of(right@)[j as int] == right@[j as int]@);
            }
            match T::le_bytes(left[i].as_slice(), right[j].as_slice()) {
                Some(v) => {
                    proof {
                        if !v {
                            T::lemma_total(views_of(left@)[i as int], views_of(right@)[j as int]);
                        }
                    }
                    v
                },
                None => {
                    proof {
                        let lv = views_of(left@);
                        let rv = views_of(right@);
                        assert((lv + rv)[i as int] == lv[i as int]);
                        assert((lv + rv)[lv.len() + j as int] == rv[j as int]);
                        assert((lv + rv).contains(lv[i as int]));
                        assert((lv + rv).contains(rv[j as int]));
                    }
                    return Err(ResourceStorageError::IncomparableRecords);
                },
            }
        };
        let ghost prev = out@;
        if take_left {
            let e = clone_bytes(&left[i]);
            out.push(e);
            i = i + 1;
            proof {
                let lv = views_of(left@);
                assert(views_of(out@) =~= views_of(prev).push(lv[i - 1]));
                assert(lv.take(i as int) =~= lv.take(i - 1).push(lv[i - 1]));
            }
        } else {
            let e = clone_bytes(&right[j]);
            out.push(e);
            j = j + 1;
            proof {
                let rv = views_of(right@);
                assert(views_of(out@) =~= views_of(prev).push(rv[j - 1]));
                assert(rv.take(j as int) =~= rv.take(j - 1).push(rv[j - 1]));
            }
        }
    }
    proof {
        assert(views_of(left@).take(nl as int) =~= views_of(left@));
        assert(views_of(right@).take(nr as int) =~= views_of(right@));
    }
    Ok(out)
}

/// Sorts a sequence of records by the record type's order, preserving
/// the record multiset.  Two incomparable records abort the sort.
fn merge_sort_recs<T: SortableStruct>(recs: Vec<Vec<u8>>) -> (r: Result<
    Vec<Vec<u8>>,
    ResourceStorageError,
>)
    requires
        recs_wf(views_of(recs@), T::size_spec()),
    ensures
        r matches Ok(out) ==> {
            &&& recs_wf(views_of(out@), T::size_spec())
            &&& adj_sorted_by::<T>(views_of(out@))
            &&& views_of(out@).to_multiset() == views_of(recs@).to_multiset()
        },
        r matches Err(e) ==> e == ResourceStorageError::IncomparableRecords
            && has_incomparable_pair::<T>(views_of(recs@)),
    decreases recs@.len(),
{
    let n = recs.len();
    if n <= 1 {
        return Ok(recs);
    }
    let mut recs = recs;
    let ghost whole = views_of(recs@);
    let mid = n / 2;
    let right_part = recs.split_off(mid);
    proof {
        assert(views_of(recs@) =~= whole.take(mid as int));
        assert(views_of(right_part@) =~= whole.skip(mid as int));
        assert(whole.take(mid as int) + whole.skip(mid as int) =~= whole);
        lemma_multiset_commutative(whole.take(mid as int), whole.skip(mid as int));
    }
    let left_sorted = match merge_sort_recs::<T>(recs) {
        Ok(v) => v,
        Err(e) => {
            proof {
                lemma_pair_lifts_take::<T>(whole, mid as int);
            }
            return Err(e);
        },
    };
    let right_sorted = match merge_sort_recs::<T>(right_part) {
        Ok(v) => v,
        Err(e) => {
            proof {
                lemma_pair_lifts_skip::<T>(whole, mid as int);
            }
            return Err(e);
        },
    };
    let r = merge::<T>(left_sorted, right_sorted);
    proof {
        if r is Err {
            let lv = views_of(left_sorted@);
            let rv = views_of(right_sorted@);
            let (x, y) = choose|x: Seq<u8>, y: Seq<u8>|
                (lv + rv).contains(x) && (lv + rv).contains(y) && !T::comparable(x, y);
            lemma_pair_member_lifts(whole, mid as int, lv, rv, x);
            lemma_pair_member_lifts(whole, mid as int, lv, rv, y);
            assert(has_incomparable_pair::<T>(whole));
        }
    }
    r
}

/// A pair found in the first half of a run is a pair of the run.
proof fn lemma_pair_lifts_take<T: SortableStruct>(whole: Seq<Seq<u8>>, mid: int)
    requires
        0 <= mid <= whole.len(),
        has_incomparable_pair::<T>(whole.take(mid)),
    ensures
        has_incomparable_pair::<T>(whole),
{
    let (x, y) = choose|x: Seq<u8>, y: Seq<u8>|
        whole.take(mid).contains(x) && whole.take(mid).contains(y) && !T::comparable(x, y);
    lemma_contains_take(whole, mid, x);
    lemma_contains_take(whole, mid, y);
}

/// A pair found in the second half of a run is a pair of the run.
proof fn lemma_pair_lifts_skip<T: SortableStruct>(whole: Seq<Seq<u8>>, mid: int)
    requires
        0 <= mid <= whole.len(),
        has_incomparable_pair::<T>(whole.skip(mid)),
    ensures
        has_incomparable_pair::<T>(whole),
{
    let (x, y) = choose|x: Seq<u8>, y: Seq<u8>|
        whole.skip(mid).contains(x) && whole.skip(mid).contains(y) && !T::comparable(x, y);
    lemma_contains_skip(whole, mid, x);
    lemma_contains_skip(whole, mid, y);
}

/// A record of either sorted half is a record of the run the halves
/// were split from.
proof fn lemma_pair_member_lifts(
    whole: Seq<Seq<u8>>,
    mid: int,
    lv: Seq<Seq<u8>>,
    rv: Seq<Seq<u8>>,
    x: Seq<u8>,
)
    requires
        0 <= mid <= whole.len(),
        lv.to_multiset() == whole.take(mid).to_multiset(),
        rv.to_multiset() == whole.skip(mid).to_multiset(),
        (lv + rv).contains(x),
    ensures
        whole.contains(x),
{
    lemma_contains_concat_split(lv, rv, x);
    if lv.contains(x) {
        lemma_contains_of_multiset(lv, whole.take(mid), x);
        lemma_contains_take(whole, mid, x);
    } else {
        lemma_contains_of_multiset(rv, whole.skip(mid), x);
        lemma_contains_skip(whole, mid, x);
    }
}

/// Sorts a record region's bytes by the record type's order.
///
/// The result is the same bytes regrouped: the records, each
/// `T::size_spec()` bytes wide, are reordered so that every
/// neighbouring pair is ordered by `T::le`, and the multiset of record
/// byte images is exactly that of the input.  A pair of records the
/// order cannot compare makes the sort fail, and nothing is returned.
pub fn sort_record_bytes<T: SortableStruct>(data: &[u8]) -> (r: Result<
    Vec<u8>,
    ResourceStorageError,
>)
    requires
        data@.len() as int % T::size_spec() == 0,
    ensures
        r matches Ok(out) ==> {
            &&& out@.len() == data@.len()
            &&& recs_wf(records_of(out@, T::size_spec()), T::size_spec())
            &&& sorted_by::<T>(records_of(out@, T::size_spec()))
            &&& records_of(out@, T::size_spec()).to_multiset() == records_of(
                data@,
                T::size_spec(),
            ).to_multiset()
        },
        r matches Err(e) ==> e == ResourceStorageError::IncomparableRecords
            && has_incomparable_pair::<T>(records_of(data@, T::size_spec())),
{
    let s = T::size_in_bytes();
    let total = data.len();
    let n = total / s;
    proof {
        vstd::arithmetic::div_mod::lemma_fundamental_div_mod(total as int, s as int);
        assert(s as int * (n as int) == n as int * s) by (nonlinear_arith);
    }
    // split the region into records
    let mut recs: Vec<Vec<u8>> = Vec::new();
    let mut k: usize = 0;
    while k < n
        invariant
            k <= n,
            total == data@.len(),
            n as int * s == total,
            s == T::size_spec(),
            1 <= s,
            recs@.len() == k,
            forall|i: int| 0 <= i < k ==> #[trigger] views_of(recs@)[i] == record_at(data@, s as int, i),
        decreases n - k,
    {
        proof {
            assert(0 <= k as int * s && (k + 1) as int * s <= n as int * s && k as int * s + s == (
            k + 1) as int * s) by (nonlinear_arith)
                requires 0 <= k as int, k as int + 1 <= n as int, 1 <= s,
            ;
        }
        let chunk = vstd::slice::slice_to_vec(
            vstd::slice::slice_subrange(data, k * s, k * s + s),
        );
        let ghost prev = recs@;
        recs.push(chunk);
        k = k + 1;
        proof {
            assert(views_of(recs@) =~= views_of(prev).push(record_at(data@, s as int, k - 1)));
        }
    }
    proof {
        assert(views_of(recs@) =~= records_of(data@, s as int));
        assert forall|i: int| 0 <= i < recs@.len() implies #[trigger] views_of(recs@)[i].len()
            == s as int by {
            assert(0 <= i * s && (i + 1) * s <= n as int * s && i * s + s == (i + 1) * s)
                by (nonlinear_arith)
                requires 0 <= i, i + 1 <= n as int, 1 <= s,
            ;
            assert(views_of(recs@)[i] == record_at(data@, s as int, i));
        }
        assert(recs_wf(views_of(recs@), s as int));
    }
    let sorted = match merge_sort_recs::<T>(recs) {
        Ok(v) => v,
        Err(e) => {
            return Err(e);
        },
    };
    // concatenate the sorted records back into one region
    let m = sorted.len();
    let mut out: Vec<u8> = Vec::new();
    let mut k: usize = 0;
    proof {
        assert(views_of(sorted@).take(0).flatten() =~= Seq::<u8>::empty());
    }
    while k < m
        invariant
            k <= m,
            m == sorted@.len(),
            s == T::size_spec(),
            1 <= s,
            recs_wf(views_of(sorted@), s as int),
            out@ == views_of(sorted@).take(k as int).flatten(),
            out@.len() == k as int * s,
        decreases m - k,
    {
        out.extend_from_slice(sorted[k].as_slice());
        k = k + 1;
        proof {
            let sv = views_of(sorted@);
            assert(sv.take(k as int).drop_last() =~= sv.take(k - 1));
            assert(sv.take(k as int) =~= sv.take(k - 1).push(sv[k - 1]));
            sv.take(k - 1).lemma_flatten_and_flatten_alt_are_equivalent();
            sv.take(k as int).lemma_flatten_and_flatten_alt_are_equivalent();
            assert(sv.take(k as int).flatten_alt() == sv.take(k as int).drop_last().flatten_alt()
                + sv.take(k as int).last());
            assert(out@ =~= sv.take(k as int).flatten());
            assert((k - 1) * s + s == k as int * s) by (nonlinear_arith);
        }
    }
    proof {
        let sv = views_of(sorted@);
        assert(sv.take(m as int) =~= sv);
        assert(out@ == sv.flatten());
        lemma_records_read_back(sv, s as int);
        // multiset sizes agree, so the byte lengths agree
        assert(sv.to_multiset().len() == records_of(data@, s as int).to_multiset().len());
        assert(sv.len() == records_of(data@, s as int).len());
        assert(out@.len() == n as int * s) by (nonlinear_arith)
            requires out@.len() == sv.len() * s, sv.len() == n as int,
        ;
        lemma_adj_sorted_is_sorted::<T>(sv);
        assert(records_of(out@, s as int) =~= sv) by {
            vstd::arithmetic::div_mod::lemma_fundamental_div_mod_converse(
                out@.len() as int,
                s as int,
                n as int,
                0,
            );
            assert forall|i: int| 0 <= i < n implies #[trigger] records_of(out@, s as int)[i]
                == sv[i] by {
                assert(record_at(out@, s as int, i) == sv[i]);
            }
        }
    }
    Ok(out)
}

} // verus!
