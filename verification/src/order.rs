use vstd::prelude::*;

use crate::room::{
    center_dist_sq, distance_between_points, lemma_center_bounds, mk_rd, room_nonneg, Room,
    RoomDistance,
};

verus! {

/// A carve list is sorted when the squared center distances never decrease
/// along it.
pub open spec fn sorted_by_dist(s: Seq<RoomDistance>) -> bool {
    forall|i: int, j: int|
        #![trigger s[i], s[j]]
        0 <= i < j < s.len() ==> s[i].dist_sq <= s[j].dist_sq
}

/// A sound entry of a carve list built over `rooms`: the distance record of
/// some unordered pair of distinct rooms of the list.
pub open spec fn rd_wf(rd: RoomDistance, rooms: Seq<Room>) -> bool {
    exists|i: int, j: int|
        #![trigger rooms[i], rooms[j]]
        0 <= i < j < rooms.len() && rd == mk_rd(rooms[i], rooms[j])
}

/// The distance records of room `i` paired with each room of index
/// `(i, j)` exclusive, in index order.
pub open spec fn row_upto(rooms: Seq<Room>, i: int, j: int) -> Seq<RoomDistance>
    decreases j - i,
{
    if j <= i + 1 {
        Seq::empty()
    } else {
        row_upto(rooms, i, j - 1).push(mk_rd(rooms[i], rooms[j - 1]))
    }
}

/// The distance records of every unordered pair whose first index is below
/// `i`, ordered by first index, then by second.
pub open spec fn pairs_upto(rooms: Seq<Room>, i: int) -> Seq<RoomDistance>
    decreases i,
{
    if i <= 0 {
        Seq::empty()
    } else {
        pairs_upto(rooms, i - 1) + row_upto(rooms, i - 1, rooms.len() as int)
    }
}

/// The distance records of every unordered pair of distinct rooms, each
/// exactly once, in index order.
pub open spec fn all_pairs(rooms: Seq<Room>) -> Seq<RoomDistance> {
    pairs_upto(rooms, rooms.len() as int)
}

/// Insertion of one record into a sorted carve list: it lands after every
/// record whose distance is at most its own, so equal distances keep their
/// original order.
pub open spec fn insert_sorted_spec(s: Seq<RoomDistance>, x: RoomDistance) -> Seq<RoomDistance>
    decreases s.len(),
{
    if s.len() == 0 {
        seq![x]
    } else if x.dist_sq < s.last().dist_sq {
        insert_sorted_spec(s.drop_last(), x).push(s.last())
    } else {
        s.push(x)
    }
}

/// Stable insertion sort of a carve list by squared center distance.
pub open spec fn sort_spec(s: Seq<RoomDistance>) -> Seq<RoomDistance>
    decreases s.len(),
{
    if s.len() == 0 {
        Seq::empty()
    } else {
        insert_sorted_spec(sort_spec(s.drop_last()), s.last())
    }
}

/// Where the insertion of `x` lands: at the first position `p` from the
/// right whose predecessor does not exceed `x`.
pub proof fn lemma_insert_sorted_at(s: Seq<RoomDistance>, x: RoomDistance, p: int)
    requires
        0 <= p <= s.len(),
        forall|m: int| p <= m < s.len() ==> (#[trigger] s[m]).dist_sq > x.dist_sq,
        p > 0 ==> s[p - 1].dist_sq <= x.dist_sq,
    ensures
        insert_sorted_spec(s, x) == s.insert(p, x),
    decreases s.len(),
{
    if p == s.len() {
        if s.len() == 0 {
            assert(insert_sorted_spec(s, x) =~= s.insert(p, x));
        } else {
            assert(s[p - 1] == s.last());
            assert(insert_sorted_spec(s, x) == s.push(x));
            assert(s.insert(p, x) =~= s.push(x));
        }
    } else {
        assert(s[s.len() - 1].dist_sq > x.dist_sq);
        let t = s.drop_last();
        assert(forall|m: int| p <= m < t.len() ==> (#[trigger] t[m]).dist_sq > x.dist_sq);
        lemma_insert_sorted_at(t, x, p);
        assert(t.insert(p, x).push(s.last()) =~= s.insert(p, x));
    }
}

/// Inserting a record grows the list by one and adds nothing else.
pub proof fn lemma_insert_sorted_entries(s: Seq<RoomDistance>, x: RoomDistance)
    ensures
        insert_sorted_spec(s, x).len() == s.len() + 1,
        forall|k: int|
            0 <= k < insert_sorted_spec(s, x).len() ==> (#[trigger] insert_sorted_spec(s, x)[k] == x
                || s.contains(insert_sorted_spec(s, x)[k])),
    decreases s.len(),
{
    if s.len() == 0 {
    } else if x.dist_sq < s.last().dist_sq {
        let t = s.drop_last();
        lemma_insert_sorted_entries(t, x);
        let r = insert_sorted_spec(s, x);
        assert forall|k: int| 0 <= k < r.len() implies (#[trigger] r[k] == x || s.contains(
            r[k],
        )) by {
            if k < r.len() - 1 {
                assert(r[k] == insert_sorted_spec(t, x)[k]);
                if insert_sorted_spec(t, x)[k] == x {
                } else {
                    let m = choose|m: int| 0 <= m < t.len() && t[m] == insert_sorted_spec(t, x)[k];
                    assert(s[m] == r[k]);
                }
            } else {
                assert(r[k] == s.last());
                assert(s[s.len() - 1] == s.last());
            }
        }
    } else {
        let r = s.push(x);
        assert forall|k: int| 0 <= k < r.len() implies (#[trigger] r[k] == x || s.contains(
            r[k],
        )) by {
            if k < s.len() {
                assert(s[k] == r[k]);
            }
        }
    }
}

/// Inserting a record into a sorted list keeps it sorted.
pub proof fn lemma_insert_sorted_sorted(s: Seq<RoomDistance>, x: RoomDistance)
    requires
        sorted_by_dist(s),
    ensures
        sorted_by_dist(insert_sorted_spec(s, x)),
    decreases s.len(),
{
    if s.len() == 0 {
    } else if x.dist_sq < s.last().dist_sq {
        let t = s.drop_last();
        assert(sorted_by_dist(t));
        lemma_insert_sorted_sorted(t, x);
        lemma_insert_sorted_entries(t, x);
        let r = insert_sorted_spec(s, x);
        assert forall|i: int, j: int|
            #![trigger r[i], r[j]]
            0 <= i < j < r.len() implies r[i].dist_sq <= r[j].dist_sq by {
            if j < r.len() - 1 {
                assert(r[i] == insert_sorted_spec(t, x)[i]);
                assert(r[j] == insert_sorted_spec(t, x)[j]);
            } else {
                assert(r[j] == s.last());
                assert(r[i] == insert_sorted_spec(t, x)[i]);
                if insert_sorted_spec(t, x)[i] == x {
                } else {
                    let m = choose|m: int| 0 <= m < t.len() && t[m] == insert_sorted_spec(t, x)[i];
                    assert(s[m] == r[i]);
                    assert(s[m].dist_sq <= s[s.len() - 1].dist_sq);
                }
            }
        }
    } else {
        let r = s.push(x);
        assert forall|i: int, j: int|
            #![trigger r[i], r[j]]
            0 <= i < j < r.len() implies r[i].dist_sq <= r[j].dist_sq by {
            if j < s.len() {
            } else {
                assert(r[j] == x);
                if i < s.len() - 1 {
                    assert(s[i].dist_sq <= s[s.len() - 1].dist_sq);
                }
                assert(r[i] == s[i]);
            }
        }
    }
}

/// The sorted carve list is sorted, no longer than its input, and holds
/// only records of the input.
pub proof fn lemma_sort_spec_props(s: Seq<RoomDistance>)
    ensures
        sort_spec(s).len() == s.len(),
        sorted_by_dist(sort_spec(s)),
        forall|k: int| 0 <= k < sort_spec(s).len() ==> s.contains(#[trigger] sort_spec(s)[k]),
    decreases s.len(),
{
    if s.len() == 0 {
    } else {
        let t = s.drop_last();
        lemma_sort_spec_props(t);
        lemma_insert_sorted_sorted(sort_spec(t), s.last());
        lemma_insert_sorted_entries(sort_spec(t), s.last());
        let r = sort_spec(s);
        assert forall|k: int| 0 <= k < r.len() implies s.contains(#[trigger] r[k]) by {
            if r[k] == s.last() {
                assert(s[s.len() - 1] == s.last());
            } else {
                assert(sort_spec(t).contains(r[k]));
                let m = choose|m: int| 0 <= m < sort_spec(t).len() && sort_spec(t)[m] == r[k];
                assert(t.contains(sort_spec(t)[m]));
                let q = choose|q: int| 0 <= q < t.len() && t[q] == sort_spec(t)[m];
                assert(s[q] == r[k]);
            }
        }
    }
}

/// Inserting a record adds exactly that record, as multisets.
pub proof fn lemma_insert_sorted_multiset(s: Seq<RoomDistance>, x: RoomDistance)
    ensures
        insert_sorted_spec(s, x).to_multiset() == s.to_multiset().insert(x),
    decreases s.len(),
{
    broadcast use vstd::seq_lib::group_to_multiset_ensures;

    if s.len() == 0 {
        assert(seq![x] =~= Seq::<RoomDistance>::empty().push(x));
        assert(insert_sorted_spec(s, x).to_multiset() =~= s.to_multiset().insert(x));
    } else if x.dist_sq < s.last().dist_sq {
        let t = s.drop_last();
        lemma_insert_sorted_multiset(t, x);
        assert(s =~= t.push(s.last()));
        assert(insert_sorted_spec(s, x).to_multiset() =~= insert_sorted_spec(t, x).to_multiset()
            .insert(s.last()));
        assert(t.to_multiset().insert(x).insert(s.last()) =~= t.to_multiset().insert(
            s.last(),
        ).insert(x));
        assert(s.to_multiset() =~= t.to_multiset().insert(s.last()));
    } else {
        assert(insert_sorted_spec(s, x).to_multiset() =~= s.to_multiset().insert(x));
    }
}

/// Sorting the carve list reorders it and nothing more: the sorted list
/// holds exactly the records of its input, as multisets.
pub proof fn lemma_sort_spec_multiset(s: Seq<RoomDistance>)
    ensures
        sort_spec(s).to_multiset() == s.to_multiset(),
    decreases s.len(),
{
    broadcast use vstd::seq_lib::group_to_multiset_ensures;

    if s.len() == 0 {
        assert(sort_spec(s).to_multiset() =~= s.to_multiset());
    } else {
        let t = s.drop_last();
        lemma_sort_spec_multiset(t);
        lemma_insert_sorted_multiset(sort_spec(t), s.last());
        assert(s =~= t.push(s.last()));
        assert(s.to_multiset() =~= t.to_multiset().insert(s.last()));
    }
}

/// Every entry of each pair row is a sound record over `rooms`.
pub proof fn lemma_row_upto_wf(rooms: Seq<Room>, i: int, j: int)
    requires
        0 <= i < rooms.len(),
        j <= rooms.len(),
    ensures
        forall|k: int|
            0 <= k < row_upto(rooms, i, j).len() ==> rd_wf(#[trigger] row_upto(rooms, i, j)[k], rooms),
    decreases j - i,
{
    if j <= i + 1 {
    } else {
        lemma_row_upto_wf(rooms, i, j - 1);
        let r = row_upto(rooms, i, j);
        assert forall|k: int| 0 <= k < r.len() implies rd_wf(#[trigger] r[k], rooms) by {
            if k < r.len() - 1 {
                assert(r[k] == row_upto(rooms, i, j - 1)[k]);
            } else {
                assert(r[k] == mk_rd(rooms[i], rooms[j - 1]));
            }
        }
    }
}

/// Every entry of the full pair list is a sound record over `rooms`.
pub proof fn lemma_pairs_upto_wf(rooms: Seq<Room>, i: int)
    requires
        i <= rooms.len(),
    ensures
        forall|k: int|
            0 <= k < pairs_upto(rooms, i).len() ==> rd_wf(#[trigger] pairs_upto(rooms, i)[k], rooms),
    decreases i,
{
    if i <= 0 {
    } else {
        lemma_pairs_upto_wf(rooms, i - 1);
        lemma_row_upto_wf(rooms, i - 1, rooms.len() as int);
        let r = pairs_upto(rooms, i);
        assert forall|k: int| 0 <= k < r.len() implies rd_wf(#[trigger] r[k], rooms) by {
            if k < pairs_upto(rooms, i - 1).len() {
                assert(r[k] == pairs_upto(rooms, i - 1)[k]);
            } else {
                assert(r[k] == row_upto(rooms, i - 1, rooms.len() as int)[k - pairs_upto(
                    rooms,
                    i - 1,
                ).len()]);
            }
        }
    }
}

/// Every unordered pair of distinct accepted rooms with its squared center
/// distance, ordered by first room index, then by second.
#[verifier::loop_isolation(false)]
pub fn room_pair_distances(rooms: &Vec<Room>) -> (r: Vec<RoomDistance>)
    requires
        forall|k: int| 0 <= k < rooms@.len() ==> room_nonneg(#[trigger] rooms@[k]),
    ensures
        r@ == all_pairs(rooms@),
{
    let mut out: Vec<RoomDistance> = Vec::new();
    let n = rooms.len();
    proof {
        assert(out@ =~= pairs_upto(rooms@, 0));
    }
    let mut i: usize = 0;
    while i < n
        invariant
            0 <= i <= n,
            out@ == pairs_upto(rooms@, i as int),
        decreases n - i,
    {
        let mut j: usize = i + 1;
        proof {
            assert(out@ =~= pairs_upto(rooms@, i as int) + row_upto(rooms@, i as int, j as int));
        }
        while j < n
            invariant
                i + 1 <= j <= n,
                out@ == pairs_upto(rooms@, i as int) + row_upto(rooms@, i as int, j as int),
            decreases n - j,
        {
            let (ax, ay) = rooms[i].center();
            let (bx, by) = rooms[j].center();
            proof {
                lemma_center_bounds(rooms@[i as int]);
                lemma_center_bounds(rooms@[j as int]);
            }
            let d = distance_between_points(ax, ay, bx, by);
            out.push(RoomDistance { dist_sq: d, room_one: rooms[i], room_two: rooms[j] });
            proof {
                assert(out@ =~= pairs_upto(rooms@, i as int) + row_upto(
                    rooms@,
                    i as int,
                    j as int + 1,
                ));
            }
            j += 1;
        }
        proof {
            assert(out@ =~= pairs_upto(rooms@, i as int + 1));
        }
        i += 1;
    }
    out
}

/// Sort the carve list ascending by squared center distance; equal
/// distances keep their original order.
#[verifier::loop_isolation(false)]
pub fn sort_by_distance(v: &mut Vec<RoomDistance>)
    ensures
        final(v)@ == sort_spec(old(v)@),
{
    let mut out: Vec<RoomDistance> = Vec::new();
    let n = v.len();
    let mut idx: usize = 0;
    while idx < n
        invariant
            0 <= idx <= n,
            v@ == old(v)@,
            out@ == sort_spec(v@.take(idx as int)),
        decreases n - idx,
    {
        let x = v[idx];
        let mut p = out.len();
        while p > 0 && out[p - 1].dist_sq > x.dist_sq
            invariant
                0 <= p <= out@.len(),
                forall|m: int| p <= m < out@.len() ==> (#[trigger] out@[m]).dist_sq > x.dist_sq,
            decreases p,
        {
            p -= 1;
        }
        let ghost opre = out@;
        out.insert(p, x);
        proof {
            lemma_insert_sorted_at(opre, x, p as int);
            assert(v@.take(idx as int + 1).drop_last() =~= v@.take(idx as int));
            assert(v@.take(idx as int + 1).last() == v@[idx as int]);
            assert(out@ == sort_spec(v@.take(idx as int + 1)));
        }
        idx += 1;
    }
    proof {
        assert(v@.take(n as int) =~= v@);
    }
    *v = out;
}

/// Distance-sorted carving order: if three rooms' pairwise center distances
/// satisfy `d(a,b) < d(a,c) < d(b,c)`, then in any carve list sorted by
/// distance the record of `(a, b)` stands before that of `(a, c)`, and the
/// record of `(a, c)` before that of `(b, c)`. Distances are compared
/// squared, which orders pairs exactly as the Euclidean distance does.
pub proof fn lemma_carve_order(
    s: Seq<RoomDistance>,
    a: Room,
    b: Room,
    c: Room,
    kab: int,
    kac: int,
    kbc: int,
)
    requires
        sorted_by_dist(s),
        0 <= kab < s.len(),
        0 <= kac < s.len(),
        0 <= kbc < s.len(),
        s[kab] == mk_rd(a, b),
        s[kac] == mk_rd(a, c),
        s[kbc] == mk_rd(b, c),
        0 <= center_dist_sq(a, b),
        center_dist_sq(a, b) < center_dist_sq(a, c),
        center_dist_sq(a, c) < center_dist_sq(b, c),
        center_dist_sq(b, c) <= i64::MAX,
    ensures
        kab < kac,
        kac < kbc,
{
    assert(s[kab].dist_sq < s[kac].dist_sq);
    assert(s[kac].dist_sq < s[kbc].dist_sq);
    if kac <= kab {
        if kac < kab {
            assert(s[kac].dist_sq <= s[kab].dist_sq);
        }
        assert(false);
    }
    if kbc <= kac {
        if kbc < kac {
            assert(s[kbc].dist_sq <= s[kac].dist_sq);
        }
        assert(false);
    }
}

} // verus!
