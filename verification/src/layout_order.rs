//! Laying out the calendar plane does not depend on the order in which its
//! events are listed, as long as their identities are distinct.
use vstd::prelude::*;

use crate::domain::{DateRange, EventOccurrence, OccurrenceId};
use crate::layout::{
    LaneItem, LanePlacement, PositionedEvent, cluster_start, day_entries, day_lane_items,
    day_layout_ok, lane_blocked, lane_item_lt, lane_item_spec, lane_items_sorted, lane_taken_before,
    lanes_of, lanes_overlap, lanes_valid, opens_cluster, placement_fits, plane_layout, positioned_lt,
    positioned_of, positioned_seq, same_cluster,
};
use crate::store::occurrence_id_lt;

verus! {

/// The values `g` gives for the elements of `s`, in order, skipping those it
/// gives none for.
spec fn opt_map<A, B>(s: Seq<A>, g: spec_fn(A) -> Option<B>) -> Seq<B>
    decreases s.len(),
{
    if s.len() == 0 {
        Seq::empty()
    } else {
        let rest = opt_map(s.drop_last(), g);
        match g(s.last()) {
            Some(b) => rest.push(b),
            None => rest,
        }
    }
}

proof fn lemma_opt_map_append<A, B>(a: Seq<A>, b: Seq<A>, g: spec_fn(A) -> Option<B>)
    ensures
        opt_map(a + b, g) == opt_map(a, g) + opt_map(b, g),
    decreases b.len(),
{
    if b.len() == 0 {
        assert(a + b =~= a);
        assert(opt_map(a, g) + opt_map(b, g) =~= opt_map(a, g));
    } else {
        lemma_opt_map_append(a, b.drop_last(), g);
        assert((a + b).drop_last() =~= a + b.drop_last());
        assert((a + b).last() == b.last());
        match g(b.last()) {
            Some(x) => {
                assert(opt_map(a, g) + opt_map(b, g) =~= (opt_map(a, g) + opt_map(b.drop_last(), g)).push(x));
            },
            None => {},
        }
    }
}

/// Removing one element removes its image from the multiset of images.
proof fn lemma_opt_map_remove<A, B>(s: Seq<A>, j: int, g: spec_fn(A) -> Option<B>)
    requires
        0 <= j < s.len(),
    ensures
        opt_map(s, g).to_multiset() == opt_map(s.remove(j), g).to_multiset().add(
            opt_map(seq![s[j]], g).to_multiset(),
        ),
{
    broadcast use vstd::multiset::group_multiset_axioms;

    let a = s.take(j);
    let m = seq![s[j]];
    let c = s.skip(j + 1);
    assert(s =~= a + m + c);
    assert(s.remove(j) =~= a + c);
    lemma_opt_map_append(a + m, c, g);
    lemma_opt_map_append(a, m, g);
    lemma_opt_map_append(a, c, g);
    vstd::seq_lib::lemma_multiset_commutative(opt_map(a, g) + opt_map(m, g), opt_map(c, g));
    vstd::seq_lib::lemma_multiset_commutative(opt_map(a, g), opt_map(m, g));
    vstd::seq_lib::lemma_multiset_commutative(opt_map(a, g), opt_map(c, g));
    assert(opt_map(s, g).to_multiset() =~= opt_map(s.remove(j), g).to_multiset().add(
        opt_map(m, g).to_multiset(),
    ));
}

/// Sequences with the same elements have images with the same elements.
proof fn lemma_opt_map_perm<A, B>(a: Seq<A>, b: Seq<A>, g: spec_fn(A) -> Option<B>)
    requires
        a.to_multiset() == b.to_multiset(),
    ensures
        opt_map(a, g).to_multiset() == opt_map(b, g).to_multiset(),
    decreases a.len(),
{
    broadcast use vstd::seq_lib::group_to_multiset_ensures;
    broadcast use vstd::multiset::group_multiset_axioms;

    vstd::seq_lib::to_multiset_len(a);
    vstd::seq_lib::to_multiset_len(b);
    if a.len() == 0 {
        assert(b.len() == 0);
        assert(a =~= b);
    } else {
        let v = a.last();
        assert(a.to_multiset().count(v) > 0) by {
            assert(a.contains(v)) by {
                assert(a[a.len() - 1] == v);
            }
        }
        assert(b.contains(v));
        let j = choose|j: int| 0 <= j < b.len() && b[j] == v;
        let a2 = a.remove(a.len() - 1);
        assert(a2 =~= a.drop_last());
        let b2 = b.remove(j);
        assert(a2.to_multiset() == a.to_multiset().remove(v));
        assert(b2.to_multiset() == b.to_multiset().remove(v));
        lemma_opt_map_perm(a2, b2, g);
        lemma_opt_map_remove(a, a.len() - 1, g);
        lemma_opt_map_remove(b, j, g);
        assert(seq![a[a.len() - 1]] =~= seq![b[j]]);
    }
}

/// Sorted sequences with the same elements are equal, when any two
/// elements that neither precedes are equal.
proof fn lemma_sorted_unique<A>(a: Seq<A>, b: Seq<A>, lt: spec_fn(A, A) -> bool)
    requires
        a.to_multiset() == b.to_multiset(),
        forall|i: int, j: int| 0 <= i < j < a.len() ==> !lt(#[trigger] a[j], #[trigger] a[i]),
        forall|i: int, j: int| 0 <= i < j < b.len() ==> !lt(#[trigger] b[j], #[trigger] b[i]),
        forall|x: A, y: A|
            #![trigger a.contains(x), a.contains(y)]
            a.contains(x) && a.contains(y) && !lt(x, y) && !lt(y, x) ==> x == y,
    ensures
        a == b,
    decreases a.len(),
{
    broadcast use vstd::seq_lib::group_to_multiset_ensures;
    broadcast use vstd::multiset::group_multiset_axioms;

    vstd::seq_lib::to_multiset_len(a);
    vstd::seq_lib::to_multiset_len(b);
    if a.len() == 0 {
        assert(b.len() == 0);
        assert(a =~= b);
    } else {
        assert(b.len() == a.len());
        assert(a.to_multiset().count(a[0]) > 0) by {
            assert(a.contains(a[0]));
        }
        assert(b.to_multiset().count(b[0]) > 0) by {
            assert(b.contains(b[0]));
        }
        assert(b.contains(a[0]));
        assert(a.contains(b[0]));
        let k = choose|k: int| 0 <= k < b.len() && b[k] == a[0];
        let m = choose|m: int| 0 <= m < a.len() && a[m] == b[0];
        if k > 0 && m > 0 {
            assert(!lt(b[k], b[0]));
            assert(!lt(a[m], a[0]));
            assert(a.contains(a[0]) && a.contains(b[0]));
        }
        assert(a[0] == b[0]);
        let a2 = a.remove(0);
        let b2 = b.remove(0);
        assert(a2.to_multiset() == a.to_multiset().remove(a[0]));
        assert(b2.to_multiset() == b.to_multiset().remove(b[0]));
        assert forall|i: int, j: int| 0 <= i < j < a2.len() implies !lt(#[trigger] a2[j], #[trigger] a2[i]) by {
            assert(a2[j] == a[j + 1] && a2[i] == a[i + 1]);
        }
        assert forall|i: int, j: int| 0 <= i < j < b2.len() implies !lt(#[trigger] b2[j], #[trigger] b2[i]) by {
            assert(b2[j] == b[j + 1] && b2[i] == b[i + 1]);
        }
        assert forall|x: A, y: A|
            #![trigger a2.contains(x), a2.contains(y)]
            a2.contains(x) && a2.contains(y) && !lt(x, y) && !lt(y, x) implies x == y by {
            let p = choose|p: int| 0 <= p < a2.len() && a2[p] == x;
            let q = choose|q: int| 0 <= q < a2.len() && a2[q] == y;
            assert(a[p + 1] == x && a[q + 1] == y);
            assert(a.contains(x) && a.contains(y));
        }
        lemma_sorted_unique(a2, b2, lt);
        assert(a =~= seq![a[0]] + a2);
        assert(b =~= seq![b[0]] + b2);
    }
}


/// A lane item with its caller index cleared.
spec fn strip(it: LaneItem) -> LaneItem {
    LaneItem { index: 0, ..it }
}

spec fn strip_fn() -> spec_fn(LaneItem) -> Option<LaneItem> {
    |it: LaneItem| Some(strip(it))
}

/// The lane item, with index zero, of an occurrence on day `x`.
spec fn day_key_fn(x: int, occupancy: int) -> spec_fn(EventOccurrence) -> Option<LaneItem> {
    |v: EventOccurrence|
        if v.draft.date.day() == x {
            Some(lane_item_spec(v, occupancy, 0))
        } else {
            None
        }
}

/// No two items share an identity.
spec fn ids_distinct(s: Seq<LaneItem>) -> bool {
    forall|i: int, j: int|
        #![trigger s[i], s[j]]
        0 <= i < s.len() && 0 <= j < s.len() && s[i].id == s[j].id ==> i == j
}

/// No two occurrences share an identity.
pub open spec fn occurrence_ids_distinct(e: Seq<EventOccurrence>) -> bool {
    forall|i: int, j: int|
        #![trigger e[i], e[j]]
        0 <= i < e.len() && 0 <= j < e.len() && e[i].id == e[j].id ==> i == j
}

proof fn lemma_strip_seq(s: Seq<LaneItem>)
    ensures
        opt_map(s, strip_fn()).len() == s.len(),
        forall|i: int| 0 <= i < s.len() ==> #[trigger] opt_map(s, strip_fn())[i] == strip(s[i]),
    decreases s.len(),
{
    if s.len() > 0 {
        lemma_strip_seq(s.drop_last());
        let r = opt_map(s.drop_last(), strip_fn());
        assert(opt_map(s, strip_fn()) == r.push(strip(s.last())));
        assert forall|i: int| 0 <= i < s.len() implies #[trigger] opt_map(s, strip_fn())[i] == strip(s[i]) by {
            if i < s.len() - 1 {
                assert(s.drop_last()[i] == s[i]);
            }
        }
    }
}

proof fn lemma_day_keys(e: Seq<EventOccurrence>, x: int, occupancy: int)
    ensures
        opt_map(day_lane_items(e, x, occupancy), strip_fn()) == opt_map(e, day_key_fn(x, occupancy)),
    decreases e.len(),
{
    if e.len() > 0 {
        lemma_day_keys(e.drop_last(), x, occupancy);
        let v = e.last();
        let it = lane_item_spec(v, occupancy, e.len() - 1);
        assert(strip(it) == lane_item_spec(v, occupancy, 0));
        if v.draft.date.day() == x {
            assert(day_lane_items(e, x, occupancy) == day_lane_items(e.drop_last(), x, occupancy).push(it));
            assert(day_lane_items(e, x, occupancy).drop_last() =~= day_lane_items(e.drop_last(), x, occupancy));
        }
    }
}

proof fn lemma_day_key_ids(e: Seq<EventOccurrence>, x: int, occupancy: int)
    requires
        occurrence_ids_distinct(e),
    ensures
        ids_distinct(opt_map(e, day_key_fn(x, occupancy))),
        forall|i: int|
            0 <= i < opt_map(e, day_key_fn(x, occupancy)).len() ==> exists|k: int|
                0 <= k < e.len() && e[k].id == #[trigger] opt_map(e, day_key_fn(x, occupancy))[i].id,
    decreases e.len(),
{
    if e.len() > 0 {
        let e2 = e.drop_last();
        assert(occurrence_ids_distinct(e2)) by {
            assert forall|i: int, j: int|
                #![trigger e2[i], e2[j]]
                0 <= i < e2.len() && 0 <= j < e2.len() && e2[i].id == e2[j].id implies i == j by {
                assert(e[i] == e2[i] && e[j] == e2[j]);
            }
        }
        lemma_day_key_ids(e2, x, occupancy);
        let r = opt_map(e2, day_key_fn(x, occupancy));
        let v = e.last();
        if v.draft.date.day() == x {
            let s = opt_map(e, day_key_fn(x, occupancy));
            assert(s == r.push(lane_item_spec(v, occupancy, 0)));
            assert forall|i: int| 0 <= i < r.len() implies #[trigger] r[i].id != v.id by {
                let k = choose|k: int| 0 <= k < e2.len() && e2[k].id == r[i].id;
                assert(e[k] == e2[k]);
                assert(e[e.len() - 1] == v);
            }
            assert forall|i: int, j: int|
                #![trigger s[i], s[j]]
                0 <= i < s.len() && 0 <= j < s.len() && s[i].id == s[j].id implies i == j by {
                if i < r.len() && j < r.len() {
                    assert(s[i] == r[i] && s[j] == r[j]);
                } else if i < r.len() {
                    assert(s[i] == r[i]);
                } else if j < r.len() {
                    assert(s[j] == r[j]);
                }
            }
            assert forall|i: int| 0 <= i < s.len() implies exists|k: int|
                0 <= k < e.len() && e[k].id == #[trigger] s[i].id by {
                if i < r.len() {
                    assert(s[i] == r[i]);
                    let k = choose|k: int| 0 <= k < e2.len() && e2[k].id == r[i].id;
                    assert(e[k] == e2[k]);
                } else {
                    assert(e[e.len() - 1].id == s[i].id);
                }
            }
        } else {
            assert forall|i: int| 0 <= i < r.len() implies exists|k: int|
                0 <= k < e.len() && e[k].id == #[trigger] r[i].id by {
                let k = choose|k: int| 0 <= k < e2.len() && e2[k].id == r[i].id;
                assert(e[k] == e2[k]);
            }
        }
    }
}


/// Two item lists that agree on everything but the caller index.
spec fn same_but_index(a: Seq<LaneItem>, b: Seq<LaneItem>) -> bool {
    &&& a.len() == b.len()
    &&& forall|k: int| 0 <= k < a.len() ==> strip(#[trigger] a[k]) == strip(b[k])
}

proof fn lemma_cluster_start_agrees(a: Seq<LaneItem>, b: Seq<LaneItem>, i: int)
    requires
        same_but_index(a, b),
        0 <= i < a.len(),
    ensures
        cluster_start(a, i) == cluster_start(b, i),
    decreases i,
{
    assert(strip(a[i]) == strip(b[i]));
    if opens_cluster(a, i) {
        assert forall|k: int| 0 <= k < i implies (#[trigger] b[k]).occupied_end <= b[i].start by {
            assert(strip(a[k]) == strip(b[k]));
            assert(a[k].occupied_end <= a[i].start);
        }
    }
    if opens_cluster(b, i) {
        assert forall|k: int| 0 <= k < i implies (#[trigger] a[k]).occupied_end <= a[i].start by {
            assert(strip(a[k]) == strip(b[k]));
            assert(b[k].occupied_end <= b[i].start);
        }
    }
    if i > 0 {
        lemma_cluster_start_agrees(a, b, i - 1);
    }
}

/// Item `j` sits in the lowest lane no earlier overlapping item holds.
spec fn first_fit(items: Seq<LaneItem>, lanes: Seq<usize>, j: int) -> bool {
    &&& !lane_taken_before(items, lanes, j, lanes[j] as int)
    &&& forall|l: int| 0 <= l < lanes[j] ==> #[trigger] lane_taken_before(items, lanes, j, l)
}

proof fn lemma_fits_first_fit(items: Seq<LaneItem>, p: Seq<LanePlacement>)
    requires
        lanes_valid(items, p),
    ensures
        lanes_of(p).len() == items.len(),
        forall|j: int| 0 <= j < items.len() ==> #[trigger] first_fit(items, lanes_of(p), j),
{
    assert forall|j: int| 0 <= j < items.len() implies #[trigger] first_fit(items, lanes_of(p), j) by {
        assert(placement_fits(items, lanes_of(p), j, p[j]));
    }
}

proof fn lemma_taken_agrees(a: Seq<LaneItem>, b: Seq<LaneItem>, l1: Seq<usize>, l2: Seq<usize>, j: int, l: int)
    requires
        same_but_index(a, b),
        l1.len() == a.len(),
        l2.len() == a.len(),
        0 <= j < a.len(),
        forall|m: int| 0 <= m < j ==> #[trigger] l1[m] == l2[m],
    ensures
        lane_taken_before(a, l1, j, l) == lane_taken_before(b, l2, j, l),
{
    assert(strip(a[j]) == strip(b[j]));
    if lane_taken_before(a, l1, j, l) {
        let m = choose|m: int| 0 <= m < j && lanes_overlap(a[m], a[j]) && #[trigger] l1[m] == l;
        assert(strip(a[m]) == strip(b[m]));
        assert(l2[m] == l1[m]);
        assert(lanes_overlap(b[m], b[j]));
    }
    if lane_taken_before(b, l2, j, l) {
        let m = choose|m: int| 0 <= m < j && lanes_overlap(b[m], b[j]) && #[trigger] l2[m] == l;
        assert(strip(a[m]) == strip(b[m]));
        assert(l2[m] == l1[m]);
        assert(lanes_overlap(a[m], a[j]));
    }
}

proof fn lemma_lanes_agree(a: Seq<LaneItem>, b: Seq<LaneItem>, l1: Seq<usize>, l2: Seq<usize>, i: int)
    requires
        same_but_index(a, b),
        l1.len() == a.len(),
        l2.len() == a.len(),
        forall|j: int| 0 <= j < a.len() ==> #[trigger] first_fit(a, l1, j),
        forall|j: int| 0 <= j < b.len() ==> #[trigger] first_fit(b, l2, j),
        0 <= i <= a.len(),
    ensures
        forall|j: int| 0 <= j < i ==> #[trigger] l1[j] == l2[j],
    decreases i,
{
    if i > 0 {
        lemma_lanes_agree(a, b, l1, l2, i - 1);
        let j = i - 1;
        assert(first_fit(a, l1, j));
        assert(first_fit(b, l2, j));
        if l1[j] < l2[j] {
            lemma_taken_agrees(a, b, l1, l2, j, l1[j] as int);
            assert(lane_taken_before(b, l2, j, l1[j] as int));
        } else if l2[j] < l1[j] {
            lemma_taken_agrees(a, b, l1, l2, j, l2[j] as int);
            assert(lane_taken_before(a, l1, j, l2[j] as int));
        }
    }
}


proof fn lemma_blocked_agrees(a: Seq<LaneItem>, b: Seq<LaneItem>, l: Seq<usize>, i: int, lane: int)
    requires
        same_but_index(a, b),
        l.len() == a.len(),
        0 <= i < a.len(),
    ensures
        lane_blocked(a, l, i, lane) == lane_blocked(b, l, i, lane),
{
    assert(strip(a[i]) == strip(b[i]));
    if lane_blocked(a, l, i, lane) {
        let m = choose|m: int| 0 <= m < a.len() && lanes_overlap(a[i], a[m]) && #[trigger] l[m] == lane;
        assert(strip(a[m]) == strip(b[m]));
        assert(lanes_overlap(b[i], b[m]));
    }
    if lane_blocked(b, l, i, lane) {
        let m = choose|m: int| 0 <= m < b.len() && lanes_overlap(b[i], b[m]) && #[trigger] l[m] == lane;
        assert(strip(a[m]) == strip(b[m]));
        assert(lanes_overlap(a[i], a[m]));
    }
}

proof fn lemma_placement_agrees(
    a: Seq<LaneItem>,
    b: Seq<LaneItem>,
    l: Seq<usize>,
    x: LanePlacement,
    y: LanePlacement,
    i: int,
)
    requires
        same_but_index(a, b),
        l.len() == a.len(),
        0 <= i < a.len(),
        placement_fits(a, l, i, x),
        placement_fits(b, l, i, y),
    ensures
        x.lane == y.lane,
        x.lane_span == y.lane_span,
        x.lane_count == y.lane_count,
{
    assert forall|j: int| 0 <= j < a.len() implies #[trigger] same_cluster(a, i, j) == same_cluster(b, i, j) by {
        lemma_cluster_start_agrees(a, b, i);
        lemma_cluster_start_agrees(a, b, j);
    }
    let c1 = x.lane_count;
    let c2 = y.lane_count;
    if c1 < c2 {
        let m = choose|m: int| 0 <= m < b.len() && same_cluster(b, i, m) && #[trigger] l[m] + 1 == c2;
        assert(same_cluster(a, i, m));
        assert(l[m] < c1);
    } else if c2 < c1 {
        let m = choose|m: int| 0 <= m < a.len() && same_cluster(a, i, m) && #[trigger] l[m] + 1 == c1;
        assert(same_cluster(b, i, m));
        assert(l[m] < c2);
    }
    let s1 = x.lane_span;
    let s2 = y.lane_span;
    if s1 < s2 {
        lemma_blocked_agrees(a, b, l, i, x.lane + s1);
        assert(lane_blocked(a, l, i, x.lane + s1));
        assert(!lane_blocked(b, l, i, y.lane + s1));
    } else if s2 < s1 {
        lemma_blocked_agrees(a, b, l, i, x.lane + s2);
        assert(lane_blocked(b, l, i, y.lane + s2));
        assert(!lane_blocked(a, l, i, x.lane + s2));
    }
}

proof fn lemma_placements_agree(a: Seq<LaneItem>, b: Seq<LaneItem>, p1: Seq<LanePlacement>, p2: Seq<LanePlacement>, d: int)
    requires
        same_but_index(a, b),
        lanes_valid(a, p1),
        lanes_valid(b, p2),
    ensures
        positioned_seq(d, a, p1) == positioned_seq(d, b, p2),
{
    lemma_fits_first_fit(a, p1);
    lemma_fits_first_fit(b, p2);
    let l1 = lanes_of(p1);
    let l2 = lanes_of(p2);
    lemma_lanes_agree(a, b, l1, l2, a.len() as int);
    assert(l1 =~= l2);
    assert forall|i: int| 0 <= i < a.len() implies #[trigger] positioned_of(d, a[i], p1[i]) == positioned_of(
        d,
        b[i],
        p2[i],
    ) by {
        assert(placement_fits(a, l1, i, p1[i]));
        assert(placement_fits(b, l2, i, p2[i]));
        lemma_placement_agrees(a, b, l1, p1[i], p2[i], i);
        assert(strip(a[i]) == strip(b[i]));
    }
    assert(positioned_seq(d, a, p1) =~= positioned_seq(d, b, p2));
}


/// Identities that neither precedes are equal.
proof fn lemma_id_order_total(a: OccurrenceId, b: OccurrenceId)
    requires
        !occurrence_id_lt(a, b),
        !occurrence_id_lt(b, a),
    ensures
        a == b,
{
    match (a, b) {
        (OccurrenceId::Standalone(x), OccurrenceId::Standalone(y)) => {
            assert(x.value == y.value);
        },
        (
            OccurrenceId::Recurring { series_id: s1, original_date: d1 },
            OccurrenceId::Recurring { series_id: s2, original_date: d2 },
        ) => {
            assert(s1.value == s2.value);
            assert(d1.epoch_day == d2.epoch_day);
        },
        _ => {},
    }
}

/// The stripped items of a sorted list are sorted.
proof fn lemma_strip_sorted(s: Seq<LaneItem>)
    requires
        lane_items_sorted(s),
    ensures
        forall|i: int, j: int|
            0 <= i < j < s.len() ==> !lane_item_lt(
                #[trigger] opt_map(s, strip_fn())[j],
                #[trigger] opt_map(s, strip_fn())[i],
            ),
{
    lemma_strip_seq(s);
    assert forall|i: int, j: int| 0 <= i < j < s.len() implies !lane_item_lt(
        #[trigger] opt_map(s, strip_fn())[j],
        #[trigger] opt_map(s, strip_fn())[i],
    ) by {
        assert(!lane_item_lt(s[j], s[i]));
    }
}

/// What a day's layout fixes, whatever the order of the events: the
/// multiset of its entries, and that no two entries share an identity.
proof fn lemma_day_part(
    e1: Seq<EventOccurrence>,
    e2: Seq<EventOccurrence>,
    first: int,
    occupancy: int,
    d: int,
    part1: Seq<PositionedEvent>,
    part2: Seq<PositionedEvent>,
)
    requires
        e1.to_multiset() == e2.to_multiset(),
        occurrence_ids_distinct(e1),
        day_layout_ok(e1, first, occupancy, d, part1),
        day_layout_ok(e2, first, occupancy, d, part2),
    ensures
        part1.to_multiset() == part2.to_multiset(),
        forall|x: PositionedEvent, y: PositionedEvent|
            #![trigger part1.contains(x), part1.contains(y)]
            part1.contains(x) && part1.contains(y) && x.occurrence_id == y.occurrence_id ==> x == y,
{
    broadcast use vstd::seq_lib::group_to_multiset_ensures;

    let x = first + d;
    let (s1, p1) = choose|sorted: Seq<LaneItem>, p: Seq<LanePlacement>|
        #![trigger lanes_valid(sorted, p)]
        sorted.to_multiset() == day_lane_items(e1, x, occupancy).to_multiset() && lane_items_sorted(
            sorted,
        ) && lanes_valid(sorted, p) && part1.to_multiset() == positioned_seq(d, sorted, p).to_multiset();
    let (s2, p2) = choose|sorted: Seq<LaneItem>, p: Seq<LanePlacement>|
        #![trigger lanes_valid(sorted, p)]
        sorted.to_multiset() == day_lane_items(e2, x, occupancy).to_multiset() && lane_items_sorted(
            sorted,
        ) && lanes_valid(sorted, p) && part2.to_multiset() == positioned_seq(d, sorted, p).to_multiset();
    let kf = day_key_fn(x, occupancy);
    let k1 = opt_map(e1, kf);
    let k2 = opt_map(e2, kf);
    lemma_day_keys(e1, x, occupancy);
    lemma_day_keys(e2, x, occupancy);
    lemma_opt_map_perm(e1, e2, kf);
    lemma_opt_map_perm(s1, day_lane_items(e1, x, occupancy), strip_fn());
    lemma_opt_map_perm(s2, day_lane_items(e2, x, occupancy), strip_fn());
    let t1 = opt_map(s1, strip_fn());
    let t2 = opt_map(s2, strip_fn());
    assert(t1.to_multiset() == k1.to_multiset());
    assert(t2.to_multiset() == k1.to_multiset());
    lemma_strip_seq(s1);
    lemma_strip_seq(s2);
    lemma_strip_sorted(s1);
    lemma_strip_sorted(s2);
    lemma_day_key_ids(e1, x, occupancy);
    // Items of the day that share an identity are the same item.
    assert forall|u: LaneItem, v: LaneItem|
        #![trigger k1.contains(u), k1.contains(v)]
        k1.contains(u) && k1.contains(v) && u.id == v.id implies u == v by {
        let i = choose|i: int| 0 <= i < k1.len() && k1[i] == u;
        let j = choose|j: int| 0 <= j < k1.len() && k1[j] == v;
        assert(k1[i].id == k1[j].id);
    }
    let lt = |u: LaneItem, v: LaneItem| lane_item_lt(u, v);
    assert forall|u: LaneItem, v: LaneItem|
        #![trigger t1.contains(u), t1.contains(v)]
        t1.contains(u) && t1.contains(v) && !lt(u, v) && !lt(v, u) implies u == v by {
        assert(t1.to_multiset().count(u) > 0 && t1.to_multiset().count(v) > 0);
        assert(k1.contains(u) && k1.contains(v));
        lemma_id_order_total(u.id, v.id);
    }
    lemma_sorted_unique(t1, t2, lt);
    assert(same_but_index(s1, s2)) by {
        assert forall|k: int| 0 <= k < s1.len() implies strip(#[trigger] s1[k]) == strip(s2[k]) by {
            assert(t1[k] == strip(s1[k]) && t2[k] == strip(s2[k]));
        }
    }
    lemma_placements_agree(s1, s2, p1, p2, d);
    // No two items of the sorted list share an identity.
    assert(k1.no_duplicates()) by {
        assert forall|i: int, j: int| 0 <= i < k1.len() && 0 <= j < k1.len() && i != j implies k1[i] != k1[j] by {
            if k1[i] == k1[j] {
                assert(k1[i].id == k1[j].id);
            }
        }
    }
    k1.lemma_multiset_has_no_duplicates();
    assert forall|u: LaneItem| t1.to_multiset().contains(u) implies t1.to_multiset().count(u) == 1 by {
        assert(k1.to_multiset().contains(u));
    }
    t1.lemma_multiset_has_no_duplicates_conv();
    assert forall|i: int, j: int| 0 <= i < s1.len() && 0 <= j < s1.len() && s1[i].id == s1[j].id implies i == j by {
        assert(t1[i] == strip(s1[i]) && t1[j] == strip(s1[j]));
        assert(t1.contains(t1[i]) && t1.contains(t1[j]));
        assert(t1.to_multiset().count(t1[i]) > 0 && t1.to_multiset().count(t1[j]) > 0);
        assert(k1.contains(t1[i]) && k1.contains(t1[j]));
    }
    let ps = positioned_seq(d, s1, p1);
    assert forall|u: PositionedEvent, v: PositionedEvent|
        #![trigger part1.contains(u), part1.contains(v)]
        part1.contains(u) && part1.contains(v) && u.occurrence_id == v.occurrence_id implies u == v by {
        assert(part1.to_multiset().count(u) > 0 && part1.to_multiset().count(v) > 0);
        assert(ps.contains(u) && ps.contains(v));
        let i = choose|i: int| 0 <= i < ps.len() && ps[i] == u;
        let j = choose|j: int| 0 <= j < ps.len() && ps[j] == v;
        assert(s1[i].id == s1[j].id);
    }
}


/// An entry occurs in the layout as often as in its day's entries.
proof fn lemma_count_by_day(r: Seq<PositionedEvent>, x: PositionedEvent)
    ensures
        r.to_multiset().count(x) == day_entries(r, x.day_offset as int).to_multiset().count(x),
    decreases r.len(),
{
    broadcast use vstd::seq_lib::group_to_multiset_ensures;
    broadcast use vstd::multiset::group_multiset_axioms;

    if r.len() == 0 {
        assert(r.to_multiset().count(x) == 0);
    } else {
        lemma_count_by_day(r.drop_last(), x);
        assert(r =~= r.drop_last().push(r.last()));
        let d = x.day_offset as int;
        if r.last().day_offset == d {
            assert(day_entries(r, d) == day_entries(r.drop_last(), d).push(r.last()));
        }
    }
}

/// Laying out the same events listed in another order gives the same
/// layout, when no two events share an identity: every layout of a
/// calendar plane is fixed by the multiset of its events. With
/// `layout_events`' contract this means that two calls on reorderings of
/// the same events return the same entries whenever both succeed, and both
/// succeed when there are at most 65,535 events.
pub proof fn lemma_layout_ignores_event_order(
    events: Seq<EventOccurrence>,
    reordered: Seq<EventOccurrence>,
    range: DateRange,
    occupancy: int,
    layout: Seq<PositionedEvent>,
    reordered_layout: Seq<PositionedEvent>,
)
    requires
        events.to_multiset() == reordered.to_multiset(),
        occurrence_ids_distinct(events),
        plane_layout(events, range, occupancy, layout),
        plane_layout(reordered, range, occupancy, reordered_layout),
    ensures
        layout == reordered_layout,
{
    broadcast use vstd::seq_lib::group_to_multiset_ensures;

    let first = range.start.day();
    let r1 = layout;
    let r2 = reordered_layout;
    assert forall|d: int| 0 <= d && first + d < range.end.day() implies #[trigger] day_entries(r1, d).to_multiset()
        == day_entries(r2, d).to_multiset() && forall|x: PositionedEvent, y: PositionedEvent|
        #![trigger day_entries(r1, d).contains(x), day_entries(r1, d).contains(y)]
        day_entries(r1, d).contains(x) && day_entries(r1, d).contains(y) && x.occurrence_id
            == y.occurrence_id ==> x == y by {
        assert(day_layout_ok(events, first, occupancy, d, day_entries(r1, d)));
        assert(day_layout_ok(reordered, first, occupancy, d, day_entries(r2, d)));
        lemma_day_part(events, reordered, first, occupancy, d, day_entries(r1, d), day_entries(r2, d));
    }
    assert forall|x: PositionedEvent| r1.to_multiset().count(x) == r2.to_multiset().count(x) by {
        let d = x.day_offset as int;
        lemma_count_by_day(r1, x);
        lemma_count_by_day(r2, x);
        if first + d < range.end.day() {
            assert(day_entries(r1, d).to_multiset() == day_entries(r2, d).to_multiset());
        } else {
            if r1.to_multiset().count(x) > 0 {
                let k = choose|k: int| 0 <= k < r1.len() && r1[k] == x;
                assert(first + r1[k].day_offset < range.end.day());
            }
            if r2.to_multiset().count(x) > 0 {
                let k = choose|k: int| 0 <= k < r2.len() && r2[k] == x;
                assert(first + r2[k].day_offset < range.end.day());
            }
        }
    }
    assert(r1.to_multiset() =~= r2.to_multiset());
    let lt = |u: PositionedEvent, v: PositionedEvent| positioned_lt(u, v);
    assert forall|u: PositionedEvent, v: PositionedEvent|
        #![trigger r1.contains(u), r1.contains(v)]
        r1.contains(u) && r1.contains(v) && !lt(u, v) && !lt(v, u) implies u == v by {
        lemma_id_order_total(u.occurrence_id, v.occurrence_id);
        let d = u.day_offset as int;
        let k = choose|k: int| 0 <= k < r1.len() && r1[k] == u;
        assert(first + r1[k].day_offset < range.end.day());
        lemma_count_by_day(r1, u);
        lemma_count_by_day(r1, v);
        assert(r1.to_multiset().count(u) > 0 && r1.to_multiset().count(v) > 0);
        assert(day_entries(r1, d).contains(u) && day_entries(r1, d).contains(v));
    }
    assert forall|i: int, j: int| 0 <= i < j < r1.len() implies !lt(#[trigger] r1[j], #[trigger] r1[i]) by {
        assert(!positioned_lt(r1[j], r1[i]));
    }
    assert forall|i: int, j: int| 0 <= i < j < r2.len() implies !lt(#[trigger] r2[j], #[trigger] r2[i]) by {
        assert(!positioned_lt(r2[j], r2[i]));
    }
    lemma_sorted_unique(r1, r2, lt);
}

} // verus!
