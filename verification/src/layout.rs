//! Overlap lanes for the events of a calendar plane.
//!
//! Each event occupies `[start, occupied_end)` nanoseconds of its day; the
//! occupied end is stretched to a minimum occupancy so that very short
//! events stay distinct. Within a day, events are taken in layout order (by
//! start, occupied end, then identity) and grouped into clusters: a new
//! cluster opens at an event that starts once every earlier event has ended.
//! Inside a cluster each event takes the lowest lane that no earlier
//! overlapping event holds, and widens over the following lanes until a lane
//! holds an event it overlaps.
use vstd::prelude::*;

use crate::domain::{DateRange, EventOccurrence, OccurrenceId};
use crate::store::{occurrence_id_less, occurrence_id_lt};
use crate::time::{CivilDate, NANOS_PER_DAY};

verus! {

/// Describes why calendar layout could not be produced.
#[derive(Clone, Copy, Debug, PartialEq, Eq, Structural, Hash)]
pub enum LayoutError {
    /// A rendering metric is not a positive number.
    InvalidMetric,
    /// Date arithmetic could not map an event into the range.
    DateArithmetic,
    /// The range holds more days than the layout can address.
    RangeTooWide,
    /// An overlap cluster holds more lanes than the layout can address.
    TooManyLanes,
}

/// The most days a layout range may hold.
pub const MAX_LAYOUT_DAYS: usize = 256;

/// Returns the number of days in a range, refusing ranges of more than
/// 256 days.
pub fn day_count(range: DateRange) -> (count: Result<usize, LayoutError>)
    ensures
        range.end.day() - range.start.day() > MAX_LAYOUT_DAYS ==> count == Err::<usize, LayoutError>(
            LayoutError::RangeTooWide,
        ),
        range.end.day() - range.start.day() <= MAX_LAYOUT_DAYS ==> count == Ok::<usize, LayoutError>(
            if range.end.day() <= range.start.day() {
                0usize
            } else {
                (range.end.day() - range.start.day()) as usize
            },
        ),
{
    if range.end.epoch_day <= range.start.epoch_day {
        return Ok(0);
    }
    let span = range.end.epoch_day as i64 - range.start.epoch_day as i64;
    if span > MAX_LAYOUT_DAYS as i64 {
        Err(LayoutError::RangeTooWide)
    } else {
        Ok(span as usize)
    }
}

/// Returns the zero-based position of `date` among the `day_count` days that
/// follow `start`.
pub fn day_offset(start: CivilDate, date: CivilDate, day_count: usize) -> (offset: Result<
    usize,
    LayoutError,
>)
    ensures
        offset is Ok <==> start.day() <= date.day() < start.day() + day_count,
        offset matches Ok(o) ==> o == date.day() - start.day(),
        offset matches Err(e) ==> e == LayoutError::DateArithmetic,
{
    let diff = date.epoch_day as i64 - start.epoch_day as i64;
    if 0 <= diff && (diff as u64) < day_count as u64 {
        Ok(diff as usize)
    } else {
        Err(LayoutError::DateArithmetic)
    }
}

/// One event of a day: its occupied interval in nanoseconds since midnight,
/// its identity, and the caller's index of it.
#[derive(Clone, Copy, Debug, PartialEq, Eq, Structural)]
pub struct LaneItem {
    /// Start of the event.
    pub start: u64,
    /// Visible end of the event, never before its start.
    pub end: u64,
    /// End of the interval used for collision detection.
    pub occupied_end: u64,
    /// Identity of the occurrence, the last layout-order key.
    pub id: OccurrenceId,
    /// The caller's index of the event.
    pub index: usize,
}

/// The lane placement of one event.
#[derive(Clone, Copy, Debug, PartialEq, Eq, Structural, Hash)]
pub struct LanePlacement {
    /// The caller's index of the event.
    pub index: usize,
    /// Zero-based lane.
    pub lane: usize,
    /// Lanes the event spans, starting at its own.
    pub lane_span: usize,
    /// Lanes in the event's overlap cluster.
    pub lane_count: usize,
}

/// Two occupied intervals overlap (end-exclusive).
pub open spec fn lanes_overlap(a: LaneItem, b: LaneItem) -> bool {
    a.start < b.occupied_end && b.start < a.occupied_end
}

/// Layout order: by start, then occupied end, then identity.
pub open spec fn lane_item_lt(a: LaneItem, b: LaneItem) -> bool {
    a.start < b.start || (a.start == b.start && (a.occupied_end < b.occupied_end || (
    a.occupied_end == b.occupied_end && occurrence_id_lt(a.id, b.id))))
}

/// Whether items are in layout order.
pub open spec fn lane_items_sorted(items: Seq<LaneItem>) -> bool {
    forall|i: int, j: int|
        0 <= i < j < items.len() ==> !lane_item_lt(#[trigger] items[j], #[trigger] items[i])
}

/// Whether items are ordered by start.
pub open spec fn starts_ordered(items: Seq<LaneItem>) -> bool {
    forall|i: int, j: int|
        0 <= i < j < items.len() ==> (#[trigger] items[i]).start <= (#[trigger] items[j]).start
}

/// Whether every item occupies a non-empty interval.
pub open spec fn lane_items_wf(items: Seq<LaneItem>) -> bool {
    forall|i: int| 0 <= i < items.len() ==> #[trigger] items[i].start < items[i].occupied_end
}

/// Item `j` opens a cluster: every earlier item has ended when it starts.
pub open spec fn opens_cluster(items: Seq<LaneItem>, j: int) -> bool {
    forall|k: int| 0 <= k < j ==> (#[trigger] items[k]).occupied_end <= items[j].start
}

/// Index of the item that opens the cluster of item `i`.
pub open spec fn cluster_start(items: Seq<LaneItem>, i: int) -> int
    decreases i,
{
    if i <= 0 {
        0
    } else if opens_cluster(items, i) {
        i
    } else {
        cluster_start(items, i - 1)
    }
}

/// Items `i` and `j` belong to the same overlap cluster.
pub open spec fn same_cluster(items: Seq<LaneItem>, i: int, j: int) -> bool {
    cluster_start(items, i) == cluster_start(items, j)
}

/// Some item before `i` that overlaps it sits in lane `l`.
pub open spec fn lane_taken_before(items: Seq<LaneItem>, lanes: Seq<usize>, i: int, l: int) -> bool {
    exists|j: int| 0 <= j < i && lanes_overlap(items[j], items[i]) && #[trigger] lanes[j] == l
}

/// Some item that overlaps item `i` sits in lane `l`.
pub open spec fn lane_blocked(items: Seq<LaneItem>, lanes: Seq<usize>, i: int, l: int) -> bool {
    exists|j: int|
        0 <= j < items.len() && lanes_overlap(items[i], items[j]) && #[trigger] lanes[j] == l
}

/// The placement `pl` of item `i`, given the lanes of all items:
/// - the lane is the lowest one that no earlier overlapping item holds;
/// - the lane count is one more than the highest lane of the cluster;
/// - the span covers the following lanes up to the first one that holds an
///   overlapping item, or up to the lane count.
pub open spec fn placement_fits(
    items: Seq<LaneItem>,
    lanes: Seq<usize>,
    i: int,
    pl: LanePlacement,
) -> bool {
    &&& pl.index == items[i].index
    &&& pl.lane == lanes[i]
    &&& 1 <= pl.lane_span
    &&& pl.lane + pl.lane_span <= pl.lane_count
    &&& forall|j: int|
        0 <= j < items.len() && same_cluster(items, i, j) ==> #[trigger] lanes[j] < pl.lane_count
    &&& exists|j: int|
        0 <= j < items.len() && same_cluster(items, i, j) && #[trigger] lanes[j] + 1
            == pl.lane_count
    &&& !lane_taken_before(items, lanes, i, lanes[i] as int)
    &&& forall|l: int| 0 <= l < lanes[i] ==> #[trigger] lane_taken_before(items, lanes, i, l)
    &&& forall|l: int|
        pl.lane < l < pl.lane + pl.lane_span ==> !#[trigger] lane_blocked(items, lanes, i, l)
    &&& pl.lane + pl.lane_span < pl.lane_count ==> lane_blocked(
        items,
        lanes,
        i,
        pl.lane + pl.lane_span,
    )
}

/// The lanes of a placement list.
pub open spec fn lanes_of(p: Seq<LanePlacement>) -> Seq<usize> {
    Seq::new(p.len(), |j: int| p[j].lane)
}

/// A placement list for `items`, one placement per item, each fitting.
pub open spec fn lanes_valid(items: Seq<LaneItem>, p: Seq<LanePlacement>) -> bool {
    &&& p.len() == items.len()
    &&& forall|i: int| 0 <= i < items.len() ==> placement_fits(items, lanes_of(p), i, #[trigger] p[i])
}

/// The opening item of a cluster comes no later than its members, opens a
/// cluster, and no item between them opens another.
pub proof fn lemma_cluster_start(items: Seq<LaneItem>, i: int)
    requires
        0 <= i < items.len(),
    ensures
        0 <= cluster_start(items, i) <= i,
        opens_cluster(items, cluster_start(items, i)),
        forall|m: int| cluster_start(items, i) < m <= i ==> !opens_cluster(items, m),
    decreases i,
{
    if i > 0 && !opens_cluster(items, i) {
        lemma_cluster_start(items, i - 1);
    }
}

/// Every item between a cluster's opening item and a member belongs to the
/// same cluster.
proof fn lemma_cluster_start_between(items: Seq<LaneItem>, k: int, i: int)
    requires
        0 <= k <= i < items.len(),
        cluster_start(items, i) <= k,
    ensures
        cluster_start(items, k) == cluster_start(items, i),
    decreases i - k,
{
    if k < i {
        lemma_cluster_start(items, i);
        assert(!opens_cluster(items, i));
        lemma_cluster_start_between(items, k, i - 1);
    }
}

/// Overlapping items of a start-ordered day belong to the same cluster.
pub proof fn lemma_overlap_same_cluster(items: Seq<LaneItem>, i: int, j: int)
    requires
        starts_ordered(items),
        0 <= i < j < items.len(),
        lanes_overlap(items[i], items[j]),
    ensures
        same_cluster(items, i, j),
{
    lemma_cluster_start(items, j);
    let c = cluster_start(items, j);
    if c <= i {
        lemma_cluster_start_between(items, i, j);
    } else {
        assert(items[i].occupied_end <= items[c].start);
        assert(items[c].start <= items[j].start);
    }
}

/// A lane search that ignores a new last element keeps its answer.
proof fn lemma_taken_extend(
    items: Seq<LaneItem>,
    before: Seq<usize>,
    after: Seq<usize>,
    k: int,
    l: int,
)
    requires
        after.len() == before.len() + 1,
        forall|j: int| 0 <= j < before.len() ==> after[j] == before[j],
        0 <= k < before.len(),
    ensures
        lane_taken_before(items, after, k, l) == lane_taken_before(items, before, k, l),
{
    if lane_taken_before(items, after, k, l) {
        let j = choose|j: int| 0 <= j < k && lanes_overlap(items[j], items[k]) && #[trigger] after[j] == l;
        assert(before[j] == l);
    }
    if lane_taken_before(items, before, k, l) {
        let j = choose|j: int| 0 <= j < k && lanes_overlap(items[j], items[k]) && #[trigger] before[j] == l;
        assert(after[j] == l);
    }
}

/// First-fit lanes and cluster openers for start-ordered items.
fn first_fit_lanes(items: &[LaneItem]) -> (result: (Vec<usize>, Vec<usize>))
    requires
        starts_ordered(items@),
        lane_items_wf(items@),
    ensures
        result.0@.len() == items.len(),
        result.1@.len() == items.len(),
        forall|k: int| 0 <= k < items.len() ==> #[trigger] result.1@[k] == cluster_start(items@, k),
        forall|k: int| 0 <= k < items.len() ==> #[trigger] result.0@[k] <= k,
        forall|k: int|
            0 <= k < items.len() ==> !lane_taken_before(items@, result.0@, k, #[trigger] result.0@[k] as int),
        forall|k: int, l: int|
            0 <= k < items.len() && 0 <= l < result.0@[k] ==> #[trigger] lane_taken_before(
                items@,
                result.0@,
                k,
                l,
            ),
{
    let n = items.len();
    let mut lane_of: Vec<usize> = Vec::new();
    let mut cluster_of: Vec<usize> = Vec::new();
    let mut lanes_end: Vec<u64> = Vec::new();
    let ghost mut last: Seq<int> = Seq::empty();
    let mut cs: usize = 0;
    let mut cluster_end: u64 = 0;
    let ghost mut wit: int = 0;
    let mut i: usize = 0;
    while i < n
        invariant
            n == items.len(),
            starts_ordered(items@),
            lane_items_wf(items@),
            i <= n,
            lane_of@.len() == i,
            cluster_of@.len() == i,
            cs <= i,
            i > 0 ==> cs < i,
            forall|k: int| 0 <= k < i ==> #[trigger] cluster_of@[k] == cluster_start(items@, k),
            forall|k: int| cs <= k < i ==> cluster_start(items@, k) == cs,
            opens_cluster(items@, cs as int),
            i > 0 ==> forall|k: int| 0 <= k < i ==> (#[trigger] items@[k]).occupied_end <= cluster_end,
            i > 0 ==> cs <= wit < i && items@[wit].occupied_end == cluster_end,
            lanes_end@.len() == last.len(),
            last.len() <= i - cs,
            forall|l: int|
                0 <= l < last.len() ==> cs <= #[trigger] last[l] < i && lane_of@[last[l]] == l
                    && lanes_end@[l] == items@[last[l]].occupied_end,
            forall|l: int, k: int|
                0 <= l < last.len() && #[trigger] last[l] < k < i ==> #[trigger] lane_of@[k] != l,
            forall|k: int| cs <= k < i ==> #[trigger] lane_of@[k] < last.len(),
            forall|k: int| 0 <= k < i ==> #[trigger] lane_of@[k] <= k,
            forall|k: int|
                0 <= k < i ==> !lane_taken_before(items@, lane_of@, k, #[trigger] lane_of@[k] as int),
            forall|k: int, l: int|
                0 <= k < i && 0 <= l < lane_of@[k] ==> #[trigger] lane_taken_before(
                    items@,
                    lane_of@,
                    k,
                    l,
                ),
        decreases n - i,
    {
        let item = items[i];
        if i > 0 && item.start >= cluster_end {
            proof {
                assert(opens_cluster(items@, i as int));
            }
            cs = i;
            lanes_end = Vec::new();
            proof {
                last = Seq::empty();
            }
        } else if i > 0 {
            proof {
                assert(!opens_cluster(items@, i as int)) by {
                    assert(items@[wit].occupied_end > items@[i as int].start);
                }
                assert(cluster_start(items@, i - 1) == cs);
            }
        }
        proof {
            assert(cluster_start(items@, i as int) == cs);
        }
        let mut lane: usize = 0;
        while lane < lanes_end.len() && lanes_end[lane] > item.start
            invariant
                lane <= lanes_end@.len(),
                forall|l: int| 0 <= l < lane ==> #[trigger] lanes_end@[l] > item.start,
            decreases lanes_end@.len() - lane,
        {
            lane += 1;
        }
        let ghost old_lanes = lane_of@;
        let ghost old_last = last;
        proof {
            lemma_first_fit_step(items@, old_lanes, old_last, lanes_end@, cs as int, i as int, lane as int);
        }
        if lane == lanes_end.len() {
            lanes_end.push(item.occupied_end);
            proof {
                last = last.push(i as int);
            }
        } else {
            lanes_end.set(lane, item.occupied_end);
            proof {
                last = last.update(lane as int, i as int);
            }
        }
        lane_of.push(lane);
        cluster_of.push(cs);
        proof {
            let nl = lane_of@;
            assert(nl == old_lanes.push(lane));
            assert forall|k: int| 0 <= k < i + 1 implies !lane_taken_before(
                items@,
                nl,
                k,
                #[trigger] nl[k] as int,
            ) by {
                if k < i {
                    lemma_taken_extend(items@, old_lanes, nl, k, nl[k] as int);
                } else {
                    if lane_taken_before(items@, nl, k, lane as int) {
                        let j = choose|j: int|
                            0 <= j < k && lanes_overlap(items@[j], items@[k]) && #[trigger] nl[j]
                                == lane as int;
                        assert(old_lanes[j] == lane);
                    }
                }
            }
            assert forall|k: int, l: int|
                0 <= k < i + 1 && 0 <= l < nl[k] implies #[trigger] lane_taken_before(
                items@,
                nl,
                k,
                l,
            ) by {
                if k < i {
                    lemma_taken_extend(items@, old_lanes, nl, k, l);
                } else {
                    let j = old_last[l];
                    assert(nl[j] == l);
                    assert(lanes_overlap(items@[j], items@[k]));
                }
            }
            assert forall|l: int, k: int|
                0 <= l < last.len() && #[trigger] last[l] < k < i + 1 implies #[trigger] nl[k] != l by {
                if l != lane && k < i {
                    assert(old_last[l] == last[l]);
                }
            }
        }
        if i == 0 || cluster_end < item.occupied_end {
            cluster_end = item.occupied_end;
            proof {
                wit = i as int;
            }
        }
        i += 1;
    }
    (lane_of, cluster_of)
}

/// The lane chosen by first fit is not held by an earlier overlapping item,
/// and every lower lane is.
proof fn lemma_first_fit_step(
    items: Seq<LaneItem>,
    lanes: Seq<usize>,
    last: Seq<int>,
    lanes_end: Seq<u64>,
    cs: int,
    i: int,
    lane: int,
)
    requires
        starts_ordered(items),
        lane_items_wf(items),
        0 <= cs <= i < items.len(),
        lanes.len() == i,
        opens_cluster(items, cs),
        lanes_end.len() == last.len(),
        0 <= lane <= last.len(),
        lane < last.len() ==> lanes_end[lane] <= items[i].start,
        forall|l: int| 0 <= l < lane ==> #[trigger] lanes_end[l] > items[i].start,
        forall|l: int|
            0 <= l < last.len() ==> cs <= #[trigger] last[l] < i && lanes[last[l]] == l
                && lanes_end[l] == items[last[l]].occupied_end,
        forall|l: int, k: int| 0 <= l < last.len() && #[trigger] last[l] < k < i ==> #[trigger] lanes[k] != l,
        forall|k: int| cs <= k < i ==> #[trigger] lanes[k] < last.len(),
        forall|k: int| 0 <= k < i ==> !lane_taken_before(items, lanes, k, #[trigger] lanes[k] as int),
    ensures
        forall|j: int| 0 <= j < i && lanes_overlap(items[j], items[i]) ==> #[trigger] lanes[j] != lane,
        forall|l: int| 0 <= l < lane ==> lanes_overlap(items[#[trigger] last[l]], items[i]),
{
    assert forall|j: int| 0 <= j < i && lanes_overlap(items[j], items[i]) implies #[trigger] lanes[j]
        != lane by {
        if lanes[j] == lane {
            if j < cs {
                assert(items[j].occupied_end <= items[cs].start);
                assert(items[cs].start <= items[i].start);
            } else {
                assert(lane < last.len());
                let lj = last[lane];
                if j != lj {
                    assert(j < lj);
                    assert(!lane_taken_before(items, lanes, lj, lanes[lj] as int));
                    assert(items[j].start <= items[lj].start);
                    assert(items[lj].start < items[lj].occupied_end);
                    assert(!lanes_overlap(items[j], items[lj]));
                    assert(items[lj].start <= items[i].start);
                }
            }
        }
    }
    assert forall|l: int| 0 <= l < lane implies lanes_overlap(items[#[trigger] last[l]], items[i]) by {
        let j = last[l];
        assert(lanes_end[l] > items[i].start);
        assert(items[j].start <= items[i].start);
        assert(items[i].start < items[i].occupied_end);
    }
}

/// `count` is one more than the highest lane among the items that share item
/// `i`'s cluster opener.
pub open spec fn count_fits(lanes: Seq<usize>, clusters: Seq<usize>, i: int, count: usize) -> bool {
    &&& forall|j: int|
        0 <= j < lanes.len() && clusters[j] == clusters[i] ==> #[trigger] lanes[j] < count
    &&& exists|j: int| 0 <= j < lanes.len() && clusters[j] == clusters[i] && #[trigger] lanes[j] + 1 == count
}

/// The lane count of every item: one more than the highest lane of its
/// cluster.
fn cluster_lane_counts(lanes: &Vec<usize>, clusters: &Vec<usize>) -> (counts: Vec<usize>)
    requires
        lanes@.len() == clusters@.len(),
        forall|k: int| 0 <= k < lanes@.len() ==> #[trigger] lanes@[k] <= k,
    ensures
        counts@.len() == lanes@.len(),
        forall|i: int| 0 <= i < lanes@.len() ==> count_fits(lanes@, clusters@, i, #[trigger] counts@[i]),
{
    let n = lanes.len();
    let mut counts: Vec<usize> = Vec::new();
    let mut i: usize = 0;
    while i < n
        invariant
            n == lanes@.len(),
            lanes@.len() == clusters@.len(),
            forall|k: int| 0 <= k < lanes@.len() ==> #[trigger] lanes@[k] <= k,
            i <= n,
            counts@.len() == i,
            forall|m: int| 0 <= m < i ==> count_fits(lanes@, clusters@, m, #[trigger] counts@[m]),
        decreases n - i,
    {
        let mut best: usize = lanes[i] + 1;
        let ghost mut wit: int = i as int;
        let mut q: usize = 0;
        while q < n
            invariant
                n == lanes@.len(),
                lanes@.len() == clusters@.len(),
                forall|k: int| 0 <= k < lanes@.len() ==> #[trigger] lanes@[k] <= k,
                i < n,
                q <= n,
                0 <= wit < n,
                clusters@[wit] == clusters@[i as int],
                lanes@[wit] + 1 == best,
                forall|r: int|
                    0 <= r < q && clusters@[r] == clusters@[i as int] ==> #[trigger] lanes@[r] < best,
                lanes@[i as int] < best,
            decreases n - q,
        {
            if clusters[q] == clusters[i] && lanes[q] + 1 > best {
                best = lanes[q] + 1;
                proof {
                    wit = q as int;
                }
            }
            q += 1;
        }
        counts.push(best);
        proof {
            assert(count_fits(lanes@, clusters@, i as int, best));
            assert forall|m: int| 0 <= m < i + 1 implies count_fits(
                lanes@,
                clusters@,
                m,
                #[trigger] counts@[m],
            ) by {
                if m == i {
                    assert(counts@[m] == best);
                }
            }
        }
        i += 1;
    }
    counts
}

/// The span of item `i` in lane `lane`: the lanes from its own up to the
/// first one that holds an item overlapping it, or up to `count`.
fn lane_span_of(items: &[LaneItem], lanes: &Vec<usize>, i: usize, count: usize) -> (span: usize)
    requires
        lanes@.len() == items.len(),
        i < items.len(),
        lanes@[i as int] < count,
    ensures
        1 <= span,
        lanes@[i as int] + span <= count,
        forall|l: int|
            lanes@[i as int] < l < lanes@[i as int] + span ==> !#[trigger] lane_blocked(
                items@,
                lanes@,
                i as int,
                l,
            ),
        lanes@[i as int] + span < count ==> lane_blocked(
            items@,
            lanes@,
            i as int,
            lanes@[i as int] + span,
        ),
{
    let lane = lanes[i];
    let item = items[i];
    let mut span: usize = 1;
    while lane + span < count
        invariant
            lanes@.len() == items.len(),
            i < items.len(),
            lane == lanes@[i as int],
            item == items@[i as int],
            1 <= span,
            lane + span <= count,
            forall|l: int| lane < l < lane + span ==> !#[trigger] lane_blocked(items@, lanes@, i as int, l),
        decreases count - span,
    {
        let target = lane + span;
        let mut q: usize = 0;
        while q < items.len()
            invariant
                lanes@.len() == items.len(),
                i < items.len(),
                item == items@[i as int],
                lane == lanes@[i as int],
                1 <= span,
                lane + span < count,
                target == lane + span,
                forall|l: int| lane < l < lane + span ==> !#[trigger] lane_blocked(items@, lanes@, i as int, l),
                q <= items.len(),
                forall|r: int|
                    0 <= r < q && lanes_overlap(item, items@[r]) ==> #[trigger] lanes@[r] != target,
            decreases items.len() - q,
        {
            let other = items[q];
            if lanes[q] == target && item.start < other.occupied_end && other.start
                < item.occupied_end {
                proof {
                    assert(lanes_overlap(items@[i as int], items@[q as int]) && lanes@[q as int] == target);
                }
                return span;
            }
            q += 1;
        }
        proof {
            assert(!lane_blocked(items@, lanes@, i as int, target as int));
        }
        span += 1;
    }
    span
}

/// Computes lane, span and lane count for every item of one day.
///
/// The items must be ordered by start and occupy non-empty intervals; the
/// result holds one placement per item, in the items' order.
pub fn assign_lanes(items: &[LaneItem]) -> (placements: Vec<LanePlacement>)
    requires
        starts_ordered(items@),
        lane_items_wf(items@),
    ensures
        lanes_valid(items@, placements@),
        forall|i: int| 0 <= i < items.len() ==> (#[trigger] placements@[i]).lane_count <= items.len(),
{
    let n = items.len();
    let (lanes, clusters) = first_fit_lanes(items);
    let counts = cluster_lane_counts(&lanes, &clusters);
    let mut placements: Vec<LanePlacement> = Vec::new();
    let mut i: usize = 0;
    while i < n
        invariant
            n == items.len(),
            lanes@.len() == n,
            clusters@.len() == n,
            counts@.len() == n,
            forall|k: int| 0 <= k < n ==> #[trigger] clusters@[k] == cluster_start(items@, k),
            forall|k: int| 0 <= k < n ==> count_fits(lanes@, clusters@, k, #[trigger] counts@[k]),
            forall|k: int|
                0 <= k < n ==> !lane_taken_before(items@, lanes@, k, #[trigger] lanes@[k] as int),
            forall|k: int, l: int|
                0 <= k < n && 0 <= l < lanes@[k] ==> #[trigger] lane_taken_before(
                    items@,
                    lanes@,
                    k,
                    l,
                ),
            i <= n,
            placements@.len() == i,
            forall|m: int| 0 <= m < i ==> placement_fits(items@, lanes@, m, #[trigger] placements@[m]),
            forall|k: int| 0 <= k < n ==> #[trigger] lanes@[k] <= k,
            forall|m: int| 0 <= m < i ==> (#[trigger] placements@[m]).lane_count <= n,
        decreases n - i,
    {
        let count = counts[i];
        proof {
            assert(count_fits(lanes@, clusters@, i as int, count));
            assert(lanes@[i as int] < count);
        }
        let span = lane_span_of(items, &lanes, i, count);
        let pl = LanePlacement { index: items[i].index, lane: lanes[i], lane_span: span, lane_count: count };
        proof {
            assert forall|j: int|
                0 <= j < n && same_cluster(items@, i as int, j) implies #[trigger] lanes@[j] < count by {
                assert(clusters@[j] == clusters@[i as int]);
            }
            let j = choose|j: int|
                0 <= j < n && clusters@[j] == clusters@[i as int] && #[trigger] lanes@[j] + 1 == count;
            assert(same_cluster(items@, i as int, j));
            assert(placement_fits(items@, lanes@, i as int, pl));
            assert(lanes@[j] <= j);
        }
        placements.push(pl);
        i += 1;
    }
    proof {
        assert(lanes_of(placements@) =~= lanes@);
    }
    placements
}

/// Overlapping events of a day never share a lane.
pub proof fn lemma_overlapping_events_use_distinct_lanes(
    items: Seq<LaneItem>,
    p: Seq<LanePlacement>,
    i: int,
    j: int,
)
    requires
        lanes_valid(items, p),
        0 <= i < items.len(),
        0 <= j < items.len(),
        i != j,
        lanes_overlap(items[i], items[j]),
    ensures
        p[i].lane != p[j].lane,
{
    let lanes = lanes_of(p);
    if i < j {
        assert(placement_fits(items, lanes, j, p[j]));
        if p[i].lane == p[j].lane {
            assert(lanes[i] == p[i].lane);
            assert(lane_taken_before(items, lanes, j, lanes[j] as int));
        }
    } else {
        assert(placement_fits(items, lanes, i, p[i]));
        if p[i].lane == p[j].lane {
            assert(lanes[j] == p[j].lane);
            assert(lane_taken_before(items, lanes, i, lanes[i] as int));
        }
    }
}

/// Every event lies within its cluster's lanes, and overlapping events of a
/// start-ordered day report the same lane count.
pub proof fn lemma_lane_counts(items: Seq<LaneItem>, p: Seq<LanePlacement>, i: int, j: int)
    requires
        starts_ordered(items),
        lanes_valid(items, p),
        0 <= i < items.len(),
        0 <= j < items.len(),
    ensures
        p[i].lane < p[i].lane_count,
        lanes_overlap(items[i], items[j]) ==> p[i].lane_count == p[j].lane_count,
{
    let lanes = lanes_of(p);
    assert(placement_fits(items, lanes, i, p[i]));
    assert(placement_fits(items, lanes, j, p[j]));
    assert(lanes[i] < p[i].lane_count);
    if lanes_overlap(items[i], items[j]) && i != j {
        if i < j {
            lemma_overlap_same_cluster(items, i, j);
        } else {
            lemma_overlap_same_cluster(items, j, i);
        }
        let a = choose|k: int|
            0 <= k < items.len() && same_cluster(items, i, k) && #[trigger] lanes[k] + 1 == p[i].lane_count;
        let b = choose|k: int|
            0 <= k < items.len() && same_cluster(items, j, k) && #[trigger] lanes[k] + 1 == p[j].lane_count;
        assert(lanes[a] < p[j].lane_count);
        assert(lanes[b] < p[i].lane_count);
    }
}

/// The end of an event's occupied interval: its end (never before its
/// start), stretched to `occupancy` after its start, and cut at midnight.
pub open spec fn occupied_end_of(start: int, end: int, occupancy: int) -> int {
    let actual_end = if end < start {
        start
    } else {
        end
    };
    let stretched = if actual_end < start + occupancy {
        start + occupancy
    } else {
        actual_end
    };
    if stretched < NANOS_PER_DAY {
        stretched
    } else {
        NANOS_PER_DAY as int
    }
}

/// The visible end of an event: its end, never before its start.
pub open spec fn visible_end_of(start: int, end: int) -> int {
    if end < start {
        start
    } else {
        end
    }
}

/// The lane item of an occurrence.
pub open spec fn lane_item_spec(e: EventOccurrence, occupancy: int, index: int) -> LaneItem {
    LaneItem {
        start: e.draft.start_time.nanos,
        end: visible_end_of(e.draft.start_time.nanos as int, e.draft.end_time.nanos as int) as u64,
        occupied_end: occupied_end_of(
            e.draft.start_time.nanos as int,
            e.draft.end_time.nanos as int,
            occupancy,
        ) as u64,
        id: e.id,
        index: index as usize,
    }
}

/// Whether an occurrence's times lie within one day.
pub open spec fn occurrence_times_wf(e: EventOccurrence) -> bool {
    e.draft.start_time.wf() && e.draft.end_time.wf()
}

/// The occupied interval of an occurrence's lane item covers its whole
/// visible interval and at least `occupancy` after its start (up to
/// midnight), so two occurrences whose real times overlap always have
/// overlapping lane items.
pub proof fn lemma_lane_item_covers_event(
    a: EventOccurrence,
    b: EventOccurrence,
    occupancy: int,
    i: int,
    j: int,
)
    requires
        occurrence_times_wf(a),
        occurrence_times_wf(b),
        occupancy > 0,
    ensures
        lane_item_spec(a, occupancy, i).occupied_end >= a.draft.end_time.nanos,
        lane_item_spec(a, occupancy, i).occupied_end >= lane_item_spec(a, occupancy, i).end,
        lane_item_spec(a, occupancy, i).occupied_end >= if a.draft.start_time.nanos + occupancy
            < NANOS_PER_DAY {
            a.draft.start_time.nanos + occupancy
        } else {
            NANOS_PER_DAY as int
        },
        a.draft.start_time.nanos < b.draft.end_time.nanos && b.draft.start_time.nanos
            < a.draft.end_time.nanos ==> lanes_overlap(
            lane_item_spec(a, occupancy, i),
            lane_item_spec(b, occupancy, j),
        ),
{
}

/// In any lane assignment, the items of two occurrences whose real times
/// overlap sit in different lanes: events that overlap are drawn side by
/// side, never on top of each other.
pub proof fn lemma_overlapping_occurrences_get_distinct_lanes(
    items: Seq<LaneItem>,
    p: Seq<LanePlacement>,
    a: EventOccurrence,
    b: EventOccurrence,
    occupancy: int,
    i: int,
    j: int,
)
    requires
        lanes_valid(items, p),
        0 <= i < items.len(),
        0 <= j < items.len(),
        i != j,
        occurrence_times_wf(a),
        occurrence_times_wf(b),
        occupancy > 0,
        items[i] == lane_item_spec(a, occupancy, i),
        items[j] == lane_item_spec(b, occupancy, j),
        a.draft.start_time.nanos < b.draft.end_time.nanos,
        b.draft.start_time.nanos < a.draft.end_time.nanos,
    ensures
        p[i].lane != p[j].lane,
{
    lemma_lane_item_covers_event(a, b, occupancy, i, j);
    lemma_overlapping_events_use_distinct_lanes(items, p, i, j);
}

/// Builds the lane item of an occurrence with minimum occupancy `occupancy`
/// nanoseconds.
pub fn lane_item_of(e: &EventOccurrence, occupancy: u64, index: usize) -> (item: LaneItem)
    requires
        occurrence_times_wf(*e),
        occupancy > 0,
    ensures
        item == lane_item_spec(*e, occupancy as int, index as int),
        item.start < item.occupied_end,
        item.end <= item.occupied_end,
        item.end >= e.draft.end_time.nanos,
{
    let start = e.draft.start_time.nanos;
    let end = e.draft.end_time.nanos;
    let actual_end = if end < start {
        start
    } else {
        end
    };
    let occupied_end = if occupancy >= NANOS_PER_DAY - start {
        NANOS_PER_DAY
    } else {
        let stretched = if actual_end < start + occupancy {
            start + occupancy
        } else {
            actual_end
        };
        if stretched < NANOS_PER_DAY {
            stretched
        } else {
            NANOS_PER_DAY
        }
    };
    LaneItem { start, end: actual_end, occupied_end, id: e.id, index }
}

proof fn lemma_lane_order(a: LaneItem, b: LaneItem, c: LaneItem)
    ensures
        lane_item_lt(a, b) ==> !lane_item_lt(b, a),
        !lane_item_lt(a, b) && !lane_item_lt(b, c) ==> !lane_item_lt(a, c),
        lane_item_lt(a, b) && !lane_item_lt(c, b) ==> lane_item_lt(a, c),
{
}

/// Returns whether `a` comes strictly before `b` in layout order.
pub fn lane_item_less(a: &LaneItem, b: &LaneItem) -> (less: bool)
    ensures
        less == lane_item_lt(*a, *b),
{
    if a.start != b.start {
        a.start < b.start
    } else if a.occupied_end != b.occupied_end {
        a.occupied_end < b.occupied_end
    } else {
        occurrence_id_less(a.id, b.id)
    }
}

/// Sorts items into layout order, keeping the relative order of items with
/// equal keys.
pub fn sort_lane_items(items: &[LaneItem]) -> (sorted: Vec<LaneItem>)
    ensures
        lane_items_sorted(sorted@),
        sorted@.to_multiset() == items@.to_multiset(),
        sorted@.len() == items@.len(),
{
    broadcast use vstd::seq_lib::group_to_multiset_ensures, vstd::multiset::group_multiset_axioms;

    let mut sorted: Vec<LaneItem> = Vec::new();
    let mut i: usize = 0;
    while i < items.len()
        invariant
            i <= items.len(),
            lane_items_sorted(sorted@),
            sorted@.to_multiset() == items@.subrange(0, i as int).to_multiset(),
            sorted@.len() == i,
        decreases items.len() - i,
    {
        let x = items[i];
        let ghost before_s = sorted@;
        let mut p: usize = 0;
        while p < sorted.len() && !lane_item_less(&x, &sorted[p])
            invariant
                p <= sorted.len(),
                sorted@ == before_s,
                forall|j: int| 0 <= j < p ==> !lane_item_lt(x, #[trigger] sorted@[j]),
            decreases sorted.len() - p,
        {
            p += 1;
        }
        proof {
            assert forall|j: int| p <= j < sorted@.len() implies !lane_item_lt(
                #[trigger] sorted@[j],
                x,
            ) by {
                lemma_lane_order(x, sorted@[p as int], sorted@[j]);
            }
            vstd::seq_lib::to_multiset_insert(before_s, p as int, x);
            assert(items@.subrange(0, i + 1) =~= items@.subrange(0, i as int).push(x));
        }
        sorted.insert(p, x);
        proof {
            let s = sorted@;
            assert(s =~= before_s.insert(p as int, x));
            vstd::seq_lib::to_multiset_build(items@.subrange(0, i as int), x);
            assert(s.to_multiset() == items@.subrange(0, i + 1).to_multiset());
            assert forall|a: int, b: int| 0 <= a < b < s.len() implies !lane_item_lt(
                #[trigger] s[b],
                #[trigger] s[a],
            ) by {
                if a < p && b == p {
                    assert(s[a] == before_s[a]);
                } else if a == p && b > p {
                    assert(s[b] == before_s[b - 1]);
                } else if b < p {
                    assert(s[a] == before_s[a] && s[b] == before_s[b]);
                } else if a < p && b > p {
                    assert(s[a] == before_s[a] && s[b] == before_s[b - 1]);
                    lemma_lane_order(s[b], x, s[a]);
                } else {
                    assert(s[a] == before_s[a - 1] && s[b] == before_s[b - 1]);
                }
            }
        }
        i += 1;
    }
    proof {
        assert(items@.subrange(0, items@.len() as int) =~= items@);
    }
    sorted
}

/// Layout order implies start order.
pub proof fn lemma_sorted_starts_ordered(items: Seq<LaneItem>)
    requires
        lane_items_sorted(items),
    ensures
        starts_ordered(items),
{
    assert forall|i: int, j: int| 0 <= i < j < items.len() implies (#[trigger] items[i]).start
        <= (#[trigger] items[j]).start by {
        assert(!lane_item_lt(items[j], items[i]));
    }
}

/// The lane items of the occurrences that fall on epoch day `day`, in the
/// occurrences' order, each carrying its index among `events`.
pub open spec fn day_lane_items(events: Seq<EventOccurrence>, day: int, occupancy: int) -> Seq<
    LaneItem,
>
    decreases events.len(),
{
    if events.len() == 0 {
        Seq::empty()
    } else {
        let rest = day_lane_items(events.drop_last(), day, occupancy);
        let e = events.last();
        if e.draft.date.day() == day {
            rest.push(lane_item_spec(e, occupancy, events.len() - 1))
        } else {
            rest
        }
    }
}

proof fn lemma_day_lane_items_len(events: Seq<EventOccurrence>, day: int, occupancy: int)
    ensures
        day_lane_items(events, day, occupancy).len() <= events.len(),
    decreases events.len(),
{
    if events.len() > 0 {
        lemma_day_lane_items_len(events.drop_last(), day, occupancy);
    }
}

/// Collects the lane items of the occurrences on epoch day `day`.
pub fn day_items(events: &[EventOccurrence], day: i64, occupancy: u64) -> (items: Vec<LaneItem>)
    requires
        forall|k: int| 0 <= k < events.len() ==> occurrence_times_wf(#[trigger] events@[k]),
        occupancy > 0,
    ensures
        items@ == day_lane_items(events@, day as int, occupancy as int),
        lane_items_wf(items@),
{
    let mut items: Vec<LaneItem> = Vec::new();
    let mut k: usize = 0;
    while k < events.len()
        invariant
            k <= events.len(),
            occupancy > 0,
            forall|m: int| 0 <= m < events.len() ==> occurrence_times_wf(#[trigger] events@[m]),
            items@ == day_lane_items(events@.subrange(0, k as int), day as int, occupancy as int),
            lane_items_wf(items@),
        decreases events.len() - k,
    {
        proof {
            assert(events@.subrange(0, k + 1).drop_last() =~= events@.subrange(0, k as int));
            assert(events@.subrange(0, k + 1).last() == events@[k as int]);
        }
        if events[k].draft.date.epoch_day as i64 == day {
            let item = lane_item_of(&events[k], occupancy, k);
            items.push(item);
        }
        k += 1;
    }
    proof {
        assert(events@.subrange(0, events@.len() as int) =~= events@);
    }
    items
}

/// The integer placement of one event on the calendar plane: its day, its
/// times in nanoseconds since midnight, and its lanes.
#[derive(Clone, Copy, Debug, PartialEq, Eq, Structural)]
pub struct PositionedEvent {
    pub occurrence_id: OccurrenceId,
    pub day_offset: u8,
    pub start: u64,
    pub end: u64,
    pub lane: u16,
    pub lane_span: u16,
    pub lane_count: u16,
}

impl PositionedEvent {
    pub fn occurrence_id(&self) -> (id: OccurrenceId)
        ensures
            id == self.occurrence_id,
    {
        self.occurrence_id
    }

    pub fn day_offset(&self) -> (offset: u8)
        ensures
            offset == self.day_offset,
    {
        self.day_offset
    }

    /// Start in nanoseconds since midnight.
    pub fn start_nanos(&self) -> (start: u64)
        ensures
            start == self.start,
    {
        self.start
    }

    /// Visible end in nanoseconds since midnight.
    pub fn end_nanos(&self) -> (end: u64)
        ensures
            end == self.end,
    {
        self.end
    }

    pub fn lane(&self) -> (lane: u16)
        ensures
            lane == self.lane,
    {
        self.lane
    }

    pub fn lane_span(&self) -> (span: u16)
        ensures
            span == self.lane_span,
    {
        self.lane_span
    }

    pub fn lane_count(&self) -> (count: u16)
        ensures
            count == self.lane_count,
    {
        self.lane_count
    }
}

/// The positioned event of a placed item on day `d`.
pub open spec fn positioned_of(d: int, item: LaneItem, pl: LanePlacement) -> PositionedEvent {
    PositionedEvent {
        occurrence_id: item.id,
        day_offset: d as u8,
        start: item.start,
        end: item.end,
        lane: pl.lane as u16,
        lane_span: pl.lane_span as u16,
        lane_count: pl.lane_count as u16,
    }
}

/// The positioned events of placed items on day `d`, in the items' order.
pub open spec fn positioned_seq(d: int, items: Seq<LaneItem>, p: Seq<LanePlacement>) -> Seq<
    PositionedEvent,
> {
    Seq::new(items.len(), |k: int| positioned_of(d, items[k], p[k]))
}

/// Turns placed items of day `d` into positioned events; a lane count above
/// `u16::MAX` cannot be addressed.
pub fn positioned_day(d: u8, items: &[LaneItem], p: &[LanePlacement]) -> (result: Result<
    Vec<PositionedEvent>,
    LayoutError,
>)
    requires
        p.len() == items.len(),
        forall|k: int| 0 <= k < p.len() ==> (#[trigger] p@[k]).lane + p@[k].lane_span <= p@[k].lane_count,
    ensures
        result is Ok <==> forall|k: int| 0 <= k < p.len() ==> (#[trigger] p@[k]).lane_count <= u16::MAX,
        result matches Ok(v) ==> v@ == positioned_seq(d as int, items@, p@),
        result matches Err(e) ==> e == LayoutError::TooManyLanes,
{
    let mut out: Vec<PositionedEvent> = Vec::new();
    let mut k: usize = 0;
    while k < p.len()
        invariant
            p.len() == items.len(),
            forall|m: int| 0 <= m < p.len() ==> (#[trigger] p@[m]).lane + p@[m].lane_span <= p@[m].lane_count,
            k <= p.len(),
            forall|m: int| 0 <= m < k ==> (#[trigger] p@[m]).lane_count <= u16::MAX,
            out@ =~= positioned_seq(d as int, items@, p@).subrange(0, k as int),
        decreases p.len() - k,
    {
        let pl = p[k];
        if pl.lane_count > 65535 {
            return Err(LayoutError::TooManyLanes);
        }
        let item = items[k];
        out.push(
            PositionedEvent {
                occurrence_id: item.id,
                day_offset: d,
                start: item.start,
                end: item.end,
                lane: pl.lane as u16,
                lane_span: pl.lane_span as u16,
                lane_count: pl.lane_count as u16,
            },
        );
        k += 1;
    }
    Ok(out)
}

/// Plane order: by day, then start, then identity.
pub open spec fn positioned_lt(a: PositionedEvent, b: PositionedEvent) -> bool {
    a.day_offset < b.day_offset || (a.day_offset == b.day_offset && (a.start < b.start || (a.start
        == b.start && occurrence_id_lt(a.occurrence_id, b.occurrence_id))))
}

/// Whether positioned events are in plane order.
pub open spec fn positioned_sorted(s: Seq<PositionedEvent>) -> bool {
    forall|i: int, j: int| 0 <= i < j < s.len() ==> !positioned_lt(#[trigger] s[j], #[trigger] s[i])
}

proof fn lemma_positioned_order(a: PositionedEvent, b: PositionedEvent, c: PositionedEvent)
    ensures
        positioned_lt(a, b) ==> !positioned_lt(b, a),
        !positioned_lt(a, b) && !positioned_lt(b, c) ==> !positioned_lt(a, c),
        positioned_lt(a, b) && !positioned_lt(c, b) ==> positioned_lt(a, c),
{
}

fn positioned_less(a: &PositionedEvent, b: &PositionedEvent) -> (less: bool)
    ensures
        less == positioned_lt(*a, *b),
{
    if a.day_offset != b.day_offset {
        a.day_offset < b.day_offset
    } else if a.start != b.start {
        a.start < b.start
    } else {
        occurrence_id_less(a.occurrence_id, b.occurrence_id)
    }
}

/// Sorts positioned events into plane order, keeping the relative order of
/// events with equal keys.
pub fn sort_positioned(items: &[PositionedEvent]) -> (sorted: Vec<PositionedEvent>)
    ensures
        positioned_sorted(sorted@),
        sorted@.to_multiset() == items@.to_multiset(),
        sorted@.len() == items@.len(),
{
    broadcast use vstd::seq_lib::group_to_multiset_ensures, vstd::multiset::group_multiset_axioms;

    let mut sorted: Vec<PositionedEvent> = Vec::new();
    let mut i: usize = 0;
    while i < items.len()
        invariant
            i <= items.len(),
            positioned_sorted(sorted@),
            sorted@.to_multiset() == items@.subrange(0, i as int).to_multiset(),
            sorted@.len() == i,
        decreases items.len() - i,
    {
        let x = items[i];
        let ghost before_s = sorted@;
        let mut p: usize = 0;
        while p < sorted.len() && !positioned_less(&x, &sorted[p])
            invariant
                p <= sorted.len(),
                sorted@ == before_s,
                forall|j: int| 0 <= j < p ==> !positioned_lt(x, #[trigger] sorted@[j]),
            decreases sorted.len() - p,
        {
            p += 1;
        }
        proof {
            assert forall|j: int| p <= j < sorted@.len() implies !positioned_lt(
                #[trigger] sorted@[j],
                x,
            ) by {
                lemma_positioned_order(x, sorted@[p as int], sorted@[j]);
            }
            vstd::seq_lib::to_multiset_insert(before_s, p as int, x);
            assert(items@.subrange(0, i + 1) =~= items@.subrange(0, i as int).push(x));
        }
        sorted.insert(p, x);
        proof {
            let s = sorted@;
            assert(s =~= before_s.insert(p as int, x));
            vstd::seq_lib::to_multiset_build(items@.subrange(0, i as int), x);
            assert(s.to_multiset() == items@.subrange(0, i + 1).to_multiset());
            assert forall|a: int, b: int| 0 <= a < b < s.len() implies !positioned_lt(
                #[trigger] s[b],
                #[trigger] s[a],
            ) by {
                if a < p && b == p {
                    assert(s[a] == before_s[a]);
                } else if a == p && b > p {
                    assert(s[b] == before_s[b - 1]);
                } else if b < p {
                    assert(s[a] == before_s[a] && s[b] == before_s[b]);
                } else if a < p && b > p {
                    assert(s[a] == before_s[a] && s[b] == before_s[b - 1]);
                    lemma_positioned_order(s[b], x, s[a]);
                } else {
                    assert(s[a] == before_s[a - 1] && s[b] == before_s[b - 1]);
                }
            }
        }
        i += 1;
    }
    proof {
        assert(items@.subrange(0, items@.len() as int) =~= items@);
    }
    sorted
}

/// The positioned events of day `d`, in order.
pub open spec fn day_entries(r: Seq<PositionedEvent>, d: int) -> Seq<PositionedEvent>
    decreases r.len(),
{
    if r.len() == 0 {
        Seq::empty()
    } else {
        let rest = day_entries(r.drop_last(), d);
        if r.last().day_offset == d {
            rest.push(r.last())
        } else {
            rest
        }
    }
}

proof fn lemma_day_entries_append(a: Seq<PositionedEvent>, b: Seq<PositionedEvent>, d: int)
    ensures
        day_entries(a + b, d) == day_entries(a, d) + day_entries(b, d),
    decreases b.len(),
{
    if b.len() == 0 {
        assert(a + b =~= a);
        assert(day_entries(a, d) + day_entries(b, d) =~= day_entries(a, d));
    } else {
        assert((a + b).drop_last() =~= a + b.drop_last());
        assert((a + b).last() == b.last());
        lemma_day_entries_append(a, b.drop_last(), d);
        let x = day_entries(a, d);
        let y = day_entries(b.drop_last(), d);
        assert((x + y).push(b.last()) =~= x + y.push(b.last()));
    }
}

proof fn lemma_day_entries_of_one_day(b: Seq<PositionedEvent>, d: int, e: int)
    requires
        forall|k: int| 0 <= k < b.len() ==> (#[trigger] b[k]).day_offset == e,
    ensures
        d == e ==> day_entries(b, d) == b,
        d != e ==> day_entries(b, d) == Seq::<PositionedEvent>::empty(),
    decreases b.len(),
{
    if b.len() > 0 {
        lemma_day_entries_of_one_day(b.drop_last(), d, e);
        assert(b.drop_last().push(b.last()) =~= b);
    }
}

/// What day `d` of a layout shows: the day's items in layout order, placed
/// by first fit, as positioned events in some order.
pub open spec fn day_layout_ok(
    events: Seq<EventOccurrence>,
    first_day: int,
    occupancy: int,
    d: int,
    part: Seq<PositionedEvent>,
) -> bool {
    exists|sorted: Seq<LaneItem>, p: Seq<LanePlacement>|
        #![trigger lanes_valid(sorted, p)]
        sorted.to_multiset() == day_lane_items(events, first_day + d, occupancy).to_multiset()
            && lane_items_sorted(sorted) && lanes_valid(sorted, p) && part.to_multiset()
            == positioned_seq(d, sorted, p).to_multiset()
}

/// `r` lays out `events` over `range`: it is in plane order, every entry
/// lies on a day of the range, and the entries of each day are that day's
/// occurrences placed by first fit in layout order.
pub open spec fn plane_layout(
    events: Seq<EventOccurrence>,
    range: DateRange,
    occupancy: int,
    r: Seq<PositionedEvent>,
) -> bool {
    &&& positioned_sorted(r)
    &&& forall|k: int|
        0 <= k < r.len() ==> range.start.day() + (#[trigger] r[k]).day_offset < range.end.day()
    &&& forall|d: int|
        0 <= d && range.start.day() + d < range.end.day() ==> #[trigger] day_layout_ok(
            events,
            range.start.day(),
            occupancy,
            d,
            day_entries(r, d),
        )
}

/// Lays out every occurrence that falls in `range` using end-exclusive
/// overlap lanes, with a minimum occupancy of `minimum_occupancy`
/// nanoseconds for collision detection.
///
/// The result is in plane order (day, start, identity); the events of each
/// day are exactly that day's occurrences, placed by first fit in layout
/// order.
pub fn layout_events(
    events: &[EventOccurrence],
    range: DateRange,
    minimum_occupancy: u64,
) -> (result: Result<Vec<PositionedEvent>, LayoutError>)
    requires
        forall|k: int| 0 <= k < events.len() ==> occurrence_times_wf(#[trigger] events@[k]),
    ensures
        minimum_occupancy == 0 ==> result == Err::<Vec<PositionedEvent>, LayoutError>(
            LayoutError::InvalidMetric,
        ),
        minimum_occupancy > 0 && range.end.day() - range.start.day() > MAX_LAYOUT_DAYS ==> result
            == Err::<Vec<PositionedEvent>, LayoutError>(LayoutError::RangeTooWide),
        minimum_occupancy > 0 && range.end.day() - range.start.day() <= MAX_LAYOUT_DAYS
            && events.len() <= u16::MAX ==> result is Ok,
        result matches Err(e) ==> e == LayoutError::InvalidMetric || e == LayoutError::RangeTooWide
            || (e == LayoutError::TooManyLanes && events.len() > u16::MAX),
        minimum_occupancy > 0 && range.end.day() - range.start.day() <= MAX_LAYOUT_DAYS ==> (
        result matches Err(e) ==> e == LayoutError::TooManyLanes),
        result matches Ok(r) ==> plane_layout(events@, range, minimum_occupancy as int, r@),
{
    if minimum_occupancy == 0 {
        return Err(LayoutError::InvalidMetric);
    }
    let days = day_count(range)?;
    let mut result: Vec<PositionedEvent> = Vec::new();
    let mut d: usize = 0;
    while d < days
        invariant
            minimum_occupancy > 0,
            forall|k: int| 0 <= k < events.len() ==> occurrence_times_wf(#[trigger] events@[k]),
            days <= MAX_LAYOUT_DAYS,
            range.end.day() <= range.start.day() ==> days == 0,
            range.start.day() < range.end.day() ==> days == range.end.day() - range.start.day(),
            d <= days,
            positioned_sorted(result@),
            forall|k: int| 0 <= k < result@.len() ==> (#[trigger] result@[k]).day_offset < d,
            forall|e: int|
                0 <= e < d ==> #[trigger] day_layout_ok(
                    events@,
                    range.start.day(),
                    minimum_occupancy as int,
                    e,
                    day_entries(result@, e),
                ),
            forall|e: int| d <= e ==> #[trigger] day_entries(result@, e) == Seq::<PositionedEvent>::empty(),
        decreases days - d,
    {
        broadcast use vstd::seq_lib::group_to_multiset_ensures;

        let day = range.start.epoch_day as i64 + d as i64;
        let items = day_items(events, day, minimum_occupancy);
        let sorted = sort_lane_items(&items);
        proof {
            lemma_sorted_starts_ordered(sorted@);
            assert forall|k: int| 0 <= k < sorted@.len() implies #[trigger] sorted@[k].start
                < sorted@[k].occupied_end by {
                assert(sorted@.to_multiset().count(sorted@[k]) > 0);
                assert(items@.contains(sorted@[k]));
                let m = choose|m: int| 0 <= m < items@.len() && items@[m] == sorted@[k];
                assert(items@[m].start < items@[m].occupied_end);
            }
            lemma_day_lane_items_len(events@, day as int, minimum_occupancy as int);
        }
        let placements = assign_lanes(&sorted);
        proof {
            assert forall|k: int| 0 <= k < placements@.len() implies (#[trigger] placements@[k]).lane
                + placements@[k].lane_span <= placements@[k].lane_count by {
                assert(placement_fits(sorted@, lanes_of(placements@), k, placements@[k]));
            }
        }
        let part = positioned_day(d as u8, &sorted, &placements)?;
        let part_sorted = sort_positioned(&part);
        proof {
            assert(day_layout_ok(
                events@,
                range.start.day(),
                minimum_occupancy as int,
                d as int,
                part_sorted@,
            ));
            assert forall|k: int| 0 <= k < part_sorted@.len() implies (#[trigger] part_sorted@[k]).day_offset
                == d by {
                assert(part_sorted@.to_multiset().count(part_sorted@[k]) > 0);
                assert(part@.contains(part_sorted@[k]));
            }
        }
        let ghost before = result@;
        let mut k: usize = 0;
        while k < part_sorted.len()
            invariant
                k <= part_sorted@.len(),
                result@ == before + part_sorted@.subrange(0, k as int),
            decreases part_sorted@.len() - k,
        {
            result.push(part_sorted[k]);
            proof {
                assert(before + part_sorted@.subrange(0, k + 1) =~= (before + part_sorted@.subrange(
                    0,
                    k as int,
                )).push(part_sorted@[k as int]));
            }
            k += 1;
        }
        proof {
            assert(part_sorted@.subrange(0, part_sorted@.len() as int) =~= part_sorted@);
            let r = result@;
            assert(r == before + part_sorted@);
            assert forall|a: int, b: int| 0 <= a < b < r.len() implies !positioned_lt(
                #[trigger] r[b],
                #[trigger] r[a],
            ) by {
                if b < before.len() {
                } else if a >= before.len() {
                    assert(r[a] == part_sorted@[a - before.len()]);
                    assert(r[b] == part_sorted@[b - before.len()]);
                } else {
                    assert(r[b] == part_sorted@[b - before.len()]);
                }
            }
            assert forall|e: int| 0 <= e < d + 1 implies #[trigger] day_layout_ok(
                events@,
                range.start.day(),
                minimum_occupancy as int,
                e,
                day_entries(r, e),
            ) by {
                lemma_day_entries_append(before, part_sorted@, e);
                lemma_day_entries_of_one_day(part_sorted@, e, d as int);
                if e < d {
                    assert(day_entries(r, e) =~= day_entries(before, e));
                } else {
                    assert(day_entries(before, e) == Seq::<PositionedEvent>::empty());
                    assert(day_entries(r, e) =~= part_sorted@);
                }
            }
            assert forall|e: int| d + 1 <= e implies #[trigger] day_entries(r, e) == Seq::<
                PositionedEvent,
            >::empty() by {
                lemma_day_entries_append(before, part_sorted@, e);
                lemma_day_entries_of_one_day(part_sorted@, e, d as int);
                assert(day_entries(r, e) =~= Seq::<PositionedEvent>::empty());
            }
        }
        d += 1;
    }
    Ok(result)
}

} // verus!
