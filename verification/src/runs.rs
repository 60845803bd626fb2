//! What holds of whole runs, from the threads that record to the exporter that writes.

use crate::clock::{low64, Clock};
use crate::event::Event;
use crate::evqueue::{
    all_dry, came_out, decoded_batch, decoded_batches, drained, has_advanced, in_turn,
    lemma_decoded_len, lemma_readings_len, is_stale, recorded, took, BatchView,
    QueueView, Taking,
};
use crate::lane::{Inlet, Outlet};
use crate::pipeline::{
    batches_go_on_or_are_counted, chose, let_through, offered, sent_on, turned_away, wrote_on, Onto,
    Onward, SerializerView, WriterView,
};
use crate::recorder::pushed_all;
use crate::ring::{
    a_ring_that_fits_keeps_everything, lemma_events_split, lemma_push_bytes, total_bytes,
    total_events, RingView,
};
use crate::snapshot::marks;
use crate::tls::{fits, flushed, open_batch, queue_of, way_of, Cold, Hot};
use vstd::prelude::*;

verus! {

proof fn lemma_events_add(a: Seq<BatchView>, b: Seq<BatchView>)
    ensures
        total_events(a + b) == total_events(a) + total_events(b),
{
    lemma_events_split(a + b, a.len() as int);
    assert((a + b).take(a.len() as int) =~= a);
    assert((a + b).skip(a.len() as int) =~= b);
}

proof fn lemma_choices_agree(batches: Seq<BatchView>, ok: Seq<bool>, other: Seq<bool>)
    requires
        forall|i: int| 0 <= i < batches.len() ==> #[trigger] ok[i] == other[i],
    ensures
        let_through(batches, ok) == let_through(batches, other),
        turned_away(batches, ok) == turned_away(batches, other),
    decreases batches.len(),
{
    if batches.len() > 0 {
        lemma_choices_agree(batches.drop_last(), ok, other);
        assert(ok[batches.len() - 1] == other[batches.len() - 1]);
    }
}

proof fn lemma_choices_add(
    first: Seq<BatchView>,
    second: Seq<BatchView>,
    ok: Seq<bool>,
    more: Seq<bool>,
)
    requires
        ok.len() == first.len(),
        second.len() <= more.len(),
    ensures
        let_through(first + second, ok + more) == let_through(first, ok) + let_through(second, more),
        turned_away(first + second, ok + more) == turned_away(first, ok) + turned_away(second, more),
    decreases second.len(),
{
    if second.len() == 0 {
        assert(first + second =~= first);
        lemma_choices_agree(first, ok + more, ok);
        assert(let_through(first, ok) + Seq::<BatchView>::empty() =~= let_through(first, ok));
        assert(turned_away(first, ok) + Seq::<BatchView>::empty() =~= turned_away(first, ok));
    } else {
        let rest = second.drop_last();
        lemma_choices_add(first, rest, ok, more);
        assert((first + second).drop_last() =~= first + rest);
        assert((ok + more)[(first + second).len() - 1] == more[second.len() - 1]);
        assert(let_through(first + second, ok + more) =~= let_through(first, ok) + let_through(
            second,
            more,
        ));
        assert(turned_away(first + second, ok + more) =~= turned_away(first, ok) + turned_away(
            second,
            more,
        ));
    }
}

proof fn lemma_choices_len(batches: Seq<BatchView>, ok: Seq<bool>)
    ensures
        let_through(batches, ok).len() <= batches.len(),
    decreases batches.len(),
{
    if batches.len() > 0 {
        lemma_choices_len(batches.drop_last(), ok);
    }
}

proof fn lemma_all_through(batches: Seq<BatchView>, ok: Seq<bool>)
    requires
        forall|i: int| 0 <= i < batches.len() ==> #[trigger] ok[i],
    ensures
        let_through(batches, ok) == batches,
        turned_away(batches, ok).len() == 0,
    decreases batches.len(),
{
    if batches.len() > 0 {
        lemma_all_through(batches.drop_last(), ok);
        assert(ok[batches.len() - 1]);
        assert(batches.drop_last().push(batches.last()) =~= batches);
    }
}

/// Batches that are offered one lot after the other are offered as one lot.
pub proof fn offers_add_up(
    a: Inlet,
    b: Inlet,
    c: Inlet,
    first: Seq<BatchView>,
    second: Seq<BatchView>,
    d: u64,
    e: u64,
    f: u64,
)
    requires
        offered(a, b, first, d, e),
        offered(b, c, second, e, f),
    ensures
        offered(a, c, first + second, d, f),
{
    let ok = choose|ok: Seq<bool>| chose(a, b, first, d, e, ok);
    let more = choose|ok: Seq<bool>| chose(b, c, second, e, f, ok);
    let all = first + second;
    let both = ok + more;
    lemma_choices_add(first, second, ok, more);
    lemma_events_add(turned_away(first, ok), turned_away(second, more));
    let one = let_through(first, ok);
    let two = let_through(second, more);
    assert forall|i: int| 0 <= i < let_through(all, both).len() implies #[trigger] let_through(
        all,
        both,
    )[i] == c.lane[a.sent + i] by {
        if i < one.len() {
            assert(one[i] == b.lane[a.sent + i]);
        } else {
            assert(two[i - one.len()] == c.lane[b.sent + (i - one.len())]);
        }
    }
    assert forall|i: int| 0 <= i < all.len() && !#[trigger] both[i] implies a.sent + let_through(
        all.take(i),
        both,
    ).len() >= a.capacity by {
        if i < first.len() {
            assert(!ok[i]);
            assert(all.take(i) =~= first.take(i));
            lemma_choices_agree(first.take(i), both, ok);
        } else {
            let j = i - first.len();
            assert(!more[j]);
            assert(all.take(i) =~= first + second.take(j));
            lemma_choices_add(first, second.take(j), ok, more);
        }
    }
    assert(chose(a, c, all, d, f, both));
}

/// Every event that is offered to the writer's lane goes on it or is counted.
pub proof fn events_go_on_or_are_counted(
    before: Inlet,
    after: Inlet,
    batches: Seq<BatchView>,
    dropped: u64,
    after_dropped: u64,
)
    requires
        offered(before, after, batches, dropped, after_dropped),
        before.sent <= before.lane.len(),
        dropped + total_events(batches) <= u64::MAX,
    ensures
        (after_dropped - dropped) + total_events(
            after.lane.subrange(before.sent as int, after.sent as int),
        ) == total_events(batches),
{
    let ok = choose|ok: Seq<bool>| chose(before, after, batches, dropped, after_dropped, ok);
    batches_go_on_or_are_counted(batches, ok);
    assert(after.lane.subrange(before.sent as int, after.sent as int) =~= let_through(batches, ok));
}

/// As long as a lane has not been filled once, it takes all that is offered to it,
/// and nothing is counted as lost.
pub proof fn a_lane_with_room_takes_everything(
    before: Inlet,
    after: Inlet,
    batches: Seq<BatchView>,
    dropped: u64,
    after_dropped: u64,
)
    requires
        offered(before, after, batches, dropped, after_dropped),
        before.sent <= before.lane.len(),
        before.sent + batches.len() <= before.capacity,
    ensures
        after.sent == before.sent + batches.len(),
        after.lane.subrange(before.sent as int, after.sent as int) == batches,
        after_dropped == dropped,
{
    let ok = choose|ok: Seq<bool>| chose(before, after, batches, dropped, after_dropped, ok);
    assert forall|i: int| 0 <= i < batches.len() implies #[trigger] ok[i] by {
        if !ok[i] {
            lemma_choices_len(batches.take(i), ok);
        }
    }
    lemma_all_through(batches, ok);
    assert(after.lane.subrange(before.sent as int, after.sent as int) =~= batches);
}

proof fn lemma_first_through(batches: Seq<BatchView>, ok: Seq<bool>, room: int)
    requires
        0 <= room <= batches.len(),
        forall|i: int| 0 <= i < room ==> #[trigger] ok[i],
    ensures
        let_through(batches, ok).len() >= room,
        forall|i: int| 0 <= i < room ==> #[trigger] let_through(batches, ok)[i] == batches[i],
    decreases batches.len(),
{
    if room == batches.len() {
        lemma_all_through(batches, ok);
    } else {
        let rest = batches.drop_last();
        lemma_first_through(rest, ok, room);
        assert forall|i: int| 0 <= i < room implies #[trigger] let_through(batches, ok)[i]
            == batches[i] by {
            assert(let_through(rest, ok)[i] == rest[i]);
        }
    }
}

proof fn lemma_first_go_in(
    before: Inlet,
    after: Inlet,
    batches: Seq<BatchView>,
    dropped: u64,
    after_dropped: u64,
    room: int,
)
    requires
        offered(before, after, batches, dropped, after_dropped),
        0 <= room <= batches.len(),
        before.sent + room <= before.capacity,
    ensures
        after.sent >= before.sent + room,
        forall|i: int| 0 <= i < room ==> #[trigger] batches[i] == after.lane[before.sent + i],
{
    let ok = choose|ok: Seq<bool>| chose(before, after, batches, dropped, after_dropped, ok);
    assert forall|i: int| 0 <= i < room implies #[trigger] ok[i] by {
        if !ok[i] {
            lemma_choices_len(batches.take(i), ok);
        }
    }
    lemma_first_through(batches, ok, room);
    assert forall|i: int| 0 <= i < room implies #[trigger] batches[i] == after.lane[before.sent
        + i] by {
        assert(let_through(batches, ok)[i] == batches[i]);
    }
}

/// A lane that is offered more than it has room for takes the first batches, as many
/// as it has room for. Only events of later ones can be lost, and all of those are
/// lost where nothing more goes in.
pub proof fn a_full_lane_holds_the_first(
    before: Inlet,
    after: Inlet,
    batches: Seq<BatchView>,
    dropped: u64,
    after_dropped: u64,
)
    requires
        offered(before, after, batches, dropped, after_dropped),
        before.sent <= before.lane.len(),
        before.sent <= before.capacity < before.sent + batches.len(),
        dropped + total_events(batches) <= u64::MAX,
    ensures
        ({
            let room = before.capacity - before.sent;
            let full = before.capacity as int;
            &&& after.sent >= full
            &&& after.lane.subrange(before.sent as int, full) == batches.take(room)
            &&& (after_dropped - dropped) + total_events(
                after.lane.subrange(full, after.sent as int),
            ) == total_events(batches.skip(room))
            &&& after.sent == full ==> after_dropped - dropped == total_events(batches.skip(room))
        }),
{
    let room = before.capacity - before.sent;
    let full = before.capacity as int;
    let first = batches.take(room);
    let more = after.lane.subrange(full, after.sent as int);
    lemma_first_go_in(before, after, batches, dropped, after_dropped, room);
    assert(after.lane.subrange(before.sent as int, full) =~= first);
    assert(after.lane.subrange(before.sent as int, after.sent as int) =~= first + more);
    assert(batches =~= first + batches.skip(room));
    events_go_on_or_are_counted(before, after, batches, dropped, after_dropped);
    lemma_events_add(first, more);
    lemma_events_add(first, batches.skip(room));
    if after.sent == full {
        assert(more =~= Seq::empty());
    }
}

/// One step of a serializer: where it stood and what the queue was before and after.
pub struct Haul {
    pub before: SerializerView,
    pub queue: QueueView,
    pub after: SerializerView,
    pub left: QueueView,
    pub onward: Onward,
}

/// Whether nothing but threads connecting has happened to the ends of a queue's lanes.
pub open spec fn only_joined(a: Seq<Outlet>, b: Seq<Outlet>) -> bool {
    &&& a.len() <= b.len()
    &&& forall|k: int| 0 <= k < a.len() ==> #[trigger] b[k] == a[k]
    &&& forall|k: int| a.len() <= k < b.len() ==> (#[trigger] b[k]).taken == 0
}

/// Whether these are steps of one serializer, one after the other, on one queue that
/// threads may connect to at any time.
pub open spec fn are_hauls(hauls: Seq<Haul>) -> bool {
    &&& hauls.len() > 0
    &&& forall|i: int|
        0 <= i < hauls.len() ==> sent_on(
            (#[trigger] hauls[i]).before,
            hauls[i].queue,
            hauls[i].after,
            hauls[i].left,
            hauls[i].onward,
        )
    &&& forall|i: int, j: int|
        0 <= i && j == i + 1 && j < hauls.len() ==> (#[trigger] hauls[j]).before == (
        #[trigger] hauls[i]).after && only_joined(hauls[i].left.outlets, hauls[j].queue.outlets)
}

/// Whether nothing has come out of a queue before a run.
pub open spec fn starts_fresh(hauls: Seq<Haul>) -> bool {
    only_joined(Seq::empty(), hauls[0].queue.outlets)
}

/// All batches that a serializer has taken out of the queue in a run.
pub open spec fn hauled(hauls: Seq<Haul>) -> Seq<BatchView>
    decreases hauls.len(),
{
    if hauls.len() == 0 {
        Seq::empty()
    } else {
        hauled(hauls.drop_last()) + drained(hauls.last().queue.outlets, hauls.last().left.outlets)
    }
}

proof fn lemma_shorter_run(hauls: Seq<Haul>)
    requires
        are_hauls(hauls),
        hauls.len() > 1,
    ensures
        are_hauls(hauls.drop_last()),
        hauls.last().before == hauls.drop_last().last().after,
        only_joined(hauls.drop_last().last().left.outlets, hauls.last().queue.outlets),
        sent_on(
            hauls.last().before,
            hauls.last().queue,
            hauls.last().after,
            hauls.last().left,
            hauls.last().onward,
        ),
{
    let rest = hauls.drop_last();
    let n = rest.len() as int;
    assert(hauls[n].before == hauls[n - 1].after);
    assert forall|i: int| 0 <= i < rest.len() implies sent_on(
        (#[trigger] rest[i]).before,
        rest[i].queue,
        rest[i].after,
        rest[i].left,
        rest[i].onward,
    ) by {
        assert(hauls[i] == rest[i]);
    }
    assert forall|i: int, j: int| 0 <= i && j == i + 1 && j < rest.len() implies (
    #[trigger] rest[j]).before == (#[trigger] rest[i]).after && only_joined(
        rest[i].left.outlets,
        rest[j].queue.outlets,
    ) by {
        assert(hauls[j].before == hauls[i].after);
    }
}

/// Over a whole run, a serializer has offered the writer's lane all batches that it
/// has taken out of the queue, in the order they came, and each of them once.
pub proof fn all_that_is_hauled_is_offered(hauls: Seq<Haul>)
    requires
        are_hauls(hauls),
    ensures
        offered(
            hauls[0].before.way,
            hauls.last().after.way,
            hauled(hauls),
            hauls[0].before.lost,
            hauls.last().after.lost,
        ),
    decreases hauls.len(),
{
    let last = hauls.last();
    let own = drained(last.queue.outlets, last.left.outlets);
    if hauls.len() == 1 {
        assert(hauls.drop_last() =~= Seq::empty());
        assert(hauled(Seq::empty()) =~= Seq::empty());
        assert(hauled(hauls) =~= own);
    } else {
        let rest = hauls.drop_last();
        lemma_shorter_run(hauls);
        all_that_is_hauled_is_offered(rest);
        offers_add_up(
            hauls[0].before.way,
            last.before.way,
            last.after.way,
            hauled(rest),
            own,
            hauls[0].before.lost,
            last.before.lost,
            last.after.lost,
        );
    }
}

/// A serializer ends only once it has seen the queue closed, and when it stops there
/// was nothing left in any lane.
pub proof fn a_serializer_stops_on_a_closed_queue(hauls: Seq<Haul>)
    requires
        are_hauls(hauls),
        !hauls[0].before.ending,
        hauls.last().after.ending,
    ensures
        exists|i: int| 0 <= i < hauls.len() && (#[trigger] hauls[i]).queue.closed,
        hauls.last().onward is Stop ==> all_dry(hauls.last().left.outlets),
    decreases hauls.len(),
{
    let last = hauls.last();
    assert(sent_on(last.before, last.queue, last.after, last.left, last.onward)) by {
        assert(hauls[hauls.len() - 1] == last);
    }
    if last.before.ending {
        let rest = hauls.drop_last();
        assert(hauls.len() > 1);
        lemma_shorter_run(hauls);
        a_serializer_stops_on_a_closed_queue(rest);
        let i = choose|i: int| 0 <= i < rest.len() && (#[trigger] rest[i]).queue.closed;
        assert(hauls[i].queue.closed);
    } else {
        assert(hauls[hauls.len() - 1].queue.closed);
    }
}

/// The batches that have come out of several lanes between two points, each with the
/// number of its lane.
pub open spec fn labelled(before: Seq<Outlet>, after: Seq<Outlet>) -> Seq<(int, BatchView)>
    decreases before.len(),
{
    if before.len() == 0 {
        Seq::empty()
    } else {
        labelled(before.drop_last(), after.drop_last()) + with_label(
            before.len() - 1,
            came_out(before.last(), after.last()),
        )
    }
}

/// Some batches of one lane, with its number.
pub open spec fn with_label(k: int, batches: Seq<BatchView>) -> Seq<(int, BatchView)> {
    Seq::new(batches.len(), |i: int| (k, batches[i]))
}

/// Some batches without the numbers of their lanes.
pub open spec fn without_labels(labels: Seq<(int, BatchView)>) -> Seq<BatchView> {
    Seq::new(labels.len(), |i: int| labels[i].1)
}

/// All batches that a serializer has taken out of the queue in a run, each with the
/// number of its lane.
pub open spec fn all_labelled(hauls: Seq<Haul>) -> Seq<(int, BatchView)>
    decreases hauls.len(),
{
    if hauls.len() == 0 {
        Seq::empty()
    } else {
        all_labelled(hauls.drop_last()) + labelled(
            hauls.last().queue.outlets,
            hauls.last().left.outlets,
        )
    }
}

/// Whether a batch came out of a lane.
pub open spec fn of_lane(k: int) -> spec_fn((int, BatchView)) -> bool {
    |b: (int, BatchView)| b.0 == k
}

proof fn lemma_label_filter(j: int, batches: Seq<BatchView>, k: int)
    ensures
        with_label(j, batches).filter(of_lane(k)) == (if j == k {
            with_label(j, batches)
        } else {
            Seq::empty()
        }),
    decreases batches.len(),
{
    reveal(Seq::filter);
    let all = with_label(j, batches);
    if batches.len() == 0 {
        assert(all.filter(of_lane(k)) =~= Seq::empty());
    } else {
        lemma_label_filter(j, batches.drop_last(), k);
        assert(all.drop_last() =~= with_label(j, batches.drop_last()));
        assert(all.drop_last().push(all.last()) =~= all);
    }
}

proof fn lemma_labelled(before: Seq<Outlet>, after: Seq<Outlet>, k: int)
    requires
        before.len() == after.len(),
    ensures
        without_labels(labelled(before, after)) == drained(before, after),
        without_labels(labelled(before, after).filter(of_lane(k))) == (if 0 <= k < before.len() {
            came_out(before[k], after[k])
        } else {
            Seq::empty()
        }),
    decreases before.len(),
{
    if before.len() == 0 {
        reveal(Seq::filter);
        assert(without_labels(labelled(before, after)) =~= Seq::empty());
        assert(labelled(before, after).filter(of_lane(k)) =~= Seq::empty());
    } else {
        let a = before.drop_last();
        let b = after.drop_last();
        let n = before.len() - 1;
        let own = came_out(before[n], after[n]);
        lemma_labelled(a, b, k);
        lemma_label_filter(n, own, k);
        Seq::filter_distributes_over_add(labelled(a, b), with_label(n, own), of_lane(k));
        assert(without_labels(labelled(before, after)) =~= drained(a, b) + own);
        let filtered = labelled(before, after).filter(of_lane(k));
        assert(filtered == labelled(a, b).filter(of_lane(k)) + with_label(n, own).filter(
            of_lane(k),
        ));
        if k == n {
            assert(labelled(a, b).filter(of_lane(k)).len() == without_labels(
                labelled(a, b).filter(of_lane(k)),
            ).len());
            assert(without_labels(filtered) =~= own);
        } else {
            assert(without_labels(filtered) =~= without_labels(labelled(a, b).filter(of_lane(k))));
            if 0 <= k < n {
                assert(a[k] == before[k] && b[k] == after[k]);
            }
        }
    }
}

/// Whether what has come out of some lanes is what went into them first.
spec fn within(outlets: Seq<Outlet>) -> bool {
    forall|k: int| 0 <= k < outlets.len() ==> (#[trigger] outlets[k]).taken <= outlets[k].lane.len()
}

proof fn lemma_stays_within(hauls: Seq<Haul>)
    requires
        are_hauls(hauls),
        starts_fresh(hauls),
    ensures
        within(hauls.last().queue.outlets),
        within(hauls.last().left.outlets),
        in_turn(hauls.last().queue.outlets, hauls.last().left.outlets),
    decreases hauls.len(),
{
    let last = hauls.last();
    assert(hauls[hauls.len() - 1] == last);
    if hauls.len() > 1 {
        lemma_shorter_run(hauls);
        lemma_stays_within(hauls.drop_last());
        let left = hauls.drop_last().last().left.outlets;
        assert forall|k: int| 0 <= k < last.queue.outlets.len() implies (
        #[trigger] last.queue.outlets[k]).taken <= last.queue.outlets[k].lane.len() by {
            if k < left.len() {
                assert(last.queue.outlets[k] == left[k]);
            }
        }
    }
    assert forall|k: int| 0 <= k < last.left.outlets.len() implies (
    #[trigger] last.left.outlets[k]).taken <= last.left.outlets[k].lane.len() by {
        assert(has_advanced(last.queue.outlets[k], last.left.outlets[k]));
    }
}

/// The batches of each thread leave the queue in the order the thread sent them, and
/// each of them once: those that have come from its lane in a run are the first that
/// went into it.
pub proof fn each_lane_keeps_its_order(hauls: Seq<Haul>, k: int)
    requires
        are_hauls(hauls),
        starts_fresh(hauls),
    ensures
        without_labels(all_labelled(hauls)) == hauled(hauls),
        without_labels(all_labelled(hauls).filter(of_lane(k))) == (if 0 <= k
            < hauls.last().left.outlets.len() {
            let lane = hauls.last().left.outlets[k];
            lane.lane.take(lane.taken as int)
        } else {
            Seq::empty()
        }),
    decreases hauls.len(),
{
    let last = hauls.last();
    let rest = hauls.drop_last();
    let own = labelled(last.queue.outlets, last.left.outlets);
    lemma_stays_within(hauls);
    lemma_labelled(last.queue.outlets, last.left.outlets, k);
    Seq::filter_distributes_over_add(all_labelled(rest), own, of_lane(k));
    let before = all_labelled(rest).filter(of_lane(k));
    let after = all_labelled(hauls).filter(of_lane(k));
    assert(after == before + own.filter(of_lane(k)));
    assert(without_labels(after) =~= without_labels(before) + without_labels(
        own.filter(of_lane(k)),
    ));
    assert(without_labels(all_labelled(hauls)) =~= without_labels(all_labelled(rest))
        + without_labels(own));
    if hauls.len() == 1 {
        reveal(Seq::filter);
        assert(all_labelled(rest) =~= Seq::empty());
        assert(before =~= Seq::empty());
        assert(without_labels(before) =~= Seq::empty());
        assert(hauled(rest) =~= Seq::empty());
    } else {
        lemma_shorter_run(hauls);
        each_lane_keeps_its_order(rest, k);
    }
    if 0 <= k < last.left.outlets.len() {
        let a = last.queue.outlets[k];
        let b = last.left.outlets[k];
        assert(has_advanced(a, b));
        assert(without_labels(before) =~= a.lane.take(a.taken as int));
        assert(a.lane.take(a.taken as int) + came_out(a, b) =~= b.lane.take(b.taken as int));
    }
}

/// How many events have come out of some lanes.
pub open spec fn total_taken(outlets: Seq<Outlet>) -> nat
    decreases outlets.len(),
{
    if outlets.len() == 0 {
        0
    } else {
        total_taken(outlets.drop_last()) + total_events(
            outlets.last().lane.take(outlets.last().taken as int),
        )
    }
}

proof fn lemma_taken_advances(before: Seq<Outlet>, after: Seq<Outlet>)
    requires
        before.len() == after.len(),
        within(before),
        forall|k: int| 0 <= k < before.len() ==> has_advanced(#[trigger] before[k], after[k]),
    ensures
        total_taken(after) == total_taken(before) + total_events(drained(before, after)),
    decreases before.len(),
{
    if before.len() > 0 {
        let a = before.drop_last();
        let b = after.drop_last();
        assert forall|k: int| 0 <= k < a.len() implies has_advanced(#[trigger] a[k], b[k]) by {
            assert(has_advanced(before[k], after[k]));
        }
        assert forall|k: int| 0 <= k < a.len() implies (#[trigger] a[k]).taken
            <= a[k].lane.len() by {
            assert(before[k].taken <= before[k].lane.len());
        }
        lemma_taken_advances(a, b);
        let x = before.last();
        let y = after.last();
        let n = before.len() - 1;
        assert(has_advanced(before[n], after[n]));
        assert(before[n].taken <= before[n].lane.len());
        lemma_events_add(x.lane.take(x.taken as int), came_out(x, y));
        assert(x.lane.take(x.taken as int) + came_out(x, y) =~= y.lane.take(y.taken as int));
        lemma_events_add(drained(a, b), came_out(x, y));
    }
}

proof fn lemma_joining_takes_nothing(a: Seq<Outlet>, b: Seq<Outlet>)
    requires
        only_joined(a, b),
    ensures
        total_taken(b) == total_taken(a),
    decreases b.len(),
{
    if a.len() == b.len() {
        assert(a =~= b);
    } else {
        lemma_joining_takes_nothing(a, b.drop_last());
        assert(b.last().lane.take(0) =~= Seq::empty());
    }
}

/// Every event that has come out of any lane has come to the serializer, and no other
/// has.
pub proof fn what_is_hauled_is_what_came_out(hauls: Seq<Haul>)
    requires
        are_hauls(hauls),
        starts_fresh(hauls),
    ensures
        total_events(hauled(hauls)) == total_taken(hauls.last().left.outlets),
    decreases hauls.len(),
{
    let last = hauls.last();
    let rest = hauls.drop_last();
    lemma_stays_within(hauls);
    lemma_taken_advances(last.queue.outlets, last.left.outlets);
    lemma_events_add(hauled(rest), drained(last.queue.outlets, last.left.outlets));
    if hauls.len() == 1 {
        assert(hauled(rest) =~= Seq::empty());
        lemma_joining_takes_nothing(Seq::empty(), last.queue.outlets);
    } else {
        lemma_shorter_run(hauls);
        what_is_hauled_is_what_came_out(rest);
        lemma_joining_takes_nothing(rest.last().left.outlets, last.queue.outlets);
    }
}

/// One step of a writer, and what it was told of the serializer.
pub struct Writing {
    pub before: WriterView,
    pub serializer_finished: bool,
    pub after: WriterView,
    pub onto: Onto,
}

/// Whether these are steps of one writer, one after the other.
pub open spec fn are_writings(steps: Seq<Writing>, clock: Clock) -> bool {
    &&& steps.len() > 0
    &&& forall|i: int|
        0 <= i < steps.len() ==> wrote_on(
            (#[trigger] steps[i]).before,
            clock,
            steps[i].serializer_finished,
            steps[i].after,
            steps[i].onto,
        )
    &&& forall|i: int, j: int|
        0 <= i && j == i + 1 && j < steps.len() ==> (#[trigger] steps[j]).before == (
        #[trigger] steps[i]).after
}

/// Whether a writer has taken in nothing, and holds whatever memory can.
pub open spec fn is_new(w: WriterView) -> bool {
    &&& w.way.taken == 0
    &&& w.held.batches.len() == 0
    &&& w.held.capacity == usize::MAX
    &&& !w.ending
}

/// Whether what a writer holds at a time never takes more bytes than can be counted.
pub open spec fn fit_in_memory(steps: Seq<Writing>) -> bool {
    forall|i: int|
        0 <= i < steps.len() ==> total_bytes(
            (#[trigger] steps[i]).before.held.batches + came_out(
                steps[i].before.way,
                steps[i].after.way,
            ),
        ) <= usize::MAX
}

/// All events that a writer has handed out to be written in a run.
pub open spec fn pages(steps: Seq<Writing>) -> Seq<Event>
    decreases steps.len(),
{
    if steps.len() == 0 {
        Seq::empty()
    } else if steps.last().onto is Write {
        pages(steps.drop_last()) + steps.last().after.page
    } else {
        pages(steps.drop_last())
    }
}

proof fn lemma_shorter_writing(steps: Seq<Writing>, clock: Clock)
    requires
        are_writings(steps, clock),
    ensures
        wrote_on(
            steps.last().before,
            clock,
            steps.last().serializer_finished,
            steps.last().after,
            steps.last().onto,
        ),
        steps.len() > 1 ==> are_writings(steps.drop_last(), clock) && steps.last().before
            == steps.drop_last().last().after,
        fit_in_memory(steps) ==> fit_in_memory(steps.drop_last()),
{
    let rest = steps.drop_last();
    let n = rest.len() as int;
    assert(steps[n] == steps.last());
    if steps.len() > 1 {
        assert(steps[n].before == steps[n - 1].after);
    }
    assert forall|i: int| 0 <= i < rest.len() implies wrote_on(
        (#[trigger] rest[i]).before,
        clock,
        rest[i].serializer_finished,
        rest[i].after,
        rest[i].onto,
    ) by {
        assert(steps[i] == rest[i]);
    }
    assert forall|i: int, j: int| 0 <= i && j == i + 1 && j < rest.len() implies (
    #[trigger] rest[j]).before == (#[trigger] rest[i]).after by {
        assert(steps[j].before == steps[i].after);
    }
    if fit_in_memory(steps) {
        assert forall|i: int| 0 <= i < rest.len() implies total_bytes(
            (#[trigger] rest[i]).before.held.batches + came_out(rest[i].before.way, rest[i].after.way),
        ) <= usize::MAX by {
            assert(steps[i] == rest[i]);
        }
    }
}

proof fn lemma_nothing_let_go(ring: RingView, batches: Seq<BatchView>)
    requires
        ring.capacity == usize::MAX,
        total_bytes(ring.batches + batches) <= usize::MAX,
    ensures
        pushed_all(ring, batches) == (RingView { batches: ring.batches + batches, ..ring }),
    decreases batches.len(),
{
    if batches.len() == 0 {
        assert(ring.batches + batches =~= ring.batches);
    } else {
        let rest = batches.drop_last();
        lemma_push_bytes(ring.batches + rest, batches.last());
        assert((ring.batches + rest).push(batches.last()) =~= ring.batches + batches);
        lemma_nothing_let_go(ring, rest);
        a_ring_that_fits_keeps_everything(
            RingView { batches: ring.batches + batches, ..ring },
        );
    }
}

proof fn lemma_decoded_add(clock: Clock, a: Seq<BatchView>, b: Seq<BatchView>)
    ensures
        decoded_batches(clock, a + b) == decoded_batches(clock, a) + decoded_batches(clock, b),
    decreases b.len(),
{
    if b.len() == 0 {
        assert(a + b =~= a);
        assert(decoded_batches(clock, a) + Seq::<Event>::empty() =~= decoded_batches(clock, a));
    } else {
        lemma_decoded_add(clock, a, b.drop_last());
        assert((a + b).drop_last() =~= a + b.drop_last());
        assert(decoded_batches(clock, a + b) =~= decoded_batches(clock, a) + decoded_batches(
            clock,
            b,
        ));
    }
}

proof fn lemma_first_page(clock: Clock, batches: Seq<BatchView>)
    requires
        batches.len() > 0,
    ensures
        decoded_batches(clock, batches) == decoded_batch(clock, batches[0]) + decoded_batches(
            clock,
            batches.skip(1),
        ),
{
    let first = seq![batches[0]];
    lemma_decoded_add(clock, first, batches.skip(1));
    assert(first + batches.skip(1) =~= batches);
    assert(first.drop_last() =~= Seq::empty());
    assert(decoded_batches(clock, Seq::empty()) =~= Seq::<Event>::empty());
    assert(decoded_batches(clock, first) =~= decoded_batch(clock, batches[0]));
}

/// What a writer has handed out to be written, and then what it still holds, is what
/// has come out of the lane, in that order: nothing is left out and nothing is
/// written twice. When it finishes it holds nothing.
pub proof fn what_is_written_is_what_came_out(steps: Seq<Writing>, clock: Clock)
    requires
        are_writings(steps, clock),
        is_new(steps[0].before),
        fit_in_memory(steps),
    ensures
        ({
            let w = steps.last().after;
            &&& w.way.taken <= w.way.lane.len()
            &&& w.way.lane == steps[0].before.way.lane
            &&& w.held.capacity == usize::MAX
            &&& pages(steps) + decoded_batches(clock, w.held.batches) == decoded_batches(
                clock,
                w.way.lane.take(w.way.taken as int),
            )
            &&& steps.last().onto is Finish ==> w.held.batches.len() == 0 && pages(steps)
                == decoded_batches(clock, w.way.lane.take(w.way.taken as int))
        }),
    decreases steps.len(),
{
    let rest = steps.drop_last();
    let last = steps.last();
    let a = last.before;
    let b = last.after;
    let own = came_out(a.way, b.way);
    lemma_shorter_writing(steps, clock);
    if steps.len() > 1 {
        what_is_written_is_what_came_out(rest, clock);
        assert(rest[0] == steps[0]);
    } else {
        assert(pages(rest) =~= Seq::empty());
        assert(a.way.lane.take(0) =~= Seq::empty());
        assert(a.held.batches =~= Seq::empty());
        assert(decoded_batches(clock, Seq::empty()) =~= Seq::<Event>::empty());
        assert(Seq::<Event>::empty() + Seq::<Event>::empty() =~= Seq::<Event>::empty());
    }
    assert(steps[steps.len() - 1] == last);
    lemma_nothing_let_go(a.held, own);
    let held = a.held.batches + own;
    lemma_decoded_add(clock, a.held.batches, own);
    lemma_decoded_add(clock, a.way.lane.take(a.way.taken as int), own);
    assert(a.way.lane.take(a.way.taken as int) + own =~= b.way.lane.take(b.way.taken as int));
    let before = pages(rest);
    let all = decoded_batches(clock, b.way.lane.take(b.way.taken as int));
    assert(before + decoded_batches(clock, held) =~= all);
    if last.onto is Write {
        lemma_first_page(clock, held);
        assert(pages(steps) + decoded_batches(clock, held.skip(1)) =~= before + decoded_batches(
            clock,
            held,
        ));
    } else {
        assert(b.held.batches == held);
        if last.onto is Finish {
            assert(held =~= Seq::empty());
            assert(before + Seq::<Event>::empty() =~= before);
        }
    }
}

/// A writer ends only once it has been told that the serializer has finished.
pub proof fn a_writer_waits_for_the_serializer(steps: Seq<Writing>, clock: Clock)
    requires
        are_writings(steps, clock),
        !steps[0].before.ending,
        steps.last().after.ending,
    ensures
        exists|i: int| 0 <= i < steps.len() && (#[trigger] steps[i]).serializer_finished,
    decreases steps.len(),
{
    let last = steps.last();
    lemma_shorter_writing(steps, clock);
    if last.before.ending {
        let rest = steps.drop_last();
        a_writer_waits_for_the_serializer(rest, clock);
        let i = choose|i: int| 0 <= i < rest.len() && (#[trigger] rest[i]).serializer_finished;
        assert(steps[i].serializer_finished);
    } else {
        assert(steps[steps.len() - 1].serializer_finished);
    }
}

/// Once a writer has finished, nothing more is taken in or written.
pub proof fn nothing_is_written_after_the_end(steps: Seq<Writing>, clock: Clock, i: int, j: int)
    requires
        are_writings(steps, clock),
        0 <= i <= j < steps.len(),
        steps[i].onto is Finish,
    ensures
        steps[j].onto is Finish,
        steps[j].after.way == steps[i].after.way,
        steps[j].after.ending,
        steps[j].after.held.batches.len() == 0,
    decreases j,
{
    assert(wrote_on(
        steps[j].before,
        clock,
        steps[j].serializer_finished,
        steps[j].after,
        steps[j].onto,
    ));
    if i < j {
        nothing_is_written_after_the_end(steps, clock, i, j - 1);
        assert(steps[j].before == steps[j - 1].after);
        let own = came_out(steps[j].before.way, steps[j].after.way);
        assert(own =~= Seq::empty());
    }
}

/// How many events some threads have recorded and not lost.
pub open spec fn total_recorded(threads: Seq<(Hot, Cold)>) -> nat
    decreases threads.len(),
{
    if threads.len() == 0 {
        0
    } else {
        total_recorded(threads.drop_last()) + recorded(threads.last().0, threads.last().1).len()
    }
}

/// Whether all that some threads have recorded has gone down their lanes and come out.
pub open spec fn all_came_out(threads: Seq<(Hot, Cold)>, outlets: Seq<Outlet>) -> bool {
    &&& threads.len() == outlets.len()
    &&& forall|k: int|
        0 <= k < threads.len() ==> {
            &&& (#[trigger] threads[k]).0.cursor == 0
            &&& way_of(threads[k].1).lane == outlets[k].lane
            &&& way_of(threads[k].1).sent == outlets[k].taken
        }
}

proof fn lemma_recorded_is_taken(threads: Seq<(Hot, Cold)>, outlets: Seq<Outlet>)
    requires
        all_came_out(threads, outlets),
    ensures
        total_recorded(threads) == total_taken(outlets),
    decreases threads.len(),
{
    if threads.len() > 0 {
        let n = threads.len() - 1;
        let a = threads.drop_last();
        let b = outlets.drop_last();
        assert forall|k: int| 0 <= k < a.len() implies (#[trigger] a[k]).0.cursor == 0 && way_of(
            a[k].1,
        ).lane == b[k].lane && way_of(a[k].1).sent == b[k].taken by {
            assert(threads[k] == a[k]);
        }
        lemma_recorded_is_taken(a, b);
        let hot = threads[n].0;
        let cold = threads[n].1;
        lemma_readings_len(outlets[n].lane.take(outlets[n].taken as int));
        assert(marks(open_batch(hot, cold)).len() == 0);
    }
}

/// Over a whole run nothing is lost uncounted: once all that the threads have
/// recorded has come out of the queue, and all that the serializer has sent on has
/// come out at the writer, the events that were written and those that the serializer
/// counted as lost are as many as the threads recorded. What a thread lost before is
/// in the queue's own count, and is told to the exporter with them.
pub proof fn written_and_lost_is_all_there_was(
    hauls: Seq<Haul>,
    steps: Seq<Writing>,
    clock: Clock,
    threads: Seq<(Hot, Cold)>,
)
    requires
        are_hauls(hauls),
        starts_fresh(hauls),
        hauls[0].before.way.sent == 0,
        hauls[0].before.lost == 0,
        total_events(hauled(hauls)) <= u64::MAX,
        are_writings(steps, clock),
        is_new(steps[0].before),
        fit_in_memory(steps),
        steps.last().onto is Finish,
        steps[0].before.way.lane == hauls[0].before.way.lane,
        steps.last().after.way.taken == hauls.last().after.way.sent,
        all_came_out(threads, hauls.last().left.outlets),
    ensures
        pages(steps).len() + hauls.last().after.lost == total_recorded(threads),
{
    let start = hauls[0].before.way;
    let end = hauls.last().after.way;
    all_that_is_hauled_is_offered(hauls);
    events_go_on_or_are_counted(start, end, hauled(hauls), 0, hauls.last().after.lost);
    what_is_hauled_is_what_came_out(hauls);
    lemma_recorded_is_taken(threads, hauls.last().left.outlets);
    what_is_written_is_what_came_out(steps, clock);
    assert(end.lane.subrange(0, end.sent as int) =~= end.lane.take(end.sent as int));
    lemma_decoded_len(clock, end.lane.take(end.sent as int));
}

/// Something that a thread does about a queue: it records an event, or sends off its
/// open batch and has the events counted that were lost with it.
pub struct Deed {
    /// Which of the threads it is.
    pub k: int,
    pub queue: QueueView,
    /// The event, where one is recorded.
    pub what: Option<Taking>,
    pub after: (Hot, Cold),
    pub left: QueueView,
}

/// Whether a thread has sent off its open batch, and the queue has been told how many
/// events were lost with it.
pub open spec fn sent_off(before: (Hot, Cold), deed: Deed, lost: u64) -> bool {
    &&& flushed(before.0, before.1, deed.after.0, deed.after.1, lost)
    &&& deed.left == (QueueView { dropped: low64(deed.queue.dropped + lost), ..deed.queue })
}

/// Whether a thread in some state has done something.
pub open spec fn did(before: (Hot, Cold), deed: Deed) -> bool {
    match deed.what {
        Some(what) => {
            &&& what.run == deed.queue.id
            &&& took(
                before.0,
                before.1,
                deed.queue,
                what,
                deed.after.0,
                deed.after.1,
                deed.left,
            )
        },
        None => {
            &&& before.1.producer is Some ==> queue_of(before.1) == deed.queue.id
            &&& exists|lost: u64| sent_off(before, deed, lost)
        },
    }
}

/// Some threads after what they have done.
pub open spec fn threads_after(start: Seq<(Hot, Cold)>, deeds: Seq<Deed>) -> Seq<(Hot, Cold)>
    decreases deeds.len(),
{
    if deeds.len() == 0 {
        start
    } else {
        threads_after(start, deeds.drop_last()).update(deeds.last().k, deeds.last().after)
    }
}

/// Whether this is what some threads have done about one queue, one after the other.
pub open spec fn are_deeds(start: Seq<(Hot, Cold)>, deeds: Seq<Deed>, id: u64) -> bool
    decreases deeds.len(),
{
    deeds.len() > 0 ==> {
        let rest = deeds.drop_last();
        let last = deeds.last();
        &&& are_deeds(start, rest, id)
        &&& 0 <= last.k < start.len()
        &&& last.queue.id == id
        &&& did(threads_after(start, rest)[last.k], last)
        &&& rest.len() > 0 ==> last.queue.dropped == rest.last().left.dropped
    }
}

/// How many events have been recorded.
pub open spec fn pushes(deeds: Seq<Deed>) -> nat
    decreases deeds.len(),
{
    if deeds.len() == 0 {
        0
    } else if deeds.last().what is Some {
        pushes(deeds.drop_last()) + 1
    } else {
        pushes(deeds.drop_last())
    }
}

/// How many events a thread has recorded for a queue and not lost.
pub open spec fn told(thread: (Hot, Cold), id: u64) -> nat {
    if is_stale(thread.1, id) {
        0
    } else {
        recorded(thread.0, thread.1).len()
    }
}

/// How many events some threads have recorded for a queue and not lost.
pub open spec fn total_told(threads: Seq<(Hot, Cold)>, id: u64) -> nat
    decreases threads.len(),
{
    if threads.len() == 0 {
        0
    } else {
        total_told(threads.drop_last(), id) + told(threads.last(), id)
    }
}

/// Whether a thread's state is sound, and speaks of a queue only where the thread is
/// connected to it.
pub open spec fn is_ready(thread: (Hot, Cold), id: u64) -> bool {
    &&& fits(thread.0, thread.1)
    &&& thread.0.queue_id == id ==> !is_stale(thread.1, id)
}

/// Whether that holds of all of some threads.
pub open spec fn are_ready(threads: Seq<(Hot, Cold)>, id: u64) -> bool {
    forall|k: int| 0 <= k < threads.len() ==> is_ready(#[trigger] threads[k], id)
}

proof fn lemma_told_update(threads: Seq<(Hot, Cold)>, k: int, thread: (Hot, Cold), id: u64)
    requires
        0 <= k < threads.len(),
    ensures
        total_told(threads.update(k, thread), id) + told(threads[k], id) == total_told(threads, id)
            + told(thread, id),
        told(threads[k], id) <= total_told(threads, id),
    decreases threads.len(),
{
    let rest = threads.drop_last();
    let changed = threads.update(k, thread);
    if k < rest.len() {
        lemma_told_update(rest, k, thread, id);
        assert(changed.drop_last() =~= rest.update(k, thread));
    } else {
        assert(changed.drop_last() =~= rest);
    }
}

proof fn lemma_deed(before: (Hot, Cold), deed: Deed)
    requires
        is_ready(before, deed.queue.id),
        did(before, deed),
        deed.queue.dropped + told(before, deed.queue.id) <= u64::MAX,
    ensures
        is_ready(deed.after, deed.queue.id),
        told(deed.after, deed.queue.id) + deed.left.dropped == told(before, deed.queue.id)
            + deed.queue.dropped + (if deed.what is Some {
            1int
        } else {
            0int
        }),
{
    let id = deed.queue.id;
    let open = open_batch(before.0, before.1);
    let now = open_batch(deed.after.0, deed.after.1);
    assert(marks(open).len() == open.events.len());
    assert(marks(now).len() == now.events.len());
    if !is_stale(before.1, id) {
        assert(open.events.len() == before.0.cursor);
    }
    match deed.what {
        Some(what) => {
            if is_stale(before.1, id) {
                let lane = way_of(deed.after.1).lane;
                assert(lane.take(0) =~= Seq::empty());
                lemma_readings_len(lane.take(0));
            }
        },
        None => {
            let lost = choose|lost: u64| sent_off(before, deed, lost);
            assert(flushed(before.0, before.1, deed.after.0, deed.after.1, lost));
        },
    }
}

/// Every event that is recorded is still to be found, in a thread's open batch or on
/// its lane, or has been counted as lost.
pub proof fn every_push_is_kept_or_counted(start: Seq<(Hot, Cold)>, deeds: Seq<Deed>, id: u64)
    requires
        deeds.len() > 0,
        are_deeds(start, deeds, id),
        are_ready(start, id),
        deeds[0].queue.dropped + total_told(start, id) + pushes(deeds) <= u64::MAX,
    ensures
        threads_after(start, deeds).len() == start.len(),
        are_ready(threads_after(start, deeds), id),
        total_told(threads_after(start, deeds), id) + deeds.last().left.dropped == total_told(
            start,
            id,
        ) + deeds[0].queue.dropped + pushes(deeds),
    decreases deeds.len(),
{
    let rest = deeds.drop_last();
    let last = deeds.last();
    let threads = threads_after(start, rest);
    if rest.len() > 0 {
        assert(rest[0] == deeds[0]);
        every_push_is_kept_or_counted(start, rest, id);
    } else {
        assert(pushes(rest) == 0);
        assert(threads == start);
    }
    lemma_told_update(threads, last.k, last.after, id);
    lemma_deed(threads[last.k], last);
}

/// Over a whole run every event that the threads have recorded is written, or is among
/// the events that the exporter is told were lost: at the threads or before the
/// writer. That is once all that was not lost has come out of the queue and at the
/// writer.
pub proof fn all_that_is_recorded_is_written_or_counted(
    start: Seq<(Hot, Cold)>,
    deeds: Seq<Deed>,
    hauls: Seq<Haul>,
    steps: Seq<Writing>,
    clock: Clock,
)
    requires
        deeds.len() > 0,
        are_hauls(hauls),
        are_writings(steps, clock),
        are_deeds(start, deeds, hauls[0].queue.id),
        are_ready(start, hauls[0].queue.id),
        total_told(start, hauls[0].queue.id) == 0,
        deeds[0].queue.dropped == 0,
        pushes(deeds) <= u64::MAX,
        starts_fresh(hauls),
        hauls[0].before.way.sent == 0,
        hauls[0].before.lost == 0,
        hauls.last().left.dropped == deeds.last().left.dropped,
        is_new(steps[0].before),
        fit_in_memory(steps),
        steps.last().onto is Finish,
        steps[0].before.way.lane == hauls[0].before.way.lane,
        steps.last().after.way.taken == hauls.last().after.way.sent,
        all_came_out(threads_after(start, deeds), hauls.last().left.outlets),
        forall|k: int|
            0 <= k < threads_after(start, deeds).len() ==> !is_stale(
                (#[trigger] threads_after(start, deeds)[k]).1,
                hauls[0].queue.id,
            ),
    ensures
        pages(steps).len() + low64(hauls.last().left.dropped + hauls.last().after.lost) == pushes(
            deeds,
        ),
{
    let id = hauls[0].queue.id;
    let threads = threads_after(start, deeds);
    every_push_is_kept_or_counted(start, deeds, id);
    lemma_told_is_recorded(threads, id);
    what_is_hauled_is_what_came_out(hauls);
    lemma_recorded_is_taken(threads, hauls.last().left.outlets);
    written_and_lost_is_all_there_was(hauls, steps, clock, threads);
}

proof fn lemma_told_is_recorded(threads: Seq<(Hot, Cold)>, id: u64)
    requires
        forall|k: int| 0 <= k < threads.len() ==> !is_stale((#[trigger] threads[k]).1, id),
    ensures
        total_told(threads, id) == total_recorded(threads),
    decreases threads.len(),
{
    if threads.len() > 0 {
        let rest = threads.drop_last();
        assert forall|k: int| 0 <= k < rest.len() implies !is_stale((#[trigger] rest[k]).1, id) by {
            assert(threads[k] == rest[k]);
        }
        lemma_told_is_recorded(rest, id);
        assert(!is_stale(threads[threads.len() - 1].1, id));
    }
}

} // verus!
