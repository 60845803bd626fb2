//! What a reader finds in a stream of packets that was written batch by batch.

use crate::event::{code_of_word, kind_of_word, opens, Event};
use crate::messages::{
    field_bytes, fields_of, lemma_one_field, message, messages_concatenate, messages_read_back,
    Field, Value,
};
use crate::proto::{
    a_batch_is_whole_packets, batch_packets, dropped_packet, dropped_text, event_packet,
    lemma_place_stays, name_iid, name_of, name_packet, pid_chars, process_packet, process_uuid,
    signed_tid, slot_of_process, thread_packet, track_uuid, ProtoExporter, ProtoView, Stream,
};
use crate::sink::{CodeLookup, Exporter, ThreadNames};
use crate::text::{digit_chars, utf8};
use crate::wire::{frame, framed, streams_read_back, two_complement, unframed};
use vstd::prelude::*;

verus! {

/// A batch as an exporter is given it, with what is known of code objects and
/// threads by then.
pub struct Given<C, T> {
    pub events: Seq<Event>,
    pub codes: C,
    pub threads: T,
}

/// What one packet says.
pub enum Piece {
    Process,
    Thread { tid: u32, called: Option<Seq<char>> },
    Name { id: u32, text: Seq<char> },
    Event { ev: Event },
}

/// The keys of a list, and those of another one that it does not hold, each once and
/// in the order in which it is met.
pub open spec fn listed(keys: Seq<u64>, more: Seq<u64>) -> Seq<u64>
    decreases more.len(),
{
    if more.len() == 0 {
        keys
    } else {
        let before = listed(keys, more.drop_last());
        if before.contains(more.last()) {
            before
        } else {
            before.push(more.last())
        }
    }
}

/// Some keys in the order in which they are first met.
pub open spec fn first_seen(keys: Seq<u64>) -> Seq<u64> {
    listed(Seq::empty(), keys)
}

/// The threads of some events.
pub open spec fn tids_of(events: Seq<Event>) -> Seq<u64> {
    Seq::new(events.len(), |i: int| events[i].tid as u64)
}

/// The code objects of those events that open a slice.
pub open spec fn names_used(events: Seq<Event>) -> Seq<u64>
    decreases events.len(),
{
    if events.len() == 0 {
        Seq::empty()
    } else if opens(kind_of_word(events.last().code_kind)) {
        names_used(events.drop_last()).push(code_of_word(events.last().code_kind) as u64)
    } else {
        names_used(events.drop_last())
    }
}

/// The events of all batches, one behind the other.
pub open spec fn all_events<C, T>(batches: Seq<Given<C, T>>) -> Seq<Event>
    decreases batches.len(),
{
    if batches.len() == 0 {
        Seq::empty()
    } else {
        all_events(batches.drop_last()) + batches.last().events
    }
}

/// What describes and interns, for one event: its thread, and the name by which it
/// opens a slice, where these are not in two lists yet.
pub open spec fn event_heads<C: CodeLookup, T: ThreadNames>(
    tracks: Seq<u64>,
    names: Seq<u64>,
    ev: Event,
    codes: C,
    threads: T,
) -> Seq<Piece> {
    let named = threads.named();
    let id = code_of_word(ev.code_kind);
    let thread = if tracks.contains(ev.tid as u64) {
        Seq::empty()
    } else if named.contains_key(ev.tid) {
        seq![Piece::Thread { tid: ev.tid, called: Some(named[ev.tid]) }]
    } else {
        seq![Piece::Thread { tid: ev.tid, called: None }]
    };
    let name = if !opens(kind_of_word(ev.code_kind)) || names.contains(id as u64) {
        Seq::empty()
    } else {
        seq![Piece::Name { id, text: name_of(codes.resolved(id)) }]
    };
    thread + name
}

/// What describes and interns, for some events: a thread before its first event, and
/// a name before the first event that opens a slice by it.
pub open spec fn head_pieces<C: CodeLookup, T: ThreadNames>(
    tracks: Seq<u64>,
    names: Seq<u64>,
    events: Seq<Event>,
    codes: C,
    threads: T,
) -> Seq<Piece>
    decreases events.len(),
{
    if events.len() == 0 {
        Seq::empty()
    } else {
        let rest = events.drop_last();
        head_pieces(tracks, names, rest, codes, threads) + event_heads(
            listed(tracks, tids_of(rest)),
            listed(names, names_used(rest)),
            events.last(),
            codes,
            threads,
        )
    }
}

/// The events of a batch, one packet each.
pub open spec fn event_pieces(events: Seq<Event>) -> Seq<Piece> {
    Seq::new(events.len(), |i: int| Piece::Event { ev: events[i] })
}

/// What some batches come to: the process, and then for each batch what describes
/// and interns, and its events.
pub open spec fn pieces<C: CodeLookup, T: ThreadNames>(batches: Seq<Given<C, T>>) -> Seq<Piece>
    decreases batches.len(),
{
    if batches.len() == 0 {
        Seq::empty()
    } else {
        let rest = batches.drop_last();
        let b = batches.last();
        let opening = if rest.len() == 0 {
            seq![Piece::Process]
        } else {
            Seq::empty()
        };
        pieces(rest) + opening + head_pieces(
            first_seen(tids_of(all_events(rest))),
            first_seen(names_used(all_events(rest))),
            b.events,
            b.codes,
            b.threads,
        ) + event_pieces(b.events)
    }
}

/// The packet that says something, where threads and names have the numbers of their
/// places in two lists.
pub open spec fn packet_of(
    pid: i32,
    slot: u32,
    tracks: Seq<u64>,
    names: Seq<u64>,
    piece: Piece,
) -> Seq<u8> {
    match piece {
        Piece::Process => process_packet(pid, slot),
        Piece::Thread { tid, called } => thread_packet(
            pid,
            slot,
            track_uuid(slot, tracks.index_of(tid as u64)),
            tid,
            called,
        ),
        Piece::Name { id, text } => name_packet(slot, name_iid(names.index_of(id as u64)), text),
        Piece::Event { ev } => event_packet(
            slot,
            ev.ts_ns,
            track_uuid(slot, tracks.index_of(ev.tid as u64)),
            if opens(kind_of_word(ev.code_kind)) {
                Some(name_iid(names.index_of(code_of_word(ev.code_kind) as u64)))
            } else {
                None
            },
        ),
    }
}

/// The packets that say some things.
pub open spec fn packets_of(
    pid: i32,
    slot: u32,
    tracks: Seq<u64>,
    names: Seq<u64>,
    all: Seq<Piece>,
) -> Seq<Seq<u8>> {
    Seq::new(all.len(), |i: int| packet_of(pid, slot, tracks, names, all[i]))
}

/// What an exporter has come to after some batches.
pub open spec fn after_batches<C: CodeLookup, T: ThreadNames>(
    v: ProtoView,
    batches: Seq<Given<C, T>>,
) -> ProtoView
    decreases batches.len(),
{
    if batches.len() == 0 {
        v
    } else {
        let b = batches.last();
        after_batches(v, batches.drop_last()).with_batch(b.events, b.codes, b.threads)
    }
}

/// Whether an exporter has not written anything yet.
pub open spec fn is_fresh(v: ProtoView) -> bool {
    &&& v.out.len() == 0
    &&& !v.started
    &&& v.tracks.len() == 0
    &&& v.names.len() == 0
}

/// Whether a piece speaks only of threads and names that are in two lists.
spec fn known(tracks: Seq<u64>, names: Seq<u64>, piece: Piece) -> bool {
    match piece {
        Piece::Process => true,
        Piece::Thread { tid, called } => tracks.contains(tid as u64),
        Piece::Name { id, text } => names.contains(id as u64),
        Piece::Event { ev } => tracks.contains(ev.tid as u64) && (opens(kind_of_word(ev.code_kind))
            ==> names.contains(code_of_word(ev.code_kind) as u64)),
    }
}

spec fn all_known(tracks: Seq<u64>, names: Seq<u64>, all: Seq<Piece>) -> bool {
    forall|i: int| 0 <= i < all.len() ==> known(tracks, names, #[trigger] all[i])
}

proof fn lemma_listed(keys: Seq<u64>, more: Seq<u64>)
    ensures
        keys.is_prefix_of(listed(keys, more)),
        keys.no_duplicates() ==> listed(keys, more).no_duplicates(),
        forall|k: u64| more.contains(k) ==> #[trigger] listed(keys, more).contains(k),
        forall|k: u64| keys.contains(k) ==> #[trigger] listed(keys, more).contains(k),
    decreases more.len(),
{
    let all = listed(keys, more);
    if more.len() > 0 {
        let rest = more.drop_last();
        let before = listed(keys, rest);
        lemma_listed(keys, rest);
        assert(all.contains(more.last())) by {
            if !before.contains(more.last()) {
                assert(all[before.len() as int] == more.last());
            }
        }
        assert forall|k: u64| before.contains(k) implies #[trigger] all.contains(k) by {
            let i = before.index_of(k);
            assert(all[i] == k);
        }
        assert forall|k: u64| more.contains(k) implies #[trigger] all.contains(k) by {
            let i = more.index_of(k);
            if i < rest.len() {
                assert(rest[i] == k);
                assert(before.contains(k));
            }
        }
    }
}

proof fn lemma_listed_add(keys: Seq<u64>, a: Seq<u64>, b: Seq<u64>)
    ensures
        listed(keys, a + b) == listed(listed(keys, a), b),
    decreases b.len(),
{
    if b.len() == 0 {
        assert(a + b =~= a);
    } else {
        lemma_listed_add(keys, a, b.drop_last());
        assert((a + b).drop_last() =~= a + b.drop_last());
    }
}

proof fn lemma_names_used_add(a: Seq<Event>, b: Seq<Event>)
    ensures
        names_used(a + b) == names_used(a) + names_used(b),
    decreases b.len(),
{
    if b.len() == 0 {
        assert(a + b =~= a);
        assert(names_used(a) + Seq::<u64>::empty() =~= names_used(a));
    } else {
        lemma_names_used_add(a, b.drop_last());
        assert((a + b).drop_last() =~= a + b.drop_last());
        assert(names_used(a + b) =~= names_used(a) + names_used(b));
    }
}

proof fn lemma_prefix_place(short: Seq<u64>, long: Seq<u64>, key: u64)
    requires
        short.is_prefix_of(long),
        long.no_duplicates(),
        short.contains(key),
    ensures
        long.contains(key),
        long.index_of(key) == short.index_of(key),
{
    let i = short.index_of(key);
    assert(short[i] == key);
    assert(long[i] == short[i]);
}

proof fn lemma_packets_stay(
    pid: i32,
    slot: u32,
    tracks: Seq<u64>,
    names: Seq<u64>,
    later_tracks: Seq<u64>,
    later_names: Seq<u64>,
    all: Seq<Piece>,
)
    requires
        all_known(tracks, names, all),
        tracks.is_prefix_of(later_tracks),
        names.is_prefix_of(later_names),
        later_tracks.no_duplicates(),
        later_names.no_duplicates(),
    ensures
        all_known(later_tracks, later_names, all),
        packets_of(pid, slot, later_tracks, later_names, all) == packets_of(
            pid,
            slot,
            tracks,
            names,
            all,
        ),
{
    assert forall|i: int| 0 <= i < all.len() implies known(
        later_tracks,
        later_names,
        #[trigger] all[i],
    ) && packet_of(pid, slot, later_tracks, later_names, all[i]) == packet_of(
        pid,
        slot,
        tracks,
        names,
        all[i],
    ) by {
        assert(known(tracks, names, all[i]));
        match all[i] {
            Piece::Process => {},
            Piece::Thread { tid, called } => {
                lemma_prefix_place(tracks, later_tracks, tid as u64);
            },
            Piece::Name { id, text } => {
                lemma_prefix_place(names, later_names, id as u64);
            },
            Piece::Event { ev } => {
                lemma_prefix_place(tracks, later_tracks, ev.tid as u64);
                if opens(kind_of_word(ev.code_kind)) {
                    lemma_prefix_place(names, later_names, code_of_word(ev.code_kind) as u64);
                }
            },
        }
    }
    assert(packets_of(pid, slot, later_tracks, later_names, all) =~= packets_of(
        pid,
        slot,
        tracks,
        names,
        all,
    ));
}

proof fn lemma_packets_add(
    pid: i32,
    slot: u32,
    tracks: Seq<u64>,
    names: Seq<u64>,
    a: Seq<Piece>,
    b: Seq<Piece>,
)
    ensures
        packets_of(pid, slot, tracks, names, a + b) == packets_of(pid, slot, tracks, names, a)
            + packets_of(pid, slot, tracks, names, b),
{
    assert(packets_of(pid, slot, tracks, names, a + b) =~= packets_of(pid, slot, tracks, names, a)
        + packets_of(pid, slot, tracks, names, b));
}

proof fn lemma_known_add(tracks: Seq<u64>, names: Seq<u64>, a: Seq<Piece>, b: Seq<Piece>)
    requires
        all_known(tracks, names, a),
        all_known(tracks, names, b),
    ensures
        all_known(tracks, names, a + b),
{
    assert forall|i: int| 0 <= i < (a + b).len() implies known(
        tracks,
        names,
        #[trigger] (a + b)[i],
    ) by {
        if i < a.len() {
            assert((a + b)[i] == a[i]);
        } else {
            assert((a + b)[i] == b[i - a.len()]);
        }
    }
}

proof fn lemma_event<C: CodeLookup, T: ThreadNames>(
    s: Stream,
    pid: i32,
    slot: u32,
    ev: Event,
    codes: C,
    threads: T,
)
    requires
        s.tracks.no_duplicates(),
        s.names.no_duplicates(),
    ensures
        ({
            let after = s.with_event(pid, slot, ev, codes, threads);
            let heads = event_heads(s.tracks, s.names, ev, codes, threads);
            let id = code_of_word(ev.code_kind) as u64;
            &&& after.tracks == listed(s.tracks, seq![ev.tid as u64])
            &&& after.names == (if opens(kind_of_word(ev.code_kind)) {
                listed(s.names, seq![id])
            } else {
                s.names
            })
            &&& after.tracks.no_duplicates()
            &&& after.names.no_duplicates()
            &&& s.tracks.is_prefix_of(after.tracks)
            &&& s.names.is_prefix_of(after.names)
            &&& all_known(after.tracks, after.names, heads)
            &&& after.heads == s.heads + packets_of(pid, slot, after.tracks, after.names, heads)
            &&& known(after.tracks, after.names, Piece::Event { ev })
            &&& after.events == s.events.push(
                packet_of(pid, slot, after.tracks, after.names, Piece::Event { ev }),
            )
        }),
{
    let after = s.with_event(pid, slot, ev, codes, threads);
    let heads = event_heads(s.tracks, s.names, ev, codes, threads);
    let tid = ev.tid as u64;
    let id = code_of_word(ev.code_kind) as u64;
    assert(seq![tid].drop_last() =~= Seq::empty());
    assert(seq![id].drop_last() =~= Seq::empty());
    reveal_with_fuel(listed, 2);
    if !s.tracks.contains(tid) {
        lemma_place_stays(s.tracks, tid, tid);
    }
    if !s.names.contains(id) {
        lemma_place_stays(s.names, id, id);
    }
    assert(after.heads =~= s.heads + packets_of(pid, slot, after.tracks, after.names, heads));
}

proof fn lemma_stream<C: CodeLookup, T: ThreadNames>(
    s: Stream,
    pid: i32,
    slot: u32,
    events: Seq<Event>,
    codes: C,
    threads: T,
)
    requires
        s.tracks.no_duplicates(),
        s.names.no_duplicates(),
        s.heads.len() == 0,
        s.events.len() == 0,
    ensures
        ({
            let after = s.with_events(pid, slot, events, codes, threads);
            let heads = head_pieces(s.tracks, s.names, events, codes, threads);
            let own = event_pieces(events);
            &&& after.tracks == listed(s.tracks, tids_of(events))
            &&& after.names == listed(s.names, names_used(events))
            &&& after.tracks.no_duplicates()
            &&& after.names.no_duplicates()
            &&& all_known(after.tracks, after.names, heads)
            &&& after.heads == packets_of(pid, slot, after.tracks, after.names, heads)
            &&& all_known(after.tracks, after.names, own)
            &&& after.events == packets_of(pid, slot, after.tracks, after.names, own)
        }),
    decreases events.len(),
{
    let after = s.with_events(pid, slot, events, codes, threads);
    let t = after.tracks;
    let n = after.names;
    if events.len() == 0 {
        assert(tids_of(events) =~= Seq::empty());
        assert(after.heads =~= packets_of(pid, slot, t, n, Seq::empty()));
        assert(after.events =~= packets_of(pid, slot, t, n, event_pieces(events)));
    } else {
        let rest = events.drop_last();
        let ev = events.last();
        let tid = ev.tid as u64;
        let id = code_of_word(ev.code_kind) as u64;
        let before = s.with_events(pid, slot, rest, codes, threads);
        let heads = head_pieces(s.tracks, s.names, rest, codes, threads);
        let own = event_pieces(rest);
        lemma_stream(s, pid, slot, rest, codes, threads);
        lemma_event(before, pid, slot, ev, codes, threads);
        assert(tids_of(events) =~= tids_of(rest) + seq![tid]);
        lemma_listed_add(s.tracks, tids_of(rest), seq![tid]);
        assert(names_used(rest).push(id) =~= names_used(rest) + seq![id]);
        lemma_listed_add(s.names, names_used(rest), seq![id]);
        lemma_packets_stay(pid, slot, before.tracks, before.names, t, n, heads);
        lemma_packets_stay(pid, slot, before.tracks, before.names, t, n, own);
        let more = event_heads(before.tracks, before.names, ev, codes, threads);
        lemma_known_add(t, n, heads, more);
        lemma_packets_add(pid, slot, t, n, heads, more);
        let last = seq![Piece::Event { ev }];
        assert(event_pieces(events) =~= own + last);
        lemma_known_add(t, n, own, last);
        lemma_packets_add(pid, slot, t, n, own, last);
        assert(packets_of(pid, slot, t, n, last) =~= seq![packet_of(pid, slot, t, n, last[0])]);
        assert(after.events =~= packets_of(pid, slot, t, n, own + last));
    }
}

proof fn lemma_written<C: CodeLookup, T: ThreadNames>(v: ProtoView, batches: Seq<Given<C, T>>)
    requires
        is_fresh(v),
    ensures
        ({
            let after = after_batches(v, batches);
            &&& after.pid == v.pid
            &&& after.slot == v.slot
            &&& after.started == (batches.len() > 0)
            &&& after.tracks == first_seen(tids_of(all_events(batches)))
            &&& after.names == first_seen(names_used(all_events(batches)))
            &&& after.tracks.no_duplicates()
            &&& after.names.no_duplicates()
            &&& all_known(after.tracks, after.names, pieces(batches))
            &&& after.out == framed(
                packets_of(v.pid, v.slot, after.tracks, after.names, pieces(batches)),
            )
        }),
    decreases batches.len(),
{
    let after = after_batches(v, batches);
    let all = pieces(batches);
    if batches.len() == 0 {
        assert(after.out =~= framed(Seq::empty()));
        assert(packets_of(v.pid, v.slot, after.tracks, after.names, all) =~= Seq::empty());
        assert(tids_of(all_events(batches)) =~= Seq::empty());
        assert(after.tracks =~= Seq::empty());
        assert(after.names =~= Seq::empty());
    } else {
        let rest = batches.drop_last();
        let b = batches.last();
        let before = after_batches(v, rest);
        let old_events = all_events(rest);
        lemma_written(v, rest);
        let s = Stream {
            tracks: before.tracks,
            names: before.names,
            heads: Seq::empty(),
            events: Seq::empty(),
        };
        lemma_stream(s, v.pid, v.slot, b.events, b.codes, b.threads);
        assert(tids_of(old_events + b.events) =~= tids_of(old_events) + tids_of(b.events));
        lemma_listed_add(Seq::empty(), tids_of(old_events), tids_of(b.events));
        lemma_names_used_add(old_events, b.events);
        lemma_listed_add(Seq::empty(), names_used(old_events), names_used(b.events));
        lemma_listed(before.tracks, tids_of(b.events));
        lemma_listed(before.names, names_used(b.events));
        let opening = if rest.len() == 0 {
            seq![Piece::Process]
        } else {
            Seq::empty()
        };
        let heads = head_pieces(before.tracks, before.names, b.events, b.codes, b.threads);
        let events = event_pieces(b.events);
        let t = after.tracks;
        let n = after.names;
        lemma_packets_stay(v.pid, v.slot, before.tracks, before.names, t, n, pieces(rest));
        lemma_known_add(t, n, pieces(rest), opening);
        lemma_known_add(t, n, pieces(rest) + opening, heads);
        lemma_known_add(t, n, pieces(rest) + opening + heads, events);
        lemma_packets_add(v.pid, v.slot, t, n, pieces(rest), opening);
        lemma_packets_add(v.pid, v.slot, t, n, pieces(rest) + opening, heads);
        lemma_packets_add(v.pid, v.slot, t, n, pieces(rest) + opening + heads, events);
        let old_packets = packets_of(v.pid, v.slot, before.tracks, before.names, pieces(rest));
        a_batch_is_whole_packets(before, old_packets, b.events, b.codes, b.threads);
        assert(packets_of(v.pid, v.slot, t, n, opening) =~= before.opening());
        assert(packets_of(v.pid, v.slot, t, n, all) =~= old_packets + batch_packets(
            before,
            b.events,
            b.codes,
            b.threads,
        ));
    }
}

/// A reader of what was written finds whole packets: what the batches come to, one
/// piece in each. Threads and names have the numbers of their places among those
/// that were seen in all batches.
pub proof fn a_reader_finds_every_piece<C: CodeLookup, T: ThreadNames>(
    v: ProtoView,
    batches: Seq<Given<C, T>>,
)
    requires
        is_fresh(v),
    ensures
        ({
            let tracks = first_seen(tids_of(all_events(batches)));
            let names = first_seen(names_used(all_events(batches)));
            let packets = packets_of(v.pid, v.slot, tracks, names, pieces(batches));
            &&& after_batches(v, batches).out == framed(packets)
            &&& unframed(after_batches(v, batches).out) == Some(packets)
            &&& after_batches(v, batches).tracks == tracks
            &&& after_batches(v, batches).names == names
        }),
{
    lemma_written(v, batches);
    streams_read_back(
        packets_of(
            v.pid,
            v.slot,
            first_seen(tids_of(all_events(batches))),
            first_seen(names_used(all_events(batches))),
            pieces(batches),
        ),
    );
}

/// What some pieces hold of one sort, in order.
pub open spec fn picked<A>(all: Seq<Piece>, sort: spec_fn(Piece) -> Option<A>) -> Seq<A>
    decreases all.len(),
{
    if all.len() == 0 {
        Seq::empty()
    } else {
        match sort(all.last()) {
            Some(a) => picked(all.drop_last(), sort).push(a),
            None => picked(all.drop_last(), sort),
        }
    }
}

/// The event that a piece tells of.
pub open spec fn event_in() -> spec_fn(Piece) -> Option<Event> {
    |p: Piece|
        match p {
            Piece::Event { ev } => Some(ev),
            _ => None,
        }
}

/// The thread that a piece describes.
pub open spec fn thread_in() -> spec_fn(Piece) -> Option<u64> {
    |p: Piece|
        match p {
            Piece::Thread { tid, called } => Some(tid as u64),
            _ => None,
        }
}

/// The code object whose name a piece interns.
pub open spec fn name_in() -> spec_fn(Piece) -> Option<u64> {
    |p: Piece|
        match p {
            Piece::Name { id, text } => Some(id as u64),
            _ => None,
        }
}

proof fn lemma_picked_add<A>(a: Seq<Piece>, b: Seq<Piece>, sort: spec_fn(Piece) -> Option<A>)
    ensures
        picked(a + b, sort) == picked(a, sort) + picked(b, sort),
    decreases b.len(),
{
    if b.len() == 0 {
        assert(a + b =~= a);
        assert(picked(a, sort) + Seq::<A>::empty() =~= picked(a, sort));
    } else {
        lemma_picked_add(a, b.drop_last(), sort);
        assert((a + b).drop_last() =~= a + b.drop_last());
        assert(picked(a + b, sort) =~= picked(a, sort) + picked(b, sort));
    }
}

proof fn lemma_picked_from<A>(all: Seq<Piece>, sort: spec_fn(Piece) -> Option<A>, x: A)
    requires
        picked(all, sort).contains(x),
    ensures
        exists|i: int| 0 <= i < all.len() && sort(#[trigger] all[i]) == Some(x),
    decreases all.len(),
{
    if all.len() > 0 {
        let rest = all.drop_last();
        if sort(all.last()) == Some(x) {
            assert(sort(all[all.len() - 1]) == Some(x));
        } else {
            let i = picked(all, sort).index_of(x);
            assert(picked(rest, sort)[i] == x);
            lemma_picked_from(rest, sort, x);
            let j = choose|j: int| 0 <= j < rest.len() && sort(#[trigger] rest[j]) == Some(x);
            assert(sort(all[j]) == Some(x));
        }
    }
}

proof fn lemma_heads<C: CodeLookup, T: ThreadNames>(
    tracks: Seq<u64>,
    names: Seq<u64>,
    events: Seq<Event>,
    codes: C,
    threads: T,
)
    ensures
        ({
            let heads = head_pieces(tracks, names, events, codes, threads);
            &&& tracks + picked(heads, thread_in()) == listed(tracks, tids_of(events))
            &&& names + picked(heads, name_in()) == listed(names, names_used(events))
            &&& picked(heads, event_in()).len() == 0
            &&& forall|i: int|
                0 <= i < heads.len() ==> (#[trigger] heads[i]) is Thread || heads[i] is Name
        }),
    decreases events.len(),
{
    let heads = head_pieces(tracks, names, events, codes, threads);
    if events.len() == 0 {
        assert(tids_of(events) =~= Seq::empty());
        assert(tracks + picked(heads, thread_in()) =~= tracks);
        assert(names + picked(heads, name_in()) =~= names);
    } else {
        let rest = events.drop_last();
        let ev = events.last();
        let before = head_pieces(tracks, names, rest, codes, threads);
        let t = listed(tracks, tids_of(rest));
        let n = listed(names, names_used(rest));
        let more = event_heads(t, n, ev, codes, threads);
        lemma_heads(tracks, names, rest, codes, threads);
        lemma_picked_add(before, more, thread_in());
        lemma_picked_add(before, more, name_in());
        lemma_picked_add(before, more, event_in());
        assert(tids_of(events).drop_last() =~= tids_of(rest));
        let id = code_of_word(ev.code_kind) as u64;
        assert(names_used(rest).push(id).drop_last() =~= names_used(rest));
        reveal_with_fuel(picked, 3);
        assert(more.len() > 0 ==> more.drop_last().len() == more.len() - 1);
        assert(tracks + picked(heads, thread_in()) =~= listed(tracks, tids_of(events)));
        assert(names + picked(heads, name_in()) =~= listed(names, names_used(events)));
        assert forall|i: int| 0 <= i < heads.len() implies (#[trigger] heads[i]) is Thread
            || heads[i] is Name by {
            if i < before.len() {
                assert(heads[i] == before[i]);
            } else {
                assert(heads[i] == more[i - before.len()]);
            }
        }
    }
}

proof fn lemma_own(events: Seq<Event>)
    ensures
        picked(event_pieces(events), event_in()) == events,
        picked(event_pieces(events), thread_in()).len() == 0,
        picked(event_pieces(events), name_in()).len() == 0,
    decreases events.len(),
{
    if events.len() > 0 {
        lemma_own(events.drop_last());
        assert(event_pieces(events).drop_last() =~= event_pieces(events.drop_last()));
        assert(picked(event_pieces(events), event_in()) =~= events);
    } else {
        assert(picked(event_pieces(events), event_in()) =~= events);
    }
}

/// Whether the thread of an event at some place, and the name by which it opens a
/// slice, are told of at earlier places.
pub open spec fn told_before(all: Seq<Piece>, i: int) -> bool {
    all[i] matches Piece::Event { ev } ==> {
        &&& exists|j: int| 0 <= j < i && thread_in()(#[trigger] all[j]) == Some(ev.tid as u64)
        &&& opens(kind_of_word(ev.code_kind)) ==> exists|j: int|
            0 <= j < i && name_in()(#[trigger] all[j]) == Some(
                code_of_word(ev.code_kind) as u64,
            )
    }
}

/// What several batches come to: every event once and in order; the process once, at
/// the start; every thread described once and every name by which a slice opens
/// interned once, in the order in which they are first met, and before the first
/// event that needs them.
pub proof fn every_event_follows_what_it_needs<C: CodeLookup, T: ThreadNames>(
    batches: Seq<Given<C, T>>,
)
    ensures
        picked(pieces(batches), event_in()) == all_events(batches),
        picked(pieces(batches), thread_in()) == first_seen(tids_of(all_events(batches))),
        picked(pieces(batches), name_in()) == first_seen(names_used(all_events(batches))),
        first_seen(tids_of(all_events(batches))).no_duplicates(),
        first_seen(names_used(all_events(batches))).no_duplicates(),
        batches.len() > 0 ==> pieces(batches).len() > 0,
        forall|i: int|
            0 <= i < pieces(batches).len() ==> ((#[trigger] pieces(batches)[i]) is Process <==> i
                == 0),
        forall|i: int|
            0 <= i < pieces(batches).len() ==> #[trigger] told_before(pieces(batches), i),
    decreases batches.len(),
{
    let all = pieces(batches);
    lemma_listed(Seq::empty(), tids_of(all_events(batches)));
    lemma_listed(Seq::empty(), names_used(all_events(batches)));
    if batches.len() == 0 {
        assert(tids_of(all_events(batches)) =~= Seq::empty());
    } else {
        let rest = batches.drop_last();
        let b = batches.last();
        let old_events = all_events(rest);
        let before = pieces(rest);
        let tracks = first_seen(tids_of(old_events));
        let names = first_seen(names_used(old_events));
        let opening = if rest.len() == 0 {
            seq![Piece::Process]
        } else {
            Seq::empty()
        };
        let heads = head_pieces(tracks, names, b.events, b.codes, b.threads);
        let own = event_pieces(b.events);
        let front = before + opening + heads;
        every_event_follows_what_it_needs(rest);
        lemma_heads(tracks, names, b.events, b.codes, b.threads);
        lemma_own(b.events);
        assert(tids_of(old_events + b.events) =~= tids_of(old_events) + tids_of(b.events));
        lemma_listed_add(Seq::empty(), tids_of(old_events), tids_of(b.events));
        lemma_names_used_add(old_events, b.events);
        lemma_listed_add(Seq::empty(), names_used(old_events), names_used(b.events));
        lemma_parts(before, opening, heads, own, event_in());
        lemma_parts(before, opening, heads, own, thread_in());
        lemma_parts(before, opening, heads, own, name_in());
        assert(opening.len() == 0 || opening.drop_last() =~= Seq::empty());
        reveal_with_fuel(picked, 2);
        assert(picked(all, event_in()) =~= all_events(batches));
        assert(picked(front, thread_in()) =~= first_seen(tids_of(all_events(batches))));
        assert(picked(front, name_in()) =~= first_seen(names_used(all_events(batches))));
        assert(picked(all, thread_in()) =~= picked(front, thread_in()));
        assert(picked(all, name_in()) =~= picked(front, name_in()));
        assert forall|i: int| 0 <= i < all.len() implies ((#[trigger] all[i]) is Process <==> i
            == 0) by {
            if i < before.len() {
                assert(all[i] == before[i]);
            } else if before.len() + opening.len() <= i < front.len() {
                assert(all[i] == heads[i - before.len() - opening.len()]);
            } else if i >= front.len() {
                assert(all[i] == own[i - front.len()]);
            }
        }
        assert forall|k: int| 0 <= k < b.events.len() implies picked(
            front,
            thread_in(),
        ).contains((#[trigger] b.events[k]).tid as u64) by {
            assert(tids_of(b.events)[k] == b.events[k].tid as u64);
            lemma_listed(tracks, tids_of(b.events));
        }
        assert forall|k: int|
            0 <= k < b.events.len() && opens(
                kind_of_word((#[trigger] b.events[k]).code_kind),
            ) implies picked(front, name_in()).contains(
            code_of_word(b.events[k].code_kind) as u64,
        ) by {
            lemma_used(b.events, k);
            lemma_listed(names, names_used(b.events));
        }
        assert forall|i: int| before.len() <= i < front.len() implies !(
        (#[trigger] front[i]) is Event) by {
            if i >= before.len() + opening.len() {
                assert(front[i] == heads[i - before.len() - opening.len()]);
            }
        }
        assert(all =~= front + own);
        assert(before.is_prefix_of(front));
        assert forall|i: int| 0 <= i < all.len() implies #[trigger] told_before(all, i) by {
            lemma_told(before, front, b.events, i);
        }
    }
}

proof fn lemma_used(events: Seq<Event>, k: int)
    requires
        0 <= k < events.len(),
        opens(kind_of_word(events[k].code_kind)),
    ensures
        names_used(events).contains(code_of_word(events[k].code_kind) as u64),
    decreases events.len(),
{
    let rest = events.drop_last();
    let all = names_used(events);
    let id = code_of_word(events[k].code_kind) as u64;
    if k == rest.len() {
        assert(all[names_used(rest).len() as int] == id);
    } else {
        lemma_used(rest, k);
        let i = names_used(rest).index_of(id);
        assert(all[i] == id);
    }
}

proof fn lemma_told(before: Seq<Piece>, front: Seq<Piece>, events: Seq<Event>, i: int)
    requires
        before.is_prefix_of(front),
        forall|i: int| 0 <= i < before.len() ==> #[trigger] told_before(before, i),
        forall|i: int| before.len() <= i < front.len() ==> !((#[trigger] front[i]) is Event),
        forall|k: int|
            0 <= k < events.len() ==> picked(front, thread_in()).contains(
                (#[trigger] events[k]).tid as u64,
            ),
        forall|k: int|
            0 <= k < events.len() && opens(kind_of_word((#[trigger] events[k]).code_kind))
                ==> picked(front, name_in()).contains(code_of_word(events[k].code_kind) as u64),
        0 <= i < front.len() + events.len(),
    ensures
        told_before(front + event_pieces(events), i),
{
    let all = front + event_pieces(events);
    if all[i] is Event {
        let ev = all[i]->ev;
        let tid = ev.tid as u64;
        let id = code_of_word(ev.code_kind) as u64;
        if i < before.len() {
            assert(before[i] == front[i]);
            assert(told_before(before, i));
            let j = choose|j: int| 0 <= j < i && thread_in()(#[trigger] before[j]) == Some(tid);
            assert(all[j] == before[j]);
            if opens(kind_of_word(ev.code_kind)) {
                let j = choose|j: int| 0 <= j < i && name_in()(#[trigger] before[j]) == Some(id);
                assert(all[j] == before[j]);
            }
        } else {
            assert(i >= front.len()) by {
                if i < front.len() {
                    assert(all[i] == front[i]);
                }
            }
            assert(events[i - front.len()] == ev);
            lemma_picked_from(front, thread_in(), tid);
            let j = choose|j: int|
                0 <= j < front.len() && thread_in()(#[trigger] front[j]) == Some(tid);
            assert(all[j] == front[j]);
            if opens(kind_of_word(ev.code_kind)) {
                lemma_picked_from(front, name_in(), id);
                let j = choose|j: int|
                    0 <= j < front.len() && name_in()(#[trigger] front[j]) == Some(id);
                assert(all[j] == front[j]);
            }
        }
    }
}

proof fn lemma_parts<A>(
    before: Seq<Piece>,
    opening: Seq<Piece>,
    heads: Seq<Piece>,
    own: Seq<Piece>,
    sort: spec_fn(Piece) -> Option<A>,
)
    ensures
        picked(before + opening + heads, sort) == picked(before, sort) + picked(opening, sort)
            + picked(heads, sort),
        picked(before + opening + heads + own, sort) == picked(before, sort) + picked(
            opening,
            sort,
        ) + picked(heads, sort) + picked(own, sort),
{
    lemma_picked_add(before, opening, sort);
    lemma_picked_add(before + opening, heads, sort);
    lemma_picked_add(before + opening + heads, own, sort);
}

/// What has been written can be taken out at any time: the rest of the stream is the
/// same.
pub proof fn taking_the_output_does_not_show<C: CodeLookup, T: ThreadNames>(
    v: ProtoView,
    b: Given<C, T>,
)
    ensures
        ({
            let emptied = ProtoView { out: Seq::empty(), ..v };
            let whole = v.with_batch(b.events, b.codes, b.threads);
            let part = emptied.with_batch(b.events, b.codes, b.threads);
            whole == (ProtoView { out: v.out + part.out, ..part })
        }),
{
    let emptied = ProtoView { out: Seq::empty(), ..v };
    let whole = v.with_batch(b.events, b.codes, b.threads);
    let part = emptied.with_batch(b.events, b.codes, b.threads);
    assert(emptied.stream(b.events, b.codes, b.threads) == v.stream(
        b.events,
        b.codes,
        b.threads,
    ));
    assert(whole.out =~= v.out + part.out);
}

/// The threads of a process that has its file to itself are numbered from two, in the
/// order in which they are first met, and the names from one.
pub proof fn numbers_follow_the_order(place: int)
    requires
        0 <= place <= u32::MAX,
    ensures
        track_uuid(0, place) == 2 + place,
        process_uuid(0) == 1,
        name_iid(place) == 1 + place,
{
}

/// A field that holds a number.
pub open spec fn number(tag: nat, v: int) -> Field {
    Field { tag, value: Value::Number(v as nat) }
}

/// A field that holds bytes.
pub open spec fn bytes(tag: nat, b: Seq<u8>) -> Field {
    Field { tag, value: Value::Bytes(b) }
}

proof fn lemma_one_more(fields: Seq<Field>, f: Field)
    ensures
        message(fields.push(f)) == message(fields) + field_bytes(f),
{
    messages_concatenate(fields, seq![f]);
    lemma_one_field(f);
    assert(fields.push(f) =~= fields + seq![f]);
}

proof fn lemma_two(a: Field, b: Field)
    ensures
        message(seq![a, b]) == field_bytes(a) + field_bytes(b),
        fields_of(field_bytes(a) + field_bytes(b)) == Some(seq![a, b]),
{
    lemma_one_field(a);
    lemma_one_more(seq![a], b);
    assert(seq![a].push(b) =~= seq![a, b]);
    messages_read_back(seq![a, b]);
}

proof fn lemma_three(a: Field, b: Field, c: Field)
    ensures
        message(seq![a, b, c]) == field_bytes(a) + field_bytes(b) + field_bytes(c),
        fields_of(field_bytes(a) + field_bytes(b) + field_bytes(c)) == Some(seq![a, b, c]),
{
    lemma_two(a, b);
    lemma_one_more(seq![a, b], c);
    assert(seq![a, b].push(c) =~= seq![a, b, c]);
    messages_read_back(seq![a, b, c]);
}

proof fn lemma_four(a: Field, b: Field, c: Field, d: Field)
    ensures
        message(seq![a, b, c, d]) == field_bytes(a) + field_bytes(b) + field_bytes(c)
            + field_bytes(d),
        fields_of(field_bytes(a) + field_bytes(b) + field_bytes(c) + field_bytes(d)) == Some(
            seq![a, b, c, d],
        ),
{
    lemma_three(a, b, c);
    lemma_one_more(seq![a, b, c], d);
    assert(seq![a, b, c].push(d) =~= seq![a, b, c, d]);
    messages_read_back(seq![a, b, c, d]);
}

proof fn lemma_five(a: Field, b: Field, c: Field, d: Field, e: Field)
    ensures
        message(seq![a, b, c, d, e]) == field_bytes(a) + field_bytes(b) + field_bytes(c)
            + field_bytes(d) + field_bytes(e),
        fields_of(
            field_bytes(a) + field_bytes(b) + field_bytes(c) + field_bytes(d) + field_bytes(e),
        ) == Some(seq![a, b, c, d, e]),
{
    lemma_four(a, b, c, d);
    lemma_one_more(seq![a, b, c, d], e);
    assert(seq![a, b, c, d].push(e) =~= seq![a, b, c, d, e]);
    messages_read_back(seq![a, b, c, d, e]);
}

/// What a reader finds in the packet of an event: its time to the nanosecond, the
/// sequence of its process, the track of its thread and, where it opens a slice, the one
/// category and the number of its name. What closes a slice names nothing.
pub proof fn the_packet_of_an_event(
    pid: i32,
    slot: u32,
    tracks: Seq<u64>,
    names: Seq<u64>,
    ev: Event,
)
    ensures
        fields_of(packet_of(pid, slot, tracks, names, Piece::Event { ev })) matches Some(f) && {
            let track = (slot * 0x1_0000_0000 + 2 + tracks.index_of(ev.tid as u64))
                % 0x1_0000_0000_0000_0000;
            let name = (1 + names.index_of((ev.code_kind % 0x100_0000) as u64))
                % 0x1_0000_0000_0000_0000;
            &&& f.len() == 4
            &&& f[0] == number(8, ev.ts_ns as int)
            &&& f[1] == number(10, slot + 1)
            &&& f[2] == number(13, 2)
            &&& f[3].tag == 11
            &&& f[3].value matches Value::Bytes(body) && if opens(kind_of_word(ev.code_kind)) {
                fields_of(body) == Some(
                    seq![number(9, 1), number(11, track), number(3, 1), number(10, name)],
                )
            } else {
                fields_of(body) == Some(seq![number(9, 2), number(11, track)])
            }
        },
{
    let uuid = track_uuid(slot, tracks.index_of(ev.tid as u64));
    let iid = name_iid(names.index_of(code_of_word(ev.code_kind) as u64));
    let begin = number(9, 1);
    let end = number(9, 2);
    let on = number(11, uuid as int);
    let category = number(3, 1);
    let called = number(10, iid as int);
    lemma_four(begin, on, category, called);
    lemma_two(end, on);
    let body = if opens(kind_of_word(ev.code_kind)) {
        assert(field_bytes(begin) + field_bytes(on) + (field_bytes(category) + field_bytes(called))
            =~= field_bytes(begin) + field_bytes(on) + field_bytes(category) + field_bytes(called));
        field_bytes(begin) + field_bytes(on) + field_bytes(category) + field_bytes(called)
    } else {
        assert(field_bytes(end) + field_bytes(on) + Seq::<u8>::empty() =~= field_bytes(end)
            + field_bytes(on));
        field_bytes(end) + field_bytes(on)
    };
    lemma_four(number(8, ev.ts_ns as int), number(10, slot + 1), number(13, 2), bytes(11, body));
}

/// What a reader finds in the packet that describes a thread: the track, the process and
/// the thread that it is of, what the thread is called where that is known, and the track
/// of the process above it.
pub proof fn the_packet_of_a_thread(
    pid: i32,
    slot: u32,
    tracks: Seq<u64>,
    names: Seq<u64>,
    tid: u32,
    called: Option<Seq<char>>,
)
    ensures
        fields_of(
            packet_of(pid, slot, tracks, names, Piece::Thread { tid, called }),
        ) matches Some(f) && {
            let track = (slot * 0x1_0000_0000 + 2 + tracks.index_of(tid as u64))
                % 0x1_0000_0000_0000_0000;
            &&& f.len() == 3
            &&& f[0] == number(8, 0)
            &&& f[1] == number(10, slot + 1)
            &&& f[2].tag == 60
            &&& f[2].value matches Value::Bytes(body) && fields_of(body) matches Some(g) && {
                &&& g.len() == 3
                &&& g[0] == number(1, track)
                &&& g[1].tag == 4
                &&& g[1].value matches Value::Bytes(of) && fields_of(of) matches Some(h) && {
                    &&& h.len() == (if called is Some {
                        3int
                    } else {
                        2int
                    })
                    &&& h[0] == number(1, (pid as int) % 0x1_0000_0000_0000_0000)
                    &&& tid < 0x8000_0000 ==> h[1] == number(2, tid as int)
                    &&& tid >= 0x8000_0000 ==> h[1] == number(
                        2,
                        tid + 0xFFFF_FFFF_0000_0000,
                    )
                    &&& called matches Some(name) ==> h[2] == bytes(5, utf8(name))
                }
                &&& g[2] == number(5, slot * 0x1_0000_0000 + 1)
            }
        },
{
    let uuid = track_uuid(slot, tracks.index_of(tid as u64));
    let p = number(1, two_complement(pid as int) as int);
    let t = number(2, two_complement(signed_tid(tid)) as int);
    lemma_two(p, t);
    let of = match called {
        Some(name) => {
            lemma_three(p, t, bytes(5, utf8(name)));
            field_bytes(p) + field_bytes(t) + field_bytes(bytes(5, utf8(name)))
        },
        None => {
            assert(field_bytes(p) + field_bytes(t) + Seq::<u8>::empty() =~= field_bytes(p)
                + field_bytes(t));
            field_bytes(p) + field_bytes(t)
        },
    };
    let a = number(1, uuid as int);
    let b = bytes(4, of);
    let c = number(5, process_uuid(slot) as int);
    lemma_three(a, b, c);
    let body = field_bytes(a) + field_bytes(b) + field_bytes(c);
    lemma_three(number(8, 0), number(10, slot + 1), bytes(60, body));
}

/// What a reader finds in the packet that interns a name: the number that events say it
/// by, and the name.
pub proof fn the_packet_of_a_name(
    pid: i32,
    slot: u32,
    tracks: Seq<u64>,
    names: Seq<u64>,
    id: u32,
    text: Seq<char>,
)
    ensures
        fields_of(packet_of(pid, slot, tracks, names, Piece::Name { id, text })) matches Some(f)
            && {
            let name = (1 + names.index_of(id as u64)) % 0x1_0000_0000_0000_0000;
            &&& f.len() == 4
            &&& f[0] == number(8, 0)
            &&& f[1] == number(10, slot + 1)
            &&& f[2].tag == 12
            &&& f[2].value matches Value::Bytes(body) && fields_of(body) matches Some(g) && {
                &&& g.len() == 1
                &&& g[0].tag == 2
                &&& g[0].value matches Value::Bytes(of) && fields_of(of) == Some(
                    seq![number(1, name), bytes(2, utf8(text))],
                )
            }
            &&& f[3] == number(13, 2)
        },
{
    let iid = name_iid(names.index_of(id as u64));
    let a = number(1, iid as int);
    let b = bytes(2, utf8(text));
    lemma_two(a, b);
    let of = field_bytes(a) + field_bytes(b);
    lemma_one_field(bytes(2, of));
    messages_read_back(seq![bytes(2, of)]);
    lemma_four(
        number(8, 0),
        number(10, slot + 1),
        bytes(12, field_bytes(bytes(2, of))),
        number(13, 2),
    );
}

/// What a reader finds in the packet that opens the stream of a process: its track, what
/// it is called, its number, the one category, and that what is interned starts here.
pub proof fn the_packet_of_a_process(pid: i32, slot: u32, tracks: Seq<u64>, names: Seq<u64>)
    ensures
        fields_of(packet_of(pid, slot, tracks, names, Piece::Process)) matches Some(f) && {
            &&& f.len() == 5
            &&& f[0] == number(8, 0)
            &&& f[1] == number(10, slot + 1)
            &&& f[2].tag == 60
            &&& f[2].value matches Value::Bytes(body) && fields_of(body) matches Some(g) && {
                &&& g.len() == 3
                &&& g[0] == number(1, slot * 0x1_0000_0000 + 1)
                &&& pid >= 0 ==> g[1] == bytes(2, utf8("python:"@ + digit_chars(pid as nat)))
                &&& pid < 0 ==> g[1] == bytes(
                    2,
                    utf8("python:"@ + ("-"@ + digit_chars((-pid) as nat))),
                )
                &&& g[2].tag == 3
                &&& g[2].value matches Value::Bytes(of) && fields_of(of) == Some(
                    seq![
                        number(1, (pid as int) % 0x1_0000_0000_0000_0000),
                        bytes(6, utf8("python"@)),
                    ],
                )
            }
            &&& f[3].tag == 12
            &&& f[3].value matches Value::Bytes(body) && fields_of(body) matches Some(g) && {
                &&& g.len() == 1
                &&& g[0].tag == 1
                &&& g[0].value matches Value::Bytes(of) && fields_of(of) == Some(
                    seq![number(1, 1), bytes(2, utf8("py"@))],
                )
            }
            &&& f[4] == number(13, 1)
        },
{
    let a = number(1, two_complement(pid as int) as int);
    let b = bytes(6, utf8("python"@));
    lemma_two(a, b);
    let c = number(1, process_uuid(slot) as int);
    let d = bytes(2, utf8("python:"@ + pid_chars(pid)));
    let e = bytes(3, field_bytes(a) + field_bytes(b));
    lemma_three(c, d, e);
    let track = field_bytes(c) + field_bytes(d) + field_bytes(e);
    let g = number(1, 1);
    let h = bytes(2, utf8("py"@));
    lemma_two(g, h);
    let category = bytes(1, field_bytes(g) + field_bytes(h));
    lemma_one_field(category);
    messages_read_back(seq![category]);
    lemma_five(
        number(8, 0),
        number(10, slot + 1),
        bytes(60, track),
        bytes(12, field_bytes(category)),
        number(13, 1),
    );
}

/// What a reader finds in the packet that tells of lost events: it stands for itself on
/// the track of the process, and says how many there were.
pub proof fn the_packet_of_lost_events(slot: u32, dropped: u64)
    ensures
        fields_of(dropped_packet(slot, dropped)) matches Some(f) && {
            &&& f.len() == 3
            &&& f[0] == number(8, 0)
            &&& f[1] == number(10, slot + 1)
            &&& f[2].tag == 11
            &&& f[2].value matches Value::Bytes(body) && fields_of(body) == Some(
                seq![
                    number(9, 3),
                    number(11, slot * 0x1_0000_0000 + 1),
                    bytes(22, utf8("py"@)),
                    bytes(22, utf8("dropped"@)),
                    bytes(
                        23,
                        utf8("trace0: "@ + digit_chars(dropped as nat) + " events dropped"@),
                    ),
                ],
            )
        },
{
    let a = number(9, 3);
    let b = number(11, process_uuid(slot) as int);
    let c = bytes(22, utf8("py"@));
    let d = bytes(22, utf8("dropped"@));
    let e = bytes(23, utf8(dropped_text(dropped)));
    lemma_five(a, b, c, d, e);
    let body = field_bytes(a) + field_bytes(b) + field_bytes(c) + field_bytes(d) + field_bytes(e);
    lemma_three(number(8, 0), number(10, slot + 1), bytes(11, body));
}

/// A thread is described before its first event and not again, under the name it has, to
/// the letter, where it has one. A name is told before the first event that opens a slice by
/// it and not again, as the code object has it, and one that is not known under a name that
/// says so.
pub proof fn a_name_is_that_of_the_code_object<C: CodeLookup, T: ThreadNames>(
    tracks: Seq<u64>,
    names: Seq<u64>,
    ev: Event,
    codes: C,
    threads: T,
)
    ensures
        ({
            let id = (ev.code_kind % 0x100_0000) as u32;
            let heads = event_heads(tracks, names, ev, codes, threads);
            let described = !tracks.contains(ev.tid as u64);
            let told = opens(kind_of_word(ev.code_kind)) && !names.contains(id as u64);
            &&& heads.len() == (if described {
                1int
            } else {
                0int
            }) + (if told {
                1int
            } else {
                0int
            })
            &&& described && threads.named().contains_key(ev.tid) ==> heads[0] == (Piece::Thread {
                tid: ev.tid,
                called: Some(threads.named()[ev.tid]),
            })
            &&& described && !threads.named().contains_key(ev.tid) ==> heads[0] == (Piece::Thread {
                tid: ev.tid,
                called: None,
            })
            &&& told ==> (codes.resolved(id) matches Some(c) ==> heads.last() == (Piece::Name {
                id,
                text: c.qualname,
            }))
            &&& told && codes.resolved(id) is None ==> heads.last() == (Piece::Name {
                id,
                text: "<unknown>"@,
            })
        }),
{
}

/// The end of a trace adds a packet that tells of lost events where there are any, behind
/// that of the process where it was not there yet, and nothing where there are none.
pub proof fn the_end_of_a_stream_tells_of_lost_events(v: ProtoView, dropped: u64)
    ensures
        dropped == 0 ==> v.finished(dropped) == v,
        dropped > 0 && v.started ==> v.finished(dropped).out == v.out + framed(
            seq![dropped_packet(v.slot, dropped)],
        ),
        dropped > 0 && !v.started ==> v.finished(dropped).out == v.out + framed(
            seq![process_packet(v.pid, v.slot), dropped_packet(v.slot, dropped)],
        ),
{
    let p = process_packet(v.pid, v.slot);
    let q = dropped_packet(v.slot, dropped);
    reveal_with_fuel(framed, 3);
    assert(seq![p, q].drop_last() =~= seq![p]);
    assert(seq![p].drop_last() =~= Seq::empty());
    assert(seq![q].drop_last() =~= Seq::empty());
    if dropped > 0 {
        assert(Seq::<u8>::empty() + frame(q) =~= frame(q));
        assert(v.out + framed(v.opening()) + frame(q) =~= v.out + (framed(v.opening()) + frame(q)));
        assert(framed(seq![q]) =~= Seq::<u8>::empty() + frame(q));
        if v.started {
            assert(v.out + Seq::<u8>::empty() =~= v.out);
        }
    }
}

/// A new stream of a process has nothing in it, and is that of the process; the slot is
/// that of the process where it adds to the file of another.
pub proof fn a_new_stream_is_empty(
    pid: i32,
    ex: ProtoExporter,
    child: bool,
    number: u32,
    slot: u32,
)
    requires
        call_ensures(ProtoExporter::create, (pid,), ex),
        call_ensures(slot_of_process, (child, number), slot),
    ensures
        is_fresh(ex@),
        ex@.pid == pid,
        ex@.slot == 0,
        child ==> slot == number,
        !child ==> slot == 0,
{
}

/// No two tracks of one process are the same, nor are those of two processes, and none is
/// that of a process itself.
pub proof fn tracks_differ(slot: u32, place: int, other_slot: u32, other_place: int)
    requires
        0 <= place < 0xFFFF_FFFE,
        0 <= other_place < 0xFFFF_FFFE,
    ensures
        track_uuid(slot, place) == track_uuid(other_slot, other_place) <==> slot == other_slot
            && place == other_place,
        track_uuid(slot, place) != process_uuid(other_slot),
        process_uuid(slot) == process_uuid(other_slot) <==> slot == other_slot,
{
}

/// A stream is that of the process and the slot that it is given.
pub proof fn a_stream_is_of_its_process(
    ex: ProtoExporter,
    pid: i32,
    slot: u32,
    renumbered: ProtoExporter,
    moved: ProtoExporter,
)
    requires
        ex.wf(),
        is_fresh(ex@),
        slot < u32::MAX,
        call_ensures(ProtoExporter::with_pid, (ex, pid), renumbered),
        call_ensures(ProtoExporter::with_slot, (ex, slot), moved),
    ensures
        renumbered@.pid == pid,
        renumbered@.slot == ex@.slot,
        moved@.slot == slot,
        moved@.pid == ex@.pid,
        is_fresh(renumbered@),
        is_fresh(moved@),
{
}

} // verus!
