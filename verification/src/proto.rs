//! Traces as Perfetto's protobuf packets.

use crate::clock::low64;
use crate::event::{code_of_word, kind_of_word, opens, Event, CODE_ID_MAX};
use crate::idmap::Index;
use crate::sink::{CodeLookup, CodeView, Exporter, ThreadNames};
use crate::text::{append_number, digit_chars, lemma_append, push_bytes, utf8};
use crate::wire::{
    bits_of, bytes_field, frame, framed, push_field, push_varint, put_number, put_string,
    streams_concatenate, streams_read_back, two_complement, unframed, varint_field,
};
use vstd::prelude::*;

verus! {

/// How a track event is told to begin a slice, to end one, or to stand for itself.
pub const SLICE_BEGIN: u64 = 1;

pub const SLICE_END: u64 = 2;

pub const INSTANT: u64 = 3;

/// Said once per stream: what is interned starts here.
pub const INCREMENTAL_STATE_CLEARED: u64 = 1;

/// Said of packets that make sense only with what was interned before them.
pub const NEEDS_INCREMENTAL_STATE: u64 = 2;

/// The id of the one category that every event has.
pub const CATEGORY_IID: u64 = 1;

/// The sequence that the packets of a process belong to.
pub open spec fn sequence_id(slot: u32) -> u64 {
    (slot + 1) as u64
}

/// The slot of a process: nothing for the one that the user launched, and its number
/// for one that adds to the file of another.
pub open spec fn slot_for(child: bool, pid: u32) -> u32 {
    if child {
        pid
    } else {
        0
    }
}

/// The slot of a process: nothing for the one that the user launched, and its number
/// for one that adds to the file of another.
pub fn slot_of_process(child: bool, pid: u32) -> (slot: u32)
    ensures
        slot == slot_for(child, pid),
{
    if child {
        pid
    } else {
        0
    }
}

/// The track of a process.
pub open spec fn process_uuid(slot: u32) -> u64 {
    (slot * 0x1_0000_0000 + 1) as u64
}

/// The track of the thread that was seen in a process as the one at `place`.
pub open spec fn track_uuid(slot: u32, place: int) -> u64 {
    low64(slot * 0x1_0000_0000 + 2 + place)
}

/// The id of the name that was seen as the one at `place`.
pub open spec fn name_iid(place: int) -> u64 {
    low64(place + 1)
}

/// A process id in decimal.
pub open spec fn pid_chars(pid: i32) -> Seq<char> {
    if pid < 0 {
        "-"@ + digit_chars((-pid) as nat)
    } else {
        digit_chars(pid as nat)
    }
}

/// A thread id as the signed number with its 32 bits.
pub open spec fn signed_tid(tid: u32) -> int {
    if tid < 0x8000_0000 {
        tid as int
    } else {
        tid - 0x1_0000_0000
    }
}

/// What every packet that is not an event starts with.
pub open spec fn preamble(slot: u32) -> Seq<u8> {
    varint_field(8, 0) + varint_field(10, sequence_id(slot))
}

/// The packet that describes a process, and starts the interning of its stream.
pub open spec fn process_packet(pid: i32, slot: u32) -> Seq<u8> {
    let process = varint_field(1, two_complement(pid as int)) + bytes_field(6, utf8("python"@));
    let track = varint_field(1, process_uuid(slot)) + bytes_field(
        2,
        utf8("python:"@ + pid_chars(pid)),
    ) + bytes_field(3, process);
    let category = varint_field(1, CATEGORY_IID) + bytes_field(2, utf8("py"@));
    preamble(slot) + bytes_field(60, track) + bytes_field(12, bytes_field(1, category))
        + varint_field(13, INCREMENTAL_STATE_CLEARED)
}

/// The packet that describes a thread.
pub open spec fn thread_packet(
    pid: i32,
    slot: u32,
    uuid: u64,
    tid: u32,
    name: Option<Seq<char>>,
) -> Seq<u8> {
    let thread = varint_field(1, two_complement(pid as int)) + varint_field(
        2,
        two_complement(signed_tid(tid)),
    ) + (match name {
        Some(name) => bytes_field(5, utf8(name)),
        None => Seq::empty(),
    });
    let track = varint_field(1, uuid) + bytes_field(4, thread) + varint_field(
        5,
        process_uuid(slot),
    );
    preamble(slot) + bytes_field(60, track)
}

/// The packet that gives a name an id.
pub open spec fn name_packet(slot: u32, iid: u64, name: Seq<char>) -> Seq<u8> {
    let interned = bytes_field(2, varint_field(1, iid) + bytes_field(2, utf8(name)));
    preamble(slot) + bytes_field(12, interned) + varint_field(13, NEEDS_INCREMENTAL_STATE)
}

/// The part of an event's packet that does not hold its time. The end of a slice
/// has no name: it ends whatever is open on its track.
pub open spec fn track_event(uuid: u64, iid: Option<u64>) -> Seq<u8> {
    bytes_field(
        11,
        varint_field(
            9,
            if iid is Some {
                SLICE_BEGIN
            } else {
                SLICE_END
            },
        ) + varint_field(11, uuid) + (match iid {
            Some(iid) => varint_field(3, CATEGORY_IID) + varint_field(10, iid),
            None => Seq::empty(),
        }),
    )
}

/// The packet of an event.
pub open spec fn event_packet(slot: u32, ts_ns: u64, uuid: u64, iid: Option<u64>) -> Seq<u8> {
    varint_field(8, ts_ns) + varint_field(10, sequence_id(slot)) + varint_field(
        13,
        NEEDS_INCREMENTAL_STATE,
    ) + track_event(uuid, iid)
}

/// What is said of lost events.
pub open spec fn dropped_text(dropped: u64) -> Seq<char> {
    "trace0: "@ + digit_chars(dropped as nat) + " events dropped"@
}

/// The packet that says how many events were lost.
pub open spec fn dropped_packet(slot: u32, dropped: u64) -> Seq<u8> {
    let event = varint_field(9, INSTANT) + varint_field(11, process_uuid(slot)) + bytes_field(
        22,
        utf8("py"@),
    ) + bytes_field(22, utf8("dropped"@)) + bytes_field(23, utf8(dropped_text(dropped)));
    preamble(slot) + bytes_field(11, event)
}

/// What a code object is called.
pub open spec fn name_of(code: Option<CodeView>) -> Seq<char> {
    match code {
        Some(code) => code.qualname,
        None => "<unknown>"@,
    }
}

/// What has been described and interned, and the packets of a batch.
pub struct Stream {
    /// The threads that have been described, in order.
    pub tracks: Seq<u64>,
    /// The code objects whose names have been interned, in order.
    pub names: Seq<u64>,
    /// The packets that describe and intern.
    pub heads: Seq<Seq<u8>>,
    /// The packets of events.
    pub events: Seq<Seq<u8>>,
}

impl Stream {
    /// After the thread of an event has been described.
    pub open spec fn with_thread<T: ThreadNames>(
        self,
        pid: i32,
        slot: u32,
        tid: u32,
        threads: T,
    ) -> Stream {
        if self.tracks.contains(tid as u64) {
            self
        } else {
            let named = threads.named();
            Stream {
                tracks: self.tracks.push(tid as u64),
                heads: self.heads.push(
                    thread_packet(
                        pid,
                        slot,
                        track_uuid(slot, self.tracks.len() as int),
                        tid,
                        if named.contains_key(tid) {
                            Some(named[tid])
                        } else {
                            None
                        },
                    ),
                ),
                ..self
            }
        }
    }

    /// After the name of a code object has been interned.
    pub open spec fn with_name<C: CodeLookup>(self, slot: u32, id: u32, codes: C) -> Stream {
        if self.names.contains(id as u64) {
            self
        } else {
            Stream {
                names: self.names.push(id as u64),
                heads: self.heads.push(
                    name_packet(
                        slot,
                        name_iid(self.names.len() as int),
                        name_of(codes.resolved(id)),
                    ),
                ),
                ..self
            }
        }
    }

    /// After an event whose thread and name are known.
    pub open spec fn with_packet(self, slot: u32, ev: Event) -> Stream {
        let uuid = track_uuid(slot, self.tracks.index_of(ev.tid as u64));
        let iid = if opens(kind_of_word(ev.code_kind)) {
            Some(name_iid(self.names.index_of(code_of_word(ev.code_kind) as u64)))
        } else {
            None
        };
        Stream { events: self.events.push(event_packet(slot, ev.ts_ns, uuid, iid)), ..self }
    }

    /// After an event.
    pub open spec fn with_event<C: CodeLookup, T: ThreadNames>(
        self,
        pid: i32,
        slot: u32,
        ev: Event,
        codes: C,
        threads: T,
    ) -> Stream {
        let described = self.with_thread(pid, slot, ev.tid, threads);
        let named = if opens(kind_of_word(ev.code_kind)) {
            described.with_name(slot, code_of_word(ev.code_kind), codes)
        } else {
            described
        };
        named.with_packet(slot, ev)
    }

    /// After some events.
    pub open spec fn with_events<C: CodeLookup, T: ThreadNames>(
        self,
        pid: i32,
        slot: u32,
        events: Seq<Event>,
        codes: C,
        threads: T,
    ) -> Stream
        decreases events.len(),
    {
        if events.len() == 0 {
            self
        } else {
            self.with_events(pid, slot, events.drop_last(), codes, threads).with_event(
                pid,
                slot,
                events.last(),
                codes,
                threads,
            )
        }
    }
}

/// What an exporter has written, described and interned.
pub struct ProtoView {
    pub pid: i32,
    pub slot: u32,
    pub out: Seq<u8>,
    /// Whether the process has been described.
    pub started: bool,
    pub tracks: Seq<u64>,
    pub names: Seq<u64>,
}

impl ProtoView {
    /// The packets that are due before any other.
    pub open spec fn opening(self) -> Seq<Seq<u8>> {
        if self.started {
            Seq::empty()
        } else {
            seq![process_packet(self.pid, self.slot)]
        }
    }

    /// What comes of a batch.
    pub open spec fn stream<C: CodeLookup, T: ThreadNames>(
        self,
        events: Seq<Event>,
        codes: C,
        threads: T,
    ) -> Stream {
        Stream {
            tracks: self.tracks,
            names: self.names,
            heads: Seq::empty(),
            events: Seq::empty(),
        }.with_events(self.pid, self.slot, events, codes, threads)
    }

    /// After a batch: what describes and interns comes before all its events.
    pub open spec fn with_batch<C: CodeLookup, T: ThreadNames>(
        self,
        events: Seq<Event>,
        codes: C,
        threads: T,
    ) -> ProtoView {
        let s = self.stream(events, codes, threads);
        ProtoView {
            out: self.out + framed(self.opening()) + framed(s.heads) + framed(s.events),
            started: true,
            tracks: s.tracks,
            names: s.names,
            ..self
        }
    }

    /// After the end: a packet that tells of lost events, where there are any.
    pub open spec fn finished(self, dropped: u64) -> ProtoView {
        if dropped == 0 {
            self
        } else {
            ProtoView {
                out: self.out + framed(self.opening()) + frame(dropped_packet(self.slot, dropped)),
                started: true,
                ..self
            }
        }
    }
}

/// The key that a template is kept under.
spec fn template_key(tid: u32, code_id: u32, opens_slice: bool) -> int {
    tid * 0x1_0000_0000 + code_id * 2 + if opens_slice {
        1int
    } else {
        0int
    }
}

/// The part of a packet that all events of one thread, code object and polarity
/// share.
struct Template {
    bytes: Vec<u8>,
    tid: Ghost<u32>,
    code_id: Ghost<u32>,
    opens_slice: Ghost<bool>,
}

/// Writes a stream of packets, in which names and threads are spelled out once and
/// go by a number after that.
pub struct ProtoExporter {
    pid: i32,
    slot: u32,
    out: Vec<u8>,
    /// Event packets of the current batch.
    buf: Vec<u8>,
    process_emitted: bool,
    tracks: Index,
    names: Index,
    template_index: Index,
    templates: Vec<Template>,
}

impl View for ProtoExporter {
    type V = ProtoView;

    closed spec fn view(&self) -> ProtoView {
        ProtoView {
            pid: self.pid,
            slot: self.slot,
            out: self.out@,
            started: self.process_emitted,
            tracks: self.tracks@,
            names: self.names@,
        }
    }
}

fn pid_bits(pid: i32) -> (bits: u64)
    ensures
        bits == two_complement(pid as int),
{
    bits_of(pid as i64)
}

fn tid_bits(tid: u32) -> (bits: u64)
    ensures
        bits == two_complement(signed_tid(tid)),
{
    if tid < 0x8000_0000 {
        tid as u64
    } else {
        tid as u64 + 0xffff_ffff_0000_0000
    }
}

/// What is said of lost events.
pub fn dropped_message(dropped: u64) -> (s: String)
    ensures
        s@ == dropped_text(dropped),
{
    let mut s = "trace0: ".to_owned();
    append_number(&mut s, dropped);
    s.append(" events dropped");
    s
}

impl ProtoExporter {
    /// Whether the threads are described as they were seen, and the templates are
    /// those of the events they are kept for.
    closed spec fn tables_fit(&self) -> bool {
        &&& self.slot < u32::MAX
        &&& self.tracks.wf()
        &&& self.names.wf()
        &&& self.template_index.wf()
        &&& self.template_index@.len() == self.templates@.len()
        &&& forall|i: int|
            0 <= i < self.templates@.len() ==> self.template_fits(#[trigger] self.templates@[i], i)
    }

    spec fn template_fits(&self, t: Template, i: int) -> bool {
        &&& t.code_id@ <= CODE_ID_MAX
        &&& self.template_index@[i] == template_key(t.tid@, t.code_id@, t.opens_slice@)
        &&& self.tracks@.contains(t.tid@ as u64)
        &&& t.opens_slice@ ==> self.names@.contains(t.code_id@ as u64)
        &&& t.bytes@ == track_event(
            track_uuid(self.slot, self.tracks@.index_of(t.tid@ as u64)),
            if t.opens_slice@ {
                Some(name_iid(self.names@.index_of(t.code_id@ as u64)))
            } else {
                None
            },
        )
    }

    pub fn new(pid: i32) -> (ex: Self)
        ensures
            ex.wf(),
            ex@ == (ProtoView {
                pid,
                slot: 0,
                out: Seq::empty(),
                started: false,
                tracks: Seq::empty(),
                names: Seq::empty(),
            }),
    {
        ProtoExporter {
            pid,
            slot: 0,
            out: Vec::new(),
            buf: Vec::new(),
            process_emitted: false,
            tracks: Index::new(),
            names: Index::new(),
            template_index: Index::new(),
            templates: Vec::new(),
        }
    }

    /// The exporter of the process that the user launched.
    pub fn create(pid: i32) -> (ex: Self)
        ensures
            ex.wf(),
            ex@ == (ProtoView {
                pid,
                slot: 0,
                out: Seq::empty(),
                started: false,
                tracks: Seq::empty(),
                names: Seq::empty(),
            }),
    {
        ProtoExporter::new(pid)
    }

    /// The exporter of a process that adds to the file of another.
    pub fn append(pid: i32) -> (ex: Self)
        ensures
            ex.wf(),
            ex@ == (ProtoView {
                pid,
                slot: 0,
                out: Seq::empty(),
                started: false,
                tracks: Seq::empty(),
                names: Seq::empty(),
            }),
    {
        ProtoExporter::new(pid)
    }

    /// The exporter with another process id to write.
    pub fn with_pid(self, pid: i32) -> (ex: Self)
        ensures
            self.wf() ==> ex.wf(),
            ex@ == (ProtoView { pid, ..self@ }),
    {
        let mut ex = self;
        ex.pid = pid;
        assert(forall|i: int|
            0 <= i < self.templates@.len() ==> self.template_fits(
                #[trigger] self.templates@[i],
                i,
            ) ==> ex.template_fits(ex.templates@[i], i));
        ex
    }

    /// The exporter of a process that shares a file with others: its packets belong
    /// to a sequence of their own, and its tracks have numbers of their own.
    pub fn with_slot(self, slot: u32) -> (ex: Self)
        requires
            slot < u32::MAX,
            self@.tracks.len() == 0,
            self@.names.len() == 0,
            self.wf(),
        ensures
            ex.wf(),
            ex@ == (ProtoView { slot, ..self@ }),
    {
        let mut ex = self;
        ex.slot = slot;
        proof {
            assert forall|i: int| 0 <= i < ex.templates@.len() implies ex.template_fits(
                #[trigger] ex.templates@[i],
                i,
            ) by {
                assert(self.template_fits(self.templates@[i], i));
            }
        }
        ex
    }
}

/// Appends a field that holds a number, for a field number of one byte.
fn push_small(tag: u8, v: u64, out: &mut Vec<u8>)
    requires
        1 <= tag < 16,
    ensures
        final(out)@ == old(out)@ + varint_field(tag as nat, v),
{
    out.push(8 * tag);
    push_varint(out, v);
    assert(crate::wire::key(tag as nat, 0) =~= seq![(8 * tag) as u8]);
    assert(out@ =~= old(out)@ + varint_field(tag as nat, v));
}

fn sequence_of(slot: u32) -> (id: u64)
    requires
        slot < u32::MAX,
    ensures
        id == sequence_id(slot),
{
    slot as u64 + 1
}

fn uuid_of_process(slot: u32) -> (uuid: u64)
    ensures
        uuid == process_uuid(slot),
{
    slot as u64 * 0x1_0000_0000 + 1
}

fn uuid_of_track(slot: u32, place: usize) -> (uuid: u64)
    ensures
        uuid == track_uuid(slot, place as int),
{
    (slot as u64 * 0x1_0000_0000 + 2).wrapping_add(place as u64)
}

fn start_packet(slot: u32) -> (p: Vec<u8>)
    requires
        slot < u32::MAX,
    ensures
        p@ == preamble(slot),
{
    let mut p: Vec<u8> = Vec::new();
    put_number(8, 0, &mut p);
    put_number(10, sequence_of(slot), &mut p);
    assert(p@ =~= preamble(slot));
    p
}

fn make_process_packet(pid: i32, slot: u32) -> (p: Vec<u8>)
    requires
        slot < u32::MAX,
    ensures
        p@ == process_packet(pid, slot),
{
    let ghost process_spec = varint_field(1, two_complement(pid as int)) + bytes_field(
        6,
        utf8("python"@),
    );
    let mut process: Vec<u8> = Vec::new();
    put_number(1, pid_bits(pid), &mut process);
    put_string(6, &"python".to_owned(), &mut process);
    assert(process@ =~= process_spec);

    let mut name = "python:".to_owned();
    if pid < 0 {
        name.append("-");
        append_number(&mut name, (-(pid as i64)) as u64);
    } else {
        append_number(&mut name, pid as u64);
    }
    assert(name@ =~= "python:"@ + pid_chars(pid));

    let ghost track_spec = varint_field(1, process_uuid(slot)) + bytes_field(
        2,
        utf8("python:"@ + pid_chars(pid)),
    ) + bytes_field(3, process_spec);
    let mut track: Vec<u8> = Vec::new();
    put_number(1, uuid_of_process(slot), &mut track);
    put_string(2, &name, &mut track);
    push_field(3, &process, &mut track);
    assert(track@ =~= track_spec);

    let ghost category_spec = varint_field(1, CATEGORY_IID) + bytes_field(2, utf8("py"@));
    let mut category: Vec<u8> = Vec::new();
    put_number(1, CATEGORY_IID, &mut category);
    put_string(2, &"py".to_owned(), &mut category);
    assert(category@ =~= category_spec);
    let mut interned: Vec<u8> = Vec::new();
    push_field(1, &category, &mut interned);
    assert(interned@ =~= bytes_field(1, category_spec));

    let mut p = start_packet(slot);
    push_field(60, &track, &mut p);
    push_field(12, &interned, &mut p);
    put_number(13, INCREMENTAL_STATE_CLEARED, &mut p);
    p
}

fn make_thread_packet(pid: i32, slot: u32, uuid: u64, tid: u32, name: &Option<String>) -> (p: Vec<
    u8,
>)
    requires
        slot < u32::MAX,
    ensures
        p@ == thread_packet(
            pid,
            slot,
            uuid,
            tid,
            match name {
                Some(name) => Some(name@),
                None => None,
            },
        ),
{
    let ghost ids = varint_field(1, two_complement(pid as int)) + varint_field(
        2,
        two_complement(signed_tid(tid)),
    );
    let mut thread: Vec<u8> = Vec::new();
    put_number(1, pid_bits(pid), &mut thread);
    put_number(2, tid_bits(tid), &mut thread);
    assert(thread@ =~= ids);
    match name {
        Some(name) => {
            put_string(5, name, &mut thread);
        },
        None => {
            assert(ids + Seq::<u8>::empty() =~= ids);
        },
    }

    let ghost track_spec = varint_field(1, uuid) + bytes_field(4, thread@) + varint_field(
        5,
        process_uuid(slot),
    );
    let mut track: Vec<u8> = Vec::new();
    put_number(1, uuid, &mut track);
    push_field(4, &thread, &mut track);
    put_number(5, uuid_of_process(slot), &mut track);
    assert(track@ =~= track_spec);

    let mut p = start_packet(slot);
    push_field(60, &track, &mut p);
    p
}

fn make_name_packet(slot: u32, iid: u64, name: &String) -> (p: Vec<u8>)
    requires
        slot < u32::MAX,
    ensures
        p@ == name_packet(slot, iid, name@),
{
    let mut entry: Vec<u8> = Vec::new();
    put_number(1, iid, &mut entry);
    put_string(2, name, &mut entry);
    assert(entry@ =~= varint_field(1, iid) + bytes_field(2, utf8(name@)));
    let mut interned: Vec<u8> = Vec::new();
    push_field(2, &entry, &mut interned);
    assert(interned@ =~= bytes_field(2, entry@));
    let mut p = start_packet(slot);
    push_field(12, &interned, &mut p);
    put_number(13, NEEDS_INCREMENTAL_STATE, &mut p);
    p
}

fn make_dropped_packet(slot: u32, dropped: u64) -> (p: Vec<u8>)
    requires
        slot < u32::MAX,
    ensures
        p@ == dropped_packet(slot, dropped),
{
    let ghost event_spec = varint_field(9, INSTANT) + varint_field(11, process_uuid(slot))
        + bytes_field(22, utf8("py"@)) + bytes_field(22, utf8("dropped"@)) + bytes_field(
        23,
        utf8(dropped_text(dropped)),
    );
    let mut event: Vec<u8> = Vec::new();
    put_number(9, INSTANT, &mut event);
    put_number(11, uuid_of_process(slot), &mut event);
    put_string(22, &"py".to_owned(), &mut event);
    put_string(22, &"dropped".to_owned(), &mut event);
    put_string(23, &dropped_message(dropped), &mut event);
    assert(event@ =~= event_spec);
    let mut p = start_packet(slot);
    push_field(11, &event, &mut p);
    p
}

/// The part of an event's packet that does not hold its time.
fn make_track_event(uuid: u64, iid: Option<u64>) -> (bytes: Vec<u8>)
    ensures
        bytes@ == track_event(uuid, iid),
{
    let mut event: Vec<u8> = Vec::new();
    let kind: u64 = if iid.is_some() {
        SLICE_BEGIN
    } else {
        SLICE_END
    };
    push_small(9, kind, &mut event);
    push_small(11, uuid, &mut event);
    let ghost ids = varint_field(9, kind) + varint_field(11, uuid);
    assert(event@ =~= ids);
    match iid {
        Some(iid) => {
            push_small(3, CATEGORY_IID, &mut event);
            push_small(10, iid, &mut event);
            assert(event@ =~= ids + (varint_field(3, CATEGORY_IID) + varint_field(10, iid)));
        },
        None => {
            assert(event@ =~= ids + Seq::<u8>::empty());
        },
    }
    let mut bytes: Vec<u8> = Vec::new();
    push_field(11, &event, &mut bytes);
    assert(bytes@ =~= bytes_field(11, event@));
    bytes
}

pub proof fn lemma_place_stays(keys: Seq<u64>, key: u64, other: u64)
    requires
        keys.no_duplicates(),
        !keys.contains(other),
    ensures
        keys.push(other).no_duplicates(),
        keys.push(other).contains(other),
        keys.push(other).index_of(other) == keys.len(),
        keys.contains(key) ==> keys.push(other).contains(key) && keys.push(other).index_of(key)
            == keys.index_of(key),
{
    let all = keys.push(other);
    assert(all[keys.len() as int] == other);
    if keys.contains(key) {
        let i = keys.index_of(key);
        assert(keys[i] == key);
        assert(all[i] == key);
    }
}

proof fn lemma_framed_push(packets: Seq<Seq<u8>>, packet: Seq<u8>)
    ensures
        framed(packets.push(packet)) == framed(packets) + frame(packet),
{
    assert(packets.push(packet).drop_last() =~= packets);
}

impl ProtoExporter {
    /// Appends a packet to the output.
    fn write_packet(&mut self, packet: &Vec<u8>)
        requires
            old(self).tables_fit(),
        ensures
            final(self).tables_fit(),
            *final(self) == (ProtoExporter { out: final(self).out, ..*old(self) }),
            final(self).out@ == old(self).out@ + frame(packet@),
    {
        push_field(1, packet, &mut self.out);
        proof {
            assert forall|i: int| 0 <= i < self.templates@.len() implies self.template_fits(
                #[trigger] self.templates@[i],
                i,
            ) by {
                assert(old(self).template_fits(old(self).templates@[i], i));
            }
        }
    }

    /// Describes the process, unless that has been done.
    fn ensure_process(&mut self)
        requires
            old(self).tables_fit(),
        ensures
            final(self).tables_fit(),
            final(self).buf == old(self).buf,
            final(self)@ == (ProtoView {
                out: old(self)@.out + framed(old(self)@.opening()),
                started: true,
                ..old(self)@
            }),
    {
        let ghost before = *self;
        if self.process_emitted {
            assert(self.out@ + framed(Seq::empty()) =~= self.out@);
            return;
        }
        let packet = make_process_packet(self.pid, self.slot);
        self.write_packet(&packet);
        self.process_emitted = true;
        proof {
            assert forall|i: int| 0 <= i < self.templates@.len() implies self.template_fits(
                #[trigger] self.templates@[i],
                i,
            ) by {
                assert(before.template_fits(before.templates@[i], i));
            }
            lemma_framed_push(Seq::empty(), packet@);
            assert(Seq::<Seq<u8>>::empty().push(packet@) =~= seq![packet@]);
            assert(framed(Seq::empty()) + frame(packet@) =~= frame(packet@));
        }
    }

    /// Describes a thread, unless that has been done.
    fn ensure_thread<T: ThreadNames>(
        &mut self,
        tid: u32,
        threads: &T,
        Ghost(s): Ghost<Stream>,
        Ghost(base): Ghost<Seq<u8>>,
    )
        requires
            old(self).tables_fit(),
            old(self)@.tracks == s.tracks,
            old(self)@.names == s.names,
            old(self)@.out == base + framed(s.heads),
        ensures
            final(self).tables_fit(),
            final(self).buf == old(self).buf,
            ({
                let after = s.with_thread(old(self)@.pid, old(self)@.slot, tid, *threads);
                &&& final(self)@ == (ProtoView {
                    out: base + framed(after.heads),
                    tracks: after.tracks,
                    ..old(self)@
                })
                &&& after.tracks.contains(tid as u64)
            }),
    {
        if let Some(_) = self.tracks.find(tid as u64) {
            return;
        }
        let ghost before = *self;
        let uuid: u64 = uuid_of_track(self.slot, self.tracks.len());
        let name = threads.name(tid);
        let packet = make_thread_packet(self.pid, self.slot, uuid, tid, &name);
        let _ = self.tracks.add(tid as u64);
        proof {
            before.tracks.numbers_differ();
            lemma_place_stays(s.tracks, tid as u64, tid as u64);
            assert forall|i: int| 0 <= i < self.templates@.len() implies self.template_fits(
                #[trigger] self.templates@[i],
                i,
            ) by {
                let t = before.templates@[i];
                assert(before.template_fits(t, i));
                lemma_place_stays(s.tracks, t.tid@ as u64, tid as u64);
            }
        }
        self.write_packet(&packet);
        proof {
            lemma_framed_push(s.heads, packet@);
            lemma_append(base, framed(s.heads), frame(packet@));
        }
    }

    /// The interned id of a code object's name, which is interned first where it has
    /// not been.
    fn name_iid<C: CodeLookup>(
        &mut self,
        code_id: u32,
        codes: &C,
        Ghost(s): Ghost<Stream>,
        Ghost(base): Ghost<Seq<u8>>,
    ) -> (iid: u64)
        requires
            old(self).tables_fit(),
            old(self)@.tracks == s.tracks,
            old(self)@.names == s.names,
            old(self)@.out == base + framed(s.heads),
        ensures
            final(self).tables_fit(),
            final(self).buf == old(self).buf,
            final(self).template_index == old(self).template_index,
            final(self).templates == old(self).templates,
            ({
                let after = s.with_name(old(self)@.slot, code_id, *codes);
                &&& final(self)@ == (ProtoView {
                    out: base + framed(after.heads),
                    names: after.names,
                    ..old(self)@
                })
                &&& after.names.contains(code_id as u64)
                &&& iid == name_iid(after.names.index_of(code_id as u64))
            }),
    {
        if let Some(place) = self.names.find(code_id as u64) {
            assert(s.names.index_of(code_id as u64) == place);
            return (place as u64).wrapping_add(1);
        }
        let ghost before = *self;
        // Zero means that no name is given, so ids start at one.
        let iid: u64 = (self.names.len() as u64).wrapping_add(1);
        let name = match codes.code(code_id) {
            Some(info) => info.qualname,
            None => "<unknown>".to_owned(),
        };
        let packet = make_name_packet(self.slot, iid, &name);
        let _ = self.names.add(code_id as u64);
        proof {
            before.names.numbers_differ();
            lemma_place_stays(s.names, code_id as u64, code_id as u64);
            assert forall|i: int| 0 <= i < self.templates@.len() implies self.template_fits(
                #[trigger] self.templates@[i],
                i,
            ) by {
                let t = before.templates@[i];
                assert(before.template_fits(t, i));
                lemma_place_stays(s.names, t.code_id@ as u64, code_id as u64);
            }
        }
        self.write_packet(&packet);
        proof {
            lemma_framed_push(s.heads, packet@);
            lemma_append(base, framed(s.heads), frame(packet@));
        }
        iid
    }

    /// The place of the template of an event whose thread has been described. It is
    /// made where there is none, with the name it needs.
    fn template<C: CodeLookup>(
        &mut self,
        tid: u32,
        code_id: u32,
        opens_slice: bool,
        codes: &C,
        Ghost(s): Ghost<Stream>,
        Ghost(base): Ghost<Seq<u8>>,
    ) -> (place: usize)
        requires
            old(self).tables_fit(),
            old(self)@.tracks == s.tracks,
            old(self)@.names == s.names,
            old(self)@.out == base + framed(s.heads),
            s.tracks.contains(tid as u64),
            code_id <= CODE_ID_MAX,
        ensures
            final(self).tables_fit(),
            final(self).buf == old(self).buf,
            ({
                let after = if opens_slice {
                    s.with_name(old(self)@.slot, code_id, *codes)
                } else {
                    s
                };
                &&& final(self)@ == (ProtoView {
                    out: base + framed(after.heads),
                    names: after.names,
                    ..old(self)@
                })
                &&& place < final(self).templates@.len()
                &&& final(self).templates@[place as int].bytes@ == track_event(
                    track_uuid(old(self)@.slot, s.tracks.index_of(tid as u64)),
                    if opens_slice {
                        Some(name_iid(after.names.index_of(code_id as u64)))
                    } else {
                        None
                    },
                )
            }),
    {
        // The end of a slice has no name, so all ends on a thread share a template.
        let keyed_code: u32 = if opens_slice {
            code_id
        } else {
            0
        };
        let polarity: u64 = if opens_slice {
            1
        } else {
            0
        };
        let key: u64 = tid as u64 * 0x1_0000_0000 + keyed_code as u64 * 2 + polarity;
        if let Some(place) = self.template_index.find(key) {
            proof {
                let t = self.templates@[place as int];
                assert(self.template_fits(t, place as int));
                assert(t.tid@ == tid && t.code_id@ == keyed_code && t.opens_slice@ == opens_slice);
            }
            return place;
        }
        let track: usize = match self.tracks.find(tid as u64) {
            Some(track) => track,
            None => {
                assert(false);
                0
            },
        };
        assert(s.tracks.index_of(tid as u64) == track);
        let uuid: u64 = uuid_of_track(self.slot, track);
        let iid: Option<u64> = if opens_slice {
            Some(self.name_iid(code_id, codes, Ghost(s), Ghost(base)))
        } else {
            None
        };
        let ghost before = *self;
        let bytes = make_track_event(uuid, iid);
        let place: usize = self.template_index.add(key);
        self.templates.push(
            Template {
                bytes,
                tid: Ghost(tid),
                code_id: Ghost(keyed_code),
                opens_slice: Ghost(opens_slice),
            },
        );
        proof {
            assert forall|i: int| 0 <= i < self.templates@.len() implies self.template_fits(
                #[trigger] self.templates@[i],
                i,
            ) by {
                if i < place {
                    assert(before.template_fits(before.templates@[i], i));
                }
            }
        }
        place
    }

    /// Appends the packet of an event to those of the batch.
    fn push_event(&mut self, ts_ns: u64, place: usize)
        requires
            old(self).tables_fit(),
            place < old(self).templates@.len(),
        ensures
            final(self).tables_fit(),
            final(self)@ == old(self)@,
            final(self).buf@ == old(self).buf@ + frame(
                varint_field(8, ts_ns) + varint_field(10, sequence_id(old(self)@.slot))
                    + varint_field(13, NEEDS_INCREMENTAL_STATE)
                    + old(self).templates@[place as int].bytes@,
            ),
    {
        let ghost before = *self;
        let ghost packet_spec = varint_field(8, ts_ns) + varint_field(
            10,
            sequence_id(before.slot),
        ) + varint_field(13, NEEDS_INCREMENTAL_STATE);
        let mut packet: Vec<u8> = Vec::new();
        push_small(8, ts_ns, &mut packet);
        push_small(10, sequence_of(self.slot), &mut packet);
        push_small(13, NEEDS_INCREMENTAL_STATE, &mut packet);
        assert(packet@ =~= packet_spec);
        push_bytes(&mut packet, self.templates[place].bytes.as_slice());
        push_field(1, &packet, &mut self.buf);
        proof {
            assert forall|i: int| 0 <= i < self.templates@.len() implies self.template_fits(
                #[trigger] self.templates@[i],
                i,
            ) by {
                assert(before.template_fits(before.templates@[i], i));
            }
        }
    }
}

impl Exporter for ProtoExporter {
    open spec fn output(&self) -> Seq<u8> {
        self@.out
    }

    closed spec fn wf(&self) -> bool {
        self.tables_fit()
    }

    fn write_batch<C: CodeLookup, T: ThreadNames>(
        &mut self,
        events: &[Event],
        codes: &C,
        threads: &T,
    )
        ensures
            final(self)@ == old(self)@.with_batch(events@, *codes, *threads),
    {
        let ghost start = self@;
        self.ensure_process();
        self.buf.clear();
        let ghost base = self@.out;
        let ghost mut s = Stream {
            tracks: start.tracks,
            names: start.names,
            heads: Seq::empty(),
            events: Seq::empty(),
        };
        let ghost first = s;
        let n: usize = events.len();
        proof {
            assert(events@.take(0) =~= Seq::empty());
            assert(base =~= base + framed(Seq::empty()));
            assert(self.buf@ =~= framed(Seq::empty()));
            assert forall|i: int| 0 <= i < self.templates@.len() implies self.template_fits(
                #[trigger] self.templates@[i],
                i,
            ) by {}
        }
        for i in 0..n
            invariant
                n == events@.len(),
                start == old(self)@,
                base == start.out + framed(start.opening()),
                first == (Stream {
                    tracks: start.tracks,
                    names: start.names,
                    heads: Seq::empty(),
                    events: Seq::empty(),
                }),
                s == first.with_events(
                    start.pid,
                    start.slot,
                    events@.take(i as int),
                    *codes,
                    *threads,
                ),
                self.tables_fit(),
                self@ == (ProtoView {
                    out: base + framed(s.heads),
                    started: true,
                    tracks: s.tracks,
                    names: s.names,
                    ..start
                }),
                self.buf@ == framed(s.events),
        {
            let ev = events[i];
            let code_id: u32 = ev.code_id();
            let opens_slice: bool = ev.kind().opens_slice();
            assert(events@.take(i + 1).drop_last() =~= events@.take(i as int));
            assert(events@.take(i + 1).last() == ev);
            self.ensure_thread(ev.tid, threads, Ghost(s), Ghost(base));
            let ghost described = s.with_thread(start.pid, start.slot, ev.tid, *threads);
            let place: usize = self.template(
                ev.tid,
                code_id,
                opens_slice,
                codes,
                Ghost(described),
                Ghost(base),
            );
            self.push_event(ev.ts_ns, place);
            proof {
                let after = s.with_event(start.pid, start.slot, ev, *codes, *threads);
                lemma_framed_push(s.events, after.events.last());
                assert(after.events =~= s.events.push(after.events.last()));
                s = after;
            }
        }
        assert(events@.take(n as int) =~= events@);
        let ghost before = *self;
        push_bytes(&mut self.out, self.buf.as_slice());
        proof {
            assert forall|i: int| 0 <= i < self.templates@.len() implies self.template_fits(
                #[trigger] self.templates@[i],
                i,
            ) by {
                assert(before.template_fits(before.templates@[i], i));
            }
        }
    }

    fn finish<C: CodeLookup, T: ThreadNames>(&mut self, codes: &C, threads: &T, dropped: u64)
        ensures
            final(self)@ == old(self)@.finished(dropped),
    {
        if dropped > 0 {
            self.ensure_process();
            let packet = make_dropped_packet(self.slot, dropped);
            self.write_packet(&packet);
        }
    }

    fn take_output(&mut self) -> (bytes: Vec<u8>)
        ensures
            final(self)@ == (ProtoView { out: Seq::empty(), ..old(self)@ }),
    {
        let mut bytes: Vec<u8> = Vec::new();
        core::mem::swap(&mut self.out, &mut bytes);
        proof {
            assert forall|i: int| 0 <= i < self.templates@.len() implies self.template_fits(
                #[trigger] self.templates@[i],
                i,
            ) by {
                assert(old(self).template_fits(old(self).templates@[i], i));
            }
        }
        bytes
    }
}

/// All the packets of a batch, in the order they are written.
pub open spec fn batch_packets<C: CodeLookup, T: ThreadNames>(
    v: ProtoView,
    events: Seq<Event>,
    codes: C,
    threads: T,
) -> Seq<Seq<u8>> {
    let s = v.stream(events, codes, threads);
    v.opening() + s.heads + s.events
}

/// A stream of packets is a stream of packets still after a batch, and a reader
/// finds in it the packets of the batch behind those that were there.
pub proof fn a_batch_is_whole_packets<C: CodeLookup, T: ThreadNames>(
    v: ProtoView,
    packets: Seq<Seq<u8>>,
    events: Seq<Event>,
    codes: C,
    threads: T,
)
    requires
        v.out == framed(packets),
    ensures
        v.with_batch(events, codes, threads).out == framed(
            packets + batch_packets(v, events, codes, threads),
        ),
        unframed(v.with_batch(events, codes, threads).out) == Some(
            packets + batch_packets(v, events, codes, threads),
        ),
{
    let s = v.stream(events, codes, threads);
    streams_concatenate(packets, v.opening());
    streams_concatenate(packets + v.opening(), s.heads);
    streams_concatenate(packets + v.opening() + s.heads, s.events);
    assert(packets + v.opening() + s.heads + s.events =~= packets + batch_packets(
        v,
        events,
        codes,
        threads,
    ));
    streams_read_back(packets + batch_packets(v, events, codes, threads));
}

/// The end of a trace is one whole packet where events were lost, and nothing where
/// none were.
pub proof fn the_end_is_a_whole_packet(v: ProtoView, packets: Seq<Seq<u8>>, dropped: u64)
    requires
        v.out == framed(packets),
    ensures
        v.finished(dropped).out == framed(
            if dropped == 0 {
                packets
            } else {
                packets + v.opening() + seq![dropped_packet(v.slot, dropped)]
            },
        ),
{
    let last = seq![dropped_packet(v.slot, dropped)];
    streams_concatenate(packets, v.opening());
    streams_concatenate(packets + v.opening(), last);
    assert(framed(last) == frame(last[0])) by {
        assert(last.drop_last() =~= Seq::empty());
        assert(framed(Seq::empty()) + frame(last[0]) =~= frame(last[0]));
    }
}

/// How events are cut into batches makes no difference to what is described and
/// interned, nor to the packets of the events.
pub proof fn batches_do_not_show<C: CodeLookup, T: ThreadNames>(
    s: Stream,
    pid: i32,
    slot: u32,
    first: Seq<Event>,
    second: Seq<Event>,
    codes: C,
    threads: T,
)
    ensures
        s.with_events(pid, slot, first + second, codes, threads) == s.with_events(
            pid,
            slot,
            first,
            codes,
            threads,
        ).with_events(pid, slot, second, codes, threads),
    decreases second.len(),
{
    if second.len() == 0 {
        assert(first + second =~= first);
    } else {
        batches_do_not_show(s, pid, slot, first, second.drop_last(), codes, threads);
        assert((first + second).drop_last() =~= first + second.drop_last());
        assert((first + second).last() == second.last());
    }
}

/// Each event has one packet. Each thread is described once and each name written
/// once, however many events there are, and those of every event are among them.
pub proof fn threads_and_names_are_written_once<C: CodeLookup, T: ThreadNames>(
    s: Stream,
    pid: i32,
    slot: u32,
    events: Seq<Event>,
    codes: C,
    threads: T,
)
    requires
        s.tracks.no_duplicates(),
        s.names.no_duplicates(),
    ensures
        ({
            let after = s.with_events(pid, slot, events, codes, threads);
            &&& after.tracks.no_duplicates()
            &&& after.names.no_duplicates()
            &&& s.tracks.is_prefix_of(after.tracks)
            &&& s.names.is_prefix_of(after.names)
            &&& after.events.len() == s.events.len() + events.len()
            &&& after.heads.len() - s.heads.len() == (after.tracks.len() - s.tracks.len()) + (
            after.names.len() - s.names.len())
            &&& forall|i: int|
                0 <= i < events.len() ==> after.tracks.contains((#[trigger] events[i]).tid as u64)
            &&& forall|i: int|
                0 <= i < events.len() && opens(kind_of_word((#[trigger] events[i]).code_kind))
                    ==> after.names.contains(code_of_word(events[i].code_kind) as u64)
        }),
    decreases events.len(),
{
    if events.len() > 0 {
        let rest = events.drop_last();
        let ev = events.last();
        threads_and_names_are_written_once(s, pid, slot, rest, codes, threads);
        let before = s.with_events(pid, slot, rest, codes, threads);
        let described = before.with_thread(pid, slot, ev.tid, threads);
        let after = s.with_events(pid, slot, events, codes, threads);
        if !before.tracks.contains(ev.tid as u64) {
            lemma_place_stays(before.tracks, ev.tid as u64, ev.tid as u64);
        }
        let id = code_of_word(ev.code_kind) as u64;
        if !before.names.contains(id) {
            lemma_place_stays(before.names, id, id);
        }
        assert forall|i: int| 0 <= i < events.len() implies after.tracks.contains(
            (#[trigger] events[i]).tid as u64,
        ) by {
            if i < rest.len() {
                let tid = rest[i].tid as u64;
                assert(before.tracks.contains(tid));
                if !before.tracks.contains(ev.tid as u64) {
                    lemma_place_stays(before.tracks, tid, ev.tid as u64);
                }
            }
        }
        assert forall|i: int|
            0 <= i < events.len() && opens(
                kind_of_word((#[trigger] events[i]).code_kind),
            ) implies after.names.contains(code_of_word(events[i].code_kind) as u64) by {
            if i < rest.len() {
                let other = code_of_word(rest[i].code_kind) as u64;
                assert(before.names.contains(other));
                if !before.names.contains(id) {
                    lemma_place_stays(before.names, other, id);
                }
            }
        }
    }
}

/// No two tracks have one number, of one process or of two, no thread has the
/// number of a process, and no two processes share a sequence.
pub proof fn processes_and_threads_are_kept_apart(a: u32, b: u32, i: int, j: int)
    requires
        a < u32::MAX,
        b < u32::MAX,
        0 <= i < 0xffff_fffe,
        0 <= j < 0xffff_fffe,
    ensures
        track_uuid(a, i) == track_uuid(b, j) <==> a == b && i == j,
        track_uuid(a, i) != process_uuid(b),
        process_uuid(a) == process_uuid(b) <==> a == b,
        sequence_id(a) == sequence_id(b) <==> a == b,
        sequence_id(a) != 0,
{
}

/// Processes with different numbers that share a file have packet sequences and tracks
/// of their own: the one that the user launched, and all that add to its file.
pub proof fn processes_are_kept_apart_by_their_numbers(
    a_child: bool,
    a: u32,
    b_child: bool,
    b: u32,
    i: int,
    j: int,
)
    requires
        a != b,
        0 < a < u32::MAX,
        0 < b < u32::MAX,
        a_child || b_child,
        0 <= i < 0xffff_fffe,
        0 <= j < 0xffff_fffe,
    ensures
        sequence_id(slot_for(a_child, a)) != sequence_id(slot_for(b_child, b)),
        process_uuid(slot_for(a_child, a)) != process_uuid(slot_for(b_child, b)),
        track_uuid(slot_for(a_child, a), i) != track_uuid(slot_for(b_child, b), j),
        track_uuid(slot_for(a_child, a), i) != process_uuid(slot_for(b_child, b)),
{
    processes_and_threads_are_kept_apart(slot_for(a_child, a), slot_for(b_child, b), i, j);
}

/// No two names have one id, and none has the id that stands for no name.
pub proof fn names_are_kept_apart(i: int, j: int)
    requires
        0 <= i < 0xffff_ffff_ffff_ffff,
        0 <= j < 0xffff_ffff_ffff_ffff,
    ensures
        name_iid(i) == name_iid(j) <==> i == j,
        name_iid(i) != 0,
{
}

} // verus!
