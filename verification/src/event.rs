//! What a traced program did, and the eight bytes that say so.

use crate::clock::Clock;
use vstd::prelude::*;

verus! {

#[derive(Copy, Clone, Debug, PartialEq, Eq, Structural)]
pub enum EventKind {
    Begin,
    End,
    Yield,
    Resume,
    Unwind,
    Throw,
}

/// The byte that a kind is packed as.
pub open spec fn kind_byte(kind: EventKind) -> u8 {
    match kind {
        EventKind::Begin => 1,
        EventKind::End => 2,
        EventKind::Yield => 3,
        EventKind::Resume => 4,
        EventKind::Unwind => 5,
        EventKind::Throw => 6,
    }
}

/// The kind that a byte stands for; a byte that stands for none reads as a start.
pub open spec fn kind_of_byte(v: u8) -> EventKind {
    if v == 2 {
        EventKind::End
    } else if v == 3 {
        EventKind::Yield
    } else if v == 4 {
        EventKind::Resume
    } else if v == 5 {
        EventKind::Unwind
    } else if v == 6 {
        EventKind::Throw
    } else {
        EventKind::Begin
    }
}

/// Whether a kind opens a slice of the timeline. The others close one.
pub open spec fn opens(kind: EventKind) -> bool {
    kind is Begin || kind is Resume || kind is Throw
}

/// The word a kind goes by in a written trace.
pub open spec fn kind_word(kind: EventKind) -> Seq<char> {
    match kind {
        EventKind::Begin => "start"@,
        EventKind::End => "return"@,
        EventKind::Yield => "yield"@,
        EventKind::Resume => "resume"@,
        EventKind::Unwind => "unwind"@,
        EventKind::Throw => "throw"@,
    }
}

impl EventKind {
    pub fn from_u8(v: u8) -> (kind: Self)
        ensures
            kind == kind_of_byte(v),
    {
        match v {
            1 => EventKind::Begin,
            2 => EventKind::End,
            3 => EventKind::Yield,
            4 => EventKind::Resume,
            5 => EventKind::Unwind,
            6 => EventKind::Throw,
            _ => EventKind::Begin,
        }
    }

    /// The byte that this kind is packed as.
    pub fn to_u8(self) -> (v: u8)
        ensures
            v == kind_byte(self),
    {
        match self {
            EventKind::Begin => 1,
            EventKind::End => 2,
            EventKind::Yield => 3,
            EventKind::Resume => 4,
            EventKind::Unwind => 5,
            EventKind::Throw => 6,
        }
    }

    pub fn as_str(self) -> (word: &'static str)
        ensures
            word@ == kind_word(self),
    {
        match self {
            EventKind::Begin => "start",
            EventKind::End => "return",
            EventKind::Yield => "yield",
            EventKind::Resume => "resume",
            EventKind::Unwind => "unwind",
            EventKind::Throw => "throw",
        }
    }

    pub fn opens_slice(self) -> (r: bool)
        ensures
            r == opens(self),
    {
        matches!(self, EventKind::Begin | EventKind::Resume | EventKind::Throw)
    }
}

pub const CODE_ID_MASK: u32 = 0x00FF_FFFF;

pub const CODE_ID_MAX: u32 = 0x00FF_FFFF;

/// A kind above the low 24 bits of a code id.
pub open spec fn packed_word(code_id: u32, kind: EventKind) -> u32 {
    (kind_byte(kind) * 0x100_0000 + code_id % 0x100_0000) as u32
}

/// The code id in a packed word.
pub open spec fn code_of_word(word: u32) -> u32 {
    word % 0x100_0000
}

/// The kind in a packed word.
pub open spec fn kind_of_word(word: u32) -> EventKind {
    kind_of_byte((word / 0x100_0000) as u8)
}

pub fn pack_code_kind(code_id: u32, kind: EventKind) -> (word: u32)
    ensures
        word == packed_word(code_id, kind),
{
    let k: u32 = kind.to_u8() as u32;
    assert((k << 24) | (code_id & 0x00FF_FFFF) == k * 0x100_0000 + code_id % 0x100_0000)
        by (bit_vector)
        requires
            k < 256,
    ;
    (k << 24) | (code_id & CODE_ID_MASK)
}

/// The code id in a packed word.
pub fn unpack_code_id(word: u32) -> (code_id: u32)
    ensures
        code_id == code_of_word(word),
        code_id <= CODE_ID_MAX,
{
    assert(word & 0x00FF_FFFF == word % 0x100_0000) by (bit_vector);
    word & CODE_ID_MASK
}

/// The kind in a packed word.
pub fn unpack_kind(word: u32) -> (kind: EventKind)
    ensures
        kind == kind_of_word(word),
{
    assert(word >> 24 == word / 0x100_0000 && word / 0x100_0000 < 256) by (bit_vector);
    EventKind::from_u8((word >> 24) as u8)
}

/// One event as it is buffered: its distance from the start of its batch, and
/// what happened.
#[derive(Copy, Clone, Debug, PartialEq, Eq, Structural)]
pub struct PackedEvent {
    pub delta_ticks: u32,
    pub code_kind: u32,
}

/// The eight bytes of a buffered event, as one number.
pub open spec fn event_bits(p: PackedEvent) -> u64 {
    (p.code_kind * 0x1_0000_0000 + p.delta_ticks) as u64
}

impl PackedEvent {
    pub fn to_bits(self) -> (bits: u64)
        ensures
            bits == event_bits(self),
    {
        let (d, c) = (self.delta_ticks, self.code_kind);
        assert((c as u64) << 32 | (d as u64) == c * 0x1_0000_0000 + d) by (bit_vector);
        (self.code_kind as u64) << 32 | (self.delta_ticks as u64)
    }

    pub fn from_bits(bits: u64) -> (p: Self)
        ensures
            event_bits(p) == bits,
            p.delta_ticks == bits % 0x1_0000_0000,
            p.code_kind == bits / 0x1_0000_0000,
    {
        assert(bits as u32 == bits % 0x1_0000_0000 && bits >> 32 == bits / 0x1_0000_0000 && bits
            / 0x1_0000_0000 < 0x1_0000_0000) by (bit_vector);
        PackedEvent {
            delta_ticks: #[verifier::truncate] (bits as u32),
            code_kind: (bits >> 32) as u32,
        }
    }

    pub fn code_id(self) -> (id: u32)
        ensures
            id == code_of_word(self.code_kind),
            id <= CODE_ID_MAX,
    {
        unpack_code_id(self.code_kind)
    }

    pub fn kind(self) -> (kind: EventKind)
        ensures
            kind == kind_of_word(self.code_kind),
    {
        unpack_kind(self.code_kind)
    }
}

/// The reading that a buffered event was taken at. Readings are counted around
/// the end of their 64 bits, as the distance to the start of a batch is.
pub open spec fn ticks_after(base_ticks: u64, delta: u32) -> u64 {
    crate::clock::low64(base_ticks + delta)
}

/// The reading that lies `delta` after the start of a batch.
pub fn ticks_from_base(base_ticks: u64, delta: u32) -> (ticks: u64)
    ensures
        ticks == ticks_after(base_ticks, delta),
{
    base_ticks.wrapping_add(delta as u64)
}

/// One event as it is written out.
#[derive(Copy, Clone, Debug, PartialEq, Eq, Structural)]
pub struct Event {
    pub ts_ns: u64,
    pub tid: u32,
    pub code_kind: u32,
}

/// The event that a buffered one stands for.
pub open spec fn decoded(clock: Clock, base_ticks: u64, tid: u32, p: PackedEvent) -> Event {
    Event {
        ts_ns: clock.ns_at(ticks_after(base_ticks, p.delta_ticks)),
        tid,
        code_kind: p.code_kind,
    }
}

impl Event {
    pub fn new(ts_ns: u64, tid: u32, code_id: u32, kind: EventKind) -> (ev: Self)
        ensures
            ev == (Event { ts_ns, tid, code_kind: packed_word(code_id, kind) }),
    {
        Event { ts_ns, tid, code_kind: pack_code_kind(code_id, kind) }
    }

    pub fn from_packed(clock: &Clock, base_ticks: u64, tid: u32, p: PackedEvent) -> (ev: Self)
        ensures
            ev == decoded(*clock, base_ticks, tid, p),
    {
        Event {
            ts_ns: clock.ns_since_start(ticks_from_base(base_ticks, p.delta_ticks)),
            tid,
            code_kind: p.code_kind,
        }
    }

    pub fn code_id(&self) -> (id: u32)
        ensures
            id == code_of_word(self.code_kind),
            id <= CODE_ID_MAX,
    {
        unpack_code_id(self.code_kind)
    }

    pub fn kind(&self) -> (kind: EventKind)
        ensures
            kind == kind_of_word(self.code_kind),
    {
        unpack_kind(self.code_kind)
    }
}

/// A code id of 24 bits and a kind both come back out of the word they are
/// packed in; a longer id comes back without its high bits.
pub proof fn packing_round_trips(code_id: u32, kind: EventKind)
    ensures
        code_of_word(packed_word(code_id, kind)) == code_id % 0x100_0000,
        code_id <= CODE_ID_MAX ==> code_of_word(packed_word(code_id, kind)) == code_id,
        kind_of_word(packed_word(code_id, kind)) == kind,
{
    let k = kind_byte(kind);
    let w = packed_word(code_id, kind);
    assert(w == k * 0x100_0000 + code_id % 0x100_0000);
    assert(w / 0x100_0000 == k);
}

/// A buffered event is exactly its eight bytes: no two events share them.
pub proof fn event_bits_are_faithful(p: PackedEvent, q: PackedEvent)
    ensures
        event_bits(p) == event_bits(q) <==> p == q,
{
}

/// An event buffered at its distance from any batch start is read back at the
/// reading it was taken at, whichever way round the two lie.
pub proof fn distance_to_the_base_is_undone(base_ticks: u64, ticks: u64, delta: u32)
    requires
        delta == crate::clock::low64(ticks - base_ticks),
    ensures
        ticks_after(base_ticks, delta) == ticks,
{
}

/// What begins, resumes or is thrown into opens a slice; what returns, yields or unwinds
/// closes one. A kind keeps its byte, and a word its kind in the top byte and its code id
/// in the others.
pub proof fn a_word_says_its_kind(word: u32, kind: EventKind, code_id: u32)
    ensures
        opens(kind) != (kind is End || kind is Yield || kind is Unwind),
        word / 0x100_0000 == 2 <==> kind_of_word(word) is End,
        word / 0x100_0000 == 3 <==> kind_of_word(word) is Yield,
        word / 0x100_0000 == 4 <==> kind_of_word(word) is Resume,
        word / 0x100_0000 == 5 <==> kind_of_word(word) is Unwind,
        word / 0x100_0000 == 6 <==> kind_of_word(word) is Throw,
        code_of_word(word) == word % 0x100_0000,
        kind is Begin ==> packed_word(code_id, kind) == 0x100_0000 + code_id % 0x100_0000,
        kind is End ==> packed_word(code_id, kind) == 0x200_0000 + code_id % 0x100_0000,
        kind is Yield ==> packed_word(code_id, kind) == 0x300_0000 + code_id % 0x100_0000,
        kind is Resume ==> packed_word(code_id, kind) == 0x400_0000 + code_id % 0x100_0000,
        kind is Unwind ==> packed_word(code_id, kind) == 0x500_0000 + code_id % 0x100_0000,
        kind is Throw ==> packed_word(code_id, kind) == 0x600_0000 + code_id % 0x100_0000,
{
}

/// No two kinds go by one word.
pub proof fn kinds_differ_in_their_words(a: EventKind, b: EventKind)
    ensures
        kind_word(a) == kind_word(b) <==> a == b,
{
    reveal_strlit("start");
    reveal_strlit("return");
    reveal_strlit("yield");
    reveal_strlit("resume");
    reveal_strlit("unwind");
    reveal_strlit("throw");
    let (v, w) = (kind_word(a), kind_word(b));
    assert(v.len() == 5 || v.len() == 6);
    assert(v[0] == w[0] && v[1] == w[1] && v[2] == w[2] ==> a == b);
}

/// An event that is read out of its bytes is of the thread that is said, keeps what
/// happened, and has the time of the reading it was taken at.
pub proof fn an_event_is_read_out_as_it_was_taken(
    clock: Clock,
    base_ticks: u64,
    ticks: u64,
    tid: u32,
    p: PackedEvent,
)
    requires
        (ticks - base_ticks) % 0x1_0000_0000_0000_0000 == p.delta_ticks,
    ensures
        decoded(clock, base_ticks, tid, p).ts_ns == clock.ns_at(ticks),
        decoded(clock, base_ticks, tid, p).tid == tid,
        decoded(clock, base_ticks, tid, p).code_kind == p.code_kind,
{
    distance_to_the_base_is_undone(base_ticks, ticks, p.delta_ticks);
}

/// An event that is made says what it was made with, and a word gives back what was packed
/// in it.
pub proof fn an_event_says_what_it_was_made_with(
    ts_ns: u64,
    tid: u32,
    code_id: u32,
    kind: EventKind,
    ev: Event,
    id: u32,
    back: EventKind,
    opening: bool,
)
    requires
        call_ensures(Event::new, (ts_ns, tid, code_id, kind), ev),
        call_ensures(Event::code_id, (&ev,), id),
        call_ensures(Event::kind, (&ev,), back),
        call_ensures(EventKind::opens_slice, (kind,), opening),
    ensures
        ev.ts_ns == ts_ns,
        ev.tid == tid,
        id == code_id % 0x100_0000,
        back == kind,
        opening != (kind is End || kind is Yield || kind is Unwind),
{
    packing_round_trips(code_id, kind);
}

/// The eight bytes of a buffered event give it back, and it is read out at the reading that
/// lies its distance after the start of its batch.
pub proof fn a_buffered_event_is_given_back(
    p: PackedEvent,
    bits: u64,
    q: PackedEvent,
    clock: Clock,
    base_ticks: u64,
    tid: u32,
    ev: Event,
    ticks: u64,
)
    requires
        call_ensures(PackedEvent::to_bits, (p,), bits),
        call_ensures(PackedEvent::from_bits, (bits,), q),
        call_ensures(Event::from_packed, (&clock, base_ticks, tid, p), ev),
        call_ensures(ticks_from_base, (base_ticks, p.delta_ticks), ticks),
    ensures
        p == q,
        ticks == (base_ticks + p.delta_ticks) % 0x1_0000_0000_0000_0000,
        ev.ts_ns == clock.ns_at(ticks),
        ev.tid == tid,
        ev.code_kind == p.code_kind,
{
    event_bits_are_faithful(p, q);
}

/// What begins is written as a start, what ends as a return, and the others as what they
/// are.
pub proof fn kinds_go_by_their_words(kind: EventKind, word: &'static str)
    requires
        call_ensures(EventKind::as_str, (kind,), word),
    ensures
        kind is Begin ==> word@ == seq!['s', 't', 'a', 'r', 't'],
        kind is End ==> word@ == seq!['r', 'e', 't', 'u', 'r', 'n'],
        kind is Yield ==> word@ == seq!['y', 'i', 'e', 'l', 'd'],
        kind is Resume ==> word@ == seq!['r', 'e', 's', 'u', 'm', 'e'],
        kind is Unwind ==> word@ == seq!['u', 'n', 'w', 'i', 'n', 'd'],
        kind is Throw ==> word@ == seq!['t', 'h', 'r', 'o', 'w'],
        word@ == kind_word(kind),
{
    reveal_strlit("start");
    reveal_strlit("return");
    reveal_strlit("yield");
    reveal_strlit("resume");
    reveal_strlit("unwind");
    reveal_strlit("throw");
    assert("start"@ =~= seq!['s', 't', 'a', 'r', 't']);
    assert("return"@ =~= seq!['r', 'e', 't', 'u', 'r', 'n']);
    assert("yield"@ =~= seq!['y', 'i', 'e', 'l', 'd']);
    assert("resume"@ =~= seq!['r', 'e', 's', 'u', 'm', 'e']);
    assert("unwind"@ =~= seq!['u', 'n', 'w', 'i', 'n', 'd']);
    assert("throw"@ =~= seq!['t', 'h', 'r', 'o', 'w']);
}

} // verus!
