//! Traces in Chrome's JSON Array Format.

use crate::entries::{lemma_a_batch_adds_its_events, read_entries};
use crate::event::{code_of_word, kind_of_word, kind_word, opens, Event};
use crate::idmap::Index;
use crate::sink::{
    listing, nothing_known, CodeInfo, CodeLookup, CodeView, Exporter, ThreadNames,
};
use crate::text::{digits, lemma_append, push_bytes, push_text, push_u64, utf8};
use vstd::prelude::*;

verus! {

/// A hexadecimal digit.
pub open spec fn hex(d: int) -> u8 {
    if d < 10 {
        (48 + d) as u8
    } else {
        (87 + d) as u8
    }
}

/// What a byte of text is written as.
pub open spec fn escaped(b: u8) -> Seq<u8> {
    if b == 0x22 {
        seq![0x5c, 0x22]
    } else if b == 0x5c {
        seq![0x5c, 0x5c]
    } else if b == 0x08 {
        seq![0x5c, 0x62]
    } else if b == 0x09 {
        seq![0x5c, 0x74]
    } else if b == 0x0a {
        seq![0x5c, 0x6e]
    } else if b == 0x0c {
        seq![0x5c, 0x66]
    } else if b == 0x0d {
        seq![0x5c, 0x72]
    } else if b < 0x20 {
        seq![0x5c, 0x75, 0x30, 0x30, hex(b as int / 16), hex(b as int % 16)]
    } else {
        seq![b]
    }
}

/// What some bytes of text are written as.
pub open spec fn escaped_all(bytes: Seq<u8>) -> Seq<u8>
    decreases bytes.len(),
{
    if bytes.len() == 0 {
        Seq::empty()
    } else {
        escaped_all(bytes.drop_last()) + escaped(bytes.last())
    }
}

/// A string as it is written, with its quotes.
pub open spec fn quoted(bytes: Seq<u8>) -> Seq<u8> {
    seq![0x22u8] + escaped_all(bytes) + seq![0x22u8]
}

/// A time in microseconds, down to the nanosecond.
pub open spec fn micros(ts_ns: u64) -> Seq<u8> {
    digits((ts_ns / 1_000) as nat) + seq![
        0x2eu8,
        (48 + ts_ns % 1_000 / 100) as u8,
        (48 + ts_ns / 10 % 10) as u8,
        (48 + ts_ns % 10) as u8,
    ]
}

/// What a code object is called in a trace.
pub open spec fn shown_name(qualname: Seq<char>) -> Seq<char> {
    if qualname.len() == 0 {
        "<unknown>"@
    } else {
        qualname
    }
}

/// What an entry says of its code object before what it says of its event.
pub open spec fn head(code: CodeView) -> Seq<u8> {
    utf8("{\"name\":"@) + quoted(utf8(shown_name(code.qualname))) + utf8(
        ",\"cat\":\"py\",\"ph\":\""@,
    )
}

/// What an entry says of its code object after what it says of its event.
pub open spec fn tail(code: CodeView) -> Seq<u8> {
    utf8(",\"args\":{\"file\":"@) + quoted(utf8(code.filename)) + utf8(",\"line\":"@) + digits(
        code.firstlineno as nat,
    ) + utf8(",\"kind\":\""@)
}

/// The phase of an event: a slice begins or ends.
pub open spec fn phase_byte(ev: Event) -> u8 {
    if opens(kind_of_word(ev.code_kind)) {
        0x42
    } else {
        0x45
    }
}

/// The entry of an event, and the comma behind it.
#[verifier::opaque]
pub open spec fn entry(pid: u32, ev: Event, code: CodeView) -> Seq<u8> {
    head(code) + seq![phase_byte(ev)] + utf8("\",\"ts\":"@) + micros(ev.ts_ns) + utf8(
        ",\"pid\":"@,
    ) + digits(pid as nat) + utf8(",\"tid\":"@) + digits(ev.tid as nat) + tail(code) + utf8(
        kind_word(kind_of_word(ev.code_kind)),
    ) + utf8("\"}},"@)
}

/// The entry that names a thread, and the comma behind it.
pub open spec fn thread_entry(pid: u32, tid: u32, name: Seq<char>) -> Seq<u8> {
    utf8("{\"args\":{\"name\":"@) + quoted(utf8(name)) + utf8(
        "},\"name\":\"thread_name\",\"ph\":\"M\",\"pid\":"@,
    ) + digits(pid as nat) + utf8(",\"tid\":"@) + digits(tid as nat) + utf8("},"@)
}

/// The entries that name some threads.
pub open spec fn thread_entries(pid: u32, names: Seq<(u32, Seq<char>)>) -> Seq<u8>
    decreases names.len(),
{
    if names.len() == 0 {
        Seq::empty()
    } else {
        thread_entries(pid, names.drop_last()) + thread_entry(
            pid,
            names.last().0,
            names.last().1,
        )
    }
}

/// The entry that says how many events were lost, where any were.
pub open spec fn dropped_entry(pid: u32, dropped: u64) -> Seq<u8> {
    if dropped == 0 {
        Seq::empty()
    } else {
        utf8("{\"args\":{\"count\":"@) + digits(dropped as nat) + utf8(
            "},\"name\":\"trace0_dropped_events\",\"ph\":\"M\",\"pid\":"@,
        ) + digits(pid as nat) + utf8(",\"tid\":0},"@)
    }
}

/// What an exporter has written, and what it has looked up.
pub struct JsonView {
    pub pid: u32,
    pub out: Seq<u8>,
    /// The code objects that have been looked up. Each is looked up once.
    pub known: Map<u32, CodeView>,
}

/// What is known once a code object has been looked up.
pub open spec fn learned<C: CodeLookup>(
    known: Map<u32, CodeView>,
    id: u32,
    codes: C,
) -> Map<u32, CodeView> {
    if known.contains_key(id) {
        known
    } else {
        known.insert(
            id,
            match codes.resolved(id) {
                Some(code) => code,
                None => nothing_known(),
            },
        )
    }
}

impl JsonView {
    /// After the entry of one event.
    pub open spec fn with_event<C: CodeLookup>(self, ev: Event, codes: C) -> JsonView {
        let id = code_of_word(ev.code_kind);
        let known = learned(self.known, id, codes);
        JsonView { known, out: self.out + entry(self.pid, ev, known[id]), ..self }
    }

    /// After the entries of some events.
    pub open spec fn with_events<C: CodeLookup>(self, events: Seq<Event>, codes: C) -> JsonView
        decreases events.len(),
    {
        if events.len() == 0 {
            self
        } else {
            self.with_events(events.drop_last(), codes).with_event(events.last(), codes)
        }
    }
}

/// `serde_json::to_vec` of a string: the string in quotes, with quotes, backslashes
/// and control characters escaped.
#[verifier::external_body]
fn json_string(s: &str) -> (bytes: Vec<u8>)
    ensures
        bytes@ == quoted(utf8(s@)),
{
    serde_json::to_vec(s).unwrap_or_default()
}

fn hex_digit(d: u8) -> (b: u8)
    requires
        d < 16,
    ensures
        b == hex(d as int),
{
    if d < 10 {
        48 + d
    } else {
        87 + d
    }
}

fn push_micros(out: &mut Vec<u8>, ts_ns: u64)
    ensures
        final(out)@ == old(out)@ + micros(ts_ns),
{
    push_u64(out, ts_ns / 1_000);
    let frac: u64 = ts_ns % 1_000;
    out.push(0x2e);
    out.push(48 + (frac / 100) as u8);
    out.push(48 + (frac / 10 % 10) as u8);
    out.push(48 + (frac % 10) as u8);
    proof {
        assert(frac / 10 % 10 == ts_ns / 10 % 10);
        assert(frac % 10 == ts_ns % 10);
        assert(out@ =~= old(out)@ + micros(ts_ns));
    }
}

fn push_string(out: &mut Vec<u8>, s: &str)
    ensures
        final(out)@ == old(out)@ + quoted(utf8(s@)),
{
    let bytes = s.as_bytes();
    let ghost start = out@.push(0x22);
    out.push(0x22);
    let n: usize = bytes.len();
    assert(bytes@.take(0) =~= Seq::empty());
    assert(out@ =~= start + escaped_all(bytes@.take(0)));
    for i in 0..n
        invariant
            n == bytes@.len(),
            out@ == start + escaped_all(bytes@.take(i as int)),
    {
        let b: u8 = bytes[i];
        let ghost before = out@;
        assert(bytes@.take(i + 1).drop_last() =~= bytes@.take(i as int));
        match b {
            0x22 => {
                out.push(0x5c);
                out.push(0x22);
            },
            0x5c => {
                out.push(0x5c);
                out.push(0x5c);
            },
            0x08 => {
                out.push(0x5c);
                out.push(0x62);
            },
            0x09 => {
                out.push(0x5c);
                out.push(0x74);
            },
            0x0a => {
                out.push(0x5c);
                out.push(0x6e);
            },
            0x0c => {
                out.push(0x5c);
                out.push(0x66);
            },
            0x0d => {
                out.push(0x5c);
                out.push(0x72);
            },
            _ => {
                if b < 0x20 {
                    out.push(0x5c);
                    out.push(0x75);
                    out.push(0x30);
                    out.push(0x30);
                    out.push(hex_digit(b / 16));
                    out.push(hex_digit(b % 16));
                } else {
                    out.push(b);
                }
            },
        }
        assert(out@ =~= before + escaped(b));
        assert(out@ =~= start + (escaped_all(bytes@.take(i as int)) + escaped(b)));
    }
    assert(bytes@.take(n as int) =~= bytes@);
    out.push(0x22);
    assert(out@ =~= old(out)@ + quoted(utf8(s@)));
}

struct Template {
    head: Vec<u8>,
    tail: Vec<u8>,
    code: Ghost<CodeView>,
}

impl Template {
    spec fn wf(&self) -> bool {
        self.head@ == head(self.code@) && self.tail@ == tail(self.code@)
    }

    fn of(info: &CodeInfo) -> (t: Self)
        ensures
            t.wf(),
            t.code@ == info@,
    {
        let mut head: Vec<u8> = Vec::new();
        push_text(&mut head, "{\"name\":");
        if info.qualname.as_str().is_empty() {
            push_string(&mut head, "<unknown>");
        } else {
            push_string(&mut head, info.qualname.as_str());
        }
        push_text(&mut head, ",\"cat\":\"py\",\"ph\":\"");

        let mut tail: Vec<u8> = Vec::new();
        push_text(&mut tail, ",\"args\":{\"file\":");
        push_string(&mut tail, info.filename.as_str());
        push_text(&mut tail, ",\"line\":");
        push_u64(&mut tail, info.firstlineno as u64);
        push_text(&mut tail, ",\"kind\":\"");

        let t = Template { head, tail, code: Ghost(info@) };
        assert(t.head@ =~= self::head(info@));
        assert(t.tail@ =~= self::tail(info@));
        t
    }
}

/// Writes a bare array of entries, each followed by a comma, with no closing
/// bracket. Every traced process can append to the same file that way, and a
/// process killed before it finishes still leaves a file that reads back to the
/// last whole entry.
pub struct JsonExporter {
    pid: u32,
    out: Vec<u8>,
    index: Index,
    templates: Vec<Template>,
}

impl View for JsonExporter {
    type V = JsonView;

    closed spec fn view(&self) -> JsonView {
        JsonView {
            pid: self.pid,
            out: self.out@,
            known: Map::new(
                |id: u32| self.index@.contains(id as u64),
                |id: u32| self.templates@[self.index@.index_of(id as u64)].code@,
            ),
        }
    }
}

impl JsonExporter {
    /// The exporter of the process that the user launched, which opens the array
    /// that the others append to. The bracket has to reach the file before any of
    /// them writes.
    pub fn create(pid: u32) -> (ex: Self)
        ensures
            ex.wf(),
            ex@ == (JsonView { pid, out: seq![0x5bu8], known: Map::empty() }),
    {
        let mut ex = JsonExporter::new(pid);
        ex.out.push(0x5b);
        assert(ex.out@ =~= seq![0x5bu8]);
        ex
    }

    /// The exporter of a process that adds to the array of another.
    pub fn append(pid: u32) -> (ex: Self)
        ensures
            ex.wf(),
            ex@ == (JsonView { pid, out: Seq::empty(), known: Map::empty() }),
    {
        JsonExporter::new(pid)
    }

    pub fn new(pid: u32) -> (ex: Self)
        ensures
            ex.wf(),
            ex@ == (JsonView { pid, out: Seq::empty(), known: Map::empty() }),
    {
        let ex = JsonExporter {
            pid,
            out: Vec::new(),
            index: Index::new(),
            templates: Vec::new(),
        };
        assert(ex@.known =~= Map::empty());
        ex
    }

    /// The exporter with another process id to write.
    pub fn with_pid(self, pid: u32) -> (ex: Self)
        ensures
            self.wf() ==> ex.wf(),
            ex@ == (JsonView { pid, ..self@ }),
    {
        let ex = JsonExporter {
            pid,
            out: self.out,
            index: self.index,
            templates: self.templates,
        };
        assert(ex@.known =~= self@.known);
        ex
    }

    /// The place of the template of a code object, which is made where there is none.
    fn template<C: CodeLookup>(&mut self, id: u32, codes: &C) -> (place: usize)
        requires
            old(self).wf(),
        ensures
            final(self).wf(),
            final(self).pid == old(self).pid,
            final(self).out == old(self).out,
            final(self)@.known == learned(old(self)@.known, id, *codes),
            place < final(self).templates@.len(),
            final(self).templates@[place as int].code@ == final(self)@.known[id],
    {
        let ghost before = self@.known;
        let ghost keys = self.index@;
        match self.index.find(id as u64) {
            Some(place) => {
                assert(keys.index_of(id as u64) == place);
                place
            },
            None => {
                let info = match codes.code(id) {
                    Some(info) => info,
                    None => CodeInfo::default(),
                };
                let template = Template::of(&info);
                let place: usize = self.index.add(id as u64);
                self.templates.push(template);
                proof {
                    self.index.numbers_differ();
                    assert(self.index@[place as int] == id as u64);
                    assert(self.index@.index_of(id as u64) == place);
                    assert forall|k: u64| #[trigger] keys.contains(k) implies self.index@.contains(
                        k,
                    ) && self.index@.index_of(k) == keys.index_of(k) by {
                        let i = keys.index_of(k);
                        assert(keys[i] == k);
                        assert(self.index@[i] == k);
                    }
                    assert forall|k: u64|
                        k != id as u64 && #[trigger] self.index@.contains(k) implies keys.contains(
                        k,
                    ) by {
                        let i = self.index@.index_of(k);
                        assert(keys[i] == k);
                    }
                    assert(self@.known =~= before.insert(id, info@));
                }
                place
            },
        }
    }

    /// Appends the entry of an event.
    fn push_entry<C: CodeLookup>(&mut self, ev: &Event, codes: &C)
        requires
            old(self).wf(),
        ensures
            final(self).wf(),
            final(self)@ == old(self)@.with_event(*ev, *codes),
    {
        let place: usize = self.template(ev.code_id(), codes);
        let kind = ev.kind();
        let ghost before = self@;
        let ghost start = self.out@;
        let ghost code = self.templates@[place as int].code@;
        let ghost mut e = head(code);

        push_bytes(&mut self.out, self.templates[place].head.as_slice());
        self.out.push(
            if kind.opens_slice() {
                0x42
            } else {
                0x45
            },
        );
        proof {
            e = e.push(phase_byte(*ev));
            assert(self.out@ =~= start + e);
            assert(e =~= head(code) + seq![phase_byte(*ev)]);
        }
        push_text(&mut self.out, "\",\"ts\":");
        proof {
            lemma_append(start, e, utf8("\",\"ts\":"@));
            e = e + utf8("\",\"ts\":"@);
        }
        push_micros(&mut self.out, ev.ts_ns);
        proof {
            lemma_append(start, e, micros(ev.ts_ns));
            e = e + micros(ev.ts_ns);
        }
        push_text(&mut self.out, ",\"pid\":");
        proof {
            lemma_append(start, e, utf8(",\"pid\":"@));
            e = e + utf8(",\"pid\":"@);
        }
        push_u64(&mut self.out, self.pid as u64);
        proof {
            lemma_append(start, e, digits(before.pid as nat));
            e = e + digits(before.pid as nat);
        }
        push_text(&mut self.out, ",\"tid\":");
        proof {
            lemma_append(start, e, utf8(",\"tid\":"@));
            e = e + utf8(",\"tid\":"@);
        }
        push_u64(&mut self.out, ev.tid as u64);
        proof {
            lemma_append(start, e, digits(ev.tid as nat));
            e = e + digits(ev.tid as nat);
        }
        push_bytes(&mut self.out, self.templates[place].tail.as_slice());
        proof {
            lemma_append(start, e, tail(code));
            e = e + tail(code);
        }
        push_text(&mut self.out, kind.as_str());
        proof {
            lemma_append(start, e, utf8(kind_word(kind)));
            e = e + utf8(kind_word(kind));
        }
        push_text(&mut self.out, "\"}},");
        proof {
            lemma_append(start, e, utf8("\"}},"@));
            reveal(entry);
        }
        assert(self.out@ == before.out + entry(before.pid, *ev, code));
    }

    /// Appends the entry that names a thread.
    fn push_thread(&mut self, tid: u32, name: &str)
        requires
            old(self).wf(),
        ensures
            final(self).wf(),
            final(self)@ == (JsonView {
                out: old(self)@.out + thread_entry(old(self)@.pid, tid, name@),
                ..old(self)@
            }),
    {
        let ghost before = self@;
        let quoted_name = json_string(name);
        push_text(&mut self.out, "{\"args\":{\"name\":");
        push_bytes(&mut self.out, quoted_name.as_slice());
        push_text(&mut self.out, "},\"name\":\"thread_name\",\"ph\":\"M\",\"pid\":");
        push_u64(&mut self.out, self.pid as u64);
        push_text(&mut self.out, ",\"tid\":");
        push_u64(&mut self.out, tid as u64);
        push_text(&mut self.out, "},");
        assert(self.out@ =~= before.out + thread_entry(before.pid, tid, name@));
    }
}

impl Exporter for JsonExporter {
    open spec fn output(&self) -> Seq<u8> {
        self@.out
    }

    closed spec fn wf(&self) -> bool {
        &&& self.index.wf()
        &&& self.index@.len() == self.templates@.len()
        &&& forall|i: int| 0 <= i < self.templates@.len() ==> (#[trigger] self.templates@[i]).wf()
    }

    fn write_batch<C: CodeLookup, T: ThreadNames>(
        &mut self,
        events: &[Event],
        codes: &C,
        threads: &T,
    )
        ensures
            final(self)@ == old(self)@.with_events(events@, *codes),
            read_entries(final(self)@.out.skip(old(self)@.out.len() as int)) matches Some(values)
                && values.len() == events@.len(),
    {
        let n: usize = events.len();
        assert(events@.take(0) =~= Seq::empty());
        for i in 0..n
            invariant
                n == events@.len(),
                self.wf(),
                self@ == old(self)@.with_events(events@.take(i as int), *codes),
                old(self)@.out.is_prefix_of(self@.out),
        {
            assert(events@.take(i + 1).drop_last() =~= events@.take(i as int));
            self.push_entry(&events[i], codes);
        }
        assert(events@.take(n as int) =~= events@);
        proof {
            lemma_a_batch_adds_its_events(old(self)@, events@, *codes);
        }
    }

    fn finish<C: CodeLookup, T: ThreadNames>(&mut self, codes: &C, threads: &T, dropped: u64)
        ensures
            final(self)@ == (JsonView {
                out: old(self)@.out + thread_entries(old(self)@.pid, listing(threads.named()))
                    + dropped_entry(old(self)@.pid, dropped),
                ..old(self)@
            }),
    {
        let ghost before = self@;
        let names = threads.snapshot();
        let ghost listed = listing(threads.named());
        let n: usize = names.len();
        assert(listed.take(0) =~= Seq::empty());
        assert(self@.out =~= before.out + thread_entries(before.pid, listed.take(0)));
        for i in 0..n
            invariant
                n == names@.len() == listed.len(),
                listed == crate::sink::named_views(names@),
                self.wf(),
                self@ == (JsonView {
                    out: before.out + thread_entries(before.pid, listed.take(i as int)),
                    ..before
                }),
        {
            assert(listed.take(i + 1).drop_last() =~= listed.take(i as int));
            self.push_thread(names[i].0, names[i].1.as_str());
            assert(self@.out =~= before.out + thread_entries(before.pid, listed.take(i + 1)));
        }
        assert(listed.take(n as int) =~= listed);
        let ghost named = self@;
        if dropped > 0 {
            push_text(&mut self.out, "{\"args\":{\"count\":");
            push_u64(&mut self.out, dropped);
            push_text(
                &mut self.out,
                "},\"name\":\"trace0_dropped_events\",\"ph\":\"M\",\"pid\":",
            );
            push_u64(&mut self.out, self.pid as u64);
            push_text(&mut self.out, ",\"tid\":0},");
        }
        assert(self.out@ =~= named.out + dropped_entry(before.pid, dropped));
    }

    fn take_output(&mut self) -> (bytes: Vec<u8>)
        ensures
            final(self)@ == (JsonView { out: Seq::empty(), ..old(self)@ }),
    {
        let mut bytes: Vec<u8> = Vec::new();
        core::mem::swap(&mut self.out, &mut bytes);
        bytes
    }
}

/// How events are cut into batches makes no difference to what is written.
pub proof fn batches_do_not_show<C: CodeLookup>(
    v: JsonView,
    first: Seq<Event>,
    second: Seq<Event>,
    codes: C,
)
    ensures
        v.with_events(first + second, codes) == v.with_events(first, codes).with_events(
            second,
            codes,
        ),
    decreases second.len(),
{
    if second.len() == 0 {
        assert(first + second =~= first);
    } else {
        batches_do_not_show(v, first, second.drop_last(), codes);
        assert((first + second).drop_last() =~= first + second.drop_last());
        assert((first + second).last() == second.last());
    }
}

proof fn lemma_output_grows<C: CodeLookup>(v: JsonView, events: Seq<Event>, codes: C)
    ensures
        v.out.is_prefix_of(v.with_events(events, codes).out),
    decreases events.len(),
{
    if events.len() > 0 {
        lemma_output_grows(v, events.drop_last(), codes);
    }
}

/// A trace that ends after any of its events is the beginning of the whole trace,
/// so that a process killed in the middle leaves all it had written before.
pub proof fn a_trace_is_whole_up_to_its_end<C: CodeLookup>(
    v: JsonView,
    events: Seq<Event>,
    codes: C,
    n: int,
)
    requires
        0 <= n <= events.len(),
    ensures
        v.with_events(events.take(n), codes).out.is_prefix_of(v.with_events(events, codes).out),
{
    assert(events =~= events.take(n) + events.skip(n));
    batches_do_not_show(v, events.take(n), events.skip(n), codes);
    lemma_output_grows(v.with_events(events.take(n), codes), events.skip(n), codes);
}

/// An entry is an object with a comma behind it.
pub proof fn an_entry_is_followed_by_a_comma(pid: u32, ev: Event, code: CodeView)
    ensures
        entry(pid, ev, code).len() > 2,
        entry(pid, ev, code)[0] == 0x7b,
        entry(pid, ev, code)[entry(pid, ev, code).len() - 2] == 0x7d,
        entry(pid, ev, code).last() == 0x2c,
{
    reveal(entry);
    reveal_strlit("{\"name\":");
    reveal_strlit("\"}},");
    vstd::utf8::is_ascii_chars_encode_utf8("{\"name\":"@);
    vstd::utf8::is_ascii_chars_encode_utf8("\"}},"@);
    let first = utf8("{\"name\":"@);
    let last = utf8("\"}},"@);
    assert("{\"name\":"@[0] as u8 == first[0]);
    assert("\"}},"@[2] as u8 == last[2]);
    assert("\"}},"@[3] as u8 == last[3]);
    assert(head(code)[0] == first[0]);
}

/// The value of a hexadecimal digit.
pub open spec fn unhex(b: u8) -> int {
    if b >= 97 {
        b - 87
    } else {
        b - 48
    }
}

/// The byte that a letter behind a backslash stands for.
pub open spec fn unescaped(b: u8) -> u8 {
    if b == 0x62 {
        0x08
    } else if b == 0x74 {
        0x09
    } else if b == 0x6e {
        0x0a
    } else if b == 0x66 {
        0x0c
    } else if b == 0x72 {
        0x0d
    } else {
        b
    }
}

/// The text that a reader makes of what stands between the quotes of a string.
pub open spec fn read_back(s: Seq<u8>) -> Seq<u8>
    decreases s.len(),
{
    if s.len() == 0 {
        Seq::empty()
    } else if s[0] == 0x5c && s.len() >= 6 && s[1] == 0x75 {
        seq![(16 * unhex(s[4]) + unhex(s[5])) as u8] + read_back(s.skip(6))
    } else if s[0] == 0x5c && s.len() >= 2 {
        seq![unescaped(s[1])] + read_back(s.skip(2))
    } else {
        seq![s[0]] + read_back(s.skip(1))
    }
}

pub proof fn lemma_escaped_first(bytes: Seq<u8>)
    requires
        bytes.len() > 0,
    ensures
        escaped_all(bytes) == escaped(bytes[0]) + escaped_all(bytes.skip(1)),
    decreases bytes.len(),
{
    let rest = bytes.skip(1);
    if bytes.len() == 1 {
        assert(bytes.drop_last() =~= Seq::empty());
        assert(rest =~= Seq::empty());
        assert(escaped_all(Seq::empty()) =~= Seq::empty());
        assert(Seq::<u8>::empty() + escaped(bytes[0]) =~= escaped(bytes[0]) + Seq::<u8>::empty());
    } else {
        lemma_escaped_first(bytes.drop_last());
        assert(bytes.drop_last().skip(1) =~= rest.drop_last());
        assert(escaped_all(bytes) =~= escaped(bytes[0]) + (escaped_all(rest.drop_last())
            + escaped(rest.last())));
    }
}

/// A reader gets back the text that was written, whatever it holds.
pub proof fn strings_read_back(bytes: Seq<u8>)
    ensures
        read_back(escaped_all(bytes)) == bytes,
    decreases bytes.len(),
{
    if bytes.len() == 0 {
        assert(read_back(Seq::empty()) =~= Seq::empty());
        assert(bytes =~= Seq::empty());
    } else {
        let b = bytes[0];
        let all = escaped_all(bytes);
        let rest = escaped_all(bytes.skip(1));
        lemma_escaped_first(bytes);
        strings_read_back(bytes.skip(1));
        let n = escaped(b).len() as int;
        assert(all.skip(n) =~= rest);
        if n == 6 {
            assert(16 * unhex(all[4]) + unhex(all[5]) == b);
        }
        assert(read_back(all) == seq![b] + read_back(rest));
        assert(bytes =~= seq![b] + bytes.skip(1));
    }
}

/// What is written of a string holds no control character, so no line ends in it.
pub proof fn strings_hold_no_control_characters(bytes: Seq<u8>)
    ensures
        forall|i: int|
            0 <= i < escaped_all(bytes).len() ==> #[trigger] escaped_all(bytes)[i] >= 0x20,
    decreases bytes.len(),
{
    if bytes.len() > 0 {
        strings_hold_no_control_characters(bytes.drop_last());
        let head = escaped_all(bytes.drop_last());
        let own = escaped(bytes.last());
        assert forall|i: int| 0 <= i < escaped_all(bytes).len() implies #[trigger] escaped_all(
            bytes,
        )[i] >= 0x20 by {
            if i < head.len() {
                assert(escaped_all(bytes)[i] == head[i]);
            } else {
                assert(escaped_all(bytes)[i] == own[i - head.len()]);
            }
        }
    }
}

/// A byte stands for itself in a string unless it is a quote, a backslash or a control
/// character. Those have a backslash before them: the first two as they are, five control
/// characters as a letter, and the others as four digits.
pub proof fn a_byte_stands_for_itself_or_is_escaped(b: u8)
    ensures
        b >= 0x20 && b != 0x22 && b != 0x5c ==> escaped(b) == seq![b],
        b == 0x22 ==> escaped(b) == seq![0x5cu8, 0x22u8],
        b == 0x5c ==> escaped(b) == seq![0x5cu8, 0x5cu8],
        b == 0x08 ==> escaped(b) == seq![0x5cu8, 0x62u8],
        b == 0x09 ==> escaped(b) == seq![0x5cu8, 0x74u8],
        b == 0x0a ==> escaped(b) == seq![0x5cu8, 0x6eu8],
        b == 0x0c ==> escaped(b) == seq![0x5cu8, 0x66u8],
        b == 0x0d ==> escaped(b) == seq![0x5cu8, 0x72u8],
        b < 0x20 && b != 0x08 && b != 0x09 && b != 0x0a && b != 0x0c && b != 0x0d ==> {
            &&& escaped(b).len() == 6
            &&& escaped(b).take(4) == seq![0x5cu8, 0x75u8, 0x30u8, 0x30u8]
            &&& escaped(b)[4] == 0x30 + b / 16
            &&& b % 16 < 10 ==> escaped(b)[5] == 0x30 + b % 16
            &&& b % 16 >= 10 ==> escaped(b)[5] == 0x61 + (b % 16 - 10)
        },
{
    assert(b < 0x20 && b != 0x08 && b != 0x09 && b != 0x0a && b != 0x0c && b != 0x0d
        ==> escaped(b).take(4) =~= seq![0x5cu8, 0x75u8, 0x30u8, 0x30u8]);
}

} // verus!
