//! Profiles: where the time went, by stack.

use crate::clock::low64;
use crate::event::{code_of_word, kind_of_word, opens, Event};
use crate::idmap::{with_string, Index, Strings};
use crate::json::shown_name;
use crate::proto::{dropped_message, dropped_text};
use crate::sink::{nothing_known, CodeInfo, CodeLookup, CodeView, Exporter, ThreadNames};
use crate::text::{lemma_append, push_bytes, utf8};
use crate::wire::{
    bytes_field, number_field, packed_field, push_field, push_number, put_packed, put_string,
};
use vstd::prelude::*;

verus! {

/// Whether one stack comes before another: by the first code in which they differ,
/// and a stack before those that go on from it.
pub open spec fn comes_before(a: Seq<u32>, b: Seq<u32>) -> bool
    decreases a.len(),
{
    if b.len() == 0 {
        false
    } else if a.len() == 0 {
        true
    } else if a[0] != b[0] {
        a[0] < b[0]
    } else {
        comes_before(a.skip(1), b.skip(1))
    }
}

/// The time spent in some stacks.
pub type Times = Seq<(Seq<u32>, u64)>;

/// Whether the stacks are in order, each there once.
pub open spec fn in_order(times: Times) -> bool {
    forall|i: int, j: int|
        0 <= i < j < times.len() ==> comes_before(
            (#[trigger] times[i]).0,
            (#[trigger] times[j]).0,
        )
}

/// How many of the first `n` stacks come before a stack, where they are in order.
pub open spec fn place_among(times: Times, stack: Seq<u32>, n: int) -> int
    decreases n,
{
    if n <= 0 {
        0
    } else if comes_before(times[n - 1].0, stack) {
        n
    } else {
        place_among(times, stack, n - 1)
    }
}

/// The times after more has been spent in a stack.
pub open spec fn charged(times: Times, stack: Seq<u32>, ns: u64) -> Times {
    let at = place_among(times, stack, times.len() as int);
    if at < times.len() && times[at].0 == stack {
        times.update(at, (stack, low64(times[at].1 + ns)))
    } else {
        times.insert(at, (stack, ns))
    }
}

/// The stack of a thread, and the time of its last event.
pub struct FoldView {
    pub stack: Seq<u32>,
    pub last_ts: u64,
}

/// The stacks of all threads, and the time spent so far.
pub struct Folded {
    pub folds: Map<u32, FoldView>,
    pub times: Times,
}

/// The state of a thread before an event. It starts at its first one.
pub open spec fn fold_before(folds: Map<u32, FoldView>, ev: Event) -> FoldView {
    if folds.contains_key(ev.tid) {
        folds[ev.tid]
    } else {
        FoldView { stack: Seq::empty(), last_ts: ev.ts_ns }
    }
}

/// The time since the last event of a thread. A clock that ran backwards counts as
/// one that stood still.
pub open spec fn elapsed(fold: FoldView, ev: Event) -> u64 {
    if ev.ts_ns > fold.last_ts {
        (ev.ts_ns - fold.last_ts) as u64
    } else {
        0
    }
}

/// The state of a thread after an event.
pub open spec fn fold_after(fold: FoldView, ev: Event) -> FoldView {
    FoldView {
        stack: if opens(kind_of_word(ev.code_kind)) {
            fold.stack.push(code_of_word(ev.code_kind))
        } else if fold.stack.len() > 0 {
            fold.stack.drop_last()
        } else {
            fold.stack
        },
        last_ts: ev.ts_ns,
    }
}

impl Folded {
    /// After an event: the time since the thread's last one was spent in the stack
    /// it had.
    pub open spec fn with_event(self, ev: Event) -> Folded {
        let fold = fold_before(self.folds, ev);
        let ns = elapsed(fold, ev);
        Folded {
            folds: self.folds.insert(ev.tid, fold_after(fold, ev)),
            times: if ns > 0 && fold.stack.len() > 0 {
                charged(self.times, fold.stack, ns)
            } else {
                self.times
            },
        }
    }

    /// After some events.
    pub open spec fn with_events(self, events: Seq<Event>) -> Folded
        decreases events.len(),
    {
        if events.len() == 0 {
            self
        } else {
            self.with_events(events.drop_last()).with_event(events.last())
        }
    }
}

/// The number that a code object goes by in a profile, where zero means none.
pub open spec fn location_number(code_id: u32) -> u64 {
    (code_id + 1) as u64
}

/// The numbers of a stack, the innermost first.
pub open spec fn leaf_first(stack: Seq<u32>) -> Seq<u64> {
    Seq::new(stack.len(), |i: int| location_number(stack[stack.len() - 1 - i]))
}

/// The sample of a stack.
pub open spec fn sample(stack: Seq<u32>, ns: u64) -> Seq<u8> {
    bytes_field(2, packed_field(1, leaf_first(stack)) + packed_field(2, seq![ns]))
}

/// The samples of all stacks.
pub open spec fn samples(times: Times) -> Seq<u8>
    decreases times.len(),
{
    if times.len() == 0 {
        Seq::empty()
    } else {
        samples(times.drop_last()) + sample(times.last().0, times.last().1)
    }
}

/// How many of the first `n` codes are less than a code, where they go up.
pub open spec fn code_place(codes: Seq<u32>, code: u32, n: int) -> int
    decreases n,
{
    if n <= 0 {
        0
    } else if codes[n - 1] < code {
        n
    } else {
        code_place(codes, code, n - 1)
    }
}

/// Some codes, and one more where it is not among them, in order.
pub open spec fn with_code(codes: Seq<u32>, code: u32) -> Seq<u32> {
    let at = code_place(codes, code, codes.len() as int);
    if at < codes.len() && codes[at] == code {
        codes
    } else {
        codes.insert(at, code)
    }
}

/// Some codes, and those of a stack, in order.
pub open spec fn with_stack(codes: Seq<u32>, stack: Seq<u32>) -> Seq<u32>
    decreases stack.len(),
{
    if stack.len() == 0 {
        codes
    } else {
        with_code(with_stack(codes, stack.drop_last()), stack.last())
    }
}

/// The codes that occur in some stacks, in order, each once.
pub open spec fn used_codes(times: Times) -> Seq<u32>
    decreases times.len(),
{
    if times.len() == 0 {
        Seq::empty()
    } else {
        with_stack(used_codes(times.drop_last()), times.last().0)
    }
}

/// What a profile says of its code objects, and the strings it has come to.
pub struct Tables {
    pub strings: Seq<Seq<char>>,
    pub locations: Seq<u8>,
    pub functions: Seq<u8>,
}

/// The location of a code object.
pub open spec fn location(code_id: u32, line: u32) -> Seq<u8> {
    let id = location_number(code_id);
    bytes_field(
        4,
        number_field(1, id) + bytes_field(4, number_field(1, id) + number_field(2, line as u64)),
    )
}

/// The function of a code object.
pub open spec fn function(code_id: u32, name: u64, filename: u64, line: u32) -> Seq<u8> {
    bytes_field(
        5,
        number_field(1, location_number(code_id)) + number_field(2, name) + number_field(3, name)
            + number_field(4, filename) + number_field(5, line as u64),
    )
}

/// What is known of a code object, or that nothing is.
pub open spec fn code_or_nothing(code: Option<CodeView>) -> CodeView {
    match code {
        Some(code) => code,
        None => nothing_known(),
    }
}

impl Tables {
    /// With one more code object.
    pub open spec fn with_code<C: CodeLookup>(self, code_id: u32, codes: C) -> Tables {
        let code = code_or_nothing(codes.resolved(code_id));
        let named = with_string(self.strings, shown_name(code.qualname));
        let strings = with_string(named, code.filename);
        let name = named.index_of(shown_name(code.qualname)) as u64;
        let filename = strings.index_of(code.filename) as u64;
        Tables {
            strings,
            locations: self.locations + location(code_id, code.firstlineno),
            functions: self.functions + function(code_id, name, filename, code.firstlineno),
        }
    }

    /// With some code objects.
    pub open spec fn with_codes<C: CodeLookup>(self, ids: Seq<u32>, codes: C) -> Tables
        decreases ids.len(),
    {
        if ids.len() == 0 {
            self
        } else {
            self.with_codes(ids.drop_last(), codes).with_code(ids.last(), codes)
        }
    }
}

/// A table of strings as it is written.
pub open spec fn string_table(strings: Seq<Seq<char>>) -> Seq<u8>
    decreases strings.len(),
{
    if strings.len() == 0 {
        Seq::empty()
    } else {
        string_table(strings.drop_last()) + bytes_field(6, utf8(strings.last()))
    }
}

/// The strings of every profile. The first is the empty one, so that zero means none.
pub open spec fn first_strings() -> Seq<Seq<char>> {
    seq![""@, "wall"@, "nanoseconds"@]
}

/// A profile as it is written.
pub open spec fn profile<C: CodeLookup>(times: Times, codes: C, dropped: u64) -> Seq<u8> {
    let tables = Tables {
        strings: first_strings(),
        locations: Seq::empty(),
        functions: Seq::empty(),
    }.with_codes(used_codes(times), codes);
    let said = dropped_text(dropped);
    let strings = if dropped == 0 {
        tables.strings
    } else {
        with_string(tables.strings, said)
    };
    bytes_field(1, number_field(1, 1) + number_field(2, 2)) + samples(times) + tables.locations
        + tables.functions + string_table(strings) + (if dropped == 0 {
        Seq::empty()
    } else {
        packed_field(13, seq![strings.index_of(said) as u64])
    })
}

proof fn lemma_transitive(a: Seq<u32>, b: Seq<u32>, c: Seq<u32>)
    requires
        comes_before(a, b),
        comes_before(b, c),
    ensures
        comes_before(a, c),
    decreases a.len(),
{
    if a.len() > 0 && a[0] == b[0] && b[0] == c[0] {
        lemma_transitive(a.skip(1), b.skip(1), c.skip(1));
    }
}

pub proof fn lemma_total(a: Seq<u32>, b: Seq<u32>)
    ensures
        comes_before(a, b) || comes_before(b, a) || a == b,
        !(comes_before(a, b) && comes_before(b, a)),
        comes_before(a, b) ==> a != b,
    decreases a.len(),
{
    if a.len() == 0 || b.len() == 0 {
        if a.len() == b.len() {
            assert(a =~= b);
        }
    } else if a[0] == b[0] {
        lemma_total(a.skip(1), b.skip(1));
        if a.skip(1) == b.skip(1) {
            assert(a =~= seq![a[0]] + a.skip(1));
            assert(b =~= seq![b[0]] + b.skip(1));
        }
    }
}

fn precedes(a: &Vec<u32>, b: &Vec<u32>) -> (r: bool)
    ensures
        r == comes_before(a@, b@),
{
    let mut i: usize = 0;
    assert(a@.skip(0) =~= a@);
    assert(b@.skip(0) =~= b@);
    while i < a.len() && i < b.len()
        invariant
            i <= a@.len(),
            i <= b@.len(),
            comes_before(a@, b@) == comes_before(a@.skip(i as int), b@.skip(i as int)),
        decreases a@.len() - i,
    {
        if a[i] != b[i] {
            return a[i] < b[i];
        }
        assert(a@.skip(i as int).skip(1) =~= a@.skip(i + 1));
        assert(b@.skip(i as int).skip(1) =~= b@.skip(i + 1));
        i = i + 1;
    }
    i < b.len()
}

fn same_stack(a: &Vec<u32>, b: &Vec<u32>) -> (r: bool)
    ensures
        r == (a@ == b@),
{
    if a.len() != b.len() {
        return false;
    }
    let n: usize = a.len();
    for i in 0..n
        invariant
            n == a@.len() == b@.len(),
            forall|j: int| 0 <= j < i ==> a@[j] == b@[j],
    {
        if a[i] != b[i] {
            return false;
        }
    }
    assert(a@ =~= b@);
    true
}

/// The time spent in a stack.
struct Entry {
    stack: Vec<u32>,
    ns: u64,
}

/// What some entries say.
spec fn times_of(entries: Seq<Entry>) -> Times {
    Seq::new(entries.len(), |i: int| (entries[i].stack@, entries[i].ns))
}

proof fn lemma_place(times: Times, stack: Seq<u32>, n: int, at: int)
    requires
        0 <= at <= n <= times.len(),
        forall|i: int| 0 <= i < at ==> comes_before((#[trigger] times[i]).0, stack),
        forall|i: int| at <= i < n ==> !comes_before((#[trigger] times[i]).0, stack),
    ensures
        place_among(times, stack, n) == at,
    decreases n,
{
    if n > at {
        lemma_place(times, stack, n - 1, at);
    }
}

/// Charging a stack keeps the stacks in order.
pub proof fn charging_keeps_order(times: Times, stack: Seq<u32>, ns: u64)
    requires
        in_order(times),
    ensures
        in_order(charged(times, stack, ns)),
        ({
            let at = place_among(times, stack, times.len() as int);
            &&& 0 <= at <= times.len()
            &&& forall|i: int| 0 <= i < at ==> comes_before((#[trigger] times[i]).0, stack)
            &&& forall|i: int|
                at <= i < times.len() ==> !comes_before((#[trigger] times[i]).0, stack)
        }),
{
    let n = times.len() as int;
    let at = lemma_place_exists(times, stack, n);
    lemma_place(times, stack, n, at);
    let after = charged(times, stack, ns);
    if at < n && times[at].0 == stack {
        assert forall|i: int, j: int| 0 <= i < j < after.len() implies comes_before(
            (#[trigger] after[i]).0,
            (#[trigger] after[j]).0,
        ) by {
            assert(after[i].0 == times[i].0 && after[j].0 == times[j].0);
        }
    } else {
        assert forall|i: int, j: int| 0 <= i < j < after.len() implies comes_before(
            (#[trigger] after[i]).0,
            (#[trigger] after[j]).0,
        ) by {
            if i == at {
                assert(after[j] == times[j - 1]);
                lemma_total(times[at].0, stack);
                if j - 1 > at {
                    assert(comes_before(times[at].0, times[j - 1].0));
                    lemma_transitive(stack, times[at].0, times[j - 1].0);
                }
            } else if j == at {
                assert(after[i] == times[i]);
            } else {
                let a = if i < at {
                    i
                } else {
                    i - 1
                };
                let b = if j < at {
                    j
                } else {
                    j - 1
                };
                assert(after[i] == times[a] && after[j] == times[b]);
            }
        }
    }
}

proof fn lemma_place_exists(times: Times, stack: Seq<u32>, n: int) -> (at: int)
    requires
        in_order(times),
        0 <= n <= times.len(),
    ensures
        0 <= at <= n,
        forall|i: int| 0 <= i < at ==> comes_before((#[trigger] times[i]).0, stack),
        forall|i: int| at <= i < n ==> !comes_before((#[trigger] times[i]).0, stack),
    decreases n,
{
    if n == 0 {
        0
    } else if comes_before(times[n - 1].0, stack) {
        assert forall|i: int| 0 <= i < n implies comes_before((#[trigger] times[i]).0, stack) by {
            if i < n - 1 {
                lemma_transitive(times[i].0, times[n - 1].0, stack);
            }
        }
        n
    } else {
        lemma_place_exists(times, stack, n - 1)
    }
}

/// Adds to the time spent in a stack.
fn charge(entries: &mut Vec<Entry>, stack: &Vec<u32>, ns: u64)
    requires
        in_order(times_of(old(entries)@)),
    ensures
        in_order(times_of(final(entries)@)),
        times_of(final(entries)@) == charged(times_of(old(entries)@), stack@, ns),
{
    let ghost times = times_of(entries@);
    let n: usize = entries.len();
    let mut lo: usize = 0;
    let mut hi: usize = n;
    while lo < hi
        invariant
            lo <= hi <= n == entries@.len(),
            times == times_of(entries@),
            in_order(times),
            forall|i: int| 0 <= i < lo ==> comes_before((#[trigger] times[i]).0, stack@),
            forall|i: int| hi <= i < n ==> !comes_before((#[trigger] times[i]).0, stack@),
        decreases hi - lo,
    {
        let mid: usize = lo + (hi - lo) / 2;
        assert(times[mid as int].0 == entries@[mid as int].stack@);
        if precedes(&entries[mid].stack, stack) {
            proof {
                assert forall|i: int| 0 <= i < mid + 1 implies comes_before(
                    (#[trigger] times[i]).0,
                    stack@,
                ) by {
                    if i < mid {
                        lemma_transitive(times[i].0, times[mid as int].0, stack@);
                    }
                }
            }
            lo = mid + 1;
        } else {
            proof {
                assert forall|i: int| mid <= i < n implies !comes_before(
                    (#[trigger] times[i]).0,
                    stack@,
                ) by {
                    if mid < i && comes_before(times[i].0, stack@) {
                        lemma_transitive(times[mid as int].0, times[i].0, stack@);
                    }
                }
            }
            hi = mid;
        }
    }
    proof {
        lemma_place(times, stack@, n as int, lo as int);
        charging_keeps_order(times, stack@, ns);
    }
    let found: bool = lo < n && same_stack(&entries[lo].stack, stack);
    assert(lo < n ==> times[lo as int].0 == entries@[lo as int].stack@);
    if found {
        let sum: u64 = entries[lo].ns.wrapping_add(ns);
        entries[lo].ns = sum;
    } else {
        let mut copy: Vec<u32> = Vec::new();
        copy.extend_from_slice(stack.as_slice());
        assert(copy@ =~= stack@);
        entries.insert(lo, Entry { stack: copy, ns });
    }
    assert(times_of(entries@) =~= charged(times, stack@, ns));
}

struct Fold {
    stack: Vec<u32>,
    last_ts: u64,
}

/// Adds up the time spent in each stack, and writes it out at the end.
pub struct PprofExporter {
    out: Vec<u8>,
    index: Index,
    folds: Vec<Fold>,
    self_ns: Vec<Entry>,
}

/// What an exporter has written and added up.
pub struct PprofView {
    pub out: Seq<u8>,
    pub folded: Folded,
}

impl View for PprofExporter {
    type V = PprofView;

    closed spec fn view(&self) -> PprofView {
        PprofView {
            out: self.out@,
            folded: Folded {
                folds: Map::new(
                    |tid: u32| self.index@.contains(tid as u64),
                    |tid: u32|
                        {
                            let fold = self.folds@[self.index@.index_of(tid as u64)];
                            FoldView { stack: fold.stack@, last_ts: fold.last_ts }
                        },
                ),
                times: times_of(self.self_ns@),
            },
        }
    }
}

impl PprofExporter {
    closed spec fn tables_fit(&self) -> bool {
        &&& self.index.wf()
        &&& self.index@.len() == self.folds@.len()
        &&& in_order(times_of(self.self_ns@))
    }

    pub fn new() -> (ex: Self)
        ensures
            ex.wf(),
            ex@ == (PprofView {
                out: Seq::empty(),
                folded: Folded { folds: Map::empty(), times: Seq::empty() },
            }),
    {
        let ex = PprofExporter {
            out: Vec::new(),
            index: Index::new(),
            folds: Vec::new(),
            self_ns: Vec::new(),
        };
        assert(ex@.folded.folds =~= Map::empty());
        assert(ex@.folded.times =~= Seq::empty());
        ex
    }

    /// The exporter of a new profile.
    pub fn create() -> (ex: Self)
        ensures
            ex.wf(),
            ex@ == (PprofView {
                out: Seq::empty(),
                folded: Folded { folds: Map::empty(), times: Seq::empty() },
            }),
    {
        PprofExporter::new()
    }

    /// The place of a thread, which starts with an event where it has none.
    fn fold(&mut self, ev: &Event) -> (place: usize)
        requires
            old(self).tables_fit(),
        ensures
            final(self).tables_fit(),
            final(self).out == old(self).out,
            final(self).self_ns == old(self).self_ns,
            place < final(self).folds@.len(),
            final(self).index@[place as int] == ev.tid as u64,
            ({
                let fold = final(self).folds@[place as int];
                let before = fold_before(old(self)@.folded.folds, *ev);
                &&& fold.stack@ == before.stack
                &&& fold.last_ts == before.last_ts
                &&& final(self)@.folded.folds == old(self)@.folded.folds.insert(ev.tid, before)
            }),
    {
        let ghost before = self@.folded.folds;
        let ghost keys = self.index@;
        match self.index.find(ev.tid as u64) {
            Some(place) => {
                assert(keys.index_of(ev.tid as u64) == place);
                assert(before.insert(ev.tid, before[ev.tid]) =~= before);
                place
            },
            None => {
                let place: usize = self.index.add(ev.tid as u64);
                self.folds.push(Fold { stack: Vec::new(), last_ts: ev.ts_ns });
                proof {
                    self.index.numbers_differ();
                    let tid = ev.tid as u64;
                    assert(self.index@[place as int] == tid);
                    assert(self.index@.index_of(tid) == place);
                    assert(self.folds@[place as int].stack@ =~= Seq::empty());
                    assert forall|k: u64| #[trigger] keys.contains(k) implies self.index@.contains(
                        k,
                    ) && self.index@.index_of(k) == keys.index_of(k) by {
                        let i = keys.index_of(k);
                        assert(keys[i] == k);
                        assert(self.index@[i] == k);
                    }
                    assert forall|k: u64|
                        k != tid && #[trigger] self.index@.contains(k) implies keys.contains(k) by {
                        let i = self.index@.index_of(k);
                        assert(keys[i] == k);
                    }
                    assert(self@.folded.folds =~= before.insert(
                        ev.tid,
                        fold_before(before, *ev),
                    ));
                }
                place
            },
        }
    }

    /// Takes in one event.
    fn take_in(&mut self, ev: &Event)
        requires
            old(self).tables_fit(),
        ensures
            final(self).tables_fit(),
            final(self)@ == (PprofView {
                folded: old(self)@.folded.with_event(*ev),
                ..old(self)@
            }),
    {
        let ghost start = self@;
        let ghost fold = fold_before(self@.folded.folds, *ev);
        let place: usize = self.fold(ev);
        let ghost mid = self@.folded.folds;
        let ghost held = self.folds@;
        let ns: u64 = ev.ts_ns.saturating_sub(self.folds[place].last_ts);
        self.folds[place].last_ts = ev.ts_ns;
        if ns > 0 && self.folds[place].stack.len() > 0 {
            charge(&mut self.self_ns, &self.folds[place].stack, ns);
        }
        if ev.kind().opens_slice() {
            self.folds[place].stack.push(ev.code_id());
        } else {
            let _ = self.folds[place].stack.pop();
        }
        proof {
            self.index.numbers_differ();
            let after = fold_after(fold, *ev);
            assert(self.folds@[place as int].stack@ =~= after.stack);
            assert(self.index@.index_of(ev.tid as u64) == place);
            assert forall|k: u64|
                k != ev.tid as u64 && #[trigger] self.index@.contains(k) implies self.index@.index_of(
                k,
            ) != place by {
                assert(self.index@[self.index@.index_of(k)] == k);
            }
            assert(forall|i: int|
                0 <= i < held.len() && i != place ==> self.folds@[i] == held[i]);
            let now = self@.folded.folds;
            assert forall|tid: u32| #[trigger] now.contains_key(tid) implies now[tid] == (
            if tid == ev.tid {
                after
            } else {
                mid[tid]
            }) by {
                assert(self.index@.contains(tid as u64));
                let i = self.index@.index_of(tid as u64);
                assert(0 <= i < held.len());
                if tid == ev.tid {
                    assert(now[tid] == after);
                } else {
                    assert(i != place);
                }
            }
            assert(now.dom() =~= mid.dom());
            let expected = start.folded.folds.insert(ev.tid, after);
            assert(expected.dom() =~= mid.dom());
            assert(now =~= expected);
        }
    }
}

/// Puts a code into those of a profile, which go up.
fn add_code(codes: &mut Vec<u32>, code: u32)
    requires
        goes_up(old(codes)@),
    ensures
        goes_up(final(codes)@),
        final(codes)@ == with_code(old(codes)@, code),
{
    let n: usize = codes.len();
    let mut lo: usize = 0;
    let mut hi: usize = n;
    while lo < hi
        invariant
            lo <= hi <= n == codes@.len(),
            goes_up(codes@),
            forall|i: int| 0 <= i < lo ==> #[trigger] codes@[i] < code,
            forall|i: int| hi <= i < n ==> #[trigger] codes@[i] >= code,
        decreases hi - lo,
    {
        let mid: usize = lo + (hi - lo) / 2;
        if codes[mid] < code {
            lo = mid + 1;
        } else {
            hi = mid;
        }
    }
    proof {
        lemma_code_place(codes@, code, n as int, lo as int);
    }
    if !(lo < n && codes[lo] == code) {
        codes.insert(lo, code);
    }
}

/// Whether codes go up.
pub open spec fn goes_up(codes: Seq<u32>) -> bool {
    forall|i: int, j: int| 0 <= i < j < codes.len() ==> #[trigger] codes[i] < #[trigger] codes[j]
}

proof fn lemma_code_place(codes: Seq<u32>, code: u32, n: int, at: int)
    requires
        0 <= at <= n <= codes.len(),
        forall|i: int| 0 <= i < at ==> #[trigger] codes[i] < code,
        forall|i: int| at <= i < n ==> #[trigger] codes[i] >= code,
    ensures
        code_place(codes, code, n) == at,
    decreases n,
{
    if n > at {
        lemma_code_place(codes, code, n - 1, at);
    }
}

fn location_id(code_id: u32) -> (id: u64)
    ensures
        id == location_number(code_id),
{
    code_id as u64 + 1
}

fn push_sample(entry: &Entry, out: &mut Vec<u8>)
    ensures
        final(out)@ == old(out)@ + sample(entry.stack@, entry.ns),
{
    let n: usize = entry.stack.len();
    let mut ids: Vec<u64> = Vec::new();
    for i in 0..n
        invariant
            n == entry.stack@.len(),
            ids@ =~= leaf_first(entry.stack@).take(i as int),
    {
        ids.push(location_id(entry.stack[n - 1 - i]));
    }
    assert(ids@ =~= leaf_first(entry.stack@));
    let mut values: Vec<u64> = Vec::new();
    values.push(entry.ns);
    assert(values@ =~= seq![entry.ns]);
    let mut body: Vec<u8> = Vec::new();
    put_packed(1, &ids, &mut body);
    put_packed(2, &values, &mut body);
    assert(body@ =~= packed_field(1, leaf_first(entry.stack@)) + packed_field(
        2,
        seq![entry.ns],
    ));
    push_field(2, &body, out);
}

fn push_location(code_id: u32, line: u32, out: &mut Vec<u8>)
    ensures
        final(out)@ == old(out)@ + location(code_id, line),
{
    let id: u64 = location_id(code_id);
    let mut inner: Vec<u8> = Vec::new();
    push_number(1, id, &mut inner);
    push_number(2, line as u64, &mut inner);
    assert(inner@ =~= number_field(1, id) + number_field(2, line as u64));
    let mut body: Vec<u8> = Vec::new();
    push_number(1, id, &mut body);
    push_field(4, &inner, &mut body);
    assert(body@ =~= number_field(1, id) + bytes_field(4, inner@));
    push_field(4, &body, out);
}

fn push_function(code_id: u32, name: u64, filename: u64, line: u32, out: &mut Vec<u8>)
    ensures
        final(out)@ == old(out)@ + function(code_id, name, filename, line),
{
    let mut body: Vec<u8> = Vec::new();
    push_number(1, location_id(code_id), &mut body);
    push_number(2, name, &mut body);
    push_number(3, name, &mut body);
    push_number(4, filename, &mut body);
    push_number(5, line as u64, &mut body);
    assert(body@ =~= number_field(1, location_number(code_id)) + number_field(2, name)
        + number_field(3, name) + number_field(4, filename) + number_field(5, line as u64));
    push_field(5, &body, out);
}

fn push_strings(strings: &Strings, out: &mut Vec<u8>)
    ensures
        final(out)@ == old(out)@ + string_table(strings@),
{
    let ghost start = out@;
    let n: usize = strings.len();
    assert(strings@.take(0) =~= Seq::empty());
    assert(out@ =~= start + string_table(strings@.take(0)));
    for i in 0..n
        invariant
            n == strings@.len(),
            out@ == start + string_table(strings@.take(i as int)),
    {
        assert(strings@.take(i + 1).drop_last() =~= strings@.take(i as int));
        put_string(6, strings.at(i), out);
        proof {
            lemma_append(
                start,
                string_table(strings@.take(i as int)),
                bytes_field(6, utf8(strings@[i as int])),
            );
        }
    }
    assert(strings@.take(n as int) =~= strings@);
}

/// The codes that occur in some stacks, in order, each once.
fn collect_codes(entries: &Vec<Entry>) -> (used: Vec<u32>)
    ensures
        used@ == used_codes(times_of(entries@)),
        goes_up(used@),
{
    let mut used: Vec<u32> = Vec::new();
    let ghost times = times_of(entries@);
    let n: usize = entries.len();
    assert(times.take(0) =~= Seq::empty());
    for i in 0..n
        invariant
            n == entries@.len(),
            times == times_of(entries@),
            goes_up(used@),
            used@ == used_codes(times.take(i as int)),
    {
        let ghost before = used@;
        let ghost stack = entries@[i as int].stack@;
        let m: usize = entries[i].stack.len();
        assert(stack.take(0) =~= Seq::empty());
        for j in 0..m
            invariant
                i < entries@.len(),
                stack == entries@[i as int].stack@,
                m == stack.len(),
                goes_up(used@),
                used@ == with_stack(before, stack.take(j as int)),
        {
            assert(stack.take(j + 1).drop_last() =~= stack.take(j as int));
            add_code(&mut used, entries[i].stack[j]);
        }
        assert(stack.take(m as int) =~= stack);
        assert(times.take(i + 1).drop_last() =~= times.take(i as int));
    }
    assert(times.take(n as int) =~= times);
    used
}

/// The strings that every profile starts with.
fn start_strings() -> (strings: Strings)
    ensures
        strings.wf(),
        strings@ == first_strings(),
{
    let mut strings = Strings::with_empty_head();
    let _ = strings.id("wall");
    let _ = strings.id("nanoseconds");
    proof {
        reveal_strlit("");
        reveal_strlit("wall");
        reveal_strlit("nanoseconds");
        let one = seq![""@];
        assert(!one.contains("wall"@)) by {
            assert(""@.len() != "wall"@.len());
        }
        let two = one.push("wall"@);
        assert(!two.contains("nanoseconds"@)) by {
            assert(""@.len() != "nanoseconds"@.len());
            assert("wall"@.len() != "nanoseconds"@.len());
        }
        assert(strings@ =~= first_strings());
    }
    strings
}

/// What a profile says of its code objects.
struct Sections {
    strings: Strings,
    locations: Vec<u8>,
    functions: Vec<u8>,
}

fn make_sections<C: CodeLookup>(used: &Vec<u32>, codes: &C) -> (r: Sections)
    ensures
        r.strings.wf(),
        (Tables { strings: r.strings@, locations: r.locations@, functions: r.functions@ })
            == (Tables {
            strings: first_strings(),
            locations: Seq::empty(),
            functions: Seq::empty(),
        }).with_codes(used@, *codes),
{
    let mut strings = start_strings();
    let mut locations: Vec<u8> = Vec::new();
    let mut functions: Vec<u8> = Vec::new();
    let ghost start = Tables {
        strings: first_strings(),
        locations: Seq::empty(),
        functions: Seq::empty(),
    };
    let n: usize = used.len();
    proof {
        assert(used@.take(0) =~= Seq::empty());
        assert(locations@ =~= Seq::empty());
        assert(functions@ =~= Seq::empty());
    }
    for i in 0..n
        invariant
            n == used@.len(),
            strings.wf(),
            (Tables { strings: strings@, locations: locations@, functions: functions@ })
                == start.with_codes(used@.take(i as int), *codes),
    {
        let code_id: u32 = used[i];
        assert(used@.take(i + 1).drop_last() =~= used@.take(i as int));
        let info = match codes.code(code_id) {
            Some(info) => info,
            None => CodeInfo::default(),
        };
        let name: u64 = if info.qualname.as_str().is_empty() {
            strings.id("<unknown>")
        } else {
            strings.id(info.qualname.as_str())
        };
        let filename: u64 = strings.id(info.filename.as_str());
        push_function(code_id, name, filename, info.firstlineno, &mut functions);
        push_location(code_id, info.firstlineno, &mut locations);
    }
    assert(used@.take(n as int) =~= used@);
    Sections { strings, locations, functions }
}

impl Exporter for PprofExporter {
    open spec fn output(&self) -> Seq<u8> {
        self@.out
    }

    closed spec fn wf(&self) -> bool {
        self.tables_fit()
    }

    fn write_batch<C: CodeLookup, T: ThreadNames>(
        &mut self,
        events: &[Event],
        codes: &C,
        threads: &T,
    )
        ensures
            final(self)@ == (PprofView {
                folded: old(self)@.folded.with_events(events@),
                ..old(self)@
            }),
            events@.len() > 0 ==> final(self)@.folded.folds.contains_key(events@.last().tid)
                && final(self)@.folded.folds[events@.last().tid].last_ts == events@.last().ts_ns,
    {
        let n: usize = events.len();
        assert(events@.take(0) =~= Seq::empty());
        for i in 0..n
            invariant
                n == events@.len(),
                self.tables_fit(),
                self@ == (PprofView {
                    folded: old(self)@.folded.with_events(events@.take(i as int)),
                    ..old(self)@
                }),
        {
            assert(events@.take(i + 1).drop_last() =~= events@.take(i as int));
            self.take_in(&events[i]);
        }
        assert(events@.take(n as int) =~= events@);
    }

    fn finish<C: CodeLookup, T: ThreadNames>(&mut self, codes: &C, threads: &T, dropped: u64)
        ensures
            final(self)@ == (PprofView {
                out: old(self)@.out + profile(old(self)@.folded.times, *codes, dropped),
                folded: Folded { times: Seq::empty(), ..old(self)@.folded },
            }),
    {
        let ghost before = self@;
        let ghost times = self@.folded.times;
        let mut entries: Vec<Entry> = Vec::new();
        core::mem::swap(&mut self.self_ns, &mut entries);
        assert(times_of(self.self_ns@) =~= Seq::empty());
        assert(self@.folded.folds =~= before.folded.folds);

        let used = collect_codes(&entries);
        let sections = make_sections(&used, codes);
        let mut strings = sections.strings;
        let ghost tables = Tables {
            strings: strings@,
            locations: sections.locations@,
            functions: sections.functions@,
        };

        let mut kinds: Vec<u8> = Vec::new();
        push_number(1, 1, &mut kinds);
        push_number(2, 2, &mut kinds);
        assert(kinds@ =~= number_field(1, 1) + number_field(2, 2));
        let mut bytes: Vec<u8> = Vec::new();
        push_field(1, &kinds, &mut bytes);
        let ghost head = bytes_field(1, kinds@);
        assert(bytes@ =~= head);

        let n: usize = entries.len();
        assert(times.take(0) =~= Seq::empty());
        assert(bytes@ =~= head + samples(times.take(0)));
        for i in 0..n
            invariant
                n == entries@.len(),
                times == times_of(entries@),
                bytes@ == head + samples(times.take(i as int)),
        {
            assert(times.take(i + 1).drop_last() =~= times.take(i as int));
            push_sample(&entries[i], &mut bytes);
            proof {
                lemma_append(
                    head,
                    samples(times.take(i as int)),
                    sample(times[i as int].0, times[i as int].1),
                );
            }
        }
        assert(times.take(n as int) =~= times);

        let mut comment: Vec<u64> = Vec::new();
        if dropped > 0 {
            comment.push(strings.id(dropped_message(dropped).as_str()));
        }
        push_bytes(&mut bytes, sections.locations.as_slice());
        push_bytes(&mut bytes, sections.functions.as_slice());
        push_strings(&strings, &mut bytes);
        put_packed(13, &comment, &mut bytes);
        proof {
            if dropped > 0 {
                assert(comment@ =~= seq![strings@.index_of(dropped_text(dropped)) as u64]);
            }
            assert(bytes@ =~= profile(times, *codes, dropped));
        }
        push_bytes(&mut self.out, bytes.as_slice());
        assert(self@.folded.folds =~= before.folded.folds);
    }

    fn take_output(&mut self) -> (bytes: Vec<u8>)
        ensures
            final(self)@ == (PprofView { out: Seq::empty(), ..old(self)@ }),
    {
        let ghost before = self@;
        let mut bytes: Vec<u8> = Vec::new();
        core::mem::swap(&mut self.out, &mut bytes);
        assert(self@.folded.folds =~= before.folded.folds);
        bytes
    }
}

/// How events are cut into batches makes no difference to a profile.
pub proof fn batches_do_not_show(f: Folded, first: Seq<Event>, second: Seq<Event>)
    ensures
        f.with_events(first + second) == f.with_events(first).with_events(second),
    decreases second.len(),
{
    if second.len() == 0 {
        assert(first + second =~= first);
    } else {
        batches_do_not_show(f, first, second.drop_last());
        assert((first + second).drop_last() =~= first + second.drop_last());
        assert((first + second).last() == second.last());
    }
}

/// Where a stack stands, if it does.
pub open spec fn entry_place(times: Times, stack: Seq<u32>) -> int {
    choose|i: int| 0 <= i < times.len() && (#[trigger] times[i]).0 == stack
}

/// The time spent in a stack.
pub open spec fn spent(times: Times, stack: Seq<u32>) -> u64 {
    if exists|i: int| 0 <= i < times.len() && (#[trigger] times[i]).0 == stack {
        times[entry_place(times, stack)].1
    } else {
        0
    }
}

proof fn lemma_spent(times: Times, stack: Seq<u32>, i: int)
    requires
        in_order(times),
        0 <= i < times.len(),
        times[i].0 == stack,
    ensures
        spent(times, stack) == times[i].1,
{
    let j = entry_place(times, stack);
    if i < j {
        lemma_total(times[i].0, times[j].0);
    } else if j < i {
        lemma_total(times[j].0, times[i].0);
    }
}

/// What is charged to a stack is added to the time spent in it and to no other.
pub proof fn charges_add_up(times: Times, stack: Seq<u32>, ns: u64, other: Seq<u32>)
    requires
        in_order(times),
    ensures
        spent(charged(times, stack, ns), other) == (if other == stack {
            low64(spent(times, stack) + ns)
        } else {
            spent(times, other)
        }),
{
    charging_keeps_order(times, stack, ns);
    let at = place_among(times, stack, times.len() as int);
    let after = charged(times, stack, ns);
    let found = at < times.len() && times[at].0 == stack;
    if other == stack {
        assert(after[at].0 == stack);
        lemma_spent(after, stack, at);
        if found {
            lemma_spent(times, stack, at);
        } else if exists|i: int| 0 <= i < times.len() && (#[trigger] times[i]).0 == stack {
            let i = choose|i: int| 0 <= i < times.len() && (#[trigger] times[i]).0 == stack;
            lemma_total(times[i].0, stack);
            if at < i {
                lemma_total(times[at].0, stack);
                assert(comes_before(times[at].0, times[i].0));
            }
        }
    } else if exists|i: int| 0 <= i < times.len() && (#[trigger] times[i]).0 == other {
        let i = choose|i: int| 0 <= i < times.len() && (#[trigger] times[i]).0 == other;
        lemma_spent(times, other, i);
        let k = if found || i < at {
            i
        } else {
            i + 1
        };
        assert(after[k].0 == other && after[k].1 == times[i].1);
        lemma_spent(after, other, k);
    } else {
        if exists|k: int| 0 <= k < after.len() && (#[trigger] after[k]).0 == other {
            let k = choose|k: int| 0 <= k < after.len() && (#[trigger] after[k]).0 == other;
            let i = if found || k < at {
                k
            } else {
                k - 1
            };
            assert(times[i].0 == other);
        }
    }
}

/// The stacks of a profile stay in order, each there once, whatever happens.
pub proof fn stacks_stay_in_order(f: Folded, events: Seq<Event>)
    requires
        in_order(f.times),
    ensures
        in_order(f.with_events(events).times),
    decreases events.len(),
{
    if events.len() > 0 {
        stacks_stay_in_order(f, events.drop_last());
        let before = f.with_events(events.drop_last());
        let ev = events.last();
        let fold = fold_before(before.folds, ev);
        charging_keeps_order(before.times, fold.stack, elapsed(fold, ev));
    }
}

/// An event charges no stack but the one that its own thread had.
pub proof fn a_thread_charges_its_own_stack(f: Folded, ev: Event, stack: Seq<u32>)
    requires
        in_order(f.times),
        stack != fold_before(f.folds, ev).stack,
    ensures
        spent(f.with_event(ev).times, stack) == spent(f.times, stack),
{
    let fold = fold_before(f.folds, ev);
    charges_add_up(f.times, fold.stack, elapsed(fold, ev), stack);
}

/// Whether an event is of a thread.
pub open spec fn of_thread(tid: u32) -> spec_fn(Event) -> bool {
    |ev: Event| ev.tid == tid
}

/// The stack of a thread depends on its own events alone.
pub proof fn threads_are_folded_apart(f: Folded, events: Seq<Event>, tid: u32)
    ensures
        f.with_events(events).folds.contains_key(tid) == f.with_events(
            events.filter(of_thread(tid)),
        ).folds.contains_key(tid),
        f.with_events(events).folds.contains_key(tid) ==> f.with_events(events).folds[tid]
            == f.with_events(events.filter(of_thread(tid))).folds[tid],
    decreases events.len(),
{
    reveal(Seq::filter);
    if events.len() > 0 {
        threads_are_folded_apart(f, events.drop_last(), tid);
        let own = events.drop_last().filter(of_thread(tid));
        if events.last().tid == tid {
            assert(own.push(events.last()).drop_last() =~= own);
        }
    }
}

proof fn lemma_with_code_keeps(codes: Seq<u32>, code: u32, other: u32)
    ensures
        with_code(codes, code).contains(code),
        codes.contains(other) ==> with_code(codes, code).contains(other),
{
    let n = codes.len() as int;
    let at = code_place(codes, code, n);
    lemma_code_place_bounds(codes, code, n);
    let all = with_code(codes, code);
    assert(all[at] == code);
    if codes.contains(other) {
        let i = codes.index_of(other);
        if at < n && codes[at] == code || i < at {
            assert(all[i] == other);
        } else {
            assert(all[i + 1] == other);
        }
    }
}

proof fn lemma_code_place_bounds(codes: Seq<u32>, code: u32, n: int)
    requires
        0 <= n <= codes.len(),
    ensures
        0 <= code_place(codes, code, n) <= n,
    decreases n,
{
    if n > 0 && codes[n - 1] >= code {
        lemma_code_place_bounds(codes, code, n - 1);
    }
}

proof fn lemma_with_stack_keeps(codes: Seq<u32>, stack: Seq<u32>, other: u32)
    ensures
        codes.contains(other) ==> with_stack(codes, stack).contains(other),
        forall|j: int|
            0 <= j < stack.len() ==> with_stack(codes, stack).contains(#[trigger] stack[j]),
    decreases stack.len(),
{
    if stack.len() > 0 {
        let rest = stack.drop_last();
        lemma_with_stack_keeps(codes, rest, other);
        let before = with_stack(codes, rest);
        lemma_with_code_keeps(before, stack.last(), other);
        assert forall|j: int| 0 <= j < stack.len() implies with_stack(codes, stack).contains(
            #[trigger] stack[j],
        ) by {
            if j < rest.len() {
                assert(before.contains(rest[j]));
                lemma_with_code_keeps(before, stack.last(), stack[j]);
            }
        }
    }
}

/// Every code of every sample has its location and its function in the profile.
pub proof fn samples_refer_to_what_is_there(times: Times, i: int, j: int)
    requires
        0 <= i < times.len(),
        0 <= j < times[i].0.len(),
    ensures
        used_codes(times).contains(times[i].0[j]),
        location_number(times[i].0[j]) != 0,
    decreases times.len(),
{
    let rest = times.drop_last();
    let before = used_codes(rest);
    let code = times[i].0[j];
    if i < rest.len() {
        samples_refer_to_what_is_there(rest, i, j);
    }
    lemma_with_stack_keeps(before, times.last().0, code);
}

proof fn lemma_with_code_goes_up(codes: Seq<u32>, code: u32)
    requires
        goes_up(codes),
    ensures
        goes_up(with_code(codes, code)),
{
    let n = codes.len() as int;
    let at = code_place(codes, code, n);
    lemma_code_place_parts(codes, code, n);
    let all = with_code(codes, code);
    if !(at < n && codes[at] == code) {
        assert forall|i: int, j: int| 0 <= i < j < all.len() implies #[trigger] all[i]
            < #[trigger] all[j] by {
            let a = if i < at {
                i
            } else {
                i - 1
            };
            let b = if j < at {
                j
            } else {
                j - 1
            };
            if i != at && j != at {
                assert(all[i] == codes[a] && all[j] == codes[b]);
            } else if i == at {
                assert(all[j] == codes[j - 1]);
                assert(codes[at] <= codes[j - 1]);
            } else {
                assert(all[i] == codes[i]);
            }
        }
    }
}

proof fn lemma_code_place_parts(codes: Seq<u32>, code: u32, n: int)
    requires
        goes_up(codes),
        0 <= n <= codes.len(),
    ensures
        0 <= code_place(codes, code, n) <= n,
        forall|i: int| 0 <= i < code_place(codes, code, n) ==> #[trigger] codes[i] < code,
        forall|i: int| code_place(codes, code, n) <= i < n ==> #[trigger] codes[i] >= code,
    decreases n,
{
    if n > 0 && codes[n - 1] >= code {
        lemma_code_place_parts(codes, code, n - 1);
    }
}

proof fn lemma_with_stack_goes_up(codes: Seq<u32>, stack: Seq<u32>)
    requires
        goes_up(codes),
    ensures
        goes_up(with_stack(codes, stack)),
    decreases stack.len(),
{
    if stack.len() > 0 {
        lemma_with_stack_goes_up(codes, stack.drop_last());
        lemma_with_code_goes_up(with_stack(codes, stack.drop_last()), stack.last());
    }
}

/// The codes of a profile go up, so that each is there once.
pub proof fn lemma_codes_go_up(times: Times)
    ensures
        goes_up(used_codes(times)),
    decreases times.len(),
{
    if times.len() > 0 {
        lemma_codes_go_up(times.drop_last());
        lemma_with_stack_goes_up(used_codes(times.drop_last()), times.last().0);
    }
}

/// An event charges the stack that its thread had with all the time since the thread's
/// last event, to the nanosecond. Nothing is charged where no time has passed, where the
/// thread had nothing open, and before the thread's first event.
pub proof fn an_event_charges_the_time_since_the_last(f: Folded, ev: Event)
    requires
        in_order(f.times),
    ensures
        f.folds.contains_key(ev.tid) && f.folds[ev.tid].stack.len() > 0 && ev.ts_ns
            > f.folds[ev.tid].last_ts ==> spent(
            f.with_event(ev).times,
            f.folds[ev.tid].stack,
        ) == (spent(f.times, f.folds[ev.tid].stack) + (ev.ts_ns - f.folds[ev.tid].last_ts))
            % 0x1_0000_0000_0000_0000,
        !f.folds.contains_key(ev.tid) ==> f.with_event(ev).times == f.times,
        f.folds.contains_key(ev.tid) && f.folds[ev.tid].stack.len() == 0 ==> f.with_event(ev).times
            == f.times,
        f.folds.contains_key(ev.tid) && ev.ts_ns <= f.folds[ev.tid].last_ts ==> f.with_event(
            ev,
        ).times == f.times,
{
    let fold = fold_before(f.folds, ev);
    charges_add_up(f.times, fold.stack, elapsed(fold, ev), fold.stack);
}

/// An event that opens a slice puts its code object on its thread's stack, one that
/// closes one takes off what was put there last, and neither does anything else to any
/// stack. The thread's last event is this one then.
pub proof fn an_event_moves_its_own_stack_by_one(f: Folded, ev: Event, other: u32)
    ensures
        ({
            let after = f.with_event(ev).folds;
            let had = if f.folds.contains_key(ev.tid) {
                f.folds[ev.tid].stack
            } else {
                Seq::empty()
            };
            &&& after.contains_key(ev.tid)
            &&& after[ev.tid].last_ts == ev.ts_ns
            &&& opens(kind_of_word(ev.code_kind)) ==> after[ev.tid].stack.len() == had.len() + 1
                && after[ev.tid].stack.last() == code_of_word(ev.code_kind)
                && after[ev.tid].stack.drop_last() == had
            &&& !opens(kind_of_word(ev.code_kind)) && had.len() > 0 ==> after[ev.tid].stack
                == had.take(had.len() - 1)
            &&& !opens(kind_of_word(ev.code_kind)) && had.len() == 0 ==> after[ev.tid].stack.len()
                == 0
            &&& other != ev.tid ==> after.contains_key(other) == f.folds.contains_key(other)
            &&& other != ev.tid && f.folds.contains_key(other) ==> after[other] == f.folds[other]
        }),
{
    let fold = fold_before(f.folds, ev);
    assert(fold.stack.push(code_of_word(ev.code_kind)).drop_last() =~= fold.stack);
    if fold.stack.len() > 0 {
        assert(fold.stack.drop_last() =~= fold.stack.take(fold.stack.len() - 1));
    }
}

/// All the time that was spent.
pub open spec fn total_time(times: Times) -> nat
    decreases times.len(),
{
    if times.len() == 0 {
        0
    } else {
        total_time(times.drop_last()) + times.last().1 as nat
    }
}

proof fn lemma_total_update(times: Times, at: int, entry: (Seq<u32>, u64))
    requires
        0 <= at < times.len(),
    ensures
        total_time(times.update(at, entry)) + times[at].1 == total_time(times) + entry.1,
        times[at].1 <= total_time(times),
    decreases times.len(),
{
    let all = times.update(at, entry);
    if at < times.len() - 1 {
        lemma_total_update(times.drop_last(), at, entry);
        assert(all.drop_last() =~= times.drop_last().update(at, entry));
    } else {
        assert(all.drop_last() =~= times.drop_last());
    }
}

proof fn lemma_total_insert(times: Times, at: int, entry: (Seq<u32>, u64))
    requires
        0 <= at <= times.len(),
    ensures
        total_time(times.insert(at, entry)) == total_time(times) + entry.1,
    decreases times.len(),
{
    let all = times.insert(at, entry);
    if at < times.len() {
        lemma_total_insert(times.drop_last(), at, entry);
        assert(all.drop_last() =~= times.drop_last().insert(at, entry));
    } else {
        assert(all.drop_last() =~= times);
    }
}

/// What is charged is added to all the time that was spent.
pub proof fn charges_count_once(times: Times, stack: Seq<u32>, ns: u64)
    requires
        in_order(times),
        total_time(times) + ns <= u64::MAX,
    ensures
        total_time(charged(times, stack, ns)) == total_time(times) + ns,
{
    charging_keeps_order(times, stack, ns);
    let at = place_among(times, stack, times.len() as int);
    if at < times.len() && times[at].0 == stack {
        lemma_total_update(times, at, (stack, low64(times[at].1 + ns)));
    } else {
        lemma_total_insert(times, at, (stack, ns));
    }
}

/// By how many more slices some events open than they close.
pub open spec fn slices_open(events: Seq<Event>) -> int
    decreases events.len(),
{
    if events.len() == 0 {
        0
    } else {
        slices_open(events.drop_last()) + if opens(kind_of_word(events.last().code_kind)) {
            1int
        } else {
            -1int
        }
    }
}

/// The samples of a thread that always has something open add up to the time from its
/// first event to its last: no time is left out, and none is counted twice.
pub proof fn the_time_of_a_thread_is_all_spent(events: Seq<Event>, tid: u32)
    requires
        events.len() > 0,
        forall|i: int| 0 <= i < events.len() ==> (#[trigger] events[i]).tid == tid,
        forall|i: int, j: int|
            0 <= i <= j < events.len() ==> (#[trigger] events[i]).ts_ns <= (
            #[trigger] events[j]).ts_ns,
        forall|n: int| 0 < n < events.len() ==> slices_open(#[trigger] events.take(n)) > 0,
    ensures
        ({
            let f = Folded { folds: Map::empty(), times: Seq::empty() }.with_events(events);
            total_time(f.times) == events.last().ts_ns - events[0].ts_ns
        }),
{
    lemma_time_so_far(events, tid, events.len() as int);
    assert(events.take(events.len() as int) =~= events);
}

proof fn lemma_time_so_far(events: Seq<Event>, tid: u32, n: int)
    requires
        0 < n <= events.len(),
        forall|i: int| 0 <= i < events.len() ==> (#[trigger] events[i]).tid == tid,
        forall|i: int, j: int|
            0 <= i <= j < events.len() ==> (#[trigger] events[i]).ts_ns <= (
            #[trigger] events[j]).ts_ns,
        forall|n: int| 0 < n < events.len() ==> slices_open(#[trigger] events.take(n)) > 0,
    ensures
        ({
            let f = Folded { folds: Map::empty(), times: Seq::empty() }.with_events(
                events.take(n),
            );
            &&& in_order(f.times)
            &&& total_time(f.times) == events[n - 1].ts_ns - events[0].ts_ns
            &&& f.folds.contains_key(tid)
            &&& f.folds[tid].last_ts == events[n - 1].ts_ns
            &&& n < events.len() ==> f.folds[tid].stack.len() == slices_open(events.take(n))
        }),
    decreases n,
{
    let start = Folded { folds: Map::empty(), times: Seq::empty() };
    let f = start.with_events(events.take(n));
    let ev = events[n - 1];
    assert(events.take(n).drop_last() =~= events.take(n - 1));
    assert(events.take(n).last() == ev);
    assert(ev.tid == tid);
    stacks_stay_in_order(start, events.take(n));
    let before = start.with_events(events.take(n - 1));
    an_event_moves_its_own_stack_by_one(before, ev, tid);
    if n == 1 {
        assert(events.take(0) =~= Seq::empty());
        assert(before == start);
        an_event_charges_the_time_since_the_last(start, ev);
        if n < events.len() {
            assert(slices_open(events.take(1)) > 0);
            assert(slices_open(events.take(0)) == 0);
        }
    } else {
        lemma_time_so_far(events, tid, n - 1);
        assert(slices_open(events.take(n - 1)) > 0);
        let fold = before.folds[tid];
        assert(events[n - 2].ts_ns <= ev.ts_ns);
        assert(events[0].ts_ns <= events[n - 2].ts_ns);
        if ev.ts_ns > fold.last_ts {
            charges_count_once(before.times, fold.stack, (ev.ts_ns - fold.last_ts) as u64);
        }
        if n < events.len() {
            assert(slices_open(events.take(n)) > 0);
        }
    }
}

/// Whether two stacks agree up to a place.
pub open spec fn agree(a: Seq<u32>, b: Seq<u32>, n: int) -> bool {
    0 <= n <= a.len() && n <= b.len() && a.take(n) == b.take(n)
}

/// A stack comes before another exactly where they agree up to a place at which it ends and
/// the other goes on, or at which its code is the smaller one.
pub proof fn stacks_are_ordered_by_where_they_differ(a: Seq<u32>, b: Seq<u32>)
    ensures
        comes_before(a, b) <==> exists|n: int| #[trigger]
            agree(a, b, n) && n < b.len() && (n == a.len() || a[n] < b[n]),
    decreases a.len(),
{
    if b.len() > 0 && a.len() > 0 && a[0] == b[0] {
        let (x, y) = (a.skip(1), b.skip(1));
        stacks_are_ordered_by_where_they_differ(x, y);
        if comes_before(a, b) {
            let n = choose|n: int| #[trigger]
                agree(x, y, n) && n < y.len() && (n == x.len() || x[n] < y[n]);
            assert(a.take(n + 1) =~= seq![a[0]] + x.take(n));
            assert(b.take(n + 1) =~= seq![b[0]] + y.take(n));
            assert(agree(a, b, n + 1));
        }
        if exists|n: int| #[trigger]
            agree(a, b, n) && n < b.len() && (n == a.len() || a[n] < b[n]) {
            let n = choose|n: int| #[trigger]
                agree(a, b, n) && n < b.len() && (n == a.len() || a[n] < b[n]);
            assert(x.take(n - 1) =~= a.take(n).skip(1));
            assert(y.take(n - 1) =~= b.take(n).skip(1));
            assert(agree(x, y, n - 1));
        }
    } else if b.len() > 0 {
        assert(a.take(0) =~= b.take(0));
        assert(agree(a, b, 0));
        assert forall|n: int| #[trigger] agree(a, b, n) && n > 0 implies a[0] == b[0] by {
            assert(a.take(n)[0] == b.take(n)[0]);
        }
    }
}

} // verus!
