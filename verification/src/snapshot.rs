//! A stretch of the recorded past, cut out so that it stands on its own.

use crate::clock::Clock;
use crate::event::{
    code_of_word, kind_of_word, opens, pack_code_kind, packed_word, ticks_after, ticks_from_base,
    unpack_code_id, unpack_kind, Event, EventKind,
};
use crate::evqueue::{readings, BatchView, EventBatch};
use crate::ring::batch_views;
use vstd::prelude::*;

verus! {

/// A reading, and the code and kind that it was taken for.
pub type Mark = (u64, u32);

/// A reading, the thread that took it, and the code and kind it was taken for.
pub type Row = (u64, u32, u32);

/// Whether a mark opens a slice. The others close one.
pub open spec fn mark_opens(m: Mark) -> bool {
    opens(kind_of_word(m.1))
}

/// Whether a row opens a slice. The others close one.
pub open spec fn row_opens(r: Row) -> bool {
    opens(kind_of_word(r.2))
}

/// The readings of a batch.
pub open spec fn marks(b: BatchView) -> Seq<Mark> {
    Seq::new(
        b.events.len(),
        |i: int| (ticks_after(b.base_ticks, b.events[i].delta_ticks), b.events[i].code_kind),
    )
}

/// Whether two batches are the same run of one thread.
pub open spec fn same_run(a: BatchView, b: BatchView) -> bool {
    a.tid == b.tid && a.base_ticks == b.base_ticks
}

/// Whether none of `history` is the same run as `tail`.
pub open spec fn is_fresh(history: Seq<BatchView>, tail: BatchView) -> bool {
    forall|i: int| 0 <= i < history.len() ==> !same_run(#[trigger] history[i], tail)
}

/// The tails that the history does not hold already.
pub open spec fn fresh_tails(history: Seq<BatchView>, tails: Seq<BatchView>) -> Seq<BatchView>
    decreases tails.len(),
{
    if tails.len() == 0 {
        Seq::empty()
    } else {
        let rest = fresh_tails(history, tails.drop_last());
        if is_fresh(history, tails.last()) {
            rest.push(tails.last())
        } else {
            rest
        }
    }
}

/// The threads of some batches, in the order of their first batch.
pub open spec fn threads(batches: Seq<BatchView>) -> Seq<u32>
    decreases batches.len(),
{
    if batches.len() == 0 {
        Seq::empty()
    } else {
        let rest = threads(batches.drop_last());
        if rest.contains(batches.last().tid) {
            rest
        } else {
            rest.push(batches.last().tid)
        }
    }
}

/// The readings of one thread, in the order of its batches.
pub open spec fn stream_of(batches: Seq<BatchView>, tid: u32) -> Seq<Mark>
    decreases batches.len(),
{
    if batches.len() == 0 {
        Seq::empty()
    } else {
        let rest = stream_of(batches.drop_last(), tid);
        if batches.last().tid == tid {
            rest + marks(batches.last())
        } else {
            rest
        }
    }
}

/// The slices that are open after some readings of one thread. A close with
/// nothing open changes nothing.
pub open spec fn open_frames(stream: Seq<Mark>) -> Seq<Mark>
    decreases stream.len(),
{
    if stream.len() == 0 {
        Seq::empty()
    } else {
        let rest = open_frames(stream.drop_last());
        if mark_opens(stream.last()) {
            rest.push(stream.last())
        } else if rest.len() > 0 {
            rest.drop_last()
        } else {
            rest
        }
    }
}

/// The place, from `i` on, of the first reading that is not before `start`.
pub open spec fn first_inside(stream: Seq<Mark>, start: u64, i: int) -> int
    decreases stream.len() - i,
{
    if i >= stream.len() {
        stream.len() as int
    } else if stream[i].0 >= start {
        i
    } else {
        first_inside(stream, start, i + 1)
    }
}

/// The place, from `i` on, of the first reading that is not before `start` and is
/// after `end`.
pub open spec fn first_beyond(stream: Seq<Mark>, start: u64, end: u64, i: int) -> int
    decreases stream.len() - i,
{
    if i >= stream.len() {
        stream.len() as int
    } else if stream[i].0 >= start && stream[i].0 > end {
        i
    } else {
        first_beyond(stream, start, end, i + 1)
    }
}

/// The row that opens, at the horizon, what a mark closes.
pub open spec fn synthesized(tid: u32, m: Mark, horizon: u64) -> Row {
    (horizon, tid, packed_word(code_of_word(m.1), EventKind::Begin))
}

/// The rows of some marks.
pub open spec fn rows_of(tid: u32, stream: Seq<Mark>) -> Seq<Row> {
    Seq::new(stream.len(), |i: int| (stream[i].0, tid, stream[i].1))
}

/// The rows of the `i`-th reading of a thread: none before `start`, and its own
/// otherwise, after one that opens what it closes where nothing is open.
pub open spec fn entry(tid: u32, stream: Seq<Mark>, horizon: u64, start: u64, i: int) -> Seq<Row> {
    let row = (stream[i].0, tid, stream[i].1);
    if stream[i].0 < start {
        Seq::empty()
    } else if !mark_opens(stream[i]) && open_frames(stream.take(i)).len() == 0 {
        seq![synthesized(tid, stream[i], horizon), row]
    } else {
        seq![row]
    }
}

/// The rows of the first `n` readings of a thread.
pub open spec fn entries(tid: u32, stream: Seq<Mark>, horizon: u64, start: u64, n: int) -> Seq<Row>
    decreases n,
{
    if n <= 0 {
        Seq::empty()
    } else {
        entries(tid, stream, horizon, start, n - 1) + entry(tid, stream, horizon, start, n - 1)
    }
}

/// The rows of one thread: what was open when the stretch began, and then what
/// happened in it.
pub open spec fn replayed(
    tid: u32,
    stream: Seq<Mark>,
    horizon: u64,
    start: u64,
    end: u64,
) -> Seq<Row> {
    rows_of(tid, open_frames(stream.take(first_inside(stream, start, 0)))) + entries(
        tid,
        stream,
        horizon,
        start,
        first_beyond(stream, start, end, 0),
    )
}

/// Appends the rows of one thread.
pub fn replay(
    tid: u32,
    stream: &Vec<Mark>,
    horizon_ticks: u64,
    start_ticks: u64,
    end_ticks: u64,
    out: &mut Vec<Row>,
)
    ensures
        final(out)@ == old(out)@ + replayed(
            tid,
            stream@,
            horizon_ticks,
            start_ticks,
            end_ticks,
        ),
{
    let ghost before = out@;
    let ghost inside = first_inside(stream@, start_ticks, 0);
    let ghost frames = rows_of(tid, open_frames(stream@.take(inside)));
    let mut stack: Vec<Mark> = Vec::new();
    let mut opens_emitted: bool = false;
    let n: usize = stream.len();
    assert(stream@.take(0) =~= Seq::empty());
    for i in 0..n
        invariant
            n == stream@.len(),
            before == old(out)@,
            stack@ == open_frames(stream@.take(i as int)),
            frames == rows_of(tid, open_frames(stream@.take(inside))),
            inside == first_inside(stream@, start_ticks, 0),
            first_beyond(stream@, start_ticks, end_ticks, 0) == first_beyond(
                stream@,
                start_ticks,
                end_ticks,
                i as int,
            ),
            opens_emitted ==> inside < i,
            !opens_emitted ==> inside == first_inside(stream@, start_ticks, i as int),
            out@ == before + (if opens_emitted {
                frames
            } else {
                Seq::empty()
            }) + entries(tid, stream@, horizon_ticks, start_ticks, i as int),
    {
        let (ticks, code_kind) = stream[i];
        let opens_slice: bool = unpack_kind(code_kind).opens_slice();
        let ghost emitted = entries(tid, stream@, horizon_ticks, start_ticks, i as int);
        let ghost own = entry(tid, stream@, horizon_ticks, start_ticks, i as int);
        assert(stream@.take(i + 1).drop_last() =~= stream@.take(i as int));
        assert(stream@.take(i + 1).last() == stream@[i as int]);
        assert(mark_opens(stream@[i as int]) == opens_slice);
        let ghost opened_before = opens_emitted;
        if ticks >= start_ticks {
            if !opens_emitted {
                opens_emitted = true;
                assert(inside == i);
                emit_frames(tid, &stack, out);
                assert(emitted =~= Seq::empty()) by {
                    lemma_nothing_before_the_inside(
                        tid,
                        stream@,
                        horizon_ticks,
                        start_ticks,
                        i as int,
                    );
                }
                assert(out@ =~= before + frames + emitted);
            }
            if ticks > end_ticks {
                assert(first_beyond(stream@, start_ticks, end_ticks, 0) == i);
                return;
            }
            let popped: bool = if opens_slice {
                stack.push((ticks, code_kind));
                true
            } else {
                stack.pop().is_some()
            };
            if !popped {
                let opening: u32 = pack_code_kind(unpack_code_id(code_kind), EventKind::Begin);
                out.push((horizon_ticks, tid, opening));
            }
            out.push((ticks, tid, code_kind));
            assert(out@ =~= before + frames + (emitted + own));
        } else {
            if opens_slice {
                stack.push((ticks, code_kind));
            } else {
                let _ = stack.pop();
            }
            assert(emitted + own =~= emitted);
        }
    }
    assert(stream@.take(n as int) =~= stream@);
    if !opens_emitted {
        emit_frames(tid, &stack, out);
        proof {
            lemma_nothing_before_the_inside(tid, stream@, horizon_ticks, start_ticks, n as int);
            assert(out@ =~= before + frames + Seq::empty());
        }
    }
    assert(out@ =~= before + (frames + entries(
        tid,
        stream@,
        horizon_ticks,
        start_ticks,
        n as int,
    )));
}

fn emit_frames(tid: u32, stack: &Vec<Mark>, out: &mut Vec<Row>)
    ensures
        final(out)@ == old(out)@ + rows_of(tid, stack@),
{
    let ghost before = out@;
    let n: usize = stack.len();
    for i in 0..n
        invariant
            n == stack@.len(),
            out@ =~= before + rows_of(tid, stack@).take(i as int),
    {
        let (ticks, code_kind) = stack[i];
        out.push((ticks, tid, code_kind));
    }
    assert(rows_of(tid, stack@).take(n as int) =~= rows_of(tid, stack@));
}

proof fn lemma_nothing_before_the_inside(
    tid: u32,
    stream: Seq<Mark>,
    horizon: u64,
    start: u64,
    n: int,
)
    requires
        0 <= n <= stream.len(),
        first_inside(stream, start, 0) >= n,
    ensures
        entries(tid, stream, horizon, start, n) == Seq::<Row>::empty(),
    decreases n,
{
    if n > 0 {
        lemma_nothing_before_the_inside(tid, stream, horizon, start, n - 1);
        lemma_before_the_inside(stream, start, 0, n - 1);
        assert(Seq::<Row>::empty() + Seq::<Row>::empty() =~= Seq::<Row>::empty());
    }
}

proof fn lemma_before_the_inside(stream: Seq<Mark>, start: u64, i: int, j: int)
    requires
        0 <= i <= j < stream.len(),
        j < first_inside(stream, start, i),
    ensures
        stream[j].0 < start,
    decreases stream.len() - i,
{
    if i < j {
        lemma_before_the_inside(stream, start, i + 1, j);
    }
}

/// Whether a row was read at `ticks`.
pub open spec fn read_at(ticks: u64) -> spec_fn(Row) -> bool {
    |r: Row| r.0 == ticks
}

/// Whether no row was read before the row ahead of it.
pub open spec fn in_order(rows: Seq<Row>) -> bool {
    forall|i: int, j: int| 0 <= i <= j < rows.len() ==> (#[trigger] rows[i]).0 <= (#[trigger] rows[j]).0
}

/// Whether `out` is `rows` by reading, with rows of one reading left in the order
/// they had.
pub open spec fn is_by_reading(rows: Seq<Row>, out: Seq<Row>) -> bool {
    &&& in_order(out)
    &&& forall|ticks: u64| #[trigger]
        out.filter(read_at(ticks)) == rows.filter(read_at(ticks))
}

/// The rows by reading, with rows of one reading left in the order they had.
pub open spec fn by_reading(rows: Seq<Row>) -> Seq<Row> {
    choose|out: Seq<Row>| is_by_reading(rows, out)
}

proof fn lemma_filter_first(s: Seq<Row>, p: spec_fn(Row) -> bool)
    requires
        s.len() > 0,
    ensures
        s.filter(p) == (if p(s[0]) {
            seq![s[0]]
        } else {
            Seq::empty()
        }) + s.skip(1).filter(p),
{
    assert(s =~= seq![s[0]] + s.skip(1));
    Seq::filter_distributes_over_add(seq![s[0]], s.skip(1), p);
    reveal_with_fuel(Seq::filter, 2);
    assert(seq![s[0]].drop_last() =~= Seq::empty());
    assert(seq![s[0]].filter(p) =~= (if p(s[0]) {
        seq![s[0]]
    } else {
        Seq::empty()
    }));
}

proof fn lemma_filter_push(s: Seq<Row>, x: Row, p: spec_fn(Row) -> bool)
    ensures
        s.push(x).filter(p) == (if p(x) {
            s.filter(p).push(x)
        } else {
            s.filter(p)
        }),
{
    reveal(Seq::filter);
    assert(s.push(x).drop_last() =~= s);
}

proof fn lemma_filter_nonempty(s: Seq<Row>, p: spec_fn(Row) -> bool) -> (i: int)
    requires
        s.filter(p).len() > 0,
    ensures
        0 <= i < s.len(),
        p(s[i]),
    decreases s.len(),
{
    reveal(Seq::filter);
    if p(s.last()) {
        s.len() - 1
    } else {
        lemma_filter_nonempty(s.drop_last(), p)
    }
}

/// There is one way only to put rows in order.
proof fn lemma_by_reading_is_unique(rows: Seq<Row>, a: Seq<Row>, b: Seq<Row>)
    requires
        is_by_reading(rows, a),
        is_by_reading(rows, b),
    ensures
        a == b,
    decreases a.len(),
{
    if a.len() > 0 {
        let t = a[0].0;
        lemma_filter_first(a, read_at(t));
        assert(b.filter(read_at(t)) == a.filter(read_at(t)));
        let i = lemma_filter_nonempty(b, read_at(t));
        let u = b[0].0;
        lemma_filter_first(b, read_at(u));
        assert(a.filter(read_at(u)) == b.filter(read_at(u)));
        let j = lemma_filter_nonempty(a, read_at(u));
        assert(u <= t && t <= u);
        assert(a.filter(read_at(t))[0] == a[0]);
        assert(b.filter(read_at(t))[0] == b[0]);
        assert forall|ticks: u64| #[trigger]
            a.skip(1).filter(read_at(ticks)) == b.skip(1).filter(read_at(ticks)) by {
            lemma_filter_first(a, read_at(ticks));
            lemma_filter_first(b, read_at(ticks));
            assert(a.filter(read_at(ticks)) == rows.filter(read_at(ticks)));
            assert(b.filter(read_at(ticks)) == rows.filter(read_at(ticks)));
            let head = if ticks == t {
                seq![a[0]]
            } else {
                Seq::empty()
            };
            assert(a.skip(1).filter(read_at(ticks)) =~= a.filter(read_at(ticks)).skip(
                head.len() as int,
            ));
            assert(b.skip(1).filter(read_at(ticks)) =~= b.filter(read_at(ticks)).skip(
                head.len() as int,
            ));
        }
        lemma_by_reading_is_unique(a.skip(1), a.skip(1), b.skip(1));
        assert(a =~= seq![a[0]] + a.skip(1));
        assert(b =~= seq![b[0]] + b.skip(1));
    } else if b.len() > 0 {
        let u = b[0].0;
        lemma_filter_first(b, read_at(u));
        assert(a.filter(read_at(u)) == b.filter(read_at(u)));
        let j = lemma_filter_nonempty(a, read_at(u));
    } else {
        assert(a =~= b);
    }
}

proof fn lemma_by_reading(rows: Seq<Row>, out: Seq<Row>)
    requires
        is_by_reading(rows, out),
    ensures
        out == by_reading(rows),
{
    lemma_by_reading_is_unique(rows, out, by_reading(rows));
}

/// Puts rows by reading, with rows of one reading left in the order they had.
pub fn sort_rows(rows: Vec<Row>) -> (out: Vec<Row>)
    ensures
        is_by_reading(rows@, out@),
        out@ == by_reading(rows@),
    decreases rows@.len(),
{
    let mut left = rows;
    let n: usize = left.len();
    if n <= 1 {
        proof {
            lemma_by_reading(rows@, left@);
        }
        return left;
    }
    let right = left.split_off(n / 2);
    let ghost (l, r) = (left@, right@);
    let a = sort_rows(left);
    let b = sort_rows(right);
    let out = merge(&a, &b);
    proof {
        assert(rows@ =~= l + r);
        assert forall|ticks: u64| #[trigger]
            out@.filter(read_at(ticks)) == rows@.filter(read_at(ticks)) by {
            Seq::filter_distributes_over_add(l, r, read_at(ticks));
            Seq::filter_distributes_over_add(a@, b@, read_at(ticks));
        }
        lemma_by_reading(rows@, out@);
    }
    out
}

fn merge(a: &Vec<Row>, b: &Vec<Row>) -> (out: Vec<Row>)
    requires
        in_order(a@),
        in_order(b@),
    ensures
        is_by_reading(a@ + b@, out@),
{
    let mut out: Vec<Row> = Vec::new();
    let mut i: usize = 0;
    let mut j: usize = 0;
    proof {
        assert forall|ticks: u64| #[trigger]
            out@.filter(read_at(ticks)) == a@.take(0).filter(read_at(ticks)) + b@.take(0).filter(
                read_at(ticks),
            ) by {
            reveal(Seq::filter);
            assert(out@.filter(read_at(ticks)) =~= a@.take(0).filter(read_at(ticks)) + b@.take(
                0,
            ).filter(read_at(ticks)));
        }
    }
    while i < a.len() || j < b.len()
        invariant
            in_order(a@),
            in_order(b@),
            in_order(out@),
            i <= a@.len(),
            j <= b@.len(),
            forall|k: int, m: int|
                0 <= k < out@.len() && i <= m < a@.len() ==> (#[trigger] out@[k]).0 <= (#[trigger] a@[m]).0,
            forall|k: int, m: int|
                0 <= k < out@.len() && j <= m < b@.len() ==> (#[trigger] out@[k]).0 <= (#[trigger] b@[m]).0,
            i < a@.len() ==> forall|m: int| 0 <= m < j ==> (#[trigger] b@[m]).0 < a@[i as int].0,
            forall|ticks: u64| #[trigger]
                out@.filter(read_at(ticks)) == a@.take(i as int).filter(read_at(ticks)) + b@.take(
                    j as int,
                ).filter(read_at(ticks)),
        decreases a@.len() - i + b@.len() - j,
    {
        let ghost before = out@;
        let from_a: bool = i < a.len() && (j >= b.len() || a[i].0 <= b[j].0);
        if from_a {
            let x = a[i];
            out.push(x);
            proof {
                assert forall|ticks: u64| #[trigger]
                    out@.filter(read_at(ticks)) == a@.take(i + 1).filter(read_at(ticks)) + b@.take(
                        j as int,
                    ).filter(read_at(ticks)) by {
                    let p = read_at(ticks);
                    lemma_filter_push(before, x, p);
                    assert(a@.take(i + 1) =~= a@.take(i as int).push(x));
                    lemma_filter_push(a@.take(i as int), x, p);
                    assert(before.filter(p) == a@.take(i as int).filter(p) + b@.take(
                        j as int,
                    ).filter(p));
                    if p(x) && b@.take(j as int).filter(p).len() > 0 {
                        let m = lemma_filter_nonempty(b@.take(j as int), p);
                        assert(b@[m].0 < a@[i as int].0);
                    }
                    assert(out@.filter(p) =~= a@.take(i + 1).filter(p) + b@.take(
                        j as int,
                    ).filter(p));
                }
            }
            i = i + 1;
        } else {
            let x = b[j];
            out.push(x);
            proof {
                assert forall|ticks: u64| #[trigger]
                    out@.filter(read_at(ticks)) == a@.take(i as int).filter(read_at(ticks))
                        + b@.take(j + 1).filter(read_at(ticks)) by {
                    let p = read_at(ticks);
                    lemma_filter_push(before, x, p);
                    assert(b@.take(j + 1) =~= b@.take(j as int).push(x));
                    lemma_filter_push(b@.take(j as int), x, p);
                    assert(before.filter(p) == a@.take(i as int).filter(p) + b@.take(
                        j as int,
                    ).filter(p));
                    assert(out@.filter(p) =~= a@.take(i as int).filter(p) + b@.take(
                        j + 1,
                    ).filter(p));
                }
            }
            j = j + 1;
        }
    }
    proof {
        assert(a@.take(i as int) =~= a@);
        assert(b@.take(j as int) =~= b@);
        assert forall|ticks: u64| #[trigger]
            out@.filter(read_at(ticks)) == (a@ + b@).filter(read_at(ticks)) by {
            Seq::filter_distributes_over_add(a@, b@, read_at(ticks));
        }
    }
    out
}

/// The rows of several threads, one thread after the other.
pub open spec fn rows_by_thread(
    tids: Seq<u32>,
    batches: Seq<BatchView>,
    horizon: u64,
    start: u64,
    end: u64,
) -> Seq<Row>
    decreases tids.len(),
{
    if tids.len() == 0 {
        Seq::empty()
    } else {
        rows_by_thread(tids.drop_last(), batches, horizon, start, end) + replayed(
            tids.last(),
            stream_of(batches, tids.last()),
            horizon,
            start,
            end,
        )
    }
}

/// The rows of the stretch from `start` to `end`, by reading.
pub open spec fn assembled_rows(
    batches: Seq<BatchView>,
    horizon: u64,
    start: u64,
    end: u64,
) -> Seq<Row> {
    by_reading(rows_by_thread(threads(batches), batches, horizon, start, end))
}

/// The event that a row stands for.
pub open spec fn shown(clock: Clock, r: Row) -> Event {
    Event {
        ts_ns: clock.ns_at(r.0),
        tid: r.1,
        code_kind: packed_word(code_of_word(r.2), kind_of_word(r.2)),
    }
}

/// The events of the stretch from `start` to `end`, out of the history and those
/// tails that it does not hold already.
pub open spec fn assembled(
    history: Seq<BatchView>,
    tails: Seq<BatchView>,
    clock: Clock,
    horizon: u64,
    start: u64,
    end: u64,
) -> Seq<Event> {
    let rows = assembled_rows(history + fresh_tails(history, tails), horizon, start, end);
    Seq::new(rows.len(), |i: int| shown(clock, rows[i]))
}

struct Stream {
    tid: u32,
    marks: Vec<Mark>,
}

/// Whether the streams are those of the batches' threads, in order.
spec fn streams_are(streams: Seq<Stream>, batches: Seq<BatchView>) -> bool {
    &&& streams.len() == threads(batches).len()
    &&& forall|k: int|
        0 <= k < streams.len() ==> {
            &&& (#[trigger] streams[k]).tid == threads(batches)[k]
            &&& streams[k].marks@ == stream_of(batches, streams[k].tid)
        }
}

proof fn lemma_threads_are_distinct(batches: Seq<BatchView>)
    ensures
        threads(batches).no_duplicates(),
    decreases batches.len(),
{
    if batches.len() > 0 {
        lemma_threads_are_distinct(batches.drop_last());
    }
}

proof fn lemma_no_thread_no_stream(batches: Seq<BatchView>, tid: u32)
    requires
        !threads(batches).contains(tid),
    ensures
        stream_of(batches, tid) == Seq::<Mark>::empty(),
    decreases batches.len(),
{
    if batches.len() > 0 {
        let rest = threads(batches.drop_last());
        let tids = threads(batches);
        if rest.contains(tid) {
            let k = choose|k: int| 0 <= k < rest.len() && rest[k] == tid;
            assert(tids[k] == tid);
        }
        if batches.last().tid == tid {
            assert(tids[tids.len() - 1] == tid);
        }
        lemma_no_thread_no_stream(batches.drop_last(), tid);
    }
}

/// Adds a batch to the stream of its thread, which starts with it where it has none.
fn enlist(streams: &mut Vec<Stream>, batch: &EventBatch, Ghost(batches): Ghost<Seq<BatchView>>)
    requires
        streams_are(old(streams)@, batches),
    ensures
        streams_are(final(streams)@, batches.push(batch@)),
{
    let ghost before = streams@;
    let ghost after = batches.push(batch@);
    assert(after.drop_last() =~= batches);
    let n: usize = streams.len();
    let mut k: usize = 0;
    while k < n && streams[k].tid != batch.tid
        invariant
            k <= n == streams@.len(),
            forall|j: int| 0 <= j < k ==> (#[trigger] streams@[j]).tid != batch.tid,
        decreases n - k,
    {
        k = k + 1;
    }
    if k == n {
        assert(!threads(batches).contains(batch.tid)) by {
            if threads(batches).contains(batch.tid) {
                let j = choose|j: int|
                    0 <= j < threads(batches).len() && threads(batches)[j] == batch.tid;
                assert(before[j].tid == batch.tid);
            }
        }
        let mut marks: Vec<Mark> = Vec::new();
        add_marks(batch, &mut marks);
        proof {
            lemma_no_thread_no_stream(batches, batch.tid);
        }
        streams.push(Stream { tid: batch.tid, marks });
        assert(streams@[n as int].marks@ =~= stream_of(after, batch.tid));
    } else {
        assert(threads(batches)[k as int] == batch.tid);
        add_marks(batch, &mut streams[k].marks);
        proof {
            lemma_threads_are_distinct(batches);
            assert(threads(after) == threads(batches));
            assert forall|j: int| 0 <= j < streams@.len() implies {
                &&& (#[trigger] streams@[j]).tid == threads(after)[j]
                &&& streams@[j].marks@ == stream_of(after, streams@[j].tid)
            } by {
                assert(before[j].tid == threads(batches)[j]);
                if j != k {
                    assert(streams@[j] == before[j]);
                }
            }
        }
    }
}

fn add_marks(batch: &EventBatch, out: &mut Vec<Mark>)
    ensures
        final(out)@ == old(out)@ + marks(batch@),
{
    let ghost before = out@;
    let n: usize = batch.events.len();
    for i in 0..n
        invariant
            n == batch.events@.len(),
            out@ =~= before + marks(batch@).take(i as int),
    {
        let p = batch.events[i];
        out.push((ticks_from_base(batch.base_ticks, p.delta_ticks), p.code_kind));
    }
    assert(marks(batch@).take(n as int) =~= marks(batch@));
}

/// The contents of some batches.
pub open spec fn views(batches: Seq<EventBatch>) -> Seq<BatchView> {
    Seq::new(batches.len(), |i: int| batches[i]@)
}

fn holds_run(history: &[&EventBatch], tail: &EventBatch) -> (held: bool)
    ensures
        held == !is_fresh(batch_views(history@), tail@),
{
    let n: usize = history.len();
    for i in 0..n
        invariant
            n == history@.len(),
            forall|j: int| 0 <= j < i ==> !same_run((#[trigger] batch_views(history@)[j]), tail@),
    {
        let h = history[i];
        assert(batch_views(history@)[i as int] == h@);
        if h.tid == tail.tid && h.base_ticks == tail.base_ticks {
            return true;
        }
    }
    false
}

/// The events of the stretch from `start_ticks` to `end_ticks`, by reading: what
/// was open when it began, what happened in it, and an open at the horizon for
/// whatever it closes that was opened before the history began.
pub fn assemble(
    history: &[&EventBatch],
    tails: &[EventBatch],
    clock: &Clock,
    horizon_ticks: u64,
    start_ticks: u64,
    end_ticks: u64,
) -> (events: Vec<Event>)
    ensures
        events@ == assembled(
            batch_views(history@),
            views(tails@),
            *clock,
            horizon_ticks,
            start_ticks,
            end_ticks,
        ),
{
    let ghost held = batch_views(history@);
    let ghost batches = held + fresh_tails(held, views(tails@));
    let mut streams: Vec<Stream> = Vec::new();
    let n: usize = history.len();
    for i in 0..n
        invariant
            n == history@.len(),
            held == batch_views(history@),
            streams_are(streams@, held.take(i as int)),
    {
        enlist(&mut streams, history[i], Ghost(held.take(i as int)));
        assert(held.take(i + 1) =~= held.take(i as int).push(history@[i as int]@));
    }
    let m: usize = tails.len();
    assert(views(tails@).take(0) =~= Seq::empty());
    assert(held.take(n as int) =~= held + fresh_tails(held, views(tails@).take(0)));
    for i in 0..m
        invariant
            m == tails@.len(),
            held == batch_views(history@),
            streams_are(streams@, held + fresh_tails(held, views(tails@).take(i as int))),
    {
        let tail = &tails[i];
        let ghost so_far = fresh_tails(held, views(tails@).take(i as int));
        assert(views(tails@).take(i + 1).drop_last() =~= views(tails@).take(i as int));
        assert(views(tails@).take(i + 1).last() == tail@);
        if !holds_run(history, tail) {
            enlist(&mut streams, tail, Ghost(held + so_far));
            assert((held + so_far).push(tail@) =~= held + so_far.push(tail@));
        }
    }
    assert(views(tails@).take(m as int) =~= views(tails@));
    let mut rows: Vec<Row> = Vec::new();
    let s: usize = streams.len();
    let ghost tids = threads(batches);
    assert(tids.take(0) =~= Seq::empty());
    for i in 0..s
        invariant
            s == streams@.len() == tids.len(),
            tids == threads(batches),
            streams_are(streams@, batches),
            rows@ == rows_by_thread(
                tids.take(i as int),
                batches,
                horizon_ticks,
                start_ticks,
                end_ticks,
            ),
    {
        assert(tids.take(i + 1).drop_last() =~= tids.take(i as int));
        assert(tids.take(i + 1).last() == streams@[i as int].tid);
        replay(
            streams[i].tid,
            &streams[i].marks,
            horizon_ticks,
            start_ticks,
            end_ticks,
            &mut rows,
        );
    }
    assert(tids.take(s as int) =~= tids);
    let sorted = sort_rows(rows);
    let ghost expected = assembled(
        held,
        views(tails@),
        *clock,
        horizon_ticks,
        start_ticks,
        end_ticks,
    );
    let mut out: Vec<Event> = Vec::new();
    let r: usize = sorted.len();
    for i in 0..r
        invariant
            r == sorted@.len() == expected.len(),
            forall|k: int| 0 <= k < r ==> expected[k] == shown(*clock, #[trigger] sorted@[k]),
            out@ =~= expected.take(i as int),
    {
        let (ticks, tid, code_kind) = sorted[i];
        out.push(
            Event::new(
                clock.ns_since_start(ticks),
                tid,
                unpack_code_id(code_kind),
                unpack_kind(code_kind),
            ),
        );
        assert(packed_word(code_of_word(code_kind), kind_of_word(code_kind)) == expected[i as int].code_kind);
    }
    assert(expected.take(r as int) =~= expected);
    out
}

/// Whether a row is of a thread.
pub open spec fn of_thread(tid: u32) -> spec_fn(Row) -> bool {
    |r: Row| r.1 == tid
}

/// How many more slices some rows open than they close.
pub open spec fn depth(rows: Seq<Row>) -> int
    decreases rows.len(),
{
    if rows.len() == 0 {
        0
    } else {
        depth(rows.drop_last()) + if row_opens(rows.last()) {
            1int
        } else {
            -1int
        }
    }
}

/// Whether at no point more slices have been closed than opened.
pub open spec fn closes_only_what_it_opened(rows: Seq<Row>) -> bool {
    forall|n: int| 0 <= n <= rows.len() ==> #[trigger] depth(rows.take(n)) >= 0
}

/// Whether no reading of a thread comes before the one ahead of it.
pub open spec fn marks_in_order(stream: Seq<Mark>) -> bool {
    forall|i: int, j: int|
        0 <= i <= j < stream.len() ==> (#[trigger] stream[i]).0 <= (#[trigger] stream[j]).0
}

proof fn lemma_filter_keeps_all(s: Seq<Row>, p: spec_fn(Row) -> bool)
    requires
        forall|i: int| 0 <= i < s.len() ==> p(#[trigger] s[i]),
    ensures
        s.filter(p) == s,
    decreases s.len(),
{
    reveal(Seq::filter);
    if s.len() > 0 {
        assert forall|i: int| 0 <= i < s.drop_last().len() implies p(
            #[trigger] s.drop_last()[i],
        ) by {
            assert(p(s[i]));
        }
        lemma_filter_keeps_all(s.drop_last(), p);
        assert(s =~= s.drop_last().push(s.last()));
    }
}

proof fn lemma_filter_keeps_none(s: Seq<Row>, p: spec_fn(Row) -> bool)
    requires
        forall|i: int| 0 <= i < s.len() ==> !p(#[trigger] s[i]),
    ensures
        s.filter(p) == Seq::<Row>::empty(),
{
    if s.filter(p).len() > 0 {
        let i = lemma_filter_nonempty(s, p);
    }
    assert(s.filter(p) =~= Seq::empty());
}

proof fn lemma_filters_commute(
    s: Seq<Row>,
    p: spec_fn(Row) -> bool,
    q: spec_fn(Row) -> bool,
)
    ensures
        s.filter(p).filter(q) == s.filter(q).filter(p),
    decreases s.len(),
{
    if s.len() == 0 {
        reveal(Seq::filter);
    } else {
        let rest = s.drop_last();
        let x = s.last();
        assert(s =~= rest.push(x));
        lemma_filters_commute(rest, p, q);
        lemma_filter_push(rest, x, p);
        lemma_filter_push(rest, x, q);
        lemma_filter_push(rest.filter(p), x, q);
        lemma_filter_push(rest.filter(q), x, p);
    }
}

proof fn lemma_filter_stays_in_order(s: Seq<Row>, p: spec_fn(Row) -> bool)
    requires
        in_order(s),
    ensures
        in_order(s.filter(p)),
        forall|i: int|
            0 <= i < s.filter(p).len() ==> (#[trigger] s.filter(p)[i]).0 <= s.last().0,
    decreases s.len(),
{
    reveal(Seq::filter);
    if s.len() > 0 {
        lemma_filter_stays_in_order(s.drop_last(), p);
        if s.len() > 1 {
            assert(s.drop_last().last() == s[s.len() - 2]);
            assert(s[s.len() - 2].0 <= s[s.len() - 1].0);
        }
    }
}

proof fn lemma_by_reading_filters(rows: Seq<Row>, out: Seq<Row>, p: spec_fn(Row) -> bool)
    requires
        is_by_reading(rows, out),
    ensures
        is_by_reading(rows.filter(p), out.filter(p)),
{
    lemma_filter_stays_in_order(out, p);
    assert forall|ticks: u64| #[trigger]
        out.filter(p).filter(read_at(ticks)) == rows.filter(p).filter(read_at(ticks)) by {
        lemma_filters_commute(out, p, read_at(ticks));
        lemma_filters_commute(rows, p, read_at(ticks));
        assert(out.filter(read_at(ticks)) == rows.filter(read_at(ticks)));
    }
}

/// Any rows can be put by reading.
proof fn lemma_by_reading_exists(rows: Seq<Row>)
    ensures
        is_by_reading(rows, by_reading(rows)),
    decreases rows.len(),
{
    if rows.len() == 0 {
        assert(is_by_reading(rows, rows));
    } else {
        let rest = rows.drop_last();
        let x = rows.last();
        lemma_by_reading_exists(rest);
        let out = lemma_insertion(rest, by_reading(rest), x);
        assert(rows =~= rest.push(x));
        assert(is_by_reading(rows, out));
    }
}

proof fn lemma_insertion(rest: Seq<Row>, sorted: Seq<Row>, x: Row) -> (out: Seq<Row>)
    requires
        is_by_reading(rest, sorted),
    ensures
        is_by_reading(rest.push(x), out),
        forall|i: int|
            0 <= i < out.len() ==> (#[trigger] out[i]).0 <= x.0 || exists|j: int|
                0 <= j < sorted.len() && out[i].0 <= (#[trigger] sorted[j]).0,
    decreases sorted.len(),
{
    if sorted.len() == 0 || sorted.last().0 <= x.0 {
        let out = sorted.push(x);
        assert forall|ticks: u64| #[trigger]
            out.filter(read_at(ticks)) == rest.push(x).filter(read_at(ticks)) by {
            lemma_filter_push(sorted, x, read_at(ticks));
            lemma_filter_push(rest, x, read_at(ticks));
            assert(sorted.filter(read_at(ticks)) == rest.filter(read_at(ticks)));
        }
        out
    } else {
        let y = sorted.last();
        let head = sorted.drop_last();
        assert(sorted =~= head.push(y));
        assert(is_by_reading(head, head));
        let mid = lemma_insertion(head, head, x);
        let out = mid.push(y);
        assert forall|i: int| 0 <= i < mid.len() implies (#[trigger] mid[i]).0 <= y.0 by {
            if mid[i].0 > x.0 {
                let j = choose|j: int|
                    0 <= j < head.len() && mid[i].0 <= (#[trigger] head[j]).0;
                assert(sorted[j].0 <= sorted[sorted.len() - 1].0);
            }
        }
        assert forall|ticks: u64| #[trigger]
            out.filter(read_at(ticks)) == rest.push(x).filter(read_at(ticks)) by {
            let p = read_at(ticks);
            lemma_filter_push(mid, y, p);
            lemma_filter_push(head, x, p);
            lemma_filter_push(head, y, p);
            lemma_filter_push(rest, x, p);
            assert(mid.filter(p) == head.push(x).filter(p));
            assert(sorted.filter(p) == rest.filter(p));
        }
        assert forall|i: int| 0 <= i < out.len() implies (#[trigger] out[i]).0 <= x.0
            || exists|j: int|
            0 <= j < sorted.len() && out[i].0 <= (#[trigger] sorted[j]).0 by {
            if i == mid.len() {
                assert(out[i].0 <= sorted[sorted.len() - 1].0);
            } else if mid[i].0 > x.0 {
                let j = choose|j: int|
                    0 <= j < head.len() && mid[i].0 <= (#[trigger] head[j]).0;
                assert(out[i].0 <= sorted[j].0);
            }
        }
        out
    }
}

proof fn lemma_entries_are_of_the_thread(
    tid: u32,
    stream: Seq<Mark>,
    horizon: u64,
    start: u64,
    n: int,
)
    ensures
        forall|i: int|
            0 <= i < entries(tid, stream, horizon, start, n).len() ==> (#[trigger] entries(
                tid,
                stream,
                horizon,
                start,
                n,
            )[i]).1 == tid,
    decreases n,
{
    if n > 0 {
        lemma_entries_are_of_the_thread(tid, stream, horizon, start, n - 1);
        let before = entries(tid, stream, horizon, start, n - 1);
        let own = entry(tid, stream, horizon, start, n - 1);
        let all = entries(tid, stream, horizon, start, n);
        assert forall|i: int| 0 <= i < all.len() implies (#[trigger] all[i]).1 == tid by {
            if i < before.len() {
                assert(all[i] == before[i]);
            } else {
                assert(all[i] == own[i - before.len()]);
            }
        }
    }
}

proof fn lemma_row_is_of_the_thread(
    tid: u32,
    stream: Seq<Mark>,
    horizon: u64,
    start: u64,
    end: u64,
    i: int,
)
    requires
        0 <= i < replayed(tid, stream, horizon, start, end).len(),
    ensures
        replayed(tid, stream, horizon, start, end)[i].1 == tid,
{
    let beyond = first_beyond(stream, start, end, 0);
    let frames = rows_of(tid, open_frames(stream.take(first_inside(stream, start, 0))));
    lemma_entries_are_of_the_thread(tid, stream, horizon, start, beyond);
    if i >= frames.len() {
        assert(entries(tid, stream, horizon, start, beyond)[i - frames.len()].1 == tid);
    }
}

proof fn lemma_rows_by_thread_filter(
    tids: Seq<u32>,
    batches: Seq<BatchView>,
    horizon: u64,
    start: u64,
    end: u64,
    tid: u32,
)
    requires
        tids.no_duplicates(),
    ensures
        rows_by_thread(tids, batches, horizon, start, end).filter(of_thread(tid)) == (
        if tids.contains(tid) {
            replayed(tid, stream_of(batches, tid), horizon, start, end)
        } else {
            Seq::empty()
        }),
    decreases tids.len(),
{
    if tids.len() == 0 {
        reveal(Seq::filter);
    } else {
        let rest = tids.drop_last();
        let last = tids.last();
        let own = replayed(last, stream_of(batches, last), horizon, start, end);
        lemma_rows_by_thread_filter(rest, batches, horizon, start, end, tid);
        Seq::filter_distributes_over_add(
            rows_by_thread(rest, batches, horizon, start, end),
            own,
            of_thread(tid),
        );
        assert forall|i: int| 0 <= i < own.len() implies (#[trigger] own[i]).1 == last by {
            lemma_row_is_of_the_thread(last, stream_of(batches, last), horizon, start, end, i);
        }
        if last == tid {
            lemma_filter_keeps_all(own, of_thread(tid));
            assert(tids[tids.len() - 1] == tid);
            assert(!rest.contains(tid));
            assert(Seq::<Row>::empty() + own =~= own);
        } else {
            lemma_filter_keeps_none(own, of_thread(tid));
            if tids.contains(tid) {
                let k = choose|k: int| 0 <= k < tids.len() && tids[k] == tid;
                assert(rest[k] == tid);
            }
            let before = rows_by_thread(rest, batches, horizon, start, end).filter(of_thread(tid));
            assert(before + Seq::empty() =~= before);
        }
    }
}

/// What a stretch shows of a thread depends on that thread's batches alone.
pub proof fn the_rows_of_a_thread_are_its_own(
    batches: Seq<BatchView>,
    horizon: u64,
    start: u64,
    end: u64,
    tid: u32,
)
    ensures
        assembled_rows(batches, horizon, start, end).filter(of_thread(tid)) == by_reading(
            replayed(tid, stream_of(batches, tid), horizon, start, end),
        ),
{
    let rows = rows_by_thread(threads(batches), batches, horizon, start, end);
    lemma_by_reading_exists(rows);
    lemma_by_reading_filters(rows, by_reading(rows), of_thread(tid));
    lemma_threads_are_distinct(batches);
    lemma_rows_by_thread_filter(threads(batches), batches, horizon, start, end, tid);
    if !threads(batches).contains(tid) {
        lemma_no_thread_no_stream(batches, tid);
        assert(replayed(tid, Seq::empty(), horizon, start, end) =~= Seq::empty());
    }
    lemma_by_reading(
        replayed(tid, stream_of(batches, tid), horizon, start, end),
        by_reading(rows).filter(of_thread(tid)),
    );
}

proof fn lemma_depth_push(rows: Seq<Row>, x: Row)
    requires
        closes_only_what_it_opened(rows),
        depth(rows) > 0 || row_opens(x),
    ensures
        depth(rows.push(x)) == depth(rows) + if row_opens(x) {
            1int
        } else {
            -1int
        },
        closes_only_what_it_opened(rows.push(x)),
{
    assert(rows.push(x).drop_last() =~= rows);
    assert(rows.take(rows.len() as int) =~= rows);
    assert forall|n: int| 0 <= n <= rows.push(x).len() implies #[trigger] depth(
        rows.push(x).take(n),
    ) >= 0 by {
        if n <= rows.len() {
            assert(rows.push(x).take(n) =~= rows.take(n));
            assert(depth(rows.take(n)) >= 0);
        } else {
            assert(rows.push(x).take(n) =~= rows.push(x));
        }
    }
}

/// What is open after some readings of a thread was read in order, and not after
/// the last of them.
proof fn lemma_frames(stream: Seq<Mark>, n: int)
    requires
        0 <= n <= stream.len(),
        marks_in_order(stream),
    ensures
        marks_in_order(open_frames(stream.take(n))),
        forall|i: int|
            0 <= i < open_frames(stream.take(n)).len() ==> {
                &&& mark_opens(#[trigger] open_frames(stream.take(n))[i])
                &&& open_frames(stream.take(n))[i].0 <= stream[n - 1].0
                &&& exists|j: int| 0 <= j < n && stream[j] == open_frames(stream.take(n))[i]
            },
    decreases n,
{
    if n > 0 {
        lemma_frames(stream, n - 1);
        assert(stream.take(n).drop_last() =~= stream.take(n - 1));
        assert(stream.take(n).last() == stream[n - 1]);
        let rest = open_frames(stream.take(n - 1));
        let all = open_frames(stream.take(n));
        if n > 1 {
            assert(stream[n - 2].0 <= stream[n - 1].0);
        }
        assert forall|i: int| 0 <= i < all.len() implies {
            &&& mark_opens(#[trigger] all[i])
            &&& all[i].0 <= stream[n - 1].0
            &&& exists|j: int| 0 <= j < n && stream[j] == all[i]
        } by {
            if i < rest.len() {
                assert(all[i] == rest[i]);
            } else {
                assert(all[i] == stream[n - 1]);
            }
        }
    }
}

/// The rows of a thread up to its `n`-th reading.
spec fn rows_until(tid: u32, stream: Seq<Mark>, horizon: u64, start: u64, n: int) -> Seq<Row> {
    rows_of(tid, open_frames(stream.take(first_inside(stream, start, 0)))) + entries(
        tid,
        stream,
        horizon,
        start,
        n,
    )
}

/// What the rows of a thread are like, up to a reading: enough is open, and the
/// rows not at the horizon are in order.
spec fn rows_are_sound(rows: Seq<Row>, horizon: u64, frames: nat, latest: u64) -> bool {
    &&& closes_only_what_it_opened(rows)
    &&& depth(rows) == frames
    &&& forall|i: int| 0 <= i < rows.len() ==> horizon <= (#[trigger] rows[i]).0 <= latest
    &&& forall|i: int, j: int|
        0 <= i <= j < rows.len() && rows[j].0 != horizon ==> (#[trigger] rows[i]).0 <= (
        #[trigger] rows[j]).0
    &&& forall|i: int, j: int|
        0 <= i <= j < rows.len() && rows[j].0 == horizon && !row_opens(rows[j]) ==> (
        #[trigger] rows[i]).0 <= (#[trigger] rows[j]).0
}

proof fn lemma_sound_push(rows: Seq<Row>, horizon: u64, frames: nat, latest: u64, x: Row)
    requires
        rows_are_sound(rows, horizon, frames, latest),
        horizon <= x.0,
        latest <= x.0 || (x.0 == horizon && row_opens(x)),
        frames > 0 || row_opens(x),
    ensures
        rows_are_sound(
            rows.push(x),
            horizon,
            (frames + if row_opens(x) {
                1int
            } else {
                -1int
            }) as nat,
            if latest <= x.0 {
                x.0
            } else {
                latest
            },
        ),
{
    lemma_depth_push(rows, x);
}

proof fn lemma_first_inside(stream: Seq<Mark>, start: u64, i: int)
    requires
        0 <= i <= stream.len(),
    ensures
        i <= first_inside(stream, start, i) <= stream.len(),
        first_inside(stream, start, i) < stream.len() ==> stream[first_inside(
            stream,
            start,
            i,
        )].0 >= start,
    decreases stream.len() - i,
{
    if i < stream.len() && stream[i].0 < start {
        lemma_first_inside(stream, start, i + 1);
    }
}

proof fn lemma_first_beyond(stream: Seq<Mark>, start: u64, end: u64, i: int)
    requires
        0 <= i <= stream.len(),
    ensures
        i <= first_beyond(stream, start, end, i) <= stream.len(),
        first_inside(stream, start, i) <= first_beyond(stream, start, end, i),
        forall|j: int|
            i <= j < first_beyond(stream, start, end, i) ==> (#[trigger] stream[j]).0 < start
                || stream[j].0 <= end,
    decreases stream.len() - i,
{
    lemma_first_inside(stream, start, i);
    if i < stream.len() && !(stream[i].0 >= start && stream[i].0 > end) {
        lemma_first_beyond(stream, start, end, i + 1);
    }
}

proof fn lemma_frames_are_sound(tid: u32, frames: Seq<Mark>, horizon: u64, latest: u64)
    requires
        marks_in_order(frames),
        forall|i: int|
            0 <= i < frames.len() ==> mark_opens(#[trigger] frames[i]) && horizon <= frames[i].0
                <= latest,
    ensures
        rows_are_sound(rows_of(tid, frames), horizon, frames.len(), latest),
    decreases frames.len(),
{
    if frames.len() == 0 {
        assert(rows_of(tid, frames).take(0) =~= Seq::empty());
    } else {
        let rest = frames.drop_last();
        let x = (frames.last().0, tid, frames.last().1);
        let top = if rest.len() == 0 {
            horizon
        } else {
            rest.last().0
        };
        assert(rest.len() > 0 ==> rest.last() == frames[frames.len() - 2]);
        assert forall|i: int| 0 <= i < rest.len() implies mark_opens(#[trigger] rest[i]) && horizon
            <= rest[i].0 <= top by {
            assert(frames[i].0 <= frames[frames.len() - 2].0);
        }
        lemma_frames_are_sound(tid, rest, horizon, top);
        assert(rows_of(tid, frames) =~= rows_of(tid, rest).push(x));
        lemma_sound_push(rows_of(tid, rest), horizon, rest.len(), top, x);
    }
}

proof fn lemma_rows_are_sound(tid: u32, stream: Seq<Mark>, horizon: u64, start: u64, n: int)
    requires
        marks_in_order(stream),
        forall|i: int| 0 <= i < stream.len() ==> horizon <= (#[trigger] stream[i]).0,
        first_inside(stream, start, 0) <= n <= stream.len(),
    ensures
        rows_are_sound(
            rows_until(tid, stream, horizon, start, n),
            horizon,
            open_frames(stream.take(n)).len(),
            if n == 0 {
                horizon
            } else {
                stream[n - 1].0
            },
        ),
    decreases n,
{
    let inside = first_inside(stream, start, 0);
    lemma_first_inside(stream, start, 0);
    let latest = if n == 0 {
        horizon
    } else {
        stream[n - 1].0
    };
    if n == inside {
        lemma_nothing_before_the_inside(tid, stream, horizon, start, n);
        let frames = open_frames(stream.take(n));
        lemma_frames(stream, n);
        assert forall|i: int| 0 <= i < frames.len() implies mark_opens(#[trigger] frames[i])
            && horizon <= frames[i].0 <= latest by {
            let j = choose|j: int| 0 <= j < n && stream[j] == frames[i];
            assert(horizon <= stream[j].0);
        }
        lemma_frames_are_sound(tid, frames, horizon, latest);
        assert(rows_until(tid, stream, horizon, start, n) =~= rows_of(tid, frames));
    } else {
        lemma_rows_are_sound(tid, stream, horizon, start, n - 1);
        assert(stream.take(n).drop_last() =~= stream.take(n - 1));
        let m = stream[n - 1];
        assert(stream.take(n).last() == m);
        assert(stream[inside].0 <= m.0);
        let rest = rows_until(tid, stream, horizon, start, n - 1);
        let frames = open_frames(stream.take(n - 1)).len();
        let row = (m.0, tid, m.1);
        let top = if n == 1 {
            horizon
        } else {
            stream[n - 2].0
        };
        assert(horizon <= top <= m.0);
        if !mark_opens(m) && frames == 0 {
            let opening = synthesized(tid, m, horizon);
            crate::event::packing_round_trips(code_of_word(m.1), EventKind::Begin);
            lemma_sound_push(rest, horizon, frames, top, opening);
            lemma_sound_push(rest.push(opening), horizon, 1, top, row);
            assert(rows_until(tid, stream, horizon, start, n) =~= rest.push(opening).push(row));
        } else {
            lemma_sound_push(rest, horizon, frames, top, row);
            assert(rows_until(tid, stream, horizon, start, n) =~= rest.push(row));
        }
    }
}

/// Whether a row was not read at `ticks`.
spec fn not_read_at(ticks: u64) -> spec_fn(Row) -> bool {
    |r: Row| r.0 != ticks
}

/// The rows at the horizon, ahead of the others.
spec fn regrouped(rows: Seq<Row>, horizon: u64) -> Seq<Row> {
    rows.filter(read_at(horizon)) + rows.filter(not_read_at(horizon))
}

proof fn lemma_depth_of_sum(a: Seq<Row>, b: Seq<Row>)
    ensures
        depth(a + b) == depth(a) + depth(b),
    decreases b.len(),
{
    if b.len() == 0 {
        assert(a + b =~= a);
    } else {
        assert((a + b).drop_last() =~= a + b.drop_last());
        lemma_depth_of_sum(a, b.drop_last());
    }
}

proof fn lemma_open_ahead(a: Seq<Row>, x: Row, b: Seq<Row>)
    requires
        closes_only_what_it_opened(a + b),
        row_opens(x),
    ensures
        closes_only_what_it_opened(a.push(x) + b),
{
    let all = a.push(x) + b;
    assert forall|n: int| 0 <= n <= all.len() implies #[trigger] depth(all.take(n)) >= 0 by {
        if n <= a.len() {
            assert(all.take(n) =~= (a + b).take(n));
            assert(depth((a + b).take(n)) >= 0);
        } else {
            let k = n - a.len() - 1;
            assert(all.take(n) =~= a.push(x) + b.take(k));
            assert((a + b).take(n - 1) =~= a + b.take(k));
            assert(depth((a + b).take(n - 1)) >= 0);
            lemma_depth_of_sum(a.push(x), b.take(k));
            lemma_depth_of_sum(a, b.take(k));
            assert(a.push(x).drop_last() =~= a);
        }
    }
}

proof fn lemma_regrouping(rows: Seq<Row>, horizon: u64, frames: nat, latest: u64)
    requires
        rows_are_sound(rows, horizon, frames, latest),
    ensures
        closes_only_what_it_opened(regrouped(rows, horizon)),
        depth(regrouped(rows, horizon)) == depth(rows),
        in_order(regrouped(rows, horizon)),
        forall|i: int|
            0 <= i < regrouped(rows, horizon).len() ==> horizon <= (#[trigger] regrouped(
                rows,
                horizon,
            )[i]).0 <= latest,
    decreases rows.len(),
{
    let p = read_at(horizon);
    let q = not_read_at(horizon);
    if rows.len() == 0 {
        reveal(Seq::filter);
        assert(regrouped(rows, horizon) =~= rows);
    } else {
        let rest = rows.drop_last();
        let x = rows.last();
        assert(rows =~= rest.push(x));
        assert(rows.take(rest.len() as int) =~= rest);
        assert(rows.take(rows.len() as int) =~= rows);
        assert(depth(rows.take(rest.len() as int)) >= 0);
        assert forall|n: int| 0 <= n <= rest.len() implies #[trigger] depth(rest.take(n)) >= 0 by {
            assert(rest.take(n) =~= rows.take(n));
            assert(depth(rows.take(n)) >= 0);
        }
        let below = if x.0 == horizon && row_opens(x) {
            latest
        } else {
            x.0
        };
        assert forall|i: int| 0 <= i < rest.len() implies horizon <= (#[trigger] rest[i]).0
            <= below by {
            assert(rest[i] == rows[i]);
            assert(rows[i].0 <= latest);
            assert(x == rows[rows.len() - 1]);
        }
        assert(rows_are_sound(rest, horizon, depth(rest) as nat, below));
        lemma_regrouping(rest, horizon, depth(rest) as nat, below);
        lemma_filter_push(rest, x, p);
        lemma_filter_push(rest, x, q);
        let a = rest.filter(p);
        let b = rest.filter(q);
        if x.0 != horizon {
            assert(regrouped(rows, horizon) =~= (a + b).push(x));
            lemma_depth_push(a + b, x);
        } else if row_opens(x) {
            assert(regrouped(rows, horizon) =~= a.push(x) + b);
            lemma_open_ahead(a, x, b);
            lemma_depth_of_sum(a.push(x), b);
            lemma_depth_of_sum(a, b);
            assert(a.push(x).drop_last() =~= a);
            lemma_at_horizon_first(rest, horizon, x);
            assert forall|i: int| 0 <= i < (a.push(x) + b).len() implies horizon <= (#[trigger] (
            a.push(x) + b)[i]).0 <= latest by {
                assert(rows[rows.len() - 1] == x);
                if i < a.len() {
                    assert((a.push(x) + b)[i] == regrouped(rest, horizon)[i]);
                } else if i > a.len() {
                    assert((a.push(x) + b)[i] == regrouped(rest, horizon)[i - 1]);
                }
            }
        } else {
            assert forall|i: int| 0 <= i < rest.len() implies !q(#[trigger] rest[i]) by {
                assert(rows[i].0 <= rows[rows.len() - 1].0);
            }
            lemma_filter_keeps_none(rest, q);
            assert(regrouped(rows, horizon) =~= (a + b).push(x));
            lemma_depth_push(a + b, x);
        }
    }
}

proof fn lemma_at_horizon_first(rest: Seq<Row>, horizon: u64, x: Row)
    requires
        in_order(regrouped(rest, horizon)),
        x.0 == horizon,
        forall|i: int|
            0 <= i < regrouped(rest, horizon).len() ==> horizon <= (#[trigger] regrouped(
                rest,
                horizon,
            )[i]).0,
    ensures
        in_order(rest.filter(read_at(horizon)).push(x) + rest.filter(not_read_at(horizon))),
{
    let a = rest.filter(read_at(horizon));
    let b = rest.filter(not_read_at(horizon));
    let all = a.push(x) + b;
    broadcast use vstd::seq_lib::group_filter_ensures;

    assert forall|i: int, j: int| 0 <= i <= j < all.len() implies (#[trigger] all[i]).0 <= (
    #[trigger] all[j]).0 by {
        let sorted = a + b;
        if i <= a.len() {
            if i < a.len() {
                assert(read_at(horizon)(a[i]));
            }
            if j < a.len() {
                assert(read_at(horizon)(a[j]));
            } else if j > a.len() {
                assert(all[j] == sorted[j - 1]);
                assert(horizon <= regrouped(rest, horizon)[j - 1].0);
            }
        } else {
            assert(all[i] == sorted[i - 1] && all[j] == sorted[j - 1]);
        }
    }
}

proof fn lemma_regrouped_is_by_reading(rows: Seq<Row>, horizon: u64)
    requires
        in_order(regrouped(rows, horizon)),
    ensures
        is_by_reading(rows, regrouped(rows, horizon)),
{
    let p = read_at(horizon);
    let q = not_read_at(horizon);
    assert forall|ticks: u64| #[trigger]
        regrouped(rows, horizon).filter(read_at(ticks)) == rows.filter(read_at(ticks)) by {
        let r = read_at(ticks);
        Seq::filter_distributes_over_add(rows.filter(p), rows.filter(q), r);
        lemma_filters_commute(rows, p, r);
        lemma_filters_commute(rows, q, r);
        let kept = rows.filter(r);
        assert forall|i: int| 0 <= i < kept.len() implies (#[trigger] kept[i]).0 == ticks by {
            rows.lemma_filter_pred(r, i);
        }
        if ticks == horizon {
            lemma_filter_keeps_all(kept, p);
            lemma_filter_keeps_none(kept, q);
        } else {
            lemma_filter_keeps_none(kept, p);
            lemma_filter_keeps_all(kept, q);
        }
        assert(kept.filter(p) + kept.filter(q) =~= kept);
    }
}

/// In a stretch, a thread at no point closes more slices than it has opened, as
/// long as its readings are in order and none was taken before the horizon.
pub proof fn a_thread_closes_only_what_it_opened(
    batches: Seq<BatchView>,
    horizon: u64,
    start: u64,
    end: u64,
    tid: u32,
)
    requires
        marks_in_order(stream_of(batches, tid)),
        forall|i: int|
            0 <= i < stream_of(batches, tid).len() ==> horizon <= (#[trigger] stream_of(
                batches,
                tid,
            )[i]).0,
    ensures
        closes_only_what_it_opened(
            assembled_rows(batches, horizon, start, end).filter(of_thread(tid)),
        ),
{
    let stream = stream_of(batches, tid);
    let beyond = first_beyond(stream, start, end, 0);
    let rows = replayed(tid, stream, horizon, start, end);
    the_rows_of_a_thread_are_its_own(batches, horizon, start, end, tid);
    lemma_first_beyond(stream, start, end, 0);
    lemma_rows_are_sound(tid, stream, horizon, start, beyond);
    lemma_regrouping(
        rows,
        horizon,
        open_frames(stream.take(beyond)).len(),
        if beyond == 0 {
            horizon
        } else {
            stream[beyond - 1].0
        },
    );
    lemma_regrouped_is_by_reading(rows, horizon);
    lemma_by_reading(rows, regrouped(rows, horizon));
}

/// A row of a stretch was read in it, or opens a slice that was still open when it
/// began, or opens at the horizon a slice whose own open is lost.
pub proof fn rows_lie_in_the_stretch_or_open_it(
    tid: u32,
    stream: Seq<Mark>,
    horizon: u64,
    start: u64,
    end: u64,
    i: int,
)
    requires
        0 <= i < replayed(tid, stream, horizon, start, end).len(),
    ensures
        ({
            let r = replayed(tid, stream, horizon, start, end)[i];
            ||| start <= r.0 <= end && stream.contains((r.0, r.2))
            ||| r.0 < start && row_opens(r) && stream.contains((r.0, r.2))
            ||| r.0 == horizon && kind_of_word(r.2) is Begin
        }),
{
    let inside = first_inside(stream, start, 0);
    lemma_first_inside(stream, start, 0);
    lemma_first_beyond(stream, start, end, 0);
    let frames = open_frames(stream.take(inside));
    if i < frames.len() {
        let r = replayed(tid, stream, horizon, start, end)[i];
        assert(r == rows_of(tid, frames)[i]);
        lemma_frames_were_read(stream, inside, i);
        let j = choose|j: int| 0 <= j < inside && stream[j] == frames[i];
        lemma_before_the_inside(stream, start, 0, j);
        assert(stream.contains((r.0, r.2)));
    } else {
        lemma_entry_of(
            tid,
            stream,
            horizon,
            start,
            end,
            first_beyond(stream, start, end, 0),
            i - frames.len(),
        );
    }
}

proof fn lemma_frames_were_read(stream: Seq<Mark>, n: int, i: int)
    requires
        0 <= n <= stream.len(),
        0 <= i < open_frames(stream.take(n)).len(),
    ensures
        mark_opens(open_frames(stream.take(n))[i]),
        exists|j: int| 0 <= j < n && stream[j] == open_frames(stream.take(n))[i],
    decreases n,
{
    if n > 0 {
        assert(stream.take(n).drop_last() =~= stream.take(n - 1));
        assert(stream.take(n).last() == stream[n - 1]);
        if i < open_frames(stream.take(n - 1)).len() {
            lemma_frames_were_read(stream, n - 1, i);
        }
    }
}

proof fn lemma_entry_of(
    tid: u32,
    stream: Seq<Mark>,
    horizon: u64,
    start: u64,
    end: u64,
    n: int,
    i: int,
)
    requires
        n <= stream.len(),
        forall|j: int| 0 <= j < n ==> (#[trigger] stream[j]).0 < start || stream[j].0 <= end,
        0 <= i < entries(tid, stream, horizon, start, n).len(),
    ensures
        ({
            let r = entries(tid, stream, horizon, start, n)[i];
            ||| start <= r.0 <= end && stream.contains((r.0, r.2))
            ||| r.0 == horizon && kind_of_word(r.2) is Begin
        }),
    decreases n,
{
    if n > 0 {
        let before = entries(tid, stream, horizon, start, n - 1);
        if i < before.len() {
            lemma_entry_of(tid, stream, horizon, start, end, n - 1, i);
        } else {
            let m = stream[n - 1];
            crate::event::packing_round_trips(code_of_word(m.1), EventKind::Begin);
            assert(stream.contains((m.0, m.1)));
        }
    }
}

/// A tail that the history already holds adds nothing.
pub proof fn a_held_run_is_counted_once(
    history: Seq<BatchView>,
    tails: Seq<BatchView>,
    tail: BatchView,
    i: int,
)
    requires
        0 <= i < history.len(),
        same_run(history[i], tail),
    ensures
        fresh_tails(history, tails.push(tail)) == fresh_tails(history, tails),
{
    assert(tails.push(tail).drop_last() =~= tails);
}

/// The events of a stretch come in the order of their times, on a clock that
/// never runs backwards.
pub proof fn a_stretch_is_in_order(
    history: Seq<BatchView>,
    tails: Seq<BatchView>,
    clock: Clock,
    horizon: u64,
    start: u64,
    end: u64,
    i: int,
    j: int,
)
    requires
        clock.is_monotonic(),
        0 <= i <= j < assembled(history, tails, clock, horizon, start, end).len(),
    ensures
        assembled(history, tails, clock, horizon, start, end)[i].ts_ns <= assembled(
            history,
            tails,
            clock,
            horizon,
            start,
            end,
        )[j].ts_ns,
{
    let batches = history + fresh_tails(history, tails);
    lemma_by_reading_exists(rows_by_thread(threads(batches), batches, horizon, start, end));
    let rows = assembled_rows(batches, horizon, start, end);
    assert(rows[i].0 <= rows[j].0);
    assert(clock.ns_at(rows[i].0) <= clock.ns_at(rows[j].0));
}

/// Whether a batch is of a thread.
pub open spec fn batch_of(tid: u32) -> spec_fn(BatchView) -> bool {
    |b: BatchView| b.tid == tid
}

/// Whether an event is of a thread.
pub open spec fn event_of(tid: u32) -> spec_fn(Event) -> bool {
    |ev: Event| ev.tid == tid
}

proof fn lemma_fresh_among_its_own(history: Seq<BatchView>, tail: BatchView)
    ensures
        is_fresh(history.filter(batch_of(tail.tid)), tail) == is_fresh(history, tail),
    decreases history.len(),
{
    reveal(Seq::filter);
    let own = history.filter(batch_of(tail.tid));
    if history.len() > 0 {
        let rest = history.drop_last();
        let rest_own = rest.filter(batch_of(tail.tid));
        lemma_fresh_among_its_own(rest, tail);
        if is_fresh(history, tail) {
            assert forall|i: int| 0 <= i < rest.len() implies !same_run(#[trigger] rest[i], tail) by {
                assert(rest[i] == history[i]);
            }
            assert forall|i: int| 0 <= i < own.len() implies !same_run(#[trigger] own[i], tail) by {
                if i < rest_own.len() {
                    assert(own[i] == rest_own[i]);
                } else {
                    assert(own[i] == history[history.len() - 1]);
                }
            }
        } else {
            let i = choose|i: int| 0 <= i < history.len() && same_run(#[trigger] history[i], tail);
            if i < rest.len() {
                assert(same_run(rest[i], tail));
                let j = choose|j: int|
                    0 <= j < rest_own.len() && same_run(#[trigger] rest_own[j], tail);
                assert(same_run(own[j], tail));
            } else {
                assert(same_run(own[own.len() - 1], tail));
            }
        }
    }
}

proof fn lemma_fresh_tails_of_a_thread(history: Seq<BatchView>, tails: Seq<BatchView>, tid: u32)
    ensures
        fresh_tails(history.filter(batch_of(tid)), tails.filter(batch_of(tid))) == fresh_tails(
            history,
            tails,
        ).filter(batch_of(tid)),
    decreases tails.len(),
{
    reveal(Seq::filter);
    if tails.len() > 0 {
        let rest = tails.drop_last();
        let tail = tails.last();
        let own = rest.filter(batch_of(tid));
        lemma_fresh_tails_of_a_thread(history, rest, tid);
        if is_fresh(history, tail) {
            assert(fresh_tails(history, rest).push(tail).drop_last() =~= fresh_tails(
                history,
                rest,
            ));
        }
        if tail.tid == tid {
            lemma_fresh_among_its_own(history, tail);
            assert(own.push(tail).drop_last() =~= own);
        }
    }
}

proof fn lemma_stream_among_its_own(batches: Seq<BatchView>, tid: u32, other: u32)
    ensures
        stream_of(batches.filter(batch_of(tid)), other) == (if other == tid {
            stream_of(batches, tid)
        } else {
            Seq::empty()
        }),
    decreases batches.len(),
{
    reveal(Seq::filter);
    if batches.len() > 0 {
        let rest = batches.drop_last();
        let own = rest.filter(batch_of(tid));
        lemma_stream_among_its_own(rest, tid, other);
        if batches.last().tid == tid {
            assert(own.push(batches.last()).drop_last() =~= own);
        }
    }
}

proof fn lemma_rows_of_one_thread(
    batches: Seq<BatchView>,
    horizon: u64,
    start: u64,
    end: u64,
    tid: u32,
)
    ensures
        assembled_rows(batches.filter(batch_of(tid)), horizon, start, end) == assembled_rows(
            batches,
            horizon,
            start,
            end,
        ).filter(of_thread(tid)),
{
    let own = batches.filter(batch_of(tid));
    let rows = assembled_rows(own, horizon, start, end);
    lemma_stream_among_its_own(batches, tid, tid);
    the_rows_of_a_thread_are_its_own(batches, horizon, start, end, tid);
    the_rows_of_a_thread_are_its_own(own, horizon, start, end, tid);
    assert forall|i: int| 0 <= i < rows.len() implies of_thread(tid)(#[trigger] rows[i]) by {
        let other = rows[i].1;
        if other != tid {
            lemma_stream_among_its_own(batches, tid, other);
            the_rows_of_a_thread_are_its_own(own, horizon, start, end, other);
            let none = replayed(other, Seq::empty(), horizon, start, end);
            assert(none =~= Seq::empty());
            assert(is_by_reading(none, none));
            lemma_by_reading(none, none);
            rows.lemma_filter_contains(of_thread(other), i);
        }
    }
    lemma_filter_keeps_all(rows, of_thread(tid));
}

proof fn lemma_shown_filter(clock: Clock, rows: Seq<Row>, tid: u32)
    ensures
        Seq::new(rows.len(), |i: int| shown(clock, rows[i])).filter(event_of(tid)) == Seq::new(
            rows.filter(of_thread(tid)).len(),
            |i: int| shown(clock, rows.filter(of_thread(tid))[i]),
        ),
    decreases rows.len(),
{
    reveal(Seq::filter);
    let all = Seq::new(rows.len(), |i: int| shown(clock, rows[i]));
    if rows.len() > 0 {
        let rest = rows.drop_last();
        lemma_shown_filter(clock, rest, tid);
        assert(all.drop_last() =~= Seq::new(rest.len(), |i: int| shown(clock, rest[i])));
        assert(all.last() == shown(clock, rows.last()));
    }
    assert(all.filter(event_of(tid)) =~= Seq::new(
        rows.filter(of_thread(tid)).len(),
        |i: int| shown(clock, rows.filter(of_thread(tid))[i]),
    ));
}

/// What a stretch holds of a thread is, event for event, what comes of that thread's
/// batches alone.
pub proof fn a_thread_stands_on_its_own(
    history: Seq<BatchView>,
    tails: Seq<BatchView>,
    clock: Clock,
    horizon: u64,
    start: u64,
    end: u64,
    tid: u32,
)
    ensures
        assembled(history, tails, clock, horizon, start, end).filter(event_of(tid)) == assembled(
            history.filter(batch_of(tid)),
            tails.filter(batch_of(tid)),
            clock,
            horizon,
            start,
            end,
        ),
{
    let fresh = fresh_tails(history, tails);
    let batches = history + fresh;
    lemma_fresh_tails_of_a_thread(history, tails, tid);
    Seq::filter_distributes_over_add(history, fresh, batch_of(tid));
    lemma_rows_of_one_thread(batches, horizon, start, end, tid);
    lemma_shown_filter(clock, assembled_rows(batches, horizon, start, end), tid);
}

proof fn lemma_stream_add(a: Seq<BatchView>, b: Seq<BatchView>, tid: u32)
    ensures
        stream_of(a + b, tid) == stream_of(a, tid) + stream_of(b, tid),
    decreases b.len(),
{
    if b.len() == 0 {
        assert(a + b =~= a);
        assert(stream_of(a, tid) + Seq::<Mark>::empty() =~= stream_of(a, tid));
    } else {
        lemma_stream_add(a, b.drop_last(), tid);
        assert((a + b).drop_last() =~= a + b.drop_last());
        assert(stream_of(a + b, tid) =~= stream_of(a, tid) + stream_of(b, tid));
    }
}

/// Where a reading of a batch stands among those of its thread, and where a reading of
/// a thread comes from.
proof fn lemma_stream_parts(batches: Seq<BatchView>, tid: u32)
    ensures
        forall|m: int|
            0 <= m < stream_of(batches, tid).len() ==> comes_from(
                batches,
                tid,
                #[trigger] stream_of(batches, tid)[m],
            ),
    decreases batches.len(),
{
    let all = stream_of(batches, tid);
    if batches.len() > 0 {
        let rest = batches.drop_last();
        let before = stream_of(rest, tid);
        lemma_stream_parts(rest, tid);
        assert forall|m: int| 0 <= m < all.len() implies comes_from(
            batches,
            tid,
            #[trigger] all[m],
        ) by {
            if m < before.len() {
                assert(comes_from(rest, tid, before[m]));
                let (p, i) = choose|p: int, i: int| #[trigger] is_reading(rest, tid, before[m], p, i);
                assert(is_reading(batches, tid, all[m], p, i));
            } else {
                let p = batches.len() - 1;
                assert(is_reading(batches, tid, all[m], p, m - before.len()));
            }
        }
    }
}

/// Whether a reading is the one at a place in one of some batches, and of a thread.
pub open spec fn is_reading(batches: Seq<BatchView>, tid: u32, m: Mark, p: int, i: int) -> bool {
    &&& 0 <= p < batches.len()
    &&& batches[p].tid == tid
    &&& 0 <= i < batches[p].events.len()
    &&& m.0 == (batches[p].base_ticks + batches[p].events[i].delta_ticks) % 0x1_0000_0000_0000_0000
    &&& m.1 == batches[p].events[i].code_kind
}

/// Whether a reading stands in one of some batches, and is of a thread.
pub open spec fn comes_from(batches: Seq<BatchView>, tid: u32, m: Mark) -> bool {
    exists|p: int, i: int| #[trigger] is_reading(batches, tid, m, p, i)
}

/// Whether all readings of a thread in some batches were taken up to a point.
pub open spec fn all_by(batches: Seq<BatchView>, tid: u32, end: u64) -> bool {
    forall|p: int, i: int, m: Mark| #[trigger] is_reading(batches, tid, m, p, i) ==> m.0 <= end
}

proof fn lemma_not_beyond(stream: Seq<Mark>, start: u64, end: u64, i: int, m: int)
    requires
        0 <= i <= m < stream.len(),
        forall|j: int| i <= j <= m ==> (#[trigger] stream[j]).0 <= end,
    ensures
        first_beyond(stream, start, end, i) > m,
    decreases m - i,
{
    assert(stream[i].0 <= end);
    if i < m {
        lemma_not_beyond(stream, start, end, i + 1, m);
    } else {
        lemma_first_beyond(stream, start, end, i + 1);
    }
}

proof fn lemma_entries_hold(
    tid: u32,
    stream: Seq<Mark>,
    horizon: u64,
    start: u64,
    n: int,
    m: int,
)
    requires
        0 <= m < n <= stream.len(),
        stream[m].0 >= start,
    ensures
        entries(tid, stream, horizon, start, n).contains((stream[m].0, tid, stream[m].1)),
    decreases n,
{
    let before = entries(tid, stream, horizon, start, n - 1);
    let own = entry(tid, stream, horizon, start, n - 1);
    let all = entries(tid, stream, horizon, start, n);
    let row = (stream[m].0, tid, stream[m].1);
    if m == n - 1 {
        assert(own.last() == row);
        assert(all[all.len() - 1] == row);
    } else {
        lemma_entries_hold(tid, stream, horizon, start, n - 1, m);
        let i = before.index_of(row);
        assert(all[i] == row);
    }
}

proof fn lemma_by_reading_holds(rows: Seq<Row>, r: Row)
    requires
        rows.contains(r),
    ensures
        by_reading(rows).contains(r),
{
    lemma_by_reading_exists(rows);
    let out = by_reading(rows);
    let i = rows.index_of(r);
    rows.lemma_filter_contains(read_at(r.0), i);
    assert(out.filter(read_at(r.0)) == rows.filter(read_at(r.0)));
    out.lemma_filter_contains_rev(read_at(r.0), r);
}

proof fn lemma_row_is_assembled(
    batches: Seq<BatchView>,
    horizon: u64,
    start: u64,
    end: u64,
    tid: u32,
    r: Row,
)
    requires
        replayed(tid, stream_of(batches, tid), horizon, start, end).contains(r),
    ensures
        assembled_rows(batches, horizon, start, end).contains(r),
{
    let rows = replayed(tid, stream_of(batches, tid), horizon, start, end);
    lemma_by_reading_holds(rows, r);
    the_rows_of_a_thread_are_its_own(batches, horizon, start, end, tid);
    assembled_rows(batches, horizon, start, end).lemma_filter_contains_rev(of_thread(tid), r);
}

/// A reading in the middle of a thread's is shown, where it lies in the stretch and none
/// before it lies beyond.
proof fn lemma_reading_is_shown(
    before: Seq<BatchView>,
    b: BatchView,
    after: Seq<BatchView>,
    horizon: u64,
    start: u64,
    end: u64,
    i: int,
)
    requires
        0 <= i < b.events.len(),
        all_by(before, b.tid, end),
        forall|j: int| 0 <= j <= i ==> (#[trigger] marks(b)[j]).0 <= end,
        marks(b)[i].0 >= start,
    ensures
        assembled_rows(before + seq![b] + after, horizon, start, end).contains(
            (marks(b)[i].0, b.tid, marks(b)[i].1),
        ),
{
    let tid = b.tid;
    let batches = before + seq![b] + after;
    let first = stream_of(before, tid);
    let stream = stream_of(batches, tid);
    lemma_stream_add(before, seq![b], tid);
    lemma_stream_add(before + seq![b], after, tid);
    assert(stream_of(seq![b], tid) =~= marks(b)) by {
        assert(seq![b].drop_last() =~= Seq::empty());
        assert(stream_of(Seq::empty(), tid) =~= Seq::<Mark>::empty());
    }
    let m = first.len() + i;
    assert(stream =~= first + marks(b) + stream_of(after, tid));
    lemma_stream_parts(before, tid);
    assert forall|j: int| 0 <= j <= m implies (#[trigger] stream[j]).0 <= end by {
        if j < first.len() {
            assert(comes_from(before, tid, first[j]));
            let (p, x) = choose|p: int, x: int| #[trigger] is_reading(before, tid, first[j], p, x);
            assert(is_reading(before, tid, first[j], p, x));
        } else {
            assert(stream[j] == marks(b)[j - first.len()]);
        }
    }
    assert(stream[m] == marks(b)[i]);
    lemma_not_beyond(stream, start, end, 0, m);
    lemma_first_beyond(stream, start, end, 0);
    let beyond = first_beyond(stream, start, end, 0);
    lemma_entries_hold(tid, stream, horizon, start, beyond, m);
    let row = (marks(b)[i].0, tid, marks(b)[i].1);
    let rows = replayed(tid, stream, horizon, start, end);
    let frames = rows_of(tid, open_frames(stream.take(first_inside(stream, start, 0))));
    let at = entries(tid, stream, horizon, start, beyond).index_of(row);
    assert(rows[frames.len() + at] == row);
    lemma_row_is_assembled(batches, horizon, start, end, tid, row);
}

/// Whether some events hold one of a thread at a time, of the code object and the kind
/// of a word.
pub open spec fn holds_event(events: Seq<Event>, ts_ns: u64, tid: u32, word: u32) -> bool {
    exists|n: int|
        0 <= n < events.len() && (#[trigger] events[n]).ts_ns == ts_ns && events[n].tid == tid
            && code_of_word(events[n].code_kind) == code_of_word(word) && kind_of_word(
            events[n].code_kind,
        ) == kind_of_word(word)
}

proof fn lemma_row_is_an_event(clock: Clock, rows: Seq<Row>, r: Row)
    requires
        rows.contains(r),
    ensures
        holds_event(
            Seq::new(rows.len(), |i: int| shown(clock, rows[i])),
            clock.ns_at(r.0),
            r.1,
            r.2,
        ),
{
    let events = Seq::new(rows.len(), |i: int| shown(clock, rows[i]));
    let n = rows.index_of(r);
    crate::event::packing_round_trips(code_of_word(r.2), kind_of_word(r.2));
    assert(events[n] == shown(clock, r));
}

/// A dump leaves no reading out that the history holds in its stretch, as long as none
/// that its thread had taken before lies beyond the end.
pub proof fn a_reading_of_the_history_is_shown(
    history: Seq<BatchView>,
    tails: Seq<BatchView>,
    clock: Clock,
    horizon: u64,
    start: u64,
    end: u64,
    k: int,
    i: int,
    reading: u64,
)
    requires
        0 <= k < history.len(),
        0 <= i < history[k].events.len(),
        reading == (history[k].base_ticks + history[k].events[i].delta_ticks)
            % 0x1_0000_0000_0000_0000,
        start <= reading <= end,
        all_by(history.take(k), history[k].tid, end),
        forall|j: int|
            0 <= j < i ==> (history[k].base_ticks + (#[trigger] history[k].events[j]).delta_ticks)
                % 0x1_0000_0000_0000_0000 <= end,
    ensures
        holds_event(
            assembled(history, tails, clock, horizon, start, end),
            clock.ns_at(reading),
            history[k].tid,
            history[k].events[i].code_kind,
        ),
{
    let b = history[k];
    let fresh = fresh_tails(history, tails);
    let after = history.skip(k + 1) + fresh;
    assert(history + fresh =~= history.take(k) + seq![b] + after);
    assert forall|j: int| 0 <= j <= i implies (#[trigger] marks(b)[j]).0 <= end by {
        assert((b.base_ticks + b.events[j].delta_ticks) % 0x1_0000_0000_0000_0000 <= end);
    }
    lemma_reading_is_shown(history.take(k), b, after, horizon, start, end, i);
    lemma_row_is_an_event(
        clock,
        assembled_rows(history + fresh, horizon, start, end),
        (reading, b.tid, b.events[i].code_kind),
    );
}

proof fn lemma_fresh_tails_add(history: Seq<BatchView>, a: Seq<BatchView>, b: Seq<BatchView>)
    ensures
        fresh_tails(history, a + b) == fresh_tails(history, a) + fresh_tails(history, b),
    decreases b.len(),
{
    if b.len() == 0 {
        assert(a + b =~= a);
        assert(fresh_tails(history, a) + Seq::<BatchView>::empty() =~= fresh_tails(history, a));
    } else {
        lemma_fresh_tails_add(history, a, b.drop_last());
        assert((a + b).drop_last() =~= a + b.drop_last());
        assert(fresh_tails(history, a + b) =~= fresh_tails(history, a) + fresh_tails(history, b));
    }
}

proof fn lemma_fresh_tails_are_tails(history: Seq<BatchView>, tails: Seq<BatchView>, q: int)
    requires
        0 <= q < fresh_tails(history, tails).len(),
    ensures
        tails.contains(fresh_tails(history, tails)[q]),
    decreases tails.len(),
{
    let rest = tails.drop_last();
    if q < fresh_tails(history, rest).len() {
        lemma_fresh_tails_are_tails(history, rest, q);
        let i = rest.index_of(fresh_tails(history, rest)[q]);
        assert(tails[i] == fresh_tails(history, tails)[q]);
    } else {
        assert(tails[tails.len() - 1] == fresh_tails(history, tails)[q]);
    }
}

/// A dump leaves no reading out that a thread's open batch holds in its stretch, unless
/// the history holds a batch of that thread with that very start: a thread that has sent
/// off other batches has its open one shown all the same.
pub proof fn a_reading_of_an_open_batch_is_shown(
    history: Seq<BatchView>,
    tails: Seq<BatchView>,
    clock: Clock,
    horizon: u64,
    start: u64,
    end: u64,
    k: int,
    i: int,
    reading: u64,
)
    requires
        0 <= k < tails.len(),
        0 <= i < tails[k].events.len(),
        forall|h: int|
            0 <= h < history.len() ==> (#[trigger] history[h]).tid != tails[k].tid
                || history[h].base_ticks != tails[k].base_ticks,
        reading == (tails[k].base_ticks + tails[k].events[i].delta_ticks)
            % 0x1_0000_0000_0000_0000,
        start <= reading <= end,
        all_by(history, tails[k].tid, end),
        all_by(tails.take(k), tails[k].tid, end),
        forall|j: int|
            0 <= j < i ==> (tails[k].base_ticks + (#[trigger] tails[k].events[j]).delta_ticks)
                % 0x1_0000_0000_0000_0000 <= end,
    ensures
        holds_event(
            assembled(history, tails, clock, horizon, start, end),
            clock.ns_at(reading),
            tails[k].tid,
            tails[k].events[i].code_kind,
        ),
{
    let b = tails[k];
    let tid = b.tid;
    let fresh = fresh_tails(history, tails);
    let earlier = fresh_tails(history, tails.take(k));
    let later = fresh_tails(history, tails.skip(k + 1));
    assert(tails =~= tails.take(k) + seq![b] + tails.skip(k + 1));
    lemma_fresh_tails_add(history, tails.take(k), seq![b]);
    lemma_fresh_tails_add(history, tails.take(k) + seq![b], tails.skip(k + 1));
    assert(is_fresh(history, b));
    assert(fresh_tails(history, seq![b]) =~= seq![b]) by {
        assert(seq![b].drop_last() =~= Seq::empty());
        assert(fresh_tails(history, Seq::empty()) =~= Seq::<BatchView>::empty());
    }
    let before = history + earlier;
    assert(history + fresh =~= before + seq![b] + later);
    assert(all_by(before, tid, end)) by {
        assert forall|p: int, x: int, m: Mark| #[trigger] is_reading(before, tid, m, p, x) implies m.0
            <= end by {
            if p < history.len() {
                assert(is_reading(history, tid, m, p, x));
            } else {
                let q = p - history.len();
                lemma_fresh_tails_are_tails(history, tails.take(k), q);
                let at = tails.take(k).index_of(earlier[q]);
                assert(is_reading(tails.take(k), tid, m, at, x));
            }
        }
    }
    assert forall|j: int| 0 <= j <= i implies (#[trigger] marks(b)[j]).0 <= end by {
        assert((b.base_ticks + b.events[j].delta_ticks) % 0x1_0000_0000_0000_0000 <= end);
    }
    lemma_reading_is_shown(before, b, later, horizon, start, end, i);
    lemma_row_is_an_event(
        clock,
        assembled_rows(history + fresh, horizon, start, end),
        (reading, tid, b.events[i].code_kind),
    );
}

/// Whether an event of a stretch stands for a reading in it or, where it opens a slice,
/// before it.
pub open spec fn stands_for(clock: Clock, start: u64, end: u64, ev: Event, m: Mark) -> bool {
    &&& ev.ts_ns == clock.ns_at(m.0)
    &&& code_of_word(ev.code_kind) == code_of_word(m.1)
    &&& kind_of_word(ev.code_kind) == kind_of_word(m.1)
    &&& m.0 <= end || m.0 < start
    &&& m.0 >= start || opens(kind_of_word(m.1))
}

/// A dump makes nothing up but opens at the horizon: each of its events was read by its
/// thread, in the stretch or, where it opens a slice, before it.
pub proof fn an_event_of_a_stretch_was_read(
    history: Seq<BatchView>,
    tails: Seq<BatchView>,
    clock: Clock,
    horizon: u64,
    start: u64,
    end: u64,
    n: int,
)
    requires
        0 <= n < assembled(history, tails, clock, horizon, start, end).len(),
    ensures
        ({
            let ev = assembled(history, tails, clock, horizon, start, end)[n];
            ||| ev.ts_ns == clock.ns_at(horizon) && kind_of_word(ev.code_kind) is Begin
            ||| exists|m: Mark| #[trigger]
                comes_from(history + tails, ev.tid, m) && stands_for(clock, start, end, ev, m)
        }),
{
    let fresh = fresh_tails(history, tails);
    let batches = history + fresh;
    let rows = assembled_rows(batches, horizon, start, end);
    let r = rows[n];
    let tid = r.1;
    let stream = stream_of(batches, tid);
    the_rows_of_a_thread_are_its_own(batches, horizon, start, end, tid);
    rows.lemma_filter_contains(of_thread(tid), n);
    let own = replayed(tid, stream, horizon, start, end);
    assert(by_reading(own).contains(r));
    lemma_by_reading_exists(own);
    let at = by_reading(own).index_of(r);
    by_reading(own).lemma_filter_contains(read_at(r.0), at);
    own.lemma_filter_contains_rev(read_at(r.0), r);
    let i = own.index_of(r);
    rows_lie_in_the_stretch_or_open_it(tid, stream, horizon, start, end, i);
    crate::event::packing_round_trips(code_of_word(r.2), kind_of_word(r.2));
    let ev = assembled(history, tails, clock, horizon, start, end)[n];
    assert(ev == shown(clock, r));
    assert(own[i] == r);
    if !(r.0 == horizon && kind_of_word(r.2) is Begin) {
        let m = (r.0, r.2);
        assert(stream.contains(m));
        let x = stream.index_of(m);
        lemma_stream_parts(batches, tid);
        assert(comes_from(batches, tid, stream[x]));
        let (p, y) = choose|p: int, y: int| #[trigger] is_reading(batches, tid, m, p, y);
        if p < history.len() {
            assert(is_reading(history + tails, tid, m, p, y));
        } else {
            let q = p - history.len();
            lemma_fresh_tails_are_tails(history, tails, q);
            let t = tails.index_of(fresh[q]);
            assert(is_reading(history + tails, tid, m, history.len() + t, y));
        }
        assert(comes_from(history + tails, ev.tid, m));
        assert(stands_for(clock, start, end, ev, m));
    }
}

/// By how many more slices some readings open than they close.
pub open spec fn balance(stream: Seq<Mark>) -> int
    decreases stream.len(),
{
    if stream.len() == 0 {
        0
    } else {
        balance(stream.drop_last()) + if opens(kind_of_word(stream.last().1)) {
            1int
        } else {
            -1int
        }
    }
}

/// Whether readings at no point close more slices than they have opened.
pub open spec fn never_short(stream: Seq<Mark>) -> bool {
    forall|n: int| 0 <= n <= stream.len() ==> balance(#[trigger] stream.take(n)) >= 0
}

proof fn lemma_frames_balance(stream: Seq<Mark>, n: int)
    requires
        never_short(stream),
        0 <= n <= stream.len(),
    ensures
        open_frames(stream.take(n)).len() == balance(stream.take(n)),
    decreases n,
{
    assert(balance(stream.take(n)) >= 0);
    if n > 0 {
        lemma_frames_balance(stream, n - 1);
        assert(stream.take(n).drop_last() =~= stream.take(n - 1));
    }
}

proof fn lemma_plain_entries(
    tid: u32,
    stream: Seq<Mark>,
    horizon: u64,
    start: u64,
    n: int,
    k: int,
)
    requires
        never_short(stream),
        0 <= n <= k <= stream.len(),
        forall|i: int| 0 <= i < n ==> (#[trigger] stream[i]).0 < start,
        forall|i: int| n <= i < stream.len() ==> (#[trigger] stream[i]).0 >= start,
    ensures
        entries(tid, stream, horizon, start, k) == rows_of(tid, stream.subrange(n, k)),
    decreases k,
{
    if k == n {
        lemma_inside_is(stream, start, n, 0);
        lemma_nothing_before_the_inside(tid, stream, horizon, start, n);
        assert(rows_of(tid, stream.subrange(n, k)) =~= Seq::empty());
    } else {
        lemma_plain_entries(tid, stream, horizon, start, n, k - 1);
        lemma_frames_balance(stream, k - 1);
        lemma_frames_balance(stream, k);
        assert(stream.take(k).drop_last() =~= stream.take(k - 1));
        assert(stream[k - 1].0 >= start);
        assert(rows_of(tid, stream.subrange(n, k)) =~= rows_of(
            tid,
            stream.subrange(n, k - 1),
        ) + entry(tid, stream, horizon, start, k - 1));
    }
}

proof fn lemma_inside_is(stream: Seq<Mark>, start: u64, n: int, i: int)
    requires
        0 <= i <= n <= stream.len(),
        forall|i: int| 0 <= i < n ==> (#[trigger] stream[i]).0 < start,
        forall|i: int| n <= i < stream.len() ==> (#[trigger] stream[i]).0 >= start,
    ensures
        first_inside(stream, start, i) == n,
    decreases n - i,
{
    if i < n {
        assert(stream[i].0 < start);
        lemma_inside_is(stream, start, n, i + 1);
    } else if n < stream.len() {
        assert(stream[n].0 >= start);
    }
}

proof fn lemma_readings_are_the_stream(batches: Seq<BatchView>, tid: u32)
    requires
        forall|p: int| 0 <= p < batches.len() ==> (#[trigger] batches[p]).tid == tid,
    ensures
        stream_of(batches, tid) == readings(batches),
        batches.filter(batch_of(tid)) == batches,
    decreases batches.len(),
{
    reveal(Seq::filter);
    if batches.len() > 0 {
        let rest = batches.drop_last();
        assert forall|p: int| 0 <= p < rest.len() implies (#[trigger] rest[p]).tid == tid by {
            assert(rest[p] == batches[p]);
        }
        lemma_readings_are_the_stream(rest, tid);
        assert(batches[batches.len() - 1].tid == tid);
        assert(rest.push(batches.last()) =~= batches);
    } else {
        assert(batches =~= Seq::empty());
    }
}

/// Whether an event is a reading of a thread.
pub open spec fn is_event_of(clock: Clock, ev: Event, tid: u32, m: Mark) -> bool {
    &&& ev.ts_ns == clock.ns_at(m.0)
    &&& ev.tid == tid
    &&& code_of_word(ev.code_kind) == code_of_word(m.1)
    &&& kind_of_word(ev.code_kind) == kind_of_word(m.1)
}

/// The rows of a thread that closed nothing it had not opened: what was open, and what
/// was read in the stretch.
spec fn plain_rows(tid: u32, stream: Seq<Mark>, n: int) -> Seq<Row> {
    rows_of(tid, open_frames(stream.take(n))) + rows_of(
        tid,
        stream.subrange(n, stream.len() as int),
    )
}

proof fn lemma_plain_rows_in_order(tid: u32, stream: Seq<Mark>, start: u64, n: int)
    requires
        marks_in_order(stream),
        0 <= n <= stream.len(),
        forall|i: int| 0 <= i < n ==> (#[trigger] stream[i]).0 < start,
        forall|i: int| n <= i < stream.len() ==> (#[trigger] stream[i]).0 >= start,
    ensures
        in_order(plain_rows(tid, stream, n)),
{
    let open = open_frames(stream.take(n));
    let rows = plain_rows(tid, stream, n);
    lemma_frames(stream, n);
    assert forall|i: int, j: int| 0 <= i <= j < rows.len() implies (#[trigger] rows[i]).0 <= (
    #[trigger] rows[j]).0 by {
        if j < open.len() {
            assert(rows[i].0 == open[i].0 && rows[j].0 == open[j].0);
        } else {
            let y = n + (j - open.len());
            assert(rows[j].0 == stream[y].0);
            if i < open.len() {
                assert(rows[i].0 == open[i].0);
                assert(open[i].0 <= stream[n - 1].0);
                assert(stream[n - 1].0 < start);
            } else {
                let x = n + (i - open.len());
                assert(rows[i].0 == stream[x].0);
            }
        }
    }
}

proof fn lemma_plain_rows(
    history: Seq<BatchView>,
    horizon: u64,
    start: u64,
    end: u64,
    tid: u32,
    n: int,
)
    requires
        forall|p: int| 0 <= p < history.len() ==> (#[trigger] history[p]).tid == tid,
        marks_in_order(readings(history)),
        never_short(readings(history)),
        0 <= n <= readings(history).len(),
        forall|i: int| 0 <= i < n ==> (#[trigger] readings(history)[i]).0 < start,
        forall|i: int|
            n <= i < readings(history).len() ==> start <= (#[trigger] readings(history)[i]).0
                <= end,
    ensures
        assembled_rows(history, horizon, start, end) == plain_rows(tid, readings(history), n),
{
    let stream = readings(history);
    let rows = plain_rows(tid, stream, n);
    lemma_readings_are_the_stream(history, tid);
    lemma_inside_is(stream, start, n, 0);
    assert forall|j: int| 0 <= j < stream.len() implies (#[trigger] stream[j]).0 <= end
        || stream[j].0 < start by {
        if j >= n {
            assert(stream[j].0 <= end);
        }
    }
    lemma_none_beyond(stream, start, end, 0);
    lemma_plain_entries(tid, stream, horizon, start, n, stream.len() as int);
    assert(replayed(tid, stream, horizon, start, end) == rows);
    lemma_plain_rows_in_order(tid, stream, start, n);
    assert(is_by_reading(rows, rows));
    lemma_by_reading(rows, rows);
    lemma_rows_of_one_thread(history, horizon, start, end, tid);
    the_rows_of_a_thread_are_its_own(history, horizon, start, end, tid);
}

/// What a dump of one thread holds, to the event: as many opens as slices were open when
/// the stretch began, and then every reading in it, each once and in order. That is of a
/// thread whose readings are in order and none of them beyond the end, and that closed
/// nothing it had not opened.
pub proof fn a_stretch_is_what_was_open_and_what_was_read(
    history: Seq<BatchView>,
    clock: Clock,
    horizon: u64,
    start: u64,
    end: u64,
    tid: u32,
    n: int,
)
    requires
        forall|p: int| 0 <= p < history.len() ==> (#[trigger] history[p]).tid == tid,
        marks_in_order(readings(history)),
        never_short(readings(history)),
        0 <= n <= readings(history).len(),
        forall|i: int| 0 <= i < n ==> (#[trigger] readings(history)[i]).0 < start,
        forall|i: int|
            n <= i < readings(history).len() ==> start <= (#[trigger] readings(history)[i]).0
                <= end,
    ensures
        ({
            let events = assembled(history, Seq::empty(), clock, horizon, start, end);
            let stream = readings(history);
            let open = balance(stream.take(n));
            &&& open >= 0
            &&& events.len() == open + (stream.len() - n)
            &&& forall|i: int|
                0 <= i < open ==> opens(kind_of_word((#[trigger] events[i]).code_kind))
                    && events[i].tid == tid
            &&& forall|i: int|
                n <= i < stream.len() ==> is_event_of(
                    clock,
                    events[open + i - n],
                    tid,
                    #[trigger] stream[i],
                )
        }),
{
    let stream = readings(history);
    let none = Seq::<BatchView>::empty();
    let open = open_frames(stream.take(n));
    let rows = plain_rows(tid, stream, n);
    lemma_frames_balance(stream, n);
    lemma_frames(stream, n);
    lemma_plain_rows(history, horizon, start, end, tid, n);
    assert(fresh_tails(history, none) =~= none);
    assert(history + none =~= history);
    let events = assembled(history, none, clock, horizon, start, end);
    assert forall|i: int| 0 <= i < open.len() implies opens(
        kind_of_word((#[trigger] events[i]).code_kind),
    ) && events[i].tid == tid by {
        assert(rows[i] == (open[i].0, tid, open[i].1));
        assert(mark_opens(open[i]));
        crate::event::packing_round_trips(code_of_word(open[i].1), kind_of_word(open[i].1));
    }
    assert forall|i: int| n <= i < stream.len() implies is_event_of(
        clock,
        events[open.len() + i - n],
        tid,
        #[trigger] stream[i],
    ) by {
        assert(rows[open.len() + i - n] == (stream[i].0, tid, stream[i].1));
        crate::event::packing_round_trips(code_of_word(stream[i].1), kind_of_word(stream[i].1));
    }
}

proof fn lemma_none_beyond(stream: Seq<Mark>, start: u64, end: u64, i: int)
    requires
        0 <= i <= stream.len(),
        forall|j: int| 0 <= j < stream.len() ==> (#[trigger] stream[j]).0 <= end || stream[j].0 < start,
    ensures
        first_beyond(stream, start, end, i) == stream.len(),
    decreases stream.len() - i,
{
    if i < stream.len() {
        assert(stream[i].0 <= end || stream[i].0 < start);
        lemma_none_beyond(stream, start, end, i + 1);
    }
}

proof fn lemma_frame_stays(stream: Seq<Mark>, m: int, j: int)
    requires
        0 <= m < j <= stream.len(),
        opens(kind_of_word(stream[m].1)),
        forall|x: int| m < x <= j ==> balance(#[trigger] stream.subrange(m + 1, x)) >= 0,
    ensures
        ({
            let d = open_frames(stream.take(m)).len() as int;
            let frames = open_frames(stream.take(j));
            &&& frames.len() == d + 1 + balance(stream.subrange(m + 1, j))
            &&& frames[d] == stream[m]
        }),
    decreases j,
{
    assert(stream.take(j).drop_last() =~= stream.take(j - 1));
    assert(stream.take(j).last() == stream[j - 1]);
    assert(balance(stream.subrange(m + 1, j)) >= 0);
    if j == m + 1 {
        assert(stream.subrange(m + 1, j) =~= Seq::empty());
    } else {
        assert forall|x: int| m < x <= j - 1 implies balance(
            #[trigger] stream.subrange(m + 1, x),
        ) >= 0 by {}
        lemma_frame_stays(stream, m, j - 1);
        assert(stream.subrange(m + 1, j).drop_last() =~= stream.subrange(m + 1, j - 1));
    }
}

/// A slice that a thread had opened before the stretch, and not closed before it, is
/// opened in the dump, at the reading it was opened at.
pub proof fn what_was_open_is_shown(
    history: Seq<BatchView>,
    clock: Clock,
    horizon: u64,
    start: u64,
    end: u64,
    tid: u32,
    n: int,
    m: int,
)
    requires
        forall|p: int| 0 <= p < history.len() ==> (#[trigger] history[p]).tid == tid,
        0 <= m < n <= readings(history).len(),
        forall|i: int| 0 <= i < n ==> (#[trigger] readings(history)[i]).0 < start,
        n < readings(history).len() ==> readings(history)[n].0 >= start,
        opens(kind_of_word(readings(history)[m].1)),
        forall|x: int|
            m < x <= n ==> balance(#[trigger] readings(history).subrange(m + 1, x)) >= 0,
    ensures
        holds_event(
            assembled(history, Seq::empty(), clock, horizon, start, end),
            clock.ns_at(readings(history)[m].0),
            tid,
            readings(history)[m].1,
        ),
{
    let stream = readings(history);
    let none = Seq::<BatchView>::empty();
    lemma_readings_are_the_stream(history, tid);
    lemma_first_stops(stream, start, n, 0);
    lemma_frame_stays(stream, m, n);
    let d = open_frames(stream.take(m)).len() as int;
    let row = (stream[m].0, tid, stream[m].1);
    assert(replayed(tid, stream, horizon, start, end)[d] == row);
    lemma_row_is_assembled(history, horizon, start, end, tid, row);
    assert(fresh_tails(history, none) =~= none);
    assert(history + none =~= history);
    lemma_row_is_an_event(clock, assembled_rows(history, horizon, start, end), row);
}

proof fn lemma_first_stops(stream: Seq<Mark>, start: u64, n: int, i: int)
    requires
        0 <= i <= n <= stream.len(),
        forall|i: int| 0 <= i < n ==> (#[trigger] stream[i]).0 < start,
        n < stream.len() ==> stream[n].0 >= start,
    ensures
        first_inside(stream, start, i) == n,
    decreases n - i,
{
    if i < n {
        assert(stream[i].0 < start);
        lemma_first_stops(stream, start, n, i + 1);
    }
}

proof fn lemma_frames_of_a_suffix(stream: Seq<Mark>, m: int) -> (x: int)
    requires
        0 <= m <= stream.len(),
    ensures
        0 <= x <= m,
        balance(stream.subrange(x, m)) == open_frames(stream.take(m)).len(),
    decreases m,
{
    if m == 0 {
        assert(stream.subrange(0, 0) =~= Seq::empty());
        0
    } else {
        let x = lemma_frames_of_a_suffix(stream, m - 1);
        assert(stream.take(m).drop_last() =~= stream.take(m - 1));
        assert(stream.take(m).last() == stream[m - 1]);
        assert(stream.subrange(x, m).drop_last() =~= stream.subrange(x, m - 1));
        if !mark_opens(stream[m - 1]) && open_frames(stream.take(m - 1)).len() == 0 {
            assert(stream.subrange(m, m) =~= Seq::empty());
            m
        } else {
            x
        }
    }
}

proof fn lemma_entries_hold_the_open(
    tid: u32,
    stream: Seq<Mark>,
    horizon: u64,
    start: u64,
    n: int,
    m: int,
)
    requires
        0 <= m < n <= stream.len(),
        stream[m].0 >= start,
        !mark_opens(stream[m]),
        open_frames(stream.take(m)).len() == 0,
    ensures
        entries(tid, stream, horizon, start, n).contains(synthesized(tid, stream[m], horizon)),
    decreases n,
{
    let before = entries(tid, stream, horizon, start, n - 1);
    let own = entry(tid, stream, horizon, start, n - 1);
    let all = entries(tid, stream, horizon, start, n);
    let row = synthesized(tid, stream[m], horizon);
    if m == n - 1 {
        assert(own[0] == row);
        assert(all[before.len() as int] == row);
    } else {
        lemma_entries_hold_the_open(tid, stream, horizon, start, n - 1, m);
        let i = before.index_of(row);
        assert(all[i] == row);
    }
}

/// A slice that is closed in the stretch, and whose open is lost, is opened in the dump
/// at the horizon, under its own code object. Its open is lost where what came before it
/// leaves nothing open, from wherever on it is counted.
pub proof fn a_lost_open_is_made_up_at_the_horizon(
    history: Seq<BatchView>,
    clock: Clock,
    horizon: u64,
    start: u64,
    end: u64,
    tid: u32,
    m: int,
    word: u32,
)
    requires
        forall|p: int| 0 <= p < history.len() ==> (#[trigger] history[p]).tid == tid,
        0 <= m < readings(history).len(),
        !opens(kind_of_word(readings(history)[m].1)),
        readings(history)[m].0 >= start,
        forall|j: int| 0 <= j <= m ==> (#[trigger] readings(history)[j]).0 <= end,
        forall|x: int| 0 <= x <= m ==> balance(#[trigger] readings(history).subrange(x, m)) <= 0,
        code_of_word(word) == code_of_word(readings(history)[m].1),
        kind_of_word(word) is Begin,
    ensures
        holds_event(
            assembled(history, Seq::empty(), clock, horizon, start, end),
            clock.ns_at(horizon),
            tid,
            word,
        ),
{
    let stream = readings(history);
    let none = Seq::<BatchView>::empty();
    lemma_readings_are_the_stream(history, tid);
    let x = lemma_frames_of_a_suffix(stream, m);
    assert(balance(stream.subrange(x, m)) <= 0);
    lemma_not_beyond(stream, start, end, 0, m);
    lemma_first_beyond(stream, start, end, 0);
    let beyond = first_beyond(stream, start, end, 0);
    lemma_entries_hold_the_open(tid, stream, horizon, start, beyond, m);
    let row = synthesized(tid, stream[m], horizon);
    let frames = rows_of(tid, open_frames(stream.take(first_inside(stream, start, 0))));
    let at = entries(tid, stream, horizon, start, beyond).index_of(row);
    assert(replayed(tid, stream, horizon, start, end)[frames.len() + at] == row);
    lemma_row_is_assembled(history, horizon, start, end, tid, row);
    assert(fresh_tails(history, none) =~= none);
    assert(history + none =~= history);
    lemma_row_is_an_event(clock, assembled_rows(history, horizon, start, end), row);
    crate::event::packing_round_trips(code_of_word(stream[m].1), EventKind::Begin);
}

/// A stretch is put together from the history and the open batches that are given, by the
/// clock that is given, and between the two readings that are: what the history holds
/// between them is shown.
pub proof fn what_is_put_together_is_what_was_given(
    history: &[&EventBatch],
    tails: &[EventBatch],
    clock: &Clock,
    horizon_ticks: u64,
    start_ticks: u64,
    end_ticks: u64,
    events: Vec<Event>,
    k: int,
    i: int,
    reading: u64,
)
    requires
        call_ensures(
            assemble,
            (history, tails, clock, horizon_ticks, start_ticks, end_ticks),
            events,
        ),
        0 <= k < history@.len(),
        0 <= i < history@[k].events@.len(),
        reading == (history@[k].base_ticks + history@[k].events@[i].delta_ticks)
            % 0x1_0000_0000_0000_0000,
        start_ticks <= reading <= end_ticks,
        all_by(batch_views(history@).take(k), history@[k].tid, end_ticks),
        forall|j: int|
            0 <= j < i ==> (history@[k].base_ticks + (
            #[trigger] history@[k].events@[j]).delta_ticks) % 0x1_0000_0000_0000_0000 <= end_ticks,
    ensures
        events@ == assembled(
            batch_views(history@),
            views(tails@),
            *clock,
            horizon_ticks,
            start_ticks,
            end_ticks,
        ),
        holds_event(
            events@,
            clock.ns_at(reading),
            history@[k].tid,
            history@[k].events@[i].code_kind,
        ),
{
    a_reading_of_the_history_is_shown(
        batch_views(history@),
        views(tails@),
        *clock,
        horizon_ticks,
        start_ticks,
        end_ticks,
        k,
        i,
        reading,
    );
}

/// Sorted rows are the rows, none before one with an earlier reading, and those of one
/// reading in the order they had.
pub proof fn sorted_rows_are_the_rows(rows: Vec<Row>, out: Vec<Row>, i: int, j: int, ticks: u64)
    requires
        call_ensures(sort_rows, (rows,), out),
    ensures
        0 <= i <= j < out@.len() ==> out@[i].0 <= out@[j].0,
        out@.filter(|r: Row| r.0 == ticks) == rows@.filter(|r: Row| r.0 == ticks),
{
    let at = |r: Row| r.0 == ticks;
    assert(at =~= read_at(ticks));
}

proof fn lemma_two_threads(batches: Seq<BatchView>, a: u32, b: u32)
    requires
        batches.len() > 0,
        batches[0].tid == a,
        a != b,
        forall|i: int| 0 <= i < batches.len() ==> (#[trigger] batches[i]).tid == a || batches[i].tid
            == b,
    ensures
        threads(batches) == (if exists|i: int|
            0 <= i < batches.len() && (#[trigger] batches[i]).tid == b {
            seq![a, b]
        } else {
            seq![a]
        }),
    decreases batches.len(),
{
    let rest = batches.drop_last();
    let n = batches.len() - 1;
    if n == 0 {
        assert(threads(rest) =~= Seq::empty());
        assert(threads(batches) =~= seq![a]);
    } else {
        assert forall|i: int| 0 <= i < rest.len() implies (#[trigger] rest[i]).tid == a
            || rest[i].tid == b by {
            assert(batches[i].tid == a || batches[i].tid == b);
        }
        lemma_two_threads(rest, a, b);
        let seen = exists|i: int| 0 <= i < rest.len() && (#[trigger] rest[i]).tid == b;
        if seen {
            let i = choose|i: int| 0 <= i < rest.len() && (#[trigger] rest[i]).tid == b;
            assert(batches[i].tid == b);
            assert(seq![a, b][0] == a && seq![a, b][1] == b);
            assert(threads(batches) =~= seq![a, b]);
        } else if batches[n].tid == b {
            assert(!seq![a].contains(b));
            assert(threads(batches) =~= seq![a, b]);
        } else {
            assert(seq![a][0] == a);
            assert(threads(batches) =~= seq![a]);
            assert forall|i: int| 0 <= i < batches.len() implies (#[trigger] batches[i]).tid != b by {
                if i < n {
                    assert(rest[i].tid != b);
                }
            }
        }
    }
}

/// Of what two threads read at one tick, that of the thread whose batches were met first is
/// shown first, and each thread's in the order in which it read it.
pub proof fn threads_that_were_met_first_come_first(
    batches: Seq<BatchView>,
    horizon: u64,
    start: u64,
    end: u64,
    a: u32,
    b: u32,
    k: int,
    ticks: u64,
)
    requires
        batches.len() > 0,
        batches[0].tid == a,
        a != b,
        0 <= k < batches.len(),
        batches[k].tid == b,
        forall|i: int| 0 <= i < batches.len() ==> (#[trigger] batches[i]).tid == a || batches[i].tid
            == b,
    ensures
        ({
            let at = |r: Row| r.0 == ticks;
            assembled_rows(batches, horizon, start, end).filter(at) == replayed(
                a,
                stream_of(batches, a),
                horizon,
                start,
                end,
            ).filter(at) + replayed(b, stream_of(batches, b), horizon, start, end).filter(at)
        }),
{
    let at = |r: Row| r.0 == ticks;
    assert(at =~= read_at(ticks));
    lemma_two_threads(batches, a, b);
    let tids = threads(batches);
    assert(tids == seq![a, b]);
    let rows = rows_by_thread(tids, batches, horizon, start, end);
    lemma_by_reading_exists(rows);
    assert(tids.drop_last() =~= seq![a]);
    assert(tids.drop_last().drop_last() =~= Seq::empty());
    reveal_with_fuel(rows_by_thread, 3);
    let x = replayed(a, stream_of(batches, a), horizon, start, end);
    let y = replayed(b, stream_of(batches, b), horizon, start, end);
    assert(Seq::<Row>::empty() + x =~= x);
    assert(rows == x + y);
    Seq::filter_distributes_over_add(x, y, read_at(ticks));
}

} // verus!
