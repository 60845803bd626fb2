//! Dumps that a program asks for, and the files they go to.

use crate::format::{format_extension, Format};
use crate::text::{append_number, digit_chars, numbers_differ_in_their_digits};
use vstd::prelude::*;

verus! {

/// How far a block that records a stretch has come.
#[derive(Copy, Clone, Debug, PartialEq, Eq, Structural)]
pub enum Stage {
    Ready,
    /// It has been entered: the window it holds, and the reading it began at.
    Open { id: u64, start_ticks: u64 },
    Done,
}

/// Why a block could not be entered.
#[derive(Copy, Clone, Debug, PartialEq, Eq, Structural)]
pub enum Refusal {
    /// It had been entered before.
    RunsOnce,
}

impl Refusal {
    /// What the program is told.
    pub fn message(self) -> (s: &'static str)
        ensures
            s@ == "a snapshot block runs exactly once"@,
    {
        "a snapshot block runs exactly once"
    }
}

/// A block that records the stretch from where it is entered to where it is left.
/// It runs once.
pub struct SnapshotBlock {
    reason: String,
    stage: Stage,
}

impl SnapshotBlock {
    pub closed spec fn stage_of(&self) -> Stage {
        self.stage
    }

    pub closed spec fn reason_of(&self) -> Seq<char> {
        self.reason@
    }

    pub fn new(reason: String) -> (b: Self)
        ensures
            b.stage_of() is Ready,
            b.reason_of() == reason@,
    {
        SnapshotBlock { reason, stage: Stage::Ready }
    }

    /// Whether the block can be entered.
    pub fn check_ready(&self) -> (r: Result<(), Refusal>)
        ensures
            r is Ok <==> self.stage_of() is Ready,
            r is Err ==> r == Err::<(), Refusal>(Refusal::RunsOnce),
    {
        match self.stage {
            Stage::Ready => Ok(()),
            _ => Err(Refusal::RunsOnce),
        }
    }

    /// Enters the block: a window has been opened for it.
    pub fn enter(&mut self, id: u64, start_ticks: u64) -> (r: Result<(), Refusal>)
        ensures
            final(self).reason_of() == old(self).reason_of(),
            match r {
                Ok(()) => {
                    &&& old(self).stage_of() is Ready
                    &&& final(self).stage_of() == (Stage::Open { id, start_ticks })
                },
                Err(refusal) => {
                    &&& !(old(self).stage_of() is Ready)
                    &&& final(self).stage_of() == old(self).stage_of()
                    &&& refusal is RunsOnce
                },
            },
    {
        match self.stage {
            Stage::Ready => {
                self.stage = Stage::Open { id, start_ticks };
                Ok(())
            },
            _ => Err(Refusal::RunsOnce),
        }
    }

    /// Leaves the block: the window and the reading that its dump starts at, where it
    /// had been entered. A block that was not entered can still be.
    pub fn exit(&mut self) -> (opened: Option<(u64, u64)>)
        ensures
            final(self).reason_of() == old(self).reason_of(),
            match old(self).stage_of() {
                Stage::Open { id, start_ticks } => {
                    &&& opened == Some((id, start_ticks))
                    &&& final(self).stage_of() is Done
                },
                _ => opened is None && final(self).stage_of() == old(self).stage_of(),
            },
    {
        match self.stage {
            Stage::Open { id, start_ticks } => {
                self.stage = Stage::Done;
                Some((id, start_ticks))
            },
            _ => None,
        }
    }

    /// What the dump of the block is called: after the exception that the block was
    /// left with too, if there was one.
    pub fn dump_reason(&self, exception: Option<&str>) -> (s: String)
        ensures
            s@ == (match exception {
                Some(name) => self.reason_of() + "-"@ + name@,
                None => self.reason_of(),
            }),
    {
        let mut s = self.reason.clone();
        if let Some(name) = exception {
            s.append("-");
            s.append(name);
        }
        s
    }
}

/// Whether a character can stand in a file name as it is.
pub open spec fn is_safe(c: char) -> bool {
    ||| '0' <= c <= '9'
    ||| 'A' <= c <= 'Z'
    ||| 'a' <= c <= 'z'
    ||| c == '.'
    ||| c == '_'
    ||| c == '-'
}

/// A reason as it stands in a file name.
pub open spec fn made_safe(reason: Seq<char>) -> Seq<char> {
    Seq::new(
        reason.len(),
        |i: int|
            if is_safe(reason[i]) {
                reason[i]
            } else {
                '-'
            },
    )
}

/// What tells the files of one name apart.
pub open spec fn serial_tag(serial: u32) -> Seq<char> {
    if serial == 1 {
        Seq::empty()
    } else {
        "-"@ + digit_chars(serial as nat)
    }
}

/// The name of a dump's file: the time, the reason, what tells it apart, the process
/// where it is not the one that the user launched, and the format.
pub open spec fn dump_name(
    stamp: u64,
    reason: Seq<char>,
    serial: u32,
    pid: u32,
    format: Format,
) -> Seq<char> {
    digit_chars(stamp as nat) + "-"@ + made_safe(reason) + serial_tag(serial) + (if pid == 0 {
        Seq::empty()
    } else {
        "."@ + digit_chars(pid as nat)
    }) + "."@ + format_extension(format)
}

/// A reason as it stands in a file name.
pub fn make_safe(reason: &str) -> (s: String)
    ensures
        s@ == made_safe(reason@),
{
    let mut s = String::new();
    let n: usize = reason.unicode_len();
    proof {
        reveal_strlit("-");
    }
    for i in 0..n
        invariant
            n == reason@.len(),
            "-"@.len() == 1,
            "-"@[0] == '-',
            s@ =~= made_safe(reason@).take(i as int),
    {
        let c: char = reason.get_char(i);
        let safe: bool = ('0' <= c && c <= '9') || ('A' <= c && c <= 'Z') || ('a' <= c && c <= 'z')
            || c == '.' || c == '_' || c == '-';
        if safe {
            s.append(reason.substring_char(i, i + 1));
        } else {
            s.append("-");
        }
    }
    s
}

/// The names that a dump's file can have, one after the other.
pub struct NameSearch {
    stamp: u64,
    reason: String,
    pid: u32,
    format: Format,
    serial: u32,
}

impl NameSearch {
    /// The name that goes with a number.
    pub closed spec fn name_at(&self, serial: u32) -> Seq<char> {
        dump_name(self.stamp, self.reason@, serial, self.pid, self.format)
    }

    /// The number that comes next.
    pub closed spec fn upcoming(&self) -> u32 {
        self.serial
    }

    pub fn new(stamp: u64, reason: String, pid: u32, format: Format) -> (s: Self)
        ensures
            s.upcoming() == 1,
            forall|serial: u32| #[trigger]
                s.name_at(serial) == dump_name(stamp, reason@, serial, pid, format),
    {
        NameSearch { stamp, reason, pid, format, serial: 1 }
    }

    /// The next name, and none once all numbers are used up.
    pub fn next_name(&mut self) -> (name: Option<String>)
        ensures
            forall|serial: u32| #[trigger]
                final(self).name_at(serial) == old(self).name_at(serial),
            match name {
                Some(name) => {
                    &&& name@ == old(self).name_at(old(self).upcoming())
                    &&& old(self).upcoming() < u32::MAX
                    &&& final(self).upcoming() == old(self).upcoming() + 1
                },
                None => {
                    &&& old(self).upcoming() == u32::MAX
                    &&& final(self).upcoming() == old(self).upcoming()
                },
            },
    {
        if self.serial == u32::MAX {
            return None;
        }
        let mut name = String::new();
        append_number(&mut name, self.stamp);
        name.append("-");
        name.append(make_safe(self.reason.as_str()).as_str());
        if self.serial != 1 {
            name.append("-");
            append_number(&mut name, self.serial as u64);
        }
        if self.pid != 0 {
            name.append(".");
            append_number(&mut name, self.pid as u64);
        }
        name.append(".");
        name.append(self.format.extension());
        assert(name@ =~= self.name_at(self.serial));
        self.serial = self.serial + 1;
        Some(name)
    }
}

proof fn lemma_digits_are_safe(v: nat)
    ensures
        forall|i: int| 0 <= i < digit_chars(v).len() ==> is_safe(#[trigger] digit_chars(v)[i]),
    decreases v,
{
    if v >= 10 {
        lemma_digits_are_safe(v / 10);
        let rest = digit_chars(v / 10);
        assert forall|i: int| 0 <= i < digit_chars(v).len() implies is_safe(
            #[trigger] digit_chars(v)[i],
        ) by {
            if i < rest.len() {
                assert(digit_chars(v)[i] == rest[i]);
            }
        }
    }
}

/// No reason makes a dump's name hold anything but letters, digits, dots, dashes and
/// underscores, so that the file stays in its directory.
pub proof fn dump_names_are_safe(stamp: u64, reason: Seq<char>, serial: u32, pid: u32, format: Format)
    ensures
        forall|i: int|
            0 <= i < dump_name(stamp, reason, serial, pid, format).len() ==> is_safe(
                #[trigger] dump_name(stamp, reason, serial, pid, format)[i],
            ),
{
    reveal_strlit("-");
    reveal_strlit(".");
    reveal_strlit("json");
    reveal_strlit("pb");
    reveal_strlit("pprof");
    lemma_digits_are_safe(stamp as nat);
    lemma_digits_are_safe(serial as nat);
    lemma_digits_are_safe(pid as nat);
    let a = digit_chars(stamp as nat);
    let b = made_safe(reason);
    let c = serial_tag(serial);
    let d = if pid == 0 {
        Seq::empty()
    } else {
        "."@ + digit_chars(pid as nat)
    };
    let e = format_extension(format);
    lemma_safe_sum(a, "-"@);
    lemma_safe_sum(a + "-"@, b);
    lemma_safe_sum("-"@, digit_chars(serial as nat));
    lemma_safe_sum(a + "-"@ + b, c);
    lemma_safe_sum("."@, digit_chars(pid as nat));
    lemma_safe_sum(a + "-"@ + b + c, d);
    lemma_safe_sum(a + "-"@ + b + c + d, "."@);
    lemma_safe_sum(a + "-"@ + b + c + d + "."@, e);
}

spec fn all_safe(s: Seq<char>) -> bool {
    forall|i: int| 0 <= i < s.len() ==> is_safe(#[trigger] s[i])
}

proof fn lemma_safe_sum(a: Seq<char>, b: Seq<char>)
    ensures
        all_safe(a) && all_safe(b) ==> all_safe(a + b),
{
    if all_safe(a) && all_safe(b) {
        assert forall|i: int| 0 <= i < (a + b).len() implies is_safe(#[trigger] (a + b)[i]) by {
            if i < a.len() {
                assert(is_safe(a[i]));
            } else {
                assert(is_safe(b[i - a.len()]));
            }
        }
    }
}

/// A reason keeps its length in a file name, and its letters, digits, dots, dashes and
/// underscores where they are; a dash stands for each other character.
pub proof fn a_reason_keeps_its_safe_characters(reason: Seq<char>, i: int)
    requires
        0 <= i < reason.len(),
    ensures
        made_safe(reason).len() == reason.len(),
        ({
            let c = reason[i];
            let n = c as int;
            if 48 <= n <= 57 || 65 <= n <= 90 || 97 <= n <= 122 || n == 46 || n == 95 || n == 45 {
                made_safe(reason)[i] == c
            } else {
                made_safe(reason)[i] as int == 45
            }
        }),
{
}

/// Names that are made for one dump differ: those of two numbers, and those of two
/// processes.
pub proof fn dump_names_differ(
    stamp: u64,
    reason: Seq<char>,
    serial: u32,
    pid: u32,
    other_serial: u32,
    other_pid: u32,
    format: Format,
)
    ensures
        dump_name(stamp, reason, serial, pid, format) == dump_name(
            stamp,
            reason,
            other_serial,
            pid,
            format,
        ) ==> serial == other_serial,
        dump_name(stamp, reason, serial, pid, format) == dump_name(
            stamp,
            reason,
            serial,
            other_pid,
            format,
        ) ==> pid == other_pid,
{
    let head = digit_chars(stamp as nat) + "-"@ + made_safe(reason);
    let tail = "."@ + format_extension(format);
    lemma_middles_differ(
        head,
        serial_tag(serial),
        serial_tag(other_serial),
        pid_tag(pid) + tail,
    );
    lemma_middles_differ(head + serial_tag(serial), pid_tag(pid), pid_tag(other_pid), tail);
    lemma_name(stamp, reason, serial, pid, format);
    lemma_name(stamp, reason, other_serial, pid, format);
    lemma_name(stamp, reason, serial, other_pid, format);
    lemma_tags_differ("-"@, serial as nat, other_serial as nat);
    lemma_tags_differ("."@, pid as nat, other_pid as nat);
}

spec fn pid_tag(pid: u32) -> Seq<char> {
    if pid == 0 {
        Seq::empty()
    } else {
        "."@ + digit_chars(pid as nat)
    }
}

proof fn lemma_name(stamp: u64, reason: Seq<char>, serial: u32, pid: u32, format: Format)
    ensures
        dump_name(stamp, reason, serial, pid, format) == digit_chars(stamp as nat) + "-"@
            + made_safe(reason) + serial_tag(serial) + (pid_tag(pid) + ("."@ + format_extension(
            format,
        ))),
        dump_name(stamp, reason, serial, pid, format) == digit_chars(stamp as nat) + "-"@
            + made_safe(reason) + serial_tag(serial) + pid_tag(pid) + ("."@ + format_extension(
            format,
        )),
{
    let a = digit_chars(stamp as nat) + "-"@ + made_safe(reason) + serial_tag(serial);
    let b = pid_tag(pid);
    let c = format_extension(format);
    assert(a + b + "."@ + c =~= a + (b + ("."@ + c)));
    assert(a + b + "."@ + c =~= a + b + ("."@ + c));
}

proof fn lemma_middles_differ(head: Seq<char>, a: Seq<char>, b: Seq<char>, tail: Seq<char>)
    ensures
        head + a + tail == head + b + tail ==> a == b,
{
    let (x, y) = (head + a + tail, head + b + tail);
    if x == y {
        assert(x.len() == head.len() + a.len() + tail.len());
        assert(y.len() == head.len() + b.len() + tail.len());
        assert(a =~= x.subrange(head.len() as int, (head.len() + a.len()) as int));
        assert(b =~= y.subrange(head.len() as int, (head.len() + b.len()) as int));
    }
}

proof fn lemma_tags_differ(mark: Seq<char>, a: nat, b: nat)
    ensures
        mark + digit_chars(a) == mark + digit_chars(b) ==> a == b,
        (mark + digit_chars(a)).len() > 0,
        (mark + digit_chars(b)).len() > 0,
{
    if a != b {
        numbers_differ_in_their_digits(a, b);
    }
    if mark + digit_chars(a) == mark + digit_chars(b) {
        assert((mark + digit_chars(a)).skip(mark.len() as int) =~= digit_chars(a));
        assert((mark + digit_chars(b)).skip(mark.len() as int) =~= digit_chars(b));
    }
}

/// A block that has been entered is done when it is left, and hands out the window and the
/// reading that it was entered with. It cannot be entered again.
pub proof fn a_block_runs_once(
    entered: &mut SnapshotBlock,
    id: u64,
    start_ticks: u64,
    r: Result<(), Refusal>,
    left: &mut SnapshotBlock,
    opened: Option<(u64, u64)>,
)
    requires
        call_ensures(SnapshotBlock::enter, (entered, id, start_ticks), r),
        call_ensures(SnapshotBlock::exit, (left,), opened),
    ensures
        r is Ok <==> old(entered).stage_of() is Ready,
        r is Ok ==> final(entered).stage_of() == (Stage::Open { id, start_ticks }),
        r is Err ==> final(entered).stage_of() == old(entered).stage_of(),
        opened is Some <==> old(left).stage_of() is Open,
        opened matches Some((i, s)) ==> old(left).stage_of() == (Stage::Open {
            id: i,
            start_ticks: s,
        }) && final(left).stage_of() is Done,
        opened is None ==> final(left).stage_of() == old(left).stage_of(),
        *final(entered) == *old(left) && r is Ok ==> opened == Some((id, start_ticks)),
        final(entered).reason_of() == old(entered).reason_of(),
        final(left).reason_of() == old(left).reason_of(),
{
}

/// A dump is called after its block, and after the exception where there was one, with a
/// dash between them.
pub proof fn a_dump_is_called_after_its_block(b: SnapshotBlock, exception: &str, s: String, t: String)
    requires
        call_ensures(SnapshotBlock::dump_reason, (&b, Some(exception)), s),
        call_ensures(SnapshotBlock::dump_reason, (&b, None), t),
    ensures
        t@ == b.reason_of(),
        s@.len() == b.reason_of().len() + 1 + exception@.len(),
        s@.take(b.reason_of().len() as int) == b.reason_of(),
        s@[b.reason_of().len() as int] == '-',
        s@.skip(b.reason_of().len() as int + 1) == exception@,
{
    reveal_strlit("-");
    assert(s@.take(b.reason_of().len() as int) =~= b.reason_of());
    assert(s@.skip(b.reason_of().len() as int + 1) =~= exception@);
}

/// The names that a dump's file can have come one after the other, each another one.
pub proof fn names_come_one_after_the_other(
    s: &mut NameSearch,
    name: Option<String>,
    t: &mut NameSearch,
    later: Option<String>,
)
    requires
        call_ensures(NameSearch::next_name, (s,), name),
        call_ensures(NameSearch::next_name, (t,), later),
        *final(s) == *old(t),
    ensures
        name is Some <==> old(s).upcoming() < u32::MAX,
        name is Some ==> old(t).upcoming() == old(s).upcoming() + 1,
        name is Some && later is Some ==> name->0@ != later->0@,
{
    if name is Some && later is Some {
        let (a, b) = (old(s).upcoming(), old(t).upcoming());
        dump_names_differ(old(s).stamp, old(s).reason@, a, old(s).pid, b, old(s).pid, old(s).format);
        assert(later->0@ == old(t).name_at(b));
        assert(final(s).name_at(b) == old(s).name_at(b));
    }
}

/// The name of a file starts with the time and a dash, and ends with a dot and what the
/// files of the format end in.
pub proof fn a_name_says_when_and_in_which_format(
    stamp: u64,
    reason: Seq<char>,
    serial: u32,
    pid: u32,
    format: Format,
)
    ensures
        ({
            let name = dump_name(stamp, reason, serial, pid, format);
            let time = digit_chars(stamp as nat);
            let end = format_extension(format);
            &&& name.take(time.len() as int) == time
            &&& name[time.len() as int] == '-'
            &&& name.skip(time.len() as int + 1).take(reason.len() as int) == made_safe(reason)
            &&& name.skip(name.len() - end.len()) == end
            &&& name[name.len() - end.len() - 1] == '.'
            &&& serial == 1 && pid == 0 ==> name.len() == time.len() + reason.len() + end.len() + 2
        }),
{
    reveal_strlit("-");
    reveal_strlit(".");
    let name = dump_name(stamp, reason, serial, pid, format);
    let time = digit_chars(stamp as nat);
    let end = format_extension(format);
    assert(name.take(time.len() as int) =~= time);
    assert(name.skip(time.len() as int + 1).take(reason.len() as int) =~= made_safe(reason));
    assert(name.skip(name.len() - end.len()) =~= end);
}

} // verus!
