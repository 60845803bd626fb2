//! The numbers that code objects go by.

use crate::event::CODE_ID_MAX;
use crate::idmap::IdMap;
use crate::sink::{code_at, code_views, CodeInfo, CodeLookup, CodeView};
use vstd::prelude::*;

verus! {

/// How many code objects can be told apart at a time.
pub open spec fn capacity_of(setting: Option<u32>) -> u32 {
    match setting {
        None => (CODE_ID_MAX + 1) as u32,
        Some(v) => if v < 1 {
            1
        } else if v > CODE_ID_MAX + 1 {
            (CODE_ID_MAX + 1) as u32
        } else {
            v
        },
    }
}

/// What is known of a code object that could not say all there is to know.
pub open spec fn told(
    qualname: Option<Seq<char>>,
    filename: Option<Seq<char>>,
    firstlineno: Option<u32>,
) -> CodeView {
    CodeView {
        qualname: match qualname {
            Some(s) => s,
            None => "<unknown>"@,
        },
        filename: match filename {
            Some(s) => s,
            None => Seq::empty(),
        },
        firstlineno: match firstlineno {
            Some(n) => n,
            None => 0,
        },
    }
}

/// What is known of a code object that could not say all there is to know.
pub fn describe(
    qualname: Option<String>,
    filename: Option<String>,
    firstlineno: Option<u32>,
) -> (info: CodeInfo)
    ensures
        info@ == told(
            match qualname {
                Some(s) => Some(s@),
                None => None,
            },
            match filename {
                Some(s) => Some(s@),
                None => None,
            },
            firstlineno,
        ),
{
    CodeInfo {
        qualname: match qualname {
            Some(s) => s,
            None => "<unknown>".to_owned(),
        },
        filename: match filename {
            Some(s) => s,
            None => String::new(),
        },
        firstlineno: match firstlineno {
            Some(n) => n,
            None => 0,
        },
    }
}

/// Gives code objects numbers, and takes back the numbers of those that are gone.
pub struct Interner {
    map: IdMap,
    info: Vec<CodeInfo>,
    free: Vec<(u32, u64)>,
    capacity: u32,
}

/// What an interner holds.
pub struct InternerView {
    /// The numbers of the code objects that are there, by their keys.
    pub ids: Map<u64, u64>,
    /// What is known of the code object that has, or last had, each number.
    pub info: Seq<CodeView>,
    /// The numbers that were taken back, and when.
    pub free: Seq<(u32, u64)>,
    pub capacity: u32,
}

impl View for Interner {
    type V = InternerView;

    closed spec fn view(&self) -> InternerView {
        InternerView {
            ids: self.map@,
            info: code_views(self.info@),
            free: self.free@,
            capacity: self.capacity,
        }
    }
}

/// Whether a number has been taken back.
pub open spec fn is_free(free: Seq<(u32, u64)>, id: int) -> bool {
    exists|i: int| 0 <= i < free.len() && (#[trigger] free[i]).0 == id
}

/// The place of the first number that was taken back before a reading, from `i` on.
pub open spec fn recyclable(free: Seq<(u32, u64)>, floor: u64, i: int) -> Option<int>
    decreases free.len() - i,
{
    if i >= free.len() {
        None
    } else if free[i].1 < floor {
        Some(i)
    } else {
        recyclable(free, floor, i + 1)
    }
}

impl InternerView {
    /// Whether each number is that of one code object, or has been taken back once.
    pub open spec fn consistent(self) -> bool {
        &&& 1 <= self.capacity <= CODE_ID_MAX + 1
        &&& self.info.len() <= self.capacity
        &&& forall|key: u64| #[trigger]
            self.ids.contains_key(key) ==> self.ids[key] < self.info.len() && !is_free(
                self.free,
                self.ids[key] as int,
            )
        &&& forall|a: u64, b: u64| #[trigger]
            self.ids.contains_key(a) && #[trigger] self.ids.contains_key(b) && a != b
                ==> self.ids[a] != self.ids[b]
        &&& forall|i: int| 0 <= i < self.free.len() ==> (#[trigger] self.free[i]).0 < self.info.len()
        &&& forall|i: int, j: int|
            0 <= i < j < self.free.len() ==> (#[trigger] self.free[i]).0 != (
            #[trigger] self.free[j]).0
    }

    /// After a new code object: it gets a number that none has had yet while there
    /// is one, then one that was taken back before `floor`, and none otherwise.
    pub open spec fn with_code(self, key: u64, info: CodeView, floor: u64) -> (
        Option<u64>,
        InternerView,
    ) {
        if self.ids.contains_key(key) {
            (Some(self.ids[key]), self)
        } else if self.info.len() < self.capacity {
            let id = self.info.len() as u64;
            (
                Some(id),
                InternerView {
                    ids: self.ids.insert(key, id),
                    info: self.info.push(info),
                    ..self
                },
            )
        } else {
            match recyclable(self.free, floor, 0) {
                None => (None, self),
                Some(i) => {
                    let id = self.free[i].0;
                    (
                        Some(id as u64),
                        InternerView {
                            ids: self.ids.insert(key, id as u64),
                            info: self.info.update(id as int, info),
                            free: self.free.update(i, self.free.last()).drop_last(),
                            ..self
                        },
                    )
                },
            }
        }
    }
}

impl Interner {
    /// An interner for as many code objects as the setting says, within bounds.
    pub fn new(setting: Option<u32>) -> (r: Self)
        ensures
            r@.consistent(),
            r@ == (InternerView {
                ids: Map::empty(),
                info: Seq::empty(),
                free: Seq::empty(),
                capacity: capacity_of(setting),
            }),
    {
        let capacity: u32 = match setting {
            None => CODE_ID_MAX + 1,
            Some(v) => if v < 1 {
                1
            } else if v > CODE_ID_MAX + 1 {
                CODE_ID_MAX + 1
            } else {
                v
            },
        };
        let r = Interner { map: IdMap::new(), info: Vec::new(), free: Vec::new(), capacity };
        assert(r@.info =~= Seq::empty());
        r
    }

    pub fn lookup(&self, key: usize) -> (id: Option<u32>)
        requires
            self@.consistent(),
        ensures
            match id {
                Some(id) => self@.ids.contains_key(key as u64) && self@.ids[key as u64] == id,
                None => !self@.ids.contains_key(key as u64),
            },
    {
        match self.map.get(key as u64) {
            Some(id) => Some(id as u32),
            None => None,
        }
    }

    /// Takes back the number of a code object that is gone. Whether it had one.
    pub fn forget(&mut self, key: usize, freed_at_ticks: u64) -> (known: bool)
        requires
            old(self)@.consistent(),
        ensures
            final(self)@.consistent(),
            known == old(self)@.ids.contains_key(key as u64),
            final(self)@ == (if known {
                InternerView {
                    ids: old(self)@.ids.remove(key as u64),
                    free: old(self)@.free.push(
                        (old(self)@.ids[key as u64] as u32, freed_at_ticks),
                    ),
                    ..old(self)@
                }
            } else {
                old(self)@
            }),
    {
        let ghost before = self@;
        match self.map.remove(key as u64) {
            Some(id) => {
                self.free.push((id as u32, freed_at_ticks));
                proof {
                    let after = self@;
                    assert forall|k: u64| #[trigger] after.ids.contains_key(k) implies after.ids[k]
                        < after.info.len() && !is_free(after.free, after.ids[k] as int) by {
                        assert(before.ids.contains_key(k));
                        assert(before.ids.contains_key(key as u64));
                        if is_free(after.free, after.ids[k] as int) {
                            let i = choose|i: int|
                                0 <= i < after.free.len() && (#[trigger] after.free[i]).0
                                    == after.ids[k];
                            if i < before.free.len() {
                                assert(before.free[i].0 == before.ids[k]);
                            }
                        }
                    }
                    assert forall|i: int, j: int| 0 <= i < j < after.free.len() implies (
                    #[trigger] after.free[i]).0 != (#[trigger] after.free[j]).0 by {
                        if j == before.free.len() {
                            assert(before.free[i].0 == after.free[i].0);
                        }
                    }
                }
                true
            },
            None => {
                assert(before.ids.remove(key as u64) =~= before.ids);
                false
            },
        }
    }

    /// The number of a code object, which gets one where it has none and there is
    /// one to be had.
    pub fn insert(&mut self, key: usize, info: CodeInfo, recycle_floor: u64) -> (id: Option<u32>)
        requires
            old(self)@.consistent(),
        ensures
            final(self)@.consistent(),
            final(self)@ == old(self)@.with_code(key as u64, info@, recycle_floor).1,
            match id {
                Some(id) => old(self)@.with_code(key as u64, info@, recycle_floor).0 == Some(
                    id as u64,
                ),
                None => old(self)@.with_code(key as u64, info@, recycle_floor).0 is None,
            },
    {
        let ghost before = self@;
        if let Some(id) = self.lookup(key) {
            return Some(id);
        }
        if self.info.len() < self.capacity as usize {
            let id: u32 = self.info.len() as u32;
            self.info.push(info);
            self.map.insert(key as u64, id as u64);
            proof {
                let after = self@;
                assert(after.info =~= before.info.push(info@));
                assert forall|k: u64| #[trigger] after.ids.contains_key(k) implies after.ids[k]
                    < after.info.len() && !is_free(after.free, after.ids[k] as int) by {
                    if k != key as u64 {
                        assert(before.ids.contains_key(k));
                    }
                }
                assert forall|a: u64, b: u64| #[trigger]
                    after.ids.contains_key(a) && #[trigger] after.ids.contains_key(b) && a
                        != b implies after.ids[a] != after.ids[b] by {
                    if a != key as u64 {
                        assert(before.ids.contains_key(a));
                    }
                    if b != key as u64 {
                        assert(before.ids.contains_key(b));
                    }
                }
            }
            return Some(id);
        }
        let n: usize = self.free.len();
        let mut slot: usize = 0;
        while slot < n && self.free[slot].1 >= recycle_floor
            invariant
                slot <= n == self.free@.len(),
                self@ == before,
                recyclable(before.free, recycle_floor, 0) == recyclable(
                    before.free,
                    recycle_floor,
                    slot as int,
                ),
            decreases n - slot,
        {
            slot = slot + 1;
        }
        if slot == n {
            return None;
        }
        let (id, _) = self.free.swap_remove(slot);
        assert(before.free[slot as int].0 < before.info.len());
        self.info.set(id as usize, info);
        self.map.insert(key as u64, id as u64);
        proof {
            let after = self@;
            assert(after.info =~= before.info.update(id as int, info@));
            let last = before.free.len() - 1;
            assert forall|i: int| 0 <= i < after.free.len() implies (#[trigger] after.free[i]) == (
            if i == slot {
                before.free[last]
            } else {
                before.free[i]
            }) && after.free[i].0 != id by {
                if i == slot {
                    assert(before.free[slot as int].0 != before.free[last].0);
                } else if i < slot {
                    assert(before.free[i].0 != before.free[slot as int].0);
                } else {
                    assert(before.free[slot as int].0 != before.free[i].0);
                }
            }
            assert forall|k: u64| #[trigger] after.ids.contains_key(k) implies after.ids[k]
                < after.info.len() && !is_free(after.free, after.ids[k] as int) by {
                if is_free(after.free, after.ids[k] as int) {
                    let i = choose|i: int|
                        0 <= i < after.free.len() && (#[trigger] after.free[i]).0 == after.ids[k];
                    if k != key as u64 {
                        assert(before.ids.contains_key(k));
                        if i == slot {
                            assert(before.free[last].0 == before.ids[k]);
                        } else {
                            assert(before.free[i].0 == before.ids[k]);
                        }
                    }
                }
                if k != key as u64 {
                    assert(before.ids.contains_key(k));
                }
            }
            assert forall|a: u64, b: u64| #[trigger]
                after.ids.contains_key(a) && #[trigger] after.ids.contains_key(b) && a
                    != b implies after.ids[a] != after.ids[b] by {
                assert(before.free[slot as int].0 == id);
                if a != key as u64 {
                    assert(before.ids.contains_key(a));
                }
                if b != key as u64 {
                    assert(before.ids.contains_key(b));
                }
            }
            assert forall|i: int, j: int| 0 <= i < j < after.free.len() implies (
            #[trigger] after.free[i]).0 != (#[trigger] after.free[j]).0 by {
                let a = if i == slot {
                    last
                } else {
                    i
                };
                let b = if j == slot {
                    last
                } else {
                    j
                };
                assert(after.free[i] == before.free[a] && after.free[j] == before.free[b]);
                if a < b {
                    assert(before.free[a].0 != before.free[b].0);
                } else {
                    assert(before.free[b].0 != before.free[a].0);
                }
            }
        }
        Some(id)
    }
}

impl CodeLookup for Interner {
    open spec fn resolved(&self, id: u32) -> Option<CodeView> {
        code_at(self@.info, id)
    }

    fn code(&self, id: u32) -> (info: Option<CodeInfo>) {
        if (id as usize) < self.info.len() {
            Some(self.info[id as usize].clone())
        } else {
            None
        }
    }
}

pub proof fn lemma_recyclable(free: Seq<(u32, u64)>, floor: u64, i: int)
    requires
        0 <= i,
    ensures
        match recyclable(free, floor, i) {
            Some(at) => i <= at < free.len() && free[at].1 < floor,
            None => forall|j: int| i <= j < free.len() ==> (#[trigger] free[j]).1 >= floor,
        },
    decreases free.len() - i,
{
    if i < free.len() && free[i].1 >= floor {
        lemma_recyclable(free, floor, i + 1);
    }
}

/// A code object that gets a number has it to itself: no other that is there has
/// the same one. And what is known of it is what was said when it got the number.
pub proof fn a_number_is_of_one_code_object(
    v: InternerView,
    key: u64,
    info: CodeView,
    floor: u64,
    other: u64,
)
    requires
        v.consistent(),
        !v.ids.contains_key(key),
        v.ids.contains_key(other),
    ensures
        ({
            let (id, after) = v.with_code(key, info, floor);
            id matches Some(id) ==> {
                &&& id != v.ids[other]
                &&& after.info[id as int] == info
                &&& after.info[v.ids[other] as int] == v.info[v.ids[other] as int]
            }
        }),
{
    lemma_recyclable(v.free, floor, 0);
    if let Some(i) = recyclable(v.free, floor, 0) {
        assert(v.free[i].0 == v.free[i].0);
        assert(is_free(v.free, v.free[i].0 as int));
    }
}

/// A number that is given out again was taken back before the reading from which
/// on events are still held, so that none of them can be taken for the new code
/// object's. While there are numbers that none has had, none is given out again.
pub proof fn a_number_is_given_out_again_only_when_it_is_safe(
    v: InternerView,
    key: u64,
    info: CodeView,
    floor: u64,
)
    requires
        v.consistent(),
        !v.ids.contains_key(key),
    ensures
        ({
            let (id, after) = v.with_code(key, info, floor);
            &&& v.info.len() < v.capacity ==> id == Some(v.info.len() as u64)
            &&& id matches Some(id) ==> id < v.info.len() ==> exists|i: int|
                0 <= i < v.free.len() && (#[trigger] v.free[i]).0 == id && v.free[i].1 < floor
            &&& id is None ==> v.info.len() == v.capacity && forall|i: int|
                0 <= i < v.free.len() ==> (#[trigger] v.free[i]).1 >= floor
        }),
{
    lemma_recyclable(v.free, floor, 0);
    if v.info.len() >= v.capacity {
        if let Some(i) = recyclable(v.free, floor, 0) {
            assert(v.free[i].0 < v.info.len());
        }
    }
}

/// A code object that has a number keeps it, whatever is said of it again, and nothing
/// changes.
pub proof fn a_code_object_keeps_its_number(
    v: InternerView,
    key: u64,
    info: CodeView,
    floor: u64,
)
    requires
        v.ids.contains_key(key),
    ensures
        v.with_code(key, info, floor) == (Some(v.ids[key]), v),
{
}

/// A code object that gets a number is found under it, and the number is then not to be
/// had. No other code object's number changes, and one that gets none changes nothing.
pub proof fn a_number_that_is_given_out_is_found(
    v: InternerView,
    key: u64,
    info: CodeView,
    floor: u64,
    other: u64,
)
    requires
        v.consistent(),
    ensures
        ({
            let (id, after) = v.with_code(key, info, floor);
            &&& id is None ==> after == v
            &&& id matches Some(id) ==> after.ids.contains_key(key) && after.ids[key] == id
                && !is_free(after.free, id as int)
            &&& other != key ==> after.ids.contains_key(other) == v.ids.contains_key(other)
            &&& other != key && v.ids.contains_key(other) ==> after.ids[other] == v.ids[other]
            &&& after.capacity == v.capacity
            &&& after.info.len() <= 0x100_0000
            &&& after.info.len() >= v.info.len()
            &&& v.info.len() - v.free.len() + (if v.ids.contains_key(key) || id is None {
                0int
            } else {
                1int
            }) == after.info.len() - after.free.len()
        }),
{
    let (id, after) = v.with_code(key, info, floor);
    lemma_recyclable(v.free, floor, 0);
    if v.ids.contains_key(key) {
        assert(!is_free(v.free, v.ids[key] as int));
    } else if v.info.len() < v.capacity {
        if is_free(after.free, v.info.len() as int) {
            let i = choose|i: int|
                0 <= i < v.free.len() && (#[trigger] v.free[i]).0 == v.info.len() as int;
            assert(v.free[i].0 < v.info.len());
        }
    } else {
        if let Some(at) = recyclable(v.free, floor, 0) {
            let id = v.free[at].0;
            if is_free(after.free, id as int) {
                let i = choose|i: int|
                    0 <= i < after.free.len() && (#[trigger] after.free[i]).0 == id as int;
                let j = if i == at {
                    v.free.len() - 1
                } else {
                    i
                };
                assert(after.free[i] == v.free[j]);
                if at < j {
                    assert(v.free[at].0 != v.free[j].0);
                } else if j < at {
                    assert(v.free[j].0 != v.free[at].0);
                }
            }
        }
    }
}

/// An interner tells as many code objects apart as it is set to, but at least one, and no
/// more than there are numbers of 24 bits; without a setting, as many as those.
pub proof fn a_setting_is_held_within_bounds(setting: u32)
    ensures
        capacity_of(None) == 0x100_0000,
        setting == 0 ==> capacity_of(Some(setting)) == 1,
        1 <= setting <= 0x100_0000 ==> capacity_of(Some(setting)) == setting,
        setting > 0x100_0000 ==> capacity_of(Some(setting)) == 0x100_0000,
{
}

/// What a code object says of itself is kept as it is, each thing whether it says the
/// others or not.
pub proof fn what_a_code_object_says_is_kept(
    qualname: Option<Seq<char>>,
    filename: Option<Seq<char>>,
    firstlineno: Option<u32>,
)
    ensures
        qualname matches Some(q) ==> told(qualname, filename, firstlineno).qualname == q,
        filename matches Some(f) ==> told(qualname, filename, firstlineno).filename == f,
        firstlineno matches Some(n) ==> told(qualname, filename, firstlineno).firstlineno == n,
        qualname is None ==> told(qualname, filename, firstlineno).qualname == "<unknown>"@,
        filename is None ==> told(qualname, filename, firstlineno).filename.len() == 0,
        firstlineno is None ==> told(qualname, filename, firstlineno).firstlineno == 0,
{
}

/// A code object that is given a number is found under it; one that has a number keeps it.
/// What is known of it is what was said when it got the number.
pub proof fn a_code_object_that_is_added_is_found(
    r: &mut Interner,
    key: usize,
    info: CodeInfo,
    recycle_floor: u64,
    id: Option<u32>,
    other: u64,
)
    requires
        old(r)@.consistent(),
        call_ensures(Interner::insert, (r, key, info, recycle_floor), id),
    ensures
        old(r)@.ids.contains_key(key as u64) ==> final(r)@ == old(r)@ && id is Some && id->0
            == old(r)@.ids[key as u64],
        id is None ==> final(r)@ == old(r)@ && old(r)@.info.len() == old(r)@.capacity,
        id matches Some(n) ==> final(r)@.ids.contains_key(key as u64) && final(r)@.ids[key as u64]
            == n && n < 0x100_0000,
        !old(r)@.ids.contains_key(key as u64) && id is Some ==> final(r)@.info[id->0 as int]
            == info@,
        other != key ==> final(r)@.ids.contains_key(other) == old(r)@.ids.contains_key(other),
        other != key && old(r)@.ids.contains_key(other) ==> final(r)@.ids[other]
            == old(r)@.ids[other] && final(r)@.info[final(r)@.ids[other] as int]
            == old(r)@.info[old(r)@.ids[other] as int],
{
    let v = old(r)@;
    a_number_that_is_given_out_is_found(v, key as u64, info@, recycle_floor, other);
    lemma_recyclable(v.free, recycle_floor, 0);
    if v.ids.contains_key(other) && !v.ids.contains_key(key as u64) {
        a_number_is_of_one_code_object(v, key as u64, info@, recycle_floor, other);
    }
}

/// A code object that is gone has no number, and its number can be had again once all
/// events from before have gone; what is known of it stays, and so do all others.
pub proof fn a_code_object_that_is_gone_is_forgotten(
    r: &mut Interner,
    key: usize,
    freed_at_ticks: u64,
    known: bool,
    other: u64,
)
    requires
        old(r)@.consistent(),
        call_ensures(Interner::forget, (r, key, freed_at_ticks), known),
    ensures
        known == old(r)@.ids.contains_key(key as u64),
        !final(r)@.ids.contains_key(key as u64),
        final(r)@.info == old(r)@.info,
        final(r)@.capacity == old(r)@.capacity,
        !known ==> final(r)@ == old(r)@,
        known ==> final(r)@.free.len() == old(r)@.free.len() + 1 && final(r)@.free.last().0
            == old(r)@.ids[key as u64] && final(r)@.free.last().1 == freed_at_ticks
            && final(r)@.free.drop_last() == old(r)@.free,
        other != key ==> final(r)@.ids.contains_key(other) == old(r)@.ids.contains_key(other),
        other != key && old(r)@.ids.contains_key(other) ==> final(r)@.ids[other]
            == old(r)@.ids[other],
{
    if known {
        assert(old(r)@.ids[key as u64] < old(r)@.info.len());
        assert(final(r)@.free.drop_last() =~= old(r)@.free);
    }
}

/// What is written of a code object is what it says of itself, letter by letter.
pub proof fn a_description_is_what_was_said(
    qualname: Option<String>,
    filename: Option<String>,
    firstlineno: Option<u32>,
    info: CodeInfo,
)
    requires
        call_ensures(describe, (qualname, filename, firstlineno), info),
    ensures
        qualname matches Some(q) ==> info.qualname@ == q@,
        qualname is None ==> info.qualname@ == "<unknown>"@,
        filename matches Some(f) ==> info.filename@ == f@,
        filename is None ==> info.filename@.len() == 0,
        firstlineno matches Some(n) ==> info.firstlineno == n,
        firstlineno is None ==> info.firstlineno == 0,
{
}

/// An interner starts with nothing, and with room for as many as it is set to.
pub proof fn an_interner_starts_with_nothing(setting: Option<u32>, r: Interner)
    requires
        call_ensures(Interner::new, (setting,), r),
    ensures
        setting is None ==> r@.capacity == 0x100_0000,
        setting matches Some(n) ==> (1 <= n <= 0x100_0000 ==> r@.capacity == n),
        setting matches Some(n) ==> (n == 0 ==> r@.capacity == 1),
        setting matches Some(n) ==> (n > 0x100_0000 ==> r@.capacity == 0x100_0000),
        r@.info.len() == 0,
        r@.free.len() == 0,
        forall|key: u64| !r@.ids.contains_key(key),
{
}

} // verus!
