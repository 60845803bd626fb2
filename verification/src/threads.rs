//! The names of the traced threads, as they come to be known.

use crate::sink::{ThreadNames, ThreadTable};
use crate::text::starts_with;
use vstd::prelude::*;

verus! {

/// Whether a thread has been given a name that is worth writing. A thread that the
/// interpreter did not start goes by a made-up one until it is asked for again.
pub open spec fn is_proper_name(name: Seq<char>) -> bool {
    name.len() > 0 && !"Dummy-"@.is_prefix_of(name)
}

pub struct ThreadRegistry {
    table: ThreadTable,
}

impl View for ThreadRegistry {
    type V = Map<u32, Seq<char>>;

    closed spec fn view(&self) -> Map<u32, Seq<char>> {
        self.table@
    }
}

impl ThreadRegistry {
    pub fn new() -> (r: Self)
        ensures
            r@ == Map::<u32, Seq<char>>::empty(),
    {
        ThreadRegistry { table: ThreadTable::new() }
    }

    /// Whether a thread has a name here, so that it need not be asked for.
    pub fn knows(&self, tid: u32) -> (known: bool)
        ensures
            known == self@.contains_key(tid),
    {
        self.table.name(tid).is_some()
    }

    /// Names a thread that has no name here after what it is called now, if that is
    /// a proper name. Whether it has a name here after that.
    pub fn ensure(&mut self, tid: u32, name: &str) -> (known: bool)
        ensures
            known == (old(self)@.contains_key(tid) || is_proper_name(name@)),
            final(self)@ == (if !old(self)@.contains_key(tid) && is_proper_name(name@) {
                old(self)@.insert(tid, name@)
            } else {
                old(self)@
            }),
            known == final(self)@.contains_key(tid),
            !old(self)@.contains_key(tid) && known ==> final(self)@[tid] == name@,
    {
        if self.knows(tid) {
            return true;
        }
        if name.is_empty() || starts_with(name, "Dummy-") {
            return false;
        }
        self.table.insert(tid, name);
        true
    }
}

impl ThreadNames for ThreadRegistry {
    open spec fn named(&self) -> Map<u32, Seq<char>> {
        self@
    }

    fn name(&self, tid: u32) -> (name: Option<String>) {
        self.table.name(tid)
    }

    fn snapshot(&self) -> (names: Vec<(u32, String)>) {
        self.table.snapshot()
    }
}

/// Whether a name starts with the six characters of those that the interpreter makes up.
pub open spec fn is_made_up(name: Seq<char>) -> bool {
    &&& name.len() >= 6
    &&& name[0] == 'D'
    &&& name[1] == 'u'
    &&& name[2] == 'm'
    &&& name[3] == 'm'
    &&& name[4] == 'y'
    &&& name[5] == '-'
}

/// Every name is worth writing but the empty one and those that are made up, whatever
/// else it holds or starts with.
pub proof fn only_empty_and_made_up_names_are_refused(name: Seq<char>)
    ensures
        is_proper_name(name) <==> name.len() > 0 && !is_made_up(name),
{
    reveal_strlit("Dummy-");
    let made_up = "Dummy-"@;
    assert(made_up.len() == 6);
    if made_up.is_prefix_of(name) {
        assert(forall|i: int| 0 <= i < 6 ==> name[i] == made_up[i]);
        assert(name[0] == made_up[0] && name[1] == made_up[1] && name[2] == made_up[2] && name[3]
            == made_up[3] && name[4] == made_up[4] && name[5] == made_up[5]);
    }
    if is_made_up(name) {
        assert(made_up =~= name.subrange(0, 6));
    }
}

/// A thread that has no name is named with what it says, to the letter, unless that is
/// empty or made up. One that has a name keeps it, and no other thread is renamed.
pub proof fn a_thread_is_named_once(
    r: &mut ThreadRegistry,
    tid: u32,
    name: &str,
    known: bool,
    other: u32,
)
    requires
        call_ensures(ThreadRegistry::ensure, (r, tid, name), known),
    ensures
        known <==> old(r)@.contains_key(tid) || (name@.len() > 0 && !is_made_up(name@)),
        final(r)@.contains_key(tid) == known,
        old(r)@.contains_key(tid) ==> final(r)@[tid] == old(r)@[tid],
        !old(r)@.contains_key(tid) && known ==> final(r)@[tid] == name@,
        other != tid ==> final(r)@.contains_key(other) == old(r)@.contains_key(other),
        other != tid && old(r)@.contains_key(other) ==> final(r)@[other] == old(r)@[other],
{
    only_empty_and_made_up_names_are_refused(name@);
}

} // verus!
