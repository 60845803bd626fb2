//! Which code objects are gone.

use crate::clock::low64;
use vstd::prelude::*;

verus! {

/// What the interpreter says of a code object that is about to go.
pub const CODE_EVENT_DESTROY: i32 = 1;

/// Counts the times that a code object that had a number has gone. What a thread
/// has resolved at one count does not hold at another.
pub struct Generation {
    count: u64,
}

impl Generation {
    pub closed spec fn number(&self) -> u64 {
        self.count
    }

    pub fn new() -> (g: Self)
        ensures
            g.number() == 0,
    {
        Generation { count: 0 }
    }

    pub fn generation(&self) -> (n: u64)
        ensures
            n == self.number(),
    {
        self.count
    }

    /// What the interpreter says has happened to a code object, and which of the
    /// traced runs had a number for it. Counts it if it is gone and any had.
    pub fn on_code_event(&mut self, event: i32, forgotten: &[bool])
        ensures
            final(self).number() == (if event == CODE_EVENT_DESTROY && forgotten@.contains(true) {
                low64(old(self).number() + 1)
            } else {
                old(self).number()
            }),
    {
        if event != CODE_EVENT_DESTROY {
            return;
        }
        let n: usize = forgotten.len();
        let mut any: bool = false;
        for i in 0..n
            invariant
                n == forgotten@.len(),
                self.number() == old(self).number(),
                any == exists|j: int| 0 <= j < i && #[trigger] forgotten@[j],
        {
            if forgotten[i] {
                any = true;
            }
        }
        assert(any == forgotten@.contains(true)) by {
            if any {
                let j = choose|j: int| 0 <= j < n && #[trigger] forgotten@[j];
                assert(forgotten@[j] == true);
            }
        }
        if any {
            self.count = self.count.wrapping_add(1);
        }
    }

    /// Whether what happened to a code object means that it is gone.
    pub fn is_gone(event: i32) -> (gone: bool)
        ensures
            gone == (event == CODE_EVENT_DESTROY),
    {
        event == CODE_EVENT_DESTROY
    }
}

/// A code object that goes is counted once where any run had a number for it, and nothing
/// else is.
pub proof fn a_code_object_that_goes_is_counted(
    g: &mut Generation,
    event: i32,
    forgotten: &[bool],
    gone: bool,
)
    requires
        call_ensures(Generation::on_code_event, (g, event, forgotten), ()),
        call_ensures(Generation::is_gone, (event,), gone),
    ensures
        gone <==> event == 1,
        event == 1 && forgotten@.contains(true) ==> final(g).number() == (old(g).number() + 1)
            % 0x1_0000_0000_0000_0000,
        event != 1 || !forgotten@.contains(true) ==> final(g).number() == old(g).number(),
{
}

} // verus!
