//! What a tracer does about signals, and what comes of a run.

use crate::lists::retain;
use vstd::prelude::*;

verus! {

/// The handlers that were in place before the tracer's own, by signal number.
pub struct ReplacedHandlers<H> {
    handlers: Vec<(i32, H)>,
}

/// Whether a handler is for another signal.
pub open spec fn is_for_another<H>(number: i32) -> spec_fn((i32, H)) -> bool {
    |h: (i32, H)| h.0 != number
}

/// The first handler for a signal.
pub open spec fn first_for<H>(handlers: Seq<(i32, H)>, number: i32) -> Option<H>
    decreases handlers.len(),
{
    if handlers.len() == 0 {
        None
    } else {
        match first_for(handlers.drop_last(), number) {
            Some(h) => Some(h),
            None => if handlers.last().0 == number {
                Some(handlers.last().1)
            } else {
                None
            },
        }
    }
}

/// The handlers once one has been kept, in place of any for the same signal.
pub open spec fn kept<H>(handlers: Seq<(i32, H)>, number: i32, previous: H) -> Seq<(i32, H)> {
    handlers.filter(is_for_another(number)).push((number, previous))
}

impl<H> View for ReplacedHandlers<H> {
    type V = Seq<(i32, H)>;

    closed spec fn view(&self) -> Seq<(i32, H)> {
        self.handlers@
    }
}

impl<H> ReplacedHandlers<H> {
    pub fn new() -> (r: Self)
        ensures
            r@ == Seq::<(i32, H)>::empty(),
    {
        ReplacedHandlers { handlers: Vec::new() }
    }

    /// Keeps the handler of a signal, in place of one kept before.
    pub fn keep(&mut self, number: i32, previous: H)
        ensures
            final(self)@ == kept(old(self)@, number, previous),
    {
        let keep = |handler: &(i32, H)| -> (kept: bool)
            ensures
                kept == (handler.0 != number),
        { handler.0 != number };
        retain(&mut self.handlers, keep, Ghost(is_for_another(number)));
        self.handlers.push((number, previous));
    }

    /// The handler that was in place for a signal, where one was.
    pub fn find(&self, number: i32) -> (h: Option<&H>)
        ensures
            match h {
                Some(h) => first_for(self@, number) == Some(*h),
                None => first_for(self@, number) is None,
            },
    {
        let n: usize = self.handlers.len();
        assert(self@.take(0) =~= Seq::empty());
        for i in 0..n
            invariant
                n == self.handlers@.len(),
                first_for(self@.take(i as int), number) is None,
        {
            assert(self@.take(i + 1).drop_last() =~= self@.take(i as int));
            if self.handlers[i].0 == number {
                proof {
                    lemma_first_stays(self@, number, i + 1);
                }
                return Some(&self.handlers[i].1);
            }
        }
        assert(self@.take(n as int) =~= self@);
        None
    }

    /// All handlers that were in place, to be put back.
    pub fn take_all(&mut self) -> (all: Vec<(i32, H)>)
        ensures
            all@ == old(self)@,
            final(self)@ == Seq::<(i32, H)>::empty(),
    {
        let mut all: Vec<(i32, H)> = Vec::new();
        core::mem::swap(&mut self.handlers, &mut all);
        all
    }
}

/// What to do about a signal that would end the process.
#[derive(Copy, Clone, Debug, PartialEq, Eq, Structural)]
pub enum Reaction {
    /// Nothing: the tracer did not take the signal over.
    Nothing,
    /// Call the handler that was in place.
    Call,
    /// End the run, put back what was in place, and raise the signal again.
    EndAndRaise,
    /// Put back what was in place, and raise the signal again.
    Raise,
}

/// What was in place for a signal.
#[derive(Copy, Clone, Debug, PartialEq, Eq, Structural)]
pub enum Previous {
    Missing,
    Callable,
    Default,
    Other,
}

/// What to do about a signal, by what was in place for it. The run is ended only
/// where the signal is going to end the process.
pub fn react(previous: Previous) -> (r: Reaction)
    ensures
        r == (match previous {
            Previous::Missing => Reaction::Nothing,
            Previous::Callable => Reaction::Call,
            Previous::Default => Reaction::EndAndRaise,
            Previous::Other => Reaction::Raise,
        }),
{
    match previous {
        Previous::Missing => Reaction::Nothing,
        Previous::Callable => Reaction::Call,
        Previous::Default => Reaction::EndAndRaise,
        Previous::Other => Reaction::Raise,
    }
}

/// How the thread that wrote the trace ended.
pub enum Joined {
    Written,
    /// It could not write.
    Failed(String),
    Panicked,
}

/// What comes of a run.
pub enum Ended<E> {
    Fine,
    /// The interpreter's callbacks could not be taken out.
    StillMonitoring(E),
    /// The trace could not be written.
    NotWritten(String),
    /// The thread that wrote the trace panicked.
    Panicked,
}

/// What comes of a run: first what went wrong with the callbacks, and then what
/// went wrong with the trace.
pub fn outcome<E>(disabled: Result<(), E>, joined: Joined) -> (r: Ended<E>)
    ensures
        match disabled {
            Err(e) => r == Ended::StillMonitoring(e),
            Ok(()) => match joined {
                Joined::Written => r == Ended::<E>::Fine,
                Joined::Failed(message) => r == Ended::<E>::NotWritten(message),
                Joined::Panicked => r == Ended::<E>::Panicked,
            },
        },
{
    match disabled {
        Err(e) => Ended::StillMonitoring(e),
        Ok(()) => match joined {
            Joined::Written => Ended::Fine,
            Joined::Failed(message) => Ended::NotWritten(message),
            Joined::Panicked => Ended::Panicked,
        },
    }
}

proof fn lemma_first_stays<H>(handlers: Seq<(i32, H)>, number: i32, n: int)
    requires
        0 <= n <= handlers.len(),
        first_for(handlers.take(n), number) is Some,
    ensures
        first_for(handlers, number) == first_for(handlers.take(n), number),
    decreases handlers.len(),
{
    if n < handlers.len() {
        assert(handlers.drop_last().take(n) =~= handlers.take(n));
        lemma_first_stays(handlers.drop_last(), number, n);
    } else {
        assert(handlers.take(n) =~= handlers);
    }
}

proof fn lemma_first_of_others<H>(handlers: Seq<(i32, H)>, number: i32, other: i32)
    ensures
        first_for(handlers.filter(is_for_another(number)), other) == (if other == number {
            None
        } else {
            first_for(handlers, other)
        }),
    decreases handlers.len(),
{
    reveal(Seq::filter);
    if handlers.len() > 0 {
        let rest = handlers.drop_last();
        let filtered = rest.filter(is_for_another(number));
        lemma_first_of_others(rest, number, other);
        if handlers.last().0 != number {
            assert(filtered.push(handlers.last()).drop_last() =~= filtered);
        }
    }
}

/// A handler that has been kept is the one that is found, and keeping it does not
/// change what is found for any other signal.
pub proof fn the_handler_kept_last_is_found<H>(
    handlers: Seq<(i32, H)>,
    number: i32,
    previous: H,
    other: i32,
)
    ensures
        first_for(kept(handlers, number, previous), number) == Some(previous),
        other != number ==> first_for(kept(handlers, number, previous), other) == first_for(
            handlers,
            other,
        ),
{
    let others = handlers.filter(is_for_another(number));
    lemma_first_of_others(handlers, number, number);
    lemma_first_of_others(handlers, number, other);
    assert(others.push((number, previous)).drop_last() =~= others);
}

/// What is found for a signal was kept for it, and is the first that was; nothing is found
/// only where nothing was kept for it.
pub proof fn what_is_found_was_kept<H>(handlers: Seq<(i32, H)>, number: i32)
    ensures
        match first_for(handlers, number) {
            Some(h) => exists|i: int|
                0 <= i < handlers.len() && #[trigger] handlers[i] == (number, h) && forall|j: int|
                    0 <= j < i ==> (#[trigger] handlers[j]).0 != number,
            None => forall|i: int| 0 <= i < handlers.len() ==> (#[trigger] handlers[i]).0 != number,
        },
    decreases handlers.len(),
{
    if handlers.len() > 0 {
        let rest = handlers.drop_last();
        what_is_found_was_kept(rest, number);
        match first_for(rest, number) {
            Some(h) => {
                let i = choose|i: int|
                    0 <= i < rest.len() && #[trigger] rest[i] == (number, h) && forall|j: int|
                        0 <= j < i ==> (#[trigger] rest[j]).0 != number;
                assert(handlers[i] == (number, h));
                assert forall|j: int| 0 <= j < i implies (#[trigger] handlers[j]).0 != number by {
                    assert(rest[j].0 != number);
                }
            },
            None => {
                assert forall|j: int| 0 <= j < rest.len() implies (#[trigger] handlers[j]).0
                    != number by {
                    assert(rest[j].0 != number);
                }
                assert(handlers[handlers.len() - 1] == handlers.last());
            },
        }
    }
}

/// A signal ends the run exactly where it was going to end the process; it is raised again
/// exactly where it was taken over from something that cannot be called; what can be called
/// is called, and nothing else is.
pub proof fn a_signal_is_passed_on(previous: Previous, r: Reaction)
    requires
        call_ensures(react, (previous,), r),
    ensures
        r is EndAndRaise <==> previous is Default,
        r is EndAndRaise || r is Raise <==> previous is Default || previous is Other,
        r is Call <==> previous is Callable,
        r is Nothing <==> previous is Missing,
{
}

/// A run is fine exactly where nothing went wrong. What went wrong with the callbacks comes
/// before what went wrong with the trace, and each is told as it was.
pub proof fn a_run_is_fine_where_nothing_went_wrong<E>(
    disabled: Result<(), E>,
    joined: Joined,
    r: Ended<E>,
)
    requires
        call_ensures(outcome::<E>, (disabled, joined), r),
    ensures
        r is Fine <==> disabled is Ok && joined is Written,
        r is StillMonitoring <==> disabled is Err,
        r matches Ended::StillMonitoring(e) ==> disabled == Err::<(), E>(e),
        r is NotWritten <==> disabled is Ok && joined is Failed,
        r matches Ended::NotWritten(m) ==> joined == Joined::Failed(m),
        r is Panicked <==> disabled is Ok && joined is Panicked,
{
}

} // verus!
