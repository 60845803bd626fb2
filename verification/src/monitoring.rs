//! What a callback of the interpreter does about the code object it is told of.

use crate::codecache::{
    a_stored_key_reads_back, place_of, stores, storing_touches_one_place, CodeCache, SLOTS,
};
use crate::intern::{a_number_that_is_given_out_is_found, lemma_recyclable, Interner};
use crate::sink::CodeInfo;
use crate::threads::{
    is_made_up, is_proper_name, only_empty_and_made_up_names_are_refused, ThreadRegistry,
};
use crate::tls::{Hot, NOT_CACHED};
use vstd::prelude::*;

verus! {

/// How often a thread without a proper name is asked for it again.
pub const NAME_RETRIES: u32 = 64;

/// The number of the code object that the thread recorded last, where it is the
/// same one and nothing has changed since.
pub open spec fn cached(hot: Hot, key: usize, run: u64, generation: u64) -> Option<u32> {
    if hot.last_code_key == key && hot.queue_id == run && hot.code_gen == generation {
        Some(hot.last_code_id)
    } else {
        None
    }
}

/// Whether what a thread has resolved is of another run, or of code objects some of
/// which are gone.
pub open spec fn is_outdated(hot: Hot, run: u64, generation: u64) -> bool {
    hot.queue_id != run || hot.code_gen != generation
}

/// A thread's state once what is outdated has been forgotten.
pub open spec fn refreshed(hot: Hot, run: u64, generation: u64, os_tid: u32) -> Hot {
    let new_run = hot.queue_id != run;
    Hot {
        last_code_key: if new_run {
            NOT_CACHED
        } else {
            hot.last_code_key
        },
        ensured: if new_run {
            false
        } else {
            hot.ensured
        },
        name_retries: if new_run {
            NAME_RETRIES
        } else {
            hot.name_retries
        },
        code_gen: generation,
        tid: if hot.tid == u32::MAX {
            os_tid
        } else {
            hot.tid
        },
        ..hot
    }
}

/// Whether a thread is to be asked for its name.
pub open spec fn asks_for_name(hot: Hot) -> bool {
    !hot.ensured && hot.name_retries > 0
}

/// A thread's state once it has been asked for its name, if it is to be.
pub open spec fn asked(hot: Hot, named: Map<u32, Seq<char>>, name: Seq<char>) -> Hot {
    if asks_for_name(hot) {
        Hot {
            name_retries: (hot.name_retries - 1) as u32,
            ensured: named.contains_key(hot.tid) || is_proper_name(name),
            ..hot
        }
    } else {
        hot
    }
}

/// The names of the threads once a thread has been asked for its own, if it is to be.
pub open spec fn names_after(
    hot: Hot,
    named: Map<u32, Seq<char>>,
    name: Seq<char>,
) -> Map<u32, Seq<char>> {
    if asks_for_name(hot) && !named.contains_key(hot.tid) && is_proper_name(name) {
        named.insert(hot.tid, name)
    } else {
        named
    }
}

/// A thread's state once a code object has been resolved. It is resolved again next
/// time while the thread's name is still to be asked for.
pub open spec fn settled(hot: Hot, key: usize, id: u32) -> Hot {
    Hot {
        last_code_id: id,
        last_code_key: if hot.ensured || hot.name_retries == 0 {
            key
        } else {
            NOT_CACHED
        },
        ..hot
    }
}

/// Whether each number in a thread's cache is the one that the code object goes by.
pub open spec fn cache_is_right(codes: CodeCache, ids: Map<u64, u64>) -> bool {
    forall|key: usize|
        (#[trigger] codes.lookup(key)) is Some ==> ids.contains_key(key as u64) && ids[key as u64]
            == codes.lookup(key)->0
}

/// Whether all that a thread remembers of code objects is so: each number is the one
/// that the code object goes by.
pub open spec fn remembers_right(hot: Hot, codes: CodeCache, ids: Map<u64, u64>) -> bool {
    &&& hot.last_code_key != NOT_CACHED ==> ids.contains_key(hot.last_code_key as u64)
        && ids[hot.last_code_key as u64] == hot.last_code_id
    &&& cache_is_right(codes, ids)
}

/// The number of the code object that the thread recorded last, where it is the
/// same one and nothing has changed since.
pub fn cached_code(hot: &Hot, key: usize, run: u64, generation: u64) -> (id: Option<u32>)
    ensures
        id == cached(*hot, key, run, generation),
{
    if hot.last_code_key == key && hot.queue_id == run && hot.code_gen == generation {
        Some(hot.last_code_id)
    } else {
        None
    }
}

/// Whether the interpreter has to be asked what the thread is called, before
/// `resolve_cold`.
pub fn wants_name(hot: &Hot, threads: &ThreadRegistry, run: u64, os_tid: u32) -> (wanted: bool)
    ensures
        wanted == (asks_for_name(refreshed(*hot, run, 0, os_tid)) && !threads@.contains_key(
            refreshed(*hot, run, 0, os_tid).tid,
        )),
{
    let tid: u32 = if hot.tid == u32::MAX {
        os_tid
    } else {
        hot.tid
    };
    let asks: bool = hot.queue_id != run || (!hot.ensured && hot.name_retries > 0);
    asks && !threads.knows(tid)
}

/// Finds the number of a code object that the thread did not record last. `None`
/// where it has none yet: it is to be described and given to `resolve_new`.
pub fn resolve_cold(
    hot: &mut Hot,
    codes: &mut CodeCache,
    interner: &Interner,
    threads: &mut ThreadRegistry,
    key: usize,
    run: u64,
    generation: u64,
    os_tid: u32,
    name: &str,
) -> (id: Option<u32>)
    requires
        interner@.consistent(),
    ensures
        ({
            let fresh = refreshed(*old(hot), run, generation, os_tid);
            let ready = asked(fresh, old(threads)@, name@);
            let held = if is_outdated(*old(hot), run, generation) {
                None
            } else {
                old(codes).lookup(key)
            };
            let found = match held {
                Some(id) => Some(id),
                None => if interner@.ids.contains_key(key as u64) {
                    Some(interner@.ids[key as u64] as u32)
                } else {
                    None
                },
            };
            &&& id == found
            &&& final(threads)@ == names_after(fresh, old(threads)@, name@)
            &&& *final(hot) == (match found {
                Some(id) => settled(ready, key, id),
                None => ready,
            })
            &&& forall|place: int|
                0 <= place < SLOTS ==> #[trigger] final(codes).held(place) == (if key != 0 && place
                    == place_of(key) && held is None && found is Some {
                    (key, found->0)
                } else if is_outdated(*old(hot), run, generation) {
                    (0usize, 0u32)
                } else {
                    old(codes).held(place)
                })
            &&& key != 0 ==> final(codes).lookup(key) == found
            &&& forall|other: usize| #[trigger]
                final(codes).lookup(other) is Some && other != key ==> !is_outdated(
                    *old(hot),
                    run,
                    generation,
                ) && final(codes).lookup(other) == old(codes).lookup(other)
        }),
        is_outdated(*old(hot), run, generation) || remembers_right(
            *old(hot),
            *old(codes),
            interner@.ids,
        ) ==> {
            &&& cache_is_right(*final(codes), interner@.ids)
            &&& match id {
                Some(id) => {
                    &&& interner@.ids.contains_key(key as u64)
                    &&& interner@.ids[key as u64] == id
                    &&& remembers_right(*final(hot), *final(codes), interner@.ids)
                },
                None => {
                    &&& !interner@.ids.contains_key(key as u64)
                    &&& old(hot).queue_id != run || old(hot).code_gen == generation
                        ==> remembers_right(*final(hot), *final(codes), interner@.ids)
                },
            }
        },
{
    if hot.queue_id != run {
        *codes = CodeCache::empty();
        hot.last_code_key = NOT_CACHED;
        hot.ensured = false;
        hot.name_retries = NAME_RETRIES;
    }
    if hot.code_gen != generation {
        *codes = CodeCache::empty();
        hot.code_gen = generation;
    }
    if hot.tid == u32::MAX {
        hot.tid = os_tid;
    }
    if !hot.ensured && hot.name_retries > 0 {
        hot.name_retries = hot.name_retries - 1;
        hot.ensured = threads.ensure(hot.tid, name);
    }
    let ghost cache = *codes;
    let id: u32 = match codes.get(key) {
        Some(id) => id,
        None => match interner.lookup(key) {
            Some(id) => {
                codes.put(key, id);
                proof {
                    lemma_put(cache, *codes, key, id);
                }
                id
            },
            None => {
                return None;
            },
        },
    };
    remember(hot, key, id);
    Some(id)
}

/// Gives a code object a number, where there is one to be had, and finishes what
/// `resolve_cold` began.
pub fn resolve_new(
    hot: &mut Hot,
    codes: &mut CodeCache,
    interner: &mut Interner,
    key: usize,
    info: CodeInfo,
    recycle_floor: u64,
) -> (id: Option<u32>)
    requires
        old(interner)@.consistent(),
    ensures
        final(interner)@.consistent(),
        final(interner)@ == old(interner)@.with_code(key as u64, info@, recycle_floor).1,
        match id {
            Some(id) => {
                &&& old(interner)@.with_code(key as u64, info@, recycle_floor).0 == Some(id as u64)
                &&& *final(hot) == settled(*old(hot), key, id)
                &&& stores(*old(codes), *final(codes), key, id)
                &&& key != 0 ==> final(codes).lookup(key) == Some(id)
                &&& forall|other: usize| #[trigger]
                    final(codes).lookup(other) is Some && other != key ==> final(codes).lookup(
                        other,
                    ) == old(codes).lookup(other)
            },
            None => {
                &&& old(interner)@.with_code(key as u64, info@, recycle_floor).0 is None
                &&& *final(hot) == *old(hot)
                &&& *final(codes) == *old(codes)
            },
        },
        cache_is_right(*old(codes), old(interner)@.ids) && id is Some ==> {
            &&& final(interner)@.ids.contains_key(key as u64)
            &&& final(interner)@.ids[key as u64] == id->0
            &&& remembers_right(*final(hot), *final(codes), final(interner)@.ids)
        },
{
    match interner.insert(key, info, recycle_floor) {
        None => None,
        Some(id) => {
            let ghost cache = *codes;
            codes.put(key, id);
            proof {
                lemma_put(cache, *codes, key, id);
            }
            remember(hot, key, id);
            Some(id)
        },
    }
}

fn remember(hot: &mut Hot, key: usize, id: u32)
    ensures
        *final(hot) == settled(*old(hot), key, id),
{
    hot.last_code_id = id;
    hot.last_code_key = if hot.ensured || hot.name_retries == 0 {
        key
    } else {
        NOT_CACHED
    };
}

proof fn lemma_put(before: CodeCache, after: CodeCache, key: usize, id: u32)
    requires
        stores(before, after, key, id),
    ensures
        key != 0 ==> after.lookup(key) == Some(id),
        forall|other: usize| #[trigger]
            after.lookup(other) is Some && other != key ==> after.lookup(other) == before.lookup(
                other,
            ),
{
    if key != 0 {
        a_stored_key_reads_back(before, after, key, id);
    }
    assert forall|other: usize| #[trigger]
        after.lookup(other) is Some && other != key implies after.lookup(other) == before.lookup(
        other,
    ) by {
        storing_touches_one_place(before, after, key, id, other);
    }
}

/// What a thread remembers of a code object is forgotten when a run ends and when a
/// code object is gone, so that no event gets the number of another code object.
pub proof fn nothing_outdated_is_remembered(hot: Hot, key: usize, run: u64, generation: u64)
    requires
        is_outdated(hot, run, generation),
    ensures
        cached(hot, key, run, generation) is None,
{
}

/// A thread is asked for its name a bounded number of times in a run.
pub proof fn a_thread_is_asked_a_bounded_number_of_times(
    hot: Hot,
    named: Map<u32, Seq<char>>,
    name: Seq<char>,
)
    ensures
        asks_for_name(hot) ==> asked(hot, named, name).name_retries < hot.name_retries,
        asked(hot, named, name).name_retries <= hot.name_retries,
        !hot.ensured && hot.name_retries > 0 ==> asked(hot, named, name).name_retries
            == hot.name_retries - 1,
        !hot.ensured && hot.name_retries > 0 ==> asked(hot, named, name).ensured == (
        named.contains_key(hot.tid) || (name.len() > 0 && !is_made_up(name))),
        hot.ensured || hot.name_retries == 0 ==> asked(hot, named, name) == hot && names_after(
            hot,
            named,
            name,
        ) == named,
        asked(hot, named, name).last_code_key == hot.last_code_key,
        asked(hot, named, name).tid == hot.tid,
{
    only_empty_and_made_up_names_are_refused(name);
}

/// A remembered number is handed out for the code object that it was remembered for, in
/// the run and at the count that it was, and for no other.
pub proof fn a_number_is_remembered_for_its_own_code_object(
    hot: Hot,
    key: usize,
    run: u64,
    generation: u64,
)
    ensures
        hot.last_code_key != key ==> cached(hot, key, run, generation) is None,
        hot.queue_id != run ==> cached(hot, key, run, generation) is None,
        hot.code_gen != generation ==> cached(hot, key, run, generation) is None,
        hot.last_code_key == key && hot.queue_id == run && hot.code_gen == generation ==> cached(
            hot,
            key,
            run,
            generation,
        ) == Some(hot.last_code_id),
{
}

/// Once a code object has been resolved, its number is handed out for it alone: at once
/// where the thread's name is settled, and not at all while that is still asked for. The
/// key that stands for none is no code object's.
pub proof fn what_is_resolved_is_remembered_for_it_alone(
    hot: Hot,
    k: usize,
    id: u32,
    key: usize,
    run: u64,
    generation: u64,
)
    requires
        key != NOT_CACHED,
    ensures
        key != k ==> cached(settled(hot, k, id), key, run, generation) is None,
        (hot.ensured || hot.name_retries == 0) && hot.queue_id == run && hot.code_gen == generation
            ==> cached(settled(hot, k, id), k, run, generation) == Some(id),
        !hot.ensured && hot.name_retries > 0 && k == key ==> cached(
            settled(hot, k, id),
            key,
            run,
            generation,
        ) is None,
{
}

/// The number that an event is recorded with is the one that its own code object goes
/// by, as long as what the thread remembers is so.
pub proof fn an_event_gets_the_number_of_its_code_object(
    hot: Hot,
    codes: CodeCache,
    ids: Map<u64, u64>,
    key: usize,
    run: u64,
    generation: u64,
)
    requires
        remembers_right(hot, codes, ids),
        key != NOT_CACHED,
    ensures
        cached(hot, key, run, generation) matches Some(id) ==> ids.contains_key(key as u64)
            && ids[key as u64] == id,
{
}

/// What a thread remembers of code objects is so at the start.
pub proof fn a_thread_that_remembers_nothing_remembers_right(
    hot: Hot,
    codes: CodeCache,
    ids: Map<u64, u64>,
)
    requires
        hot.last_code_key == NOT_CACHED,
        forall|key: usize| #[trigger] codes.lookup(key) is None,
    ensures
        remembers_right(hot, codes, ids),
{
}

/// A thread of a new run is asked for its name afresh; one of the same run is not made to
/// forget what it has settled. The thread keeps its own number, and gets one from the
/// system only where it has none.
pub proof fn a_new_run_starts_over(hot: Hot, run: u64, generation: u64, os_tid: u32, key: usize)
    requires
        key != NOT_CACHED,
    ensures
        hot.queue_id != run ==> asks_for_name(refreshed(hot, run, generation, os_tid))
            && refreshed(hot, run, generation, os_tid).last_code_key != key,
        hot.queue_id == run ==> asks_for_name(refreshed(hot, run, generation, os_tid)) == (
        !hot.ensured && hot.name_retries > 0),
        hot.queue_id == run ==> refreshed(hot, run, generation, os_tid).last_code_key
            == hot.last_code_key,
        hot.queue_id == run ==> refreshed(hot, run, generation, os_tid).name_retries
            == hot.name_retries,
        hot.queue_id == run ==> refreshed(hot, run, generation, os_tid).ensured == hot.ensured,
        refreshed(hot, run, generation, os_tid).last_code_id == hot.last_code_id,
        refreshed(hot, run, generation, os_tid).tid == hot.tid || hot.tid == u32::MAX,
        hot.tid == u32::MAX ==> refreshed(hot, run, generation, os_tid).tid == os_tid,
        refreshed(hot, run, generation, os_tid).code_gen == generation,
        refreshed(hot, run, generation, os_tid).cursor == hot.cursor,
        refreshed(hot, run, generation, os_tid).end == hot.end,
        refreshed(hot, run, generation, os_tid).base_ticks == hot.base_ticks,
        refreshed(hot, run, generation, os_tid).queue_id == hot.queue_id,
{
}

/// A thread that is asked for its name, and has none yet, is named with what it says, to
/// the letter, unless that is empty or made up; no other thread is renamed, and a thread
/// that has a name keeps it.
pub proof fn a_thread_goes_by_the_name_it_says(
    hot: Hot,
    named: Map<u32, Seq<char>>,
    name: Seq<char>,
    other: u32,
)
    ensures
        ({
            let after = names_after(hot, named, name);
            &&& !hot.ensured && hot.name_retries > 0 && !named.contains_key(hot.tid) && name.len()
                > 0 && !is_made_up(name) ==> after.contains_key(hot.tid) && after[hot.tid] == name
                && asked(hot, named, name).ensured
            &&& other != hot.tid ==> after.contains_key(other) == named.contains_key(other)
            &&& other != hot.tid && named.contains_key(other) ==> after[other] == named[other]
            &&& named.contains_key(hot.tid) ==> after.contains_key(hot.tid) && after[hot.tid]
                == named[hot.tid]
            &&& !named.contains_key(hot.tid) && (name.len() == 0 || is_made_up(name)) ==> !after.contains_key(
                hot.tid,
            )
        }),
{
    only_empty_and_made_up_names_are_refused(name);
}

/// A callback is handed the number of the last code object exactly where it is told of that
/// one, in the same run and with none gone since.
pub proof fn a_callback_is_handed_the_last_number(
    hot: Hot,
    key: usize,
    run: u64,
    generation: u64,
    id: Option<u32>,
)
    requires
        call_ensures(cached_code, (&hot, key, run, generation), id),
    ensures
        id is Some <==> hot.last_code_key == key && hot.queue_id == run && hot.code_gen
            == generation,
        id matches Some(n) ==> n == hot.last_code_id,
{
}

/// The interpreter is asked what a thread is called where the thread has no name yet, and
/// the run is a new one or the thread was not asked 64 times in it.
pub proof fn the_interpreter_is_asked_for_a_name(
    hot: Hot,
    threads: ThreadRegistry,
    run: u64,
    os_tid: u32,
    wanted: bool,
)
    requires
        call_ensures(wants_name, (&hot, &threads, run, os_tid), wanted),
    ensures
        hot.tid != u32::MAX ==> (wanted <==> !threads@.contains_key(hot.tid) && (hot.queue_id
            != run || (!hot.ensured && hot.name_retries > 0))),
        hot.tid == u32::MAX ==> (wanted <==> !threads@.contains_key(os_tid) && (hot.queue_id
            != run || (!hot.ensured && hot.name_retries > 0))),
        hot.queue_id != run ==> refreshed(hot, run, 0, os_tid).name_retries == 64,
{
}

/// The number that a thread finds is the one that the code object goes by, as long as what
/// the thread remembers is so or is not of this run. What records stays where it was.
pub proof fn a_number_that_is_found_is_the_code_objects(
    hot: &mut Hot,
    codes: &mut CodeCache,
    interner: &Interner,
    threads: &mut ThreadRegistry,
    key: usize,
    run: u64,
    generation: u64,
    os_tid: u32,
    name: &str,
    id: Option<u32>,
)
    requires
        interner@.consistent(),
        call_ensures(
            resolve_cold,
            (hot, codes, interner, threads, key, run, generation, os_tid, name),
            id,
        ),
        old(hot).queue_id != run || old(hot).code_gen != generation || remembers_right(
            *old(hot),
            *old(codes),
            interner@.ids,
        ),
    ensures
        id is Some <==> interner@.ids.contains_key(key as u64),
        id matches Some(n) ==> interner@.ids[key as u64] == n,
        final(hot).code_gen == generation,
        final(hot).cursor == old(hot).cursor,
        final(hot).end == old(hot).end,
        final(hot).base_ticks == old(hot).base_ticks,
        final(hot).queue_id == old(hot).queue_id,
        final(hot).epoch == old(hot).epoch,
        final(hot).tid == (if old(hot).tid == u32::MAX {
            os_tid
        } else {
            old(hot).tid
        }),
{
}

/// A code object that is given a number goes by it from then on; where none is to be had,
/// nothing is remembered.
pub proof fn a_new_number_is_the_code_objects(
    hot: &mut Hot,
    codes: &mut CodeCache,
    interner: &mut Interner,
    key: usize,
    info: CodeInfo,
    recycle_floor: u64,
    id: Option<u32>,
)
    requires
        old(interner)@.consistent(),
        call_ensures(resolve_new, (hot, codes, interner, key, info, recycle_floor), id),
    ensures
        id is None ==> *final(hot) == *old(hot) && *final(codes) == *old(codes)
            && final(interner)@ == old(interner)@,
        id matches Some(n) ==> {
            &&& final(interner)@.ids.contains_key(key as u64)
            &&& final(interner)@.ids[key as u64] == n
            &&& final(hot).last_code_id == n
            &&& final(hot).cursor == old(hot).cursor
            &&& final(hot).tid == old(hot).tid
        },
        !old(interner)@.ids.contains_key(key as u64) && id is Some
            ==> final(interner)@.info[id->0 as int] == info@,
{
    a_number_that_is_given_out_is_found(
        old(interner)@,
        key as u64,
        info@,
        recycle_floor,
        key as u64,
    );
    lemma_recyclable(old(interner)@.free, recycle_floor, 0);
}

} // verus!
