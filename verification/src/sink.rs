//! What a written trace says about code and threads, and where it goes.

use crate::event::Event;
use crate::idmap::Index;
use vstd::prelude::*;

verus! {

/// What an exporter needs to know about a code object.
#[derive(Debug, PartialEq, Eq)]
pub struct CodeInfo {
    pub qualname: String,
    pub filename: String,
    pub firstlineno: u32,
}

/// What is known about a code object.
pub struct CodeView {
    pub qualname: Seq<char>,
    pub filename: Seq<char>,
    pub firstlineno: u32,
}

impl View for CodeInfo {
    type V = CodeView;

    open spec fn view(&self) -> CodeView {
        CodeView {
            qualname: self.qualname@,
            filename: self.filename@,
            firstlineno: self.firstlineno,
        }
    }
}

/// What is said of a code object of which nothing is known.
pub open spec fn nothing_known() -> CodeView {
    CodeView { qualname: Seq::empty(), filename: Seq::empty(), firstlineno: 0 }
}

impl Clone for CodeInfo {
    fn clone(&self) -> (copy: Self)
        ensures
            copy@ == self@,
    {
        CodeInfo {
            qualname: self.qualname.clone(),
            filename: self.filename.clone(),
            firstlineno: self.firstlineno,
        }
    }
}

impl Default for CodeInfo {
    fn default() -> (info: Self)
        ensures
            info@ == nothing_known(),
    {
        CodeInfo { qualname: String::new(), filename: String::new(), firstlineno: 0 }
    }
}

/// Resolves code ids back to source information.
pub trait CodeLookup {
    /// What a code id stands for.
    spec fn resolved(&self, id: u32) -> Option<CodeView>;

    fn code(&self, id: u32) -> (info: Option<CodeInfo>)
        ensures
            match info {
                Some(i) => self.resolved(id) == Some(i@),
                None => self.resolved(id) is None,
            },
    ;
}

/// Resolves thread ids to thread names.
pub trait ThreadNames {
    /// The names of those threads that have one.
    spec fn named(&self) -> Map<u32, Seq<char>>;

    fn name(&self, tid: u32) -> (name: Option<String>)
        ensures
            match name {
                Some(n) => self.named().contains_key(tid) && self.named()[tid] == n@,
                None => !self.named().contains_key(tid),
            },
    ;

    /// The names of those threads that have one, by thread id.
    fn snapshot(&self) -> (names: Vec<(u32, String)>)
        ensures
            named_views(names@) == listing(self.named()),
            lists(self.named(), named_views(names@)),
    ;
}

/// What some named threads are called.
pub open spec fn named_views(names: Seq<(u32, String)>) -> Seq<(u32, Seq<char>)> {
    Seq::new(names.len(), |i: int| (names[i].0, names[i].1@))
}

/// Whether thread ids go up.
pub open spec fn ascending(names: Seq<(u32, Seq<char>)>) -> bool {
    forall|i: int, j: int|
        0 <= i < j < names.len() ==> (#[trigger] names[i]).0 < (#[trigger] names[j]).0
}

/// Whether a listing has the threads of a table, each once, by thread id.
pub open spec fn lists(named: Map<u32, Seq<char>>, names: Seq<(u32, Seq<char>)>) -> bool {
    &&& ascending(names)
    &&& forall|i: int|
        0 <= i < names.len() ==> named.contains_key((#[trigger] names[i]).0) && named[names[i].0]
            == names[i].1
    &&& forall|tid: u32| #[trigger]
        named.contains_key(tid) ==> exists|i: int|
            0 <= i < names.len() && (#[trigger] names[i]).0 == tid
}

/// The threads of a table, each once, by thread id.
pub open spec fn listing(named: Map<u32, Seq<char>>) -> Seq<(u32, Seq<char>)> {
    choose|names: Seq<(u32, Seq<char>)>| lists(named, names)
}

/// There is one listing only of a table.
pub proof fn lemma_one_listing(
    named: Map<u32, Seq<char>>,
    a: Seq<(u32, Seq<char>)>,
    b: Seq<(u32, Seq<char>)>,
)
    requires
        lists(named, a),
        lists(named, b),
    ensures
        a == b,
    decreases a.len() + b.len(),
{
    if a.len() == 0 || b.len() == 0 {
        if a.len() > 0 {
            assert(named.contains_key(a[0].0));
        }
        if b.len() > 0 {
            assert(named.contains_key(b[0].0));
        }
        assert(a =~= b);
    } else {
        let m = a.len() - 1;
        let n = b.len() - 1;
        let x = a[m].0;
        let y = b[n].0;
        assert(named.contains_key(x) && named.contains_key(y));
        let i = choose|i: int| 0 <= i < b.len() && (#[trigger] b[i]).0 == x;
        let j = choose|j: int| 0 <= j < a.len() && (#[trigger] a[j]).0 == y;
        assert(i < n ==> b[i].0 < b[n].0);
        assert(j < m ==> a[j].0 < a[m].0);
        assert(x == y);
        let rest = named.remove(x);
        assert forall|tid: u32| #[trigger] rest.contains_key(tid) implies exists|k: int|
            0 <= k < a.drop_last().len() && (#[trigger] a.drop_last()[k]).0 == tid by {
            assert(named.contains_key(tid));
            let k = choose|k: int| 0 <= k < a.len() && (#[trigger] a[k]).0 == tid;
            assert(a.drop_last()[k].0 == tid);
        }
        assert forall|tid: u32| #[trigger] rest.contains_key(tid) implies exists|k: int|
            0 <= k < b.drop_last().len() && (#[trigger] b.drop_last()[k]).0 == tid by {
            assert(named.contains_key(tid));
            let k = choose|k: int| 0 <= k < b.len() && (#[trigger] b[k]).0 == tid;
            assert(b.drop_last()[k].0 == tid);
        }
        assert(lists(rest, a.drop_last())) by {
            assert forall|k: int| 0 <= k < a.drop_last().len() implies rest.contains_key(
                (#[trigger] a.drop_last()[k]).0,
            ) && rest[a.drop_last()[k].0] == a.drop_last()[k].1 by {
                assert(a[k].0 < a[m].0);
            }
        }
        assert(lists(rest, b.drop_last())) by {
            assert forall|k: int| 0 <= k < b.drop_last().len() implies rest.contains_key(
                (#[trigger] b.drop_last()[k]).0,
            ) && rest[b.drop_last()[k].0] == b.drop_last()[k].1 by {
                assert(b[k].0 < b[n].0);
            }
        }
        lemma_one_listing(rest, a.drop_last(), b.drop_last());
        assert(a =~= a.drop_last().push(a[m]));
        assert(b =~= b.drop_last().push(b[n]));
    }
}

/// Consumes decoded events and writes them out in some trace format.
pub trait Exporter {
    /// The bytes that are to go to the trace and have not been handed over.
    spec fn output(&self) -> Seq<u8>;

    /// Whether the exporter's tables are in order.
    spec fn wf(&self) -> bool;

    fn write_batch<C: CodeLookup, T: ThreadNames>(
        &mut self,
        events: &[Event],
        codes: &C,
        threads: &T,
    )
        requires
            old(self).wf(),
        ensures
            final(self).wf(),
            old(self).output().is_prefix_of(final(self).output()),
    ;

    /// Writes what comes at the end of a trace. `dropped` is the number of events
    /// lost across the whole run.
    fn finish<C: CodeLookup, T: ThreadNames>(&mut self, codes: &C, threads: &T, dropped: u64)
        requires
            old(self).wf(),
        ensures
            final(self).wf(),
            old(self).output().is_prefix_of(final(self).output()),
    ;

    /// Hands over what is to go to the trace.
    fn take_output(&mut self) -> (bytes: Vec<u8>)
        requires
            old(self).wf(),
        ensures
            final(self).wf(),
            bytes@ == old(self).output(),
            final(self).output() == Seq::<u8>::empty(),
    ;
}

/// Code objects, each under the number it was added as.
pub struct CodeTable {
    info: Vec<CodeInfo>,
}

/// What is known about some code objects.
pub open spec fn code_views(info: Seq<CodeInfo>) -> Seq<CodeView> {
    Seq::new(info.len(), |i: int| info[i]@)
}

impl View for CodeTable {
    type V = Seq<CodeView>;

    closed spec fn view(&self) -> Seq<CodeView> {
        code_views(self.info@)
    }
}

impl Default for CodeTable {
    fn default() -> (t: Self)
        ensures
            t@ == Seq::<CodeView>::empty(),
    {
        CodeTable::new()
    }
}

impl CodeTable {
    pub fn new() -> (t: Self)
        ensures
            t@ == Seq::<CodeView>::empty(),
    {
        let t = CodeTable { info: Vec::new() };
        assert(t@ =~= Seq::empty());
        t
    }

    /// Adds a code object. The number it gets keeps the low 32 bits of its place.
    pub fn push(&mut self, info: CodeInfo) -> (id: u32)
        ensures
            final(self)@ == old(self)@.push(info@),
            id == old(self)@.len() % 0x1_0000_0000,
    {
        let ghost before = self@;
        self.info.push(info);
        assert(self@ =~= before.push(info@));
        let place: u64 = (self.info.len() - 1) as u64;
        assert(place as u32 == place % 0x1_0000_0000) by (bit_vector);
        #[verifier::truncate]
        (place as u32)
    }

    /// Adds a code object of which only the name is known.
    pub fn push_named(&mut self, qualname: &str) -> (id: u32)
        ensures
            final(self)@ == old(self)@.push(
                CodeView { qualname: qualname@, ..nothing_known() },
            ),
            id == old(self)@.len() % 0x1_0000_0000,
    {
        self.push(
            CodeInfo { qualname: qualname.to_owned(), filename: String::new(), firstlineno: 0 },
        )
    }

    pub fn len(&self) -> (n: usize)
        ensures
            n == self@.len(),
    {
        self.info.len()
    }

    pub fn is_empty(&self) -> (r: bool)
        ensures
            r == (self@.len() == 0),
    {
        self.info.len() == 0
    }
}

/// What a table says of a code id.
pub open spec fn code_at(info: Seq<CodeView>, id: u32) -> Option<CodeView> {
    if id < info.len() {
        Some(info[id as int])
    } else {
        None
    }
}

impl CodeLookup for CodeTable {
    open spec fn resolved(&self, id: u32) -> Option<CodeView> {
        code_at(self@, id)
    }

    fn code(&self, id: u32) -> (info: Option<CodeInfo>) {
        if (id as usize) < self.info.len() {
            Some(self.info[id as usize].clone())
        } else {
            None
        }
    }
}

/// Threads and their names.
pub struct ThreadTable {
    index: Index,
    names: Vec<String>,
}

/// The table that some thread ids and names make.
pub open spec fn table_of(tids: Seq<u64>, names: Seq<String>) -> Map<u32, Seq<char>> {
    Map::new(
        |tid: u32| tids.contains(tid as u64),
        |tid: u32| names[tids.index_of(tid as u64)]@,
    )
}

impl View for ThreadTable {
    type V = Map<u32, Seq<char>>;

    closed spec fn view(&self) -> Map<u32, Seq<char>> {
        table_of(self.index@, self.names@)
    }
}

impl Default for ThreadTable {
    fn default() -> (t: Self)
        ensures
            t@ == Map::<u32, Seq<char>>::empty(),
    {
        ThreadTable::new()
    }
}

impl ThreadTable {
    #[verifier::type_invariant]
    spec fn consistent(&self) -> bool {
        &&& self.index.wf()
        &&& self.index@.len() == self.names@.len()
        &&& forall|i: int| 0 <= i < self.index@.len() ==> (#[trigger] self.index@[i]) <= u32::MAX
    }

    pub fn new() -> (t: Self)
        ensures
            t@ == Map::<u32, Seq<char>>::empty(),
    {
        let t = ThreadTable { index: Index::new(), names: Vec::new() };
        assert(t@ =~= Map::empty());
        t
    }

    /// Names a thread, in place of the name it had.
    pub fn insert(&mut self, tid: u32, name: &str)
        ensures
            final(self)@ == old(self)@.insert(tid, name@),
    {
        self.put(tid, name.to_owned());
    }

    /// Names a thread, in place of the name it had.
    pub fn put(&mut self, tid: u32, name: String)
        ensures
            final(self)@ == old(self)@.insert(tid, name@),
    {
        proof {
            use_type_invariant(&*self);
        }
        let ghost before = self@;
        let mut table = ThreadTable { index: Index::new(), names: Vec::new() };
        core::mem::swap(self, &mut table);
        let ThreadTable { mut index, mut names } = table;
        let ghost tids = index@;
        match index.find(tid as u64) {
            Some(i) => {
                names.set(i, name);
                proof {
                    assert(tids.index_of(tid as u64) == i);
                    assert(table_of(index@, names@) =~= before.insert(tid, name@)) by {
                        assert forall|t: u64| t != tid as u64 && #[trigger] tids.contains(
                            t,
                        ) implies tids.index_of(t) != i by {
                            assert(tids[tids.index_of(t)] == t);
                        }
                    }
                }
            },
            None => {
                let _ = index.add(tid as u64);
                names.push(name);
                proof {
                    let n = tids.len() as int;
                    assert(index@[n] == tid as u64);
                    assert(index@.no_duplicates()) by {
                        lemma_push_distinct(tids, tid as u64);
                    }
                    assert(index@.index_of(tid as u64) == n);
                    assert forall|t: u64| #[trigger] tids.contains(t) implies index@.contains(t)
                        && index@.index_of(t) == tids.index_of(t) by {
                        let k = tids.index_of(t);
                        assert(tids[k] == t);
                        assert(index@[k] == t);
                    }
                    assert forall|t: u64|
                        t != tid as u64 && #[trigger] index@.contains(t) implies tids.contains(
                        t,
                    ) by {
                        let k = index@.index_of(t);
                        assert(tids[k] == t);
                    }
                    assert(table_of(index@, names@) =~= before.insert(tid, name@));
                }
            },
        }
        *self = ThreadTable { index, names };
    }
}

proof fn lemma_push_distinct(keys: Seq<u64>, key: u64)
    requires
        keys.no_duplicates(),
        !keys.contains(key),
    ensures
        keys.push(key).no_duplicates(),
{
}

impl ThreadNames for ThreadTable {
    open spec fn named(&self) -> Map<u32, Seq<char>> {
        self@
    }

    fn name(&self, tid: u32) -> (name: Option<String>) {
        proof {
            use_type_invariant(self);
        }
        match self.index.find(tid as u64) {
            Some(i) => {
                assert(self.index@.index_of(tid as u64) == i);
                Some(self.names[i].clone())
            },
            None => None,
        }
    }

    fn snapshot(&self) -> (names: Vec<(u32, String)>) {
        proof {
            use_type_invariant(self);
            self.index.numbers_differ();
        }
        let mut out: Vec<(u32, String)> = Vec::new();
        let n: usize = self.index.len();
        let ghost tids = self.index@;
        assert(lists(table_of(tids.take(0), self.names@), named_views(out@)));
        for i in 0..n
            invariant
                n == self.index@.len() == self.names@.len(),
                tids == self.index@,
                tids.no_duplicates(),
                forall|k: int| 0 <= k < tids.len() ==> (#[trigger] tids[k]) <= u32::MAX,
                lists(table_of(tids.take(i as int), self.names@), named_views(out@)),
        {
            let tid: u32 = self.index.key(i) as u32;
            let ghost before = table_of(tids.take(i as int), self.names@);
            proof {
                lemma_next_thread(tids, self.names@, i as int);
            }
            enlist(&mut out, tid, self.names[i].clone(), Ghost(before));
        }
        proof {
            assert(tids.take(n as int) =~= tids);
            lemma_one_listing(self@, named_views(out@), listing(self@));
        }
        out
    }
}

proof fn lemma_next_thread(tids: Seq<u64>, names: Seq<String>, i: int)
    requires
        0 <= i < tids.len() == names.len(),
        tids.no_duplicates(),
        tids[i] <= u32::MAX,
    ensures
        !table_of(tids.take(i), names).contains_key(tids[i] as u32),
        table_of(tids.take(i + 1), names) == table_of(tids.take(i), names).insert(
            tids[i] as u32,
            names[i]@,
        ),
{
    let a = tids.take(i);
    let b = tids.take(i + 1);
    assert(b[i] == tids[i]);
    if a.contains(tids[i]) {
        let k = a.index_of(tids[i]);
        assert(tids[k] == tids[i]);
    }
    assert(b.index_of(tids[i]) == i);
    assert forall|t: u64| #[trigger] a.contains(t) implies b.contains(t) && b.index_of(t)
        == a.index_of(t) by {
        let k = a.index_of(t);
        assert(b[k] == t);
        assert(b.index_of(t) == k);
    }
    assert forall|t: u64| t != tids[i] && #[trigger] b.contains(t) implies a.contains(t) by {
        let k = b.index_of(t);
        assert(a[k] == t);
    }
    assert(table_of(b, names) =~= table_of(a, names).insert(tids[i] as u32, names[i]@));
}

/// Puts a thread into a listing that does not have it.
fn enlist(
    out: &mut Vec<(u32, String)>,
    tid: u32,
    name: String,
    Ghost(named): Ghost<Map<u32, Seq<char>>>,
)
    requires
        lists(named, named_views(old(out)@)),
        !named.contains_key(tid),
    ensures
        lists(named.insert(tid, name@), named_views(final(out)@)),
{
    let n: usize = out.len();
    let mut at: usize = 0;
    let ghost before = named_views(out@);
    while at < n && out[at].0 < tid
        invariant
            at <= n == out@.len() == before.len(),
            before == named_views(out@),
            forall|j: int| 0 <= j < at ==> (#[trigger] before[j]).0 < tid,
        decreases n - at,
    {
        assert(before[at as int].0 == out@[at as int].0);
        at = at + 1;
    }
    assert(forall|j: int| 0 <= j < n ==> (#[trigger] before[j]).0 != tid);
    assert(at < n ==> before[at as int].0 == out@[at as int].0);
    out.insert(at, (tid, name));
    let ghost after = named_views(out@);
    proof {
        let now = named.insert(tid, name@);
        assert(after =~= before.insert(at as int, (tid, name@)));
        assert forall|t: u32| #[trigger] now.contains_key(t) implies exists|i: int|
            0 <= i < after.len() && (#[trigger] after[i]).0 == t by {
            if t == tid {
                assert(after[at as int].0 == t);
            } else {
                assert(named.contains_key(t));
                let k = choose|k: int| 0 <= k < before.len() && (#[trigger] before[k]).0 == t;
                if k < at {
                    assert(after[k].0 == t);
                } else {
                    assert(after[k + 1].0 == t);
                }
            }
        }
    }
}

/// A code object that is added has the number of its place, and those before it keep theirs.
pub proof fn a_code_object_has_the_number_of_its_place(info: Seq<CodeView>, c: CodeView, id: u32)
    ensures
        id == info.len() ==> code_at(info, id) is None,
        id == info.len() ==> code_at(info.push(c), id) == Some(c),
        id < info.len() ==> code_at(info.push(c), id) == code_at(info, id),
        id < info.len() ==> code_at(info, id) == Some(info[id as int]),
        id > info.len() ==> code_at(info.push(c), id) is None,
{
}

/// A code object that is added to a table is found under the number it is given, and those
/// before it stay.
pub proof fn a_code_object_that_is_added_stays(
    t: &mut CodeTable,
    info: CodeInfo,
    id: u32,
    other: u32,
)
    requires
        old(t)@.len() < 0x1_0000_0000,
        call_ensures(CodeTable::push, (t, info), id),
    ensures
        id == old(t)@.len(),
        final(t).resolved(id) == Some(info@),
        other < old(t)@.len() ==> final(t).resolved(other) == old(t).resolved(other),
        other > id ==> final(t).resolved(other) is None,
{
}

/// A thread that is named goes by that name, and no other is renamed.
pub proof fn a_thread_that_is_named_goes_by_it(
    t: &mut ThreadTable,
    tid: u32,
    name: &str,
    other: u32,
)
    requires
        call_ensures(ThreadTable::insert, (t, tid, name), ()),
    ensures
        final(t)@.contains_key(tid) && final(t)@[tid] == name@,
        other != tid ==> final(t)@.contains_key(other) == old(t)@.contains_key(other),
        other != tid && old(t)@.contains_key(other) ==> final(t)@[other] == old(t)@[other],
{
}

} // verus!
