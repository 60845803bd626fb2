//! Tables that are looked things up in by number.

use ahash::AHashMap;
use vstd::prelude::*;

verus! {

#[verifier::external_type_specification]
#[verifier::external_body]
#[verifier::reject_recursive_types(K)]
#[verifier::reject_recursive_types(V)]
#[verifier::reject_recursive_types(S)]
pub struct ExAHashMap<K, V, S>(ahash::AHashMap<K, V, S>);

#[verifier::external_type_specification]
#[verifier::external_body]
pub struct ExRandomState(ahash::RandomState);

/// What a map from numbers to numbers holds.
pub uninterp spec fn pairs(map: AHashMap<u64, u64>) -> Map<u64, u64>;

/// `ahash::AHashMap::new`: a map that holds nothing.
#[verifier::external_body]
fn new_map() -> (map: AHashMap<u64, u64>)
    ensures
        pairs(map) == (Map::<u64, u64>::empty()),
{
    AHashMap::new()
}

/// `ahash::AHashMap::get`: the value of a key, where there is one.
#[verifier::external_body]
fn map_get(map: &AHashMap<u64, u64>, key: u64) -> (value: Option<u64>)
    ensures
        value == (if pairs(*map).contains_key(key) {
            Some(pairs(*map)[key])
        } else {
            None
        }),
{
    map.get(&key).copied()
}

/// `ahash::AHashMap::insert`: gives a key a value, in place of the one it had.
#[verifier::external_body]
fn map_insert(map: &mut AHashMap<u64, u64>, key: u64, value: u64)
    ensures
        pairs(*final(map)) == pairs(*old(map)).insert(key, value),
{
    map.insert(key, value);
}

/// `ahash::AHashMap::remove`: takes out a key and hands back its value, where it
/// has one.
#[verifier::external_body]
fn map_remove(map: &mut AHashMap<u64, u64>, key: u64) -> (value: Option<u64>)
    ensures
        value == (if pairs(*old(map)).contains_key(key) {
            Some(pairs(*old(map))[key])
        } else {
            None
        }),
        pairs(*final(map)) == pairs(*old(map)).remove(key),
{
    map.remove(&key)
}

/// A map from numbers to numbers.
pub struct IdMap {
    map: AHashMap<u64, u64>,
}

impl View for IdMap {
    type V = Map<u64, u64>;

    closed spec fn view(&self) -> Map<u64, u64> {
        pairs(self.map)
    }
}

impl IdMap {
    pub fn new() -> (m: Self)
        ensures
            m@ == Map::<u64, u64>::empty(),
    {
        IdMap { map: new_map() }
    }

    pub fn get(&self, key: u64) -> (value: Option<u64>)
        ensures
            value == (if self@.contains_key(key) {
                Some(self@[key])
            } else {
                None
            }),
    {
        map_get(&self.map, key)
    }

    pub fn insert(&mut self, key: u64, value: u64)
        ensures
            final(self)@ == old(self)@.insert(key, value),
    {
        map_insert(&mut self.map, key, value);
    }

    pub fn remove(&mut self, key: u64) -> (value: Option<u64>)
        ensures
            value == (if old(self)@.contains_key(key) {
                Some(old(self)@[key])
            } else {
                None
            }),
            final(self)@ == old(self)@.remove(key),
    {
        map_remove(&mut self.map, key)
    }
}

/// Numbers in the order they were first seen, each with its place.
pub struct Index {
    places: IdMap,
    keys: Vec<u64>,
}

impl View for Index {
    type V = Seq<u64>;

    closed spec fn view(&self) -> Seq<u64> {
        self.keys@
    }
}

impl Index {
    /// Whether each number is there once, under its place.
    pub closed spec fn wf(&self) -> bool {
        &&& self.keys@.no_duplicates()
        &&& forall|i: int|
            0 <= i < self.keys@.len() ==> self.places@.contains_key(#[trigger] self.keys@[i])
                && self.places@[self.keys@[i]] == i
        &&& forall|key: u64| #[trigger]
            self.places@.contains_key(key) ==> self.places@[key] < self.keys@.len()
                && self.keys@[self.places@[key] as int] == key
    }

    /// No number is there twice.
    pub proof fn numbers_differ(&self)
        requires
            self.wf(),
        ensures
            self@.no_duplicates(),
    {
    }

    pub fn new() -> (index: Self)
        ensures
            index.wf(),
            index@ == Seq::<u64>::empty(),
    {
        Index { places: IdMap::new(), keys: Vec::new() }
    }

    pub fn len(&self) -> (n: usize)
        ensures
            n == self@.len(),
    {
        self.keys.len()
    }

    /// The number at a place.
    pub fn key(&self, place: usize) -> (key: u64)
        requires
            place < self@.len(),
        ensures
            key == self@[place as int],
    {
        self.keys[place]
    }

    /// The place of a number, where it has one.
    pub fn find(&self, key: u64) -> (place: Option<usize>)
        requires
            self.wf(),
        ensures
            self@.no_duplicates(),
            match place {
                Some(i) => i < self@.len() && self@[i as int] == key && self@.contains(key),
                None => !self@.contains(key),
            },
    {
        match self.places.get(key) {
            Some(place) => {
                assert(self.keys@[place as int] == key);
                assert(self.keys@.len() == self.keys.len());
                Some(place as usize)
            },
            None => {
                assert(!self.keys@.contains(key)) by {
                    if self.keys@.contains(key) {
                        let i = choose|i: int|
                            0 <= i < self.keys@.len() && self.keys@[i] == key;
                        assert(self.places@.contains_key(self.keys@[i]));
                    }
                }
                None
            },
        }
    }

    /// Gives a number that has none the next place.
    pub fn add(&mut self, key: u64) -> (place: usize)
        requires
            old(self).wf(),
            !old(self)@.contains(key),
        ensures
            final(self).wf(),
            place == old(self)@.len(),
            final(self)@ == old(self)@.push(key),
    {
        let place: usize = self.keys.len();
        let ghost before = self.keys@;
        self.places.insert(key, place as u64);
        self.keys.push(key);
        proof {
            assert forall|i: int| 0 <= i < self.keys@.len() implies self.places@.contains_key(
                #[trigger] self.keys@[i],
            ) && self.places@[self.keys@[i]] == i by {
                if i < before.len() {
                    assert(before.contains(before[i]));
                }
            }
        }
        place
    }
}

/// What a map from strings to numbers holds.
pub uninterp spec fn spelled(map: AHashMap<String, u64>) -> Map<Seq<char>, u64>;

/// `ahash::AHashMap::new`, for a map from strings: a map that holds nothing.
#[verifier::external_body]
fn new_string_map() -> (map: AHashMap<String, u64>)
    ensures
        spelled(map) == (Map::<Seq<char>, u64>::empty()),
{
    AHashMap::new()
}

/// `ahash::AHashMap::get`, for a map from strings: the value of a string, where
/// there is one.
#[verifier::external_body]
fn string_map_get(map: &AHashMap<String, u64>, key: &str) -> (value: Option<u64>)
    ensures
        value == (if spelled(*map).contains_key(key@) {
            Some(spelled(*map)[key@])
        } else {
            None
        }),
{
    map.get(key).copied()
}

/// `ahash::AHashMap::insert`, for a map from strings: gives a string a value, in
/// place of the one it had.
#[verifier::external_body]
fn string_map_insert(map: &mut AHashMap<String, u64>, key: String, value: u64)
    ensures
        spelled(*final(map)) == spelled(*old(map)).insert(key@, value),
{
    map.insert(key, value);
}

/// What some strings hold.
pub open spec fn string_views(strings: Seq<String>) -> Seq<Seq<char>> {
    Seq::new(strings.len(), |i: int| strings[i]@)
}

/// A table of strings once a string has been looked up in it.
pub open spec fn with_string(table: Seq<Seq<char>>, text: Seq<char>) -> Seq<Seq<char>> {
    if table.contains(text) {
        table
    } else {
        table.push(text)
    }
}

/// Strings in the order they were first seen, each with its place.
pub struct Strings {
    table: Vec<String>,
    index: AHashMap<String, u64>,
}

impl View for Strings {
    type V = Seq<Seq<char>>;

    closed spec fn view(&self) -> Seq<Seq<char>> {
        string_views(self.table@)
    }
}

impl Strings {
    /// Whether each string is there once, under its place.
    pub closed spec fn wf(&self) -> bool {
        &&& self@.no_duplicates()
        &&& forall|i: int|
            0 <= i < self@.len() ==> spelled(self.index).contains_key(#[trigger] self@[i])
                && spelled(self.index)[self@[i]] == i
        &&& forall|text: Seq<char>| #[trigger]
            spelled(self.index).contains_key(text) ==> spelled(self.index)[text] < self@.len()
                && self@[spelled(self.index)[text] as int] == text
    }

    /// A table whose first string is the empty one.
    pub fn with_empty_head() -> (strings: Self)
        ensures
            strings.wf(),
            strings@ == seq![""@],
    {
        let mut strings = Strings { table: Vec::new(), index: new_string_map() };
        assert(strings@ =~= Seq::empty());
        let _ = strings.id("");
        assert(strings@ =~= seq![""@]);
        strings
    }

    /// The place of a string, which is added where it has none.
    pub fn id(&mut self, text: &str) -> (place: u64)
        requires
            old(self).wf(),
        ensures
            final(self).wf(),
            final(self)@ == with_string(old(self)@, text@),
            final(self)@.contains(text@),
            place == final(self)@.index_of(text@),
    {
        if let Some(place) = string_map_get(&self.index, text) {
            assert(self@[place as int] == text@);
            return place;
        }
        let ghost before = self@;
        assert(!before.contains(text@)) by {
            if before.contains(text@) {
                let i = before.index_of(text@);
                assert(spelled(self.index).contains_key(before[i]));
            }
        }
        let place: u64 = self.table.len() as u64;
        self.table.push(text.to_owned());
        string_map_insert(&mut self.index, text.to_owned(), place);
        proof {
            assert(self@ =~= before.push(text@));
            assert(self@[place as int] == text@);
            assert forall|i: int| 0 <= i < self@.len() implies spelled(self.index).contains_key(
                #[trigger] self@[i],
            ) && spelled(self.index)[self@[i]] == i by {
                if i < before.len() {
                    assert(before.contains(before[i]));
                }
            }
        }
        place
    }

    pub fn len(&self) -> (n: usize)
        ensures
            n == self@.len(),
    {
        self.table.len()
    }

    /// The string at a place.
    pub fn at(&self, place: usize) -> (text: &String)
        requires
            place < self@.len(),
        ensures
            text@ == self@[place as int],
    {
        &self.table[place]
    }
}

/// A string that is looked up is in the table, those that were there keep their places, and
/// none is there twice.
pub proof fn strings_keep_their_places(table: Seq<Seq<char>>, text: Seq<char>, i: int)
    ensures
        with_string(table, text).contains(text),
        0 <= i < table.len() ==> with_string(table, text)[i] == table[i],
        table.no_duplicates() ==> with_string(table, text).no_duplicates(),
        with_string(table, text).len() == table.len() + (if table.contains(text) {
            0int
        } else {
            1int
        }),
{
    if !table.contains(text) {
        assert(with_string(table, text)[table.len() as int] == text);
    }
}

} // verus!
