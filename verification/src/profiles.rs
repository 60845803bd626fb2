//! What a reader finds in a profile.

use crate::event::Event;
use crate::idmap::with_string;
use crate::json::shown_name;
use crate::messages::{
    as_numbers, bodies_in, bytes_part, each_read, fields_of, lemma_bodies_add, lemma_bytes_part,
    lemma_each_read, lemma_number_part, lemma_packed_part, lemma_parts, lemma_repeated,
    lemma_repeated_push, message, messages_concatenate, messages_read_back, number_in, number_part,
    numbers_in, packed_part, repeated, Field,
};
use crate::pprof::{
    code_or_nothing, comes_before, first_strings, function, goes_up, in_order, leaf_first,
    lemma_codes_go_up, lemma_total, location, location_number, profile, sample, samples,
    samples_refer_to_what_is_there, stacks_stay_in_order, string_table, used_codes, Folded, Tables,
    Times,
};
use crate::proto::dropped_text;
use crate::sink::{CodeLookup, CodeView};
use crate::text::{digit_chars, utf8};
use crate::wire::{bytes_field, number_field, packed_field};
use vstd::prelude::*;

verus! {

/// The time that was spent in a stack, the innermost frame first.
pub struct SampleRead {
    pub locations: Seq<nat>,
    pub values: Seq<nat>,
}

/// A place in the code: the functions there, and their lines.
pub struct LocationRead {
    pub id: nat,
    pub lines: Seq<(nat, nat)>,
}

/// A function. Its names are places among the strings.
pub struct FunctionRead {
    pub id: nat,
    pub name: nat,
    pub system_name: nat,
    pub filename: nat,
    pub start_line: nat,
}

/// What a profile says.
pub struct ProfileRead {
    /// What is measured, and in what.
    pub kinds: Seq<(nat, nat)>,
    pub samples: Seq<SampleRead>,
    pub locations: Seq<LocationRead>,
    pub functions: Seq<FunctionRead>,
    pub strings: Seq<Seq<u8>>,
    pub comments: Seq<nat>,
}

/// A reader of two numbers.
pub open spec fn pair_reader() -> spec_fn(Seq<u8>) -> Option<(nat, nat)> {
    |body: Seq<u8>|
        match fields_of(body) {
            None => None,
            Some(fields) => Some((number_in(fields, 1), number_in(fields, 2))),
        }
}

/// A reader of samples.
pub open spec fn sample_reader() -> spec_fn(Seq<u8>) -> Option<SampleRead> {
    |body: Seq<u8>|
        match fields_of(body) {
            None => None,
            Some(fields) => match (numbers_in(fields, 1), numbers_in(fields, 2)) {
                (Some(locations), Some(values)) => Some(SampleRead { locations, values }),
                _ => None,
            },
        }
}

/// A reader of locations.
pub open spec fn location_reader() -> spec_fn(Seq<u8>) -> Option<LocationRead> {
    |body: Seq<u8>|
        match fields_of(body) {
            None => None,
            Some(fields) => match each_read(bodies_in(fields, 4), pair_reader()) {
                None => None,
                Some(lines) => Some(LocationRead { id: number_in(fields, 1), lines }),
            },
        }
}

/// A reader of functions.
pub open spec fn function_reader() -> spec_fn(Seq<u8>) -> Option<FunctionRead> {
    |body: Seq<u8>|
        match fields_of(body) {
            None => None,
            Some(fields) => Some(
                FunctionRead {
                    id: number_in(fields, 1),
                    name: number_in(fields, 2),
                    system_name: number_in(fields, 3),
                    filename: number_in(fields, 4),
                    start_line: number_in(fields, 5),
                },
            ),
        }
}

/// What a reader makes of a profile, where the bytes are one.
pub open spec fn read_profile(bytes: Seq<u8>) -> Option<ProfileRead> {
    match fields_of(bytes) {
        None => None,
        Some(fields) => {
            let kinds = each_read(bodies_in(fields, 1), pair_reader());
            let samples = each_read(bodies_in(fields, 2), sample_reader());
            let locations = each_read(bodies_in(fields, 4), location_reader());
            let functions = each_read(bodies_in(fields, 5), function_reader());
            let comments = numbers_in(fields, 13);
            if kinds is None || samples is None || locations is None || functions is None
                || comments is None {
                None
            } else {
                Some(
                    ProfileRead {
                        kinds: kinds->0,
                        samples: samples->0,
                        locations: locations->0,
                        functions: functions->0,
                        strings: bodies_in(fields, 6),
                        comments: comments->0,
                    },
                )
            }
        },
    }
}

/// The strings that a profile names its code objects by.
pub open spec fn code_strings<C: CodeLookup>(times: Times, codes: C) -> Seq<Seq<char>> {
    Tables {
        strings: first_strings(),
        locations: Seq::empty(),
        functions: Seq::empty(),
    }.with_codes(used_codes(times), codes).strings
}

/// All strings of a profile.
pub open spec fn all_strings<C: CodeLookup>(
    times: Times,
    codes: C,
    dropped: u64,
) -> Seq<Seq<char>> {
    if dropped == 0 {
        code_strings(times, codes)
    } else {
        with_string(code_strings(times, codes), dropped_text(dropped))
    }
}

/// What a profile says of a stack.
pub open spec fn sample_said(stack: Seq<u32>, ns: u64) -> SampleRead {
    SampleRead { locations: as_numbers(leaf_first(stack)), values: seq![ns as nat] }
}

/// What a profile says of where a code object is.
pub open spec fn location_said(id: u32, code: CodeView) -> LocationRead {
    LocationRead {
        id: location_number(id) as nat,
        lines: seq![(location_number(id) as nat, code.firstlineno as nat)],
    }
}

/// What a profile with some strings says of what a code object is called.
pub open spec fn function_said(strings: Seq<Seq<char>>, id: u32, code: CodeView) -> FunctionRead {
    FunctionRead {
        id: location_number(id) as nat,
        name: strings.index_of(shown_name(code.qualname)) as nat,
        system_name: strings.index_of(shown_name(code.qualname)) as nat,
        filename: strings.index_of(code.filename) as nat,
        start_line: code.firstlineno as nat,
    }
}

/// What a profile says.
pub open spec fn said<C: CodeLookup>(times: Times, codes: C, dropped: u64) -> ProfileRead {
    let used = used_codes(times);
    let strings = all_strings(times, codes, dropped);
    ProfileRead {
        kinds: seq![(1nat, 2nat)],
        samples: Seq::new(times.len(), |i: int| sample_said(times[i].0, times[i].1)),
        locations: Seq::new(
            used.len(),
            |i: int| location_said(used[i], code_or_nothing(codes.resolved(used[i]))),
        ),
        functions: Seq::new(
            used.len(),
            |i: int| function_said(strings, used[i], code_or_nothing(codes.resolved(used[i]))),
        ),
        strings: Seq::new(strings.len(), |i: int| utf8(strings[i])),
        comments: if dropped == 0 {
            Seq::empty()
        } else {
            seq![strings.index_of(dropped_text(dropped)) as nat]
        },
    }
}

spec fn sample_body(stack: Seq<u32>, ns: u64) -> Seq<u8> {
    packed_field(1, leaf_first(stack)) + packed_field(2, seq![ns])
}

spec fn location_body(id: u32, line: u32) -> Seq<u8> {
    let number = location_number(id);
    number_field(1, number) + bytes_field(4, number_field(1, number) + number_field(2, line as u64))
}

spec fn function_body(id: u32, name: u64, filename: u64, line: u32) -> Seq<u8> {
    number_field(1, location_number(id)) + number_field(2, name) + number_field(3, name)
        + number_field(4, filename) + number_field(5, line as u64)
}

proof fn lemma_pair_reads_back(a: u64, b: u64)
    ensures
        pair_reader()(number_field(1, a) + number_field(2, b)) == Some((a as nat, b as nat)),
{
    let none = Seq::<Field>::empty();
    let one = number_part(1, a);
    let both = one + number_part(2, b);
    lemma_parts(1, a, Seq::empty(), Seq::empty());
    lemma_parts(2, b, Seq::empty(), Seq::empty());
    messages_concatenate(one, number_part(2, b));
    messages_read_back(both);
    assert(none + one =~= one);
    lemma_number_part(none, 1, a, 1);
    lemma_number_part(none, 1, a, 2);
    lemma_number_part(one, 2, b, 1);
    lemma_number_part(one, 2, b, 2);
}

proof fn lemma_sample_reads_back(stack: Seq<u32>, ns: u64)
    ensures
        sample_reader()(sample_body(stack, ns)) == Some(sample_said(stack, ns)),
{
    let none = Seq::<Field>::empty();
    let ids = leaf_first(stack);
    let one = packed_part(1, ids);
    let both = one + packed_part(2, seq![ns]);
    lemma_parts(1, 0, Seq::empty(), ids);
    lemma_parts(2, 0, Seq::empty(), seq![ns]);
    messages_concatenate(one, packed_part(2, seq![ns]));
    messages_read_back(both);
    assert(none + one =~= one);
    lemma_packed_part(none, 1, ids, 1);
    assert(bodies_in(one, 2).len() == 0) by {
        if ids.len() > 0 {
            lemma_bytes_part(none, 1, crate::wire::varints(ids), 2);
        }
    }
    lemma_packed_part(one, 2, seq![ns], 1);
    lemma_packed_part(one, 2, seq![ns], 2);
    assert(as_numbers(seq![ns]) =~= seq![ns as nat]);
}

proof fn lemma_location_reads_back(id: u32, code: CodeView)
    ensures
        location_reader()(location_body(id, code.firstlineno)) == Some(location_said(id, code)),
{
    let none = Seq::<Field>::empty();
    let number = location_number(id);
    let line = number_field(1, number) + number_field(2, code.firstlineno as u64);
    let one = number_part(1, number);
    let both = one + bytes_part(4, line);
    lemma_parts(1, number, Seq::empty(), Seq::empty());
    lemma_parts(4, 0, line, Seq::empty());
    messages_concatenate(one, bytes_part(4, line));
    messages_read_back(both);
    assert(none + one =~= one);
    lemma_number_part(none, 1, number, 1);
    lemma_number_part(none, 1, number, 4);
    lemma_bytes_part(one, 4, line, 1);
    lemma_bytes_part(one, 4, line, 4);
    lemma_pair_reads_back(number, code.firstlineno as u64);
    assert(bodies_in(both, 4) =~= seq![line]);
    lemma_each_read(
        bodies_in(both, 4),
        pair_reader(),
        seq![(number as nat, code.firstlineno as nat)],
    );
}

proof fn lemma_function_reads_back(id: u32, name: u64, filename: u64, line: u32)
    ensures
        function_reader()(function_body(id, name, filename, line)) == Some(
            FunctionRead {
                id: location_number(id) as nat,
                name: name as nat,
                system_name: name as nat,
                filename: filename as nat,
                start_line: line as nat,
            },
        ),
{
    let none = Seq::<Field>::empty();
    let number = location_number(id);
    let f1 = number_part(1, number);
    let f2 = f1 + number_part(2, name);
    let f3 = f2 + number_part(3, name);
    let f4 = f3 + number_part(4, filename);
    let f5 = f4 + number_part(5, line as u64);
    lemma_parts(1, number, Seq::empty(), Seq::empty());
    lemma_parts(2, name, Seq::empty(), Seq::empty());
    lemma_parts(3, name, Seq::empty(), Seq::empty());
    lemma_parts(4, filename, Seq::empty(), Seq::empty());
    lemma_parts(5, line as u64, Seq::empty(), Seq::empty());
    messages_concatenate(f1, number_part(2, name));
    messages_concatenate(f2, number_part(3, name));
    messages_concatenate(f3, number_part(4, filename));
    messages_concatenate(f4, number_part(5, line as u64));
    messages_read_back(f5);
    assert(none + f1 =~= f1);
    assert forall|tag: nat| #[trigger] number_in(f5, tag) == (if tag == 1 {
        number as nat
    } else if tag == 2 || tag == 3 {
        name as nat
    } else if tag == 4 {
        filename as nat
    } else if tag == 5 {
        line as nat
    } else {
        0
    }) by {
        lemma_number_part(none, 1, number, tag);
        lemma_number_part(f1, 2, name, tag);
        lemma_number_part(f2, 3, name, tag);
        lemma_number_part(f3, 4, filename, tag);
        lemma_number_part(f4, 5, line as u64, tag);
    }
}

spec fn sample_bodies(times: Times) -> Seq<Seq<u8>> {
    Seq::new(times.len(), |i: int| sample_body(times[i].0, times[i].1))
}

spec fn location_bodies<C: CodeLookup>(ids: Seq<u32>, codes: C) -> Seq<Seq<u8>> {
    Seq::new(
        ids.len(),
        |i: int| location_body(ids[i], code_or_nothing(codes.resolved(ids[i])).firstlineno),
    )
}

spec fn function_body_in(strings: Seq<Seq<char>>, id: u32, code: CodeView) -> Seq<u8> {
    function_body(
        id,
        strings.index_of(shown_name(code.qualname)) as u64,
        strings.index_of(code.filename) as u64,
        code.firstlineno,
    )
}

spec fn function_bodies<C: CodeLookup>(
    strings: Seq<Seq<char>>,
    ids: Seq<u32>,
    codes: C,
) -> Seq<Seq<u8>> {
    Seq::new(
        ids.len(),
        |i: int| function_body_in(strings, ids[i], code_or_nothing(codes.resolved(ids[i]))),
    )
}

spec fn string_bodies(strings: Seq<Seq<char>>) -> Seq<Seq<u8>> {
    Seq::new(strings.len(), |i: int| utf8(strings[i]))
}

proof fn lemma_samples(times: Times)
    ensures
        samples(times) == message(repeated(2, sample_bodies(times))),
    decreases times.len(),
{
    if times.len() == 0 {
        assert(repeated(2, sample_bodies(times)) =~= Seq::empty());
    } else {
        let rest = times.drop_last();
        let body = sample_body(times.last().0, times.last().1);
        lemma_samples(rest);
        lemma_repeated_push(2, sample_bodies(rest), body);
        assert(sample_bodies(times) =~= sample_bodies(rest).push(body));
        assert(sample(times.last().0, times.last().1) == bytes_field(2, body));
    }
}

proof fn lemma_strings(strings: Seq<Seq<char>>)
    ensures
        string_table(strings) == message(repeated(6, string_bodies(strings))),
    decreases strings.len(),
{
    if strings.len() == 0 {
        assert(repeated(6, string_bodies(strings)) =~= Seq::empty());
    } else {
        let rest = strings.drop_last();
        lemma_strings(rest);
        lemma_repeated_push(6, string_bodies(rest), utf8(strings.last()));
        assert(string_bodies(strings) =~= string_bodies(rest).push(utf8(strings.last())));
    }
}

/// Whether a table holds the names of a code object.
spec fn names_code(strings: Seq<Seq<char>>, code: CodeView) -> bool {
    strings.contains(shown_name(code.qualname)) && strings.contains(code.filename)
}

proof fn lemma_with_string(table: Seq<Seq<char>>, text: Seq<char>, other: Seq<char>)
    requires
        table.no_duplicates(),
    ensures
        with_string(table, text).no_duplicates(),
        with_string(table, text).contains(text),
        table.len() <= with_string(table, text).len() <= table.len() + 1,
        table.len() > 0 ==> with_string(table, text)[0] == table[0],
        table.contains(other) ==> with_string(table, text).contains(other) && with_string(
            table,
            text,
        ).index_of(other) == table.index_of(other),
{
    let all = with_string(table, text);
    if !table.contains(text) {
        assert(all[table.len() as int] == text);
    }
    if table.contains(other) {
        let i = table.index_of(other);
        assert(table[i] == other);
        assert(all[i] == other);
    }
}

proof fn lemma_tables<C: CodeLookup>(ids: Seq<u32>, codes: C)
    ensures
        ({
            let t = Tables {
                strings: first_strings(),
                locations: Seq::empty(),
                functions: Seq::empty(),
            }.with_codes(ids, codes);
            &&& t.strings.no_duplicates()
            &&& 3 <= t.strings.len() <= 3 + 2 * ids.len()
            &&& t.strings[0].len() == 0
            &&& forall|i: int|
                0 <= i < ids.len() ==> names_code(
                    t.strings,
                    code_or_nothing(codes.resolved(#[trigger] ids[i])),
                )
            &&& t.locations == message(repeated(4, location_bodies(ids, codes)))
            &&& t.functions == message(repeated(5, function_bodies(t.strings, ids, codes)))
        }),
    decreases ids.len(),
{
    let start = Tables {
        strings: first_strings(),
        locations: Seq::empty(),
        functions: Seq::empty(),
    };
    let t = start.with_codes(ids, codes);
    if ids.len() == 0 {
        reveal_strlit("");
        reveal_strlit("wall");
        reveal_strlit("nanoseconds");
        assert(""@.len() == 0 && "wall"@.len() == 4 && "nanoseconds"@.len() == 11);
        assert(repeated(4, location_bodies(ids, codes)) =~= Seq::empty());
        assert(repeated(5, function_bodies(t.strings, ids, codes)) =~= Seq::empty());
    } else {
        let rest = ids.drop_last();
        let id = ids.last();
        let code = code_or_nothing(codes.resolved(id));
        let before = start.with_codes(rest, codes);
        let name = shown_name(code.qualname);
        let named = with_string(before.strings, name);
        lemma_tables(rest, codes);
        lemma_with_string(before.strings, name, name);
        lemma_with_string(named, code.filename, name);
        assert forall|i: int| 0 <= i < ids.len() implies names_code(
            t.strings,
            code_or_nothing(codes.resolved(#[trigger] ids[i])),
        ) by {
            if i < rest.len() {
                assert(rest[i] == ids[i]);
                lemma_names_stay(
                    before.strings,
                    name,
                    code.filename,
                    code_or_nothing(codes.resolved(ids[i])),
                );
            }
        }
        let old_bodies = function_bodies(before.strings, rest, codes);
        assert(old_bodies =~= function_bodies(t.strings, rest, codes)) by {
            assert forall|i: int| 0 <= i < rest.len() implies old_bodies[i]
                == #[trigger] function_bodies(t.strings, rest, codes)[i] by {
                assert(names_code(before.strings, code_or_nothing(codes.resolved(rest[i]))));
                lemma_names_stay(
                    before.strings,
                    name,
                    code.filename,
                    code_or_nothing(codes.resolved(rest[i])),
                );
            }
        }
        let function_now = function_body_in(t.strings, id, code);
        lemma_repeated_push(5, old_bodies, function_now);
        assert(function_bodies(t.strings, ids, codes) =~= old_bodies.push(function_now));
        let location_now = location_body(id, code.firstlineno);
        lemma_repeated_push(4, location_bodies(rest, codes), location_now);
        assert(location_bodies(ids, codes) =~= location_bodies(rest, codes).push(location_now));
        assert(location(id, code.firstlineno) == bytes_field(4, location_now));
        assert(function(
            id,
            named.index_of(name) as u64,
            t.strings.index_of(code.filename) as u64,
            code.firstlineno,
        ) == bytes_field(5, function_now));
    }
}

proof fn lemma_names_stay(
    before: Seq<Seq<char>>,
    name: Seq<char>,
    filename: Seq<char>,
    code: CodeView,
)
    requires
        before.no_duplicates(),
        names_code(before, code),
    ensures
        ({
            let after = with_string(with_string(before, name), filename);
            &&& names_code(after, code)
            &&& after.index_of(shown_name(code.qualname)) == before.index_of(
                shown_name(code.qualname),
            )
            &&& after.index_of(code.filename) == before.index_of(code.filename)
        }),
{
    let named = with_string(before, name);
    lemma_with_string(before, name, shown_name(code.qualname));
    lemma_with_string(before, name, code.filename);
    lemma_with_string(named, filename, shown_name(code.qualname));
    lemma_with_string(named, filename, code.filename);
}

proof fn lemma_few_codes(codes: Seq<u32>, i: int)
    requires
        goes_up(codes),
        0 <= i < codes.len(),
    ensures
        codes[i] >= i,
    decreases i,
{
    if i > 0 {
        lemma_few_codes(codes, i - 1);
        assert(codes[i - 1] < codes[i]);
    }
}

proof fn lemma_all_strings<C: CodeLookup>(times: Times, codes: C, dropped: u64)
    ensures
        ({
            let some = code_strings(times, codes);
            let all = all_strings(times, codes, dropped);
            let used = used_codes(times);
            &&& all.no_duplicates()
            &&& 3 <= all.len() <= u64::MAX
            &&& all[0].len() == 0
            &&& dropped != 0 ==> all.contains(dropped_text(dropped))
            &&& forall|i: int|
                0 <= i < used.len() ==> names_code(
                    all,
                    code_or_nothing(codes.resolved(#[trigger] used[i])),
                )
            &&& function_bodies(all, used, codes) == function_bodies(some, used, codes)
        }),
{
    let some = code_strings(times, codes);
    let all = all_strings(times, codes, dropped);
    let used = used_codes(times);
    lemma_tables(used, codes);
    lemma_codes_go_up(times);
    assert(used.len() <= 0x1_0000_0000) by {
        if used.len() > 0 {
            lemma_few_codes(used, used.len() - 1);
        }
    }
    if dropped != 0 {
        let text = dropped_text(dropped);
        lemma_with_string(some, text, text);
        assert forall|i: int| 0 <= i < used.len() implies names_code(
            all,
            code_or_nothing(codes.resolved(#[trigger] used[i])),
        ) && function_bodies(all, used, codes)[i] == function_bodies(some, used, codes)[i] by {
            let code = code_or_nothing(codes.resolved(used[i]));
            assert(names_code(some, code));
            lemma_with_string(some, text, shown_name(code.qualname));
            lemma_with_string(some, text, code.filename);
        }
        assert(function_bodies(all, used, codes) =~= function_bodies(some, used, codes));
    }
}

/// The fields of a profile.
spec fn profile_fields<C: CodeLookup>(times: Times, codes: C, dropped: u64) -> Seq<Field> {
    let used = used_codes(times);
    let strings = all_strings(times, codes, dropped);
    bytes_part(1, number_field(1, 1) + number_field(2, 2)) + repeated(2, sample_bodies(times))
        + repeated(4, location_bodies(used, codes)) + repeated(
        5,
        function_bodies(strings, used, codes),
    ) + repeated(6, string_bodies(strings)) + packed_part(
        13,
        comment_numbers(strings, dropped),
    )
}

spec fn comment_numbers(strings: Seq<Seq<char>>, dropped: u64) -> Seq<u64> {
    if dropped == 0 {
        Seq::empty()
    } else {
        seq![strings.index_of(dropped_text(dropped)) as u64]
    }
}

proof fn lemma_profile_is_a_message<C: CodeLookup>(times: Times, codes: C, dropped: u64)
    ensures
        profile(times, codes, dropped) == message(profile_fields(times, codes, dropped)),
{
    let used = used_codes(times);
    let strings = all_strings(times, codes, dropped);
    let kinds = number_field(1, 1) + number_field(2, 2);
    let p1 = bytes_part(1, kinds);
    let p2 = p1 + repeated(2, sample_bodies(times));
    let p3 = p2 + repeated(4, location_bodies(used, codes));
    let p4 = p3 + repeated(5, function_bodies(strings, used, codes));
    let p5 = p4 + repeated(6, string_bodies(strings));
    let comments = comment_numbers(strings, dropped);
    lemma_parts(1, 0, kinds, Seq::empty());
    messages_concatenate(p1, repeated(2, sample_bodies(times)));
    messages_concatenate(p2, repeated(4, location_bodies(used, codes)));
    messages_concatenate(p3, repeated(5, function_bodies(strings, used, codes)));
    messages_concatenate(p4, repeated(6, string_bodies(strings)));
    messages_concatenate(p5, packed_part(13, comments));
    lemma_parts(13, 0, Seq::empty(), comments);
    lemma_samples(times);
    lemma_tables(used, codes);
    lemma_all_strings(times, codes, dropped);
    lemma_strings(strings);
}

proof fn lemma_profile_bodies<C: CodeLookup>(times: Times, codes: C, dropped: u64)
    ensures
        ({
            let fields = profile_fields(times, codes, dropped);
            let used = used_codes(times);
            let strings = all_strings(times, codes, dropped);
            &&& bodies_in(fields, 1) == seq![number_field(1, 1) + number_field(2, 2)]
            &&& bodies_in(fields, 2) == sample_bodies(times)
            &&& bodies_in(fields, 4) == location_bodies(used, codes)
            &&& bodies_in(fields, 5) == function_bodies(strings, used, codes)
            &&& bodies_in(fields, 6) == string_bodies(strings)
            &&& numbers_in(fields, 13) == Some(as_numbers(comment_numbers(strings, dropped)))
        }),
{
    let used = used_codes(times);
    let strings = all_strings(times, codes, dropped);
    let kinds = number_field(1, 1) + number_field(2, 2);
    let none = Seq::<Field>::empty();
    let p1 = bytes_part(1, kinds);
    let p2 = p1 + repeated(2, sample_bodies(times));
    let p3 = p2 + repeated(4, location_bodies(used, codes));
    let p4 = p3 + repeated(5, function_bodies(strings, used, codes));
    let p5 = p4 + repeated(6, string_bodies(strings));
    let comments = comment_numbers(strings, dropped);
    let fields = p5 + packed_part(13, comments);
    assert(none + p1 =~= p1);
    assert forall|tag: nat| #[trigger] bodies_in(p5, tag) == (if tag == 1 {
        seq![kinds]
    } else if tag == 2 {
        sample_bodies(times)
    } else if tag == 4 {
        location_bodies(used, codes)
    } else if tag == 5 {
        function_bodies(strings, used, codes)
    } else if tag == 6 {
        string_bodies(strings)
    } else {
        Seq::empty()
    }) by {
        lemma_bytes_part(none, 1, kinds, tag);
        lemma_bodies_add(p1, repeated(2, sample_bodies(times)), tag);
        lemma_bodies_add(p2, repeated(4, location_bodies(used, codes)), tag);
        lemma_bodies_add(p3, repeated(5, function_bodies(strings, used, codes)), tag);
        lemma_bodies_add(p4, repeated(6, string_bodies(strings)), tag);
        lemma_repeated(2, sample_bodies(times), tag);
        lemma_repeated(4, location_bodies(used, codes), tag);
        lemma_repeated(5, function_bodies(strings, used, codes), tag);
        lemma_repeated(6, string_bodies(strings), tag);
        assert(bodies_in(p5, tag) =~= (if tag == 1 {
            seq![kinds]
        } else if tag == 2 {
            sample_bodies(times)
        } else if tag == 4 {
            location_bodies(used, codes)
        } else if tag == 5 {
            function_bodies(strings, used, codes)
        } else if tag == 6 {
            string_bodies(strings)
        } else {
            Seq::empty()
        }));
    }
    assert forall|tag: nat| tag != 13 implies #[trigger] bodies_in(fields, tag) == bodies_in(
        p5,
        tag,
    ) by {
        if comments.len() > 0 {
            lemma_bytes_part(p5, 13, crate::wire::varints(comments), tag);
        } else {
            assert(fields =~= p5);
        }
    }
    assert(bodies_in(p5, 13).len() == 0);
    lemma_packed_part(p5, 13, comments, 13);
}

/// A profile reads back as what it is to say.
pub proof fn profiles_read_back<C: CodeLookup>(times: Times, codes: C, dropped: u64)
    ensures
        read_profile(profile(times, codes, dropped)) == Some(said(times, codes, dropped)),
{
    let used = used_codes(times);
    let strings = all_strings(times, codes, dropped);
    let fields = profile_fields(times, codes, dropped);
    let wanted = said(times, codes, dropped);
    lemma_profile_is_a_message(times, codes, dropped);
    messages_read_back(fields);
    lemma_profile_bodies(times, codes, dropped);
    lemma_all_strings(times, codes, dropped);
    lemma_pair_reads_back(1, 2);
    lemma_each_read(bodies_in(fields, 1), pair_reader(), wanted.kinds);
    assert forall|i: int| 0 <= i < times.len() implies sample_reader()(
        #[trigger] sample_bodies(times)[i],
    ) == Some(wanted.samples[i]) by {
        lemma_sample_reads_back(times[i].0, times[i].1);
    }
    lemma_each_read(bodies_in(fields, 2), sample_reader(), wanted.samples);
    assert forall|i: int| 0 <= i < used.len() implies location_reader()(
        #[trigger] location_bodies(used, codes)[i],
    ) == Some(wanted.locations[i]) by {
        lemma_location_reads_back(used[i], code_or_nothing(codes.resolved(used[i])));
    }
    lemma_each_read(bodies_in(fields, 4), location_reader(), wanted.locations);
    assert forall|i: int| 0 <= i < used.len() implies function_reader()(
        #[trigger] function_bodies(strings, used, codes)[i],
    ) == Some(wanted.functions[i]) by {
        let code = code_or_nothing(codes.resolved(used[i]));
        assert(names_code(strings, code));
        lemma_function_reads_back(
            used[i],
            strings.index_of(shown_name(code.qualname)) as u64,
            strings.index_of(code.filename) as u64,
            code.firstlineno,
        );
    }
    lemma_each_read(bodies_in(fields, 5), function_reader(), wanted.functions);
    assert(string_bodies(strings) =~= wanted.strings);
    assert(as_numbers(comment_numbers(strings, dropped)) =~= wanted.comments);
}

/// Whether a profile refers to nothing but what it holds, and says everything once:
/// its first string is the empty one, no string is there twice, names and comments
/// are among the strings, functions and locations have numbers of their own other
/// than zero, every line is of a function that is there, every sample is of locations
/// that are there and has a value of each kind, and no two samples are of one stack. There is a comment where
/// events were lost, and none otherwise.
pub open spec fn is_sound(p: ProfileRead, dropped: u64) -> bool {
    let n = p.strings.len();
    &&& n > 0
    &&& p.strings[0].len() == 0
    &&& p.strings.no_duplicates()
    &&& forall|i: int| 0 <= i < p.kinds.len() ==> (#[trigger] p.kinds[i]).0 < n && p.kinds[i].1 < n
    &&& forall|i: int|
        0 <= i < p.functions.len() ==> {
            let f = #[trigger] p.functions[i];
            f.id != 0 && f.name < n && f.system_name < n && f.filename < n
        }
    &&& forall|i: int, j: int|
        0 <= i < j < p.functions.len() ==> (#[trigger] p.functions[i]).id != (
        #[trigger] p.functions[j]).id
    &&& forall|i: int| 0 <= i < p.locations.len() ==> (#[trigger] p.locations[i]).id != 0
    &&& forall|i: int, j: int|
        0 <= i < j < p.locations.len() ==> (#[trigger] p.locations[i]).id != (
        #[trigger] p.locations[j]).id
    &&& forall|i: int, j: int|
        0 <= i < p.locations.len() && 0 <= j < p.locations[i].lines.len() ==> has_function(
            p,
            (#[trigger] p.locations[i].lines[j]).0,
        )
    &&& forall|i: int, j: int|
        0 <= i < p.samples.len() && 0 <= j < p.samples[i].locations.len() ==> has_location(
            p,
            #[trigger] p.samples[i].locations[j],
        )
    &&& forall|i: int|
        0 <= i < p.samples.len() ==> (#[trigger] p.samples[i]).values.len() == p.kinds.len()
    &&& forall|i: int, j: int|
        0 <= i < j < p.samples.len() ==> (#[trigger] p.samples[i]).locations != (
        #[trigger] p.samples[j]).locations
    &&& p.comments.len() == 0 <==> dropped == 0
    &&& forall|i: int| 0 <= i < p.comments.len() ==> #[trigger] p.comments[i] < n
}

/// Whether a profile has a function with a number.
pub open spec fn has_function(p: ProfileRead, id: nat) -> bool {
    exists|i: int| 0 <= i < p.functions.len() && (#[trigger] p.functions[i]).id == id
}

/// Whether a profile has a location with a number.
pub open spec fn has_location(p: ProfileRead, id: nat) -> bool {
    exists|i: int| 0 <= i < p.locations.len() && (#[trigger] p.locations[i]).id == id
}

proof fn lemma_leaf_first_differs(a: Seq<u32>, b: Seq<u32>)
    requires
        a != b,
    ensures
        as_numbers(leaf_first(a)) != as_numbers(leaf_first(b)),
{
    let x = as_numbers(leaf_first(a));
    let y = as_numbers(leaf_first(b));
    if x == y {
        assert(x.len() == a.len() && y.len() == b.len());
        assert forall|i: int| 0 <= i < a.len() implies a[i] == b[i] by {
            let k = a.len() - 1 - i;
            assert(x[k] == location_number(a[i]));
            assert(y[k] == location_number(b[i]));
        }
        assert(a =~= b);
    }
}

proof fn lemma_said_strings_are_sound<C: CodeLookup>(times: Times, codes: C, dropped: u64)
    ensures
        ({
            let p = said(times, codes, dropped);
            &&& p.strings.len() >= 3
            &&& p.strings[0].len() == 0
            &&& p.strings.no_duplicates()
        }),
{
    let strings = all_strings(times, codes, dropped);
    let p = said(times, codes, dropped);
    lemma_all_strings(times, codes, dropped);
    assert forall|i: int, j: int| 0 <= i < p.strings.len() && 0 <= j < p.strings.len() && i
        != j implies p.strings[i] != p.strings[j] by {
        assert(strings[i] != strings[j]);
        vstd::utf8::encode_utf8_decode_utf8(strings[i]);
        vstd::utf8::encode_utf8_decode_utf8(strings[j]);
    }
    assert(strings[0] =~= Seq::empty());
    assert(utf8(Seq::empty()) =~= Seq::empty());
}

/// What a profile says is sound, whatever time was spent in which stacks.
pub proof fn what_a_profile_says_is_sound<C: CodeLookup>(times: Times, codes: C, dropped: u64)
    requires
        in_order(times),
    ensures
        is_sound(said(times, codes, dropped), dropped),
{
    let p = said(times, codes, dropped);
    let used = used_codes(times);
    let strings = all_strings(times, codes, dropped);
    lemma_said_strings_are_sound(times, codes, dropped);
    lemma_all_strings(times, codes, dropped);
    lemma_codes_go_up(times);
    assert forall|i: int| 0 <= i < p.functions.len() implies {
        let f = #[trigger] p.functions[i];
        f.id != 0 && f.name < strings.len() && f.system_name < strings.len() && f.filename
            < strings.len()
    } by {
        assert(names_code(strings, code_or_nothing(codes.resolved(used[i]))));
    }
    assert forall|i: int, j: int| 0 <= i < j < p.functions.len() implies (
    #[trigger] p.functions[i]).id != (#[trigger] p.functions[j]).id by {
        assert(used[i] < used[j]);
    }
    assert forall|i: int, j: int| 0 <= i < j < p.locations.len() implies (
    #[trigger] p.locations[i]).id != (#[trigger] p.locations[j]).id by {
        assert(used[i] < used[j]);
    }
    assert forall|i: int, j: int|
        0 <= i < p.locations.len() && 0 <= j < p.locations[i].lines.len() implies has_function(
        p,
        (#[trigger] p.locations[i].lines[j]).0,
    ) by {
        assert(p.functions[i].id == p.locations[i].lines[j].0);
    }
    assert forall|i: int, j: int|
        0 <= i < p.samples.len() && 0 <= j < p.samples[i].locations.len() implies has_location(
        p,
        #[trigger] p.samples[i].locations[j],
    ) by {
        let stack = times[i].0;
        let k = stack.len() - 1 - j;
        samples_refer_to_what_is_there(times, i, k);
        let at = used.index_of(stack[k]);
        assert(used[at] == stack[k]);
        assert(p.locations[at].id == p.samples[i].locations[j]);
    }
    assert forall|i: int, j: int| 0 <= i < j < p.samples.len() implies (
    #[trigger] p.samples[i]).locations != (#[trigger] p.samples[j]).locations by {
        assert(comes_before(times[i].0, times[j].0));
        lemma_total(times[i].0, times[j].0);
        lemma_leaf_first_differs(times[i].0, times[j].0);
    }
}

/// A reader of the profile of any events, whatever was known of their code and however
/// many were lost, finds a sound profile that says what is to be said.
pub proof fn any_profile_is_sound<C: CodeLookup>(events: Seq<Event>, codes: C, dropped: u64)
    ensures
        ({
            let times = Folded { folds: Map::empty(), times: Seq::empty() }.with_events(
                events,
            ).times;
            &&& read_profile(profile(times, codes, dropped)) == Some(said(times, codes, dropped))
            &&& is_sound(said(times, codes, dropped), dropped)
        }),
{
    let start = Folded { folds: Map::empty(), times: Seq::empty() };
    stacks_stay_in_order(start, events);
    profiles_read_back(start.with_events(events).times, codes, dropped);
    what_a_profile_says_is_sound(start.with_events(events).times, codes, dropped);
}

/// What is known of a code object, in the words of a profile: one without a name, or of
/// which nothing is known, goes by a name that says so.
pub open spec fn goes_by(code: Option<CodeView>, name: Seq<u8>, filename: Seq<u8>, line: nat) -> bool {
    match code {
        Some(c) => {
            &&& c.qualname.len() > 0 ==> name == utf8(c.qualname)
            &&& c.qualname.len() == 0 ==> name == utf8("<unknown>"@)
            &&& filename == utf8(c.filename)
            &&& line == c.firstlineno
        },
        None => name == utf8("<unknown>"@) && filename.len() == 0 && line == 0,
    }
}

/// A reader finds one sample for each stack that time was spent in, with that time, and
/// its frames from the innermost to the outermost.
pub proof fn a_reader_finds_the_time_of_each_stack<C: CodeLookup>(
    times: Times,
    codes: C,
    dropped: u64,
    i: int,
)
    requires
        0 <= i < times.len(),
    ensures
        read_profile(profile(times, codes, dropped)) matches Some(p) && {
            &&& p.samples.len() == times.len()
            &&& p.samples[i].values.len() == 1
            &&& p.samples[i].values[0] == times[i].1
            &&& p.samples[i].locations.len() == times[i].0.len()
            &&& forall|j: int|
                0 <= j < times[i].0.len() ==> (#[trigger] p.samples[i].locations[j])
                    == times[i].0[times[i].0.len() - 1 - j] + 1
        },
{
    profiles_read_back(times, codes, dropped);
}

/// Whether a profile says, for a frame, what the code object goes by.
pub open spec fn names_frame(
    p: ProfileRead,
    id: u32,
    code: Option<CodeView>,
    l: int,
    g: int,
) -> bool {
    &&& 0 <= l < p.locations.len()
    &&& 0 <= g < p.functions.len()
    &&& p.locations[l].id == id + 1
    &&& p.locations[l].lines.len() == 1
    &&& p.locations[l].lines[0].0 == p.functions[g].id
    &&& p.functions[g].name < p.strings.len()
    &&& p.functions[g].filename < p.strings.len()
    &&& p.functions[g].system_name == p.functions[g].name
    &&& p.locations[l].lines[0].1 == p.functions[g].start_line
    &&& goes_by(
        code,
        p.strings[p.functions[g].name as int],
        p.strings[p.functions[g].filename as int],
        p.functions[g].start_line,
    )
}

/// A reader finds out of each frame of each sample what the code object is called, in
/// which file it is and on which line it starts.
pub proof fn a_reader_finds_what_each_frame_is_called<C: CodeLookup>(
    times: Times,
    codes: C,
    dropped: u64,
    i: int,
    j: int,
)
    requires
        0 <= i < times.len(),
        0 <= j < times[i].0.len(),
    ensures
        read_profile(profile(times, codes, dropped)) is Some,
        exists|l: int, g: int| #[trigger]
            names_frame(
                read_profile(profile(times, codes, dropped))->0,
                times[i].0[j],
                codes.resolved(times[i].0[j]),
                l,
                g,
            ),
{
    let p = said(times, codes, dropped);
    let used = used_codes(times);
    let strings = all_strings(times, codes, dropped);
    let id = times[i].0[j];
    let code = code_or_nothing(codes.resolved(id));
    profiles_read_back(times, codes, dropped);
    samples_refer_to_what_is_there(times, i, j);
    lemma_all_strings(times, codes, dropped);
    let at = used.index_of(id);
    assert(used[at] == id);
    assert(names_code(strings, code));
    let a = strings.index_of(shown_name(code.qualname));
    let b = strings.index_of(code.filename);
    assert(p.strings[a] == utf8(shown_name(code.qualname)));
    assert(p.strings[b] == utf8(code.filename));
    assert(utf8(Seq::empty()) =~= Seq::empty());
    assert(names_frame(p, id, codes.resolved(id), at, at));
    let found = read_profile(profile(times, codes, dropped))->0;
    assert(found == p);
    assert(names_frame(found, times[i].0[j], codes.resolved(times[i].0[j]), at, at));
}

/// A reader finds that wall time was measured, in nanoseconds, and where events were lost
/// how many.
pub proof fn a_reader_finds_what_was_measured<C: CodeLookup>(
    times: Times,
    codes: C,
    dropped: u64,
)
    ensures
        read_profile(profile(times, codes, dropped)) matches Some(p) && {
            &&& p.kinds.len() == 1
            &&& p.kinds[0].0 < p.strings.len() && p.strings[p.kinds[0].0 as int] == utf8("wall"@)
            &&& p.kinds[0].1 < p.strings.len() && p.strings[p.kinds[0].1 as int] == utf8(
                "nanoseconds"@,
            )
            &&& dropped > 0 ==> {
                &&& p.comments.len() == 1
                &&& p.comments[0] < p.strings.len()
                &&& p.strings[p.comments[0] as int] == utf8(
                    "trace0: "@ + digit_chars(dropped as nat) + " events dropped"@,
                )
            }
        },
{
    let strings = all_strings(times, codes, dropped);
    profiles_read_back(times, codes, dropped);
    lemma_all_strings(times, codes, dropped);
    lemma_first_strings_stay(used_codes(times), codes);
    let some = code_strings(times, codes);
    if dropped > 0 {
        lemma_tables(used_codes(times), codes);
        lemma_with_string(some, dropped_text(dropped), dropped_text(dropped));
    }
    assert(strings[1] == "wall"@ && strings[2] == "nanoseconds"@);
}

proof fn lemma_first_strings_stay<C: CodeLookup>(ids: Seq<u32>, codes: C)
    ensures
        ({
            let t = Tables {
                strings: first_strings(),
                locations: Seq::empty(),
                functions: Seq::empty(),
            }.with_codes(ids, codes);
            &&& t.strings.len() >= 3
            &&& t.strings[1] == "wall"@
            &&& t.strings[2] == "nanoseconds"@
        }),
    decreases ids.len(),
{
    if ids.len() > 0 {
        lemma_first_strings_stay(ids.drop_last(), codes);
    }
}

} // verus!
