//! What a reader finds in a JSON trace.

use crate::event::{code_of_word, kind_of_word, kind_word, opens, Event};
use crate::json::{
    dropped_entry, entry, escaped, escaped_all, learned, lemma_escaped_first, micros, phase_byte,
    quoted, read_back, shown_name, strings_read_back, thread_entries, thread_entry, JsonExporter,
    JsonView,
};
use crate::packets::{all_events, Given};
use crate::sink::{listing, lists, CodeLookup, CodeView, ThreadNames};
use crate::text::{digits, digits_read_back, number, utf8};
use vstd::prelude::*;

verus! {

/// What stands in a trace: a text, a number as it is spelled, or an object with its
/// members.
pub enum Json {
    Text(Seq<u8>),
    Number(Seq<u8>),
    Object(Seq<(Seq<u8>, Json)>),
}

/// Whether a byte is a decimal digit.
pub open spec fn is_digit(b: u8) -> bool {
    48 <= b <= 57
}

/// How many digits some bytes start with.
pub open spec fn digit_run(bytes: Seq<u8>) -> nat
    decreases bytes.len(),
{
    if bytes.len() == 0 || !is_digit(bytes[0]) {
        0
    } else {
        1 + digit_run(bytes.skip(1))
    }
}

/// How many bytes the number takes that some bytes start with, and none where they
/// start with none: digits, of which the first is zero only where it is the only one,
/// and perhaps a point and more digits.
pub open spec fn number_len(bytes: Seq<u8>) -> nat {
    let n = digit_run(bytes);
    let more = digit_run(bytes.skip(n as int + 1));
    if n > 1 && bytes[0] == 48 {
        0
    } else if 0 < n < bytes.len() && bytes[n as int] == 0x2e && more > 0 {
        n + 1 + more
    } else {
        n
    }
}

/// Whether a byte is a hexadecimal digit, as they are written.
pub open spec fn is_hex(b: u8) -> bool {
    is_digit(b) || 97 <= b <= 102
}

/// Whether a byte stands behind a backslash for one character.
pub open spec fn is_short_escape(b: u8) -> bool {
    b == 0x22 || b == 0x5c || b == 0x62 || b == 0x74 || b == 0x6e || b == 0x66 || b == 0x72
}

/// How far it is to the quote that ends a text. It is no quote where a backslash stands
/// before it.
pub open spec fn text_len(s: Seq<u8>) -> Option<nat>
    decreases s.len(),
{
    if s.len() == 0 {
        None
    } else if s[0] == 0x22 {
        Some(0)
    } else {
        let step: int = if s[0] != 0x5c && s[0] >= 0x20 {
            1
        } else if s[0] == 0x5c && s.len() >= 6 && s[1] == 0x75 && s[2] == 0x30 && s[3] == 0x30
            && is_hex(s[4]) && is_hex(s[5]) {
            6
        } else if s[0] == 0x5c && s.len() >= 2 && is_short_escape(s[1]) {
            2
        } else {
            0
        };
        if step == 0 {
            None
        } else {
            match text_len(s.skip(step)) {
                None => None,
                Some(n) => Some((step + n) as nat),
            }
        }
    }
}

/// The text that some bytes start with, and how many bytes it takes.
pub open spec fn read_text(bytes: Seq<u8>) -> Option<(Seq<u8>, nat)> {
    if bytes.len() == 0 || bytes[0] != 0x22 {
        None
    } else {
        match text_len(bytes.skip(1)) {
            None => None,
            Some(n) => Some((read_back(bytes.subrange(1, 1 + n as int)), n + 2)),
        }
    }
}

/// What some bytes start with, and how many bytes it takes.
pub open spec fn read_json(bytes: Seq<u8>) -> Option<(Json, nat)>
    decreases bytes.len(),
{
    if bytes.len() == 0 {
        None
    } else if bytes[0] == 0x22 {
        match read_text(bytes) {
            None => None,
            Some((text, n)) => Some((Json::Text(text), n)),
        }
    } else if bytes[0] == 0x7b {
        match read_members(bytes.skip(1)) {
            None => None,
            Some((members, n)) => Some((Json::Object(members), n + 1)),
        }
    } else if number_len(bytes) > 0 {
        Some((Json::Number(bytes.take(number_len(bytes) as int)), number_len(bytes)))
    } else {
        None
    }
}

/// The members of an object up to the brace that ends it, and how many bytes they take
/// with it.
pub open spec fn read_members(bytes: Seq<u8>) -> Option<(Seq<(Seq<u8>, Json)>, nat)>
    decreases bytes.len(),
{
    match read_text(bytes) {
        None => None,
        Some((name, k)) => if k >= bytes.len() || bytes[k as int] != 0x3a {
            None
        } else {
            match read_json(bytes.skip(k as int + 1)) {
                None => None,
                Some((value, n)) => {
                    let at = (k + 1 + n) as nat;
                    if at >= bytes.len() {
                        None
                    } else if bytes[at as int] == 0x7d {
                        Some((seq![(name, value)], at + 1))
                    } else if bytes[at as int] == 0x2c {
                        match read_members(bytes.skip(at as int + 1)) {
                            None => None,
                            Some((rest, m)) => Some((seq![(name, value)] + rest, at + 1 + m)),
                        }
                    } else {
                        None
                    }
                },
            }
        },
    }
}

/// The entries of a trace, where the bytes are a run of objects, each with a comma
/// behind it.
pub open spec fn read_entries(bytes: Seq<u8>) -> Option<Seq<Json>>
    decreases bytes.len(),
{
    if bytes.len() == 0 {
        Some(Seq::empty())
    } else {
        match read_json(bytes) {
            None => None,
            Some((value, n)) => if !(value is Object) || n >= bytes.len() || bytes[n as int]
                != 0x2c {
                None
            } else {
                match read_entries(bytes.skip(n as int + 1)) {
                    None => None,
                    Some(rest) => Some(seq![value] + rest),
                }
            },
        }
    }
}

/// What stands in a trace, as it is written.
pub open spec fn written(v: Json) -> Seq<u8>
    decreases v,
{
    match v {
        Json::Text(text) => quoted(text),
        Json::Number(text) => text,
        Json::Object(members) => seq![0x7bu8] + written_members(members) + seq![0x7du8],
    }
}

/// Members as they are written, with commas between them.
pub open spec fn written_members(members: Seq<(Seq<u8>, Json)>) -> Seq<u8>
    decreases members,
{
    if members.len() == 0 {
        Seq::empty()
    } else {
        let last = members[members.len() - 1];
        let own = quoted(last.0) + seq![0x3au8] + written(last.1);
        if members.len() == 1 {
            own
        } else {
            written_members(members.drop_last()) + seq![0x2cu8] + own
        }
    }
}

/// Whether numbers are spelled as numbers, and no object is without members.
pub open spec fn is_plain(v: Json) -> bool
    decreases v,
{
    match v {
        Json::Text(text) => true,
        Json::Number(text) => text.len() > 0 && number_len(text) == text.len(),
        Json::Object(members) => members.len() > 0 && all_plain(members),
    }
}

/// Whether that holds of all values of some members.
pub open spec fn all_plain(members: Seq<(Seq<u8>, Json)>) -> bool
    decreases members,
{
    members.len() > 0 ==> {
        let last = members[members.len() - 1];
        is_plain(last.1) && all_plain(members.drop_last())
    }
}

/// Whether bytes do not go on with a number that stood before them.
pub open spec fn ends_number(rest: Seq<u8>) -> bool {
    rest.len() > 0 ==> !is_digit(rest[0]) && rest[0] != 0x2e
}

proof fn lemma_run(a: Seq<u8>, b: Seq<u8>)
    requires
        b.len() > 0 ==> !is_digit(b[0]),
    ensures
        digit_run(a + b) == digit_run(a),
        digit_run(a) <= a.len(),
    decreases a.len(),
{
    if a.len() == 0 {
        assert(a + b =~= b);
    } else {
        lemma_run(a.skip(1), b);
        assert((a + b).skip(1) =~= a.skip(1) + b);
    }
}

proof fn lemma_number_ends(text: Seq<u8>, rest: Seq<u8>)
    requires
        text.len() > 0,
        number_len(text) == text.len(),
        ends_number(rest),
    ensures
        number_len(text + rest) == text.len(),
        is_digit(text[0]),
{
    let n = digit_run(text);
    lemma_run(text, rest);
    if n < text.len() {
        lemma_run(text.skip(n as int + 1), rest);
        assert((text + rest).skip(n as int + 1) =~= text.skip(n as int + 1) + rest);
    } else if rest.len() > 0 {
        assert((text + rest)[n as int] == rest[0]);
    }
}

proof fn lemma_text_len(text: Seq<u8>, rest: Seq<u8>)
    ensures
        text_len(escaped_all(text) + seq![0x22u8] + rest) == Some(escaped_all(text).len()),
    decreases text.len(),
{
    let all = escaped_all(text) + seq![0x22u8] + rest;
    if text.len() == 0 {
        assert(all[0] == 0x22);
    } else {
        let own = escaped(text[0]);
        let later = escaped_all(text.skip(1)) + seq![0x22u8] + rest;
        lemma_escaped_first(text);
        lemma_text_len(text.skip(1), rest);
        assert(all =~= own + later);
        assert(all.skip(own.len() as int) =~= later);
        assert(forall|i: int| 0 <= i < own.len() ==> all[i] == own[i]);
    }
}

proof fn lemma_text_reads_back(text: Seq<u8>, rest: Seq<u8>)
    ensures
        read_text(quoted(text) + rest) == Some((text, quoted(text).len())),
{
    let all = quoted(text) + rest;
    lemma_text_len(text, rest);
    strings_read_back(text);
    assert(all.skip(1) =~= escaped_all(text) + seq![0x22u8] + rest);
    assert(all.subrange(1, 1 + escaped_all(text).len() as int) =~= escaped_all(text));
}

proof fn lemma_members_first(members: Seq<(Seq<u8>, Json)>)
    requires
        members.len() > 0,
    ensures
        written_members(members) == quoted(members[0].0) + seq![0x3au8] + written(members[0].1) + (
        if members.len() == 1 {
            Seq::empty()
        } else {
            seq![0x2cu8] + written_members(members.skip(1))
        }),
        all_plain(members) == (is_plain(members[0].1) && all_plain(members.skip(1))),
    decreases members.len(),
{
    let own = quoted(members[0].0) + seq![0x3au8] + written(members[0].1);
    let later = members.skip(1);
    if members.len() == 1 {
        assert(own + Seq::<u8>::empty() =~= own);
        assert(members.drop_last() =~= Seq::empty());
        assert(later =~= Seq::empty());
        assert(all_plain(members.drop_last()) && all_plain(later));
    } else {
        let rest = members.drop_last();
        let last = members[members.len() - 1];
        let end = quoted(last.0) + seq![0x3au8] + written(last.1);
        lemma_members_first(rest);
        assert(rest.skip(1) =~= later.drop_last());
        assert(later[later.len() - 1] == last);
        if members.len() == 2 {
            assert(written_members(later) == end);
            assert(written_members(rest) =~= own);
            assert(own + seq![0x2cu8] + end =~= own + (seq![0x2cu8] + end));
            assert(later.drop_last() =~= Seq::empty());
        } else {
            let middle = written_members(later.drop_last());
            assert(written_members(later) == middle + seq![0x2cu8] + end);
            assert(own + (seq![0x2cu8] + middle) + seq![0x2cu8] + end =~= own + (seq![0x2cu8] + (
            middle + seq![0x2cu8] + end)));
        }
    }
}

proof fn lemma_to_the_right(
    a: Seq<u8>,
    b: Seq<u8>,
    c: Seq<u8>,
    d: Seq<u8>,
    e: Seq<u8>,
    f: Seq<u8>,
)
    ensures
        a + b + c + d + e + f == a + (b + (c + (d + e + f))),
{
    assert(a + b + c + d + e + f =~= a + (b + (c + (d + e + f))));
}

proof fn lemma_one_member(key: Seq<u8>, v: Json, value: Seq<u8>, end: Seq<u8>)
    requires
        read_json(value + end) == Some((v, value.len())),
        end.len() > 0,
    ensures
        ({
            let all = quoted(key) + (seq![0x3au8] + (value + end));
            let at = quoted(key).len() + 1 + value.len();
            &&& end[0] == 0x7d ==> read_members(all) == Some((seq![(key, v)], at + 1))
            &&& end[0] == 0x2c && read_members(end.skip(1)) is Some ==> read_members(all) == Some(
                (
                    seq![(key, v)] + (read_members(end.skip(1))->0).0,
                    at + 1 + (read_members(end.skip(1))->0).1,
                ),
            )
        }),
{
    let name = quoted(key);
    let all = name + (seq![0x3au8] + (value + end));
    let at = name.len() + 1 + value.len();
    lemma_text_reads_back(key, seq![0x3au8] + (value + end));
    assert(all[name.len() as int] == 0x3a);
    assert(all.skip(name.len() as int + 1) =~= value + end);
    assert(all[at as int] == end[0]);
    assert(all.skip(at as int + 1) =~= end.skip(1));
}

proof fn lemma_reads_back(v: Json, rest: Seq<u8>)
    requires
        is_plain(v),
        ends_number(rest),
    ensures
        read_json(written(v) + rest) == Some((v, written(v).len())),
    decreases v,
{
    let all = written(v) + rest;
    match v {
        Json::Text(text) => {
            lemma_text_reads_back(text, rest);
            assert(all[0] == 0x22);
        },
        Json::Number(text) => {
            lemma_number_ends(text, rest);
            assert(all[0] == text[0]);
            assert(all.take(text.len() as int) =~= text);
        },
        Json::Object(members) => {
            lemma_members_read_back(members, rest);
            assert(all[0] == 0x7b);
            assert(all.skip(1) =~= written_members(members) + seq![0x7du8] + rest);
        },
    }
}

proof fn lemma_members_read_back(members: Seq<(Seq<u8>, Json)>, rest: Seq<u8>)
    requires
        members.len() > 0,
        all_plain(members),
    ensures
        read_members(written_members(members) + seq![0x7du8] + rest) == Some(
            (members, written_members(members).len() + 1),
        ),
    decreases members,
{
    lemma_members_first(members);
    let end = after_first(members, rest);
    assert(end[0] == 0x7d || end[0] == 0x2c);
    lemma_reads_back(members[0].1, end);
    if members.len() == 1 {
        lemma_last_member(members, rest);
    } else {
        lemma_members_read_back(members.skip(1), rest);
        lemma_more_members(members, rest);
    }
}

/// What stands behind the first of some members, up to the end of what is written.
spec fn after_first(members: Seq<(Seq<u8>, Json)>, rest: Seq<u8>) -> Seq<u8> {
    if members.len() == 1 {
        seq![0x7du8] + rest
    } else {
        seq![0x2cu8] + (written_members(members.skip(1)) + seq![0x7du8] + rest)
    }
}

proof fn lemma_last_member(members: Seq<(Seq<u8>, Json)>, rest: Seq<u8>)
    requires
        members.len() == 1,
        read_json(written(members[0].1) + after_first(members, rest)) == Some(
            (members[0].1, written(members[0].1).len()),
        ),
    ensures
        read_members(written_members(members) + seq![0x7du8] + rest) == Some(
            (members, written_members(members).len() + 1),
        ),
{
    let name = quoted(members[0].0);
    let value = written(members[0].1);
    let close = seq![0x7du8] + rest;
    lemma_members_first(members);
    lemma_one_member(members[0].0, members[0].1, value, close);
    lemma_to_the_right(name, seq![0x3au8], value, Seq::empty(), seq![0x7du8], rest);
    assert(Seq::<u8>::empty() + seq![0x7du8] + rest =~= close);
    assert(members =~= seq![members[0]]);
}

proof fn lemma_more_members(members: Seq<(Seq<u8>, Json)>, rest: Seq<u8>)
    requires
        members.len() > 1,
        read_json(written(members[0].1) + after_first(members, rest)) == Some(
            (members[0].1, written(members[0].1).len()),
        ),
        read_members(written_members(members.skip(1)) + seq![0x7du8] + rest) == Some(
            (members.skip(1), written_members(members.skip(1)).len() + 1),
        ),
    ensures
        read_members(written_members(members) + seq![0x7du8] + rest) == Some(
            (members, written_members(members).len() + 1),
        ),
{
    lemma_members_first(members);
    lemma_more_bytes(
        members[0].0,
        members[0].1,
        written(members[0].1),
        written_members(members.skip(1)),
        members.skip(1),
        rest,
    );
    assert(members =~= seq![members[0]] + members.skip(1));
}

proof fn lemma_more_bytes(
    key: Seq<u8>,
    v: Json,
    value: Seq<u8>,
    more: Seq<u8>,
    later: Seq<(Seq<u8>, Json)>,
    rest: Seq<u8>,
)
    requires
        read_json(value + (seq![0x2cu8] + (more + seq![0x7du8] + rest))) == Some((v, value.len())),
        read_members(more + seq![0x7du8] + rest) == Some((later, more.len() + 1)),
    ensures
        ({
            let all = quoted(key) + seq![0x3au8] + value + (seq![0x2cu8] + more);
            read_members(all + seq![0x7du8] + rest) == Some(
                (seq![(key, v)] + later, all.len() + 1),
            )
        }),
{
    let end = seq![0x2cu8] + (more + seq![0x7du8] + rest);
    lemma_one_member(key, v, value, end);
    assert(end.skip(1) =~= more + seq![0x7du8] + rest);
    lemma_to_the_right(quoted(key), seq![0x3au8], value, seq![0x2cu8] + more, seq![0x7du8], rest);
    assert(seq![0x2cu8] + more + seq![0x7du8] + rest =~= end);
}

/// The comma before a member that is not the first, and the name of the member.
spec fn comma_name(name: Seq<char>) -> Seq<u8> {
    seq![0x2cu8] + quoted(utf8(name)) + seq![0x3au8]
}

proof fn lemma_plain_text(text: Seq<u8>)
    requires
        forall|i: int|
            0 <= i < text.len() ==> #[trigger] text[i] >= 0x20 && text[i] != 0x22 && text[i]
                != 0x5c,
    ensures
        escaped_all(text) == text,
    decreases text.len(),
{
    if text.len() > 0 {
        lemma_plain_text(text.drop_last());
        assert(text[text.len() - 1] >= 0x20);
        assert(text.drop_last() + seq![text.last()] =~= text);
    } else {
        assert(text =~= Seq::empty());
    }
}

proof fn lemma_name_first()
    ensures
        utf8("{\"name\":"@) == seq![0x7bu8] + quoted(utf8("name"@)) + seq![0x3au8],
{
    reveal_strlit("{\"name\":");
    vstd::utf8::is_ascii_chars_encode_utf8("{\"name\":"@);
    reveal_strlit("name");
    vstd::utf8::is_ascii_chars_encode_utf8("name"@);
    lemma_plain_text(utf8("name"@));
    assert(utf8("{\"name\":"@) =~= seq![0x7bu8] + quoted(utf8("name"@)) + seq![0x3au8]);
}

proof fn lemma_args_first_name()
    ensures
        utf8("{\"args\":{\"name\":"@) == seq![0x7bu8] + quoted(utf8("args"@)) + seq![0x3au8] + seq![0x7bu8] + quoted(utf8("name"@)) + seq![0x3au8],
{
    reveal_strlit("{\"args\":{\"name\":");
    vstd::utf8::is_ascii_chars_encode_utf8("{\"args\":{\"name\":"@);
    reveal_strlit("args");
    vstd::utf8::is_ascii_chars_encode_utf8("args"@);
    lemma_plain_text(utf8("args"@));
    reveal_strlit("name");
    vstd::utf8::is_ascii_chars_encode_utf8("name"@);
    lemma_plain_text(utf8("name"@));
    assert(utf8("{\"args\":{\"name\":"@) =~= seq![0x7bu8] + quoted(utf8("args"@)) + seq![0x3au8] + seq![0x7bu8] + quoted(utf8("name"@)) + seq![0x3au8]);
}

proof fn lemma_args_first_count()
    ensures
        utf8("{\"args\":{\"count\":"@) == seq![0x7bu8] + quoted(utf8("args"@)) + seq![0x3au8] + seq![0x7bu8] + quoted(utf8("count"@)) + seq![0x3au8],
{
    reveal_strlit("{\"args\":{\"count\":");
    vstd::utf8::is_ascii_chars_encode_utf8("{\"args\":{\"count\":"@);
    reveal_strlit("args");
    vstd::utf8::is_ascii_chars_encode_utf8("args"@);
    lemma_plain_text(utf8("args"@));
    reveal_strlit("count");
    vstd::utf8::is_ascii_chars_encode_utf8("count"@);
    lemma_plain_text(utf8("count"@));
    assert(utf8("{\"args\":{\"count\":"@) =~= seq![0x7bu8] + quoted(utf8("args"@)) + seq![0x3au8] + seq![0x7bu8] + quoted(utf8("count"@)) + seq![0x3au8]);
}

proof fn lemma_comma_pid()
    ensures
        utf8(",\"pid\":"@) == comma_name("pid"@),
{
    reveal_strlit(",\"pid\":");
    vstd::utf8::is_ascii_chars_encode_utf8(",\"pid\":"@);
    reveal_strlit("pid");
    vstd::utf8::is_ascii_chars_encode_utf8("pid"@);
    lemma_plain_text(utf8("pid"@));
    assert(utf8(",\"pid\":"@) =~= comma_name("pid"@));
}

proof fn lemma_comma_tid()
    ensures
        utf8(",\"tid\":"@) == comma_name("tid"@),
{
    reveal_strlit(",\"tid\":");
    vstd::utf8::is_ascii_chars_encode_utf8(",\"tid\":"@);
    reveal_strlit("tid");
    vstd::utf8::is_ascii_chars_encode_utf8("tid"@);
    lemma_plain_text(utf8("tid"@));
    assert(utf8(",\"tid\":"@) =~= comma_name("tid"@));
}

proof fn lemma_comma_line()
    ensures
        utf8(",\"line\":"@) == comma_name("line"@),
{
    reveal_strlit(",\"line\":");
    vstd::utf8::is_ascii_chars_encode_utf8(",\"line\":"@);
    reveal_strlit("line");
    vstd::utf8::is_ascii_chars_encode_utf8("line"@);
    lemma_plain_text(utf8("line"@));
    assert(utf8(",\"line\":"@) =~= comma_name("line"@));
}

proof fn lemma_comma_kind()
    ensures
        utf8(",\"kind\":\""@) == comma_name("kind"@) + seq![0x22u8],
{
    reveal_strlit(",\"kind\":\"");
    vstd::utf8::is_ascii_chars_encode_utf8(",\"kind\":\""@);
    reveal_strlit("kind");
    vstd::utf8::is_ascii_chars_encode_utf8("kind"@);
    lemma_plain_text(utf8("kind"@));
    assert(utf8(",\"kind\":\""@) =~= comma_name("kind"@) + seq![0x22u8]);
}

proof fn lemma_quote_ts()
    ensures
        utf8("\",\"ts\":"@) == seq![0x22u8] + comma_name("ts"@),
{
    reveal_strlit("\",\"ts\":");
    vstd::utf8::is_ascii_chars_encode_utf8("\",\"ts\":"@);
    reveal_strlit("ts");
    vstd::utf8::is_ascii_chars_encode_utf8("ts"@);
    lemma_plain_text(utf8("ts"@));
    assert(utf8("\",\"ts\":"@) =~= seq![0x22u8] + comma_name("ts"@));
}

proof fn lemma_comma_args()
    ensures
        utf8(",\"args\":{\"file\":"@) == comma_name("args"@) + seq![0x7bu8] + quoted(utf8("file"@)) + seq![0x3au8],
{
    reveal_strlit(",\"args\":{\"file\":");
    vstd::utf8::is_ascii_chars_encode_utf8(",\"args\":{\"file\":"@);
    reveal_strlit("args");
    vstd::utf8::is_ascii_chars_encode_utf8("args"@);
    lemma_plain_text(utf8("args"@));
    reveal_strlit("file");
    vstd::utf8::is_ascii_chars_encode_utf8("file"@);
    lemma_plain_text(utf8("file"@));
    assert(utf8(",\"args\":{\"file\":"@) =~= comma_name("args"@) + seq![0x7bu8] + quoted(utf8("file"@)) + seq![0x3au8]);
}

proof fn lemma_comma_cat()
    ensures
        utf8(",\"cat\":\"py\",\"ph\":\""@) == comma_name("cat"@) + quoted(utf8("py"@)) + comma_name("ph"@) + seq![0x22u8],
{
    reveal_strlit(",\"cat\":\"py\",\"ph\":\"");
    vstd::utf8::is_ascii_chars_encode_utf8(",\"cat\":\"py\",\"ph\":\""@);
    reveal_strlit("cat");
    vstd::utf8::is_ascii_chars_encode_utf8("cat"@);
    lemma_plain_text(utf8("cat"@));
    reveal_strlit("py");
    vstd::utf8::is_ascii_chars_encode_utf8("py"@);
    lemma_plain_text(utf8("py"@));
    reveal_strlit("ph");
    vstd::utf8::is_ascii_chars_encode_utf8("ph"@);
    lemma_plain_text(utf8("ph"@));
    assert(utf8(",\"cat\":\"py\",\"ph\":\""@) =~= comma_name("cat"@) + quoted(utf8("py"@)) + comma_name("ph"@) + seq![0x22u8]);
}

proof fn lemma_entry_end()
    ensures
        utf8("\"}},"@) == seq![0x22u8] + seq![0x7du8] + seq![0x7du8] + seq![0x2cu8],
{
    reveal_strlit("\"}},");
    vstd::utf8::is_ascii_chars_encode_utf8("\"}},"@);

    assert(utf8("\"}},"@) =~= seq![0x22u8] + seq![0x7du8] + seq![0x7du8] + seq![0x2cu8]);
}

proof fn lemma_thread_middle()
    ensures
        utf8("},\"name\":\"thread_name\",\"ph\":\"M\",\"pid\":"@) == seq![0x7du8] + comma_name("name"@) + quoted(utf8("thread_name"@)) + comma_name("ph"@) + quoted(utf8("M"@)) + comma_name("pid"@),
{
    reveal_strlit("},\"name\":\"thread_name\",\"ph\":\"M\",\"pid\":");
    vstd::utf8::is_ascii_chars_encode_utf8("},\"name\":\"thread_name\",\"ph\":\"M\",\"pid\":"@);
    reveal_strlit("name");
    vstd::utf8::is_ascii_chars_encode_utf8("name"@);
    lemma_plain_text(utf8("name"@));
    reveal_strlit("thread_name");
    vstd::utf8::is_ascii_chars_encode_utf8("thread_name"@);
    lemma_plain_text(utf8("thread_name"@));
    reveal_strlit("ph");
    vstd::utf8::is_ascii_chars_encode_utf8("ph"@);
    lemma_plain_text(utf8("ph"@));
    reveal_strlit("M");
    vstd::utf8::is_ascii_chars_encode_utf8("M"@);
    lemma_plain_text(utf8("M"@));
    reveal_strlit("pid");
    vstd::utf8::is_ascii_chars_encode_utf8("pid"@);
    lemma_plain_text(utf8("pid"@));
    assert(utf8("},\"name\":\"thread_name\",\"ph\":\"M\",\"pid\":"@) =~= seq![0x7du8] + comma_name("name"@) + quoted(utf8("thread_name"@)) + comma_name("ph"@) + quoted(utf8("M"@)) + comma_name("pid"@));
}

proof fn lemma_dropped_middle()
    ensures
        utf8("},\"name\":\"trace0_dropped_events\",\"ph\":\"M\",\"pid\":"@) == seq![0x7du8] + comma_name("name"@) + quoted(utf8("trace0_dropped_events"@)) + comma_name("ph"@) + quoted(utf8("M"@)) + comma_name("pid"@),
{
    reveal_strlit("},\"name\":\"trace0_dropped_events\",\"ph\":\"M\",\"pid\":");
    vstd::utf8::is_ascii_chars_encode_utf8("},\"name\":\"trace0_dropped_events\",\"ph\":\"M\",\"pid\":"@);
    reveal_strlit("name");
    vstd::utf8::is_ascii_chars_encode_utf8("name"@);
    lemma_plain_text(utf8("name"@));
    reveal_strlit("trace0_dropped_events");
    vstd::utf8::is_ascii_chars_encode_utf8("trace0_dropped_events"@);
    lemma_plain_text(utf8("trace0_dropped_events"@));
    reveal_strlit("ph");
    vstd::utf8::is_ascii_chars_encode_utf8("ph"@);
    lemma_plain_text(utf8("ph"@));
    reveal_strlit("M");
    vstd::utf8::is_ascii_chars_encode_utf8("M"@);
    lemma_plain_text(utf8("M"@));
    reveal_strlit("pid");
    vstd::utf8::is_ascii_chars_encode_utf8("pid"@);
    lemma_plain_text(utf8("pid"@));
    assert(utf8("},\"name\":\"trace0_dropped_events\",\"ph\":\"M\",\"pid\":"@) =~= seq![0x7du8] + comma_name("name"@) + quoted(utf8("trace0_dropped_events"@)) + comma_name("ph"@) + quoted(utf8("M"@)) + comma_name("pid"@));
}

proof fn lemma_thread_end()
    ensures
        utf8("},"@) == seq![0x7du8] + seq![0x2cu8],
{
    reveal_strlit("},");
    vstd::utf8::is_ascii_chars_encode_utf8("},"@);

    assert(utf8("},"@) =~= seq![0x7du8] + seq![0x2cu8]);
}

proof fn lemma_dropped_end()
    ensures
        utf8(",\"tid\":0},"@) == comma_name("tid"@) + seq![0x30u8] + seq![0x7du8] + seq![0x2cu8],
{
    reveal_strlit(",\"tid\":0},");
    vstd::utf8::is_ascii_chars_encode_utf8(",\"tid\":0},"@);
    reveal_strlit("tid");
    vstd::utf8::is_ascii_chars_encode_utf8("tid"@);
    lemma_plain_text(utf8("tid"@));
    assert(utf8(",\"tid\":0},"@) =~= comma_name("tid"@) + seq![0x30u8] + seq![0x7du8] + seq![0x2cu8]);
}

/// What the entry of an event says.
pub open spec fn event_value(pid: u32, ev: Event, code: CodeView) -> Json {
    let args = seq![(utf8("file"@), Json::Text(utf8(code.filename)))].push(
        (utf8("line"@), Json::Number(digits(code.firstlineno as nat))),
    ).push((utf8("kind"@), Json::Text(utf8(kind_word(kind_of_word(ev.code_kind))))));
    Json::Object(
        seq![(utf8("name"@), Json::Text(utf8(shown_name(code.qualname))))].push(
            (utf8("cat"@), Json::Text(utf8("py"@))),
        ).push((utf8("ph"@), Json::Text(seq![phase_byte(ev)]))).push(
            (utf8("ts"@), Json::Number(micros(ev.ts_ns))),
        ).push((utf8("pid"@), Json::Number(digits(pid as nat)))).push(
            (utf8("tid"@), Json::Number(digits(ev.tid as nat))),
        ).push((utf8("args"@), Json::Object(args))),
    )
}

/// What the entry that names a thread says.
pub open spec fn thread_value(pid: u32, tid: u32, name: Seq<char>) -> Json {
    Json::Object(
        seq![
            (
                utf8("args"@),
                Json::Object(seq![(utf8("name"@), Json::Text(utf8(name)))]),
            ),
        ].push((utf8("name"@), Json::Text(utf8("thread_name"@)))).push(
            (utf8("ph"@), Json::Text(utf8("M"@))),
        ).push((utf8("pid"@), Json::Number(digits(pid as nat)))).push(
            (utf8("tid"@), Json::Number(digits(tid as nat))),
        ),
    )
}

/// What the entry about lost events says.
pub open spec fn dropped_value(pid: u32, dropped: u64) -> Json {
    Json::Object(
        seq![
            (
                utf8("args"@),
                Json::Object(seq![(utf8("count"@), Json::Number(digits(dropped as nat)))]),
            ),
        ].push((utf8("name"@), Json::Text(utf8("trace0_dropped_events"@)))).push(
            (utf8("ph"@), Json::Text(utf8("M"@))),
        ).push((utf8("pid"@), Json::Number(digits(pid as nat)))).push(
            (utf8("tid"@), Json::Number(digits(0))),
        ),
    )
}

proof fn lemma_first(name: Seq<char>, v: Json)
    ensures
        seq![0x7bu8] + quoted(utf8(name)) + seq![0x3au8] + written(v) == seq![0x7bu8]
            + written_members(seq![(utf8(name), v)]),
        all_plain(seq![(utf8(name), v)]) == is_plain(v),
{
    let one = seq![(utf8(name), v)];
    let key = quoted(utf8(name));
    assert(one.drop_last() =~= Seq::empty());
    assert(all_plain(one.drop_last()));
    assert(written_members(one) == key + seq![0x3au8] + written(v));
    lemma_shift(seq![0x7bu8], key, seq![0x3au8], written(v));
}

proof fn lemma_shift(a: Seq<u8>, b: Seq<u8>, c: Seq<u8>, d: Seq<u8>)
    ensures
        a + b + c + d == a + (b + c + d),
{
    assert(a + b + c + d =~= a + (b + c + d));
}

proof fn lemma_next(t: Seq<u8>, members: Seq<(Seq<u8>, Json)>, name: Seq<char>, v: Json)
    requires
        members.len() > 0,
        t == seq![0x7bu8] + written_members(members),
    ensures
        t + comma_name(name) + written(v) == seq![0x7bu8] + written_members(
            members.push((utf8(name), v)),
        ),
        all_plain(members.push((utf8(name), v))) == (all_plain(members) && is_plain(v)),
{
    let all = members.push((utf8(name), v));
    let key = quoted(utf8(name));
    assert(all.drop_last() =~= members);
    assert(written_members(all) == written_members(members) + seq![0x2cu8] + (key + seq![0x3au8]
        + written(v)));
    lemma_next_bytes(
        seq![0x7bu8],
        written_members(members),
        seq![0x2cu8],
        key,
        seq![0x3au8],
        written(v),
    );
}

proof fn lemma_next_bytes(
    o: Seq<u8>,
    m: Seq<u8>,
    c: Seq<u8>,
    k: Seq<u8>,
    d: Seq<u8>,
    v: Seq<u8>,
)
    ensures
        (o + m) + (c + k + d) + v == o + (m + c + (k + d + v)),
{
    assert((o + m) + (c + k + d) + v =~= o + (m + c + (k + d + v)));
}

proof fn lemma_regroup_phase(
    a: Seq<u8>,
    b: Seq<u8>,
    c: Seq<u8>,
    d: Seq<u8>,
    q: Seq<u8>,
    p: Seq<u8>,
    t: Seq<u8>,
)
    ensures
        a + (b + c + d + q) + p + (q + t) == a + b + c + d + (q + p + q) + t,
{
    assert(a + (b + c + d + q) + p + (q + t) =~= a + b + c + d + (q + p + q) + t);
}

proof fn lemma_regroup_args(
    a: Seq<u8>,
    r: Seq<u8>,
    o: Seq<u8>,
    f: Seq<u8>,
    k: Seq<u8>,
    v: Seq<u8>,
    l: Seq<u8>,
    d: Seq<u8>,
    w: Seq<u8>,
    q: Seq<u8>,
    t: Seq<u8>,
    x: Seq<u8>,
    m: Seq<u8>,
)
    ensures
        a + ((r + o + f + k) + v + l + d + (w + q)) + t + (q + x + x + m) == a + r + (o + f + k + v
            + l + d + w + (q + t + q) + x) + x + m,
{
    let b = o + f + k + v;
    assert((r + o + f + k) + v =~= r + b);
    let tail = r + b + l + d + (w + q);
    let inner = b + l + d + w + (q + t + q) + x;
    assert(tail + t + q =~= r + (b + l + d + w + (q + t + q)));
    assert(a + tail + t + (q + x + x + m) =~= a + (tail + t + q) + x + x + m);
    assert(a + (r + (b + l + d + w + (q + t + q))) + x =~= a + r + inner);
}

proof fn lemma_kind_is_plain(ev: Event)
    ensures
        escaped_all(utf8(kind_word(kind_of_word(ev.code_kind)))) == utf8(
            kind_word(kind_of_word(ev.code_kind)),
        ),
{
    reveal_strlit("start");
    reveal_strlit("return");
    reveal_strlit("yield");
    reveal_strlit("resume");
    reveal_strlit("unwind");
    reveal_strlit("throw");
    let word = kind_word(kind_of_word(ev.code_kind));
    vstd::utf8::is_ascii_chars_encode_utf8(word);
    lemma_plain_text(utf8(word));
}

proof fn lemma_event_entry(pid: u32, ev: Event, code: CodeView)
    ensures
        entry(pid, ev, code) == written(event_value(pid, ev, code)) + seq![0x2cu8],
{
    reveal(entry);
    lemma_name_first();
    lemma_comma_cat();
    lemma_quote_ts();
    lemma_comma_pid();
    lemma_comma_tid();
    lemma_comma_args();
    lemma_comma_line();
    lemma_comma_kind();
    lemma_entry_end();
    let o = seq![0x7bu8];
    let q = seq![0x22u8];
    let x = seq![0x7du8];
    let c = seq![0x2cu8];
    let name = Json::Text(utf8(shown_name(code.qualname)));
    let py = Json::Text(utf8("py"@));
    let ph = Json::Text(seq![phase_byte(ev)]);
    let ts = Json::Number(micros(ev.ts_ns));
    let pids = Json::Number(digits(pid as nat));
    let tids = Json::Number(digits(ev.tid as nat));
    let file = Json::Text(utf8(code.filename));
    let line = Json::Number(digits(code.firstlineno as nat));
    let word = utf8(kind_word(kind_of_word(ev.code_kind)));
    let kind = Json::Text(word);

    let m0 = seq![(utf8("name"@), name)];
    let a0 = o + quoted(utf8("name"@)) + seq![0x3au8] + written(name);
    lemma_first("name"@, name);
    let m1 = m0.push((utf8("cat"@), py));
    let a1 = a0 + comma_name("cat"@) + written(py);
    lemma_next(a0, m0, "cat"@, py);
    let m2 = m1.push((utf8("ph"@), ph));
    let a2 = a1 + comma_name("ph"@) + written(ph);
    lemma_next(a1, m1, "ph"@, ph);
    let m3 = m2.push((utf8("ts"@), ts));
    let a3 = a2 + comma_name("ts"@) + written(ts);
    lemma_next(a2, m2, "ts"@, ts);
    let m4 = m3.push((utf8("pid"@), pids));
    let a4 = a3 + comma_name("pid"@) + written(pids);
    lemma_next(a3, m3, "pid"@, pids);
    let m5 = m4.push((utf8("tid"@), tids));
    let a5 = a4 + comma_name("tid"@) + written(tids);
    lemma_next(a4, m4, "tid"@, tids);

    let n0 = seq![(utf8("file"@), file)];
    let b0 = o + quoted(utf8("file"@)) + seq![0x3au8] + written(file);
    lemma_first("file"@, file);
    let n1 = n0.push((utf8("line"@), line));
    let b1 = b0 + comma_name("line"@) + written(line);
    lemma_next(b0, n0, "line"@, line);
    let n2 = n1.push((utf8("kind"@), kind));
    let b2 = b1 + comma_name("kind"@) + written(kind);
    lemma_next(b1, n1, "kind"@, kind);
    let args = Json::Object(n2);
    assert(written(args) == b2 + x);
    let a6 = a5 + comma_name("args"@) + written(args);
    lemma_next(a5, m5, "args"@, args);

    lemma_plain_text(seq![phase_byte(ev)]);
    lemma_regroup_phase(
        a0,
        comma_name("cat"@),
        quoted(utf8("py"@)),
        comma_name("ph"@),
        q,
        seq![phase_byte(ev)],
        comma_name("ts"@),
    );
    lemma_kind_is_plain(ev);
    lemma_regroup_args(
        a5,
        comma_name("args"@),
        o,
        quoted(utf8("file"@)),
        seq![0x3au8],
        written(file),
        comma_name("line"@),
        written(line),
        comma_name("kind"@),
        q,
        word,
        x,
        c,
    );
    assert(entry(pid, ev, code) == a6 + x + c);
    assert(written(event_value(pid, ev, code)) == a6 + x);
}

proof fn lemma_regroup_notice(
    o: Seq<u8>,
    r: Seq<u8>,
    k: Seq<u8>,
    f: Seq<u8>,
    v: Seq<u8>,
    x: Seq<u8>,
    n: Seq<u8>,
    t: Seq<u8>,
    h: Seq<u8>,
    m: Seq<u8>,
    p: Seq<u8>,
)
    ensures
        (o + r + k + o + f + k) + v + (x + n + t + h + m + p) == o + r + k + (o + f + k + v + x) + n
            + t + h + m + p,
{
    let inner = o + f + k + v + x;
    assert((o + r + k + o + f + k) + v + x =~= o + r + k + inner);
    let front = (o + r + k + o + f + k) + v;
    assert(front + (x + n + t + h + m + p) =~= front + x + n + t + h + m + p);
}

proof fn lemma_digits_are_a_number(v: nat)
    ensures
        is_plain(Json::Number(digits(v))),
        digit_run(digits(v)) == digits(v).len(),
{
    digits_read_back(v);
    lemma_all_digits(digits(v));
    lemma_first_digit(v);
    let n = digits(v).len() as int;
    assert(number_len(digits(v)) == n);
}

proof fn lemma_all_digits(text: Seq<u8>)
    requires
        forall|i: int| 0 <= i < text.len() ==> 48 <= #[trigger] text[i] <= 57,
    ensures
        digit_run(text) == text.len(),
    decreases text.len(),
{
    if text.len() > 0 {
        assert(48 <= text[0] <= 57);
        lemma_all_digits(text.skip(1));
    }
}

proof fn lemma_first_digit(v: nat)
    ensures
        digits(v).len() > 0,
        v > 0 ==> digits(v)[0] != 48,
        v == 0 ==> digits(v).len() == 1,
    decreases v,
{
    if v >= 10 {
        lemma_first_digit(v / 10);
    }
}

proof fn lemma_micros_are_a_number(ts_ns: u64)
    ensures
        is_plain(Json::Number(micros(ts_ns))),
{
    let whole = digits((ts_ns / 1_000) as nat);
    let text = micros(ts_ns);
    let n = whole.len() as int;
    lemma_digits_are_a_number((ts_ns / 1_000) as nat);
    lemma_first_digit((ts_ns / 1_000) as nat);
    let end = text.skip(n);
    assert(text =~= whole + end);
    assert(end[0] == 0x2e);
    lemma_run(whole, end);
    let rest = text.skip(n + 1);
    assert(rest.len() == 3);
    lemma_all_digits(rest);
}

proof fn lemma_thread_entry(pid: u32, tid: u32, name: Seq<char>)
    ensures
        thread_entry(pid, tid, name) == written(thread_value(pid, tid, name)) + seq![0x2cu8],
        is_plain(thread_value(pid, tid, name)),
{
    lemma_args_first_name();
    lemma_thread_middle();
    lemma_comma_tid();
    lemma_thread_end();
    let arg = Json::Text(utf8(name));
    lemma_first("name"@, arg);
    lemma_notice(
        seq![(utf8("name"@), arg)],
        "thread_name"@,
        pid,
        digits(tid as nat),
    );
    lemma_digits_are_a_number(tid as nat);
    lemma_regroup_notice(
        seq![0x7bu8],
        quoted(utf8("args"@)),
        seq![0x3au8],
        quoted(utf8("name"@)),
        quoted(utf8(name)),
        seq![0x7du8],
        comma_name("name"@),
        quoted(utf8("thread_name"@)),
        comma_name("ph"@),
        quoted(utf8("M"@)),
        comma_name("pid"@),
    );
    lemma_two_ends(
        utf8("{\"args\":{\"name\":"@) + quoted(utf8(name)) + utf8(
            "},\"name\":\"thread_name\",\"ph\":\"M\",\"pid\":"@,
        ) + digits(pid as nat) + comma_name("tid"@) + digits(tid as nat),
        seq![0x7du8],
        seq![0x2cu8],
    );
}

proof fn lemma_two_ends(a: Seq<u8>, b: Seq<u8>, c: Seq<u8>)
    ensures
        a + (b + c) == a + b + c,
{
    assert(a + (b + c) =~= a + b + c);
}

/// What an entry about a process is written as.
proof fn lemma_notice(arg: Seq<(Seq<u8>, Json)>, name: Seq<char>, pid: u32, tid: Seq<u8>)
    requires
        arg.len() > 0,
        all_plain(arg),
    ensures
        ({
            let v = Json::Object(
                seq![(utf8("args"@), Json::Object(arg))].push(
                    (utf8("name"@), Json::Text(utf8(name))),
                ).push((utf8("ph"@), Json::Text(utf8("M"@)))).push(
                    (utf8("pid"@), Json::Number(digits(pid as nat))),
                ).push((utf8("tid"@), Json::Number(tid))),
            );
            &&& is_plain(Json::Number(tid)) ==> is_plain(v)
            &&& written(v) == seq![0x7bu8] + quoted(utf8("args"@)) + seq![0x3au8] + written(
                Json::Object(arg),
            ) + comma_name("name"@) + quoted(utf8(name)) + comma_name("ph"@) + quoted(utf8("M"@))
                + comma_name("pid"@) + digits(pid as nat) + comma_name("tid"@) + tid + seq![0x7du8]
        }),
{
    let args = Json::Object(arg);
    let text = Json::Text(utf8(name));
    let ph = Json::Text(utf8("M"@));
    let pids = Json::Number(digits(pid as nat));
    let tids = Json::Number(tid);
    let m0 = seq![(utf8("args"@), args)];
    let a0 = seq![0x7bu8] + quoted(utf8("args"@)) + seq![0x3au8] + written(args);
    lemma_first("args"@, args);
    let m1 = m0.push((utf8("name"@), text));
    let a1 = a0 + comma_name("name"@) + written(text);
    lemma_next(a0, m0, "name"@, text);
    let m2 = m1.push((utf8("ph"@), ph));
    let a2 = a1 + comma_name("ph"@) + written(ph);
    lemma_next(a1, m1, "ph"@, ph);
    let m3 = m2.push((utf8("pid"@), pids));
    let a3 = a2 + comma_name("pid"@) + written(pids);
    lemma_next(a2, m2, "pid"@, pids);
    lemma_next(a3, m3, "tid"@, tids);
    lemma_digits_are_a_number(pid as nat);
    assert(is_plain(args));
}

proof fn lemma_dropped_entry(pid: u32, dropped: u64)
    requires
        dropped > 0,
    ensures
        dropped_entry(pid, dropped) == written(dropped_value(pid, dropped)) + seq![0x2cu8],
        is_plain(dropped_value(pid, dropped)),
{
    lemma_args_first_count();
    lemma_dropped_middle();
    lemma_dropped_end();
    let arg = Json::Number(digits(dropped as nat));
    lemma_first("count"@, arg);
    lemma_digits_are_a_number(dropped as nat);
    lemma_digits_are_a_number(0);
    lemma_notice(seq![(utf8("count"@), arg)], "trace0_dropped_events"@, pid, digits(0));
    assert(digits(0) =~= seq![0x30u8]);
    lemma_regroup_notice(
        seq![0x7bu8],
        quoted(utf8("args"@)),
        seq![0x3au8],
        quoted(utf8("count"@)),
        digits(dropped as nat),
        seq![0x7du8],
        comma_name("name"@),
        quoted(utf8("trace0_dropped_events"@)),
        comma_name("ph"@),
        quoted(utf8("M"@)),
        comma_name("pid"@),
    );
    let front = utf8("{\"args\":{\"count\":"@) + digits(dropped as nat) + utf8(
        "},\"name\":\"trace0_dropped_events\",\"ph\":\"M\",\"pid\":"@,
    ) + digits(pid as nat);
    assert(front + (comma_name("tid"@) + seq![0x30u8] + seq![0x7du8] + seq![0x2cu8]) =~= front
        + comma_name("tid"@) + seq![0x30u8] + seq![0x7du8] + seq![0x2cu8]);
}

proof fn lemma_event_is_plain(pid: u32, ev: Event, code: CodeView)
    ensures
        is_plain(event_value(pid, ev, code)),
{
    lemma_micros_are_a_number(ev.ts_ns);
    lemma_digits_are_a_number(pid as nat);
    lemma_digits_are_a_number(ev.tid as nat);
    lemma_digits_are_a_number(code.firstlineno as nat);
    let file = (utf8("file"@), Json::Text(utf8(code.filename)));
    let line = (utf8("line"@), Json::Number(digits(code.firstlineno as nat)));
    let kind = (utf8("kind"@), Json::Text(utf8(kind_word(kind_of_word(ev.code_kind)))));
    let n0 = seq![file];
    lemma_plain_push(Seq::empty(), file);
    assert(Seq::empty().push(file) =~= n0);
    lemma_plain_push(n0, line);
    lemma_plain_push(n0.push(line), kind);
    let args = (utf8("args"@), Json::Object(n0.push(line).push(kind)));
    let name = (utf8("name"@), Json::Text(utf8(shown_name(code.qualname))));
    let m0 = seq![name];
    lemma_plain_push(Seq::empty(), name);
    assert(Seq::empty().push(name) =~= m0);
    let m1 = m0.push((utf8("cat"@), Json::Text(utf8("py"@))));
    lemma_plain_push(m0, (utf8("cat"@), Json::Text(utf8("py"@))));
    let m2 = m1.push((utf8("ph"@), Json::Text(seq![phase_byte(ev)])));
    lemma_plain_push(m1, (utf8("ph"@), Json::Text(seq![phase_byte(ev)])));
    let m3 = m2.push((utf8("ts"@), Json::Number(micros(ev.ts_ns))));
    lemma_plain_push(m2, (utf8("ts"@), Json::Number(micros(ev.ts_ns))));
    let m4 = m3.push((utf8("pid"@), Json::Number(digits(pid as nat))));
    lemma_plain_push(m3, (utf8("pid"@), Json::Number(digits(pid as nat))));
    let m5 = m4.push((utf8("tid"@), Json::Number(digits(ev.tid as nat))));
    lemma_plain_push(m4, (utf8("tid"@), Json::Number(digits(ev.tid as nat))));
    lemma_plain_push(m5, args);
}

proof fn lemma_plain_push(members: Seq<(Seq<u8>, Json)>, member: (Seq<u8>, Json))
    requires
        members.len() == 0 || all_plain(members),
        is_plain(member.1),
    ensures
        all_plain(members.push(member)),
{
    assert(members.push(member).drop_last() =~= members);
    assert(all_plain(members));
}

/// Some values, each with a comma behind it.
pub open spec fn run_of(values: Seq<Json>) -> Seq<u8>
    decreases values.len(),
{
    if values.len() == 0 {
        Seq::empty()
    } else {
        run_of(values.drop_last()) + (written(values.last()) + seq![0x2cu8])
    }
}

/// Whether values are such as a reader of a trace takes.
pub open spec fn are_entries(values: Seq<Json>) -> bool {
    forall|i: int| 0 <= i < values.len() ==> (#[trigger] values[i]) is Object && is_plain(values[i])
}

proof fn lemma_run_first(values: Seq<Json>)
    requires
        values.len() > 0,
    ensures
        run_of(values) == written(values[0]) + seq![0x2cu8] + run_of(values.skip(1)),
    decreases values.len(),
{
    let later = values.skip(1);
    let first = written(values[0]) + seq![0x2cu8];
    if values.len() == 1 {
        assert(values.drop_last() =~= Seq::empty());
        assert(later =~= Seq::empty());
        assert(run_of(Seq::empty()) =~= Seq::<u8>::empty());
        assert(Seq::<u8>::empty() + first =~= first + Seq::<u8>::empty());
    } else {
        let last = written(values.last()) + seq![0x2cu8];
        lemma_run_first(values.drop_last());
        assert(values.drop_last().skip(1) =~= later.drop_last());
        assert(later.last() == values.last());
        lemma_two_ends(first, run_of(later.drop_last()), last);
    }
}

proof fn lemma_run_add(a: Seq<Json>, b: Seq<Json>)
    ensures
        run_of(a + b) == run_of(a) + run_of(b),
    decreases b.len(),
{
    if b.len() == 0 {
        assert(a + b =~= a);
        assert(run_of(a) + Seq::<u8>::empty() =~= run_of(a));
    } else {
        lemma_run_add(a, b.drop_last());
        assert((a + b).drop_last() =~= a + b.drop_last());
        lemma_two_ends(run_of(a), run_of(b.drop_last()), written(b.last()) + seq![0x2cu8]);
    }
}

/// A run of objects, each with a comma behind it, reads back as those objects.
pub proof fn entries_read_back(values: Seq<Json>)
    requires
        are_entries(values),
    ensures
        read_entries(run_of(values)) == Some(values),
    decreases values.len(),
{
    if values.len() == 0 {
        assert(values =~= Seq::empty());
    } else {
        let later = values.skip(1);
        let first = written(values[0]);
        let rest = seq![0x2cu8] + run_of(later);
        assert forall|i: int| 0 <= i < later.len() implies (#[trigger] later[i]) is Object
            && is_plain(later[i]) by {
            assert(later[i] == values[i + 1]);
        }
        entries_read_back(later);
        lemma_run_first(values);
        lemma_two_ends(first, seq![0x2cu8], run_of(later));
        lemma_reads_back(values[0], rest);
        let all = first + rest;
        assert(all[first.len() as int] == 0x2c);
        assert(all.skip(first.len() as int + 1) =~= run_of(later));
        assert(values =~= seq![values[0]] + later);
    }
}

/// What the entries of some events say.
pub open spec fn event_values<C: CodeLookup>(v: JsonView, events: Seq<Event>, codes: C) -> Seq<
    Json,
>
    decreases events.len(),
{
    if events.len() == 0 {
        Seq::empty()
    } else {
        let ev = events.last();
        let id = code_of_word(ev.code_kind);
        let known = learned(v.with_events(events.drop_last(), codes).known, id, codes);
        event_values(v, events.drop_last(), codes).push(event_value(v.pid, ev, known[id]))
    }
}

proof fn lemma_events_are_entries<C: CodeLookup>(v: JsonView, events: Seq<Event>, codes: C)
    ensures
        v.with_events(events, codes).out == v.out + run_of(event_values(v, events, codes)),
        v.with_events(events, codes).pid == v.pid,
        event_values(v, events, codes).len() == events.len(),
        are_entries(event_values(v, events, codes)),
    decreases events.len(),
{
    let all = event_values(v, events, codes);
    if events.len() == 0 {
        assert(v.out + Seq::<u8>::empty() =~= v.out);
    } else {
        let rest = events.drop_last();
        let ev = events.last();
        let id = code_of_word(ev.code_kind);
        let before = event_values(v, rest, codes);
        lemma_events_are_entries(v, rest, codes);
        let code = learned(v.with_events(rest, codes).known, id, codes)[id];
        lemma_event_entry(v.pid, ev, code);
        lemma_event_is_plain(v.pid, ev, code);
        assert(all.drop_last() =~= before);
        lemma_two_ends(v.out, run_of(before), entry(v.pid, ev, code));
    }
}

/// What an exporter has come to after some batches.
pub open spec fn after_batches<C: CodeLookup, T: ThreadNames>(
    v: JsonView,
    batches: Seq<Given<C, T>>,
) -> JsonView
    decreases batches.len(),
{
    if batches.len() == 0 {
        v
    } else {
        let b = batches.last();
        after_batches(v, batches.drop_last()).with_events(b.events, b.codes)
    }
}

/// What the entries of some batches say, one for each event.
pub open spec fn batch_values<C: CodeLookup, T: ThreadNames>(
    v: JsonView,
    batches: Seq<Given<C, T>>,
) -> Seq<Json>
    decreases batches.len(),
{
    if batches.len() == 0 {
        Seq::empty()
    } else {
        let b = batches.last();
        batch_values(v, batches.drop_last()) + event_values(
            after_batches(v, batches.drop_last()),
            b.events,
            b.codes,
        )
    }
}

proof fn lemma_entries_add(a: Seq<Json>, b: Seq<Json>)
    requires
        are_entries(a),
        are_entries(b),
    ensures
        are_entries(a + b),
{
    assert forall|i: int| 0 <= i < (a + b).len() implies (#[trigger] (a + b)[i]) is Object
        && is_plain((a + b)[i]) by {
        if i < a.len() {
            assert((a + b)[i] == a[i]);
        } else {
            assert((a + b)[i] == b[i - a.len()]);
        }
    }
}

/// After any batches, what was written of them is a run of whole objects, each with
/// one comma behind it and nothing else: one for each event, in order. A process that
/// is killed between two batches therefore leaves whole entries only.
pub proof fn batches_are_whole_entries<C: CodeLookup, T: ThreadNames>(
    v: JsonView,
    batches: Seq<Given<C, T>>,
)
    ensures
        after_batches(v, batches).out == v.out + run_of(batch_values(v, batches)),
        after_batches(v, batches).pid == v.pid,
        are_entries(batch_values(v, batches)),
        read_entries(run_of(batch_values(v, batches))) == Some(batch_values(v, batches)),
        batch_values(v, batches).len() == all_events(batches).len(),
    decreases batches.len(),
{
    if batches.len() == 0 {
        assert(v.out + Seq::<u8>::empty() =~= v.out);
    } else {
        let rest = batches.drop_last();
        let b = batches.last();
        let before = after_batches(v, rest);
        let own = event_values(before, b.events, b.codes);
        batches_are_whole_entries(v, rest);
        lemma_events_are_entries(before, b.events, b.codes);
        lemma_entries_add(batch_values(v, rest), own);
        lemma_run_add(batch_values(v, rest), own);
        lemma_two_ends(v.out, run_of(batch_values(v, rest)), run_of(own));
    }
    entries_read_back(batch_values(v, batches));
}

/// What the entries say that name some threads.
pub open spec fn thread_values(pid: u32, names: Seq<(u32, Seq<char>)>) -> Seq<Json> {
    Seq::new(names.len(), |i: int| thread_value(pid, names[i].0, names[i].1))
}

proof fn lemma_threads_are_entries(pid: u32, names: Seq<(u32, Seq<char>)>)
    ensures
        thread_entries(pid, names) == run_of(thread_values(pid, names)),
        are_entries(thread_values(pid, names)),
    decreases names.len(),
{
    let all = thread_values(pid, names);
    if names.len() > 0 {
        let rest = names.drop_last();
        lemma_threads_are_entries(pid, rest);
        lemma_thread_entry(pid, names.last().0, names.last().1);
        assert(all.drop_last() =~= thread_values(pid, rest));
        assert forall|i: int| 0 <= i < all.len() implies (#[trigger] all[i]) is Object && is_plain(
            all[i],
        ) by {
            if i < rest.len() {
                assert(all[i] == thread_values(pid, rest)[i]);
            }
        }
    }
}

/// What the entry about lost events says, where any were lost.
pub open spec fn dropped_values(pid: u32, dropped: u64) -> Seq<Json> {
    if dropped == 0 {
        Seq::empty()
    } else {
        seq![dropped_value(pid, dropped)]
    }
}

/// All that is said in a trace: of each event in order, then of each thread with a name
/// in the order of their listing, and then of lost events, where any were lost.
pub open spec fn all_values<C: CodeLookup, T: ThreadNames>(
    v: JsonView,
    batches: Seq<Given<C, T>>,
    threads: T,
    dropped: u64,
) -> Seq<Json> {
    batch_values(v, batches) + thread_values(v.pid, listing(threads.named())) + dropped_values(
        v.pid,
        dropped,
    )
}

/// A whole trace is a run of whole objects, each with one comma behind it and nothing
/// else, no closing bracket either: all that is to be said, in order.
pub proof fn a_trace_is_whole_entries<C: CodeLookup, T: ThreadNames>(
    v: JsonView,
    batches: Seq<Given<C, T>>,
    threads: T,
    dropped: u64,
)
    ensures
        ({
            let before = after_batches(v, batches);
            let values = all_values(v, batches, threads, dropped);
            &&& before.out + thread_entries(before.pid, listing(threads.named())) + dropped_entry(
                before.pid,
                dropped,
            ) == v.out + run_of(values)
            &&& read_entries(run_of(values)) == Some(values)
        }),
{
    let a = batch_values(v, batches);
    let b = thread_values(v.pid, listing(threads.named()));
    let c = dropped_values(v.pid, dropped);
    batches_are_whole_entries(v, batches);
    lemma_threads_are_entries(v.pid, listing(threads.named()));
    assert(dropped_entry(v.pid, dropped) == run_of(c) && are_entries(c)) by {
        if dropped > 0 {
            lemma_dropped_entry(v.pid, dropped);
            assert(c.drop_last() =~= Seq::empty());
            assert(run_of(Seq::empty()) =~= Seq::<u8>::empty());
            assert(Seq::<u8>::empty() + dropped_entry(v.pid, dropped) =~= dropped_entry(
                v.pid,
                dropped,
            ));
        }
    }
    lemma_entries_add(a, b);
    lemma_entries_add(a + b, c);
    lemma_run_add(a, b);
    lemma_run_add(a + b, c);
    entries_read_back(a + b + c);
    lemma_two_ends(v.out, run_of(a), run_of(b));
    lemma_two_ends(v.out, run_of(a) + run_of(b), run_of(c));
}

/// Whether a text spells a time in microseconds with three places behind the point, and
/// the time is so many nanoseconds.
pub open spec fn spells_nanos(text: Seq<u8>, ns: int) -> bool {
    let n = text.len() - 4;
    &&& n > 0
    &&& text[n] == 0x2e
    &&& 1_000 * number(text.take(n)) + number(text.skip(n + 1)) == ns
}

/// A time is written to the nanosecond.
pub proof fn times_are_written_to_the_nanosecond(ts_ns: u64)
    ensures
        spells_nanos(micros(ts_ns), ts_ns as int),
{
    let text = micros(ts_ns);
    let whole = digits((ts_ns / 1_000) as nat);
    let n = text.len() - 4;
    digits_read_back((ts_ns / 1_000) as nat);
    assert(text.take(n) =~= whole);
    let rest = text.skip(n + 1);
    let a = (48 + ts_ns % 1_000 / 100) as u8;
    let b = (48 + ts_ns / 10 % 10) as u8;
    let c = (48 + ts_ns % 10) as u8;
    assert(rest =~= seq![a, b, c]);
    assert(rest.drop_last() =~= seq![a, b]);
    assert(rest.drop_last().drop_last() =~= seq![a]);
    assert(rest.drop_last().drop_last().drop_last() =~= Seq::empty());
    reveal_with_fuel(number, 4);
    assert(number(rest) == 100 * (a - 48) + 10 * (b - 48) + (c - 48));
    assert(100 * (ts_ns % 1_000 / 100) + 10 * (ts_ns / 10 % 10) + ts_ns % 10 == ts_ns % 1_000);
}

/// Whether a value is a number, and which.
pub open spec fn is_number(v: Json, n: int) -> bool {
    v is Number && number(v->Number_0) == n
}

/// Whether a member has a name and is a text.
pub open spec fn is_text(member: (Seq<u8>, Json), name: Seq<char>, text: Seq<u8>) -> bool {
    member.0 == utf8(name) && member.1 == Json::Text(text)
}

/// What a reader finds in the entry of an event: what the code object is called, whether
/// a slice begins or ends, when to the nanosecond, in which process and thread, in which
/// file and on which line the code object starts, and the kind of the event.
pub proof fn an_entry_says_what_happened(pid: u32, ev: Event, code: CodeView)
    ensures
        read_json(entry(pid, ev, code)) matches Some((v, n)) && {
            &&& n == entry(pid, ev, code).len() - 1
            &&& entry(pid, ev, code).last() == 0x2c
            &&& v matches Json::Object(m) && {
                &&& m.len() == 7
                &&& code.qualname.len() > 0 ==> is_text(m[0], "name"@, utf8(code.qualname))
                &&& code.qualname.len() == 0 ==> is_text(m[0], "name"@, utf8("<unknown>"@))
                &&& is_text(m[1], "cat"@, utf8("py"@))
                &&& opens(kind_of_word(ev.code_kind)) ==> is_text(m[2], "ph"@, seq![0x42u8])
                &&& !opens(kind_of_word(ev.code_kind)) ==> is_text(m[2], "ph"@, seq![0x45u8])
                &&& m[3].0 == utf8("ts"@) && m[3].1 is Number && spells_nanos(
                    m[3].1->Number_0,
                    ev.ts_ns as int,
                )
                &&& m[4].0 == utf8("pid"@) && is_number(m[4].1, pid as int)
                &&& m[5].0 == utf8("tid"@) && is_number(m[5].1, ev.tid as int)
                &&& m[6].0 == utf8("args"@)
                &&& m[6].1 matches Json::Object(a) && {
                    &&& a.len() == 3
                    &&& is_text(a[0], "file"@, utf8(code.filename))
                    &&& a[1].0 == utf8("line"@) && is_number(a[1].1, code.firstlineno as int)
                    &&& is_text(a[2], "kind"@, utf8(kind_word(kind_of_word(ev.code_kind))))
                }
            }
        },
{
    let v = event_value(pid, ev, code);
    lemma_event_entry(pid, ev, code);
    lemma_event_is_plain(pid, ev, code);
    lemma_reads_back(v, seq![0x2cu8]);
    times_are_written_to_the_nanosecond(ev.ts_ns);
    digits_read_back(pid as nat);
    digits_read_back(ev.tid as nat);
    digits_read_back(code.firstlineno as nat);
}

/// What a reader finds in the entry that names a thread, and in the one that tells of lost
/// events.
pub proof fn an_entry_at_the_end_says_what_it_is_for(
    pid: u32,
    tid: u32,
    name: Seq<char>,
    dropped: u64,
)
    ensures
        read_json(thread_entry(pid, tid, name)) matches Some((v, n)) && v matches Json::Object(m)
            && {
            &&& m.len() == 5
            &&& m[0].0 == utf8("args"@)
            &&& m[0].1 matches Json::Object(a) && a.len() == 1 && is_text(
                a[0],
                "name"@,
                utf8(name),
            )
            &&& is_text(m[1], "name"@, utf8("thread_name"@))
            &&& is_text(m[2], "ph"@, utf8("M"@))
            &&& m[3].0 == utf8("pid"@) && is_number(m[3].1, pid as int)
            &&& m[4].0 == utf8("tid"@) && is_number(m[4].1, tid as int)
        },
        dropped > 0 ==> (read_json(dropped_entry(pid, dropped)) matches Some((v, n)) && v matches Json::Object(m)
            && {
            &&& m.len() == 5
            &&& m[0].0 == utf8("args"@)
            &&& m[0].1 matches Json::Object(a) && a.len() == 1 && a[0].0 == utf8("count"@)
                && is_number(a[0].1, dropped as int)
            &&& is_text(m[1], "name"@, utf8("trace0_dropped_events"@))
            &&& is_text(m[2], "ph"@, utf8("M"@))
            &&& m[3].0 == utf8("pid"@) && is_number(m[3].1, pid as int)
            &&& m[4].0 == utf8("tid"@) && is_number(m[4].1, 0)
        }),
        dropped == 0 ==> dropped_entry(pid, dropped).len() == 0,
{
    lemma_thread_entry(pid, tid, name);
    lemma_reads_back(thread_value(pid, tid, name), seq![0x2cu8]);
    digits_read_back(pid as nat);
    digits_read_back(tid as nat);
    digits_read_back(dropped as nat);
    digits_read_back(0);
    if dropped > 0 {
        lemma_dropped_entry(pid, dropped);
        lemma_reads_back(dropped_value(pid, dropped), seq![0x2cu8]);
    }
}

/// An exporter says of a code object what was known of it when it first came up, and what
/// is looked up of one changes nothing of another.
pub proof fn a_code_object_is_looked_up_once<C: CodeLookup>(
    known: Map<u32, CodeView>,
    id: u32,
    codes: C,
    other: u32,
)
    ensures
        ({
            let after = learned(known, id, codes);
            &&& after.contains_key(id)
            &&& known.contains_key(id) ==> after[id] == known[id]
            &&& !known.contains_key(id) ==> (codes.resolved(id) matches Some(c) ==> after[id] == c)
            &&& !known.contains_key(id) && codes.resolved(id) is None ==> after[id].qualname.len()
                == 0 && after[id].filename.len() == 0 && after[id].firstlineno == 0
            &&& other != id ==> after.contains_key(other) == known.contains_key(other)
            &&& other != id && known.contains_key(other) ==> after[other] == known[other]
        }),
{
}

/// Each event of a trace is written under the code object that its number stands for.
pub proof fn each_event_is_written_under_its_code_object<C: CodeLookup>(
    v: JsonView,
    events: Seq<Event>,
    codes: C,
    i: int,
)
    requires
        v.known.dom() =~= Set::empty(),
        0 <= i < events.len(),
    ensures
        event_values(v, events, codes).len() == events.len(),
        codes.resolved(code_of_word(events[i].code_kind)) matches Some(c) ==> event_values(
            v,
            events,
            codes,
        )[i] == event_value(v.pid, events[i], c),
    decreases events.len(),
{
    let rest = events.drop_last();
    lemma_events_are_entries(v, events, codes);
    lemma_events_are_entries(v, rest, codes);
    if i < rest.len() {
        each_event_is_written_under_its_code_object(v, rest, codes, i);
    } else {
        lemma_known_is_resolved(v, rest, codes, code_of_word(events[i].code_kind));
    }
}

proof fn lemma_known_is_resolved<C: CodeLookup>(
    v: JsonView,
    events: Seq<Event>,
    codes: C,
    id: u32,
)
    requires
        v.known.dom() =~= Set::empty(),
    ensures
        v.with_events(events, codes).known.contains_key(id) ==> (codes.resolved(id) matches Some(c)
            ==> v.with_events(events, codes).known[id] == c),
    decreases events.len(),
{
    if events.len() > 0 {
        lemma_known_is_resolved(v, events.drop_last(), codes, id);
    } else {
        assert(!v.known.dom().contains(id));
    }
}

/// A batch adds one entry for each of its events and nothing else; and the first time that
/// a code object comes up, its event is written under what is known of it then.
pub proof fn a_batch_adds_an_entry_for_each_event<C: CodeLookup>(
    v: JsonView,
    events: Seq<Event>,
    codes: C,
    i: int,
)
    requires
        0 <= i < events.len(),
    ensures
        ({
            let after = v.with_events(events, codes);
            let added = after.out.skip(v.out.len() as int);
            &&& after.out.take(v.out.len() as int) == v.out
            &&& after.pid == v.pid
            &&& read_entries(added) matches Some(values) && {
                &&& values.len() == events.len()
                &&& v.known.dom() =~= Set::empty() ==> (codes.resolved(
                    (events[i].code_kind % 0x100_0000) as u32,
                ) matches Some(c) ==> values[i] == event_value(v.pid, events[i], c))
            }
        }),
{
    let values = event_values(v, events, codes);
    lemma_events_are_entries(v, events, codes);
    entries_read_back(values);
    let out = v.out;
    assert((out + run_of(values)).skip(out.len() as int) =~= run_of(values));
    assert((out + run_of(values)).take(out.len() as int) =~= out);
    if v.known.dom() =~= Set::empty() {
        each_event_is_written_under_its_code_object(v, events, codes, i);
    }
}

/// The end of a trace names each thread that has a name, by thread id, and tells of lost
/// events where there are any.
pub proof fn the_end_of_a_trace_names_the_threads<T: ThreadNames>(
    pid: u32,
    threads: T,
    dropped: u64,
    tid: u32,
)
    requires
        lists(threads.named(), listing(threads.named())),
    ensures
        ({
            let names = listing(threads.named());
            &&& read_entries(
                thread_entries(pid, names) + dropped_entry(pid, dropped),
            ) matches Some(values) && {
                &&& values.len() == names.len() + (if dropped > 0 {
                    1int
                } else {
                    0int
                })
                &&& threads.named().contains_key(tid) ==> exists|k: int|
                    0 <= k < names.len() && #[trigger] values[k] == thread_value(
                        pid,
                        tid,
                        threads.named()[tid],
                    )
                &&& dropped > 0 ==> values.last() == dropped_value(pid, dropped)
            }
        }),
{
    let names = listing(threads.named());
    let a = thread_values(pid, names);
    let b = dropped_values(pid, dropped);
    lemma_threads_are_entries(pid, names);
    assert(dropped_entry(pid, dropped) == run_of(b) && are_entries(b)) by {
        if dropped > 0 {
            lemma_dropped_entry(pid, dropped);
            assert(b.drop_last() =~= Seq::empty());
            assert(run_of(Seq::empty()) =~= Seq::<u8>::empty());
            assert(Seq::<u8>::empty() + dropped_entry(pid, dropped) =~= dropped_entry(
                pid,
                dropped,
            ));
        }
    }
    lemma_entries_add(a, b);
    lemma_run_add(a, b);
    entries_read_back(a + b);
    if threads.named().contains_key(tid) {
        let k = choose|k: int| 0 <= k < names.len() && (#[trigger] names[k]).0 == tid;
        assert((a + b)[k] == a[k]);
        assert(a[k] == thread_value(pid, tid, threads.named()[tid]));
    }
}

/// The trace of the process that the user launched starts with the bracket; that of another
/// one starts with nothing, since it is added to the first.
pub proof fn only_the_first_process_opens_the_array(
    pid: u32,
    first: JsonExporter,
    other: JsonExporter,
)
    requires
        call_ensures(JsonExporter::create, (pid,), first),
        call_ensures(JsonExporter::append, (pid,), other),
    ensures
        first@.out == seq![0x5bu8],
        other@.out.len() == 0,
        first@.pid == pid,
        other@.pid == pid,
        first@.known.dom() == Set::<u32>::empty(),
        other@.known.dom() == Set::<u32>::empty(),
{
    assert(first@.known.dom() =~= Set::empty());
    assert(other@.known.dom() =~= Set::empty());
}

/// A batch adds as many entries as it has events.
pub proof fn lemma_a_batch_adds_its_events<C: CodeLookup>(
    v: JsonView,
    events: Seq<Event>,
    codes: C,
)
    ensures
        ({
            let after = v.with_events(events, codes);
            &&& v.out.is_prefix_of(after.out)
            &&& read_entries(after.out.skip(v.out.len() as int)) matches Some(values)
                && values.len() == events.len()
        }),
{
    let values = event_values(v, events, codes);
    lemma_events_are_entries(v, events, codes);
    entries_read_back(values);
    assert((v.out + run_of(values)).skip(v.out.len() as int) =~= run_of(values));
}

} // verus!
