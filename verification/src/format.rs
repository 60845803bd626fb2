//! The formats that a trace can be written in.

use crate::text::same_text;
use vstd::prelude::*;

verus! {

#[derive(Copy, Clone, Debug, PartialEq, Eq, Structural)]
pub enum Format {
    Json,
    Protobuf,
    Pprof,
}

/// The format that a word asks for.
pub open spec fn asked_for(s: Seq<char>) -> Option<Format> {
    if s == "json"@ {
        Some(Format::Json)
    } else if s == "protobuf"@ || s == "proto"@ || s == "pb"@ {
        Some(Format::Protobuf)
    } else {
        None
    }
}

/// What a format is called.
pub open spec fn format_name(format: Format) -> Seq<char> {
    match format {
        Format::Json => "json"@,
        Format::Protobuf => "protobuf"@,
        Format::Pprof => "pprof"@,
    }
}

/// What the files of a format end in.
pub open spec fn format_extension(format: Format) -> Seq<char> {
    match format {
        Format::Json => "json"@,
        Format::Protobuf => "pb"@,
        Format::Pprof => "pprof"@,
    }
}

impl Format {
    /// The format that a word asks for. Profiles have no word.
    pub fn parse(s: &str) -> (r: Result<Self, String>)
        ensures
            match r {
                Ok(format) => asked_for(s@) == Some(format),
                Err(message) => asked_for(s@) is None && message@ == "unknown format: "@ + s@,
            },
    {
        if same_text(s, "json") {
            return Ok(Format::Json);
        }
        if same_text(s, "protobuf") || same_text(s, "proto") || same_text(s, "pb") {
            proof {
                reveal_strlit("json");
                reveal_strlit("protobuf");
                reveal_strlit("proto");
                reveal_strlit("pb");
                assert("json"@.len() != "protobuf"@.len());
                assert("json"@.len() != "proto"@.len());
                assert("json"@.len() != "pb"@.len());
            }
            return Ok(Format::Protobuf);
        }
        let mut message = "unknown format: ".to_owned();
        message.append(s);
        Err(message)
    }

    pub fn as_str(self) -> (s: &'static str)
        ensures
            s@ == format_name(self),
    {
        match self {
            Format::Json => "json",
            Format::Protobuf => "protobuf",
            Format::Pprof => "pprof",
        }
    }

    /// What the files of this format end in.
    pub fn extension(self) -> (s: &'static str)
        ensures
            s@ == format_extension(self),
    {
        match self {
            Format::Json => "json",
            Format::Protobuf => "pb",
            Format::Pprof => "pprof",
        }
    }
}

/// The name of a format that can be asked for asks for that format.
pub proof fn names_read_back(format: Format)
    requires
        !(format is Pprof),
    ensures
        asked_for(format_name(format)) == Some(format),
{
    reveal_strlit("json");
    reveal_strlit("protobuf");
    assert("json"@.len() != "protobuf"@.len());
}

/// Four words ask for a format, and no other does. None asks for a profile.
pub proof fn four_words_ask_for_a_format(s: Seq<char>)
    ensures
        asked_for(s) == Some(Format::Json) <==> s == seq!['j', 's', 'o', 'n'],
        asked_for(s) == Some(Format::Protobuf) <==> s == seq!['p', 'b'] || s == seq![
            'p',
            'r',
            'o',
            't',
            'o',
        ] || s == seq!['p', 'r', 'o', 't', 'o', 'b', 'u', 'f'],
        asked_for(s) != Some(Format::Pprof),
{
    reveal_strlit("json");
    reveal_strlit("protobuf");
    reveal_strlit("proto");
    reveal_strlit("pb");
    assert("json"@ =~= seq!['j', 's', 'o', 'n']);
    assert("pb"@ =~= seq!['p', 'b']);
    assert("proto"@ =~= seq!['p', 'r', 'o', 't', 'o']);
    assert("protobuf"@ =~= seq!['p', 'r', 'o', 't', 'o', 'b', 'u', 'f']);
    assert("json"@.len() != "protobuf"@.len());
    assert("json"@.len() != "proto"@.len());
    assert("json"@.len() != "pb"@.len());
}

/// Files of two formats never end in the same letters, nor do two formats have one name.
pub proof fn formats_differ_in_their_files(a: Format, b: Format)
    ensures
        format_extension(a) == format_extension(b) <==> a == b,
        format_name(a) == format_name(b) <==> a == b,
        format_extension(a).len() == (if a is Json {
            4int
        } else if a is Protobuf {
            2
        } else {
            5
        }),
{
    reveal_strlit("json");
    reveal_strlit("protobuf");
    reveal_strlit("pprof");
    reveal_strlit("pb");
    assert(a != b ==> format_extension(a).len() != format_extension(b).len());
    assert(a != b ==> format_name(a).len() != format_name(b).len());
}

/// A word that asks for a format gets it, and one that does not is named in the message.
pub proof fn a_word_is_taken_or_named(
    s: &str,
    r: Result<Format, String>,
    format: Format,
    name: &'static str,
    extension: &'static str,
)
    requires
        call_ensures(Format::parse, (s,), r),
        call_ensures(Format::as_str, (format,), name),
        call_ensures(Format::extension, (format,), extension),
    ensures
        s@ == seq!['j', 's', 'o', 'n'] ==> r == Ok::<Format, String>(Format::Json),
        r == Ok::<Format, String>(Format::Json) ==> s@ == seq!['j', 's', 'o', 'n'],
        s@ == seq!['p', 'b'] ==> r == Ok::<Format, String>(Format::Protobuf),
        r matches Ok(f) ==> f is Json || f is Protobuf,
        r matches Err(message) ==> message@ == "unknown format: "@ + s@,
        s@ == name@ && !(format is Pprof) ==> r == Ok::<Format, String>(format),
        format is Json ==> extension@ == seq!['j', 's', 'o', 'n'],
        format is Protobuf ==> extension@ == seq!['p', 'b'],
        format is Pprof ==> extension@ == seq!['p', 'p', 'r', 'o', 'f'],
{
    four_words_ask_for_a_format(s@);
    if !(format is Pprof) {
        names_read_back(format);
    }
    reveal_strlit("json");
    reveal_strlit("pb");
    reveal_strlit("pprof");
    assert("json"@ =~= seq!['j', 's', 'o', 'n']);
    assert("pb"@ =~= seq!['p', 'b']);
    assert("pprof"@ =~= seq!['p', 'p', 'r', 'o', 'f']);
}

} // verus!
