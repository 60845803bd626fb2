//! Bytes of text and of numbers.

use vstd::prelude::*;

verus! {

/// The bytes of some text.
pub open spec fn utf8(s: Seq<char>) -> Seq<u8> {
    vstd::utf8::encode_utf8(s)
}

/// The decimal digits of a number.
pub open spec fn digits(v: nat) -> Seq<u8>
    decreases v,
{
    if v < 10 {
        seq![(48 + v) as u8]
    } else {
        digits(v / 10).push((48 + v % 10) as u8)
    }
}

/// The number that some decimal digits stand for.
pub open spec fn number(bytes: Seq<u8>) -> int
    decreases bytes.len(),
{
    if bytes.len() == 0 {
        0
    } else {
        10 * number(bytes.drop_last()) + (bytes.last() - 48)
    }
}

/// The decimal digits of a number, as text.
pub open spec fn digit_chars(v: nat) -> Seq<char>
    decreases v,
{
    if v < 10 {
        seq![(48 + v) as u8 as char]
    } else {
        digit_chars(v / 10).push((48 + v % 10) as u8 as char)
    }
}

/// It does not matter where a concatenation is bracketed.
pub proof fn lemma_append(a: Seq<u8>, b: Seq<u8>, c: Seq<u8>)
    ensures
        a + b + c == a + (b + c),
{
    assert(a + b + c =~= a + (b + c));
}

pub fn push_bytes(out: &mut Vec<u8>, bytes: &[u8])
    ensures
        final(out)@ == old(out)@ + bytes@,
{
    out.extend_from_slice(bytes);
    assert(out@ =~= old(out)@ + bytes@);
}

pub fn push_text(out: &mut Vec<u8>, s: &str)
    ensures
        final(out)@ == old(out)@ + utf8(s@),
{
    push_bytes(out, s.as_bytes());
}

/// Appends a number in decimal.
pub fn push_u64(out: &mut Vec<u8>, v: u64)
    ensures
        final(out)@ == old(out)@ + digits(v as nat),
    decreases v,
{
    if v >= 10 {
        push_u64(out, v / 10);
    }
    let ghost head = out@;
    out.push(48 + (v % 10) as u8);
    proof {
        if v >= 10 {
            assert(out@ =~= old(out)@ + digits(v as nat / 10).push((48 + v % 10) as u8));
        } else {
            assert(out@ =~= old(out)@ + seq![(48 + v) as u8]);
        }
    }
}

/// Appends a number in decimal.
pub fn append_number(out: &mut String, v: u64)
    ensures
        final(out)@ == old(out)@ + digit_chars(v as nat),
    decreases v,
{
    if v >= 10 {
        append_number(out, v / 10);
    }
    let digit = match v % 10 {
        0 => "0",
        1 => "1",
        2 => "2",
        3 => "3",
        4 => "4",
        5 => "5",
        6 => "6",
        7 => "7",
        8 => "8",
        _ => "9",
    };
    proof {
        reveal_strlit("0");
        reveal_strlit("1");
        reveal_strlit("2");
        reveal_strlit("3");
        reveal_strlit("4");
        reveal_strlit("5");
        reveal_strlit("6");
        reveal_strlit("7");
        reveal_strlit("8");
        reveal_strlit("9");
        assert(digit@ =~= seq![(48 + v % 10) as u8 as char]);
    }
    out.append(digit);
    proof {
        if v >= 10 {
            assert(out@ =~= old(out)@ + digit_chars(v as nat / 10).push(
                (48 + v % 10) as u8 as char,
            ));
        } else {
            assert(out@ =~= old(out)@ + seq![(48 + v) as u8 as char]);
        }
    }
}

/// A number reads back from its digits, and they are digits all.
pub proof fn digits_read_back(v: nat)
    ensures
        number(digits(v)) == v,
        digits(v).len() > 0,
        forall|i: int| 0 <= i < digits(v).len() ==> 48 <= #[trigger] digits(v)[i] <= 57,
    decreases v,
{
    if v >= 10 {
        digits_read_back(v / 10);
        assert(digits(v).drop_last() =~= digits(v / 10));
    } else {
        reveal_with_fuel(number, 2);
        assert(digits(v).drop_last() =~= Seq::empty());
    }
}

/// Whether two texts are the same.
pub fn same_text(a: &str, b: &str) -> (r: bool)
    ensures
        r == (a@ == b@),
{
    let n: usize = a.unicode_len();
    if n != b.unicode_len() {
        return false;
    }
    let r: bool = starts_with(a, b);
    assert(r ==> a@ =~= b@);
    r
}

/// Whether a text starts with another.
pub fn starts_with(s: &str, prefix: &str) -> (r: bool)
    ensures
        r == prefix@.is_prefix_of(s@),
{
    let n: usize = prefix.unicode_len();
    if s.unicode_len() < n {
        return false;
    }
    for i in 0..n
        invariant
            n == prefix@.len() <= s@.len(),
            forall|j: int| 0 <= j < i ==> prefix@[j] == s@[j],
    {
        if s.get_char(i) != prefix.get_char(i) {
            return false;
        }
    }
    assert(prefix@ =~= s@.subrange(0, n as int));
    true
}

/// The digits of a number are the same as text and as bytes.
pub proof fn digits_are_the_same_in_both_forms(v: nat)
    ensures
        digit_chars(v).len() == digits(v).len(),
        forall|i: int|
            0 <= i < digits(v).len() ==> digit_chars(v)[i] == #[trigger] digits(v)[i] as char,
    decreases v,
{
    if v >= 10 {
        digits_are_the_same_in_both_forms(v / 10);
        assert forall|i: int| 0 <= i < digits(v).len() implies digit_chars(v)[i]
            == #[trigger] digits(v)[i] as char by {
            if i < digits(v / 10).len() {
                assert(digits(v)[i] == digits(v / 10)[i]);
            }
        }
    }
}

/// No two numbers have the same digits.
pub proof fn numbers_differ_in_their_digits(a: nat, b: nat)
    requires
        a != b,
    ensures
        digits(a) != digits(b),
        digit_chars(a) != digit_chars(b),
{
    digits_read_back(a);
    digits_read_back(b);
    digits_are_the_same_in_both_forms(a);
    digits_are_the_same_in_both_forms(b);
    if digit_chars(a) == digit_chars(b) {
        assert forall|i: int| 0 <= i < digits(a).len() implies digits(a)[i] == digits(b)[i] by {
            assert(digits(a)[i] as char == digits(b)[i] as char);
        }
        assert(digits(a) =~= digits(b));
    }
}

/// A number that is written in decimal is read back, and stands behind what was there.
pub proof fn a_number_that_is_written_is_read_back(out: &mut Vec<u8>, v: u64, text: &mut String)
    requires
        call_ensures(push_u64, (out, v), ()),
        call_ensures(append_number, (text, v), ()),
    ensures
        final(out)@.take(old(out)@.len() as int) == old(out)@,
        number(final(out)@.skip(old(out)@.len() as int)) == v,
        final(text)@.take(old(text)@.len() as int) == old(text)@,
        final(text)@.len() - old(text)@.len() == final(out)@.len() - old(out)@.len(),
        forall|i: int|
            0 <= i < final(out)@.len() - old(out)@.len() ==> final(text)@[old(text)@.len() + i]
                == (#[trigger] final(out)@[old(out)@.len() + i]) as char,
{
    let d = digits(v as nat);
    digits_read_back(v as nat);
    digits_are_the_same_in_both_forms(v as nat);
    assert(final(out)@.take(old(out)@.len() as int) =~= old(out)@);
    assert(final(out)@.skip(old(out)@.len() as int) =~= d);
    assert(final(text)@.take(old(text)@.len() as int) =~= old(text)@);
    assert forall|i: int| 0 <= i < d.len() implies final(text)@[old(text)@.len() + i]
        == (#[trigger] final(out)@[old(out)@.len() + i]) as char by {
        assert(final(out)@[old(out)@.len() + i] == d[i]);
        assert(digit_chars(v as nat)[i] == d[i] as char);
    }
}

/// Two texts are the same where they have the same characters, and one starts with another
/// where its first characters are that one's.
pub proof fn texts_are_told_apart_by_their_characters(
    a: &str,
    b: &str,
    same: bool,
    starts: bool,
    i: int,
)
    requires
        call_ensures(same_text, (a, b), same),
        call_ensures(starts_with, (a, b), starts),
    ensures
        same ==> a@ == b@,
        a@ == b@ ==> same,
        starts && 0 <= i < b@.len() ==> a@.len() >= b@.len() && a@[i] == b@[i],
        a@.len() >= b@.len() && a@.take(b@.len() as int) == b@ ==> starts,
{
    if a@.len() >= b@.len() && a@.take(b@.len() as int) == b@ {
        assert(b@.is_prefix_of(a@)) by {
            assert(a@.subrange(0, b@.len() as int) =~= b@);
        }
    }
}

} // verus!
