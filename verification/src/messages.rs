//! What a reader makes of the bytes of a protobuf message.

use crate::wire::{
    bytes_field, key, number_field, packed_field, read_varint, varint, varints, varints_read_back,
};
use vstd::prelude::*;

verus! {

/// The value of a field.
pub enum Value {
    Number(nat),
    Bytes(Seq<u8>),
}

/// A field of a message.
pub struct Field {
    pub tag: nat,
    pub value: Value,
}

/// A field as it is written.
pub open spec fn field_bytes(f: Field) -> Seq<u8> {
    match f.value {
        Value::Number(v) => key(f.tag, 0) + varint(v),
        Value::Bytes(bytes) => bytes_field(f.tag, bytes),
    }
}

/// A message as it is written: its fields, one behind the other.
pub open spec fn message(fields: Seq<Field>) -> Seq<u8>
    decreases fields.len(),
{
    if fields.len() == 0 {
        Seq::empty()
    } else {
        field_bytes(fields[0]) + message(fields.skip(1))
    }
}

/// A number at the start of some bytes takes some of them, and no more than there are.
pub proof fn lemma_number_takes(bytes: Seq<u8>)
    ensures
        read_varint(bytes) matches Some((v, n)) ==> 0 < n <= bytes.len(),
    decreases bytes.len(),
{
    if bytes.len() > 0 && bytes[0] >= 128 {
        lemma_number_takes(bytes.skip(1));
    }
}

/// The fields of a message, where the bytes are one.
pub open spec fn fields_of(bytes: Seq<u8>) -> Option<Seq<Field>>
    decreases bytes.len(),
{
    if bytes.len() == 0 {
        Some(Seq::empty())
    } else {
        match read_varint(bytes) {
            None => None,
            Some((k, n)) => {
                let after_key = bytes.skip(n as int);
                match read_varint(after_key) {
                    None => None,
                    Some((v, m)) => {
                        let after = after_key.skip(m as int);
                        proof {
                            lemma_number_takes(bytes);
                            lemma_number_takes(after_key);
                        }
                        if k % 8 == 0 {
                            match fields_of(after) {
                                None => None,
                                Some(rest) => Some(
                                    seq![Field { tag: k / 8, value: Value::Number(v) }] + rest,
                                ),
                            }
                        } else if k % 8 == 2 && v <= after.len() {
                            match fields_of(after.skip(v as int)) {
                                None => None,
                                Some(rest) => Some(
                                    seq![
                                        Field {
                                            tag: k / 8,
                                            value: Value::Bytes(after.take(v as int)),
                                        },
                                    ] + rest,
                                ),
                            }
                        } else {
                            None
                        }
                    },
                }
            },
        }
    }
}

proof fn lemma_number_reads_back(tag: nat, v: nat, rest: Seq<u8>)
    requires
        fields_of(rest) is Some,
    ensures
        fields_of(key(tag, 0) + varint(v) + rest) == Some(
            seq![Field { tag, value: Value::Number(v) }] + fields_of(rest)->0,
        ),
{
    let k = varint(8 * tag);
    let all = key(tag, 0) + varint(v) + rest;
    let after = varint(v) + rest;
    assert(8 * tag + 0 == 8 * tag);
    varints_read_back(8 * tag, after);
    varints_read_back(v, rest);
    assert(all =~= k + after);
    assert(all.skip(k.len() as int) =~= after);
    assert(after.skip(varint(v).len() as int) =~= rest);
    assert((8 * tag) / 8 == tag && (8 * tag) % 8 == 0);
}

proof fn lemma_bytes_read_back(tag: nat, bytes: Seq<u8>, rest: Seq<u8>)
    requires
        fields_of(rest) is Some,
    ensures
        fields_of(bytes_field(tag, bytes) + rest) == Some(
            seq![Field { tag, value: Value::Bytes(bytes) }] + fields_of(rest)->0,
        ),
{
    let k = varint(8 * tag + 2);
    let len = varint(bytes.len());
    let body = bytes + rest;
    let after = len + body;
    let all = bytes_field(tag, bytes) + rest;
    varints_read_back(8 * tag + 2, after);
    varints_read_back(bytes.len(), body);
    assert(all =~= k + after);
    assert(all.skip(k.len() as int) =~= after);
    assert(after.skip(len.len() as int) =~= body);
    assert(body.skip(bytes.len() as int) =~= rest);
    assert(body.take(bytes.len() as int) =~= bytes);
    assert((8 * tag + 2) / 8 == tag && (8 * tag + 2) % 8 == 2);
}

/// A message reads back as the fields that were written.
pub proof fn messages_read_back(fields: Seq<Field>)
    ensures
        fields_of(message(fields)) == Some(fields),
    decreases fields.len(),
{
    if fields.len() == 0 {
        assert(fields =~= Seq::empty());
    } else {
        let f = fields[0];
        let rest = message(fields.skip(1));
        messages_read_back(fields.skip(1));
        assert(fields =~= seq![f] + fields.skip(1));
        match f.value {
            Value::Number(v) => {
                lemma_number_reads_back(f.tag, v, rest);
            },
            Value::Bytes(bytes) => {
                lemma_bytes_read_back(f.tag, bytes, rest);
            },
        }
    }
}

/// One message behind another is the message of the fields of both.
pub proof fn messages_concatenate(a: Seq<Field>, b: Seq<Field>)
    ensures
        message(a + b) == message(a) + message(b),
    decreases a.len(),
{
    if a.len() == 0 {
        assert(a + b =~= b);
        assert(Seq::<u8>::empty() + message(b) =~= message(b));
    } else {
        messages_concatenate(a.skip(1), b);
        assert((a + b).skip(1) =~= a.skip(1) + b);
        assert(message(a + b) =~= message(a) + message(b));
    }
}

/// A message of one field.
pub proof fn lemma_one_field(f: Field)
    ensures
        message(seq![f]) == field_bytes(f),
{
    assert(seq![f].skip(1) =~= Seq::empty());
    assert(message(Seq::<Field>::empty()) =~= Seq::<u8>::empty());
    assert(field_bytes(f) + Seq::<u8>::empty() =~= field_bytes(f));
}

/// The number in a field of a message, the last where there are several. It is zero
/// where there is none.
pub open spec fn number_in(fields: Seq<Field>, tag: nat) -> nat
    decreases fields.len(),
{
    if fields.len() == 0 {
        0
    } else if fields.last().tag == tag && fields.last().value is Number {
        fields.last().value->Number_0
    } else {
        number_in(fields.drop_last(), tag)
    }
}

/// What the fields of a message hold under one tag, where they hold bytes.
pub open spec fn bodies_in(fields: Seq<Field>, tag: nat) -> Seq<Seq<u8>>
    decreases fields.len(),
{
    if fields.len() == 0 {
        Seq::empty()
    } else if fields.last().tag == tag && fields.last().value is Bytes {
        bodies_in(fields.drop_last(), tag).push(fields.last().value->Bytes_0)
    } else {
        bodies_in(fields.drop_last(), tag)
    }
}

/// The numbers that stand one behind the other, where the bytes are such.
pub open spec fn numbers_of(bytes: Seq<u8>) -> Option<Seq<nat>>
    decreases bytes.len(),
{
    if bytes.len() == 0 {
        Some(Seq::empty())
    } else {
        match read_varint(bytes) {
            None => None,
            Some((v, n)) => {
                proof {
                    lemma_number_takes(bytes);
                }
                match numbers_of(bytes.skip(n as int)) {
                    None => None,
                    Some(rest) => Some(seq![v] + rest),
                }
            },
        }
    }
}

/// What is made of each of some bodies, where something is made of all of them.
pub open spec fn each_read<A>(
    bodies: Seq<Seq<u8>>,
    read: spec_fn(Seq<u8>) -> Option<A>,
) -> Option<Seq<A>>
    decreases bodies.len(),
{
    if bodies.len() == 0 {
        Some(Seq::empty())
    } else {
        match (each_read(bodies.drop_last(), read), read(bodies.last())) {
            (Some(rest), Some(a)) => Some(rest.push(a)),
            _ => None,
        }
    }
}

/// Some lists of numbers, one behind the other.
pub open spec fn strung(lists: Seq<Seq<nat>>) -> Seq<nat>
    decreases lists.len(),
{
    if lists.len() == 0 {
        Seq::empty()
    } else {
        strung(lists.drop_last()) + lists.last()
    }
}

/// The numbers that a message holds under one tag, several in a field.
pub open spec fn numbers_in(fields: Seq<Field>, tag: nat) -> Option<Seq<nat>> {
    match each_read(bodies_in(fields, tag), |b: Seq<u8>| numbers_of(b)) {
        None => None,
        Some(lists) => Some(strung(lists)),
    }
}

/// Some counts as numbers.
pub open spec fn as_numbers(values: Seq<u64>) -> Seq<nat> {
    Seq::new(values.len(), |i: int| values[i] as nat)
}

proof fn lemma_varints_first(values: Seq<u64>)
    requires
        values.len() > 0,
    ensures
        varints(values) == varint(values[0] as nat) + varints(values.skip(1)),
    decreases values.len(),
{
    let rest = values.skip(1);
    let first = varint(values[0] as nat);
    if values.len() == 1 {
        assert(values.drop_last() =~= Seq::empty());
        assert(rest =~= Seq::empty());
        assert(varints(Seq::empty()) =~= Seq::<u8>::empty());
        assert(Seq::<u8>::empty() + first =~= first + Seq::<u8>::empty());
    } else {
        lemma_varints_first(values.drop_last());
        assert(values.drop_last().skip(1) =~= rest.drop_last());
        assert(varints(values) =~= first + (varints(rest.drop_last()) + varint(
            rest.last() as nat,
        )));
    }
}

/// Numbers read back from where they stand one behind the other.
pub proof fn numbers_read_back(values: Seq<u64>)
    ensures
        numbers_of(varints(values)) == Some(as_numbers(values)),
    decreases values.len(),
{
    if values.len() == 0 {
        assert(as_numbers(values) =~= Seq::empty());
    } else {
        let rest = varints(values.skip(1));
        let first = varint(values[0] as nat);
        lemma_varints_first(values);
        numbers_read_back(values.skip(1));
        varints_read_back(values[0] as nat, rest);
        assert((first + rest).skip(first.len() as int) =~= rest);
        assert(as_numbers(values) =~= seq![values[0] as nat] + as_numbers(values.skip(1)));
    }
}

/// The field of a number, left out where it is zero.
pub open spec fn number_part(tag: nat, v: u64) -> Seq<Field> {
    if v == 0 {
        Seq::empty()
    } else {
        seq![Field { tag, value: Value::Number(v as nat) }]
    }
}

/// The field of some bytes.
pub open spec fn bytes_part(tag: nat, bytes: Seq<u8>) -> Seq<Field> {
    seq![Field { tag, value: Value::Bytes(bytes) }]
}

/// The field of several numbers, left out where there are none.
pub open spec fn packed_part(tag: nat, values: Seq<u64>) -> Seq<Field> {
    if values.len() == 0 {
        Seq::empty()
    } else {
        bytes_part(tag, varints(values))
    }
}

/// Each part is written as it is.
pub proof fn lemma_parts(tag: nat, v: u64, bytes: Seq<u8>, values: Seq<u64>)
    ensures
        message(number_part(tag, v)) == number_field(tag, v),
        message(bytes_part(tag, bytes)) == bytes_field(tag, bytes),
        message(packed_part(tag, values)) == packed_field(tag, values),
{
    assert(message(Seq::empty()) =~= Seq::<u8>::empty());
    lemma_one_field(Field { tag, value: Value::Number(v as nat) });
    lemma_one_field(Field { tag, value: Value::Bytes(bytes) });
    lemma_one_field(Field { tag, value: Value::Bytes(varints(values)) });
}

/// What one more number adds to a message.
pub proof fn lemma_number_part(fields: Seq<Field>, tag: nat, v: u64, other: nat)
    ensures
        number_in(fields + number_part(tag, v), other) == (if tag == other && v != 0 {
            v as nat
        } else {
            number_in(fields, other)
        }),
        bodies_in(fields + number_part(tag, v), other) == bodies_in(fields, other),
{
    let all = fields + number_part(tag, v);
    if v == 0 {
        assert(all =~= fields);
    } else {
        assert(all.drop_last() =~= fields);
    }
}

/// What one more field of bytes adds to a message.
pub proof fn lemma_bytes_part(fields: Seq<Field>, tag: nat, bytes: Seq<u8>, other: nat)
    ensures
        number_in(fields + bytes_part(tag, bytes), other) == number_in(fields, other),
        bodies_in(fields + bytes_part(tag, bytes), other) == (if tag == other {
            bodies_in(fields, other).push(bytes)
        } else {
            bodies_in(fields, other)
        }),
{
    let all = fields + bytes_part(tag, bytes);
    assert(all.drop_last() =~= fields);
}

/// What two messages hold under one tag.
pub proof fn lemma_bodies_add(a: Seq<Field>, b: Seq<Field>, tag: nat)
    ensures
        bodies_in(a + b, tag) == bodies_in(a, tag) + bodies_in(b, tag),
    decreases b.len(),
{
    if b.len() == 0 {
        assert(a + b =~= a);
        assert(bodies_in(a, tag) + Seq::<Seq<u8>>::empty() =~= bodies_in(a, tag));
    } else {
        lemma_bodies_add(a, b.drop_last(), tag);
        assert((a + b).drop_last() =~= a + b.drop_last());
        assert(bodies_in(a + b, tag) =~= bodies_in(a, tag) + bodies_in(b, tag));
    }
}

/// Some bodies, each in a field of one tag.
pub open spec fn repeated(tag: nat, bodies: Seq<Seq<u8>>) -> Seq<Field> {
    Seq::new(bodies.len(), |i: int| Field { tag, value: Value::Bytes(bodies[i]) })
}

/// What bodies in fields of one tag hold under a tag.
pub proof fn lemma_repeated(tag: nat, bodies: Seq<Seq<u8>>, other: nat)
    ensures
        bodies_in(repeated(tag, bodies), other) == (if tag == other {
            bodies
        } else {
            Seq::empty()
        }),
    decreases bodies.len(),
{
    if bodies.len() > 0 {
        let rest = bodies.drop_last();
        lemma_repeated(tag, rest, other);
        assert(repeated(tag, bodies).drop_last() =~= repeated(tag, rest));
        assert(rest.push(bodies.last()) =~= bodies);
    } else {
        assert(bodies =~= Seq::empty());
    }
}

/// One more body in a field of the same tag.
pub proof fn lemma_repeated_push(tag: nat, bodies: Seq<Seq<u8>>, body: Seq<u8>)
    ensures
        message(repeated(tag, bodies.push(body))) == message(repeated(tag, bodies)) + bytes_field(
            tag,
            body,
        ),
{
    assert(repeated(tag, bodies.push(body)) =~= repeated(tag, bodies) + bytes_part(tag, body));
    messages_concatenate(repeated(tag, bodies), bytes_part(tag, body));
    lemma_parts(tag, 0, body, Seq::empty());
}

/// What is made of each of some bodies, where it is known of each.
pub proof fn lemma_each_read<A>(
    bodies: Seq<Seq<u8>>,
    read: spec_fn(Seq<u8>) -> Option<A>,
    made: Seq<A>,
)
    requires
        bodies.len() == made.len(),
        forall|i: int| 0 <= i < bodies.len() ==> read(#[trigger] bodies[i]) == Some(made[i]),
    ensures
        each_read(bodies, read) == Some(made),
    decreases bodies.len(),
{
    if bodies.len() > 0 {
        let rest = bodies.drop_last();
        assert forall|i: int| 0 <= i < rest.len() implies read(#[trigger] rest[i]) == Some(
            made.drop_last()[i],
        ) by {
            assert(read(bodies[i]) == Some(made[i]));
        }
        lemma_each_read(rest, read, made.drop_last());
        assert(read(bodies[bodies.len() - 1]) == Some(made[made.len() - 1]));
        assert(made.drop_last().push(made.last()) =~= made);
    } else {
        assert(made =~= Seq::empty());
    }
}

/// What one more field of several numbers adds to a message that has none of them.
pub proof fn lemma_packed_part(fields: Seq<Field>, tag: nat, values: Seq<u64>, other: nat)
    requires
        tag == other ==> bodies_in(fields, tag).len() == 0,
    ensures
        numbers_in(fields + packed_part(tag, values), other) == (if tag == other {
            Some(as_numbers(values))
        } else {
            numbers_in(fields, other)
        }),
{
    let read = |b: Seq<u8>| numbers_of(b);
    if values.len() == 0 {
        assert(fields + packed_part(tag, values) =~= fields);
        assert(as_numbers(values) =~= Seq::empty());
        if tag == other {
            assert(bodies_in(fields, tag) =~= Seq::empty());
            assert(each_read(Seq::empty(), read) == Some(Seq::<Seq<nat>>::empty()));
        }
    } else {
        lemma_bytes_part(fields, tag, varints(values), other);
        if tag == other {
            numbers_read_back(values);
            let bodies = bodies_in(fields + packed_part(tag, values), other);
            assert(bodies =~= seq![varints(values)]);
            let lists = seq![as_numbers(values)];
            lemma_each_read(bodies, read, lists);
            assert(lists.drop_last() =~= Seq::empty());
            assert(strung(Seq::<Seq<nat>>::empty()) =~= Seq::<nat>::empty());
            assert(strung(lists) =~= as_numbers(values));
        }
    }
}

} // verus!
