//! Base64, and the data URIs that carry it.

use crate::text::{
    find, find_char, first_index, first_index_is_first, from_chars, matches_at, occurs, occurs_at,
    to_chars,
};
use vstd::prelude::*;
use vstd::string::*;
use vstd::utf8::*;

verus! {

/// The value of a symbol of the alphabet.
pub open spec fn symbol_value(byte: u8) -> Option<u8> {
    if 65 <= byte <= 90 {
        Some((byte - 65) as u8)
    } else if 97 <= byte <= 122 {
        Some((byte - 71) as u8)
    } else if 48 <= byte <= 57 {
        Some((byte + 4) as u8)
    } else if byte == 43 {
        Some(62)
    } else if byte == 47 {
        Some(63)
    } else {
        None
    }
}

/// ASCII white space: tab, line feed, form feed, carriage return and space.
pub open spec fn ascii_space(byte: u8) -> bool {
    byte == 9 || byte == 10 || byte == 12 || byte == 13 || byte == 32
}

/// What counts of an encoded text: all but the white space, up to the padding.
pub open spec fn payload(text: Seq<u8>) -> Seq<u8>
    decreases text.len(),
{
    if text.len() == 0 || text[0] == 61 {
        seq![]
    } else if ascii_space(text[0]) {
        payload(text.drop_first())
    } else {
        seq![text[0]] + payload(text.drop_first())
    }
}

/// Every byte is a symbol of the alphabet.
pub open spec fn all_symbols(data: Seq<u8>) -> bool {
    forall|i: int| 0 <= i < data.len() ==> #[trigger] symbol_value(data[i]) is Some
}

/// The values of symbols.
pub open spec fn symbol_values(data: Seq<u8>) -> Seq<u8> {
    Seq::new(data.len(), |i: int| symbol_value(data[i])->0)
}

/// The bytes that values of six bits spell, four values to three bytes. A rest
/// of two values spells one byte, a rest of three values two.
pub open spec fn octets(v: Seq<u8>) -> Seq<u8>
    decreases v.len(),
{
    if v.len() < 2 {
        seq![]
    } else {
        let a = (v[0] * 4 + v[1] / 16) as u8;
        if v.len() == 2 {
            seq![a]
        } else {
            let b = (v[1] % 16 * 16 + v[2] / 4) as u8;
            if v.len() == 3 {
                seq![a, b]
            } else {
                let c = (v[2] % 4 * 64 + v[3]) as u8;
                seq![a, b, c] + octets(v.skip(4))
            }
        }
    }
}

/// What an encoded text decodes to, or what is wrong with it.
pub open spec fn decoded(text: Seq<u8>) -> Result<Seq<u8>, Seq<char>> {
    let data = payload(text);
    if !all_symbols(data) {
        Err("invalid base64 character"@)
    } else if data.len() % 4 == 1 {
        Err("truncated base64 data"@)
    } else {
        Ok(octets(symbol_values(data)))
    }
}

/// The symbol of a value.
pub open spec fn symbol(value: u8) -> u8 {
    if value < 26 {
        (value + 65) as u8
    } else if value < 52 {
        (value + 71) as u8
    } else if value < 62 {
        (value - 4) as u8
    } else if value == 62 {
        43
    } else {
        47
    }
}

/// The encoding of `bytes`, with its padding.
pub open spec fn encoded(bytes: Seq<u8>) -> Seq<u8>
    decreases bytes.len(),
{
    if bytes.len() == 0 {
        seq![]
    } else {
        let a = symbol((bytes[0] / 4) as u8);
        if bytes.len() == 1 {
            seq![a, symbol((bytes[0] % 4 * 16) as u8), 61, 61]
        } else {
            let b = symbol((bytes[0] % 4 * 16 + bytes[1] / 16) as u8);
            if bytes.len() == 2 {
                seq![a, b, symbol((bytes[1] % 16 * 4) as u8), 61]
            } else {
                let c = symbol((bytes[1] % 16 * 4 + bytes[2] / 64) as u8);
                let d = symbol((bytes[2] % 64) as u8);
                seq![a, b, c, d] + encoded(bytes.skip(3))
            }
        }
    }
}

proof fn symbols_read_back(value: u8)
    requires
        value < 64,
    ensures
        symbol_value(symbol(value)) == Some(value),
        !ascii_space(symbol(value)),
        symbol(value) != 61,
{
}

proof fn payload_of_symbol(text: Seq<u8>, value: u8)
    requires
        text.len() > 0,
        value < 64,
        text[0] == symbol(value),
    ensures
        payload(text) == seq![symbol(value)] + payload(text.drop_first()),
{
    symbols_read_back(value);
}

/// The values of three bytes put together again.
proof fn values_spell_bytes(x: u8, y: u8, z: u8)
    ensures
        (x / 4) as u8 * 4 + ((x % 4 * 16 + y / 16) as u8) / 16 == x,
        ((x % 4 * 16 + y / 16) as u8) % 16 * 16 + ((y % 16 * 4 + z / 64) as u8) / 4 == y,
        ((y % 16 * 4 + z / 64) as u8) % 4 * 64 + (z % 64) as u8 == z,
        x / 4 < 64,
        x % 4 * 16 + y / 16 < 64,
        y % 16 * 4 + z / 64 < 64,
        z % 64 < 64,
{
}

proof fn one_byte_reads_back(x: u8)
    ensures
        decoded(encoded(seq![x])) == Ok::<_, Seq<char>>(seq![x]),
{
    let text = encoded(seq![x]);
    let data = payload(text);
    values_spell_bytes(x, 0, 0);
    let v0 = (x / 4) as u8;
    let v1 = (x % 4 * 16) as u8;
    payload_of_symbol(text, v0);
    payload_of_symbol(text.skip(1), v1);
    assert(text.drop_first() =~= text.skip(1));
    assert(text.skip(1).drop_first()[0] == 61);
    assert(data =~= seq![symbol(v0), symbol(v1)]);
    symbols_read_back(v0);
    symbols_read_back(v1);
    assert(symbol_values(data) =~= seq![v0, v1]);
    assert(octets(seq![v0, v1]) =~= seq![x]);
}

proof fn two_bytes_read_back(x: u8, y: u8)
    ensures
        decoded(encoded(seq![x, y])) == Ok::<_, Seq<char>>(seq![x, y]),
{
    let text = encoded(seq![x, y]);
    let data = payload(text);
    values_spell_bytes(x, y, 0);
    let v0 = (x / 4) as u8;
    let v1 = (x % 4 * 16 + y / 16) as u8;
    let v2 = (y % 16 * 4) as u8;
    payload_of_symbol(text, v0);
    payload_of_symbol(text.skip(1), v1);
    payload_of_symbol(text.skip(2), v2);
    assert(text.drop_first() =~= text.skip(1));
    assert(text.skip(1).drop_first() =~= text.skip(2));
    assert(text.skip(2).drop_first()[0] == 61);
    assert(data =~= seq![symbol(v0), symbol(v1), symbol(v2)]);
    symbols_read_back(v0);
    symbols_read_back(v1);
    symbols_read_back(v2);
    assert(symbol_values(data) =~= seq![v0, v1, v2]);
    assert(octets(seq![v0, v1, v2]) =~= seq![x, y]);
}

/// Four symbols in front of a text that decodes add the three bytes they spell.
proof fn four_symbols_spell_three(v0: u8, v1: u8, v2: u8, v3: u8, rest: Seq<u8>)
    requires
        v0 < 64 && v1 < 64 && v2 < 64 && v3 < 64,
        decoded(rest) is Ok,
    ensures
        decoded(seq![symbol(v0), symbol(v1), symbol(v2), symbol(v3)] + rest) == Ok::<_, Seq<char>>(
            seq![
                (v0 * 4 + v1 / 16) as u8,
                (v1 % 16 * 16 + v2 / 4) as u8,
                (v2 % 4 * 64 + v3) as u8,
            ] + decoded(rest)->Ok_0,
        ),
{
    let head = seq![symbol(v0), symbol(v1), symbol(v2), symbol(v3)];
    let text = head + rest;
    let data = payload(text);
    let tail = payload(rest);
    payload_of_symbol(text, v0);
    payload_of_symbol(text.skip(1), v1);
    payload_of_symbol(text.skip(2), v2);
    payload_of_symbol(text.skip(3), v3);
    assert(text.drop_first() =~= text.skip(1));
    assert(text.skip(1).drop_first() =~= text.skip(2));
    assert(text.skip(2).drop_first() =~= text.skip(3));
    assert(text.skip(3).drop_first() =~= rest);
    assert(data =~= head + tail);
    symbols_read_back(v0);
    symbols_read_back(v1);
    symbols_read_back(v2);
    symbols_read_back(v3);
    assert forall|i: int| 0 <= i < data.len() implies #[trigger] symbol_value(data[i]) is Some by {
        if i >= 4 {
            assert(data[i] == tail[i - 4]);
        }
    }
    let values = symbol_values(data);
    assert(values.skip(4) =~= symbol_values(tail));
    assert(values[0] == v0 && values[1] == v1 && values[2] == v2 && values[3] == v3);
}

/// Decoding gives back what was encoded.
pub proof fn decoding_undoes_encoding(bytes: Seq<u8>)
    ensures
        decoded(encoded(bytes)) == Ok::<_, Seq<char>>(bytes),
    decreases bytes.len(),
{
    if bytes.len() == 0 {
        assert(octets(symbol_values(payload(encoded(bytes)))) =~= bytes);
    } else if bytes.len() == 1 {
        one_byte_reads_back(bytes[0]);
        assert(bytes =~= seq![bytes[0]]);
    } else if bytes.len() == 2 {
        two_bytes_read_back(bytes[0], bytes[1]);
        assert(bytes =~= seq![bytes[0], bytes[1]]);
    } else {
        let (x, y, z) = (bytes[0], bytes[1], bytes[2]);
        let rest = bytes.skip(3);
        decoding_undoes_encoding(rest);
        values_spell_bytes(x, y, z);
        four_symbols_spell_three(
            (x / 4) as u8,
            (x % 4 * 16 + y / 16) as u8,
            (y % 16 * 4 + z / 64) as u8,
            (z % 64) as u8,
            encoded(rest),
        );
        assert(bytes =~= seq![x, y, z] + rest);
    }
}

fn value_of(byte: u8) -> (r: Option<u8>)
    ensures
        r == symbol_value(byte),
        r matches Some(value) ==> value < 64,
{
    if 65 <= byte && byte <= 90 {
        Some(byte - 65)
    } else if 97 <= byte && byte <= 122 {
        Some(byte - 71)
    } else if 48 <= byte && byte <= 57 {
        Some(byte + 4)
    } else if byte == 43 {
        Some(62)
    } else if byte == 47 {
        Some(63)
    } else {
        None
    }
}

fn spell(v: &Vec<u8>) -> (r: Vec<u8>)
    requires
        forall|i: int| 0 <= i < v@.len() ==> v@[i] < 64,
    ensures
        r@ == octets(v@),
{
    let mut out: Vec<u8> = Vec::new();
    let mut i: usize = 0;
    assert(v@.skip(0) == v@);
    while v.len() - i >= 4
        invariant
            i <= v@.len(),
            forall|i: int| 0 <= i < v@.len() ==> v@[i] < 64,
            out@ + octets(v@.skip(i as int)) == octets(v@),
        decreases v@.len() - i,
    {
        let ghost rest = v@.skip(i as int);
        let ghost before = out@;
        assert(rest[0] == v@[i as int] && rest[1] == v@[i + 1] && rest[2] == v@[i + 2] && rest[3]
            == v@[i + 3]);
        out.push(v[i] * 4 + v[i + 1] / 16);
        out.push(v[i + 1] % 16 * 16 + v[i + 2] / 4);
        out.push(v[i + 2] % 4 * 64 + v[i + 3]);
        assert(rest.skip(4) =~= v@.skip(i + 4));
        assert(out@ + octets(v@.skip(i + 4)) =~= before + octets(rest));
        i += 4;
    }
    let ghost rest = v@.skip(i as int);
    if v.len() - i == 2 {
        assert(rest[0] == v@[i as int] && rest[1] == v@[i + 1]);
        out.push(v[i] * 4 + v[i + 1] / 16);
    } else if v.len() - i == 3 {
        assert(rest[0] == v@[i as int] && rest[1] == v@[i + 1] && rest[2] == v@[i + 2]);
        out.push(v[i] * 4 + v[i + 1] / 16);
        out.push(v[i + 1] % 16 * 16 + v[i + 2] / 4);
    }
    assert(out@ =~= octets(v@));
    out
}

/// Decodes base64. White space is passed over, and the padding ends the data.
pub fn base64_decode(input: &str) -> (r: Result<Vec<u8>, String>)
    ensures
        match r {
            Ok(bytes) => decoded(encode_utf8(input@)) == Ok::<_, Seq<char>>(bytes@),
            Err(message) => decoded(encode_utf8(input@)) == Err::<Seq<u8>, _>(message@),
        },
{
    let text = input.as_bytes();
    let ghost all = text@;
    let mut values: Vec<u8> = Vec::new();
    let ghost mut seen = Seq::<u8>::empty();
    let mut i: usize = 0;
    assert(all.skip(0) == all);
    assert(seen + payload(all) =~= payload(all));
    while i < text.len() && text[i] != 61
        invariant
            i <= text@.len(),
            all == text@,
            all == encode_utf8(input@),
            seen + payload(all.skip(i as int)) == payload(all),
            all_symbols(seen),
            values@ == symbol_values(seen),
            forall|j: int| 0 <= j < values@.len() ==> values@[j] < 64,
        decreases text@.len() - i,
    {
        let byte: u8 = text[i];
        let ghost rest = all.skip(i as int);
        assert(rest[0] == byte);
        assert(rest.drop_first() == all.skip(i + 1));
        if !(byte == 9 || byte == 10 || byte == 12 || byte == 13 || byte == 32) {
            let ghost longer = seen.push(byte);
            assert(longer + payload(all.skip(i + 1)) =~= seen + payload(rest));
            match value_of(byte) {
                Some(value) => {
                    values.push(value);
                    assert(values@ =~= symbol_values(longer));
                },
                None => {
                    assert(payload(all)[seen.len() as int] == byte);
                    return Err("invalid base64 character".to_owned());
                },
            }
            proof {
                seen = longer;
            }
        }
        i += 1;
    }
    assert(payload(all.skip(i as int)).len() == 0) by {
        if i < text@.len() {
            assert(all.skip(i as int)[0] == 61);
        }
    }
    assert(payload(all) =~= seen);
    if values.len() % 4 == 1 {
        return Err("truncated base64 data".to_owned());
    }
    Ok(spell(&values))
}

/// The bytes of a base64 data URI, or what is wrong with it.
pub open spec fn data_url_bytes(url: Seq<char>) -> Result<Seq<u8>, Seq<char>> {
    if !url.contains(',') {
        Err(
            "image_url.url must be a data: URI (data:<mime>;base64,<data>) -- remote URLs are not supported yet"@,
        )
    } else {
        let comma = first_index(url, ',');
        if !occurs_at(url, "data:"@, 0) || !occurs(url.take(comma), "base64"@) {
            Err(
                "image_url.url must be a base64 data: URI -- remote URLs are not supported yet"@,
            )
        } else {
            match decoded(encode_utf8(url.skip(comma + 1))) {
                Ok(bytes) => Ok(bytes),
                Err(message) => Err("invalid base64 image data: "@ + message),
            }
        }
    }
}

/// Decodes a base64 data URI.
pub fn decode_data_url(url: &str) -> (r: Result<Vec<u8>, String>)
    ensures
        match r {
            Ok(bytes) => data_url_bytes(url@) == Ok::<_, Seq<char>>(bytes@),
            Err(message) => data_url_bytes(url@) == Err::<Seq<u8>, _>(message@),
        },
{
    let chars = to_chars(url);
    let comma: usize = find_char(chars.as_slice(), ',');
    proof {
        first_index_is_first(url@, ',');
    }
    if comma == chars.len() {
        return Err(
            "image_url.url must be a data: URI (data:<mime>;base64,<data>) -- remote URLs are not supported yet".to_owned(),
        );
    }
    let head = vstd::slice::slice_subrange(chars.as_slice(), 0, comma);
    assert(head@ =~= url@.take(comma as int));
    let scheme = to_chars("data:");
    let encoding = to_chars("base64");
    if !matches_at(chars.as_slice(), scheme.as_slice(), 0) || find(
        head,
        encoding.as_slice(),
    ).is_none() {
        return Err(
            "image_url.url must be a base64 data: URI -- remote URLs are not supported yet".to_owned(),
        );
    }
    let tail = vstd::slice::slice_subrange(chars.as_slice(), comma + 1, chars.len());
    assert(tail@ =~= url@.skip(comma + 1));
    let data = from_chars(tail);
    match base64_decode(data.as_str()) {
        Ok(bytes) => Ok(bytes),
        Err(fault) => {
            let mut message = "invalid base64 image data: ".to_owned();
            message.append(fault.as_str());
            Err(message)
        },
    }
}

/// The alphabet of base64: capital letters, small letters, digits, plus and
/// slash, in the order of their values.
pub proof fn symbols_are_the_alphabet(byte: u8)
    ensures
        ({
            let letters = seq![
                65u8, 66, 67, 68, 69, 70, 71, 72, 73, 74, 75, 76, 77, 78, 79, 80, 81, 82, 83, 84,
                85, 86, 87, 88, 89, 90, 97, 98, 99, 100, 101, 102, 103, 104, 105, 106, 107, 108,
                109, 110, 111, 112, 113, 114, 115, 116, 117, 118, 119, 120, 121, 122, 48, 49, 50,
                51, 52, 53, 54, 55, 56, 57, 43, 47,
            ];
            &&& letters.len() == 64
            &&& symbol_value(byte) matches Some(value) ==> value < 64 && letters[value as int]
                == byte
            &&& symbol_value(byte) is None ==> !letters.contains(byte)
        }),
{
}

/// Four values spell the three bytes that make up the same number of 24 bits. Two
/// at the end spell one byte, three at the end two, and the bits left over do not
/// count.
pub proof fn values_are_bits(v: Seq<u8>)
    requires
        forall|i: int| 0 <= i < v.len() ==> #[trigger] v[i] < 64,
    ensures
        v.len() < 2 ==> octets(v).len() == 0,
        v.len() == 2 ==> octets(v).len() == 1 && octets(v)[0] == (v[0] * 64 + v[1]) / 16,
        v.len() == 3 ==> octets(v).len() == 2 && octets(v)[0] * 256 + octets(v)[1] == (v[0] * 4096
            + v[1] * 64 + v[2]) / 4,
        v.len() >= 4 ==> {
            &&& octets(v).len() == 3 + octets(v.skip(4)).len()
            &&& octets(v)[0] * 65536 + octets(v)[1] * 256 + octets(v)[2] == v[0] * 262144 + v[1]
                * 4096 + v[2] * 64 + v[3]
            &&& octets(v).skip(3) == octets(v.skip(4))
        },
{
    if v.len() >= 4 {
        assert(v[0] < 64 && v[1] < 64 && v[2] < 64 && v[3] < 64);
        assert(octets(v).skip(3) =~= octets(v.skip(4)));
    } else if v.len() >= 2 {
        assert(v[0] < 64 && v[1] < 64);
        if v.len() == 3 {
            assert(v[2] < 64);
        }
    }
}

/// White space in an encoded text does not count, nor does anything behind the
/// padding.
pub proof fn white_space_and_padding_do_not_count(a: Seq<u8>, byte: u8, b: Seq<u8>)
    ensures
        byte == 9 || byte == 10 || byte == 12 || byte == 13 || byte == 32 ==> decoded(
            a + seq![byte] + b,
        ) == decoded(a + b),
        byte == 61 ==> decoded(a + seq![byte] + b) == decoded(a),
{
    payloads_skip(a, byte, b);
}

proof fn payloads_skip(a: Seq<u8>, byte: u8, b: Seq<u8>)
    ensures
        byte == 9 || byte == 10 || byte == 12 || byte == 13 || byte == 32 ==> payload(
            a + seq![byte] + b,
        ) == payload(a + b),
        byte == 61 ==> payload(a + seq![byte] + b) == payload(a),
    decreases a.len(),
{
    let all = a + seq![byte] + b;
    if a.len() == 0 {
        assert(all.drop_first() =~= b);
        assert(a + b =~= b);
    } else {
        payloads_skip(a.drop_first(), byte, b);
        assert(all.drop_first() =~= a.drop_first() + seq![byte] + b);
        assert((a + b).drop_first() =~= a.drop_first() + b);
        assert(all[0] == a[0] && (a + b)[0] == a[0]);
    }
}

/// A text is refused where a byte before the padding is neither white space nor a
/// symbol, or where one symbol is left over; every other text is decoded.
pub proof fn faults_are_bytes_that_are_no_symbols(text: Seq<u8>)
    requires
        !text.contains(61),
    ensures
        (exists|i: int|
            0 <= i < text.len() && symbol_value(#[trigger] text[i]) is None && !ascii_space(
                text[i],
            )) ==> decoded(text) == Err::<Seq<u8>, _>("invalid base64 character"@),
        (forall|i: int|
            0 <= i < text.len() ==> symbol_value(#[trigger] text[i]) is Some) ==> {
            &&& text.len() % 4 == 1 ==> decoded(text) == Err::<Seq<u8>, _>(
                "truncated base64 data"@,
            )
            &&& text.len() % 4 != 1 ==> decoded(text) == Ok::<_, Seq<char>>(
                octets(symbol_values(text)),
            )
        },
{
    payload_holds_the_rest(text);
    if exists|i: int|
        0 <= i < text.len() && symbol_value(#[trigger] text[i]) is None && !ascii_space(text[i]) {
        let i = choose|i: int|
            0 <= i < text.len() && symbol_value(#[trigger] text[i]) is None && !ascii_space(
                text[i],
            );
        assert(payload(text).contains(text[i]));
        let k = choose|k: int| 0 <= k < payload(text).len() && payload(text)[k] == text[i];
        assert(symbol_value(payload(text)[k]) is None);
    }
    if forall|i: int| 0 <= i < text.len() ==> symbol_value(#[trigger] text[i]) is Some {
        assert forall|i: int| 0 <= i < text.len() implies !ascii_space(#[trigger] text[i]) by {
            assert(symbol_value(text[i]) is Some);
        }
        assert(payload(text) == text);
    }
}

proof fn payload_holds_the_rest(text: Seq<u8>)
    requires
        !text.contains(61),
    ensures
        forall|i: int|
            0 <= i < text.len() && !ascii_space(#[trigger] text[i]) ==> payload(text).contains(
                text[i],
            ),
        (forall|i: int| 0 <= i < text.len() ==> !ascii_space(#[trigger] text[i])) ==> payload(text)
            == text,
    decreases text.len(),
{
    if text.len() > 0 {
        let rest = text.drop_first();
        assert(text[0] != 61);
        assert(!rest.contains(61)) by {
            if rest.contains(61) {
                let k = choose|k: int| 0 <= k < rest.len() && rest[k] == 61;
                assert(text[k + 1] == 61);
            }
        }
        payload_holds_the_rest(rest);
        assert forall|i: int| 0 <= i < text.len() && !ascii_space(#[trigger] text[i]) implies payload(
            text,
        ).contains(text[i]) by {
            if i == 0 {
                assert(payload(text)[0] == text[0]);
            } else {
                assert(rest[i - 1] == text[i]);
                assert(payload(rest).contains(text[i]));
                let k = choose|k: int| 0 <= k < payload(rest).len() && payload(rest)[k] == text[i];
                if ascii_space(text[0]) {
                    assert(payload(text)[k] == text[i]);
                } else {
                    assert(payload(text)[k + 1] == text[i]);
                }
            }
        }
        if forall|i: int| 0 <= i < text.len() ==> !ascii_space(#[trigger] text[i]) {
            assert forall|i: int| 0 <= i < rest.len() implies !ascii_space(#[trigger] rest[i]) by {
                assert(rest[i] == text[i + 1]);
            }
            assert(payload(text) =~= text);
        }
    }
}

/// A data URI holds what stands behind its first comma, decoded, where it says
/// before the comma that it is base64; no other text is taken.
pub proof fn data_urls_hold_what_follows_the_comma(head: Seq<char>, tail: Seq<char>, url: Seq<char>)
    requires
        !head.contains(','),
    ensures
        ({
            let whole = "data:"@ + head + seq![','] + tail;
            let base64 = occurs("data:"@ + head, "base64"@);
            &&& data_url_bytes(whole) is Ok <==> base64 && decoded(encode_utf8(tail)) is Ok
            &&& data_url_bytes(whole) matches Ok(bytes) ==> decoded(encode_utf8(tail)) == Ok::<
                _,
                Seq<char>,
            >(bytes)
        }),
        data_url_bytes(url) is Ok ==> url.contains(',') && url.len() >= 5 && url.take(5)
            == "data:"@,
{
    let scheme = "data:"@;
    let front = scheme + head;
    let whole = front + seq![','] + tail;
    reveal_strlit("data:");
    let n = front.len() as int;
    first_index_is_first(whole, ',');
    assert(whole[n] == ',');
    assert(whole.contains(','));
    assert forall|j: int| 0 <= j < n implies whole[j] != ',' by {
        if j < 5 {
            assert(whole[j] == scheme[j]);
        } else {
            assert(whole[j] == head[j - 5]);
        }
    }
    assert(first_index(whole, ',') == n);
    assert(whole.take(n) =~= front);
    assert(whole.skip(n + 1) =~= tail);
    assert(whole.subrange(0, 5) =~= scheme);
    if data_url_bytes(url) is Ok {
        assert(url.take(5) =~= url.subrange(0, 5));
    }
}

} // verus!
