//! Who may use the server.

use crate::refusal::{error, refused, Refusal};
use crate::server::{after, before, endpoint_of, header_value, route, Endpoint, HttpRequest};
use crate::text::{
    eq_ignore_ascii_case, find_char, first_index, first_index_is_first, from_chars, same_ignoring_case,
    to_chars, trim, trimmed,
};
use vstd::prelude::*;
use vstd::string::*;
use vstd::utf8::*;

verus! {

/// The byte at `i`, or zero beyond the end.
pub open spec fn byte_or_zero(bytes: Seq<u8>, i: int) -> u8 {
    if i < bytes.len() {
        bytes[i]
    } else {
        0
    }
}

/// The keys pass for equal: their lengths agree in the lowest byte, and every
/// byte that is provided is the one expected there, or zero beyond the end.
pub open spec fn keys_agree(provided: Seq<u8>, expected: Seq<u8>) -> bool {
    &&& provided.len() % 256 == expected.len() % 256
    &&& forall|i: int|
        0 <= i < provided.len() ==> #[trigger] provided[i] == byte_or_zero(expected, i)
}

/// Equal keys agree. Keys that agree are equal, unless their lengths differ by a
/// multiple of 256 and one is the other cut short, or the other with zeros
/// behind it.
pub proof fn agreeing_keys_are_equal(provided: Seq<u8>, expected: Seq<u8>)
    ensures
        provided == expected ==> keys_agree(provided, expected),
        keys_agree(provided, expected) && provided.len() == expected.len() ==> provided
            == expected,
        keys_agree(provided, expected) && provided.len() < expected.len() ==> {
            &&& (expected.len() - provided.len()) % 256 == 0
            &&& provided == expected.take(provided.len() as int)
        },
        keys_agree(provided, expected) && provided.len() > expected.len() ==> {
            &&& (provided.len() - expected.len()) % 256 == 0
            &&& provided == expected + Seq::new(
                (provided.len() - expected.len()) as nat,
                |i: int| 0u8,
            )
        },
{
    if keys_agree(provided, expected) {
        if provided.len() == expected.len() {
            assert(provided =~= expected);
        } else if provided.len() < expected.len() {
            assert(provided =~= expected.take(provided.len() as int));
        } else {
            assert(provided =~= expected + Seq::new(
                (provided.len() - expected.len()) as nat,
                |i: int| 0u8,
            ));
        }
    }
}

/// Compares two keys without stopping at the first byte that differs.
pub fn constant_time_eq(provided: &[u8], expected: &[u8]) -> (r: bool)
    ensures
        r == keys_agree(provided@, expected@),
{
    let m: usize = provided.len();
    let n: usize = expected.len();
    let mut difference: u8 = (m ^ n) as u8;
    assert((difference == 0) == (m % 256 == n % 256)) by {
        assert((((m ^ n) as u8) == 0) == (m % 256 == n % 256)) by (bit_vector);
    }
    let mut i: usize = 0;
    while i < provided.len()
        invariant
            i <= provided@.len(),
            n == expected@.len(),
            (difference == 0) == (provided@.len() % 256 == expected@.len() % 256 && forall|j: int|
                0 <= j < i ==> #[trigger] provided@[j] == byte_or_zero(expected@, j)),
        decreases provided@.len() - i,
    {
        let a: u8 = provided[i];
        let b: u8 = if i < n {
            expected[i]
        } else {
            0
        };
        let before: u8 = difference;
        difference = before | (a ^ b);
        assert(((before | (a ^ b)) == 0) == (before == 0 && a == b)) by (bit_vector);
        assert(b == byte_or_zero(expected@, i as int));
        i += 1;
    }
    difference == 0
}

/// The key that a request provides: the token of a bearer authorization.
pub open spec fn bearer_token(value: Seq<char>) -> Option<Seq<char>> {
    if value.contains(' ') && same_ignoring_case(before(value, ' '), "bearer"@) {
        Some(trimmed(after(value, ' ')))
    } else {
        None
    }
}

fn find_token(value: &str) -> (r: Option<String>)
    ensures
        match r {
            Some(token) => bearer_token(value@) == Some(token@),
            None => bearer_token(value@) is None,
        },
{
    let chars = to_chars(value);
    let at: usize = find_char(chars.as_slice(), ' ');
    proof {
        first_index_is_first(value@, ' ');
    }
    if at == chars.len() {
        return None;
    }
    let scheme = vstd::slice::slice_subrange(chars.as_slice(), 0, at);
    let token = vstd::slice::slice_subrange(chars.as_slice(), at + 1, chars.len());
    assert(scheme@ =~= before(value@, ' '));
    assert(token@ =~= after(value@, ' '));
    let bearer = to_chars("bearer");
    if eq_ignore_ascii_case(scheme, bearer.as_slice()) {
        Some(from_chars(trim(token)))
    } else {
        None
    }
}

/// A request with these headers may pass, where `key` is the one expected.
pub open spec fn authorized(headers: Seq<(Seq<char>, Seq<char>)>, key: Seq<char>) -> bool {
    match header_value(headers, "authorization"@) {
        Some(value) => match bearer_token(value) {
            Some(token) => keys_agree(encode_utf8(token), encode_utf8(key)),
            None => false,
        },
        None => false,
    }
}

/// Turns down a request that does not provide the key, where one is expected.
pub fn check_auth(req: &HttpRequest, api_key: &Option<String>) -> (r: Option<Refusal>)
    ensures
        match r {
            Some(refusal) => {
                &&& *api_key is Some
                &&& !authorized(req.headers(), (*api_key)->0@)
                &&& refusal@ == refused(
                    401,
                    "invalid_request_error"@,
                    "invalid or missing API key"@,
                )
            },
            None => *api_key matches Some(key) ==> authorized(req.headers(), key@),
        },
{
    let key = match api_key {
        Some(key) => key,
        None => return None,
    };
    let ok = match req.header("authorization") {
        Some(value) => match find_token(value) {
            Some(token) => constant_time_eq(token.as_str().as_bytes(), key.as_str().as_bytes()),
            None => false,
        },
        None => false,
    };
    if ok {
        None
    } else {
        Some(error(401, "invalid_request_error", "invalid or missing API key".to_owned()))
    }
}

/// Where a request goes, once it has provided the key that may be expected. A
/// request that has not goes nowhere.
pub fn let_in(req: &HttpRequest, api_key: &Option<String>) -> (r: Result<Endpoint, Refusal>)
    ensures
        match r {
            Ok(endpoint) => {
                &&& endpoint == endpoint_of(req.method@, req.path@)
                &&& *api_key matches Some(key) ==> authorized(req.headers(), key@)
            },
            Err(refusal) => {
                &&& *api_key is Some
                &&& !authorized(req.headers(), (*api_key)->0@)
                &&& refusal@ == refused(
                    401,
                    "invalid_request_error"@,
                    "invalid or missing API key"@,
                )
            },
        },
{
    match check_auth(req, api_key) {
        Some(refusal) => Err(refusal),
        None => Ok(route(req.method.as_str(), req.path.as_str())),
    }
}

/// Who bears the key is let in, whatever case the scheme is written in and
/// whatever white space stands around the key.
pub proof fn bearers_of_the_key_are_let_in(
    headers: Seq<(Seq<char>, Seq<char>)>,
    scheme: Seq<char>,
    rest: Seq<char>,
    key: Seq<char>,
)
    requires
        header_value(headers, "authorization"@) == Some(scheme + seq![' '] + rest),
        !scheme.contains(' '),
    ensures
        bearer_token(scheme + seq![' '] + rest) == (if same_ignoring_case(scheme, "bearer"@) {
            Some(trimmed(rest))
        } else {
            None
        }),
        same_ignoring_case(scheme, "bearer"@) && trimmed(rest) == key ==> authorized(headers, key),
        !same_ignoring_case(scheme, "bearer"@) ==> !authorized(headers, key),
        authorized(headers, key) && encode_utf8(trimmed(rest)).len() == encode_utf8(key).len()
            ==> trimmed(rest) == key,
{
    let value = scheme + seq![' '] + rest;
    first_index_is_first(value, ' ');
    let n = scheme.len() as int;
    assert(value[n] == ' ');
    assert(value.contains(' '));
    assert forall|j: int| 0 <= j < n implies value[j] != ' ' by {
        assert(value[j] == scheme[j]);
    }
    assert(first_index(value, ' ') == n);
    assert(value.take(n) =~= scheme);
    assert(value.skip(n + 1) =~= rest);
    agreeing_keys_are_equal(encode_utf8(trimmed(rest)), encode_utf8(key));
    encode_utf8_decode_utf8(trimmed(rest));
    encode_utf8_decode_utf8(key);
}

/// A request without a bearer authorization is not let in where a key is
/// expected.
pub proof fn others_are_not_let_in(headers: Seq<(Seq<char>, Seq<char>)>, key: Seq<char>)
    ensures
        header_value(headers, "authorization"@) is None ==> !authorized(headers, key),
        header_value(headers, "authorization"@) matches Some(value) ==> (!value.contains(' ')
            ==> !authorized(headers, key)),
{
}

} // verus!
