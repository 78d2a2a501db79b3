//! The HTTP messages of the server: how a request is read, where it goes, and
//! how a response begins.

use crate::refusal::{bad_request, error, refused, Refusal};
use crate::schema::Complaint;
use crate::text::{
    decimal, eq_ignore_ascii_case, find_char, first_index, first_index_is_first, from_chars,
    number_value, parse_number, push_decimal, same_ignoring_case, str_eq, to_chars, trim, trimmed,
};
use std::sync::mpsc;
use vstd::prelude::*;
use vstd::string::*;
use vstd::utf8::*;

verus! {

pub const MAX_BODY_BYTES: u64 = 33554432;

pub const MAX_LINE_BYTES: u64 = 8192;

pub const MAX_HEADER_LINES: usize = 100;

pub const MAX_HEADER_BYTES: usize = 65536;

pub const MAX_CONNECTIONS: usize = 256;

/// The receiving end of a channel of byte chunks.
#[verifier::external_type_specification]
#[verifier::external_body]
#[verifier::reject_recursive_types(T)]
pub struct ExReceiver<T>(mpsc::Receiver<T>);

/// `String::from_utf8` takes bytes that are valid UTF-8, for the characters
/// that they encode, and no others.
#[verifier::external_body]
fn utf8_string(bytes: Vec<u8>) -> (r: Option<String>)
    ensures
        match r {
            Some(text) => encode_utf8(text@) == bytes@,
            None => !valid_utf8(bytes@),
        },
{
    String::from_utf8(bytes).ok()
}

pub struct HttpRequest {
    pub method: String,
    pub path: String,
    pub headers: Vec<(String, String)>,
    pub body: Vec<u8>,
}

/// Names and values of headers.
pub open spec fn header_texts(headers: Seq<(String, String)>) -> Seq<(Seq<char>, Seq<char>)> {
    Seq::new(headers.len(), |i: int| (headers[i].0@, headers[i].1@))
}

/// The value of the first header of the given name, in whatever case.
pub open spec fn header_value(headers: Seq<(Seq<char>, Seq<char>)>, name: Seq<char>) -> Option<
    Seq<char>,
>
    decreases headers.len(),
{
    if headers.len() == 0 {
        None
    } else if same_ignoring_case(headers[0].0, name) {
        Some(headers[0].1)
    } else {
        header_value(headers.drop_first(), name)
    }
}

/// Whether a text is `name`, in whatever case.
fn is_named(text: &String, name: &str) -> (r: bool)
    ensures
        r == same_ignoring_case(text@, name@),
{
    let a = to_chars(text.as_str());
    let b = to_chars(name);
    eq_ignore_ascii_case(a.as_slice(), b.as_slice())
}

impl HttpRequest {
    /// The headers, in order.
    pub open spec fn headers(&self) -> Seq<(Seq<char>, Seq<char>)> {
        header_texts(self.headers@)
    }

    /// The value of the first header of the given name, in whatever case.
    pub fn header(&self, name: &str) -> (r: Option<&str>)
        ensures
            match r {
                Some(value) => header_value(self.headers(), name@) == Some(value@),
                None => header_value(self.headers(), name@) is None,
            },
    {
        let ghost all = self.headers();
        let mut i: usize = 0;
        assert(all.skip(0) == all);
        while i < self.headers.len()
            invariant
                i <= self.headers@.len(),
                all == header_texts(self.headers@),
                header_value(all, name@) == header_value(all.skip(i as int), name@),
            decreases self.headers@.len() - i,
        {
            assert(all.skip(i as int).drop_first() == all.skip(i + 1));
            assert(all.skip(i as int)[0] == all[i as int]);
            if is_named(&self.headers[i].0, name) {
                return Some(self.headers[i].1.as_str());
            }
            i += 1;
        }
        None
    }
}

/// `bytes` without the line ends at its end.
pub open spec fn without_line_end(bytes: Seq<u8>) -> Seq<u8>
    decreases bytes.len(),
{
    if bytes.len() > 0 && (bytes.last() == 10 || bytes.last() == 13) {
        without_line_end(bytes.drop_last())
    } else {
        bytes
    }
}

/// What the bytes of one line amount to: nothing when the connection was
/// closed, the line's text, or a refusal.
pub open spec fn line_of(raw: Seq<u8>) -> Result<Option<Seq<char>>, (u16, Complaint)> {
    if raw.len() == 0 {
        Ok(None)
    } else if raw.last() != 10 {
        Err(refused(431, "invalid_request_error"@, "request line or header too large"@))
    } else if !valid_utf8(without_line_end(raw)) {
        Err(bad_request("request line is not valid UTF-8"@))
    } else {
        Ok(Some(decode_utf8(without_line_end(raw))))
    }
}

/// Reads one line out of the bytes that were received for it.
pub fn read_line(raw: Vec<u8>) -> (r: Result<Option<String>, Refusal>)
    ensures
        match r {
            Ok(Some(line)) => line_of(raw@) == Ok::<_, (u16, Complaint)>(Some(line@))
                && encode_utf8(line@) == without_line_end(raw@),
            Ok(None) => line_of(raw@) == Ok::<_, (u16, Complaint)>(None::<Seq<char>>),
            Err(refusal) => line_of(raw@) == Err::<Option<Seq<char>>, _>(refusal@),
        },
{
    if raw.len() == 0 {
        return Ok(None);
    }
    if raw[raw.len() - 1] != 10 {
        return Err(
            error(431, "invalid_request_error", "request line or header too large".to_owned()),
        );
    }
    let mut kept = raw;
    while kept.len() > 0 && (kept[kept.len() - 1] == 10 || kept[kept.len() - 1] == 13)
        invariant
            without_line_end(kept@) == without_line_end(raw@),
        decreases kept@.len(),
    {
        assert(kept@.take(kept@.len() - 1) == kept@.drop_last());
        let _ = kept.pop();
    }
    match utf8_string(kept) {
        Some(line) => {
            proof {
                encode_utf8_valid_utf8(line@);
                encode_utf8_decode_utf8(line@);
            }
            Ok(Some(line))
        },
        None => Err(
            error(400, "invalid_request_error", "request line is not valid UTF-8".to_owned()),
        ),
    }
}

/// The part of `s` before the first `c`, or all of it.
pub open spec fn before(s: Seq<char>, c: char) -> Seq<char> {
    s.take(first_index(s, c))
}

/// The part of `s` after the first `c`, or nothing.
pub open spec fn after(s: Seq<char>, c: char) -> Seq<char> {
    if first_index(s, c) < s.len() {
        s.skip(first_index(s, c) + 1)
    } else {
        seq![]
    }
}

/// What has been read of a request's head.
pub struct Head {
    pub method: Seq<char>,
    pub path: Seq<char>,
    pub headers: Seq<(Seq<char>, Seq<char>)>,
    /// The length of the header lines so far.
    pub header_bytes: nat,
}

/// The head that a request line begins: its first two words.
pub open spec fn request_line(line: Seq<char>) -> Result<Head, (u16, Complaint)> {
    let method = before(line, ' ');
    let path = before(after(line, ' '), ' ');
    if method.len() == 0 || path.len() == 0 {
        Err(bad_request("malformed request line"@))
    } else {
        Ok(Head { method, path, headers: seq![], header_bytes: 0 })
    }
}

/// `head` with one more header line.
pub open spec fn header_line(head: Head, line: Seq<char>) -> Result<Head, (u16, Complaint)> {
    let header_bytes = head.header_bytes + encode_utf8(line).len();
    if header_bytes > MAX_HEADER_BYTES || head.headers.len() >= MAX_HEADER_LINES {
        Err(refused(431, "invalid_request_error"@, "request headers too large"@))
    } else if line.contains(':') {
        let header = (trimmed(before(line, ':')), trimmed(after(line, ':')));
        Ok(Head { headers: head.headers.push(header), header_bytes, ..head })
    } else {
        Ok(Head { header_bytes, ..head })
    }
}

/// A header of the given name is there.
pub open spec fn has_header(headers: Seq<(Seq<char>, Seq<char>)>, name: Seq<char>) -> bool {
    exists|i: int| 0 <= i < headers.len() && same_ignoring_case(#[trigger] headers[i].0, name)
}

/// The length that the content-length headers give the body, if any does.
pub open spec fn announced_length(headers: Seq<(Seq<char>, Seq<char>)>) -> Result<
    Option<u64>,
    (u16, Complaint),
>
    decreases headers.len(),
{
    if headers.len() == 0 {
        Ok(None)
    } else {
        let (name, value) = headers.last();
        match announced_length(headers.drop_last()) {
            Err(refusal) => Err(refusal),
            Ok(seen) => if !same_ignoring_case(name, "content-length"@) {
                Ok(seen)
            } else {
                match number_value(trimmed(value)) {
                    None => Err(bad_request("malformed content-length header: "@ + value)),
                    Some(length) => if seen is Some && seen != Some(length) {
                        Err(bad_request("conflicting content-length headers"@))
                    } else {
                        Ok(Some(length))
                    },
                }
            },
        }
    }
}

/// How many bytes of body belong to a request with these headers.
pub open spec fn body_length(headers: Seq<(Seq<char>, Seq<char>)>) -> Result<
    u64,
    (u16, Complaint),
> {
    if has_header(headers, "transfer-encoding"@) {
        Err(
            refused(
                501,
                "invalid_request_error"@,
                "transfer-encoding is not supported; send a content-length body"@,
            ),
        )
    } else {
        match announced_length(headers) {
            Err(refusal) => Err(refusal),
            Ok(seen) => {
                let length = match seen {
                    Some(length) => length,
                    None => 0,
                };
                if length > MAX_BODY_BYTES {
                    Err(refused(413, "invalid_request_error"@, "request body too large"@))
                } else {
                    Ok(length)
                }
            },
        }
    }
}

/// What is to be read next of a request.
#[derive(Clone, Copy, Debug, PartialEq, Eq, Structural)]
pub enum Next {
    /// One more line.
    Line,
    /// The body, of so many bytes.
    Body(u64),
    /// Nothing: the connection was closed before a request began.
    Nothing,
}

/// What one more line makes of a request: its head so far, none before the
/// request line, and what is to be read next.
pub open spec fn with_line(head: Option<Head>, raw: Seq<u8>) -> Result<
    (Option<Head>, Next),
    (u16, Complaint),
> {
    match line_of(raw) {
        Err(refusal) => Err(refusal),
        Ok(None) => match head {
            None => Ok((None, Next::Nothing)),
            Some(_) => Err(bad_request("connection closed while reading headers"@)),
        },
        Ok(Some(line)) => match head {
            None => match request_line(line) {
                Ok(head) => Ok((Some(head), Next::Line)),
                Err(refusal) => Err(refusal),
            },
            Some(head) => if line.len() == 0 {
                match body_length(head.headers) {
                    Ok(length) => Ok((Some(head), Next::Body(length))),
                    Err(refusal) => Err(refusal),
                }
            } else {
                match header_line(head, line) {
                    Ok(head) => Ok((Some(head), Next::Line)),
                    Err(refusal) => Err(refusal),
                }
            },
        },
    }
}

/// Reads a request as its bytes come in.
pub struct RequestReader {
    begun: bool,
    method: String,
    path: String,
    headers: Vec<(String, String)>,
    header_bytes: usize,
}

impl View for RequestReader {
    type V = Option<Head>;

    closed spec fn view(&self) -> Option<Head> {
        if self.begun {
            Some(
                Head {
                    method: self.method@,
                    path: self.path@,
                    headers: header_texts(self.headers@),
                    header_bytes: self.header_bytes as nat,
                },
            )
        } else {
            None
        }
    }
}

/// What holds of every head that has been taken in.
pub open spec fn within_limits(head: Head) -> bool {
    &&& head.method.len() > 0
    &&& head.path.len() > 0
    &&& head.headers.len() <= MAX_HEADER_LINES
    &&& head.header_bytes <= MAX_HEADER_BYTES
}

/// Every line that is taken in leaves a head within the limits.
pub proof fn lines_stay_within_limits(head: Option<Head>, raw: Seq<u8>)
    requires
        head matches Some(head) ==> within_limits(head),
    ensures
        with_line(head, raw) matches Ok((Some(head), _)) ==> within_limits(head),
{
}

/// A body is only asked for when no transfer encoding is given, it is never
/// longer than the limit, and every content-length header announces that length.
pub proof fn body_is_announced(headers: Seq<(Seq<char>, Seq<char>)>)
    ensures
        body_length(headers) matches Ok(length) ==> {
            &&& length <= MAX_BODY_BYTES
            &&& !has_header(headers, "transfer-encoding"@)
            &&& forall|i: int|
                0 <= i < headers.len() && same_ignoring_case(
                    #[trigger] headers[i].0,
                    "content-length"@,
                ) ==> number_value(trimmed(headers[i].1)) == Some(length)
            &&& !has_header(headers, "content-length"@) ==> length == 0
        },
{
    announced_by_all(headers);
}

proof fn announced_by_all(headers: Seq<(Seq<char>, Seq<char>)>)
    ensures
        announced_length(headers) matches Ok(seen) ==> {
            &&& forall|i: int|
                0 <= i < headers.len() && same_ignoring_case(
                    #[trigger] headers[i].0,
                    "content-length"@,
                ) ==> seen is Some && number_value(trimmed(headers[i].1)) == seen
            &&& seen is Some ==> has_header(headers, "content-length"@)
        },
    decreases headers.len(),
{
    if headers.len() > 0 {
        let init = headers.drop_last();
        announced_by_all(init);
        if let Ok(seen) = announced_length(headers) {
            assert forall|i: int|
                0 <= i < headers.len() && same_ignoring_case(
                    #[trigger] headers[i].0,
                    "content-length"@,
                ) implies seen is Some && number_value(trimmed(headers[i].1)) == seen by {
                if i < init.len() {
                    assert(init[i].0 == headers[i].0);
                }
            }
            if seen is Some {
                if has_header(init, "content-length"@) {
                    let i = choose|i: int|
                        0 <= i < init.len() && same_ignoring_case(
                            #[trigger] init[i].0,
                            "content-length"@,
                        );
                    assert(same_ignoring_case(headers[i].0, "content-length"@));
                } else {
                    assert(same_ignoring_case(headers[headers.len() - 1].0, "content-length"@));
                }
            }
        }
    }
}

/// The parts of `s` around the first `c`, if there is one.
fn split_at_char(s: &[char], c: char) -> (r: Option<(&[char], &[char])>)
    ensures
        r is Some == s@.contains(c),
        r matches Some((head, tail)) ==> head@ == before(s@, c) && tail@ == after(s@, c),
        r is None ==> before(s@, c) == s@ && after(s@, c).len() == 0,
{
    let at: usize = find_char(s, c);
    proof {
        first_index_is_first(s@, c);
    }
    if at == s.len() {
        assert(s@.take(at as int) == s@);
        return None;
    }
    let head = vstd::slice::slice_subrange(s, 0, at);
    let tail = vstd::slice::slice_subrange(s, at + 1, s.len());
    assert(head@ =~= s@.take(at as int));
    assert(tail@ =~= s@.skip(at + 1));
    Some((head, tail))
}

impl RequestReader {
    pub fn new() -> (r: Self)
        ensures
            r@ is None,
    {
        RequestReader {
            begun: false,
            method: String::new(),
            path: String::new(),
            headers: Vec::new(),
            header_bytes: 0,
        }
    }

    fn take_request_line(&mut self, line: &String) -> (r: Result<(), Refusal>)
        requires
            old(self)@ is None,
        ensures
            match r {
                Ok(()) => final(self)@ is Some && request_line(line@) == Ok::<
                    Head,
                    (u16, Complaint),
                >(final(self)@->0),
                Err(refusal) => request_line(line@) == Err::<Head, _>(refusal@),
            },
    {
        let chars = to_chars(line.as_str());
        let empty: [char; 0] = [];
        let (method, rest) = match split_at_char(chars.as_slice(), ' ') {
            Some(parts) => parts,
            None => (chars.as_slice(), empty.as_slice()),
        };
        assert(method@ == before(line@, ' '));
        assert(rest@ == after(line@, ' '));
        let path = match split_at_char(rest, ' ') {
            Some(parts) => parts.0,
            None => rest,
        };
        assert(path@ == before(after(line@, ' '), ' '));
        if method.len() == 0 || path.len() == 0 {
            return Err(
                error(400, "invalid_request_error", "malformed request line".to_owned()),
            );
        }
        self.begun = true;
        self.method = from_chars(method);
        self.path = from_chars(path);
        self.headers = Vec::new();
        self.header_bytes = 0;
        assert(header_texts(self.headers@) =~= seq![]);
        Ok(())
    }

    fn take_header_line(&mut self, line: &String) -> (r: Result<(), Refusal>)
        requires
            old(self)@ is Some,
            within_limits(old(self)@->0),
        ensures
            match r {
                Ok(()) => final(self)@ is Some && header_line(old(self)@->0, line@) == Ok::<
                    Head,
                    (u16, Complaint),
                >(final(self)@->0),
                Err(refusal) => header_line(old(self)@->0, line@) == Err::<Head, _>(refusal@),
            },
    {
        let length: usize = line.as_str().as_bytes().len();
        if length > MAX_HEADER_BYTES - self.header_bytes || self.headers.len()
            >= MAX_HEADER_LINES {
            return Err(
                error(431, "invalid_request_error", "request headers too large".to_owned()),
            );
        }
        self.header_bytes = self.header_bytes + length;
        let chars = to_chars(line.as_str());
        if let Some((name, value)) = split_at_char(chars.as_slice(), ':') {
            let ghost before_push = self.headers@;
            let header = (from_chars(trim(name)), from_chars(trim(value)));
            self.headers.push(header);
            assert(header_texts(self.headers@) =~= header_texts(before_push).push(
                (header.0@, header.1@),
            ));
        }
        Ok(())
    }

    fn length_of_body(&self) -> (r: Result<u64, Refusal>)
        requires
            self@ is Some,
        ensures
            match r {
                Ok(length) => body_length((self@->0).headers) == Ok::<_, (u16, Complaint)>(length),
                Err(refusal) => body_length((self@->0).headers) == Err::<u64, _>(refusal@),
            },
    {
        let ghost all = header_texts(self.headers@);
        let mut i: usize = 0;
        while i < self.headers.len()
            invariant
                i <= self.headers@.len(),
                all == header_texts(self.headers@),
                self@ is Some,
                all == (self@->0).headers,
                forall|j: int|
                    0 <= j < i ==> !same_ignoring_case(
                        #[trigger] all[j].0,
                        "transfer-encoding"@,
                    ),
            decreases self.headers@.len() - i,
        {
            assert(all[i as int].0 == self.headers@[i as int].0@);
            if is_named(&self.headers[i].0, "transfer-encoding") {
                assert(has_header(all, "transfer-encoding"@));
                return Err(
                    error(
                        501,
                        "invalid_request_error",
                        "transfer-encoding is not supported; send a content-length body".to_owned(),
                    ),
                );
            }
            i += 1;
        }
        assert(!has_header(all, "transfer-encoding"@));
        let mut seen: Option<u64> = None;
        let mut i: usize = 0;
        while i < self.headers.len()
            invariant
                i <= self.headers@.len(),
                all == header_texts(self.headers@),
                self@ is Some,
                all == (self@->0).headers,
                !has_header(all, "transfer-encoding"@),
                announced_length(all.take(i as int)) == Ok::<_, (u16, Complaint)>(seen),
            decreases self.headers@.len() - i,
        {
            assert(all.take(i + 1).drop_last() == all.take(i as int));
            assert(all[i as int] == (self.headers@[i as int].0@, self.headers@[i as int].1@));
            if is_named(&self.headers[i].0, "content-length") {
                let value = to_chars(self.headers[i].1.as_str());
                match parse_number(trim(value.as_slice())) {
                    None => {
                        let mut message = "malformed content-length header: ".to_owned();
                        message.append(self.headers[i].1.as_str());
                        let refusal = error(400, "invalid_request_error", message);
                        proof {
                            refusal_is_kept(all, i + 1, refusal@);
                        }
                        return Err(refusal);
                    },
                    Some(length) => {
                        if seen.is_some() && seen.unwrap() != length {
                            let refusal = error(
                                400,
                                "invalid_request_error",
                                "conflicting content-length headers".to_owned(),
                            );
                            proof {
                                refusal_is_kept(all, i + 1, refusal@);
                            }
                            return Err(refusal);
                        }
                        seen = Some(length);
                    },
                }
            }
            i += 1;
        }
        assert(all.take(i as int) == all);
        let length: u64 = match seen {
            Some(length) => length,
            None => 0,
        };
        if length > MAX_BODY_BYTES {
            return Err(error(413, "invalid_request_error", "request body too large".to_owned()));
        }
        Ok(length)
    }

    /// Takes in the bytes that were received for one line, and says what is to
    /// be read next.
    pub fn on_line(&mut self, raw: Vec<u8>) -> (r: Result<Next, Refusal>)
        requires
            old(self)@ matches Some(head) ==> within_limits(head),
        ensures
            match r {
                Ok(next) => with_line(old(self)@, raw@) == Ok::<_, (u16, Complaint)>(
                    (final(self)@, next),
                ),
                Err(refusal) => with_line(old(self)@, raw@) == Err::<(Option<Head>, Next), _>(
                    refusal@,
                ),
            },
            r is Ok ==> (final(self)@ matches Some(head) ==> within_limits(head)),
    {
        match read_line(raw) {
            Err(refusal) => Err(refusal),
            Ok(None) => {
                if self.begun {
                    Err(
                        error(
                            400,
                            "invalid_request_error",
                            "connection closed while reading headers".to_owned(),
                        ),
                    )
                } else {
                    Ok(Next::Nothing)
                }
            },
            Ok(Some(line)) => {
                if !self.begun {
                    match self.take_request_line(&line) {
                        Ok(()) => Ok(Next::Line),
                        Err(refusal) => Err(refusal),
                    }
                } else if to_chars(line.as_str()).len() == 0 {
                    match self.length_of_body() {
                        Ok(length) => Ok(Next::Body(length)),
                        Err(refusal) => Err(refusal),
                    }
                } else {
                    match self.take_header_line(&line) {
                        Ok(()) => Ok(Next::Line),
                        Err(refusal) => Err(refusal),
                    }
                }
            },
        }
    }

    /// The request, once the bytes received for its body are there. They must be
    /// as many as its headers announce.
    pub fn on_body(self, body: Vec<u8>) -> (r: Result<HttpRequest, Refusal>)
        requires
            self@ is Some,
        ensures
            match r {
                Ok(request) => {
                    let head = self@->0;
                    &&& body_length(head.headers) matches Ok(length) && body@.len() == length
                    &&& request.method@ == head.method
                    &&& request.path@ == head.path
                    &&& request.headers() == head.headers
                    &&& request.body@ == body@
                },
                Err(refusal) => match body_length((self@->0).headers) {
                    Ok(length) => {
                        &&& body@.len() != length
                        &&& refusal@ == bad_request(
                            "request body is shorter than its content-length"@,
                        )
                    },
                    Err(earlier) => refusal@ == earlier,
                },
            },
    {
        let length: u64 = match self.length_of_body() {
            Ok(length) => length,
            Err(refusal) => return Err(refusal),
        };
        if body.len() as u64 != length {
            return Err(
                error(
                    400,
                    "invalid_request_error",
                    "request body is shorter than its content-length".to_owned(),
                ),
            );
        }
        Ok(HttpRequest { method: self.method, path: self.path, headers: self.headers, body })
    }
}

/// A refusal by the first headers is the refusal by all of them.
proof fn refusal_is_kept(
    headers: Seq<(Seq<char>, Seq<char>)>,
    n: int,
    refusal: (u16, Complaint),
)
    requires
        0 <= n <= headers.len(),
        announced_length(headers.take(n)) == Err::<Option<u64>, _>(refusal),
    ensures
        announced_length(headers) == Err::<Option<u64>, _>(refusal),
    decreases headers.len() - n,
{
    if n < headers.len() {
        assert(headers.take(n + 1).drop_last() == headers.take(n));
        refusal_is_kept(headers, n + 1, refusal);
    } else {
        assert(headers.take(n) == headers);
    }
}

pub enum ResponseBody {
    Fixed(Vec<u8>),
    Stream(mpsc::Receiver<Vec<u8>>),
}

pub struct HttpResponse {
    pub status: u16,
    pub reason: &'static str,
    pub headers: Vec<(&'static str, String)>,
    pub body: ResponseBody,
}

/// Names and values of response headers.
pub open spec fn response_headers(headers: Seq<(&'static str, String)>) -> Seq<
    (Seq<char>, Seq<char>),
> {
    Seq::new(headers.len(), |i: int| (headers[i].0@, headers[i].1@))
}

impl HttpResponse {
    /// A response whose body is the JSON text `body`.
    pub fn json(status: u16, reason: &'static str, body: Vec<u8>) -> (r: Self)
        ensures
            r.status == status,
            r.reason == reason,
            response_headers(r.headers@) == seq![("content-type"@, "application/json"@)],
            r.body == ResponseBody::Fixed(body),
    {
        let mut headers: Vec<(&'static str, String)> = Vec::new();
        headers.push(("content-type", "application/json".to_owned()));
        assert(response_headers(headers@) =~= seq![("content-type"@, "application/json"@)]);
        HttpResponse { status, reason, headers, body: ResponseBody::Fixed(body) }
    }

    /// A response whose body comes in chunks, as server-sent events.
    pub fn event_stream(rx: mpsc::Receiver<Vec<u8>>) -> (r: Self)
        ensures
            r.status == 200,
            r.reason@ == "OK"@,
            response_headers(r.headers@) == seq![
                ("content-type"@, "text/event-stream"@),
                ("cache-control"@, "no-cache"@),
            ],
            r.body == ResponseBody::Stream(rx),
    {
        let mut headers: Vec<(&'static str, String)> = Vec::new();
        headers.push(("content-type", "text/event-stream".to_owned()));
        headers.push(("cache-control", "no-cache".to_owned()));
        assert(response_headers(headers@) =~= seq![
            ("content-type"@, "text/event-stream"@),
            ("cache-control"@, "no-cache"@),
        ]);
        HttpResponse { status: 200, reason: "OK", headers, body: ResponseBody::Stream(rx) }
    }

    /// The head of the response, up to the empty line.
    pub fn head(&self) -> (r: String)
        ensures
            r@ == head_text(
                self.status,
                self.reason@,
                response_headers(self.headers@),
                match self.body {
                    ResponseBody::Fixed(bytes) => Some(bytes@.len()),
                    ResponseBody::Stream(_) => None,
                },
            ),
    {
        let ghost all = response_headers(self.headers@);
        let mut head = "HTTP/1.1 ".to_owned();
        push_decimal(&mut head, self.status as u64);
        head.append(" ");
        head.append(self.reason);
        head.append("\r\n");
        let ghost first = head@;
        let mut i: usize = 0;
        assert(first + header_lines(all.take(0)) =~= first);
        while i < self.headers.len()
            invariant
                i <= self.headers@.len(),
                all == response_headers(self.headers@),
                head@ == first + header_lines(all.take(i as int)),
            decreases self.headers@.len() - i,
        {
            assert(all.take(i + 1).drop_last() == all.take(i as int));
            let (name, value) = &self.headers[i];
            head.append(name);
            head.append(": ");
            head.append(value.as_str());
            head.append("\r\n");
            i += 1;
            assert(head@ =~= first + header_lines(all.take(i as int)));
        }
        assert(all.take(i as int) == all);
        match &self.body {
            ResponseBody::Fixed(bytes) => {
                head.append("content-length: ");
                push_decimal(&mut head, bytes.len() as u64);
                head.append("\r\n");
            },
            ResponseBody::Stream(_) => {},
        }
        head.append("connection: close\r\n\r\n");
        assert(head@ =~= head_text(
            self.status,
            self.reason@,
            all,
            match self.body {
                ResponseBody::Fixed(bytes) => Some(bytes@.len()),
                ResponseBody::Stream(_) => None,
            },
        ));
        head
    }
}

/// Header lines, each with its line end.
pub open spec fn header_lines(headers: Seq<(Seq<char>, Seq<char>)>) -> Seq<char>
    decreases headers.len(),
{
    if headers.len() == 0 {
        seq![]
    } else {
        header_lines(headers.drop_last()) + headers.last().0 + ": "@ + headers.last().1
            + "\r\n"@
    }
}

/// The head of a response; `length` is that of a body that is there in full.
pub open spec fn head_text(
    status: u16,
    reason: Seq<char>,
    headers: Seq<(Seq<char>, Seq<char>)>,
    length: Option<nat>,
) -> Seq<char> {
    let first = "HTTP/1.1 "@ + decimal(status as nat) + " "@ + reason + "\r\n"@;
    let announced = match length {
        Some(length) => "content-length: "@ + decimal(length) + "\r\n"@,
        None => seq![],
    };
    first + header_lines(headers) + announced + "connection: close\r\n\r\n"@
}

/// What a request may be addressed to.
#[derive(Clone, Copy, Debug, PartialEq, Eq, Structural)]
pub enum Endpoint {
    Models,
    ChatCompletions,
    Completions,
    AudioSpeech,
    AudioTranscriptions,
    Unknown,
}

/// Where a request goes, by its method and its path up to the query.
pub open spec fn endpoint_of(method: Seq<char>, path: Seq<char>) -> Endpoint {
    let place = before(path, '?');
    if method == "GET"@ && place == "/v1/models"@ {
        Endpoint::Models
    } else if method != "POST"@ {
        Endpoint::Unknown
    } else if place == "/v1/chat/completions"@ {
        Endpoint::ChatCompletions
    } else if place == "/v1/completions"@ {
        Endpoint::Completions
    } else if place == "/v1/audio/speech"@ {
        Endpoint::AudioSpeech
    } else if place == "/v1/audio/transcriptions"@ {
        Endpoint::AudioTranscriptions
    } else {
        Endpoint::Unknown
    }
}

/// Where a request goes.
pub fn route(method: &str, path: &str) -> (r: Endpoint)
    ensures
        r == endpoint_of(method@, path@),
{
    let chars = to_chars(path);
    let place = from_chars(
        match split_at_char(chars.as_slice(), '?') {
            Some(parts) => parts.0,
            None => chars.as_slice(),
        },
    );
    let place = place.as_str();
    if str_eq(method, "GET") && str_eq(place, "/v1/models") {
        Endpoint::Models
    } else if !str_eq(method, "POST") {
        Endpoint::Unknown
    } else if str_eq(place, "/v1/chat/completions") {
        Endpoint::ChatCompletions
    } else if str_eq(place, "/v1/completions") {
        Endpoint::Completions
    } else if str_eq(place, "/v1/audio/speech") {
        Endpoint::AudioSpeech
    } else if str_eq(place, "/v1/audio/transcriptions") {
        Endpoint::AudioTranscriptions
    } else {
        Endpoint::Unknown
    }
}

/// Whether one more connection is taken when `open` are.
pub fn admits(open: usize) -> (r: bool)
    ensures
        r == (open < MAX_CONNECTIONS),
        r <==> open < 256,
{
    open < MAX_CONNECTIONS
}

proof fn first_index_after(head: Seq<char>, c: char, tail: Seq<char>)
    requires
        !head.contains(c),
    ensures
        first_index(head + seq![c] + tail, c) == head.len(),
        before(head + seq![c] + tail, c) == head,
        after(head + seq![c] + tail, c) == tail,
{
    let s = head + seq![c] + tail;
    first_index_is_first(s, c);
    assert(s[head.len() as int] == c);
    assert forall|j: int| 0 <= j < head.len() implies s[j] != c by {
        assert(s[j] == head[j]);
    }
    assert(s.take(head.len() as int) =~= head);
    assert(s.skip(head.len() as int + 1) =~= tail);
}

/// A request line is read for the method and the path that it was written with.
pub proof fn request_line_reads_back(method: Seq<char>, path: Seq<char>, version: Seq<char>)
    requires
        method.len() > 0,
        path.len() > 0,
        !method.contains(' '),
        !path.contains(' '),
    ensures
        request_line(method + seq![' '] + (path + seq![' '] + version)) == Ok::<
            _,
            (u16, Complaint),
        >(Head { method, path, headers: seq![], header_bytes: 0 }),
{
    first_index_after(method, ' ', path + seq![' '] + version);
    first_index_after(path, ' ', version);
}

/// A header line, within the limits, is read for the name and the value that it
/// was written with, where these have no white space at their ends.
pub proof fn header_line_reads_back(head: Head, name: Seq<char>, value: Seq<char>)
    requires
        !name.contains(':'),
        trimmed(name) == name,
        trimmed(value) == value,
        head.headers.len() < MAX_HEADER_LINES,
        head.header_bytes + encode_utf8(name + seq![':'] + value).len() <= MAX_HEADER_BYTES,
    ensures
        ({
            let read = header_line(head, name + seq![':'] + value);
            &&& read is Ok
            &&& read->Ok_0.headers == head.headers.push((name, value))
            &&& read->Ok_0.method == head.method
            &&& read->Ok_0.path == head.path
        }),
{
    let line = name + seq![':'] + value;
    first_index_after(name, ':', value);
    assert(line[name.len() as int] == ':');
    assert(line.contains(':'));
}

/// A line is read for the text that it was written with, whichever of the two
/// line ends follows it, unless the text itself ends like a line.
pub proof fn line_reads_back(line: Seq<char>)
    requires
        without_line_end(encode_utf8(line)) == encode_utf8(line),
    ensures
        line_of(encode_utf8(line) + seq![10u8]) == Ok::<_, (u16, Complaint)>(Some(line)),
        line_of(encode_utf8(line) + seq![13u8, 10u8]) == Ok::<_, (u16, Complaint)>(Some(line)),
{
    let bytes = encode_utf8(line);
    encode_utf8_valid_utf8(line);
    encode_utf8_decode_utf8(line);
    let short = bytes + seq![10u8];
    assert(short.drop_last() =~= bytes);
    let long = bytes + seq![13u8, 10u8];
    let mid = bytes + seq![13u8];
    assert(long.drop_last() =~= mid);
    assert(mid.drop_last() =~= bytes);
    assert(mid.last() == 13);
    assert(without_line_end(mid) == without_line_end(bytes));
    assert(without_line_end(long) == without_line_end(mid));
}

/// `head` with more header lines, as they are written for names and values.
pub open spec fn with_written_headers(head: Head, pairs: Seq<(Seq<char>, Seq<char>)>) -> Result<
    Head,
    (u16, Complaint),
>
    decreases pairs.len(),
{
    if pairs.len() == 0 {
        Ok(head)
    } else {
        match header_line(head, pairs[0].0 + seq![':'] + pairs[0].1) {
            Err(refusal) => Err(refusal),
            Ok(more) => with_written_headers(more, pairs.drop_first()),
        }
    }
}

/// The length of header lines.
pub open spec fn written_bytes(pairs: Seq<(Seq<char>, Seq<char>)>) -> nat
    decreases pairs.len(),
{
    if pairs.len() == 0 {
        0
    } else {
        encode_utf8(pairs[0].0 + seq![':'] + pairs[0].1).len() + written_bytes(pairs.drop_first())
    }
}

/// Header lines, within the limits, are all read back, in order.
pub proof fn headers_read_back(head: Head, pairs: Seq<(Seq<char>, Seq<char>)>)
    requires
        forall|i: int|
            0 <= i < pairs.len() ==> {
                &&& !(#[trigger] pairs[i]).0.contains(':')
                &&& trimmed(pairs[i].0) == pairs[i].0
                &&& trimmed(pairs[i].1) == pairs[i].1
            },
        head.headers.len() + pairs.len() <= MAX_HEADER_LINES,
        head.header_bytes + written_bytes(pairs) <= MAX_HEADER_BYTES,
    ensures
        ({
            let read = with_written_headers(head, pairs);
            &&& read is Ok
            &&& read->Ok_0.headers == head.headers + pairs
            &&& read->Ok_0.method == head.method
            &&& read->Ok_0.path == head.path
        }),
    decreases pairs.len(),
{
    if pairs.len() > 0 {
        let (name, value) = pairs[0];
        header_line_reads_back(head, name, value);
        let more = header_line(head, name + seq![':'] + value)->Ok_0;
        let rest = pairs.drop_first();
        assert forall|i: int| 0 <= i < rest.len() implies {
            &&& !(#[trigger] rest[i]).0.contains(':')
            &&& trimmed(rest[i].0) == rest[i].0
            &&& trimmed(rest[i].1) == rest[i].1
        } by {
            assert(rest[i] == pairs[i + 1]);
        }
        headers_read_back(more, rest);
        assert(head.headers.push((name, value)) + rest =~= head.headers + pairs);
    } else {
        assert(head.headers + pairs =~= head.headers);
    }
}

/// The value of a header is that of the first one of the name, in whatever case.
pub proof fn first_header_counts(headers: Seq<(Seq<char>, Seq<char>)>, name: Seq<char>)
    ensures
        match header_value(headers, name) {
            Some(value) => exists|i: int|
                {
                    &&& 0 <= i < headers.len()
                    &&& same_ignoring_case((#[trigger] headers[i]).0, name)
                    &&& headers[i].1 == value
                    &&& forall|j: int|
                        0 <= j < i ==> !same_ignoring_case((#[trigger] headers[j]).0, name)
                },
            None => forall|j: int|
                0 <= j < headers.len() ==> !same_ignoring_case((#[trigger] headers[j]).0, name),
        },
    decreases headers.len(),
{
    if headers.len() > 0 {
        if same_ignoring_case(headers[0].0, name) {
            assert(headers[0].1 == header_value(headers, name)->0);
        } else {
            let rest = headers.drop_first();
            first_header_counts(rest, name);
            match header_value(headers, name) {
                Some(value) => {
                    let i = choose|i: int|
                        {
                            &&& 0 <= i < rest.len()
                            &&& same_ignoring_case((#[trigger] rest[i]).0, name)
                            &&& rest[i].1 == value
                            &&& forall|j: int|
                                0 <= j < i ==> !same_ignoring_case((#[trigger] rest[j]).0, name)
                        };
                    assert(headers[i + 1] == rest[i]);
                    assert forall|j: int| 0 <= j < i + 1 implies !same_ignoring_case(
                        (#[trigger] headers[j]).0,
                        name,
                    ) by {
                        if j > 0 {
                            assert(rest[j - 1] == headers[j]);
                        }
                    }
                },
                None => {
                    assert forall|j: int| 0 <= j < headers.len() implies !same_ignoring_case(
                        (#[trigger] headers[j]).0,
                        name,
                    ) by {
                        if j > 0 {
                            assert(rest[j - 1] == headers[j]);
                        }
                    }
                },
            }
        }
    }
}

/// Taking the line end off leaves what stands before it.
pub proof fn line_ends_are_taken_off(bytes: Seq<u8>)
    ensures
        without_line_end(bytes).len() <= bytes.len(),
        without_line_end(bytes) == bytes.take(without_line_end(bytes).len() as int),
        forall|i: int|
            without_line_end(bytes).len() <= i < bytes.len() ==> (#[trigger] bytes[i] == 10
                || bytes[i] == 13),
        without_line_end(bytes).len() > 0 ==> without_line_end(bytes).last() != 10
            && without_line_end(bytes).last() != 13,
    decreases bytes.len(),
{
    if bytes.len() > 0 && (bytes.last() == 10 || bytes.last() == 13) {
        let init = bytes.drop_last();
        line_ends_are_taken_off(init);
        let n = without_line_end(bytes).len() as int;
        assert(init.take(n) =~= bytes.take(n));
        assert forall|i: int| n <= i < bytes.len() implies (#[trigger] bytes[i] == 10 || bytes[i]
            == 13) by {
            if i < init.len() {
                assert(init[i] == bytes[i]);
            }
        }
    } else {
        assert(bytes.take(bytes.len() as int) =~= bytes);
    }
}

/// Bytes that do not end in a line feed are refused, and so are those that are
/// not UTF-8; a line that is read is written with the bytes before its end.
pub proof fn lines_are_whole(raw: Seq<u8>)
    ensures
        raw.len() == 0 <==> line_of(raw) == Ok::<_, (u16, Complaint)>(None::<Seq<char>>),
        raw.len() > 0 && raw.last() != 10 ==> {
            &&& line_of(raw) is Err
            &&& line_of(raw)->Err_0.0 == 431
        },
        line_of(raw) matches Ok(Some(line)) ==> {
            &&& raw.last() == 10
            &&& encode_utf8(line) == without_line_end(raw)
        },
        raw.len() > 0 && raw.last() == 10 && !valid_utf8(without_line_end(raw)) ==> {
            &&& line_of(raw) is Err
            &&& line_of(raw)->Err_0.0 == 400
        },
{
    if valid_utf8(without_line_end(raw)) {
        decode_utf8_encode_utf8(without_line_end(raw));
    }
}

/// A request line is taken only for a method and a path, neither empty nor with
/// a space, with one space between them and nothing or a space behind.
pub proof fn request_lines_hold_two_words(line: Seq<char>)
    ensures
        request_line(line) matches Ok(head) ==> {
            let front = head.method + seq![' '] + head.path;
            &&& head.method.len() > 0 && !head.method.contains(' ')
            &&& head.path.len() > 0 && !head.path.contains(' ')
            &&& head.headers.len() == 0 && head.header_bytes == 0
            &&& line.len() >= front.len() && line.take(front.len() as int) == front
            &&& line.len() > front.len() ==> line[front.len() as int] == ' '
        },
        request_line(line) matches Err(refusal) ==> refusal.0 == 400 && (line.len() == 0 || line[0]
            == ' ' || !line.contains(' ') || after(line, ' ').len() == 0 || after(line, ' ')[0]
            == ' '),
{
    first_index_is_first(line, ' ');
    let rest = after(line, ' ');
    first_index_is_first(rest, ' ');
    let (m, n) = (first_index(line, ' '), first_index(rest, ' '));
    if let Ok(head) = request_line(line) {
        let front = head.method + seq![' '] + head.path;
        assert(m < line.len());
        assert(line.take(front.len() as int) =~= front);
        if n < rest.len() {
            assert(rest[n] == line[m + 1 + n]);
        }
    } else {
        if line.len() > 0 && line[0] != ' ' && line.contains(' ') && rest.len() > 0 && rest[0]
            != ' ' {
            assert(before(line, ' ').len() > 0);
            assert(before(rest, ' ').len() > 0);
        }
    }
}

/// A header line is refused where there are too many or they are too long, and
/// only there. What is read is what stands before the first colon and behind it,
/// trimmed; a line without a colon adds no header.
pub proof fn header_lines_are_split_at_the_colon(
    head: Head,
    name: Seq<char>,
    value: Seq<char>,
    other: Seq<char>,
)
    requires
        !name.contains(':'),
        !other.contains(':'),
    ensures
        ({
            let line = name + seq![':'] + value;
            let bytes = head.header_bytes + encode_utf8(line).len();
            &&& header_line(head, line) is Err <==> bytes > 65536 || head.headers.len() >= 100
            &&& header_line(head, line) matches Err(refusal) ==> refusal.0 == 431
            &&& header_line(head, line) matches Ok(more) ==> {
                &&& more.headers == head.headers.push((trimmed(name), trimmed(value)))
                &&& more.header_bytes == bytes
                &&& more.method == head.method
                &&& more.path == head.path
            }
        }),
        header_line(head, other) is Err <==> head.header_bytes + encode_utf8(other).len() > 65536
            || head.headers.len() >= 100,
        header_line(head, other) matches Ok(more) ==> more == (Head {
            header_bytes: head.header_bytes + encode_utf8(other).len(),
            ..head
        }),
{
    let line = name + seq![':'] + value;
    first_index_after(name, ':', value);
    assert(line[name.len() as int] == ':');
    assert(line.contains(':'));
}

/// Where no transfer encoding is given and every content-length header announces
/// the same length, within the limit, so many bytes are asked for; without such a
/// header none are. A length beyond the limit is refused.
pub proof fn announced_bodies_are_taken(headers: Seq<(Seq<char>, Seq<char>)>, length: u64)
    requires
        !has_header(headers, "transfer-encoding"@),
        forall|i: int|
            0 <= i < headers.len() && same_ignoring_case(
                (#[trigger] headers[i]).0,
                "content-length"@,
            ) ==> number_value(trimmed(headers[i].1)) == Some(length),
    ensures
        !has_header(headers, "content-length"@) ==> body_length(headers) == Ok::<
            _,
            (u16, Complaint),
        >(0u64),
        has_header(headers, "content-length"@) && length <= 33554432 ==> body_length(headers)
            == Ok::<_, (u16, Complaint)>(length),
        has_header(headers, "content-length"@) && length > 33554432 ==> {
            &&& body_length(headers) is Err
            &&& body_length(headers)->Err_0.0 == 413
        },
{
    lengths_agree(headers, length);
}

proof fn lengths_agree(headers: Seq<(Seq<char>, Seq<char>)>, length: u64)
    requires
        forall|i: int|
            0 <= i < headers.len() && same_ignoring_case(
                (#[trigger] headers[i]).0,
                "content-length"@,
            ) ==> number_value(trimmed(headers[i].1)) == Some(length),
    ensures
        announced_length(headers) == Ok::<_, (u16, Complaint)>(
            if has_header(headers, "content-length"@) {
                Some(length)
            } else {
                None
            },
        ),
    decreases headers.len(),
{
    if headers.len() > 0 {
        let init = headers.drop_last();
        assert forall|i: int|
            0 <= i < init.len() && same_ignoring_case(
                (#[trigger] init[i]).0,
                "content-length"@,
            ) implies number_value(trimmed(init[i].1)) == Some(length) by {
            assert(init[i] == headers[i]);
        }
        lengths_agree(init, length);
        let last = headers[headers.len() - 1];
        if has_header(init, "content-length"@) {
            let i = choose|i: int|
                0 <= i < init.len() && same_ignoring_case(
                    #[trigger] init[i].0,
                    "content-length"@,
                );
            assert(same_ignoring_case(headers[i].0, "content-length"@));
        } else if same_ignoring_case(last.0, "content-length"@) {
            assert(has_header(headers, "content-length"@));
        } else if has_header(headers, "content-length"@) {
            let i = choose|i: int|
                0 <= i < headers.len() && same_ignoring_case(
                    #[trigger] headers[i].0,
                    "content-length"@,
                );
            assert(same_ignoring_case(init[i].0, "content-length"@));
        }
    }
}

/// A transfer encoding, a length that is no number and two different lengths are
/// refused.
pub proof fn unclear_bodies_are_refused(headers: Seq<(Seq<char>, Seq<char>)>, i: int, j: int)
    requires
        0 <= i < headers.len(),
        0 <= j < headers.len(),
    ensures
        same_ignoring_case(headers[i].0, "transfer-encoding"@) ==> {
            &&& body_length(headers) is Err
            &&& body_length(headers)->Err_0.0 == 501
        },
        same_ignoring_case(headers[i].0, "content-length"@) && number_value(
            trimmed(headers[i].1),
        ) is None ==> body_length(headers) is Err,
        same_ignoring_case(headers[i].0, "content-length"@) && same_ignoring_case(
            headers[j].0,
            "content-length"@,
        ) && number_value(trimmed(headers[i].1)) != number_value(trimmed(headers[j].1))
            ==> body_length(headers) is Err,
{
    body_is_announced(headers);
}

/// The first line of a connection is a request line; then come header lines up to
/// an empty one, behind which the body is asked for. A connection that closes
/// before a request is no fault, within one it is.
pub proof fn requests_go_line_by_line(head: Head, line: Seq<char>)
    requires
        without_line_end(encode_utf8(line)) == encode_utf8(line),
    ensures
        with_line(None, seq![]) == Ok::<_, (u16, Complaint)>((None::<Head>, Next::Nothing)),
        with_line(Some(head), seq![]) is Err,
        match request_line(line) {
            Ok(begun) => with_line(None, encode_utf8(line) + seq![10u8]) == Ok::<
                _,
                (u16, Complaint),
            >((Some(begun), Next::Line)),
            Err(refusal) => with_line(None, encode_utf8(line) + seq![10u8]) == Err::<
                (Option<Head>, Next),
                _,
            >(refusal),
        },
        line.len() > 0 ==> match header_line(head, line) {
            Ok(more) => with_line(Some(head), encode_utf8(line) + seq![13u8, 10u8]) == Ok::<
                _,
                (u16, Complaint),
            >((Some(more), Next::Line)),
            Err(refusal) => with_line(Some(head), encode_utf8(line) + seq![13u8, 10u8]) == Err::<
                (Option<Head>, Next),
                _,
            >(refusal),
        },
        match body_length(head.headers) {
            Ok(length) => with_line(Some(head), seq![13u8, 10u8]) == Ok::<_, (u16, Complaint)>(
                (Some(head), Next::Body(length)),
            ),
            Err(refusal) => with_line(Some(head), seq![13u8, 10u8]) == Err::<
                (Option<Head>, Next),
                _,
            >(refusal),
        },
{
    line_reads_back(line);
    let none = Seq::<char>::empty();
    assert(encode_utf8(none) =~= seq![]);
    line_reads_back(none);
    assert(encode_utf8(none) + seq![13u8, 10u8] =~= seq![13u8, 10u8]);
}

/// A request goes by its method and its path, whatever query follows; only these
/// go anywhere.
pub proof fn routes_are_by_method_and_path(method: Seq<char>, path: Seq<char>, query: Seq<char>)
    requires
        !path.contains('?'),
    ensures
        endpoint_of(method, path + seq!['?'] + query) == endpoint_of(method, path),
        endpoint_of(method, path) == Endpoint::Models <==> method == "GET"@ && path
            == "/v1/models"@,
        endpoint_of(method, path) == Endpoint::ChatCompletions <==> method == "POST"@ && path
            == "/v1/chat/completions"@,
        endpoint_of(method, path) == Endpoint::Completions <==> method == "POST"@ && path
            == "/v1/completions"@,
        endpoint_of(method, path) == Endpoint::AudioSpeech <==> method == "POST"@ && path
            == "/v1/audio/speech"@,
        endpoint_of(method, path) == Endpoint::AudioTranscriptions <==> method == "POST"@ && path
            == "/v1/audio/transcriptions"@,
{
    first_index_after(path, '?', query);
    first_index_is_first(path, '?');
    assert(path.take(path.len() as int) =~= path);
    reveal_strlit("GET");
    reveal_strlit("POST");
    reveal_strlit("/v1/models");
    reveal_strlit("/v1/chat/completions");
    reveal_strlit("/v1/completions");
    reveal_strlit("/v1/audio/speech");
    reveal_strlit("/v1/audio/transcriptions");
    assert("GET"@.len() != "POST"@.len());
    assert("/v1/models"@.len() == 10);
    assert("/v1/chat/completions"@.len() == 20);
    assert("/v1/completions"@.len() == 15);
    assert("/v1/audio/speech"@.len() == 16);
    assert("/v1/audio/transcriptions"@.len() == 24);
}

/// Header lines are written one behind the other, each with a colon, a space and
/// a line end.
pub proof fn header_lines_are_written_in_order(
    headers: Seq<(Seq<char>, Seq<char>)>,
    name: Seq<char>,
    value: Seq<char>,
)
    ensures
        header_lines(seq![]).len() == 0,
        header_lines(headers.push((name, value))) == header_lines(headers) + name + seq![':', ' ']
            + value + seq!['\r', '\n'],
{
    reveal_strlit(": ");
    reveal_strlit("\r\n");
    assert(": "@ =~= seq![':', ' ']);
    assert("\r\n"@ =~= seq!['\r', '\n']);
    assert(headers.push((name, value)).drop_last() =~= headers);
}

/// The head of a response is a status line and header lines up to an empty one;
/// the length of a body that is there in full is among them, and that of one that
/// comes in chunks is not.
pub proof fn heads_announce_the_body(
    status: u16,
    reason: Seq<char>,
    headers: Seq<(Seq<char>, Seq<char>)>,
    length: nat,
)
    ensures
        ({
            let first = "HTTP/1.1 "@ + decimal(status as nat) + " "@ + reason + "\r\n"@;
            let close = "connection: close\r\n\r\n"@;
            &&& head_text(status, reason, headers, None) == first + header_lines(headers) + close
            &&& head_text(status, reason, headers, Some(length)) == first + header_lines(headers) + (
            "content-length: "@ + decimal(length) + "\r\n"@) + close
        }),
{
    let first = "HTTP/1.1 "@ + decimal(status as nat) + " "@ + reason + "\r\n"@;
    assert(first + header_lines(headers) + Seq::<char>::empty() =~= first + header_lines(headers));
}

} // verus!
