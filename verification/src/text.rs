//! Text as sequences of characters: conversions, searching, trimming and
//! decimal notation.

use vstd::prelude::*;
use vstd::string::*;
use vstd::utf8::*;

verus! {

/// `String::push` appends one character.
pub assume_specification[ String::push ](s: &mut String, c: char)
    ensures
        final(s)@ == old(s)@.push(c),
;

/// `text` in quotes, with its special characters escaped.
pub uninterp spec fn quoted(text: Seq<char>) -> Seq<char>;

/// The `Debug` notation of `str`, as `format!` writes it: the text in double
/// quotes, with quotes, backslashes and what cannot be printed escaped. Which
/// characters these are is left to the name `quoted`.
#[verifier::external_body]
pub(crate) fn quote(text: &str) -> (r: String)
    ensures
        r@ == quoted(text@),
{
    format!("{:?}", text)
}

/// What an optional text holds.
pub open spec fn text_of(text: Option<String>) -> Option<Seq<char>> {
    match text {
        Some(text) => Some(text@),
        None => None,
    }
}

/// What an optional static text holds.
pub open spec fn static_text(text: Option<&'static str>) -> Option<Seq<char>> {
    match text {
        Some(text) => Some(text@),
        None => None,
    }
}

/// The characters of `s`.
pub fn to_chars(s: &str) -> (r: Vec<char>)
    ensures
        r@ == s@,
{
    let mut r: Vec<char> = Vec::new();
    for c in it: s.chars()
        invariant
            r@ == s@.take(it.index() as int),
            it.seq() == s@,
    {
        r.push(c);
    }
    r
}

/// The string made of `chars`.
pub fn from_chars(chars: &[char]) -> (r: String)
    ensures
        r@ == chars@,
{
    let mut r: String = String::new();
    let mut i: usize = 0;
    while i < chars.len()
        invariant
            i <= chars@.len(),
            r@ == chars@.take(i as int),
        decreases chars@.len() - i,
    {
        r.push(chars[i]);
        i += 1;
        assert(chars@.take(i as int) == chars@.take(i - 1).push(chars@[i - 1]));
    }
    assert(chars@.take(i as int) == chars@);
    r
}

/// Whether two strings hold the same characters.
pub fn str_eq(a: &str, b: &str) -> (r: bool)
    ensures
        r == (a@ == b@),
{
    let x = a.as_bytes();
    let y = b.as_bytes();
    proof {
        encode_utf8_decode_utf8(a@);
        encode_utf8_decode_utf8(b@);
    }
    if x.len() != y.len() {
        return false;
    }
    let mut i: usize = 0;
    while i < x.len()
        invariant
            i <= x@.len(),
            x@.len() == y@.len(),
            x@ == encode_utf8(a@),
            y@ == encode_utf8(b@),
            forall|j: int| 0 <= j < i ==> x@[j] == y@[j],
        decreases x@.len() - i,
    {
        if x[i] != y[i] {
            return false;
        }
        i += 1;
    }
    assert(x@ == y@);
    true
}

/// The characters with the Unicode property White_Space.
pub open spec fn white_space(c: char) -> bool {
    let u = c as u32;
    ||| 0x9 <= u <= 0xd
    ||| u == 0x20
    ||| u == 0x85
    ||| u == 0xa0
    ||| u == 0x1680
    ||| 0x2000 <= u <= 0x200a
    ||| u == 0x2028
    ||| u == 0x2029
    ||| u == 0x202f
    ||| u == 0x205f
    ||| u == 0x3000
}

/// Whether `c` has the Unicode property White_Space.
pub fn is_white_space(c: char) -> (r: bool)
    ensures
        r == white_space(c),
{
    let u: u32 = c as u32;
    (0x9 <= u && u <= 0xd) || u == 0x20 || u == 0x85 || u == 0xa0 || u == 0x1680 || (0x2000 <= u
        && u <= 0x200a) || u == 0x2028 || u == 0x2029 || u == 0x202f || u == 0x205f || u == 0x3000
}

/// `s` without its leading white space.
pub open spec fn trimmed_start(s: Seq<char>) -> Seq<char>
    decreases s.len(),
{
    if s.len() > 0 && white_space(s[0]) {
        trimmed_start(s.drop_first())
    } else {
        s
    }
}

/// `s` without its trailing white space.
pub open spec fn trimmed_end(s: Seq<char>) -> Seq<char>
    decreases s.len(),
{
    if s.len() > 0 && white_space(s.last()) {
        trimmed_end(s.drop_last())
    } else {
        s
    }
}

/// `s` without the white space at either end.
pub open spec fn trimmed(s: Seq<char>) -> Seq<char> {
    trimmed_end(trimmed_start(s))
}

/// `s` without the white space at either end.
pub fn trim(s: &[char]) -> (r: &[char])
    ensures
        r@ == trimmed(s@),
{
    let mut start: usize = 0;
    assert(s@.skip(0) == s@);
    while start < s.len() && is_white_space(s[start])
        invariant
            start <= s@.len(),
            trimmed_start(s@.skip(start as int)) == trimmed_start(s@),
        decreases s@.len() - start,
    {
        assert(s@.skip(start as int).drop_first() == s@.skip(start + 1));
        start += 1;
    }
    let mut end: usize = s.len();
    assert(s@.subrange(start as int, end as int) == s@.skip(start as int));
    while end > start && is_white_space(s[end - 1])
        invariant
            start <= end <= s@.len(),
            trimmed_end(s@.subrange(start as int, end as int)) == trimmed(s@),
        decreases end,
    {
        assert(s@.subrange(start as int, end as int).drop_last() == s@.subrange(
            start as int,
            end - 1,
        ));
        end -= 1;
    }
    vstd::slice::slice_subrange(s, start, end)
}

/// The ASCII lower-case form of `c`.
pub open spec fn ascii_lower(c: char) -> char {
    if 'A' <= c <= 'Z' {
        (c as u32 + 32) as char
    } else {
        c
    }
}

/// Equality up to the case of ASCII letters.
pub open spec fn same_ignoring_case(a: Seq<char>, b: Seq<char>) -> bool {
    a.map_values(|c: char| ascii_lower(c)) == b.map_values(|c: char| ascii_lower(c))
}

fn lower_code(c: char) -> (r: u32)
    ensures
        r == ascii_lower(c) as u32,
{
    let u: u32 = c as u32;
    if 0x41 <= u && u <= 0x5a {
        u + 32
    } else {
        u
    }
}

/// Whether two texts are equal up to the case of ASCII letters.
pub fn eq_ignore_ascii_case(a: &[char], b: &[char]) -> (r: bool)
    ensures
        r == same_ignoring_case(a@, b@),
{
    let ghost f = |c: char| ascii_lower(c);
    if a.len() != b.len() {
        assert(a@.map_values(f).len() != b@.map_values(f).len());
        return false;
    }
    let mut i: usize = 0;
    while i < a.len()
        invariant
            i <= a@.len(),
            a@.len() == b@.len(),
            f == |c: char| ascii_lower(c),
            forall|j: int| 0 <= j < i ==> ascii_lower(a@[j]) == ascii_lower(b@[j]),
        decreases a@.len() - i,
    {
        if lower_code(a[i]) != lower_code(b[i]) {
            assert(a@.map_values(f)[i as int] != b@.map_values(f)[i as int]);
            return false;
        }
        i += 1;
    }
    assert(a@.map_values(f) =~= b@.map_values(f));
    true
}

/// Where `c` first occurs in `s`, or the length of `s`.
pub open spec fn first_index(s: Seq<char>, c: char) -> int
    decreases s.len(),
{
    if s.len() == 0 || s[0] == c {
        0
    } else {
        1 + first_index(s.drop_first(), c)
    }
}

/// What `first_index` finds is the first occurrence, and the only one with
/// nothing before it.
pub proof fn first_index_is_first(s: Seq<char>, c: char)
    ensures
        0 <= first_index(s, c) <= s.len(),
        forall|j: int| 0 <= j < first_index(s, c) ==> s[j] != c,
        first_index(s, c) < s.len() ==> s[first_index(s, c)] == c,
        first_index(s, c) < s.len() <==> s.contains(c),
        forall|k: int|
            0 <= k <= s.len() && (k < s.len() ==> s[k] == c) && (forall|j: int|
                0 <= j < k ==> s[j] != c) ==> k == first_index(s, c),
    decreases s.len(),
{
    if s.len() > 0 && s[0] != c {
        let rest = s.drop_first();
        first_index_is_first(rest, c);
        let r = first_index(rest, c);
        assert forall|j: int| 0 <= j < r + 1 implies s[j] != c by {
            if j > 0 {
                assert(rest[j - 1] == s[j]);
            }
        }
        if r < rest.len() {
            assert(rest[r] == s[r + 1]);
            assert(s.contains(c));
        }
    }
}

/// Where `c` first occurs in `s`, or the length of `s`.
pub fn find_char(s: &[char], c: char) -> (r: usize)
    ensures
        r == first_index(s@, c),
        r <= s@.len(),
        r < s@.len() ==> s@[r as int] == c,
{
    let mut i: usize = 0;
    while i < s.len() && s[i] != c
        invariant
            i <= s@.len(),
            forall|j: int| 0 <= j < i ==> s@[j] != c,
        decreases s@.len() - i,
    {
        i += 1;
    }
    proof {
        first_index_is_first(s@, c);
    }
    i
}

/// `pat` stands in `text` at position `p`.
pub open spec fn occurs_at(text: Seq<char>, pat: Seq<char>, p: int) -> bool {
    &&& 0 <= p
    &&& p + pat.len() <= text.len()
    &&& text.subrange(p, p + pat.len()) == pat
}

/// `pat` stands somewhere in `text`.
pub open spec fn occurs(text: Seq<char>, pat: Seq<char>) -> bool {
    exists|p: int| occurs_at(text, pat, p)
}

/// `p` is the first position at which `pat` stands in `text`.
pub open spec fn first_occurrence(text: Seq<char>, pat: Seq<char>, p: int) -> bool {
    &&& occurs_at(text, pat, p)
    &&& forall|q: int| 0 <= q < p ==> !occurs_at(text, pat, q)
}

/// Whether `pat` stands in `text` at position `p`.
pub fn matches_at(text: &[char], pat: &[char], p: usize) -> (r: bool)
    ensures
        r == occurs_at(text@, pat@, p as int),
{
    if p > text.len() || pat.len() > text.len() - p {
        return false;
    }
    let mut i: usize = 0;
    while i < pat.len()
        invariant
            i <= pat@.len(),
            p + pat@.len() <= text@.len() <= usize::MAX,
            forall|j: int| 0 <= j < i ==> text@[p + j] == pat@[j],
        decreases pat@.len() - i,
    {
        if text[p + i] != pat[i] {
            assert(text@.subrange(p as int, p + pat@.len())[i as int] != pat@[i as int]);
            return false;
        }
        i += 1;
    }
    assert(text@.subrange(p as int, p + pat@.len()) =~= pat@);
    true
}

/// The first position at which `pat` stands in `text`.
pub fn find(text: &[char], pat: &[char]) -> (r: Option<usize>)
    ensures
        match r {
            Some(p) => first_occurrence(text@, pat@, p as int),
            None => !occurs(text@, pat@),
        },
{
    let mut p: usize = 0;
    while p <= text.len() && pat.len() <= text.len() - p
        invariant
            p <= text@.len(),
            forall|q: int| 0 <= q < p ==> !occurs_at(text@, pat@, q),
        decreases text@.len() - p,
    {
        if matches_at(text, pat, p) {
            return Some(p);
        }
        if p == text.len() {
            return None;
        }
        p += 1;
    }
    None
}

/// The digit of a number below ten.
pub open spec fn decimal_digit(d: nat) -> char {
    ('0' as u32 + d) as char
}

/// `n` in decimal notation.
pub open spec fn decimal(n: nat) -> Seq<char>
    decreases n,
{
    if n < 10 {
        seq![decimal_digit(n)]
    } else {
        decimal(n / 10).push(decimal_digit(n % 10))
    }
}

/// Appends `n` in decimal notation.
pub fn push_decimal(out: &mut String, n: u64)
    ensures
        final(out)@ == old(out)@ + decimal(n as nat),
    decreases n,
{
    if n >= 10 {
        push_decimal(out, n / 10);
    }
    let d: u8 = (n % 10) as u8;
    let c: char = (48 + d) as char;
    out.push(c);
    assert(c == decimal_digit((n % 10) as nat));
    assert(out@ =~= old(out)@ + decimal(n as nat));
}

/// `c` is a digit.
pub open spec fn is_digit(c: char) -> bool {
    '0' <= c <= '9'
}

/// Every character is a digit.
pub open spec fn all_digits(s: Seq<char>) -> bool {
    forall|i: int| 0 <= i < s.len() ==> is_digit(#[trigger] s[i])
}

/// The number that a sequence of digits denotes.
pub open spec fn digits_value(s: Seq<char>) -> nat
    decreases s.len(),
{
    if s.len() == 0 {
        0
    } else {
        (digits_value(s.drop_last()) * 10 + (s.last() as u32 - '0' as u32)) as nat
    }
}

/// The number that `s` denotes: digits, after an optional plus sign, of a
/// value that 64 bits hold.
pub open spec fn number_value(s: Seq<char>) -> Option<u64> {
    let digits = if s.len() > 0 && s[0] == '+' {
        s.drop_first()
    } else {
        s
    };
    if digits.len() > 0 && all_digits(digits) && digits_value(digits) <= u64::MAX {
        Some(digits_value(digits) as u64)
    } else {
        None
    }
}

proof fn digits_value_grows(s: Seq<char>, n: int)
    requires
        0 <= n <= s.len(),
        all_digits(s),
    ensures
        digits_value(s.take(n)) <= digits_value(s),
    decreases s.len(),
{
    if n < s.len() {
        assert(s.drop_last().take(n) == s.take(n));
        digits_value_grows(s.drop_last(), n);
    } else {
        assert(s.take(n) == s);
    }
}

/// Reads an unsigned number: digits, after an optional plus sign.
pub fn parse_number(s: &[char]) -> (r: Option<u64>)
    ensures
        r == number_value(s@),
{
    let start: usize = if s.len() > 0 && s[0] == '+' {
        1
    } else {
        0
    };
    let ghost digits = s@.skip(start as int);
    assert(digits == if start == 1 {
        s@.drop_first()
    } else {
        s@
    });
    if start == s.len() {
        return None;
    }
    let mut value: u64 = 0;
    let mut i: usize = start;
    while i < s.len()
        invariant
            start <= i <= s@.len(),
            digits == s@.skip(start as int),
            digits == (if s@.len() > 0 && s@[0] == '+' {
                s@.drop_first()
            } else {
                s@
            }),
            value == digits_value(digits.take(i - start)),
            forall|j: int| 0 <= j < i - start ==> is_digit(digits[j]),
        decreases s@.len() - i,
    {
        let c: char = s[i];
        assert(c == digits[i - start]);
        if c < '0' || c > '9' {
            assert(!is_digit(digits[i - start]));
            return None;
        }
        let d: u64 = (c as u32 - '0' as u32) as u64;
        proof {
            assert(digits.take(i + 1 - start).drop_last() == digits.take(i - start));
            assert(digits.take(i + 1 - start).last() == c);
            assert(digits_value(digits.take(i + 1 - start)) == value * 10 + d);
            if all_digits(digits) {
                digits_value_grows(digits, i + 1 - start);
            }
        }
        if value > (u64::MAX - d) / 10 {
            return None;
        }
        value = value * 10 + d;
        i += 1;
    }
    assert(digits.take(i - start) == digits);
    Some(value)
}

/// Reading a number back from its decimal notation gives the number.
pub proof fn decimal_reads_back(n: u64)
    ensures
        number_value(decimal(n as nat)) == Some(n),
{
    decimal_denotes(n as nat);
    let s = decimal(n as nat);
    assert(is_digit(s[0]));
}

/// Decimal notation is made of digits, at least one, that denote the number.
pub proof fn decimal_denotes(n: nat)
    ensures
        decimal(n).len() > 0,
        all_digits(decimal(n)),
        digits_value(decimal(n)) == n,
    decreases n,
{
    if n < 10 {
        let s = decimal(n);
        assert(s.drop_last().len() == 0);
        assert(digits_value(s.drop_last()) == 0);
    } else {
        decimal_denotes(n / 10);
        let s = decimal(n);
        assert(s.drop_last() == decimal(n / 10));
    }
}

/// Trimming takes off white space at both ends, all of it, and nothing else.
pub proof fn trimming_takes_off_white_space(s: Seq<char>)
    ensures
        exists|a: int, b: int|
            {
                &&& 0 <= a <= b <= s.len()
                &&& #[trigger] s.subrange(a, b) == trimmed(s)
                &&& forall|i: int| 0 <= i < a || b <= i < s.len() ==> white_space(#[trigger] s[i])
            },
        trimmed(s).len() > 0 ==> !white_space(trimmed(s)[0]) && !white_space(trimmed(s).last()),
{
    start_is_trimmed(s);
    let t = trimmed_start(s);
    end_is_trimmed(t);
    let a = s.len() - t.len();
    let b = a + trimmed(s).len();
    assert(s.subrange(a, b) =~= trimmed(s)) by {
        assert forall|i: int| 0 <= i < trimmed(s).len() implies s[a + i] == trimmed(s)[i] by {
            assert(t[i] == s[a + i]);
        }
    }
    assert forall|i: int| 0 <= i < a || b <= i < s.len() implies white_space(#[trigger] s[i]) by {
        if i >= b {
            assert(t[i - a] == s[i]);
        }
    }
}

proof fn start_is_trimmed(s: Seq<char>)
    ensures
        trimmed_start(s).len() <= s.len(),
        trimmed_start(s) == s.skip(s.len() - trimmed_start(s).len()),
        forall|i: int| 0 <= i < s.len() - trimmed_start(s).len() ==> white_space(#[trigger] s[i]),
        trimmed_start(s).len() > 0 ==> !white_space(trimmed_start(s)[0]),
    decreases s.len(),
{
    if s.len() > 0 && white_space(s[0]) {
        let rest = s.drop_first();
        start_is_trimmed(rest);
        let n = s.len() - trimmed_start(s).len();
        assert(rest.skip(n - 1) =~= s.skip(n));
        assert forall|i: int| 0 <= i < n implies white_space(#[trigger] s[i]) by {
            if i > 0 {
                assert(rest[i - 1] == s[i]);
            }
        }
    } else {
        assert(s.skip(0) =~= s);
    }
}

proof fn end_is_trimmed(s: Seq<char>)
    ensures
        trimmed_end(s).len() <= s.len(),
        trimmed_end(s) == s.take(trimmed_end(s).len() as int),
        forall|i: int| trimmed_end(s).len() <= i < s.len() ==> white_space(#[trigger] s[i]),
        trimmed_end(s).len() > 0 ==> !white_space(trimmed_end(s).last()),
    decreases s.len(),
{
    if s.len() > 0 && white_space(s.last()) {
        let rest = s.drop_last();
        end_is_trimmed(rest);
        let n = trimmed_end(s).len() as int;
        assert(rest.take(n) =~= s.take(n));
        assert forall|i: int| n <= i < s.len() implies white_space(#[trigger] s[i]) by {
            if i < rest.len() {
                assert(rest[i] == s[i]);
            }
        }
    } else {
        assert(s.take(s.len() as int) =~= s);
    }
}

/// A text between white space, with none at its own ends, is what trimming
/// leaves.
pub proof fn trimming_leaves_the_text(front: Seq<char>, s: Seq<char>, back: Seq<char>)
    requires
        forall|i: int| 0 <= i < front.len() ==> white_space(#[trigger] front[i]),
        forall|i: int| 0 <= i < back.len() ==> white_space(#[trigger] back[i]),
        s.len() > 0,
        !white_space(s[0]),
        !white_space(s.last()),
    ensures
        trimmed(front + s + back) == s,
{
    let all = front + s + back;
    trimming_takes_off_white_space(all);
    let (a, b) = choose|a: int, b: int|
        {
            &&& 0 <= a <= b <= all.len()
            &&& #[trigger] all.subrange(a, b) == trimmed(all)
            &&& forall|i: int| 0 <= i < a || b <= i < all.len() ==> white_space(#[trigger] all[i])
        };
    let (x, y) = (front.len() as int, front.len() + s.len());
    assert(all[x] == s[0]);
    assert(all[y - 1] == s.last());
    assert(a <= x && y <= b);
    if a < x {
        assert(trimmed(all)[0] == all[a]);
        assert(all[a] == front[a]);
    }
    if y < b {
        assert(trimmed(all).last() == all[b - 1]);
        assert(all[b - 1] == back[b - 1 - y]);
    }
    assert(all.subrange(a, b) =~= s);
}

/// The white space that HTTP knows is white space; letters, digits and signs
/// are not.
pub proof fn blanks_are_white_space(c: char)
    ensures
        c == ' ' || c == '\t' || c == '\r' || c == '\n' ==> white_space(c),
        '!' <= c <= '~' ==> !white_space(c),
        white_space(c) && (c as u32) < 128 ==> c == ' ' || 9 <= c as u32 <= 13,
{
}

/// Two texts are the same but for case where each character is the same, or one
/// is a capital letter of ASCII and the other the small one.
pub proof fn case_is_that_of_letters(a: Seq<char>, b: Seq<char>)
    ensures
        same_ignoring_case(a, b) <==> {
            &&& a.len() == b.len()
            &&& forall|i: int|
                0 <= i < a.len() ==> {
                    ||| #[trigger] a[i] == b[i]
                    ||| 'A' <= a[i] <= 'Z' && b[i] as u32 == a[i] as u32 + 32
                    ||| 'A' <= b[i] <= 'Z' && a[i] as u32 == b[i] as u32 + 32
                }
        },
{
    let f = |c: char| ascii_lower(c);
    let (x, y) = (a.map_values(f), b.map_values(f));
    if x == y {
        assert(a.len() == x.len() && b.len() == y.len());
        assert forall|i: int| 0 <= i < a.len() implies {
            ||| #[trigger] a[i] == b[i]
            ||| 'A' <= a[i] <= 'Z' && b[i] as u32 == a[i] as u32 + 32
            ||| 'A' <= b[i] <= 'Z' && a[i] as u32 == b[i] as u32 + 32
        } by {
            assert(x[i] == y[i]);
            lower_case_is_by_letter(a[i], b[i]);
        }
    }
    if a.len() == b.len() && (forall|i: int|
        0 <= i < a.len() ==> {
            ||| #[trigger] a[i] == b[i]
            ||| 'A' <= a[i] <= 'Z' && b[i] as u32 == a[i] as u32 + 32
            ||| 'A' <= b[i] <= 'Z' && a[i] as u32 == b[i] as u32 + 32
        }) {
        assert forall|i: int| 0 <= i < a.len() implies x[i] == y[i] by {
            assert(a[i] == a[i]);
            lower_case_is_by_letter(a[i], b[i]);
        }
        assert(x =~= y);
    }
}

proof fn lower_case_is_by_letter(c: char, d: char)
    ensures
        ascii_lower(c) == ascii_lower(d) <==> {
            ||| c == d
            ||| 'A' <= c <= 'Z' && d as u32 == c as u32 + 32
            ||| 'A' <= d <= 'Z' && c as u32 == d as u32 + 32
        },
{
}

/// A pattern stands in a text where the text is made of a head, the pattern and a
/// tail.
pub proof fn patterns_stand_in_the_text(text: Seq<char>, pat: Seq<char>, p: int)
    ensures
        occurs_at(text, pat, p) <==> exists|head: Seq<char>, tail: Seq<char>|
            head.len() == p && text == #[trigger] (head + pat + tail),
{
    if occurs_at(text, pat, p) {
        let (head, tail) = (text.take(p), text.skip(p + pat.len()));
        assert(text =~= head + text.subrange(p, p + pat.len()) + tail);
        assert(head.len() == p && text == head + pat + tail);
    }
    if exists|head: Seq<char>, tail: Seq<char>|
        head.len() == p && text == #[trigger] (head + pat + tail) {
        let (head, tail) = choose|head: Seq<char>, tail: Seq<char>|
            head.len() == p && text == #[trigger] (head + pat + tail);
        assert((head + pat + tail).subrange(p, p + pat.len()) =~= pat);
    }
}

/// Decimal notation has no zero in front, but for zero itself.
pub proof fn decimal_has_no_zero_in_front(n: nat)
    ensures
        n > 0 ==> decimal(n)[0] != '0',
        n < 10 ==> decimal(n).len() == 1,
        n >= 10 ==> decimal(n).len() == decimal(n / 10).len() + 1,
    decreases n,
{
    if n >= 10 {
        decimal_has_no_zero_in_front(n / 10);
        decimal_denotes(n / 10);
    }
}

/// A number is read from its digits, with zeros or one plus sign in front; a text
/// with any other character, or without a digit, is no number.
pub proof fn numbers_are_digits(n: u64, s: Seq<char>, i: int)
    ensures
        number_value(seq!['+'] + decimal(n as nat)) == Some(n),
        number_value(seq!['0'] + decimal(n as nat)) == Some(n),
        number_value(seq![]) is None,
        number_value(seq!['+']) is None,
        0 <= i < s.len() && !('0' <= s[i] <= '9') && !(i == 0 && s[i] == '+') ==> number_value(
            s,
        ) is None,
{
    let d = decimal(n as nat);
    decimal_denotes(n as nat);
    let plus = seq!['+'] + d;
    assert(plus.drop_first() =~= d);
    let zero = seq!['0'] + d;
    zero_in_front(d);
    assert forall|k: int| 0 <= k < zero.len() implies is_digit(#[trigger] zero[k]) by {
        if k > 0 {
            assert(zero[k] == d[k - 1]);
        }
    }
    assert(seq!['+'].drop_first().len() == 0);
    if 0 <= i < s.len() && !('0' <= s[i] <= '9') && !(i == 0 && s[i] == '+') {
        if s[0] == '+' {
            assert(s.drop_first()[i - 1] == s[i]);
            assert(!is_digit(s.drop_first()[i - 1]));
        } else {
            assert(!is_digit(s[i]));
        }
    }
}

proof fn zero_in_front(s: Seq<char>)
    ensures
        digits_value(seq!['0'] + s) == digits_value(s),
    decreases s.len(),
{
    let all = seq!['0'] + s;
    if s.len() == 0 {
        assert(all.drop_last() =~= seq![]);
        assert(digits_value(all.drop_last()) == 0);
    } else {
        assert(all.drop_last() =~= seq!['0'] + s.drop_last());
        zero_in_front(s.drop_last());
    }
}

/// The characters that Unicode lists as white space, and no others, are trimmed.
pub proof fn white_space_is_that_of_unicode(c: char)
    ensures
        ({
            let listed = seq![
                9u32, 10, 11, 12, 13, 32, 133, 160, 5760, 8192, 8193, 8194, 8195, 8196, 8197, 8198,
                8199, 8200, 8201, 8202, 8232, 8233, 8239, 8287, 12288,
            ];
            white_space(c) <==> listed.contains(c as u32)
        }),
{
    let u = c as u32;
    let listed = seq![
        9u32, 10, 11, 12, 13, 32, 133, 160, 5760, 8192, 8193, 8194, 8195, 8196, 8197, 8198, 8199,
        8200, 8201, 8202, 8232, 8233, 8239, 8287, 12288,
    ];
    assert(listed[0] == 9 && listed[1] == 10 && listed[2] == 11 && listed[3] == 12 && listed[4]
        == 13 && listed[5] == 32 && listed[6] == 133 && listed[7] == 160 && listed[8] == 5760);
    assert(listed[9] == 8192 && listed[10] == 8193 && listed[11] == 8194 && listed[12] == 8195
        && listed[13] == 8196 && listed[14] == 8197 && listed[15] == 8198 && listed[16] == 8199
        && listed[17] == 8200 && listed[18] == 8201 && listed[19] == 8202);
    assert(listed[20] == 8232 && listed[21] == 8233 && listed[22] == 8239 && listed[23] == 8287
        && listed[24] == 12288);
}

/// A character that stands at `n` and nowhere before is first found there.
pub proof fn first_index_at(s: Seq<char>, c: char, n: int)
    requires
        0 <= n < s.len(),
        s[n] == c,
        forall|j: int| 0 <= j < n ==> s[j] != c,
    ensures
        first_index(s, c) == n,
        s.contains(c),
{
    first_index_is_first(s, c);
}

/// A character that occurs is found where it occurs, and nowhere before.
pub proof fn first_index_finds(s: Seq<char>, c: char)
    requires
        s.contains(c),
    ensures
        0 <= first_index(s, c) < s.len(),
        s[first_index(s, c)] == c,
        forall|j: int| 0 <= j < first_index(s, c) ==> s[j] != c,
{
    first_index_is_first(s, c);
}

} // verus!
