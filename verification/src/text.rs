//! Text vocabulary: character classes, trimming, splitting and number printing.

use crate::bytes;
use vstd::prelude::*;
use vstd::string::StrSliceExecFns;

verus! {

/// Appends one character, as `String::push` documents.
pub assume_specification[ String::push ](s: &mut String, c: char)
    ensures
        final(s)@ == old(s)@.push(c),
;

/// The text that `String::from_utf8_lossy` makes of bytes that are not UTF-8.
pub uninterp spec fn replaced_text(bytes: Seq<u8>) -> Seq<char>;

/// The text of a byte string, with invalid parts replaced.
pub open spec fn lossy_text(bytes: Seq<u8>) -> Seq<char> {
    if vstd::utf8::valid_utf8(bytes) {
        vstd::utf8::decode_utf8(bytes)
    } else {
        replaced_text(bytes)
    }
}

/// The text of an optional reference.
pub open spec fn opt_str(s: Option<&str>) -> Option<Seq<char>> {
    match s {
        Some(s) => Some(s@),
        None => None,
    }
}

/// `String::from_utf8_lossy`: bytes that are valid UTF-8 come back as the characters that they
/// encode; of other bytes the result is only said to depend on them alone, not how invalid
/// parts are replaced.
#[verifier::external_body]
pub(crate) fn from_utf8_lossy(b: &[u8]) -> (r: String)
    ensures
        vstd::utf8::valid_utf8(b@) ==> r@ == vstd::utf8::decode_utf8(b@),
        !vstd::utf8::valid_utf8(b@) ==> r@ == replaced_text(b@),
{
    String::from_utf8_lossy(b).into_owned()
}

/// Text that is encoded comes back unchanged.
pub proof fn lemma_lossy_of_text(s: Seq<char>)
    ensures
        lossy_text(vstd::utf8::encode_utf8(s)) == s,
{
    vstd::utf8::encode_utf8_valid_utf8(s);
    vstd::utf8::encode_utf8_decode_utf8(s);
}

/// The error of `core::str::from_utf8`; nothing of what it holds is modelled.
#[verifier::external_type_specification]
#[verifier::external_body]
pub struct ExUtf8Error(core::str::Utf8Error);

/// `core::str::from_utf8`: succeeds exactly on valid UTF-8, and then the slice has those bytes.
pub assume_specification[ core::str::from_utf8 ](v: &[u8]) -> (r: Result<
    &str,
    core::str::Utf8Error,
>)
    ensures
        match r {
            Ok(s) => vstd::utf8::valid_utf8(v@) && vstd::utf8::encode_utf8(s@) == v@,
            Err(_) => !vstd::utf8::valid_utf8(v@),
        },
;

/// The text that the bytes encode, if they are UTF-8.
pub fn read_utf8(v: &[u8]) -> (r: Result<&str, core::str::Utf8Error>)
    ensures
        match r {
            Ok(s) => vstd::utf8::valid_utf8(v@) && s@ == vstd::utf8::decode_utf8(v@),
            Err(_) => !vstd::utf8::valid_utf8(v@),
        },
{
    let r = core::str::from_utf8(v);
    proof {
        if let Ok(s) = r {
            vstd::utf8::encode_utf8_decode_utf8(s@);
        }
    }
    r
}

/// The quoted and escaped form of a text, as its `Debug` implementation prints it.
pub uninterp spec fn debug_text(s: Seq<char>) -> Seq<char>;

/// The `Debug` form of a string slice: a function of its characters alone.
#[verifier::external_body]
pub(crate) fn debug_str(s: &str) -> (r: String)
    ensures
        r@ == debug_text(s@),
{
    format!("{:?}", s)
}

/// The quoted and escaped form of a path, as the `Debug` implementation of
/// `std::path::Path` prints it.
pub uninterp spec fn debug_path_text(s: Seq<char>) -> Seq<char>;

/// The `Debug` form of a `std::path::Path` made of a text: a function of its characters alone.
#[verifier::external_body]
pub(crate) fn debug_path(s: &str) -> (r: String)
    ensures
        r@ == debug_path_text(s@),
{
    format!("{:?}", std::path::Path::new(s))
}

/// The characters with Unicode property `White_Space`.
pub open spec fn whitespace(c: char) -> bool {
    let u = c as u32;
    ||| 0x9 <= u <= 0xd
    ||| u == 0x20
    ||| u == 0x85
    ||| u == 0xa0
    ||| u == 0x1680
    ||| 0x2000 <= u <= 0x200a
    ||| u == 0x2028
    ||| u == 0x2029
    ||| u == 0x202f
    ||| u == 0x205f
    ||| u == 0x3000
}

/// Whether `c` is white space.
pub fn is_whitespace(c: char) -> (r: bool)
    ensures
        r == whitespace(c),
{
    let u: u32 = c as u32;
    (0x9 <= u && u <= 0xd) || u == 0x20 || u == 0x85 || u == 0xa0 || u == 0x1680 || (0x2000 <= u
        && u <= 0x200a) || u == 0x2028 || u == 0x2029 || u == 0x202f || u == 0x205f || u == 0x3000
}

/// An ASCII digit.
pub open spec fn ascii_digit(c: char) -> bool {
    '0' <= c && c <= '9'
}

/// The lower-case form of an ASCII letter; every other character itself.
pub open spec fn ascii_lower(c: char) -> char {
    if 'A' <= c && c <= 'Z' {
        ((c as u32) + 32) as char
    } else {
        c
    }
}

/// `ascii_lower` on one character.
pub fn to_ascii_lower(c: char) -> (r: char)
    ensures
        r == ascii_lower(c),
{
    if 'A' <= c && c <= 'Z' {
        ((c as u8) + 32u8) as char
    } else {
        c
    }
}

/// Every character of `s` in ASCII lower case.
pub open spec fn ascii_lower_text(s: Seq<char>) -> Seq<char> {
    s.map_values(|c: char| ascii_lower(c))
}

/// The characters of a string slice.
pub fn chars_of(s: &str) -> (r: Vec<char>)
    ensures
        r@ == s@,
{
    let mut out: Vec<char> = Vec::new();
    for c in it: s.chars()
        invariant
            it.seq() == s@,
            out@ == s@.take(it.index() as int),
    {
        out.push(c);
        assert(s@.take(it.index() as int + 1) =~= s@.take(it.index() as int).push(c));
    }
    assert(s@.take(s@.len() as int) =~= s@);
    out
}

/// The string with the given characters.
pub fn string_of(chars: &[char]) -> (r: String)
    ensures
        r@ == chars@,
{
    let mut out = String::new();
    let mut i: usize = 0;
    while i < chars.len()
        invariant
            i <= chars.len(),
            out@ == chars@.take(i as int),
        decreases chars.len() - i,
    {
        out.push(chars[i]);
        i += 1;
        assert(chars@.take(i as int) =~= chars@.take(i - 1).push(chars@[i - 1]));
    }
    assert(chars@.take(chars@.len() as int) =~= chars@);
    out
}

/// Whether two texts are equal.
pub fn equal(a: &str, b: &str) -> (r: bool)
    ensures
        r == (a@ == b@),
{
    let x = chars_of(a);
    let y = chars_of(b);
    if x.len() != y.len() {
        return false;
    }
    let mut i: usize = 0;
    while i < x.len()
        invariant
            i <= x.len() == y.len(),
            x@ == a@,
            y@ == b@,
            forall|k: int| 0 <= k < i ==> x@[k] == y@[k],
        decreases x.len() - i,
    {
        if x[i] != y[i] {
            return false;
        }
        i += 1;
    }
    assert(a@ =~= b@);
    true
}

/// Whether `s` begins with `prefix`.
pub fn starts_with(s: &str, prefix: &str) -> (r: bool)
    ensures
        r == prefix@.is_prefix_of(s@),
{
    let x = chars_of(s);
    let p = chars_of(prefix);
    if x.len() < p.len() {
        return false;
    }
    let mut i: usize = 0;
    while i < p.len()
        invariant
            i <= p.len() <= x.len(),
            x@ == s@,
            p@ == prefix@,
            forall|k: int| 0 <= k < i ==> x@[k] == p@[k],
        decreases p.len() - i,
    {
        if x[i] != p[i] {
            assert(s@.take(p@.len() as int)[i as int] != p@[i as int]);
            return false;
        }
        i += 1;
    }
    assert(s@.subrange(0, p@.len() as int) =~= p@);
    true
}

/// Whether `s` ends with `suffix`.
pub fn ends_with(s: &str, suffix: &str) -> (r: bool)
    ensures
        r == suffix@.is_suffix_of(s@),
{
    let x = chars_of(s);
    let p = chars_of(suffix);
    if x.len() < p.len() {
        return false;
    }
    let base: usize = x.len() - p.len();
    let mut i: usize = 0;
    while i < p.len()
        invariant
            i <= p.len() <= x.len(),
            base == x.len() - p.len(),
            x@ == s@,
            p@ == suffix@,
            forall|k: int| 0 <= k < i ==> x@[base + k] == p@[k],
        decreases p.len() - i,
    {
        if x[base + i] != p[i] {
            assert(s@.subrange(base as int, s@.len() as int)[i as int] != p@[i as int]);
            return false;
        }
        i += 1;
    }
    assert(s@.subrange(base as int, s@.len() as int) =~= p@);
    true
}

/// Whether `c` occurs in `s`.
pub fn contains_char(s: &str, c: char) -> (r: bool)
    ensures
        r == s@.contains(c),
{
    let x = chars_of(s);
    let mut i: usize = 0;
    while i < x.len()
        invariant
            i <= x.len(),
            x@ == s@,
            forall|k: int| 0 <= k < i ==> x@[k] != c,
        decreases x.len() - i,
    {
        if x[i] == c {
            assert(s@[i as int] == c);
            return true;
        }
        i += 1;
    }
    false
}

/// Where the leading white space of `s` ends.
pub open spec fn trim_start_at(s: Seq<char>) -> int {
    bytes::find_from(s, |c: char| !whitespace(c), 0)
}

/// Where the trailing white space of `s` begins, looking no further back than `floor`.
pub open spec fn trim_end_at(s: Seq<char>, floor: int) -> int
    decreases s.len(),
{
    if s.len() > floor && s.len() > 0 && whitespace(s.last()) {
        trim_end_at(s.drop_last(), floor)
    } else {
        s.len() as int
    }
}

/// `s` without leading white space.
pub open spec fn trim_start(s: Seq<char>) -> Seq<char> {
    s.skip(trim_start_at(s))
}

/// `s` without trailing white space.
pub open spec fn trim_end(s: Seq<char>) -> Seq<char> {
    s.take(trim_end_at(s, 0))
}

/// `s` without leading and trailing white space.
pub open spec fn trim(s: Seq<char>) -> Seq<char> {
    trim_end(trim_start(s))
}

pub proof fn lemma_trim_end_at(s: Seq<char>, at: int)
    requires
        0 <= at <= s.len(),
        at > 0 ==> !whitespace(s[at - 1]),
        forall|k: int| at <= k < s.len() ==> whitespace(#[trigger] s[k]),
    ensures
        trim_end_at(s, 0) == at,
    decreases s.len(),
{
    if s.len() > at {
        assert(whitespace(s[s.len() - 1]));
        assert forall|k: int| at <= k < s.drop_last().len() implies whitespace(
            #[trigger] s.drop_last()[k],
        ) by {
            assert(whitespace(s[k]));
        }
        lemma_trim_end_at(s.drop_last(), at);
    }
}

/// `s` without leading and trailing white space.
pub fn trimmed<'a>(s: &'a str) -> (r: &'a str)
    ensures
        r@ == trim(s@),
{
    let x = chars_of(s);
    let mut i: usize = 0;
    while i < x.len() && is_whitespace(x[i])
        invariant
            i <= x.len(),
            x@ == s@,
            forall|k: int| 0 <= k < i ==> whitespace(#[trigger] s@[k]),
        decreases x.len() - i,
    {
        i += 1;
    }
    proof {
        bytes::lemma_find_from_is(s@, |c: char| !whitespace(c), 0, i as int);
    }
    let mut j: usize = x.len();
    while j > i && is_whitespace(x[j - 1])
        invariant
            i <= j <= x.len(),
            x@ == s@,
            forall|k: int| j <= k < x@.len() ==> whitespace(#[trigger] s@[k]),
        decreases j,
    {
        j -= 1;
    }
    proof {
        let t = s@.skip(i as int);
        assert forall|k: int| j - i <= k < t.len() implies whitespace(#[trigger] t[k]) by {
            assert(whitespace(s@[k + i]));
        }
        lemma_trim_end_at(t, j - i);
        assert(t.take(j - i) =~= s@.subrange(i as int, j as int));
    }
    s.substring_char(i, j)
}

/// `s` without trailing white space.
pub fn trimmed_end<'a>(s: &'a str) -> (r: &'a str)
    ensures
        r@ == trim_end(s@),
{
    let x = chars_of(s);
    let mut j: usize = x.len();
    while j > 0 && is_whitespace(x[j - 1])
        invariant
            j <= x.len(),
            x@ == s@,
            forall|k: int| j <= k < x@.len() ==> whitespace(#[trigger] s@[k]),
        decreases j,
    {
        j -= 1;
    }
    proof {
        lemma_trim_end_at(s@, j as int);
        assert(s@.take(j as int) =~= s@.subrange(0, j as int));
    }
    s.substring_char(0, j)
}

/// The test for one particular character.
pub open spec fn is_char(sep: char) -> spec_fn(char) -> bool {
    |c: char| c == sep
}

/// The pieces of `s` between occurrences of `sep`, empty ones included.
pub open spec fn split(s: Seq<char>, sep: char) -> Seq<Seq<char>>
    decreases s.len(),
{
    let at = bytes::find_from(s, is_char(sep), 0);
    if 0 <= at < s.len() {
        seq![s.take(at)] + split(s.skip(at + 1), sep)
    } else {
        seq![s]
    }
}

/// The texts of a vector of strings.
pub open spec fn texts(v: Seq<String>) -> Seq<Seq<char>> {
    v.map_values(|s: String| s@)
}

/// The pieces of `s` between occurrences of `sep`, empty ones included.
pub fn split_on(s: &str, sep: char) -> (r: Vec<String>)
    ensures
        texts(r@) == split(s@, sep),
{
    let x = chars_of(s);
    let mut out: Vec<String> = Vec::new();
    let mut start: usize = 0;
    let mut i: usize = 0;
    assert(s@.skip(0) =~= s@);
    while i < x.len()
        invariant
            start <= i <= x.len(),
            x@ == s@,
            forall|k: int| start <= k < i ==> s@[k] != sep,
            texts(out@) + split(s@.skip(start as int), sep) == split(s@, sep),
        decreases x.len() - i,
    {
        if x[i] == sep {
            let ghost rest = s@.skip(start as int);
            let piece = string_of(vstd::slice::slice_subrange(x.as_slice(), start, i));
            proof {
                bytes::lemma_find_from_is(rest, is_char(sep), 0, i - start);
                assert(rest.take(i - start) =~= piece@);
                assert(rest.skip(i - start + 1) =~= s@.skip(i + 1));
            }
            let ghost before = out@;
            out.push(piece);
            proof {
                assert(texts(out@) =~= texts(before).push(piece@));
                assert(texts(before) + (seq![piece@] + split(s@.skip(i + 1), sep)) =~= texts(out@)
                    + split(s@.skip(i + 1), sep));
            }
            start = i + 1;
        }
        i += 1;
    }
    let ghost rest = s@.skip(start as int);
    let piece = string_of(vstd::slice::slice_subrange(x.as_slice(), start, x.len()));
    let ghost before = out@;
    out.push(piece);
    proof {
        assert(piece@ =~= rest);
        bytes::lemma_find_from_is(rest, is_char(sep), 0, rest.len() as int);
        assert(texts(out@) =~= texts(before) + seq![rest]);
    }
    out
}

/// A line without the carriage return that a `\r\n` break leaves behind.
pub open spec fn without_cr(line: Seq<char>) -> Seq<char> {
    if line.len() > 0 && line.last() == '\r' {
        line.drop_last()
    } else {
        line
    }
}

/// The lines of `s`: broken at `\n` or `\r\n`, with no empty line after a final break.
pub open spec fn lines(s: Seq<char>) -> Seq<Seq<char>>
    decreases s.len(),
{
    let at = bytes::find_from(s, is_char('\n'), 0);
    if s.len() == 0 {
        Seq::empty()
    } else if 0 <= at < s.len() {
        seq![without_cr(s.take(at))] + lines(s.skip(at + 1))
    } else {
        seq![s]
    }
}

/// The lines of `s`: broken at `\n` or `\r\n`, with no empty line after a final break.
pub fn lines_of(s: &str) -> (r: Vec<String>)
    ensures
        texts(r@) == lines(s@),
{
    let x = chars_of(s);
    let mut out: Vec<String> = Vec::new();
    let mut start: usize = 0;
    let mut i: usize = 0;
    assert(s@.skip(0) =~= s@);
    while i < x.len()
        invariant
            start <= i <= x.len(),
            x@ == s@,
            forall|k: int| start <= k < i ==> s@[k] != '\n',
            texts(out@) + lines(s@.skip(start as int)) == lines(s@),
        decreases x.len() - i,
    {
        if x[i] == '\n' {
            let ghost rest = s@.skip(start as int);
            let end: usize = if i > start && x[i - 1] == '\r' {
                i - 1
            } else {
                i
            };
            let piece = string_of(vstd::slice::slice_subrange(x.as_slice(), start, end));
            proof {
                bytes::lemma_find_from_is(rest, is_char('\n'), 0, i - start);
                assert(without_cr(rest.take(i - start)) =~= piece@);
                assert(rest.skip(i - start + 1) =~= s@.skip(i + 1));
            }
            let ghost before = out@;
            out.push(piece);
            proof {
                assert(texts(out@) =~= texts(before).push(piece@));
                assert(texts(before) + (seq![piece@] + lines(s@.skip(i + 1))) =~= texts(out@)
                    + lines(s@.skip(i + 1)));
            }
            start = i + 1;
        }
        i += 1;
    }
    let ghost rest = s@.skip(start as int);
    if start < x.len() {
        let piece = string_of(vstd::slice::slice_subrange(x.as_slice(), start, x.len()));
        let ghost before = out@;
        out.push(piece);
        proof {
            assert(piece@ =~= rest);
            bytes::lemma_find_from_is(rest, is_char('\n'), 0, rest.len() as int);
            assert(texts(out@) =~= texts(before) + seq![rest]);
        }
    } else {
        assert(rest.len() == 0);
        assert(texts(out@) + lines(rest) =~= texts(out@));
    }
    out
}

/// `a` followed by `b`.
pub fn cat2(a: &str, b: &str) -> (r: String)
    ensures
        r@ == a@ + b@,
{
    let mut out = a.to_string();
    out.append(b);
    out
}

/// `a`, `b` and `c` in a row.
pub fn cat3(a: &str, b: &str, c: &str) -> (r: String)
    ensures
        r@ == a@ + b@ + c@,
{
    let mut out = cat2(a, b);
    out.append(c);
    out
}

/// Four texts in a row.
pub fn cat4(a: &str, b: &str, c: &str, d: &str) -> (r: String)
    ensures
        r@ == a@ + b@ + c@ + d@,
{
    let mut out = cat3(a, b, c);
    out.append(d);
    out
}

/// Five texts in a row.
pub fn cat5(a: &str, b: &str, c: &str, d: &str, e: &str) -> (r: String)
    ensures
        r@ == a@ + b@ + c@ + d@ + e@,
{
    let mut out = cat4(a, b, c, d);
    out.append(e);
    out
}

/// The decimal digit for `d`.
pub open spec fn digit_char(d: nat) -> char {
    (48 + d) as char
}

/// The decimal form of `n`, without leading zeros.
pub open spec fn decimal(n: nat) -> Seq<char>
    decreases n,
{
    if n < 10 {
        seq![digit_char(n)]
    } else {
        decimal(n / 10).push(digit_char(n % 10))
    }
}

/// The decimal form of `n`.
pub fn decimal_of(n: u64) -> (r: String)
    ensures
        r@ == decimal(n as nat),
    decreases n,
{
    let d: u8 = (n % 10) as u8;
    let c: char = (48 + d) as char;
    if n < 10 {
        let mut out = String::new();
        out.push(c);
        assert(out@ =~= seq![c]);
        out
    } else {
        let mut out = decimal_of(n / 10);
        out.push(c);
        out
    }
}

/// The decimal form of an integer that may be negative.
pub open spec fn signed_decimal(n: int) -> Seq<char> {
    if n < 0 {
        seq!['-'] + decimal((-n) as nat)
    } else {
        decimal(n as nat)
    }
}

/// The decimal form of `n`.
pub fn signed_decimal_of(n: i32) -> (r: String)
    ensures
        r@ == signed_decimal(n as int),
{
    if n < 0 {
        let magnitude: u64 = (-(n as i64)) as u64;
        let mut out = String::new();
        out.push('-');
        assert(out@ =~= seq!['-']);
        let digits = decimal_of(magnitude);
        out.append(digits.as_str());
        out
    } else {
        decimal_of(n as u64)
    }
}

/// The number that a run of decimal digits stands for.
pub open spec fn digits_value(s: Seq<char>) -> nat
    decreases s.len(),
{
    if s.len() == 0 {
        0
    } else {
        digits_value(s.drop_last()) * 10 + (s.last() as nat - 48) as nat
    }
}

/// Only decimal digits.
pub open spec fn all_digits(s: Seq<char>) -> bool {
    forall|k: int| 0 <= k < s.len() ==> ascii_digit(#[trigger] s[k])
}

/// The unsigned number written in `s`: an optional `+`, then at least one digit, and a
/// value that a `usize` holds.
pub open spec fn unsigned(s: Seq<char>) -> Option<nat> {
    let digits = if s.len() > 0 && s[0] == '+' {
        s.skip(1)
    } else {
        s
    };
    if digits.len() > 0 && all_digits(digits) && digits_value(digits) <= usize::MAX {
        Some(digits_value(digits))
    } else {
        None
    }
}

proof fn lemma_digits_value_grows(s: Seq<char>, k: int)
    requires
        0 <= k <= s.len(),
    ensures
        digits_value(s.take(k)) <= digits_value(s),
    decreases s.len() - k,
{
    if k == s.len() {
        assert(s.take(k) =~= s);
    } else {
        lemma_digits_value_grows(s, k + 1);
        assert(s.take(k + 1).drop_last() =~= s.take(k));
    }
}

/// Read an unsigned number.
pub fn parse_unsigned(s: &str) -> (r: Option<usize>)
    ensures
        match r {
            Some(n) => unsigned(s@) == Some(n as nat),
            None => unsigned(s@) is None,
        },
{
    let x = chars_of(s);
    let from: usize = if x.len() > 0 && x[0] == '+' {
        1
    } else {
        0
    };
    let ghost digits = if from == 1 {
        s@.skip(1)
    } else {
        s@
    };
    if x.len() == from {
        return None;
    }
    let mut value: usize = 0;
    let mut i: usize = from;
    assert(digits.take(0) =~= Seq::<char>::empty());
    while i < x.len()
        invariant
            from <= i <= x.len(),
            from <= 1,
            x@ == s@,
            from == 1 <==> (s@.len() > 0 && s@[0] == '+'),
            from == 1 ==> digits == s@.skip(1),
            from == 0 ==> digits == s@,
            digits.len() == x.len() - from,
            forall|k: int| 0 <= k < i - from ==> ascii_digit(#[trigger] digits[k]),
            value == digits_value(digits.take(i - from)),
        decreases x.len() - i,
    {
        let c = x[i];
        assert(c == digits[i - from]);
        if !('0' <= c && c <= '9') {
            assert(!ascii_digit(digits[i - from]));
            return None;
        }
        let d: usize = (c as u8 - 48) as usize;
        proof {
            assert(digits.take(i - from + 1).drop_last() =~= digits.take(i - from));
            lemma_digits_value_grows(digits, i - from + 1);
        }
        if value > usize::MAX / 10 {
            assert(value as int * 10 > usize::MAX) by (nonlinear_arith)
                requires
                    value > usize::MAX / 10,
            ;
            return None;
        }
        if value * 10 > usize::MAX - d {
            return None;
        }
        value = value * 10 + d;
        i += 1;
    }
    assert(digits.take(digits.len() as int) =~= digits);
    Some(value)
}

/// `parts` with `sep` between neighbours.
pub open spec fn join(parts: Seq<Seq<char>>, sep: Seq<char>) -> Seq<char>
    decreases parts.len(),
{
    if parts.len() == 0 {
        Seq::empty()
    } else if parts.len() == 1 {
        parts[0]
    } else {
        join(parts.drop_last(), sep) + sep + parts.last()
    }
}

/// `parts` with `sep` between neighbours.
pub fn join_with(parts: &Vec<String>, sep: &str) -> (r: String)
    ensures
        r@ == join(texts(parts@), sep@),
{
    let ghost all = texts(parts@);
    let mut out = String::new();
    let mut i: usize = 0;
    assert(out@ =~= join(all.take(0), sep@));
    while i < parts.len()
        invariant
            i <= parts.len(),
            all == texts(parts@),
            out@ == join(all.take(i as int), sep@),
        decreases parts.len() - i,
    {
        assert(all.take(i + 1).drop_last() =~= all.take(i as int));
        if i > 0 {
            out.append(sep);
        } else {
            assert(out@ + all[0] =~= all[0]);
        }
        out.append(parts[i].as_str());
        i += 1;
    }
    assert(all.take(all.len() as int) =~= all);
    out
}

/// The `Debug` form of an optional value whose own form is known.
pub open spec fn option_text(value: Option<Seq<char>>) -> Seq<char> {
    match value {
        Some(v) => "Some("@ + v + ")"@,
        None => "None"@,
    }
}

/// The `Debug` form of an optional value.
pub fn option_text_of(value: Option<String>) -> (r: String)
    ensures
        r@ == option_text(
            match value {
                Some(v) => Some(v@),
                None => None,
            },
        ),
{
    match value {
        Some(v) => cat3("Some(", v.as_str(), ")"),
        None => "None".to_string(),
    }
}

/// The `Debug` form of a list whose items' own forms are known.
pub open spec fn list_text(items: Seq<Seq<char>>) -> Seq<char> {
    "["@ + join(items, ", "@) + "]"@
}

/// The `Debug` form of a list.
pub fn list_text_of(items: &Vec<String>) -> (r: String)
    ensures
        r@ == list_text(texts(items@)),
{
    let inner = join_with(items, ", ");
    cat3("[", inner.as_str(), "]")
}

/// Whether `pattern` stands at character `i`.
pub open spec fn text_at(s: Seq<char>, pattern: Seq<char>, i: int) -> bool {
    0 <= i && i + pattern.len() <= s.len() && s.subrange(i, i + pattern.len()) == pattern
}

/// The first place at or after `from` where `pattern` stands.
pub open spec fn find_text(s: Seq<char>, pattern: Seq<char>, from: int) -> Option<int>
    decreases s.len() + 1 - from,
{
    if from < 0 || from > s.len() {
        None
    } else if text_at(s, pattern, from) {
        Some(from)
    } else {
        find_text(s, pattern, from + 1)
    }
}

/// A place that `find_text` gives is one where the pattern stands.
pub proof fn lemma_find_text(s: Seq<char>, pattern: Seq<char>, from: int)
    ensures
        find_text(s, pattern, from) matches Some(i) ==> from <= i && text_at(s, pattern, i),
    decreases s.len() + 1 - from,
{
    if 0 <= from <= s.len() && !text_at(s, pattern, from) {
        lemma_find_text(s, pattern, from + 1);
    }
}

/// The first place where `pattern` stands in `s`.
pub fn find_text_in(s: &str, pattern: &str) -> (r: Option<usize>)
    ensures
        match r {
            Some(i) => find_text(s@, pattern@, 0) == Some(i as int) && i + pattern@.len()
                <= s@.len(),
            None => find_text(s@, pattern@, 0) is None,
        },
{
    let x = chars_of(s);
    let p = chars_of(pattern);
    if p.len() > x.len() {
        proof {
            lemma_find_text(s@, pattern@, 0);
        }
        return None;
    }
    let last: usize = x.len() - p.len();
    let mut i: usize = 0;
    while i <= last
        invariant
            i <= last + 1,
            last == x.len() - p.len(),
            x@ == s@,
            p@ == pattern@,
            find_text(s@, pattern@, 0) == find_text(s@, pattern@, i as int),
        decreases last + 1 - i,
    {
        let mut k: usize = 0;
        while k < p.len() && x[i + k] == p[k]
            invariant
                i <= last,
                k <= p.len(),
                last == x.len() - p.len(),
                x@ == s@,
                p@ == pattern@,
                forall|m: int| 0 <= m < k ==> s@[i + m] == pattern@[m],
            decreases p.len() - k,
        {
            k += 1;
        }
        if k == p.len() {
            assert(s@.subrange(i as int, i + pattern@.len()) =~= pattern@);
            return Some(i);
        }
        proof {
            assert(s@.subrange(i as int, i + pattern@.len())[k as int] != pattern@[k as int]);
        }
        i += 1;
    }
    proof {
        lemma_find_text(s@, pattern@, i as int);
    }
    None
}

/// `s` with the first occurrence of `pattern` replaced.
pub open spec fn replace_first(s: Seq<char>, pattern: Seq<char>, with: Seq<char>) -> Seq<char> {
    match find_text(s, pattern, 0) {
        Some(i) => s.take(i) + with + s.skip(i + pattern.len()),
        None => s,
    }
}

/// `s` with the first occurrence of `pattern` replaced.
pub fn with_first_replaced(s: &str, pattern: &str, with: &str) -> (r: String)
    ensures
        r@ == replace_first(s@, pattern@, with@),
{
    match find_text_in(s, pattern) {
        None => s.to_string(),
        Some(i) => {
            let x = chars_of(s);
            let total: usize = x.len();
            let n: usize = chars_of(pattern).len();
            let head = string_of(vstd::slice::slice_subrange(x.as_slice(), 0, i));
            let tail = string_of(vstd::slice::slice_subrange(x.as_slice(), i + n, total));
            assert(head@ =~= s@.take(i as int));
            assert(tail@ =~= s@.skip(i + n));
            cat3(head.as_str(), with, tail.as_str())
        },
    }
}

/// The bytes of a string.
pub fn bytes_of(s: &str) -> (r: Vec<u8>)
    ensures
        r@ == vstd::utf8::encode_utf8(s@),
{
    vstd::slice::slice_to_vec(s.as_bytes())
}

/// Append a text to a list.
pub fn push_text(list: &mut Vec<String>, item: &str)
    ensures
        texts(final(list)@) == texts(old(list)@).push(item@),
{
    let ghost before = list@;
    list.push(item.to_string());
    assert(texts(list@) =~= texts(before).push(item@));
}

/// An empty list of texts.
pub fn no_texts() -> (r: Vec<String>)
    ensures
        texts(r@) == Seq::<Seq<char>>::empty(),
{
    let r: Vec<String> = Vec::new();
    assert(texts(r@) =~= Seq::<Seq<char>>::empty());
    r
}

/// Without leading white space.
pub fn trimmed_start<'a>(s: &'a str) -> (r: &'a str)
    ensures
        r@ == trim_start(s@),
{
    let x = chars_of(s);
    let n: usize = x.len();
    let mut i: usize = 0;
    while i < n && is_whitespace(x[i])
        invariant
            i <= n,
            n == x.len(),
            x@ == s@,
            forall|k: int| 0 <= k < i ==> whitespace(#[trigger] s@[k]),
        decreases n - i,
    {
        i += 1;
    }
    proof {
        bytes::lemma_find_from_is(s@, |c: char| !whitespace(c), 0, i as int);
    }
    let r = s.substring_char(i, n);
    assert(r@ =~= trim_start(s@));
    r
}

/// Without line breaks at the end.
pub open spec fn without_line_end(s: Seq<char>) -> Seq<char>
    decreases s.len(),
{
    if s.len() > 0 && (s.last() == '\n' || s.last() == '\r') {
        without_line_end(s.drop_last())
    } else {
        s
    }
}

/// Without line breaks at the end.
pub fn strip_line_end(s: &str) -> (r: String)
    ensures
        r@ == without_line_end(s@),
{
    let x = chars_of(s);
    let mut n: usize = x.len();
    assert(s@.take(n as int) =~= s@);
    while n > 0 && (x[n - 1] == '\n' || x[n - 1] == '\r')
        invariant
            n <= x.len(),
            x@ == s@,
            without_line_end(s@) == without_line_end(s@.take(n as int)),
        decreases n,
    {
        assert(s@.take(n as int).drop_last() =~= s@.take(n - 1));
        n -= 1;
    }
    let r = string_of(vstd::slice::slice_subrange(x.as_slice(), 0, n));
    assert(r@ =~= s@.take(n as int));
    r
}

/// Whether a list of texts holds one.
pub fn list_contains(items: &Vec<String>, item: &str) -> (r: bool)
    ensures
        r == texts(items@).contains(item@),
{
    let ghost all = texts(items@);
    let mut i: usize = 0;
    while i < items.len()
        invariant
            i <= items.len(),
            all == texts(items@),
            forall|k: int| 0 <= k < i ==> #[trigger] all[k] != item@,
        decreases items.len() - i,
    {
        assert(all[i as int] == items@[i as int]@);
        if equal(items[i].as_str(), item) {
            return true;
        }
        i += 1;
    }
    assert(all.len() == items@.len());
    false
}

/// A copy of a list of texts.
pub fn copied(items: &[String]) -> (r: Vec<String>)
    ensures
        texts(r@) == texts(items@),
{
    let mut out: Vec<String> = Vec::new();
    let mut i: usize = 0;
    while i < items.len()
        invariant
            i <= items.len(),
            out@.len() == i,
            forall|k: int| 0 <= k < i ==> (#[trigger] out@[k])@ == items@[k]@,
        decreases items.len() - i,
    {
        out.push(items[i].clone());
        i += 1;
    }
    assert(texts(out@) =~= texts(items@));
    out
}

/// `a` stands before `b` in the order of characters, as their UTF-8 bytes do.
pub open spec fn precedes(a: Seq<char>, b: Seq<char>) -> bool
    decreases a.len(),
{
    if b.len() == 0 {
        false
    } else if a.len() == 0 {
        true
    } else if a[0] == b[0] {
        precedes(a.skip(1), b.skip(1))
    } else {
        a[0] < b[0]
    }
}

/// Texts in ascending order, each once.
pub open spec fn ascending(v: Seq<Seq<char>>) -> bool {
    forall|i: int, j: int| 0 <= i < j < v.len() ==> precedes(#[trigger] v[i], #[trigger] v[j])
}

/// The order is transitive.
proof fn lemma_precedes_transitive(a: Seq<char>, b: Seq<char>, c: Seq<char>)
    requires
        precedes(a, b),
        precedes(b, c),
    ensures
        precedes(a, c),
    decreases a.len(),
{
    if a.len() > 0 && a[0] == b[0] && b[0] == c[0] {
        lemma_precedes_transitive(a.skip(1), b.skip(1), c.skip(1));
    }
}

/// No text stands before itself.
pub proof fn lemma_precedes_irreflexive(a: Seq<char>)
    ensures
        !precedes(a, a),
    decreases a.len(),
{
    if a.len() > 0 {
        lemma_precedes_irreflexive(a.skip(1));
    }
}

/// Of two different texts one stands before the other.
proof fn lemma_precedes_total(a: Seq<char>, b: Seq<char>)
    ensures
        a == b || precedes(a, b) || precedes(b, a),
    decreases a.len(),
{
    if a.len() > 0 && b.len() > 0 {
        if a[0] == b[0] {
            lemma_precedes_total(a.skip(1), b.skip(1));
            if a.skip(1) == b.skip(1) {
                assert(a =~= seq![a[0]] + a.skip(1));
                assert(b =~= seq![b[0]] + b.skip(1));
            }
        }
    } else if a.len() == 0 && b.len() == 0 {
        assert(a =~= b);
    }
}

/// The order is decided where the texts first differ.
proof fn lemma_precedes_at(a: Seq<char>, b: Seq<char>, k: int)
    requires
        0 <= k <= a.len(),
        k <= b.len(),
        forall|m: int| 0 <= m < k ==> a[m] == b[m],
    ensures
        precedes(a, b) == precedes(a.skip(k), b.skip(k)),
    decreases k,
{
    if k == 0 {
        assert(a.skip(0) =~= a);
        assert(b.skip(0) =~= b);
    } else {
        assert(a[0] == b[0]);
        assert forall|m: int| 0 <= m < k - 1 implies a.skip(1)[m] == b.skip(1)[m] by {
            assert(a[m + 1] == b[m + 1]);
        }
        lemma_precedes_at(a.skip(1), b.skip(1), k - 1);
        assert(a.skip(1).skip(k - 1) =~= a.skip(k));
        assert(b.skip(1).skip(k - 1) =~= b.skip(k));
    }
}

/// Whether `a` stands before `b`.
pub fn is_before(a: &str, b: &str) -> (r: bool)
    ensures
        r == precedes(a@, b@),
{
    let x = chars_of(a);
    let y = chars_of(b);
    let mut k: usize = 0;
    while k < x.len() && k < y.len() && x[k] == y[k]
        invariant
            k <= x.len(),
            k <= y.len(),
            x@ == a@,
            y@ == b@,
            forall|m: int| 0 <= m < k ==> a@[m] == b@[m],
        decreases x.len() - k,
    {
        k += 1;
    }
    proof {
        lemma_precedes_at(a@, b@, k as int);
    }
    if k >= y.len() {
        false
    } else if k >= x.len() {
        true
    } else {
        x[k] < y[k]
    }
}

/// Put a text into an ascending list, unless it is there.
fn insert_ascending(list: &mut Vec<String>, item: &str)
    requires
        ascending(texts(old(list)@)),
    ensures
        ascending(texts(final(list)@)),
        forall|t: Seq<char>|
            #[trigger] texts(final(list)@).contains(t) <==> texts(old(list)@).contains(t) || t
                == item@,
{
    let ghost all = texts(list@);
    let mut i: usize = 0;
    while i < list.len() && is_before(list[i].as_str(), item)
        invariant
            i <= list.len(),
            all == texts(list@),
            ascending(all),
            *list == *old(list),
            forall|k: int| 0 <= k < i ==> precedes(#[trigger] all[k], item@),
        decreases list.len() - i,
    {
        assert(all[i as int] == list@[i as int]@);
        i += 1;
    }
    assert(all.len() == list@.len());
    if i < list.len() && equal(list[i].as_str(), item) {
        assert(all[i as int] == item@);
        return;
    }
    proof {
        if i < all.len() {
            assert(all[i as int] == list@[i as int]@);
            lemma_precedes_total(all[i as int], item@);
        }
        assert forall|k: int| i <= k < all.len() implies precedes(item@, #[trigger] all[k]) by {
            if k > i {
                assert(precedes(all[i as int], all[k]));
                lemma_precedes_transitive(item@, all[i as int], all[k]);
            }
        }
    }
    list.insert(i, item.to_string());
    let ghost now = texts(list@);
    proof {
        assert(now =~= all.insert(i as int, item@));
        assert forall|a: int, b: int| 0 <= a < b < now.len() implies precedes(
            #[trigger] now[a],
            #[trigger] now[b],
        ) by {
            if b < i {
                assert(precedes(all[a], all[b]));
            } else if b == i {
                assert(precedes(all[a], item@));
            } else if a == i {
                assert(precedes(item@, all[b - 1]));
            } else if a < i {
                assert(precedes(all[a], all[b - 1]));
            } else {
                assert(precedes(all[a - 1], all[b - 1]));
            }
        }
        assert forall|t: Seq<char>| #[trigger] now.contains(t) <==> all.contains(t) || t
            == item@ by {
            if all.contains(t) {
                let k = choose|k: int| 0 <= k < all.len() && all[k] == t;
                if k < i {
                    assert(now[k] == t);
                } else {
                    assert(now[k + 1] == t);
                }
            }
            if t == item@ {
                assert(now[i as int] == t);
            }
            if now.contains(t) && t != item@ {
                let k = choose|k: int| 0 <= k < now.len() && now[k] == t;
                if k < i {
                    assert(all[k] == t);
                } else {
                    assert(all[k - 1] == t);
                }
            }
        }
    }
}

/// The texts of a list in ascending order, each once.
pub fn sorted_unique(items: &Vec<String>) -> (r: Vec<String>)
    ensures
        ascending(texts(r@)),
        forall|t: Seq<char>| #[trigger] texts(r@).contains(t) <==> texts(items@).contains(t),
{
    let ghost all = texts(items@);
    let mut out: Vec<String> = Vec::new();
    let mut i: usize = 0;
    assert(texts(out@) =~= Seq::<Seq<char>>::empty());
    while i < items.len()
        invariant
            i <= items.len(),
            all == texts(items@),
            ascending(texts(out@)),
            forall|t: Seq<char>| #[trigger] texts(out@).contains(t) <==> all.take(i as int).contains(t),
        decreases items.len() - i,
    {
        insert_ascending(&mut out, items[i].as_str());
        proof {
            assert(all[i as int] == items@[i as int]@);
            let before = all.take(i as int);
            let now = all.take(i + 1);
            assert(now =~= before.push(all[i as int]));
            assert forall|t: Seq<char>| #[trigger] texts(out@).contains(t) <==> now.contains(t) by {
                if before.contains(t) {
                    let k = choose|k: int| 0 <= k < before.len() && before[k] == t;
                    assert(now[k] == t);
                }
                if t == all[i as int] {
                    assert(now[i as int] == t);
                }
                if now.contains(t) && t != all[i as int] {
                    let k = choose|k: int| 0 <= k < now.len() && now[k] == t;
                    assert(before[k] == t);
                }
            }
        }
        i += 1;
    }
    assert(all.take(all.len() as int) =~= all);
    assert(all.len() == items@.len());
    out
}

/// An ascending list is the only one with its texts.
pub proof fn law_ascending_is_unique(a: Seq<Seq<char>>, b: Seq<Seq<char>>)
    requires
        ascending(a),
        ascending(b),
        forall|t: Seq<char>| #[trigger] a.contains(t) <==> b.contains(t),
    ensures
        a == b,
    decreases a.len(),
{
    if a.len() == 0 {
        if b.len() > 0 {
            assert(b.contains(b[0]));
            assert(a.contains(b[0]));
        }
        assert(a =~= b);
    } else {
        assert(a.contains(a[0]));
        assert(b.contains(a[0]));
        assert(b.contains(b[0]));
        assert(a.contains(b[0]));
        let i = choose|i: int| 0 <= i < b.len() && b[i] == a[0];
        let j = choose|j: int| 0 <= j < a.len() && a[j] == b[0];
        if i > 0 {
            assert(precedes(b[0], b[i]));
            if j > 0 {
                assert(precedes(a[0], a[j]));
                lemma_precedes_transitive(a[0], b[0], a[0]);
            }
            lemma_precedes_irreflexive(a[0]);
        }
        assert(a[0] == b[0]);
        let c = a.skip(1);
        let d = b.skip(1);
        lemma_precedes_irreflexive(a[0]);
        assert forall|x: int, y: int| 0 <= x < y < c.len() implies precedes(
            #[trigger] c[x],
            #[trigger] c[y],
        ) by {
            assert(precedes(a[x + 1], a[y + 1]));
        }
        assert forall|x: int, y: int| 0 <= x < y < d.len() implies precedes(
            #[trigger] d[x],
            #[trigger] d[y],
        ) by {
            assert(precedes(b[x + 1], b[y + 1]));
        }
        assert forall|t: Seq<char>| #[trigger] c.contains(t) <==> d.contains(t) by {
            if c.contains(t) {
                let k = choose|k: int| 0 <= k < c.len() && c[k] == t;
                assert(a[k + 1] == t);
                assert(precedes(a[0], a[k + 1]));
                assert(a.contains(t));
                assert(b.contains(t));
                let m = choose|m: int| 0 <= m < b.len() && b[m] == t;
                assert(m > 0);
                assert(d[m - 1] == t);
            }
            if d.contains(t) {
                let k = choose|k: int| 0 <= k < d.len() && d[k] == t;
                assert(b[k + 1] == t);
                assert(precedes(b[0], b[k + 1]));
                assert(b.contains(t));
                assert(a.contains(t));
                let m = choose|m: int| 0 <= m < a.len() && a[m] == t;
                assert(m > 0);
                assert(c[m - 1] == t);
            }
        }
        law_ascending_is_unique(c, d);
        assert(a =~= seq![a[0]] + c);
        assert(b =~= seq![b[0]] + d);
    }
}

/// A decimal form reads back as its number.
pub proof fn law_decimal_reads_back(n: nat)
    ensures
        all_digits(decimal(n)),
        decimal(n).len() > 0,
        digits_value(decimal(n)) == n,
    decreases n,
{
    let s = decimal(n);
    if n < 10 {
        assert(s.drop_last() =~= Seq::<char>::empty());
        assert(digits_value(s.drop_last()) == 0);
    } else {
        law_decimal_reads_back(n / 10);
        assert(s.drop_last() =~= decimal(n / 10));
        assert forall|k: int| 0 <= k < s.len() implies ascii_digit(#[trigger] s[k]) by {
            if k < s.len() - 1 {
                assert(s[k] == decimal(n / 10)[k]);
            }
        }
    }
}

/// Encoding texts one after the other is encoding them together.
pub proof fn lemma_encode_concat(a: Seq<char>, b: Seq<char>)
    ensures
        vstd::utf8::encode_utf8(a + b) == vstd::utf8::encode_utf8(a) + vstd::utf8::encode_utf8(b),
    decreases a.len(),
{
    if a.len() == 0 {
        assert(a + b =~= b);
        assert(vstd::utf8::encode_utf8(a) =~= Seq::<u8>::empty());
        assert(Seq::<u8>::empty() + vstd::utf8::encode_utf8(b) =~= vstd::utf8::encode_utf8(b));
    } else {
        lemma_encode_concat(a.drop_first(), b);
        assert((a + b).drop_first() =~= a.drop_first() + b);
        let head = vstd::utf8::encode_scalar(a[0] as u32);
        assert(head + (vstd::utf8::encode_utf8(a.drop_first()) + vstd::utf8::encode_utf8(b)) =~= (
        head + vstd::utf8::encode_utf8(a.drop_first())) + vstd::utf8::encode_utf8(b));
    }
}

/// The encoding of one character holds an ASCII byte only for the character that it stands for.
proof fn lemma_encode_scalar_ascii(c: char, other: char)
    requires
        (other as u32) < 128,
        c != other,
    ensures
        !vstd::utf8::encode_scalar(c as u32).contains(other as u8),
{
    let u = c as u32;
    let b = other as u8;
    assert(other as int == b as int);
    assert(c as int == u as int);
    assert(c as int != other as int);
    let e = vstd::utf8::encode_scalar(u);
    vstd::utf8::char_is_scalar(c);
    assert(u <= 0x7f ==> (u & 0x7f) as u8 as u32 == u) by (bit_vector);
    assert((0xC0u8 | ((u >> 6) & 0x1F) as u8) >= 128) by (bit_vector);
    assert((0xE0u8 | ((u >> 12) & 0x0F) as u8) >= 128) by (bit_vector);
    assert((0xF0u8 | ((u >> 18) & 0x7) as u8) >= 128) by (bit_vector);
    assert((0x80u8 | (u & 0x3F) as u8) >= 128) by (bit_vector);
    assert((0x80u8 | ((u >> 6) & 0x3F) as u8) >= 128) by (bit_vector);
    assert((0x80u8 | ((u >> 12) & 0x3F) as u8) >= 128) by (bit_vector);
    if e.contains(b) {
        let k = choose|k: int| 0 <= k < e.len() && e[k] == b;
        if !vstd::utf8::has_width_1_encoding(u) {
            assert(e[k] >= 128);
        }
    }
}

/// A text without an ASCII character is encoded without its byte.
pub proof fn lemma_encode_without(s: Seq<char>, c: char)
    requires
        (c as u32) < 128,
        !s.contains(c),
    ensures
        !vstd::utf8::encode_utf8(s).contains(c as u8),
    decreases s.len(),
{
    if s.len() > 0 {
        let rest = s.drop_first();
        assert(!rest.contains(c)) by {
            if rest.contains(c) {
                let k = choose|k: int| 0 <= k < rest.len() && rest[k] == c;
                assert(s[k + 1] == c);
            }
        }
        lemma_encode_without(rest, c);
        assert(s[0] != c) by {
            assert(s.contains(s[0]));
        }
        lemma_encode_scalar_ascii(s[0], c);
        let head = vstd::utf8::encode_scalar(s[0] as u32);
        let tail = vstd::utf8::encode_utf8(rest);
        let all = vstd::utf8::encode_utf8(s);
        assert(all == head + tail);
        if all.contains(c as u8) {
            let k = choose|k: int| 0 <= k < all.len() && all[k] == c as u8;
            if k < head.len() {
                assert(head[k] == c as u8);
            } else {
                assert(tail[k - head.len()] == c as u8);
            }
        }
    }
}
/// A text in ASCII lower case.
pub fn lower_ascii(s: &str) -> (r: String)
    ensures
        r@ == ascii_lower_text(s@),
{
    let x = chars_of(s);
    let ghost all = ascii_lower_text(s@);
    let mut out = String::new();
    let mut i: usize = 0;
    assert(out@ =~= all.take(0));
    while i < x.len()
        invariant
            i <= x.len(),
            x@ == s@,
            all == ascii_lower_text(s@),
            out@ == all.take(i as int),
        decreases x.len() - i,
    {
        out.push(to_ascii_lower(x[i]));
        assert(all.take(i + 1) =~= all.take(i as int).push(all[i as int]));
        i += 1;
    }
    assert(all.take(all.len() as int) =~= all);
    out
}

} // verus!
