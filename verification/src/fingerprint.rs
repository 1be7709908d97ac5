//! Fingerprints: versioned tokens that authenticate the body of a document.

use crate::error::{NbError, NbErrorView};
use crate::parser::document::NoteDocument;
use crate::text;
use vstd::prelude::*;
use vstd::string::StrSliceExecFns;

verus! {

/// The lower-case hexadecimal BLAKE3-256 hash of a byte string.
pub uninterp spec fn blake3_hex(bytes: Seq<u8>) -> Seq<char>;

/// The hash that `blake3::Hasher` gives for the bytes, printed by `Hash::to_hex`: a function
/// of the bytes alone, always 64 lower-case hexadecimal digits.
#[verifier::external_body]
pub(crate) fn blake3_hex_of(bytes: &[u8]) -> (r: String)
    ensures
        r@ == blake3_hex(bytes@),
        canonical_hex(r@),
{
    let mut hasher = blake3::Hasher::new();
    hasher.update(bytes);
    hasher.finalize().to_hex().to_string()
}

/// The text inside a JSON string, or what is wrong with it.
pub uninterp spec fn json_text(s: Seq<char>) -> Result<Seq<char>, Seq<char>>;

/// `serde_json::from_str` into a string: what comes back, the text or the printed error,
/// depends on the input alone.
#[verifier::external_body]
pub(crate) fn json_text_of(s: &str) -> (r: Result<String, String>)
    ensures
        match r {
            Ok(t) => json_text(s@) == Ok::<Seq<char>, Seq<char>>(t@),
            Err(e) => json_text(s@) == Err::<Seq<char>, Seq<char>>(e@),
        },
{
    serde_json::from_str::<String>(s).map_err(|e| e.to_string())
}

/// A lower-case hexadecimal digit.
pub open spec fn lower_hex(c: char) -> bool {
    ('0' <= c && c <= '9') || ('a' <= c && c <= 'f')
}

/// A hexadecimal digit.
pub open spec fn hex_digit(c: char) -> bool {
    lower_hex(c) || ('A' <= c && c <= 'F')
}

/// Exactly 64 lower-case hexadecimal digits.
pub open spec fn canonical_hex(s: Seq<char>) -> bool {
    s.len() == 64 && forall|k: int| 0 <= k < s.len() ==> lower_hex(#[trigger] s[k])
}

/// The first character from `i` on that is no lower-case hexadecimal digit, as a category.
pub open spec fn hex_fault(s: Seq<char>, i: int) -> Option<Seq<char>>
    decreases s.len() - i,
{
    if i < 0 || i >= s.len() {
        None
    } else if !hex_digit(s[i]) {
        Some("invalid_hex"@)
    } else if !lower_hex(s[i]) {
        Some("uppercase_hex"@)
    } else {
        hex_fault(s, i + 1)
    }
}

/// What is wrong with a fingerprint token, as a category.
pub open spec fn token_fault(s: Seq<char>) -> Option<Seq<char>> {
    if s.len() == 0 {
        Some("empty"@)
    } else if text::whitespace(s[0]) {
        Some("leading_whitespace"@)
    } else if text::whitespace(s.last()) {
        Some("trailing_whitespace"@)
    } else if !"b3:"@.is_prefix_of(s) {
        Some("unknown_algorithm_prefix"@)
    } else if vstd::utf8::encode_utf8(s.skip(3)).len() != 64 {
        Some("wrong_length"@)
    } else {
        hex_fault(s.skip(3), 0)
    }
}

/// A versioned fingerprint: `b3:` and the hash of a body.
#[derive(Debug, PartialEq, Eq, Hash)]
pub struct Fingerprint {
    hex: String,
}

impl View for Fingerprint {
    type V = Seq<char>;

    /// The hexadecimal part.
    closed spec fn view(&self) -> Seq<char> {
        self.hex@
    }
}

/// No fault in the digits means that all of them are lower-case hexadecimal.
proof fn lemma_hex_fault(s: Seq<char>, i: int)
    requires
        0 <= i,
    ensures
        hex_fault(s, i) is None <==> (forall|k: int| i <= k < s.len() ==> lower_hex(#[trigger] s[k])),
    decreases s.len() - i,
{
    if i < s.len() {
        lemma_hex_fault(s, i + 1);
        if hex_fault(s, i) is None {
            assert forall|k: int| i <= k < s.len() implies lower_hex(#[trigger] s[k]) by {
                if k > i {
                    assert(hex_fault(s, i + 1) is None);
                }
            }
        } else {
            if lower_hex(s[i]) {
                assert(hex_fault(s, i + 1) is Some);
            }
        }
    }
}

/// Hexadecimal digits are ASCII, so they take one byte each.
proof fn lemma_hex_bytes(s: Seq<char>)
    requires
        forall|k: int| 0 <= k < s.len() ==> lower_hex(#[trigger] s[k]),
    ensures
        vstd::utf8::encode_utf8(s).len() == s.len(),
{
    assert(vstd::utf8::is_ascii_chars(s)) by {
        assert forall|k: int| 0 <= k < s.len() implies 0 <= (#[trigger] s[k]) as nat && (s[k] as nat) < 128 by {
            assert(lower_hex(s[k]));
        }
    }
    vstd::utf8::is_ascii_chars_encode_utf8(s);
}

/// A token without fault carries canonical digits.
proof fn lemma_sound_token(s: Seq<char>)
    requires
        token_fault(s) is None,
    ensures
        canonical_hex(s.skip(3)),
{
    lemma_hex_fault(s.skip(3), 0);
    lemma_hex_bytes(s.skip(3));
}

/// The canonical text of a fingerprint is a token without fault, and its digits are those of
/// the fingerprint.
pub proof fn law_text_form_is_accepted(hex: Seq<char>)
    requires
        canonical_hex(hex),
    ensures
        token_fault("b3:"@ + hex) is None,
        ("b3:"@ + hex).skip(3) == hex,
{
    reveal_strlit("b3:");
    let s = "b3:"@ + hex;
    assert(s.skip(3) =~= hex);
    assert(s.subrange(0, 3) =~= "b3:"@);
    assert(s.last() == hex[63]);
    assert(lower_hex(hex[63]));
    assert(s[0] == 'b');
    lemma_hex_fault(hex, 0);
    lemma_hex_bytes(hex);
}

/// A token is accepted exactly when it is `b3:` and 64 digits from `0` to `9` and `a` to `f`.
pub proof fn law_only_canonical_tokens_are_accepted(s: Seq<char>)
    ensures
        token_fault(s) is None <==> s.len() == 67 && s[0] == 'b' && s[1] == '3' && s[2] == ':' && (
        forall|k: int|
            3 <= k < 67 ==> ('0' <= #[trigger] s[k] && s[k] <= '9') || ('a' <= s[k] && s[k]
                <= 'f')),
{
    reveal_strlit("b3:");
    let hex = s.skip(3);
    if token_fault(s) is None {
        lemma_sound_token(s);
        assert(s.take(3) == "b3:"@);
        assert(s[0] == s.take(3)[0] && s[1] == s.take(3)[1] && s[2] == s.take(3)[2]);
        assert forall|k: int| 3 <= k < 67 implies ('0' <= #[trigger] s[k] && s[k] <= '9') || ('a'
            <= s[k] && s[k] <= 'f') by {
            assert(lower_hex(hex[k - 3]));
        }
    }
    if s.len() == 67 && s[0] == 'b' && s[1] == '3' && s[2] == ':' && (forall|k: int|
        3 <= k < 67 ==> ('0' <= #[trigger] s[k] && s[k] <= '9') || ('a' <= s[k] && s[k] <= 'f')) {
        assert forall|k: int| 0 <= k < hex.len() implies lower_hex(#[trigger] hex[k]) by {
            assert(hex[k] == s[k + 3]);
        }
        law_text_form_is_accepted(hex);
        assert(s =~= "b3:"@ + hex);
    }
}

/// What is wrong with a token is told by its first fault: that it is empty, that white space
/// starts or ends it, that it does not start with `b3:`, or that too few or too many digits
/// follow.
pub proof fn law_first_fault_is_told(s: Seq<char>)
    ensures
        s.len() == 0 ==> token_fault(s) == Some("empty"@),
        s.len() > 0 && text::whitespace(s[0]) ==> token_fault(s) == Some("leading_whitespace"@),
        s.len() > 0 && !text::whitespace(s[0]) && text::whitespace(s.last()) ==> token_fault(s)
            == Some("trailing_whitespace"@),
        s.len() > 0 && !text::whitespace(s[0]) && !text::whitespace(s.last()) && !(s.len() >= 3
            && s[0] == 'b' && s[1] == '3' && s[2] == ':') ==> token_fault(s) == Some(
            "unknown_algorithm_prefix"@,
        ),
        s.len() > 3 && s[0] == 'b' && s[1] == '3' && s[2] == ':' && !text::whitespace(s.last())
            && vstd::utf8::is_ascii_chars(s.skip(3)) && s.len() != 67 ==> token_fault(s) == Some(
            "wrong_length"@,
        ),
{
    reveal_strlit("b3:");
    if s.len() >= 3 {
        assert(s.take(3)[0] == s[0] && s.take(3)[1] == s[1] && s.take(3)[2] == s[2]);
        if s[0] == 'b' && s[1] == '3' && s[2] == ':' {
            assert(s.take(3) =~= "b3:"@);
        }
    }
    if vstd::utf8::is_ascii_chars(s.skip(3)) {
        vstd::utf8::is_ascii_chars_encode_utf8(s.skip(3));
    }
}

/// The first character of 64 that is no digit from `0` to `9` or `a` to `f` is told as one in
/// upper case where it is one from `A` to `F`, and else as no digit at all.
pub proof fn law_wrong_digit_is_told(hex: Seq<char>, i: int)
    requires
        hex.len() == 64,
        vstd::utf8::is_ascii_chars(hex),
        !text::whitespace(hex.last()),
        0 <= i < 64,
        forall|k: int| 0 <= k < i ==> lower_hex(#[trigger] hex[k]),
        !('0' <= hex[i] && hex[i] <= '9') && !('a' <= hex[i] && hex[i] <= 'f'),
    ensures
        token_fault("b3:"@ + hex) == Some(
            if 'A' <= hex[i] && hex[i] <= 'F' {
                "uppercase_hex"@
            } else {
                "invalid_hex"@
            },
        ),
{
    reveal_strlit("b3:");
    let s = "b3:"@ + hex;
    assert(s.skip(3) =~= hex);
    assert(s.subrange(0, 3) =~= "b3:"@);
    assert(s.last() == hex[63]);
    assert(s[0] == 'b');
    vstd::utf8::is_ascii_chars_encode_utf8(hex);
    lemma_fault_at(hex, 0, i);
}

proof fn lemma_fault_at(s: Seq<char>, from: int, i: int)
    requires
        0 <= from <= i < s.len(),
        forall|k: int| from <= k < i ==> lower_hex(#[trigger] s[k]),
        !lower_hex(s[i]),
    ensures
        hex_fault(s, from) == hex_fault(s, i),
    decreases i - from,
{
    if from < i {
        assert(lower_hex(s[from]));
        lemma_fault_at(s, from + 1, i);
    }
}

impl Fingerprint {
    #[verifier::type_invariant]
    spec fn sound(self) -> bool {
        canonical_hex(self.hex@)
    }

    /// Read a fingerprint token: `b3:` and 64 lower-case hexadecimal digits.
    pub fn parse_token(s: &str) -> (r: Result<Self, NbError>)
        ensures
            match r {
                Ok(f) => token_fault(s@) is None && f@ == s@.skip(3),
                Err(e) => token_fault(s@) matches Some(reason) && e@
                    == (NbErrorView::InvalidFingerprint { reason }),
            },
    {
        match validate(s) {
            Err(e) => Err(e),
            Ok(()) => {
                proof {
                    lemma_sound_token(s@);
                    reveal_strlit("b3:");
                }
                let n = s.unicode_len();
                let hex = s.substring_char(3, n).to_string();
                assert(hex@ =~= s@.skip(3));
                Ok(Fingerprint { hex })
            },
        }
    }

    /// Read a fingerprint from a JSON string.
    pub fn from_json(s: &str) -> (r: Result<Self, NbError>)
        ensures
            match json_text(s@) {
                Err(why) => r matches Err(e) && e@ == (NbErrorView::JsonParseError { source: why }),
                Ok(t) => match r {
                    Ok(f) => token_fault(t) is None && f@ == t.skip(3),
                    Err(e) => token_fault(t) matches Some(reason) && e@
                        == (NbErrorView::InvalidFingerprint { reason }),
                },
            },
    {
        match json_text_of(s) {
            Err(why) => Err(NbError::JsonParseError { source: why }),
            Ok(t) => Fingerprint::parse_token(t.as_str()),
        }
    }

    /// The hexadecimal part, without the prefix.
    pub fn as_hex(&self) -> (r: &str)
        ensures
            r@ == self@,
            canonical_hex(self@),
    {
        proof {
            use_type_invariant(self);
        }
        self.hex.as_str()
    }

    /// The canonical text: `b3:` and the hexadecimal part.
    pub fn as_str(&self) -> (r: String)
        ensures
            r@ == "b3:"@ + self@,
            canonical_hex(self@),
    {
        proof {
            use_type_invariant(self);
        }
        text::cat2("b3:", self.hex.as_str())
    }

    /// Whether two fingerprints are equal.
    pub fn same(&self, other: &Fingerprint) -> (r: bool)
        ensures
            r == (self@ == other@),
    {
        text::equal(self.hex.as_str(), other.hex.as_str())
    }
}

impl Clone for Fingerprint {
    fn clone(&self) -> (r: Self)
        ensures
            r@ == self@,
    {
        proof {
            use_type_invariant(self);
        }
        Fingerprint { hex: self.hex.clone() }
    }
}

impl std::str::FromStr for Fingerprint {
    type Err = NbError;

    fn from_str(s: &str) -> Result<Self, NbError> {
        Fingerprint::parse_token(s)
    }
}

/// The error for one category of malformed token.
fn refuse(reason: &str) -> (r: NbError)
    ensures
        r@ == (NbErrorView::InvalidFingerprint { reason: reason@ }),
{
    NbError::InvalidFingerprint { reason: reason.to_string() }
}

/// Check a fingerprint token.
fn validate(s: &str) -> (r: Result<(), NbError>)
    ensures
        match r {
            Ok(()) => token_fault(s@) is None,
            Err(e) => token_fault(s@) matches Some(reason) && e@
                == (NbErrorView::InvalidFingerprint { reason }),
        },
{
    let x = text::chars_of(s);
    if x.len() == 0 {
        return Err(refuse("empty"));
    }
    if text::is_whitespace(x[0]) {
        return Err(refuse("leading_whitespace"));
    }
    if text::is_whitespace(x[x.len() - 1]) {
        return Err(refuse("trailing_whitespace"));
    }
    if !text::starts_with(s, "b3:") {
        return Err(refuse("unknown_algorithm_prefix"));
    }
    proof {
        reveal_strlit("b3:");
    }
    let hex = s.substring_char(3, x.len());
    assert(hex@ =~= s@.skip(3));
    if hex.as_bytes().len() != 64 {
        return Err(refuse("wrong_length"));
    }
    assert(s@.last() == x@[x@.len() - 1]);
    let mut i: usize = 3;
    while i < x.len()
        invariant
            3 <= i <= x.len(),
            x@ == s@,
            hex@ == s@.skip(3),
            token_fault(s@) == hex_fault(hex@, 0),
            hex_fault(hex@, 0) == hex_fault(hex@, i - 3),
        decreases x.len() - i,
    {
        let c = x[i];
        assert(hex@[i - 3] == c);
        let lower = ('0' <= c && c <= '9') || ('a' <= c && c <= 'f');
        if !lower && !('A' <= c && c <= 'F') {
            return Err(refuse("invalid_hex"));
        }
        if !lower {
            return Err(refuse("uppercase_hex"));
        }
        i += 1;
    }
    Ok(())
}

/// The fingerprint of a document: the hash of its body fragments in source order.
pub fn fingerprint(doc: &NoteDocument) -> (r: Fingerprint)
    ensures
        r@ == blake3_hex(doc@.body()),
{
    let body = doc.body_bytes();
    let hex = blake3_hex_of(body.as_slice());
    Fingerprint { hex }
}

} // verus!
