//! Reading the diagnostics of `nb`.

use crate::bytes;
use crate::text;
use vstd::prelude::*;

verus! {

/// `output` with a warning below it, set apart by an empty line unless the output is blank.
pub open spec fn with_warning(output: Seq<char>, warning: Seq<char>) -> Seq<char> {
    if text::trim(output).len() == 0 {
        output + warning
    } else if output.last() == '\n' {
        output + "\n"@ + warning
    } else {
        output + "\n\n"@ + warning
    }
}

/// `output` with a warning below it.
pub fn append_warning(output: String, warning: String) -> (r: String)
    ensures
        r@ == with_warning(output@, warning@),
{
    if text::trimmed(output.as_str()).is_empty() {
        return text::cat2(output.as_str(), warning.as_str());
    }
    let x = text::chars_of(output.as_str());
    proof {
        if output@.len() == 0 {
            assert(text::trim(output@).len() == 0);
        }
    }
    if x.len() > 0 && x[x.len() - 1] == '\n' {
        text::cat3(output.as_str(), "\n", warning.as_str())
    } else {
        text::cat3(output.as_str(), "\n\n", warning.as_str())
    }
}

/// The test for the last character of a control sequence.
pub open spec fn ends_sequence() -> spec_fn(char) -> bool {
    |c: char| 0x40 <= c as u32 <= 0x7e
}

/// Where the control sequence whose parameters start at `i` ends.
pub open spec fn sequence_end(s: Seq<char>, i: int) -> int {
    let at = bytes::find_from(s, ends_sequence(), i);
    if at < s.len() {
        at + 1
    } else {
        s.len() as int
    }
}

/// A control character that is dropped.
pub open spec fn dropped(c: char) -> bool {
    (c as u32) < 0x20 && c != '\t' && c != '\n' && c != '\r'
}

/// What is printable of `s` from `i` on: without escape sequences and without control
/// characters other than tabs and line breaks.
pub open spec fn printable_from(s: Seq<char>, i: int) -> Seq<char>
    decreases s.len() - i,
{
    if i < 0 || i >= s.len() {
        Seq::empty()
    } else if s[i] == '\u{1b}' {
        proof {
            if i + 2 <= s.len() {
                bytes::lemma_find_from(s, ends_sequence(), i + 2);
            }
        }
        if i + 1 >= s.len() {
            Seq::empty()
        } else if s[i + 1] == '[' {
            printable_from(s, sequence_end(s, i + 2))
        } else {
            printable_from(s, i + 2)
        }
    } else if dropped(s[i]) {
        printable_from(s, i + 1)
    } else {
        seq![s[i]] + printable_from(s, i + 1)
    }
}

/// What is printable of a text.
pub open spec fn printable(s: Seq<char>) -> Seq<char> {
    printable_from(s, 0)
}

/// What is printable of a text: without escape sequences and without control characters other
/// than tabs and line breaks.
pub fn printable_form(stderr: &str) -> (r: String)
    ensures
        r@ == printable(stderr@),
{
    let x = text::chars_of(stderr);
    let n: usize = x.len();
    let mut out: Vec<char> = Vec::new();
    let mut i: usize = 0;
    assert(out@ + printable(stderr@) =~= printable(stderr@));
    while i < n
        invariant
            i <= n,
            n == x.len(),
            x@ == stderr@,
            out@ + printable_from(stderr@, i as int) == printable(stderr@),
        decreases n - i,
    {
        let c = x[i];
        if c == '\u{1b}' {
            if n - i > 1 && x[i + 1] == '[' {
                let mut k: usize = i + 2;
                while k < n && !(0x40 <= x[k] as u32 && x[k] as u32 <= 0x7e)
                    invariant
                        i + 2 <= k <= n,
                        n == x.len(),
                        x@ == stderr@,
                        forall|m: int| i + 2 <= m < k ==> !ends_sequence()(#[trigger] stderr@[m]),
                    decreases n - k,
                {
                    k += 1;
                }
                proof {
                    bytes::lemma_find_from_is(stderr@, ends_sequence(), i + 2, k as int);
                }
                i = if k < n {
                    k + 1
                } else {
                    n
                };
            } else {
                i = if n - i > 2 {
                    i + 2
                } else {
                    n
                };
            }
        } else {
            let ghost before = out@;
            if !((c as u32) < 0x20 && c != '\t' && c != '\n' && c != '\r') {
                out.push(c);
                assert(out@ + printable_from(stderr@, i + 1) =~= before + (seq![c]
                    + printable_from(stderr@, i + 1)));
            }
            i += 1;
        }
    }
    assert(out@ + Seq::<char>::empty() =~= out@);
    text::string_of(out.as_slice())
}

/// A diagnostic whose printable form, after one `!` and white space, is exactly the keyword and
/// the value.
pub open spec fn diagnoses(stderr: Seq<char>, keyword: Seq<char>, value: Seq<char>) -> bool {
    let p = text::without_line_end(printable(stderr));
    p.len() > 0 && p[0] == '!' && text::trim_start(p.skip(1)) == keyword + value
}

/// Whether a diagnostic says exactly a keyword and a value.
pub fn exact_normalized_diagnostic(stderr: &str, keyword: &str, expected_value: &str) -> (r: bool)
    ensures
        r == diagnoses(stderr@, keyword@, expected_value@),
{
    let visible = printable_form(stderr);
    let bare = text::strip_line_end(visible.as_str());
    let x = text::chars_of(bare.as_str());
    let n: usize = x.len();
    if n == 0 || x[0] != '!' {
        return false;
    }
    let rest = text::string_of(vstd::slice::slice_subrange(x.as_slice(), 1, n));
    assert(rest@ =~= bare@.skip(1));
    let expected = text::cat2(keyword, expected_value);
    text::equal(text::trimmed_start(rest.as_str()), expected.as_str())
}

/// Whether a diagnostic of `nb show` says that the selector was not found.
pub fn is_selector_not_found(stderr: &str, expected_selector: &str) -> (r: bool)
    ensures
        r == diagnoses(stderr@, "Not found: "@, expected_selector@),
{
    exact_normalized_diagnostic(stderr, "Not found: ", expected_selector)
}

/// Whether a diagnostic of `nb notebooks show` says that the notebook was not found.
pub fn is_notebook_not_found(stderr: &str, expected_notebook: &str) -> (r: bool)
    ensures
        r == diagnoses(stderr@, "Notebook not found: "@, expected_notebook@),
{
    exact_normalized_diagnostic(stderr, "Notebook not found: ", expected_notebook)
}

/// A diagnostic stands for one value only: what is said of one selector is not taken for
/// another.
pub proof fn law_diagnostic_names_one_value(
    stderr: Seq<char>,
    keyword: Seq<char>,
    a: Seq<char>,
    b: Seq<char>,
)
    requires
        diagnoses(stderr, keyword, a),
        diagnoses(stderr, keyword, b),
    ensures
        a == b,
{
    assert(a =~= (keyword + a).skip(keyword.len() as int));
    assert(b =~= (keyword + b).skip(keyword.len() as int));
}

} // verus!
