//! A bookmark whose tag section is exchanged for another, or that gets one.

use crate::bytes;
use crate::bytes::{Span, CR, LF};
use crate::lines;
use crate::parser;
use crate::parser::assemble;
use crate::parser::assemble::SectionView;
use crate::parser::classify;
use crate::parser::classify::BookmarkScan;
use crate::parser::document::DocumentKind;
use crate::parser::helpers;
use crate::parser::link_laws;
use crate::parser::pieces;
use crate::parser::retitled;
use crate::parser::task_laws;
use crate::parser::types::Token;
use crate::tokenizer;
use crate::tokenizer::LineSpan;
use vstd::prelude::*;

verus! {

/// A heading that opens a section.
pub open spec fn opens_section(t: Token) -> bool {
    t matches Token::Heading { level, .. } && level >= 2
}

/// The scan behind some lines at the start of a text.
pub open spec fn scan_behind(x: Seq<u8>) -> BookmarkScan {
    pieces::scan_over(pieces::at_start(), pieces::rows_of(x), pieces::rows_of(x).len() as int)
}

/// The tokens of a text where another has been read before it.
pub open spec fn tokens_behind(scan: BookmarkScan, x: Seq<u8>) -> Seq<Token> {
    pieces::link_tokens(scan, pieces::rows_of(x))
}

/// The scan behind a text where another has been read before it.
pub open spec fn scan_after(scan: BookmarkScan, x: Seq<u8>) -> BookmarkScan {
    pieces::scan_over(scan, pieces::rows_of(x), pieces::rows_of(x).len() as int)
}

/// The lines and tokens of a text that is put together of three parts.
pub proof fn lemma_three_parts(g: Seq<u8>, m: Seq<u8>, y: Seq<u8>)
    requires
        pieces::follows(g, 0, m + y),
        pieces::follows(m, 0, y),
    ensures
        ({
            let x = g + (m + y);
            let ng = g.len() as int;
            let nm = m.len() as int;
            let lg = tokenizer::lines_from(g, 0);
            let lm = tokenizer::lines_from(m, 0);
            let ly = tokenizer::lines_from(y, 0);
            let scan = scan_behind(g);
            &&& tokenizer::lines_from(x, 0) == lg + (retitled::all_moved(lm, ng)
                + retitled::all_moved(ly, ng + nm))
            &&& pieces::rows_of(x) == pieces::rows_of(g) + (pieces::rows_of(m) + pieces::rows_of(
                y,
            ))
            &&& link_laws::tail_tokens(x) == link_laws::tail_tokens(g) + (tokens_behind(scan, m)
                + tokens_behind(scan_after(scan, m), y))
        }),
{
    let w = m + y;
    let x = g + w;
    let ng = g.len() as int;
    let nm = m.len() as int;
    let lm = tokenizer::lines_from(m, 0);
    let ly = tokenizer::lines_from(y, 0);
    pieces::lemma_joined(m, 0, y);
    pieces::lemma_joined(g, 0, w);
    assert(retitled::all_moved(lm + retitled::all_moved(ly, nm), ng) =~= retitled::all_moved(lm, ng)
        + retitled::all_moved(ly, ng + nm));
    pieces::lemma_tokens_join(pieces::at_start(), pieces::rows_of(g), pieces::rows_of(w));
    pieces::lemma_tokens_join(scan_behind(g), pieces::rows_of(m), pieces::rows_of(y));
}

/// Lines that open no section do not change whether content was seen, and neither does the
/// heading of a tag section.
pub proof fn lemma_in_body_stays(scan: BookmarkScan, r: Seq<Seq<u8>>, n: int)
    requires
        0 <= n <= r.len(),
        forall|k: int|
            0 <= k < n ==> !opens_section(#[trigger] pieces::link_tokens(scan, r)[k]) || r[k]
                == helpers::reserved_heading("Tags"@),
    ensures
        pieces::scan_over(scan, r, n).in_body == scan.in_body,
    decreases n,
{
    if n > 0 {
        lemma_in_body_stays(scan, r, n - 1);
        let before = pieces::scan_over(scan, r, n - 1);
        let line = r[n - 1];
        let token = pieces::link_tokens(scan, r)[n - 1];
        assert(token == classify::bookmark_token(before, line));
        assert(!opens_section(token) || line == helpers::reserved_heading("Tags"@));
        if line == helpers::reserved_heading("Tags"@) {
            lemma_tags_no_content();
        }
    }
}

/// The heading of a tag section is not that of content.
pub proof fn lemma_tags_no_content()
    ensures
        helpers::reserved_heading("Tags"@) != helpers::reserved_heading("Content"@),
        helpers::reserved_heading("Tags"@) != helpers::reserved_heading("Source"@),
{
    reveal_strlit("Tags");
    reveal_strlit("Content");
    reveal_strlit("Source");
    vstd::utf8::is_ascii_chars_encode_utf8("Tags"@);
    vstd::utf8::is_ascii_chars_encode_utf8("Content"@);
    vstd::utf8::is_ascii_chars_encode_utf8("Source"@);
    assert(helpers::reserved_heading("Tags"@).len() == 7);
    assert(helpers::reserved_heading("Content"@).len() == 10);
    assert(helpers::reserved_heading("Source"@).len() == 9);
}

/// Where a section of a bookmark ends: at the end, before the next heading, or before an empty
/// line before it.
pub open spec fn closes_at(rows: Seq<Seq<u8>>, t: Seq<Token>, k: int, j: int) -> bool {
    &&& k < j <= t.len()
    &&& forall|i: int| k < i < j ==> !opens_section(#[trigger] t[i])
    &&& j < t.len() ==> opens_section(t[j]) || (rows[j].len() == 0 && j + 1 < t.len()
        && !opens_section(t[j]) && opens_section(t[j + 1]))
    &&& j < t.len() && opens_section(t[j]) ==> !(j - 1 > k && rows[j - 1].len() == 0)
}

/// The lines of a section of a text.
#[verifier::rlimit(40)]
#[verifier::spinoff_prover]
pub proof fn lemma_section_place(x: Seq<u8>, i: int) -> (at: (int, int))
    requires
        0 <= i < link_laws::all_sections(
            x,
            tokenizer::lines_from(x, 0),
            link_laws::tail_tokens(x),
        ).len(),
    ensures
        ({
            let l = tokenizer::lines_from(x, 0);
            let t = link_laws::tail_tokens(x);
            let rows = pieces::rows_of(x);
            let v = link_laws::all_sections(x, l, t);
            let (k, j) = at;
            &&& 0 <= k < j <= l.len()
            &&& t.len() == l.len()
            &&& assemble::section_lines(t, t.len() as int)[i] == k
            &&& opens_section(t[k])
            &&& v[i].span == (Span {
                start: assemble::line_start(x, l, k),
                end: assemble::line_start(x, l, j),
            })
            &&& closes_at(rows, t, k, j)
            &&& (j < t.len() && opens_section(t[j])) || j == t.len() || j + 1 < t.len()
            &&& i + 1 < v.len() ==> j < t.len() && assemble::section_lines(
                t,
                t.len() as int,
            )[i + 1] == (if opens_section(t[j]) {
                j
            } else {
                j + 1
            })
            &&& i + 1 == v.len() ==> j == t.len()
        }),
{
    let l = tokenizer::lines_from(x, 0);
    let t = link_laws::tail_tokens(x);
    let rows = pieces::rows_of(x);
    let at = assemble::section_lines(t, t.len() as int);
    let v = link_laws::all_sections(x, l, t);
    link_laws::lemma_section_lines_are(t, t.len() as int);
    tokenizer::lemma_lines_from(x, 0);
    let k = at[i];
    if i + 1 < at.len() {
        let next = at[i + 1];
        assert(at[i] < at[i + 1]);
        lemma_between(t, t.len() as int, i);
        assert(tokenizer::line_ok(x, l[next - 1]));
        assert(rows[next - 1].len() == l[next - 1].content_end - l[next - 1].start);
        let j = if next - 1 > k && l[next - 1].content_end == l[next - 1].start {
            next - 1
        } else {
            next
        };
        if j == next - 1 {
            assert(!opens_section(t[j]));
        }
        (k, j)
    } else {
        lemma_between(t, t.len() as int, i);
        (k, t.len() as int)
    }
}

/// Between two section headings in a row there is no other, and none after the last.
pub proof fn lemma_between(t: Seq<Token>, n: int, i: int)
    requires
        0 <= n <= t.len(),
        0 <= i < assemble::section_lines(t, n).len(),
    ensures
        ({
            let at = assemble::section_lines(t, n);
            let to = if i + 1 < at.len() {
                at[i + 1]
            } else {
                n
            };
            forall|k: int| at[i] < k < to ==> !opens_section(#[trigger] t[k])
        }),
    decreases n,
{
    let at = assemble::section_lines(t, n);
    let before = assemble::section_lines(t, n - 1);
    link_laws::lemma_section_lines_are(t, n);
    if opens_section(t[n - 1]) {
        assert(at == before.push(n - 1));
        if i < before.len() {
            lemma_between(t, n - 1, i);
        }
    } else {
        assert(at == before);
        lemma_between(t, n - 1, i);
    }
}
/// A text is what stands before line `k`, the lines up to `j`, and the rest.
pub proof fn lemma_cut(x: Seq<u8>, k: int, j: int)
    requires
        0 <= k <= j <= tokenizer::lines_from(x, 0).len(),
    ensures
        ({
            let l = tokenizer::lines_from(x, 0);
            let a = assemble::line_start(x, l, k);
            let e = assemble::line_start(x, l, j);
            let g = x.take(a);
            let m = x.subrange(a, e);
            let y = x.skip(e);
            &&& 0 <= a <= e <= x.len()
            &&& x == g + (m + y)
            &&& pieces::follows(g, 0, m + y)
            &&& pieces::follows(m, 0, y)
            &&& pieces::rows_of(g) == pieces::rows_of(x).take(k)
            &&& pieces::rows_of(m) == pieces::rows_of(x).subrange(k, j)
            &&& pieces::rows_of(y) == pieces::rows_of(x).skip(j)
        }),
{
    let l = tokenizer::lines_from(x, 0);
    let a = assemble::line_start(x, l, k);
    let e = assemble::line_start(x, l, j);
    task_laws::lemma_split_tail(x, k);
    let z = x.skip(a);
    let lz = tokenizer::lines_from(z, 0);
    assert(retitled::all_moved(lz, a).len() == l.len() - k);
    if j < l.len() {
        assert(retitled::all_moved(lz, a)[j - k] == l.skip(k)[j - k]);
    }
    task_laws::lemma_split_tail(z, j - k);
    let at = assemble::line_start(z, lz, j - k);
    assert(a + at == e);
    assert(z.take(at) =~= x.subrange(a, e));
    assert(z.skip(at) =~= x.skip(e));
    assert(x =~= x.take(a) + (x.subrange(a, e) + x.skip(e)));
    assert(pieces::rows_of(x).skip(k).take(j - k) =~= pieces::rows_of(x).subrange(k, j));
    assert(pieces::rows_of(x).skip(k).skip(j - k) =~= pieces::rows_of(x).skip(j));
    assert(x.subrange(a, e) + x.skip(e) =~= z);
}

/// The section headings of three runs of tokens, the second of which has one at its start.
proof fn lemma_three_section_lines(tg: Seq<Token>, tm: Seq<Token>, ty: Seq<Token>)
    requires
        tm.len() > 0,
        opens_section(tm[0]),
        forall|k: int| 0 < k < tm.len() ==> !opens_section(#[trigger] tm[k]),
    ensures
        ({
            let t = tg + (tm + ty);
            let a = assemble::section_lines(tg, tg.len() as int);
            let b = assemble::section_lines(ty, ty.len() as int);
            assemble::section_lines(t, t.len() as int) == a.push(tg.len() as int)
                + link_laws::counted(b, (tg.len() + tm.len()) as int)
        }),
{
    let t = tg + (tm + ty);
    let a = assemble::section_lines(tg, tg.len() as int);
    let b = assemble::section_lines(ty, ty.len() as int);
    let ng = tg.len() as int;
    let nm = tm.len() as int;
    link_laws::lemma_section_lines_join(tm, ty, ty.len() as int);
    link_laws::lemma_section_lines_join(tg, tm + ty, (tm + ty).len() as int);
    lemma_one_section(tm, nm);
    let inner = seq![0int] + link_laws::counted(b, nm);
    assert(link_laws::counted(inner, ng) =~= seq![ng] + link_laws::counted(b, ng + nm));
    assert(a + link_laws::counted(inner, ng) =~= a.push(ng) + link_laws::counted(b, ng + nm));
}

/// The section heading of a run of tokens that has one at its start.
pub proof fn lemma_one_section(t: Seq<Token>, n: int)
    requires
        0 < n <= t.len(),
        opens_section(t[0]),
        forall|k: int| 0 < k < n ==> !opens_section(#[trigger] t[k]),
    ensures
        assemble::section_lines(t, n) == seq![0int],
    decreases n,
{
    if n > 1 {
        lemma_one_section(t, n - 1);
        assert(!opens_section(t[n - 1]));
    } else {
        assert(assemble::section_lines(t, 0) =~= Seq::<int>::empty());
        assert(assemble::section_lines(t, 1) =~= seq![0int]);
    }
}

/// A section to put in the place of another: it opens as that one does, opens nothing else,
/// leaves the scan as it is, and ends with a line that is not empty.
pub open spec fn stands_for(scan: BookmarkScan, m: Seq<u8>, new: Seq<u8>) -> bool {
    let tm = tokens_behind(scan, m);
    let tn = tokens_behind(scan, new);
    let rn = pieces::rows_of(new);
    &&& rn.len() >= 2
    &&& rn[0] == pieces::rows_of(m)[0]
    &&& rn.last().len() > 0
    &&& new[0] != LF
    &&& new.last() == LF
    &&& forall|k: int| 0 < k < tn.len() ==> !opens_section(#[trigger] tn[k])
    &&& scan_after(scan, new) == scan
}

/// The scan behind a section is the one before it, where another section follows.
proof fn lemma_scan_closed(scan: BookmarkScan, m: Seq<u8>, y: Seq<u8>)
    requires
        pieces::rows_of(m).len() > 0,
        pieces::rows_of(m)[0] == helpers::reserved_heading("Tags"@),
        opens_section(tokens_behind(scan, m)[0]),
        forall|k: int|
            0 < k < tokens_behind(scan, m).len() ==> !opens_section(
                #[trigger] tokens_behind(scan, m)[k],
            ),
        ({
            let ty = tokens_behind(scan_after(scan, m), y);
            let ry = pieces::rows_of(y);
            ty.len() > 0 && (opens_section(ty[0]) || (ty.len() > 1 && ry[0].len() == 0
                && opens_section(ty[1])))
        }),
    ensures
        scan_after(scan, m) == scan,
{
    let rm = pieces::rows_of(m);
    let ry = pieces::rows_of(y);
    let after = scan_after(scan, m);
    let tm = tokens_behind(scan, m);
    let ty = tokens_behind(after, y);
    assert forall|k: int| 0 <= k < rm.len() implies !opens_section(
        #[trigger] pieces::link_tokens(scan, rm)[k],
    ) || rm[k] == helpers::reserved_heading("Tags"@) by {
        assert(tm[k] == pieces::link_tokens(scan, rm)[k]);
    }
    lemma_in_body_stays(scan, rm, rm.len() as int);
    assert(tm[0] == classify::bookmark_token(pieces::scan_over(scan, rm, 0), rm[0]));
    assert(scan.fence is None);
    assert(ty[0] == classify::bookmark_token(pieces::scan_over(after, ry, 0), ry[0]));
    assert(after.fence is None) by {
        if !opens_section(ty[0]) {
            let none = Seq::<u8>::empty();
            assert(ry[0] =~= none);
            classify::lemma_blank_opens_no_fence(none);
            assert(helpers::blank(none));
            assert(pieces::scan_over(after, ry, 1) == classify::bookmark_step(
                pieces::scan_over(after, ry, 0),
                ry[0],
            ));
            assert(ty[1] == classify::bookmark_token(pieces::scan_over(after, ry, 1), ry[1]));
        }
    }
}

/// The sorts of the sections of two texts that differ in one section.
#[verifier::rlimit(40)]
#[verifier::spinoff_prover]
proof fn lemma_exchanged_sorts(
    x: Seq<u8>,
    z: Seq<u8>,
    rg: Seq<Seq<u8>>,
    rm: Seq<Seq<u8>>,
    rn: Seq<Seq<u8>>,
    ry: Seq<Seq<u8>>,
    tg: Seq<Token>,
    tm: Seq<Token>,
    tn: Seq<Token>,
    ty: Seq<Token>,
)
    requires
        pieces::rows_of(x) == rg + (rm + ry),
        pieces::rows_of(z) == rg + (rn + ry),
        link_laws::tail_tokens(x) == tg + (tm + ty),
        link_laws::tail_tokens(z) == tg + (tn + ty),
        tg.len() == rg.len(),
        tm.len() == rm.len(),
        tn.len() == rn.len(),
        ty.len() == ry.len(),
        tm.len() > 0 && tn.len() > 0,
        tn[0] == tm[0],
        rn[0] == rm[0],
        opens_section(tm[0]),
        forall|k: int| 0 < k < tm.len() ==> !opens_section(#[trigger] tm[k]),
        forall|k: int| 0 < k < tn.len() ==> !opens_section(#[trigger] tn[k]),
    ensures
        link_laws::same_sorts(
            link_laws::all_sections(x, tokenizer::lines_from(x, 0), link_laws::tail_tokens(x)),
            link_laws::all_sections(z, tokenizer::lines_from(z, 0), link_laws::tail_tokens(z)),
        ),
{
    let t = link_laws::tail_tokens(x);
    let u = link_laws::tail_tokens(z);
    let lx = tokenizer::lines_from(x, 0);
    let lz = tokenizer::lines_from(z, 0);
    lemma_three_section_lines(tg, tm, ty);
    lemma_three_section_lines(tg, tn, ty);
    let a = assemble::section_lines(tg, tg.len() as int);
    let b = assemble::section_lines(ty, ty.len() as int);
    link_laws::lemma_section_lines_are(tg, tg.len() as int);
    link_laws::lemma_section_lines_are(ty, ty.len() as int);
    let p = assemble::section_lines(t, t.len() as int);
    let q = assemble::section_lines(u, u.len() as int);
    let v = link_laws::all_sections(x, lx, t);
    let w = link_laws::all_sections(z, lz, u);
    assert(v.len() == p.len() && w.len() == q.len() && p.len() == q.len());
    let i = a.len() as int;
    let ng = tg.len() as int;
    assert forall|k: int| 0 <= k < v.len() implies link_laws::same_sort(
        #[trigger] v[k],
        w[k],
    ) by {
        assert(pieces::rows_of(x)[p[k]] == lx[p[k]].content(x));
        assert(pieces::rows_of(z)[q[k]] == lz[q[k]].content(z));
        if k < i {
            assert(p[k] == a[k] && q[k] == a[k]);
            assert(t[p[k]] == tg[a[k]] && u[q[k]] == tg[a[k]]);
            assert(pieces::rows_of(x)[p[k]] == rg[a[k]]);
            assert(pieces::rows_of(z)[q[k]] == rg[a[k]]);
        } else if k == i {
            assert(p[k] == ng && q[k] == ng);
            assert(t[ng] == tm[0] && u[ng] == tn[0]);
            assert(pieces::rows_of(x)[ng] == rm[0]);
            assert(pieces::rows_of(z)[ng] == rn[0]);
        } else {
            let c = b[k - i - 1];
            assert(p[k] == ng + tm.len() + c);
            assert(q[k] == ng + tn.len() + c);
            assert(t[p[k]] == ty[c] && u[q[k]] == ty[c]);
            assert(pieces::rows_of(x)[p[k]] == ry[c]);
            assert(pieces::rows_of(z)[q[k]] == ry[c]);
        }
    }
}

/// Where the new section stands.
#[verifier::rlimit(40)]
#[verifier::spinoff_prover]
proof fn lemma_exchanged_span(
    g: Seq<u8>,
    new: Seq<u8>,
    y: Seq<u8>,
    tg: Seq<Token>,
    tn: Seq<Token>,
    ty: Seq<Token>,
)
    requires
        pieces::follows(g, 0, new + y),
        pieces::follows(new, 0, y),
        link_laws::tail_tokens(g + (new + y)) == tg + (tn + ty),
        tg.len() == pieces::rows_of(g).len(),
        tn.len() == pieces::rows_of(new).len(),
        ty.len() == pieces::rows_of(y).len(),
        tn.len() >= 2,
        pieces::rows_of(new).last().len() > 0,
        opens_section(tn[0]),
        forall|k: int| 0 < k < tn.len() ==> !opens_section(#[trigger] tn[k]),
        ty.len() > 0 ==> opens_section(ty[0]) || (ty.len() > 1 && pieces::rows_of(y)[0].len() == 0
            && !opens_section(ty[0]) && opens_section(ty[1])),
    ensures
        ({
            let z = g + (new + y);
            let i = assemble::section_lines(tg, tg.len() as int).len() as int;
            let w = link_laws::all_sections(
                z,
                tokenizer::lines_from(z, 0),
                link_laws::tail_tokens(z),
            );
            &&& 0 <= i < w.len()
            &&& w[i].span == (Span {
                start: g.len() as int,
                end: (g.len() + new.len()) as int,
            })
        }),
{
    let z = g + (new + y);
    let u = link_laws::tail_tokens(z);
    let lg = tokenizer::lines_from(g, 0);
    let ln = tokenizer::lines_from(new, 0);
    let ly = tokenizer::lines_from(y, 0);
    let l = tokenizer::lines_from(z, 0);
    lemma_three_parts(g, new, y);
    lemma_three_section_lines(tg, tn, ty);
    tokenizer::lemma_lines_from(new, 0);
    tokenizer::lemma_lines_from(y, 0);
    let a = assemble::section_lines(tg, tg.len() as int);
    let b = assemble::section_lines(ty, ty.len() as int);
    let q = assemble::section_lines(u, u.len() as int);
    let w = link_laws::all_sections(z, l, u);
    let i = a.len() as int;
    let ng = tg.len() as int;
    let nn = tn.len() as int;
    assert(q[i] == ng);
    assert(l[ng] == retitled::moved(ln[0], g.len() as int));
    if ty.len() > 0 {
        link_laws::lemma_section_lines_are(ty, ty.len() as int);
        assert(b.len() > 0 && b[0] == (if opens_section(ty[0]) {
            0int
        } else {
            1int
        })) by {
            lemma_first_section(
                ty,
                ty.len() as int,
                if opens_section(ty[0]) {
                    0
                } else {
                    1
                },
            );
        }
        assert(q[i + 1] == ng + nn + b[0]);
        assert(l[ng + nn] == retitled::moved(ly[0], (g.len() + new.len()) as int));
        let last = l[ng + nn - 1];
        assert(last == retitled::moved(ln[nn - 1], g.len() as int));
        assert(pieces::rows_of(new)[nn - 1].len() == ln[nn - 1].content_end - ln[nn - 1].start)
            by {
            assert(tokenizer::line_ok(new, ln[nn - 1]));
        }
        assert(tokenizer::line_ok(y, ly[0]));
        assert(pieces::rows_of(y)[0].len() == ly[0].content_end - ly[0].start);
    } else {
        assert(b =~= Seq::<int>::empty());
        assert(y.len() == 0);
        assert(q.len() == i + 1);
    }
}

/// The first section heading of a run of tokens.
pub proof fn lemma_first_section(t: Seq<Token>, n: int, k: int)
    requires
        0 <= k < n <= t.len(),
        opens_section(t[k]),
        forall|j: int| 0 <= j < k ==> !opens_section(#[trigger] t[j]),
    ensures
        assemble::section_lines(t, n).len() > 0,
        assemble::section_lines(t, n)[0] == k,
    decreases n,
{
    if n - 1 > k {
        lemma_first_section(t, n - 1, k);
    } else {
        link_laws::lemma_no_sections(t, k);
        assert(assemble::section_lines(t, n) =~= seq![k]);
    }
}

/// A tag section exchanged for another: the tags are in the new one.
#[verifier::rlimit(40)]
#[verifier::spinoff_prover]
pub proof fn lemma_tags_exchanged(x: Seq<u8>, new: Seq<u8>)
    requires
        link_laws::link_tail(x).tags is Some,
        ({
            let r = link_laws::link_tail(x).tags->0;
            stands_for(scan_behind(x.take(r.start)), x.subrange(r.start, r.end), new)
        }),
    ensures
        ({
            let r = link_laws::link_tail(x).tags->0;
            let z = x.take(r.start) + (new + x.skip(r.end));
            &&& 0 <= r.start <= r.end <= x.len()
            &&& link_laws::link_tail(z).tags == Some(
                Span { start: r.start, end: r.start + new.len() },
            )
        }),
{
    reveal(link_laws::link_tail);
    let lx = tokenizer::lines_from(x, 0);
    let t = link_laws::tail_tokens(x);
    let rows = pieces::rows_of(x);
    let v = link_laws::all_sections(x, lx, t);
    link_laws::lemma_same_tags(v, v);
    let i = assemble::canonical_tags(v);
    let (k, j) = lemma_section_place(x, i);
    let r = link_laws::link_tail(x).tags->0;
    assert(r == v[i].span);
    lemma_cut(x, k, j);
    let g = x.take(r.start);
    let m = x.subrange(r.start, r.end);
    let y = x.skip(r.end);
    let z = g + (new + y);
    let scan = scan_behind(g);
    lemma_three_parts(g, m, y);
    let tg = link_laws::tail_tokens(g);
    let tm = tokens_behind(scan, m);
    let ty = tokens_behind(scan_after(scan, m), y);
    let tn = tokens_behind(scan, new);
    let rm = pieces::rows_of(m);
    let rn = pieces::rows_of(new);
    let ry = pieces::rows_of(y);
    assert(tg.len() == k && tm.len() == j - k);
    assert(t[k] == tm[0]);
    assert(rm[0] == rows[k]);
    assert(v[i].exact_tags);
    assert(rows[k] == lx[k].content(x));
    assert(rm[0] == helpers::reserved_heading("Tags"@));
    assert forall|q: int| 0 < q < tm.len() implies !opens_section(#[trigger] tm[q]) by {
        assert(t[k + q] == tm[q]);
    }
    if ty.len() > 0 {
        assert(t[j] == ty[0]);
        assert(rows[j] == ry[0]);
        if ty.len() > 1 {
            assert(t[j + 1] == ty[1]);
        }
        lemma_scan_closed(scan, m, y);
    }
    // The new text.
    assert(new.len() > 0) by {
        if new.len() == 0 {
            assert(tokenizer::lines_from(new, 0) =~= Seq::<LineSpan>::empty());
        }
    }
    assert(pieces::follows(g, 0, new + y)) by {
        assert((new + y)[0] == new[0]);
        if g.len() > 0 {
            assert((m + y).len() > 0) by {
                if m.len() == 0 {
                    assert(tokenizer::lines_from(m, 0) =~= Seq::<LineSpan>::empty());
                }
            }
        }
    }
    lemma_three_parts(g, new, y);
    assert(tn[0] == classify::bookmark_token(pieces::scan_over(scan, rn, 0), rn[0]));
    assert(tm[0] == classify::bookmark_token(pieces::scan_over(scan, rm, 0), rm[0]));
    let tz = tokens_behind(scan_after(scan, new), y);
    assert(tz =~= ty) by {
        if ty.len() == 0 {
            assert(tz.len() == 0);
        }
    }
    lemma_exchanged_sorts(x, z, pieces::rows_of(g), rm, rn, ry, tg, tm, tn, ty);
    lemma_exchanged_span(g, new, y, tg, tn, ty);
    let w = link_laws::all_sections(z, tokenizer::lines_from(z, 0), link_laws::tail_tokens(z));
    link_laws::lemma_same_tags(v, w);
    let p = assemble::section_lines(t, t.len() as int);
    lemma_three_section_lines(tg, tm, ty);
    let c = assemble::section_lines(tg, tg.len() as int).len() as int;
    assert(p[c] == k);
    assert(i == c) by {
        link_laws::lemma_section_lines_are(t, t.len() as int);
        if i < c {
            assert(p[i] < p[c]);
        } else if c < i {
            assert(p[c] < p[i]);
        }
    }
}
/// Where no section holds the tags, none is an exact one.
proof fn lemma_none_exact(v: Seq<SectionView>, n: int)
    requires
        0 <= n <= v.len(),
        assemble::trailing_tags(v, n) < 0,
    ensures
        forall|k: int| 0 <= k < n ==> !(#[trigger] v[k]).exact_tags,
    decreases n,
{
    if n > 0 {
        lemma_none_exact(v, n - 1);
    }
}

/// Where no section but the last is an exact one, the last holds the tags.
pub proof fn lemma_last_holds_tags(w: Seq<SectionView>)
    requires
        w.len() > 0,
        w.last().exact_tags,
        forall|k: int| 0 <= k < w.len() - 1 ==> !(#[trigger] w[k]).exact_tags,
    ensures
        assemble::canonical_tags(w) == w.len() - 1,
{
    lemma_no_leading(w, 0);
}

proof fn lemma_no_leading(w: Seq<SectionView>, i: int)
    requires
        0 <= i <= w.len(),
        forall|k: int| 0 <= k < w.len() - 1 ==> !(#[trigger] w[k]).exact_tags,
    ensures
        assemble::leading_tags(w, i) == w.len(),
    decreases w.len() - i,
{
    if i < w.len() {
        lemma_no_leading(w, i + 1);
        if i == w.len() - 1 {
            assert(!assemble::content_after(w, i));
        } else {
            assert(!w[i].exact_tags);
        }
    }
}

/// Sections without an exact one, and no tags, are the same thing.
pub proof fn lemma_untagged(v: Seq<SectionView>)
    ensures
        assemble::canonical_tags(v) < 0 <==> forall|k: int|
            0 <= k < v.len() ==> !(#[trigger] v[k]).exact_tags,
{
    link_laws::lemma_same_tags(v, v);
    link_laws::lemma_same_leading(v, v, 0);
    if assemble::canonical_tags(v) < 0 {
        lemma_none_exact(v, v.len() as int);
    }
}

/// A section of exact tags where the scan has no open fence.
pub open spec fn is_tag_section(scan: BookmarkScan, new: Seq<u8>) -> bool {
    let tn = tokens_behind(scan, new);
    let rn = pieces::rows_of(new);
    &&& rn.len() > 0
    &&& rn[0] == helpers::reserved_heading("Tags"@)
    &&& tn[0] matches Token::Heading { level, text, .. } && level >= 2 && text == "Tags"@
    &&& forall|k: int| 0 < k < tn.len() ==> !opens_section(#[trigger] tn[k])
}

/// A tag section behind a text without one: it holds the tags.
#[verifier::rlimit(40)]
#[verifier::spinoff_prover]
pub proof fn lemma_tags_appended(fr: Seq<u8>, new: Seq<u8>)
    requires
        pieces::follows(fr, 0, new),
        link_laws::link_tail(fr).tags is None,
        is_tag_section(scan_behind(fr), new),
    ensures
        link_laws::link_tail(fr + new).tags == Some(
            Span { start: fr.len() as int, end: (fr + new).len() as int },
        ),
{
    reveal(link_laws::link_tail);
    let z = fr + new;
    let lf = tokenizer::lines_from(fr, 0);
    let ln = tokenizer::lines_from(new, 0);
    let lz = tokenizer::lines_from(z, 0);
    let tf = link_laws::tail_tokens(fr);
    let tn = tokens_behind(scan_behind(fr), new);
    pieces::lemma_joined(fr, 0, new);
    pieces::lemma_tokens_join(pieces::at_start(), pieces::rows_of(fr), pieces::rows_of(new));
    let u = link_laws::tail_tokens(z);
    assert(u == tf + tn);
    let nf = tf.len() as int;
    lemma_one_section(tn, tn.len() as int);
    link_laws::lemma_section_lines_join(tf, tn, tn.len() as int);
    link_laws::lemma_section_lines_are(tf, nf);
    let a = assemble::section_lines(tf, nf);
    let q = assemble::section_lines(u, u.len() as int);
    assert(link_laws::counted(seq![0int], nf) =~= seq![nf]);
    assert(q =~= a.push(nf));
    let v = link_laws::all_sections(fr, lf, tf);
    let w = link_laws::all_sections(z, lz, u);
    link_laws::lemma_same_tags(v, v);
    lemma_untagged(v);
    assert forall|k: int| 0 <= k < w.len() - 1 implies !(#[trigger] w[k]).exact_tags by {
        assert(q[k] == a[k]);
        assert(u[a[k]] == tf[a[k]]);
        assert(pieces::rows_of(z)[a[k]] == pieces::rows_of(fr)[a[k]]);
        assert(pieces::rows_of(z)[a[k]] == lz[a[k]].content(z));
        assert(pieces::rows_of(fr)[a[k]] == lf[a[k]].content(fr));
        assert(!v[k].exact_tags);
    }
    assert(q[w.len() - 1] == nf);
    assert(u[nf] == tn[0]);
    assert(pieces::rows_of(z)[nf] == pieces::rows_of(new)[0]);
    assert(pieces::rows_of(z)[nf] == lz[nf].content(z));
    assert(w.last().exact_tags);
    lemma_last_holds_tags(w);
    tokenizer::lemma_lines_from(new, 0);
    assert(lz[nf] == retitled::moved(ln[0], fr.len() as int));
}

/// A line feed at the end of a text that lacks one changes nothing of what its lines hold.
pub proof fn lemma_ended_rows(x: Seq<u8>)
    requires
        x.len() > 0,
    ensures
        pieces::rows_of(lines::title_line(x)) == pieces::rows_of(x),
        lines::title_line(x).len() > 0,
        lines::title_line(x).last() == LF,
{
    if x.last() != LF {
        let l = tokenizer::lines_from(x, 0);
        tokenizer::lemma_lines_from(x, 0);
        let k = l.len() - 1;
        assert(tokenizer::line_ok(x, l[k]));
        task_laws::lemma_split_tail(x, k);
        let at = l[k].start;
        let g = x.take(at);
        let y = x.skip(at);
        let ly = tokenizer::lines_from(y, 0);
        assert(retitled::all_moved(ly, at).len() == 1);
        assert(retitled::all_moved(ly, at)[0] == l.skip(k)[0]);
        let z = y.push(LF);
        assert(y.last() == x.last());
        lemma_one_line_ended(y);
        assert(z[0] == y[0]) by {
            assert(y.len() > 0);
        }
        assert(pieces::follows(g, 0, z));
        pieces::lemma_joined(g, 0, y);
        pieces::lemma_joined(g, 0, z);
        assert(g + z =~= x.push(LF));
    }
}

/// One line without a line feed gets one.
proof fn lemma_one_line_ended(y: Seq<u8>)
    requires
        tokenizer::lines_from(y, 0).len() == 1,
        y.len() > 0,
        y.last() != LF,
    ensures
        pieces::rows_of(y.push(LF)) == pieces::rows_of(y),
{
    let z = y.push(LF);
    let p = tokenizer::breaks();
    let l = tokenizer::lines_from(y, 0);
    tokenizer::lemma_lines_from(y, 0);
    tokenizer::lemma_line_is(y, 0, 0);
    let line = l[0];
    assert(line == tokenizer::line_at(y, 0));
    assert(tokenizer::line_ok(y, line));
    bytes::lemma_find_from(y, p, 0);
    let e = tokenizer::line_end(y, 0);
    assert(line.end == y.len());
    assert forall|k: int| 0 <= k < e implies !p(#[trigger] z[k]) by {
        assert(z[k] == y[k]);
    }
    if e < y.len() {
        assert(z[e] == y[e]);
        assert(p(z[e]));
        assert(y[e] == CR && e == y.len() - 1);
    } else {
        assert(p(z[e]));
    }
    bytes::lemma_find_from_is(z, p, 0, e);
    let new = tokenizer::line_at(z, 0);
    assert(new.end == z.len());
    assert(tokenizer::lines_from(z, new.end) =~= Seq::<LineSpan>::empty());
    assert(tokenizer::lines_from(z, 0) =~= seq![new]);
    assert(new.content(z) =~= line.content(y));
    assert(pieces::rows_of(z) =~= pieces::rows_of(y));
}

/// What stands before a new tag section: a text with a line feed at its end, and an empty line.
pub proof fn lemma_front_of_section(x: Seq<u8>)
    requires
        x.len() > 0,
        link_laws::link_tail(x).tags is None,
        scan_behind(x).fence is None,
    ensures
        ({
            let fr = lines::title_line(x).push(LF);
            &&& link_laws::link_tail(fr).tags is None
            &&& scan_behind(fr).fence is None
            &&& pieces::rows_of(fr) == pieces::rows_of(x).push(Seq::<u8>::empty())
        }),
{
    reveal(link_laws::link_tail);
    let none = Seq::<u8>::empty();
    let e = lines::title_line(x);
    let fr = e.push(LF);
    lemma_ended_rows(x);
    task_laws::lemma_line_after(e, 0, none);
    assert(e + none.push(LF) =~= fr);
    let rx = pieces::rows_of(x);
    assert(pieces::rows_of(fr) == rx.push(none));
    assert(rx.push(none) =~= rx + seq![none]);
    let start = pieces::at_start();
    pieces::lemma_tokens_join(start, rx, seq![none]);
    let scan = scan_behind(x);
    classify::lemma_blank_opens_no_fence(none);
    assert(helpers::blank(none));
    assert(pieces::scan_over(scan, seq![none], 1) == scan) by {
        assert(pieces::scan_over(scan, seq![none], 0) == scan);
    }
    let tx = link_laws::tail_tokens(x);
    let tf = link_laws::tail_tokens(fr);
    let one = pieces::link_tokens(scan, seq![none]);
    assert(one.len() == 1 && one[0] is Blank);
    assert(tf == tx + one);
    link_laws::lemma_section_lines_join(tx, one, 1);
    link_laws::lemma_no_sections(one, 1);
    link_laws::lemma_section_lines_are(tx, tx.len() as int);
    let a = assemble::section_lines(tx, tx.len() as int);
    assert(assemble::section_lines(tf, tf.len() as int) =~= a);
    let lx = tokenizer::lines_from(x, 0);
    let lf = tokenizer::lines_from(fr, 0);
    let v = link_laws::all_sections(x, lx, tx);
    let w = link_laws::all_sections(fr, lf, tf);
    assert forall|k: int| 0 <= k < v.len() implies link_laws::same_sort(
        #[trigger] v[k],
        w[k],
    ) by {
        assert(tf[a[k]] == tx[a[k]]);
        assert(pieces::rows_of(fr)[a[k]] == rx[a[k]]);
        assert(rx[a[k]] == lx[a[k]].content(x));
        assert(pieces::rows_of(fr)[a[k]] == lf[a[k]].content(fr));
    }
    link_laws::lemma_same_tags(v, w);
}

/// The tags of a bookmark are those of what follows its byte-order mark.
#[verifier::rlimit(40)]
#[verifier::spinoff_prover]
pub proof fn lemma_whole(s: Seq<u8>)
    ensures
        ({
            let p = tokenizer::preamble_len(s);
            let x = s.skip(p);
            let part = parser::partition_of(s, DocumentKind::Bookmark);
            let t = link_laws::tail_tokens(x);
            &&& s == s.take(p) + x
            &&& pieces::source_rows(s) == pieces::rows_of(x)
            &&& part is Some <==> assemble::next_content(t, 0) < t.len()
            &&& part is Some ==> part->0.tags == pieces::opt_moved(
                link_laws::link_tail(x).tags,
                p,
            )
        }),
{
    reveal(link_laws::link_tail);
    let p = tokenizer::preamble_len(s);
    let l = tokenizer::source_lines(s);
    pieces::lemma_split(s, 0);
    assemble::lemma_source_lines(s);
    let a = s.take(p);
    let x = s.skip(p);
    assert(l.skip(0) =~= l);
    assert(pieces::source_rows(s).skip(0) =~= pieces::source_rows(s));
    pieces::lemma_tokens(s);
    let t = parser::tokens_of(s, DocumentKind::Bookmark);
    assert(t == link_laws::tail_tokens(x));
    let at = assemble::section_lines(t, t.len() as int);
    link_laws::lemma_section_lines_are(t, t.len() as int);
    assert(t.skip(0) =~= t);
    assert(link_laws::counted(at, 0) =~= at);
    let lx = tokenizer::lines_from(x, 0);
    assert forall|k: int| 0 <= k < lx.len() implies l[0 + k] == retitled::moved(
        #[trigger] lx[k],
        p,
    ) by {
        assert(retitled::all_moved(lx, p)[k] == l[k]);
    }
    link_laws::lemma_sections_moved(s, l, t, a, x, 0, at);
    let v = link_laws::all_sections(x, lx, t);
    let w = link_laws::all_sections(s, l, t);
    link_laws::lemma_same_tags(v, w);
}

} // verus!
