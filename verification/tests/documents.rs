use nb_api::bytes::ByteRange;
use nb_api::lines::{
    apply_line_edits, apply_substring, detect_eol, document_lines, find_matches,
    note_line_from_body_line, require_contiguous_body, search_lines, splice_body, splice_title,
    verify_line_ref,
};
use nb_api::parser::dispatch::SUPPORTED_DOCUMENT_EXTENSIONS;
use nb_api::parser::{parse_as, parse_at};
use nb_api::{
    compute_fingerprint, parse, BoundaryAt, DocumentKind, Fingerprint, LineAnchor, LineEdit,
    LineEol, LinePosition, LineRef, NbError, NoteDocument, Occurrence, ParseContext,
    ParseErrorKind, TodoState,
};

fn note(source: &[u8]) -> NoteDocument {
    parse_as(source, DocumentKind::Note).unwrap()
}

fn body_text(doc: &NoteDocument) -> String {
    String::from_utf8(doc.body_bytes()).unwrap()
}

#[test]
fn notes_are_partitioned() {
    let doc = note(b"# Title\n\n#one #two\n\nbody\n");
    assert_eq!(doc.kind(), DocumentKind::Note);
    assert_eq!(doc.title(), Some(&b"# Title\n"[..]));
    assert_eq!(doc.title_str().unwrap().unwrap(), "# Title\n");
    assert_eq!(doc.tags(), vec![&b"one"[..], &b"two"[..]]);
    assert_eq!(doc.tag_token_spans()[0], ByteRange { start: 10, end: 13 });
    assert!(doc.tags_prefix().is_some());
    assert_eq!(doc.tag_section(), None);
    assert_eq!(body_text(&doc), "body\n");
    assert_eq!(doc.url(), None);
    assert_eq!(doc.todo_state(), None);
    assert_eq!(doc.emit(), doc.source());
    assert_eq!(doc.verify_partition(), Ok(()));
}

#[test]
fn every_source_is_kept_byte_for_byte() {
    let sources: [&[u8]; 9] = [
        b"",
        b"\n\n",
        b"# T",
        b"\xef\xbb\xbf# T\r\n\r\nbody\r\n",
        b"plain text\nwithout title\n",
        b"#tag\n\nbody",
        b"# T\n\xff\xfe\n",
        b"```\n# not a title\n```\n",
        b"# A\n\n## B\n\n# C\n",
    ];
    for s in sources {
        let doc = note(s);
        assert_eq!(doc.source(), s);
        assert_eq!(doc.verify_partition(), Ok(()), "{s:?}");
    }
    for s in [&b"# [ ] T\n\n## Tasks\n\n- [ ] a\n"[..], b"x\n", b"# [x] T\n\n## Tags\n\n#a\n"] {
        let doc = parse_as(s, DocumentKind::Todo).unwrap();
        assert_eq!(doc.emit(), s);
        assert_eq!(doc.verify_partition(), Ok(()));
    }
    for s in [
        &b"# T\n\n<http://x>\n\n## Content\n\ntext\n\n## Tags\n\n#a #b\n"[..],
        b"<http://x>\n",
        b"## Content\n\na\n\n## Tags\n\n#t\n\n## Other\n\nb\n",
    ] {
        let doc = parse_as(s, DocumentKind::Bookmark).unwrap();
        assert_eq!(doc.emit(), s);
        assert_eq!(doc.verify_partition(), Ok(()));
    }
}

#[test]
fn a_title_opens_no_tag_section() {
    let doc = parse_as(b"## Tags\n", DocumentKind::Todo).unwrap();
    assert_eq!(doc.title(), Some(&b"## Tags\n"[..]));
    assert_eq!(doc.tag_section(), None);
    assert_eq!(doc.verify_partition(), Ok(()));
    let doc = parse_as(b"## Tags\n\n#a\n", DocumentKind::Todo).unwrap();
    assert_eq!(doc.tag_section(), None);
    assert_eq!(body_text(&doc), "#a\n");
    assert_eq!(doc.verify_partition(), Ok(()));
    let doc = parse_as(b"## Tags\n\n## Tags\n\n#a\n", DocumentKind::Todo).unwrap();
    assert_eq!(doc.tags(), vec![&b"a"[..]]);
    assert_eq!(doc.verify_partition(), Ok(()));
}

#[test]
fn only_blank_tasks_and_bookmarks_are_refused() {
    for kind in [DocumentKind::Todo, DocumentKind::Bookmark] {
        assert_eq!(
            parse_as(b" \n\t\n", kind).err(),
            Some(NbError::ParseError {
                kind: ParseErrorKind::MissingTitle,
                location: ByteRange { start: 0, end: 0 },
            })
        );
        assert!(parse_as(b"x", kind).is_ok());
    }
    assert!(parse_as(b"", DocumentKind::Note).is_ok());
}

#[test]
fn tasks_and_bookmarks_have_their_parts() {
    let todo = parse_as(b"# [X] T\n\n## Tasks\n\n- [ ] a\n\n## Tags\n\n#a #b\n", DocumentKind::Todo)
        .unwrap();
    assert_eq!(todo.todo_state(), Some(TodoState::Done));
    assert_eq!(todo.tags_str()[1].unwrap(), "b");
    assert!(todo.tag_section().is_some());
    let open = parse_as(b"# [ ] T\n", DocumentKind::Todo).unwrap();
    assert_eq!(open.todo_state(), Some(TodoState::Open));
    let mark = parse_as(b"# T\n\n<http://x/y>\n", DocumentKind::Bookmark).unwrap();
    assert_eq!(mark.url_str().unwrap().unwrap(), "<http://x/y>\n");
}

#[test]
fn the_name_decides_the_kind() {
    assert_eq!(parse_at(b"x", "a.todo.md").unwrap().kind(), DocumentKind::Todo);
    assert_eq!(parse_at(b"x", "d/a.bookmark.md").unwrap().kind(), DocumentKind::Bookmark);
    assert_eq!(parse_at(b"x", "a.md").unwrap().kind(), DocumentKind::Note);
    assert_eq!(
        parse(b"x", ParseContext::FromPath("a.md".to_string())).unwrap().kind(),
        DocumentKind::Note
    );
    assert_eq!(
        parse(b"x", ParseContext::Explicit(DocumentKind::Todo)).unwrap().kind(),
        DocumentKind::Todo
    );
    assert_eq!(
        parse_at(b"x", "a.org").err(),
        Some(NbError::UnsupportedDocumentFormat {
            extension: "org".to_string(),
            supported: SUPPORTED_DOCUMENT_EXTENSIONS.iter().map(|s| s.to_string()).collect(),
        })
    );
}

#[test]
fn fingerprints_authenticate_the_body() {
    let doc = note(b"# T\n");
    assert_eq!(
        compute_fingerprint(&doc).as_hex(),
        "af1349b9f5f9a1a6a0404dea36dcc9499bcb25c9adc112b7cc9a93cae41f3262"
    );
    let a = note(b"# One\n\nbody\n");
    let b = note(b"# Two\n\n#tag #more\n\nbody\n");
    assert_eq!(a.body_bytes(), b.body_bytes());
    assert_eq!(compute_fingerprint(&a), compute_fingerprint(&b));
    assert_eq!(
        compute_fingerprint(&a).as_hex(),
        blake3::hash(b"body\n").to_hex().as_str()
    );
    let text = compute_fingerprint(&a).as_str();
    assert!(text.starts_with("b3:"));
    assert_eq!(text.parse::<Fingerprint>(), Ok(compute_fingerprint(&a)));
    assert_eq!(
        Fingerprint::from_json(&format!("\"{text}\"")),
        Ok(compute_fingerprint(&a))
    );
}

#[test]
fn malformed_fingerprints_are_told_apart() {
    let hex = "a".repeat(64);
    for (token, reason) in [
        (String::new(), "empty"),
        (format!(" b3:{hex}"), "leading_whitespace"),
        (format!("b3:{hex} "), "trailing_whitespace"),
        (format!("md5:{hex}"), "unknown_algorithm_prefix"),
        ("b3:abc".to_string(), "wrong_length"),
        (format!("b3:{}", "A".repeat(64)), "uppercase_hex"),
        (format!("b3:{}", "z".repeat(64)), "invalid_hex"),
    ] {
        assert_eq!(
            Fingerprint::parse_token(&token),
            Err(NbError::InvalidFingerprint { reason: reason.to_string() }),
            "{token}"
        );
    }
    assert!(matches!(Fingerprint::from_json("{"), Err(NbError::JsonParseError { .. })));
    assert!(matches!(
        Fingerprint::from_json("\"nope\""),
        Err(NbError::InvalidFingerprint { .. })
    ));
}

fn refs(body: &[u8]) -> Vec<LineRef> {
    document_lines(body)
        .2
        .iter()
        .map(|l| LineRef { number: l.number, anchor: l.anchor.clone() })
        .collect()
}

#[test]
fn lines_are_declared_once_for_a_body() {
    assert_eq!(detect_eol(b"a\r\nb\n"), Some(LineEol::CrLf));
    assert_eq!(detect_eol(b"a\nb\r\n"), Some(LineEol::Lf));
    assert_eq!(detect_eol(b"a"), None);
    let (eol, last, lines) = document_lines(b"a\n\nc");
    assert_eq!((eol, last, lines.len()), (Some(LineEol::Lf), false, 3));
    assert_eq!(lines[0].text_range, ByteRange { start: 0, end: 1 });
    assert_eq!(lines[0].full_range, ByteRange { start: 0, end: 2 });
    assert_eq!(lines[2].full_range, ByteRange { start: 3, end: 4 });
    assert_eq!(document_lines(b"").2.len(), 0);
    let shown = note_line_from_body_line(&lines[2], b"a\n\nc");
    assert_eq!((shown.number, shown.text.as_str()), (3, "c"));
    assert_eq!(
        lines[0].anchor,
        LineAnchor::from_line_bytes(b"a\n")
    );
    assert_eq!(
        LineAnchor::from_line_bytes(b"a\n").as_str(),
        format!("b3l1:{}", blake3::hash(b"a\n").to_hex())
    );
}

#[test]
fn line_references_are_verified() {
    let body = b"a\nb\n";
    let lines = document_lines(body).2;
    let own = refs(body);
    assert_eq!(verify_line_ref(&lines, &own[1]), Ok(1));
    let stale = LineRef { number: 1, anchor: own[1].anchor.clone() };
    assert!(matches!(
        verify_line_ref(&lines, &stale),
        Err(NbError::AnchorMismatch { number: 1, .. })
    ));
    let missing = LineRef { number: 9, anchor: own[1].anchor.clone() };
    assert!(verify_line_ref(&lines, &missing).is_err());
    let read = LineRef { number: 2, anchor: LineAnchor::from_text(own[1].anchor.as_str()) };
    assert_eq!(verify_line_ref(&lines, &read), Ok(1));
    let foreign = LineRef { number: 2, anchor: LineAnchor::from_text("b3l1:00") };
    assert!(matches!(
        verify_line_ref(&lines, &foreign),
        Err(NbError::AnchorMismatch { number: 2, .. })
    ));
}

#[test]
fn line_edits_are_applied_together() {
    let body = b"a\nb\nc\n";
    let r = refs(body);
    let edits = vec![
        LineEdit::Insert {
            at: LinePosition::Boundary { at: BoundaryAt::Caret },
            content: "top".to_string(),
        },
        LineEdit::Replace { start: r[0].clone(), end: r[0].clone(), content: "A".to_string() },
        LineEdit::Delete { start: r[1].clone(), end: r[1].clone() },
        LineEdit::Insert {
            at: LinePosition::After { line: r[2].clone() },
            content: "d\ne".to_string(),
        },
    ];
    let out = apply_line_edits(body, &edits);
    assert_eq!(String::from_utf8(out.unwrap()).unwrap(), "top\nA\nc\nd\ne\n");
    let clash = vec![
        LineEdit::Delete { start: r[0].clone(), end: r[1].clone() },
        LineEdit::Delete { start: r[1].clone(), end: r[2].clone() },
    ];
    assert_eq!(
        apply_line_edits(body, &clash),
        Err(NbError::OverlappingEdits { indices: vec![0, 1] })
    );
}

#[test]
fn the_order_of_line_edits_does_not_matter() {
    let body = b"a\nb\n";
    let r = refs(body);
    let delete = LineEdit::Delete { start: r[0].clone(), end: r[0].clone() };
    let replace =
        LineEdit::Replace { start: r[0].clone(), end: r[0].clone(), content: "A".to_string() };
    let before = LineEdit::Insert {
        at: LinePosition::Before { line: r[0].clone() },
        content: "X".to_string(),
    };
    let after = LineEdit::Insert {
        at: LinePosition::After { line: r[0].clone() },
        content: "Y".to_string(),
    };
    for batch in [
        vec![delete.clone(), before.clone()],
        vec![before.clone(), delete.clone()],
    ] {
        assert_eq!(apply_line_edits(body, &batch), Ok(b"X\nb\n".to_vec()));
    }
    for batch in [
        vec![replace.clone(), after.clone(), before.clone()],
        vec![before.clone(), replace.clone(), after.clone()],
        vec![after.clone(), before.clone(), replace.clone()],
    ] {
        assert_eq!(apply_line_edits(body, &batch), Ok(b"X\nA\nY\nb\n".to_vec()));
    }
    assert_eq!(apply_line_edits(body, &vec![]), Ok(body.to_vec()));
}

#[test]
fn substrings_are_counted_and_replaced() {
    assert_eq!(
        find_matches(b"aXaXa", b"X"),
        Ok(vec![ByteRange { start: 1, end: 2 }, ByteRange { start: 3, end: 4 }])
    );
    assert_eq!(find_matches(b"aaa", b"aa").unwrap().len(), 1);
    assert_eq!(find_matches(b"a", b""), Err(NbError::EmptySubstringPattern));
    let all = apply_substring(b"aXaX", b"X", b"YY", &Occurrence::All, 2);
    assert_eq!(all, Ok(b"aYYaYY".to_vec()));
    let second = apply_substring(b"aXaX", b"X", b"Y", &Occurrence::Nth { n: 2 }, 2);
    assert_eq!(second, Ok(b"aXaY".to_vec()));
    let first = apply_substring(b"aXaX", b"X", b"", &Occurrence::First, 2);
    assert_eq!(first, Ok(b"aaX".to_vec()));
    assert_eq!(
        apply_substring(b"aXaX", b"X", b"Y", &Occurrence::All, 1),
        Err(NbError::OccurrenceMismatch { expected: 1, actual: 2 })
    );
    assert!(matches!(
        apply_substring(b"X", b"X", b"Y", &Occurrence::Nth { n: 0 }, 1),
        Err(NbError::ValidationError { .. })
    ));
    assert_eq!(apply_substring(b"aXbX", b"X", b"X", &Occurrence::All, 2), Ok(b"aXbX".to_vec()));
}

#[test]
fn bodies_and_titles_are_replaced_in_place() {
    let doc = note(b"# T\n\nold\n");
    assert_eq!(splice_body(&doc, b"new\n"), Ok(b"# T\n\nnew\n".to_vec()));
    assert_eq!(splice_body(&doc, &doc.body_bytes()), Ok(doc.source().to_vec()));
    assert_eq!(splice_title(&doc, b"# New"), Ok(b"# New\n\nold\n".to_vec()));
    assert_eq!(splice_title(&note(b"body"), b"# New"), Ok(b"# New\n\nbody".to_vec()));
    assert_eq!(require_contiguous_body(&doc), Ok(b"old\n".to_vec()));
}

#[test]
fn fragmented_bodies_are_refused() {
    let source = b"# T\n\n<http://x>\n\n## Content\n\na\n\n## Tags\n\n#t\n\n## Other\n\nb\n";
    let doc = parse_as(source, DocumentKind::Bookmark).unwrap();
    assert_eq!(doc.body_ranges().len(), 2);
    assert!(matches!(
        require_contiguous_body(&doc),
        Err(NbError::FragmentedBody { fragment_count: 2, .. })
    ));
    assert!(matches!(splice_body(&doc, b"x"), Err(NbError::FragmentedBody { .. })));
}

#[test]
fn lines_are_searched() {
    let hits = search_lines(b"ab ab\nxaby\n", b"ab").unwrap();
    let got: Vec<(u32, u32, u32)> =
        hits.iter().map(|h| (h.number, h.start_byte, h.end_byte)).collect();
    assert_eq!(got, vec![(1, 0, 2), (1, 3, 5), (2, 1, 3)]);
}

#[test]
fn every_error_has_its_message() {
    let s = |t: &str| t.to_string();
    let io = nb_api::IoError {
        kind: nb_api::IoErrorKind::NotFound,
        message: s("gone"),
        os_error: Some(2),
        source: None,
    };
    let io_text = io.message_text();
    let target = nb_api::NoteTarget::Path { value: s("a.md") };
    let cases = vec![
        (
            NbError::CommandFailed { command: s("nb x"), stderr: s("bad\n"), exit_code: Some(-2) },
            format!("command {:?} failed (exit {:?}): {}", "nb x", Some(-2), "bad\n"),
        ),
        (
            NbError::ExecutableNotFound { path: s("nb") },
            format!("`nb` executable not found at path {:?}", "nb"),
        ),
        (NbError::NotFound { selector: s("n:1") }, format!("not found: {:?}", "n:1")),
        (
            NbError::Io { path: s("/it's a \"path\""), source: io },
            format!("I/O error at {:?}: {}", std::path::Path::new("/it's a \"path\""), io_text),
        ),
        (
            NbError::GateTimeout { gate: s("global"), timeout_ms: 5 },
            s("gate timeout waiting on global after 5ms"),
        ),
        (NbError::DirtyBaseline { guidance: s("clean it") }, s("dirty baseline: clean it")),
        (
            NbError::PathCollision { path: s("a"), plan_index: Some(1) },
            format!("path collision at {:?} (plan_index={:?})", "a", Some(1)),
        ),
        (
            NbError::PathIgnored { path: s("a"), guidance: s("g"), plan_index: None },
            format!("ignored path {:?} (plan_index=None): g", "a"),
        ),
        (
            NbError::PlanValidation { kind: s("k"), message: s("m"), plan_index: Some(3) },
            s("plan validation (k) at index Some(3): m"),
        ),
        (
            NbError::FingerprintMismatch { target, guidance: s("g") },
            format!("fingerprint mismatch for Path {{ value: {:?} }}: g", "a.md"),
        ),
        (
            NbError::AnchorMismatch { target: s("line 4"), number: 4, guidance: s("g") },
            s("anchor mismatch for line 4 line 4: g"),
        ),
        (
            NbError::OccurrenceMismatch { expected: 1, actual: 2 },
            s("occurrence mismatch: expected=1 actual=2"),
        ),
        (
            NbError::OverlappingEdits { indices: vec![1, 2] },
            format!("overlapping edits at indices {:?}", vec![1, 2]),
        ),
        (
            NbError::InvalidLineWindow { offset: 1, limit: 2, total_lines: 3 },
            s("invalid line window offset=1 limit=2 total_lines=3"),
        ),
        (NbError::EmptySubstringPattern, s("empty substring pattern")),
        (
            NbError::FragmentedBody { fragment_count: 2, guidance: s("g") },
            s("fragmented body (2 fragments): g"),
        ),
        (NbError::UnsupportedStructure { reason: s("r") }, s("unsupported structure: r")),
        (
            NbError::IndeterminateCommit {
                pre_revision: s("a"),
                post_revision_observed: Some(s("b")),
                guidance: s("g"),
            },
            format!("indeterminate commit (pre=a, post={:?}): g", Some("b")),
        ),
        (
            NbError::ValidationError { reason: s("tab\t\u{e9}\u{7f}"), location: None },
            format!("validation error: {:?}", "tab\t\u{e9}\u{7f}"),
        ),
    ];
    for (error, message) in cases {
        assert_eq!(error.message_text(), message);
    }
}

#[test]
fn a_written_body_reads_back() {
    let doc = note(b"# T\n\n#a #b\n\nold\n");
    let source = splice_body(&doc, b"new\nlines\n").unwrap();
    let after = note(&source);
    assert_eq!(after.title(), doc.title());
    assert_eq!(after.tags(), doc.tags());
    assert_eq!(body_text(&after), "new\nlines\n");
    // A tag line as the body of a note without one is read as its tag line.
    let plain = note(b"# T\n\nold\n");
    let source = splice_body(&plain, b"#a #b\n").unwrap();
    assert_eq!(body_text(&note(&source)), "");
    assert_eq!(note(&source).tags(), vec![&b"a"[..], &b"b"[..]]);
}

#[test]
fn a_written_title_reads_back() {
    for old in [&b"# Old\n\n#a #b\n\nbody\n"[..], b"\n\n# Old\r\nbody", b"#a #b\n\n# body\n", b"\ntext", b""]
    {
        let doc = note(old);
        let source = splice_title(&doc, b"# New").unwrap();
        let after = note(&source);
        assert_eq!(after.title(), Some(&b"# New\n"[..]), "{old:?}");
        assert_eq!(after.tags(), doc.tags(), "{old:?}");
        assert_eq!(after.body_bytes(), doc.body_bytes(), "{old:?}");
    }
    // A byte-order mark ends up behind a title that is put in front of it.
    let source = splice_title(&note(b"\xef\xbb\xbfbody"), b"# New").unwrap();
    assert_eq!(note(&source).body_bytes(), b"\xef\xbb\xbfbody");
}

#[test]
fn a_written_task_title_reads_back() {
    for old in [
        &b"# [ ] Old\n\ntext\n\n## Tags\n\n#a #b\n"[..],
        b"\n \nOld\r\ntext\n## Tags\n#a",
        b"\xef\xbb\xbf# [x] Old",
        b"## Tags\n\ntext\n",
    ] {
        let doc = parse_as(old, DocumentKind::Todo).unwrap();
        let source = splice_title(&doc, b"# [x] New").unwrap();
        let after = parse_as(&source, DocumentKind::Todo).unwrap();
        assert_eq!(after.title(), Some(&b"# [x] New\n"[..]), "{old:?}");
        assert_eq!(after.todo_state(), Some(TodoState::Done), "{old:?}");
        assert_eq!(after.tags(), doc.tags(), "{old:?}");
        assert_eq!(after.body_bytes(), doc.body_bytes(), "{old:?}");
    }
}

#[test]
fn a_written_bookmark_title_reads_back() {
    for old in [
        &b"# Old\n\n<http://x>\n\n## Content\n\ntext\n\n## Tags\n\n#a #b\n"[..],
        b"<http://x>\n\n## Tags\n\n#a\n\n## Content\n\ntext\n",
        b"\n# Old",
        b"text\n",
        b"## Source\n\n```\n## Tags\n```\n",
    ] {
        let doc = parse_as(old, DocumentKind::Bookmark).unwrap();
        let source = splice_title(&doc, b"# New").unwrap();
        let after = parse_as(&source, DocumentKind::Bookmark).unwrap();
        assert_eq!(after.title(), Some(&b"# New\n"[..]), "{old:?}");
        assert_eq!(after.url(), doc.url(), "{old:?}");
        assert_eq!(after.tags(), doc.tags(), "{old:?}");
        assert_eq!(after.body_bytes(), doc.body_bytes(), "{old:?}");
    }
}

#[test]
fn a_written_task_body_reads_back() {
    for (old, body) in [
        (&b"# [ ] T\n\nold\n\n## Tags\n\n#a #b\n"[..], &b"new\n"[..]),
        (b"# [ ] T\n\nold\n\n## Tags\n\n#a #b\n", b""),
        (b"# [ ] T\n\nold\n\n## Tags\n\n#a #b\n", b"## Tags\n\n#c\n\n"),
        (b"# [ ] T\n\nold\n## Tags\n\n#a #b\n", b"new\nlines\n"),
        (b"# [ ] T\n\nold\n", b"new"),
        (b"# [ ] T\n", b"new\n\n"),
        (b"# [ ] T\n\nold\n", b""),
    ] {
        let doc = parse_as(old, DocumentKind::Todo).unwrap();
        let source = splice_body(&doc, body).unwrap();
        let after = parse_as(&source, DocumentKind::Todo).unwrap();
        assert_eq!(after.body_bytes(), body, "{old:?}");
        assert_eq!(after.title(), doc.title(), "{old:?}");
        assert_eq!(after.tags(), doc.tags(), "{old:?}");
    }
    // A body for a task with tags and none ends up behind the tags.
    let doc = parse_as(b"# [ ] T\n\n## Tags\n\n#a\n", DocumentKind::Todo).unwrap();
    let source = splice_body(&doc, b"new\n").unwrap();
    let after = parse_as(&source, DocumentKind::Todo).unwrap();
    assert_eq!(after.body_bytes(), b"");
    // A body that does not end its last line before the tags takes in the line break.
    let doc = parse_as(b"# [ ] T\n\nold\n\n## Tags\n\n#a\n", DocumentKind::Todo).unwrap();
    let source = splice_body(&doc, b"new").unwrap();
    let after = parse_as(&source, DocumentKind::Todo).unwrap();
    assert_eq!(after.body_bytes(), b"new\n");
}

#[test]
fn a_written_bookmark_body_reads_back() {
    for (old, body) in [
        (&b"# T\n\n<http://x>\n\nold\n"[..], &b"new\n"[..]),
        (b"# T\n\n<http://x>\n\nold\n", b""),
        (b"# T\n\n<http://x>\n", b"## Content\n\nnew\n### more\n"),
        (
            b"# T\n\n<http://x>\n\n## Content\n\nold\n\n## Tags\n\n#a #b\n",
            b"text\n\n## Content\n\nnew\n\n## more\n\n",
        ),
        (b"# T\n\n<http://x>\n\n## Content\n\nold\n\n## Tags\n\n#a #b\n", b""),
        (b"<http://x>\n\n## Tags\n\n#a #b\n\n## Content\n\nold\n", b"## Source\n\nnew"),
        (b"<http://x>\n\n## Tags\n\n#a #b\n", b"## Content\n\nnew\n"),
        (b"old", b"new"),
    ] {
        let doc = parse_as(old, DocumentKind::Bookmark).unwrap();
        let source = splice_body(&doc, body).unwrap();
        let after = parse_as(&source, DocumentKind::Bookmark).unwrap();
        assert_eq!(after.body_bytes(), body, "{old:?}");
        assert_eq!(after.title(), doc.title(), "{old:?}");
        assert_eq!(after.url(), doc.url(), "{old:?}");
        assert_eq!(after.tags(), doc.tags(), "{old:?}");
    }
    // A body without a heading before the tags is not read as one.
    let old = b"<http://x>\n\n## Content\n\nold\n\n## Tags\n\n#a\n";
    let doc = parse_as(old, DocumentKind::Bookmark).unwrap();
    let source = splice_body(&doc, b"new\n").unwrap();
    let after = parse_as(&source, DocumentKind::Bookmark).unwrap();
    assert_eq!(after.body_bytes(), b"");
}

#[test]
fn body_fragments_stand_in_order() {
    let source = b"# T\n\n<http://x>\n\n## Content\n\na\n\n## Tags\n\n#t\n\n## Other\n\nb\n";
    let doc = parse_as(source, DocumentKind::Bookmark).unwrap();
    let ranges = doc.body_ranges();
    assert_eq!(ranges.len(), 2);
    assert!(ranges[0].start < ranges[0].end && ranges[0].end <= ranges[1].start);
    assert_eq!(ranges[1].end, source.len());
    let doc = note(b"# T\n\n\n  body\n\nmore");
    assert_eq!(doc.body(), vec![&b"  body\n\nmore"[..]]);
}

#[test]
fn hits_are_the_matches_of_their_lines() {
    let body = b"aab a\r\naa\r\n";
    let hits = search_lines(body, b"a").unwrap();
    let places: Vec<_> = hits.iter().map(|h| (h.number, h.start_byte, h.end_byte)).collect();
    assert_eq!(places, vec![(1, 0, 1), (1, 1, 2), (1, 4, 5), (2, 0, 1), (2, 1, 2)]);
    let lines = document_lines(body).2;
    assert!(hits.iter().all(|h| h.anchor == lines[h.number as usize - 1].anchor));
    assert_eq!(search_lines(body, b"\r\naa"), Ok(vec![]));
    assert_eq!(search_lines(body, b""), Err(NbError::EmptySubstringPattern));
}
