use qso_sidecar::call_history::{parse, parse_text, split_fields, state_warning, HistoryError};
use qso_sidecar::time::{contest_start, Timestamp};

/// Columns in another order than usual, a row of another length, a row without a callsign.
const HISTORY: &[u8] = b"# NAQP call history\r\n!!Order!!,Name,State,Call,UserText\r\nHiram,CT,W1AW,club\r\nYuri,ON,VE3EJ\r\nHans,DX,DL1ABC,\r\nNobody,MA,??,none\r\n";

fn imported_at() -> Timestamp {
    contest_start().earlier_by(3600)
}

#[test]
fn imports_reordered_named_columns_and_reports_bad_rows() {
    let import = parse(HISTORY, imported_at()).unwrap();

    assert_eq!(import.diagnostics.rows_seen, 4);
    assert_eq!(import.diagnostics.imported, 3);
    assert_eq!(import.diagnostics.skipped, 1);
    assert!(import.diagnostics.warnings.len() >= 2);
    assert_eq!(import.entries.len(), 3);
    let w1aw = import.entries.get("W1AW").unwrap();
    assert_eq!(w1aw.name.as_deref(), Some("Hiram"));
    assert_eq!(w1aw.location.as_deref(), Some("CT"));
    assert_eq!(
        import.entries.get("VE3EJ").unwrap().location.as_deref(),
        Some("ON")
    );
    assert_eq!(
        import.entries.get("DL1ABC").unwrap().location.as_deref(),
        Some("DX")
    );
}

#[test]
fn accepts_semicolon_delimiters_and_case_insensitive_headers() {
    let import = parse(
        b"!!order!!;STATE;NAME;CALL;IGNORED\nca;Ken;n6ro;x\n",
        imported_at(),
    )
    .unwrap();
    assert_eq!(
        import.entries.get("N6RO").unwrap().location.as_deref(),
        Some("CA")
    );
}

#[test]
fn requires_a_named_call_column() {
    let error = parse(b"!!Order!!,Name,State\nAl,CT\n", imported_at())
        .err()
        .unwrap();
    assert!(error.message().contains("Call column"));
}

#[test]
fn every_refusal_of_a_history_names_its_line() {
    let refused = |file: &[u8]| parse(file, imported_at()).err().unwrap();
    assert!(matches!(
        refused(b"!!Order!!,Name,State\n"),
        HistoryError::NoCallColumn(1)
    ));
    assert_eq!(
        refused(b"\n!!Order!!,Name,State\n").message(),
        "line 2: !!Order!! header must include a Call column"
    );
    assert_eq!(
        refused(b"W1AW,Hiram,CT\n").message(),
        "line 1: data appears before an !!Order!! header"
    );
    let malformed = refused(b"#\n#\n!!Order!!,Call,\"Name\n");
    assert!(matches!(malformed, HistoryError::MalformedHeader(3)));
    assert!(malformed
        .message()
        .starts_with("line 3: malformed !!Order!! header"));
    assert_eq!(refused(b"# nothing\n").message(), "missing !!Order!! header");
    let unreadable = refused(b"!!Order!!,Call\n\xff\n");
    assert!(matches!(unreadable, HistoryError::NotText(_)));
    let why = std::str::from_utf8(b"!!Order!!,Call\n\xff\n").unwrap_err();
    assert_eq!(
        unreadable.message(),
        format!("call history must be UTF-8 text: {why}")
    );
}

#[test]
fn warnings_say_what_was_done_with_a_row() {
    let import = parse(
        "\u{feff}!!Order!!,Call,Name,State\n!!Comment!!\nW1AW,Hiram,\"X\"\"Y\"\nW1AW,Hiram,CT\nK1ABC,\"Bob\n"
            .as_bytes(),
        imported_at(),
    )
    .unwrap();
    assert_eq!(import.diagnostics.rows_seen, 3);
    assert_eq!(import.diagnostics.imported, 2);
    assert_eq!(import.diagnostics.skipped, 1);
    assert_eq!(import.entries.len(), 1);
    assert_eq!(
        import.entries.get("W1AW").unwrap().location.as_deref(),
        Some("CT")
    );
    assert_eq!(
        import.diagnostics.warnings,
        vec![
            "Line 3: unrecognized NAQP State value \"X\\\"Y\"; imported without a location prediction",
            "Line 4: duplicate W1AW; the later row was used",
            "Line 5: malformed row: unterminated quoted field",
        ]
    );
    assert!(import.entries.get("W1AW").unwrap().imported_at == imported_at());
}

#[test]
fn no_more_than_fifty_history_warnings_are_kept() {
    let mut file = "!!Order!!,Call\n".to_string();
    for _ in 0..60 {
        file.push_str("??\n");
    }
    let import = parse(file.as_bytes(), imported_at()).unwrap();
    assert_eq!(import.diagnostics.skipped, 60);
    assert_eq!(import.diagnostics.warnings.len(), 50);
}

#[test]
fn quoted_fields_keep_their_delimiters() {
    assert_eq!(
        split_fields("a,\"b,c\",\"d\"\"e\",", ',').unwrap(),
        vec!["a", "b,c", "d\"e", ""]
    );
    assert!(split_fields("a,\"b", ',').is_none());
}

#[test]
fn texts_are_imported_as_files_are() {
    let import = parse_text("!!Order!!,Call,State\nW1AW,ct\n", imported_at()).unwrap();
    assert_eq!(
        import.entries.get("W1AW").unwrap().location.as_deref(),
        Some("CT")
    );
    assert_eq!(
        state_warning(7, "'x'"),
        "Line 7: unrecognized NAQP State value 'x'; imported without a location prediction"
    );
}
