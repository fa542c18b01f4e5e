use nwtzui::protocol::{
    button_message, document_kind, ends_with, DocumentKind, classify_document_line, classify_message, credential_document,
    execution_failure_message, load_failure_message, log_message, parse_credential,
    password_message, trim, ui_button_message, LineKind,
};

#[test]
fn credential_line_google() {
    match classify_document_line("[PWD] Google::SuperPassword") {
        LineKind::Credential { service, secret } => {
            assert_eq!(service, "Google");
            assert_eq!(secret, "SuperPassword");
        }
        other => panic!("unexpected {:?}", other),
    }
}

#[test]
fn credential_fields_are_trimmed() {
    let (service, secret) = parse_credential("  Mail \t:: s3cret  ");
    assert_eq!(service, "Mail");
    assert_eq!(secret, "s3cret");
}

#[test]
fn credential_without_separator_has_empty_secret() {
    let (service, secret) = parse_credential(" Google SuperPassword ");
    assert_eq!(service, "Google SuperPassword");
    assert_eq!(secret, "");
}

#[test]
fn credential_splits_at_first_separator() {
    let (service, secret) = parse_credential("a::b::c");
    assert_eq!(service, "a");
    assert_eq!(secret, "b::c");
}

#[test]
fn document_line_without_tag_is_plain() {
    match classify_document_line("just text") {
        LineKind::Plain(t) => assert_eq!(t, "just text"),
        other => panic!("unexpected {:?}", other),
    }
}

#[test]
fn credential_document_lines() {
    let lines = credential_document("title\n[PWD] A::x\n[PWD]B");
    assert_eq!(lines.len(), 3);
    assert!(matches!(&lines[0], LineKind::Plain(t) if t == "title"));
    assert!(
        matches!(&lines[1], LineKind::Credential { service, secret } if service == "A" && secret == "x")
    );
    assert!(
        matches!(&lines[2], LineKind::Credential { service, secret } if service == "B" && secret.is_empty())
    );
}

#[test]
fn messages_decode_by_tag() {
    assert!(matches!(classify_message("[PWD] GLOBAL::pw"),
        LineKind::Credential { service, secret } if service == "GLOBAL" && secret == "pw"));
    assert!(matches!(classify_message("[BTN] Go"), LineKind::Highlight(t) if t == "Go"));
    assert!(matches!(classify_message("[b] Go"), LineKind::Plain(t) if t == "[b] Go"));
    assert!(matches!(classify_message("[PWD]x"), LineKind::Plain(t) if t == "[PWD]x"));
}

#[test]
fn host_messages() {
    assert_eq!(log_message("a"), "a");
    assert_eq!(button_message("ok"), "[b] ok");
    assert_eq!(ui_button_message("ok"), "[BTN] ok");
    assert_eq!(
        password_message(&vec!["GLOBAL".to_string(), "pw".to_string()]),
        Some("[PWD] GLOBAL::pw".to_string())
    );
    assert_eq!(password_message(&vec!["GLOBAL".to_string()]), None);
    assert_eq!(
        password_message(&vec!["a".to_string(), "b".to_string(), "c".to_string()]),
        None
    );
    assert_eq!(load_failure_message("s.nwtz!", "Chemin vide"), "Erreur chargement s.nwtz!: Chemin vide");
    assert_eq!(execution_failure_message("panic"), "Execution failed: panic");
}

#[test]
fn password_message_round_trip() {
    let m = password_message(&vec!["Google01".to_string(), "secret".to_string()]).unwrap();
    assert!(matches!(classify_message(&m),
        LineKind::Credential { service, secret } if service == "Google01" && secret == "secret"));
}

#[test]
fn trim_unicode_space() {
    assert_eq!(trim("\u{3000} a b\u{a0}\n"), "a b");
    assert_eq!(trim("   "), "");
    assert_eq!(trim(""), "");
}

#[test]
fn document_kind_by_suffix() {
    assert_eq!(document_kind("password.pwd"), DocumentKind::Credentials);
    assert_eq!(document_kind("password.nwtz!"), DocumentKind::Script);
    assert_eq!(document_kind("Welcome.md"), DocumentKind::Text);
    assert_eq!(document_kind(".pwd"), DocumentKind::Credentials);
    assert_eq!(document_kind("pwd"), DocumentKind::Text);
    assert_eq!(document_kind("a.pwd.txt"), DocumentKind::Text);
}

#[test]
fn suffix_check() {
    assert!(ends_with("abc", "bc"));
    assert!(ends_with("abc", ""));
    assert!(!ends_with("bc", "abc"));
    assert!(!ends_with("abc", "ab"));
}
