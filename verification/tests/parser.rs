use sshdconfig::error::{ConfigError, ParseReason};
use sshdconfig::model::{ConfigDocument, Directive, MatchBlock, NamedValue, Value};
use sshdconfig::parser::{parse, parse_located};
use sshdconfig::registry::ValidationReason;
use sshdconfig::writer::serialize;

fn scalar(kw: &[u8], v: &[u8]) -> Directive {
    Directive { keyword: kw.to_vec(), value: Value::Scalar(v.to_vec()) }
}

fn list(kw: &[u8], vs: &[&[u8]]) -> Directive {
    Directive { keyword: kw.to_vec(), value: Value::List(vs.iter().map(|v| v.to_vec()).collect()) }
}

#[test]
fn parse_empty_text() {
    assert_eq!(parse(b"").unwrap(), ConfigDocument { directives: vec![], blocks: vec![] });
}

#[test]
fn parse_skips_comments_and_blank_lines() {
    let doc = parse(b"# a comment\n\n   \n  # indented comment\nPasswordAuthentication yes\n").unwrap();
    assert_eq!(doc.directives, vec![scalar(b"passwordauthentication", b"yes")]);
    assert!(doc.blocks.is_empty());
}

#[test]
fn parse_canonicalizes_keyword_case() {
    let doc = parse(b"PASSWORDauthentication   No  \r\n").unwrap();
    assert_eq!(doc.directives, vec![scalar(b"passwordauthentication", b"No")]);
}

#[test]
fn parse_repeated_list_keyword_keeps_order() {
    let doc = parse(b"Port 22\nPort 2222\n").unwrap();
    assert_eq!(doc.directives, vec![list(b"port", &[b"22", b"2222"])]);
    let doc = parse(b"Port 2222\nLogLevel INFO\nPort 22\nPort 2222\n").unwrap();
    assert_eq!(
        doc.directives,
        vec![list(b"port", &[b"2222", b"22", b"2222"]), scalar(b"loglevel", b"INFO")]
    );
}

#[test]
fn parse_object_list() {
    let doc = parse(b"Subsystem sftp /usr/lib/sftp-server -l INFO\nSubsystem powershell pwsh.exe\n").unwrap();
    assert_eq!(
        doc.directives,
        vec![Directive {
            keyword: b"subsystem".to_vec(),
            value: Value::ObjectList(vec![
                NamedValue { name: b"sftp".to_vec(), value: b"/usr/lib/sftp-server -l INFO".to_vec() },
                NamedValue { name: b"powershell".to_vec(), value: b"pwsh.exe".to_vec() },
            ]) }]
    );
}

#[test]
fn parse_repeatable_scalar_is_overwritten() {
    let doc = parse(b"Banner /etc/a\nLogLevel INFO\nBanner /etc/b\n").unwrap();
    assert_eq!(doc.directives, vec![scalar(b"banner", b"/etc/b"), scalar(b"loglevel", b"INFO")]);
}

#[test]
fn parse_match_block_scoping() {
    let text = b"PasswordAuthentication yes\nMatch Group administrators\n  PasswordAuthentication no\nMatch User bob\nPermitRootLogin no\n";
    let doc = parse(text).unwrap();
    assert_eq!(doc.directives, vec![scalar(b"passwordauthentication", b"yes")]);
    assert_eq!(
        doc.blocks,
        vec![
            MatchBlock {
                category: b"group".to_vec(),
                criteria: b"administrators".to_vec(),
                directives: vec![scalar(b"passwordauthentication", b"no")],
                ensure: None,
            },
            MatchBlock {
                category: b"user".to_vec(),
                criteria: b"bob".to_vec(),
                directives: vec![scalar(b"permitrootlogin", b"no")],
                ensure: None,
            },
        ]
    );
}

#[test]
fn parse_match_block_closed_by_end_of_input() {
    let doc = parse(b"Match group administrators\nPort 22").unwrap();
    assert!(doc.directives.is_empty());
    assert_eq!(doc.blocks.len(), 1);
    assert_eq!(doc.blocks[0].directives, vec![list(b"port", &[b"22"])]);
}

#[test]
fn parse_match_all_has_no_criteria() {
    let doc = parse(b"Match all\n").unwrap();
    assert_eq!(doc.blocks[0].category, b"all".to_vec());
    assert_eq!(doc.blocks[0].criteria, Vec::<u8>::new());
    assert!(doc.blocks[0].directives.is_empty());
}

#[test]
fn parse_same_keyword_in_two_scopes() {
    let doc = parse(b"LogLevel INFO\nMatch user bob\nLogLevel DEBUG\n").unwrap();
    assert_eq!(doc.directives, vec![scalar(b"loglevel", b"INFO")]);
    assert_eq!(doc.blocks[0].directives, vec![scalar(b"loglevel", b"DEBUG")]);
}

#[test]
fn parse_unknown_keyword_is_refused() {
    assert_eq!(
        parse(b"Port 22\nNoSuchThing 1\n").unwrap_err(),
        ConfigError::UnknownKeyword { keyword: b"nosuchthing".to_vec() }
    );
}

#[test]
fn parse_missing_value() {
    assert_eq!(
        parse(b"\nPort\n").unwrap_err(),
        ConfigError::Parse { line: 2, reason: ParseReason::MissingValue }
    );
    assert_eq!(
        parse(b"Match\n").unwrap_err(),
        ConfigError::Parse { line: 1, reason: ParseReason::MissingValue }
    );
}

#[test]
fn parse_missing_object_value() {
    assert_eq!(
        parse(b"Port 22\nPort 23\nSubsystem sftp\n").unwrap_err(),
        ConfigError::Parse { line: 3, reason: ParseReason::MissingObjectValue }
    );
}

#[test]
fn parse_duplicate_scalar() {
    assert_eq!(
        parse(b"LogLevel INFO\nloglevel DEBUG\n").unwrap_err(),
        ConfigError::Parse { line: 2, reason: ParseReason::DuplicateKeyword }
    );
}

#[test]
fn parse_port_out_of_range() {
    assert_eq!(
        parse(b"Port 99999\n").unwrap_err(),
        ConfigError::Validation { keyword: b"port".to_vec(), reason: ValidationReason::OutOfRange }
    );
    assert_eq!(
        parse(b"Port ssh\n").unwrap_err(),
        ConfigError::Validation { keyword: b"port".to_vec(), reason: ValidationReason::NotANumber }
    );
    assert_eq!(
        parse(b"PasswordAuthentication perhaps\n").unwrap_err(),
        ConfigError::Validation {
            keyword: b"passwordauthentication".to_vec(),
            reason: ValidationReason::NotYesNo
        }
    );
}

#[test]
fn parse_first_error_wins() {
    assert_eq!(
        parse(b"Port 0\nBogus x\n").unwrap_err(),
        ConfigError::Validation { keyword: b"port".to_vec(), reason: ValidationReason::OutOfRange }
    );
}

#[test]
fn serialize_writes_one_value_per_line() {
    let doc = parse(b"port 22\n# note\nport 2222\nsubsystem sftp /bin/sftp\npasswordauthentication yes\nMatch GROUP administrators\nloglevel DEBUG\nMatch all\n").unwrap();
    assert_eq!(
        serialize(&doc),
        b"Port 22\nPort 2222\nSubsystem sftp /bin/sftp\nPasswordAuthentication yes\nMatch group administrators\nLogLevel DEBUG\nMatch all\n".to_vec()
    );
}

#[test]
fn serialize_empty_document() {
    assert_eq!(serialize(&ConfigDocument::new()), Vec::<u8>::new());
}

#[test]
fn parse_of_serialize_gives_the_document_back() {
    let doc = parse(b"Port 22\nPort 2222\nSubsystem sftp /bin/sftp -f AUTH\nBanner /etc/issue\nMatch user bob\nPasswordAuthentication no\nPort 2200\nMatch all\nMatch group a,b\nLogLevel INFO\n").unwrap();
    let again = parse(&serialize(&doc)).unwrap();
    assert!(again.same(&doc));
    assert_eq!(serialize(&again), serialize(&doc));
}

#[test]
fn serialize_of_parse_drops_comments_and_spacing() {
    let doc = parse(b"  # head\n\nPORT    22  \n").unwrap();
    assert_eq!(serialize(&doc), b"Port 22\n".to_vec());
}

#[test]
fn parse_located_names_the_refused_line() {
    assert_eq!(
        parse_located(b"Port 22\n# note\n\nPort 99999\nBogus 1\n").unwrap_err(),
        (4, ConfigError::Validation { keyword: b"port".to_vec(), reason: ValidationReason::OutOfRange })
    );
    assert_eq!(
        parse_located(b"Port 22\nMatch user bob\nNoSuchThing x").unwrap_err(),
        (3, ConfigError::UnknownKeyword { keyword: b"nosuchthing".to_vec() })
    );
    assert_eq!(
        parse_located(b"LogLevel").unwrap_err(),
        (1, ConfigError::Parse { line: 1, reason: ParseReason::MissingValue })
    );
}

#[test]
fn parse_located_is_parse_where_nothing_is_refused() {
    let text = b"Port 22\nMatch user bob\nLogLevel INFO\n";
    assert_eq!(parse_located(text).unwrap(), parse(text).unwrap());
    assert_eq!(parse_located(b"").unwrap(), ConfigDocument::new());
}
