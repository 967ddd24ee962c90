use sshdconfig::engine::set_text;
use sshdconfig::error::{ConfigError, ParseReason};
use sshdconfig::json::{JsonValue, Member};
use sshdconfig::model::{ConfigDocument, Directive, Ensure, MatchBlock, Value};
use sshdconfig::parser::parse;
use sshdconfig::serializer::from_json;
use sshdconfig::writer::serialize;

fn text(s: &str) -> JsonValue {
    JsonValue::Text(s.as_bytes().to_vec())
}

fn object(members: Vec<(&str, JsonValue)>) -> JsonValue {
    JsonValue::Object(
        members.into_iter().map(|(k, v)| Member { key: k.as_bytes().to_vec(), value: v }).collect(),
    )
}

fn names(list: &[&str]) -> Option<Vec<Vec<u8>>> {
    Some(list.iter().map(|s| s.as_bytes().to_vec()).collect())
}

const CURRENT: &[u8] = b"# sshd\nPort 22\nPort 2222\nPasswordAuthentication yes\nLogLevel INFO\nMatch group administrators\nPasswordAuthentication no\nLogLevel DEBUG\nMatch user bob\nBanner /etc/bob\n";

#[test]
fn get_without_keywords_is_the_whole_document() {
    let doc = parse(CURRENT).unwrap();
    assert_eq!(doc.get(&None).unwrap(), sshdconfig::serializer::to_json(&doc));
}

#[test]
fn get_with_keywords_keeps_the_match_structure() {
    let doc = parse(CURRENT).unwrap();
    assert_eq!(
        doc.get(&names(&["LogLevel", "port"])).unwrap(),
        object(vec![
            ("port", JsonValue::Array(vec![text("22"), text("2222")])),
            ("loglevel", text("INFO")),
            (
                "match",
                object(vec![(
                    "group",
                    JsonValue::Array(vec![object(vec![("criteria", text("administrators")), ("loglevel", text("DEBUG"))])])
                )])
            ),
        ])
    );
}

#[test]
fn get_of_a_keyword_that_is_not_set_is_empty() {
    let doc = parse(CURRENT).unwrap();
    assert_eq!(doc.get(&names(&["hostkey"])).unwrap(), object(vec![]));
    assert_eq!(doc.get(&names(&[])).unwrap(), object(vec![]));
}

#[test]
fn get_unknown_keyword_is_refused() {
    let doc = parse(CURRENT).unwrap();
    assert_eq!(
        doc.get(&names(&["port", "Bogus", "other"])).unwrap_err(),
        ConfigError::UnknownKeyword { keyword: b"bogus".to_vec() }
    );
}

#[test]
fn test_equal_state_has_no_difference() {
    let doc = parse(CURRENT).unwrap();
    let desired = from_json(&object(vec![
        ("loglevel", text("INFO")),
        ("port", JsonValue::Array(vec![text("22"), text("2222")])),
        (
            "match",
            object(vec![(
                "group",
                JsonValue::Array(vec![object(vec![("criteria", text("administrators")), ("loglevel", text("DEBUG"))])]),
            )]),
        ),
    ]))
    .unwrap();
    assert_eq!(doc.test(&desired), (object(vec![]), true));
    assert_eq!(doc.test(&doc), (object(vec![]), true));
    assert_eq!(doc.test(&ConfigDocument::new()), (object(vec![]), true));
}

#[test]
fn test_reports_current_and_desired() {
    let doc = parse(b"PasswordAuthentication yes\n").unwrap();
    let desired = from_json(&object(vec![("passwordauthentication", text("no"))])).unwrap();
    assert_eq!(
        doc.test(&desired),
        (
            object(vec![("passwordauthentication", object(vec![("current", text("yes")), ("desired", text("no"))]))]),
            false
        )
    );
}

#[test]
fn test_missing_keyword_has_null_current() {
    let doc = parse(b"Port 22\n").unwrap();
    let desired = from_json(&object(vec![("loglevel", text("INFO")), ("port", JsonValue::Array(vec![text("22")]))])).unwrap();
    assert_eq!(
        doc.test(&desired),
        (object(vec![("loglevel", object(vec![("current", JsonValue::Null), ("desired", text("INFO"))]))]), false)
    );
}

#[test]
fn test_list_order_counts() {
    let doc = parse(b"Port 22\nPort 2222\n").unwrap();
    let desired = from_json(&object(vec![("port", JsonValue::Array(vec![text("2222"), text("22")]))])).unwrap();
    assert_eq!(doc.test(&desired).1, false);
}

#[test]
fn test_undeclared_keys_are_not_looked_at() {
    let doc = parse(CURRENT).unwrap();
    let desired = from_json(&object(vec![("passwordauthentication", text("yes"))])).unwrap();
    assert_eq!(doc.test(&desired), (object(vec![]), true));
}

fn block(category: &str, criteria: &str, ensure: Option<Ensure>) -> MatchBlock {
    MatchBlock {
        category: category.as_bytes().to_vec(),
        criteria: criteria.as_bytes().to_vec(),
        directives: vec![],
        ensure,
    }
}

#[test]
fn test_blocks_by_ensure_flag() {
    let doc = parse(CURRENT).unwrap();
    let present = ConfigDocument { directives: vec![], blocks: vec![block("user", "bob", Some(Ensure::Present))] };
    assert_eq!(doc.test(&present).1, true);
    let missing = ConfigDocument { directives: vec![], blocks: vec![block("user", "eve", Some(Ensure::Present))] };
    assert_eq!(doc.test(&missing).1, false);
    let absent = ConfigDocument { directives: vec![], blocks: vec![block("user", "bob", Some(Ensure::Absent))] };
    let (diff, met) = doc.test(&absent);
    assert_eq!(met, false);
    assert_eq!(
        diff,
        object(vec![(
            "match",
            object(vec![
                (
                    "current",
                    object(vec![(
                        "user",
                        JsonValue::Array(vec![object(vec![("criteria", text("bob")), ("banner", text("/etc/bob"))])])
                    )])
                ),
                (
                    "desired",
                    object(vec![(
                        "user",
                        JsonValue::Array(vec![object(vec![("criteria", text("bob")), ("_ensure", text("Absent"))])])
                    )])
                ),
            ])
        )])
    );
    let gone = ConfigDocument { directives: vec![], blocks: vec![block("user", "eve", Some(Ensure::Absent))] };
    assert_eq!(doc.test(&gone), (object(vec![]), true));
}

#[test]
fn test_block_directive_differs() {
    let doc = parse(CURRENT).unwrap();
    let desired = from_json(&object(vec![(
        "match",
        object(vec![(
            "group",
            JsonValue::Array(vec![object(vec![("criteria", text("administrators")), ("loglevel", text("INFO"))])]),
        )]),
    )]))
    .unwrap();
    assert_eq!(
        doc.test(&desired),
        (
            object(vec![(
                "match",
                object(vec![
                    (
                        "current",
                        object(vec![(
                            "group",
                            JsonValue::Array(vec![object(vec![
                                ("criteria", text("administrators")),
                                ("passwordauthentication", text("no")),
                                ("loglevel", text("DEBUG")),
                            ])])
                        )])
                    ),
                    (
                        "desired",
                        object(vec![(
                            "group",
                            JsonValue::Array(vec![object(vec![
                                ("criteria", text("administrators")),
                                ("loglevel", text("INFO")),
                            ])])
                        )])
                    ),
                ])
            )]),
            false
        )
    );
}

#[test]
fn test_reports_only_the_blocks_that_are_not_met() {
    let doc = parse(CURRENT).unwrap();
    let desired = ConfigDocument {
        directives: vec![],
        blocks: vec![
            block("user", "bob", Some(Ensure::Present)),
            block("user", "eve", Some(Ensure::Present)),
            block("group", "administrators", None),
            block("user", "eve", Some(Ensure::Absent)),
        ],
    };
    assert_eq!(
        doc.test(&desired),
        (
            object(vec![(
                "match",
                object(vec![
                    ("current", object(vec![])),
                    (
                        "desired",
                        object(vec![(
                            "user",
                            JsonValue::Array(vec![object(vec![("criteria", text("eve")), ("_ensure", text("Present"))])])
                        )])
                    ),
                ])
            )]),
            false
        )
    );
}

#[test]
fn set_scenario_password_authentication() {
    let mut doc = parse(b"PasswordAuthentication yes\n").unwrap();
    let desired = from_json(&object(vec![("passwordauthentication", text("no"))])).unwrap();
    assert_eq!(
        doc.test(&desired),
        (
            object(vec![("passwordauthentication", object(vec![("current", text("yes")), ("desired", text("no"))]))]),
            false
        )
    );
    assert_eq!(doc.set(&desired), true);
    let written = serialize(&doc);
    assert_eq!(written, b"PasswordAuthentication no\n".to_vec());
    let mut again = parse(&written).unwrap();
    assert_eq!(again.set(&desired), false);
    assert_eq!(serialize(&again), written);
    assert_eq!(again.test(&desired), (object(vec![]), true));
}

#[test]
fn set_overwrites_in_place_and_appends() {
    let mut doc = parse(CURRENT).unwrap();
    let desired = from_json(&object(vec![
        ("hostkey", JsonValue::Array(vec![text("/etc/ssh/key")])),
        ("port", JsonValue::Array(vec![text("2200")])),
    ]))
    .unwrap();
    assert_eq!(doc.set(&desired), true);
    assert_eq!(
        serialize(&doc),
        b"Port 2200\nPasswordAuthentication yes\nLogLevel INFO\nHostKey /etc/ssh/key\nMatch group administrators\nPasswordAuthentication no\nLogLevel DEBUG\nMatch user bob\nBanner /etc/bob\n".to_vec()
    );
}

#[test]
fn set_blocks_by_ensure_flag() {
    let mut doc = parse(CURRENT).unwrap();
    let desired = from_json(&object(vec![(
        "match",
        object(vec![
            (
                "group",
                JsonValue::Array(vec![object(vec![
                    ("criteria", text("administrators")),
                    ("loglevel", text("ERROR")),
                    ("_ensure", text("Present")),
                ])]),
            ),
            (
                "user",
                JsonValue::Array(vec![
                    object(vec![("criteria", text("bob")), ("_ensure", text("Absent"))]),
                    object(vec![("criteria", text("eve")), ("passwordauthentication", text("no"))]),
                ]),
            ),
        ]),
    )]))
    .unwrap();
    assert_eq!(doc.set(&desired), true);
    assert_eq!(
        serialize(&doc),
        b"Port 22\nPort 2222\nPasswordAuthentication yes\nLogLevel INFO\nMatch group administrators\nPasswordAuthentication no\nLogLevel ERROR\nMatch user eve\nPasswordAuthentication no\n".to_vec()
    );
    assert_eq!(doc.test(&desired), (object(vec![]), true));
    let before = doc.clone();
    assert_eq!(doc.set(&desired), false);
    assert_eq!(doc, before);
}

#[test]
fn set_removes_every_block_declared_absent() {
    let mut doc = parse(b"Match user bob\nLogLevel INFO\nMatch all\nMatch user bob\nLogLevel DEBUG\n").unwrap();
    let desired = ConfigDocument { directives: vec![], blocks: vec![block("user", "bob", Some(Ensure::Absent))] };
    assert_eq!(doc.set(&desired), true);
    assert_eq!(serialize(&doc), b"Match all\n".to_vec());
    assert_eq!(doc.set(&desired), false);
}

#[test]
fn set_is_idempotent() {
    let desired = from_json(&object(vec![
        ("loglevel", text("DEBUG")),
        ("subsystem", JsonValue::Array(vec![object(vec![("name", text("sftp")), ("value", text("/bin/sftp"))])])),
        (
            "match",
            object(vec![("user", JsonValue::Array(vec![object(vec![("criteria", text("zoe")), ("port", JsonValue::Array(vec![text("22")]))])]))]),
        ),
    ]))
    .unwrap();
    let mut doc = parse(CURRENT).unwrap();
    assert_eq!(doc.set(&desired), true);
    let first = serialize(&doc);
    let mut second = parse(&first).unwrap();
    assert_eq!(second.set(&desired), false);
    assert_eq!(serialize(&second), first);
}

#[test]
fn set_with_an_empty_desired_state_changes_nothing() {
    let mut doc = parse(CURRENT).unwrap();
    let before = doc.clone();
    assert_eq!(doc.set(&ConfigDocument::new()), false);
    assert_eq!(doc, before);
}

#[test]
fn apply_is_what_set_leaves() {
    let desired = from_json(&object(vec![("loglevel", text("DEBUG"))])).unwrap();
    let mut doc = parse(CURRENT).unwrap();
    let applied = doc.clone().apply(&desired);
    doc.set(&desired);
    assert!(applied.same(&doc));
}

#[test]
fn keywords_of_a_document() {
    let doc = parse(CURRENT).unwrap();
    assert_eq!(
        doc.keywords(),
        vec![
            b"port".to_vec(),
            b"passwordauthentication".to_vec(),
            b"loglevel".to_vec(),
            b"passwordauthentication".to_vec(),
            b"loglevel".to_vec(),
            b"banner".to_vec(),
        ]
    );
    assert_eq!(ConfigDocument::new().keywords(), Vec::<Vec<u8>>::new());
}

#[test]
fn get_of_the_keywords_of_a_desired_state() {
    let doc = parse(CURRENT).unwrap();
    let desired = from_json(&object(vec![("loglevel", text("x"))])).unwrap();
    assert_eq!(
        doc.get(&Some(desired.keywords())).unwrap(),
        object(vec![
            ("loglevel", text("INFO")),
            (
                "match",
                object(vec![(
                    "group",
                    JsonValue::Array(vec![object(vec![("criteria", text("administrators")), ("loglevel", text("DEBUG"))])])
                )])
            ),
        ])
    );
}

#[test]
fn set_text_scenario() {
    let desired = from_json(&object(vec![("passwordauthentication", text("no"))])).unwrap();
    let (first, changed) = set_text(b"# policy\nPasswordAuthentication   yes\n", &desired).unwrap();
    assert_eq!(changed, true);
    assert_eq!(first, b"PasswordAuthentication no\n".to_vec());
    let (second, changed) = set_text(&first, &desired).unwrap();
    assert_eq!(changed, false);
    assert_eq!(second, first);
}

#[test]
fn set_text_keeps_a_file_in_the_desired_state_byte_for_byte() {
    let desired = from_json(&object(vec![("loglevel", text("INFO"))])).unwrap();
    let (out, changed) = set_text(CURRENT, &desired).unwrap();
    assert_eq!(changed, false);
    assert_eq!(out, CURRENT.to_vec());
}

#[test]
fn set_text_refuses_a_file_that_does_not_parse() {
    let desired = from_json(&object(vec![("loglevel", text("INFO"))])).unwrap();
    assert_eq!(
        set_text(b"Port 22\nLogLevel\n", &desired).unwrap_err(),
        ConfigError::Parse { line: 2, reason: ParseReason::MissingValue }
    );
}

#[test]
fn set_text_twice_is_set_text_once() {
    let desired = from_json(&object(vec![
        ("port", JsonValue::Array(vec![text("2200"), text("2201")])),
        ("banner", text("/etc/issue")),
        (
            "match",
            object(vec![(
                "user",
                JsonValue::Array(vec![
                    object(vec![("criteria", text("bob")), ("_ensure", text("Absent"))]),
                    object(vec![("criteria", text("amy")), ("loglevel", text("DEBUG"))]),
                ]),
            )]),
        ),
    ]))
    .unwrap();
    let (first, changed) = set_text(CURRENT, &desired).unwrap();
    assert_eq!(changed, true);
    assert_eq!(
        first,
        b"Port 2200\nPort 2201\nPasswordAuthentication yes\nLogLevel INFO\nBanner /etc/issue\nMatch group administrators\nPasswordAuthentication no\nLogLevel DEBUG\nMatch user amy\nLogLevel DEBUG\n".to_vec()
    );
    assert_eq!(set_text(&first, &desired).unwrap(), (first.clone(), false));
}

#[test]
fn documents_from_the_readers_are_well_formed() {
    assert!(parse(CURRENT).unwrap().is_well_formed());
    assert!(ConfigDocument::new().is_well_formed());
    let desired = from_json(&object(vec![("loglevel", text("DEBUG"))])).unwrap();
    assert!(desired.is_well_formed());
    let mut doc = parse(CURRENT).unwrap();
    doc.set(&desired);
    assert!(doc.is_well_formed());
}

#[test]
fn documents_made_by_hand_may_be_ill_formed() {
    let d = |kw: &str, v: Value| Directive { keyword: kw.as_bytes().to_vec(), value: v };
    let doc = |ds: Vec<Directive>| ConfigDocument { directives: ds, blocks: vec![] };
    assert!(doc(vec![d("loglevel", Value::Scalar(b"INFO".to_vec()))]).is_well_formed());
    assert!(!doc(vec![d("LogLevel", Value::Scalar(b"INFO".to_vec()))]).is_well_formed());
    assert!(!doc(vec![d("bogus", Value::Scalar(b"INFO".to_vec()))]).is_well_formed());
    assert!(!doc(vec![d("loglevel", Value::Scalar(b"INFO\nPort 1".to_vec()))]).is_well_formed());
    assert!(!doc(vec![d("loglevel", Value::List(vec![b"INFO".to_vec()]))]).is_well_formed());
    assert!(!doc(vec![d("port", Value::List(vec![]))]).is_well_formed());
    assert!(!doc(vec![d("port", Value::List(vec![b"0".to_vec()]))]).is_well_formed());
    assert!(!doc(vec![
        d("loglevel", Value::Scalar(b"INFO".to_vec())),
        d("banner", Value::Scalar(b"/x".to_vec())),
        d("loglevel", Value::Scalar(b"INFO".to_vec())),
    ])
    .is_well_formed());
    let blocks = |category: &str, criteria: &str| ConfigDocument {
        directives: vec![],
        blocks: vec![block(category, criteria, None)],
    };
    assert!(blocks("user", "bob").is_well_formed());
    assert!(blocks("all", "").is_well_formed());
    assert!(!blocks("User", "bob").is_well_formed());
    assert!(!blocks("", "bob").is_well_formed());
    assert!(!blocks("user", " bob").is_well_formed());
}

fn twice_declared() -> ConfigDocument {
    from_json(&object(vec![(
        "match",
        object(vec![(
            "g",
            JsonValue::Array(vec![
                object(vec![("criteria", text("A")), ("_ensure", text("Absent"))]),
                object(vec![("criteria", text("A")), ("_ensure", text("Present"))]),
                object(vec![("criteria", text("B"))]),
            ]),
        )]),
    )]))
    .unwrap()
}

#[test]
fn set_text_with_a_block_declared_twice_is_idempotent() {
    let desired = twice_declared();
    let (first, changed) = set_text(b"", &desired).unwrap();
    assert_eq!(changed, true);
    assert_eq!(first, b"Match g B\n".to_vec());
    assert_eq!(set_text(&first, &desired).unwrap(), (first.clone(), false));
    let (first, changed) = set_text(b"Match g A\nLogLevel INFO\nMatch g C\n", &desired).unwrap();
    assert_eq!(changed, true);
    assert_eq!(first, b"Match g C\nMatch g B\n".to_vec());
    assert_eq!(set_text(&first, &desired).unwrap(), (first.clone(), false));
}

#[test]
fn a_block_declared_twice_counts_as_declared_first() {
    let desired = twice_declared();
    let mut doc = parse(b"Match g A\n").unwrap();
    assert_eq!(doc.test(&desired).1, false);
    assert_eq!(doc.set(&desired), true);
    assert_eq!(serialize(&doc), b"Match g B\n".to_vec());
    assert_eq!(doc.test(&desired), (object(vec![]), true));
    assert_eq!(doc.set(&desired), false);
}

#[test]
fn set_with_a_block_declared_twice_as_present() {
    let desired = parse(b"Match user bob\nLogLevel INFO\nMatch all\nMatch user bob\nLogLevel DEBUG\nBanner /b\n").unwrap();
    let mut doc = parse(b"Port 22\n").unwrap();
    assert_eq!(doc.set(&desired), true);
    assert_eq!(serialize(&doc), b"Port 22\nMatch user bob\nLogLevel INFO\nMatch all\n".to_vec());
    assert_eq!(doc.test(&desired), (object(vec![]), true));
    let written = serialize(&doc);
    assert_eq!(set_text(&written, &desired).unwrap(), (written.clone(), false));
}

#[test]
fn set_reaches_the_desired_state() {
    let desired = from_json(&object(vec![
        ("port", JsonValue::Array(vec![text("2200")])),
        (
            "match",
            object(vec![(
                "user",
                JsonValue::Array(vec![
                    object(vec![("criteria", text("bob")), ("_ensure", text("Absent"))]),
                    object(vec![("criteria", text("amy")), ("loglevel", text("DEBUG"))]),
                ]),
            )]),
        ),
    ]))
    .unwrap();
    let mut doc = parse(CURRENT).unwrap();
    assert_eq!(doc.test(&desired).1, false);
    doc.set(&desired);
    assert_eq!(doc.test(&desired), (object(vec![]), true));
}
