use sshdconfig::error::{ConfigError, SerializationReason};
use sshdconfig::json::{JsonValue, Member};
use sshdconfig::model::{ConfigDocument, Directive, Ensure, MatchBlock, NamedValue, Value};
use sshdconfig::parser::parse;
use sshdconfig::registry::{KeywordSpec, ValidationReason, Validator, ValueKind};
use sshdconfig::serializer::{from_json, to_json, value_from_json};

fn text(s: &str) -> JsonValue {
    JsonValue::Text(s.as_bytes().to_vec())
}

fn object(members: Vec<(&str, JsonValue)>) -> JsonValue {
    JsonValue::Object(
        members.into_iter().map(|(k, v)| Member { key: k.as_bytes().to_vec(), value: v }).collect(),
    )
}

fn convert(v: &serde_json::Value) -> JsonValue {
    match v {
        serde_json::Value::Null => JsonValue::Null,
        serde_json::Value::Bool(b) => JsonValue::Bool(*b),
        serde_json::Value::Number(n) => JsonValue::Number(n.to_string().into_bytes()),
        serde_json::Value::String(s) => JsonValue::Text(s.clone().into_bytes()),
        serde_json::Value::Array(items) => JsonValue::Array(items.iter().map(convert).collect()),
        serde_json::Value::Object(map) => JsonValue::Object(
            map.iter().map(|(k, v)| Member { key: k.clone().into_bytes(), value: convert(v) }).collect(),
        ),
    }
}

// mainly an example at this point
#[test]
fn test_config() {
    let input_json: &str = r#"
    {
        "passwordauthentication": "Yes",
        "syslogfacility": "INFO",
        "subsystem": [
            {
                "name": "powershell",
                "value": "pwsh.exe"
            }
        ],
        "port": [
            { "value": "24" },
            { "value": "23" }
        ],
        "match": {
            "group": [
                {
                    "criteria": "administrators",
                    "passwordauthentication": "Yes",
                    "_ensure": "Present"
                }
            ]
        }
    }
    "#;
    let parsed: serde_json::Value = serde_json::from_str(input_json).unwrap();
    let config: ConfigDocument = from_json(&convert(&parsed)).unwrap();
    let json = to_json(&config);
    assert_eq!(from_json(&json).unwrap(), config);
    let port = config.directives.iter().find(|d| d.keyword == b"port".to_vec()).unwrap();
    assert_eq!(port.value, Value::List(vec![b"24".to_vec(), b"23".to_vec()]));
    assert_eq!(config.blocks.len(), 1);
    assert_eq!(config.blocks[0].category, b"group".to_vec());
    assert_eq!(config.blocks[0].criteria, b"administrators".to_vec());
    assert_eq!(config.blocks[0].ensure, Some(Ensure::Present));
}

#[test]
fn to_json_repeated_keyword_is_an_array_in_order() {
    let doc = parse(b"Port 22\nPort 2222\n").unwrap();
    assert_eq!(
        to_json(&doc),
        object(vec![("port", JsonValue::Array(vec![text("22"), text("2222")]))])
    );
    let doc = parse(b"Port 2222\nPort 22\nPort 2222\n").unwrap();
    assert_eq!(
        to_json(&doc),
        object(vec![("port", JsonValue::Array(vec![text("2222"), text("22"), text("2222")]))])
    );
}

#[test]
fn to_json_shapes() {
    let doc = parse(b"PasswordAuthentication yes\nSubsystem sftp /bin/sftp\n").unwrap();
    assert_eq!(
        to_json(&doc),
        object(vec![
            ("passwordauthentication", text("yes")),
            (
                "subsystem",
                JsonValue::Array(vec![object(vec![("name", text("sftp")), ("value", text("/bin/sftp"))])])
            ),
        ])
    );
    assert_eq!(to_json(&ConfigDocument::new()), object(vec![]));
}

#[test]
fn to_json_groups_blocks_by_category() {
    let doc = parse(b"Match group a\nLogLevel INFO\nMatch user bob\nMatch group b\nPort 22\n").unwrap();
    assert_eq!(
        to_json(&doc),
        object(vec![(
            "match",
            object(vec![
                (
                    "group",
                    JsonValue::Array(vec![
                        object(vec![("criteria", text("a")), ("loglevel", text("INFO"))]),
                        object(vec![("criteria", text("b")), ("port", JsonValue::Array(vec![text("22")]))]),
                    ])
                ),
                ("user", JsonValue::Array(vec![object(vec![("criteria", text("bob"))])])),
            ])
        )])
    );
}

#[test]
fn to_json_writes_the_ensure_flag_last() {
    let doc = ConfigDocument {
        directives: vec![],
        blocks: vec![MatchBlock {
            category: b"user".to_vec(),
            criteria: b"bob".to_vec(),
            directives: vec![Directive {
                keyword: b"loglevel".to_vec(),
                value: Value::Scalar(b"INFO".to_vec()) }],
            ensure: Some(Ensure::Absent),
        }],
    };
    assert_eq!(
        to_json(&doc),
        object(vec![(
            "match",
            object(vec![(
                "user",
                JsonValue::Array(vec![object(vec![
                    ("criteria", text("bob")),
                    ("loglevel", text("INFO")),
                    ("_ensure", text("Absent")),
                ])])
            )])
        )])
    );
}

#[test]
fn from_json_of_to_json_gives_the_document_back() {
    let doc = parse(b"Port 22\nPort 2222\nSubsystem sftp /bin/sftp -f AUTH\nBanner /etc/issue\nMatch user bob\nPasswordAuthentication no\nMatch user alice\nPort 2200\nMatch all\nMatch group a,b\nLogLevel INFO\n").unwrap();
    let json = to_json(&doc);
    let back = from_json(&json).unwrap();
    assert!(back.same(&doc));
    assert_eq!(to_json(&back), json);
}

#[test]
fn from_json_accepts_members_in_any_order() {
    let j = object(vec![(
        "match",
        object(vec![(
            "group",
            JsonValue::Array(vec![object(vec![
                ("_ensure", text("Present")),
                ("loglevel", text("INFO")),
                ("criteria", text("admins")),
            ])]),
        )]),
    )]);
    let doc = from_json(&j).unwrap();
    assert_eq!(
        doc.blocks,
        vec![MatchBlock {
            category: b"group".to_vec(),
            criteria: b"admins".to_vec(),
            directives: vec![Directive {
                keyword: b"loglevel".to_vec(),
                value: Value::Scalar(b"INFO".to_vec()) }],
            ensure: Some(Ensure::Present),
        }]
    );
    let pair = object(vec![(
        "subsystem",
        JsonValue::Array(vec![object(vec![("value", text("/bin/sftp")), ("name", text("sftp"))])]),
    )]);
    assert_eq!(
        from_json(&pair).unwrap().directives[0].value,
        Value::ObjectList(vec![NamedValue { name: b"sftp".to_vec(), value: b"/bin/sftp".to_vec() }])
    );
}

#[test]
fn from_json_folds_the_case_of_keys() {
    let doc = from_json(&object(vec![("PasswordAuthentication", text("no"))])).unwrap();
    assert_eq!(doc.directives[0].keyword, b"passwordauthentication".to_vec());
}

fn refused(j: JsonValue) -> ConfigError {
    from_json(&j).unwrap_err()
}

fn schema(reason: SerializationReason) -> ConfigError {
    ConfigError::Serialization { reason }
}

#[test]
fn from_json_root_must_be_an_object() {
    assert_eq!(refused(JsonValue::Array(vec![])), schema(SerializationReason::RootNotObject));
    assert_eq!(refused(JsonValue::Null), schema(SerializationReason::RootNotObject));
    assert_eq!(refused(text("x")), schema(SerializationReason::RootNotObject));
}

#[test]
fn from_json_unknown_keyword() {
    assert_eq!(
        refused(object(vec![("nosuchthing", text("x"))])),
        ConfigError::UnknownKeyword { keyword: b"nosuchthing".to_vec() }
    );
}

#[test]
fn from_json_duplicate_key() {
    assert_eq!(
        refused(object(vec![("loglevel", text("INFO")), ("LogLevel", text("DEBUG"))])),
        schema(SerializationReason::DuplicateKey)
    );
}

#[test]
fn from_json_value_shape() {
    assert_eq!(refused(object(vec![("loglevel", JsonValue::Bool(true))])), schema(SerializationReason::ValueShape));
    assert_eq!(refused(object(vec![("port", text("22"))])), schema(SerializationReason::ValueShape));
    assert_eq!(
        refused(object(vec![("port", JsonValue::Array(vec![JsonValue::Number(b"22".to_vec())]))])),
        schema(SerializationReason::ValueShape)
    );
    assert_eq!(
        refused(object(vec![("subsystem", JsonValue::Array(vec![text("sftp")]))])),
        schema(SerializationReason::ValueShape)
    );
    assert_eq!(
        refused(object(vec![("subsystem", JsonValue::Array(vec![object(vec![("name", text("sftp"))])]))])),
        schema(SerializationReason::ValueShape)
    );
}

#[test]
fn from_json_empty_list() {
    assert_eq!(refused(object(vec![("port", JsonValue::Array(vec![]))])), schema(SerializationReason::EmptyList));
    assert_eq!(
        refused(object(vec![("subsystem", JsonValue::Array(vec![]))])),
        schema(SerializationReason::EmptyList)
    );
}

#[test]
fn from_json_bad_text() {
    assert_eq!(refused(object(vec![("loglevel", text(""))])), schema(SerializationReason::BadText));
    assert_eq!(refused(object(vec![("loglevel", text(" INFO"))])), schema(SerializationReason::BadText));
    assert_eq!(
        refused(object(vec![("loglevel", text("INFO\nPermitRootLogin yes"))])),
        schema(SerializationReason::BadText)
    );
    assert_eq!(
        refused(object(vec![(
            "subsystem",
            JsonValue::Array(vec![object(vec![("name", text("two words")), ("value", text("x"))])])
        )])),
        schema(SerializationReason::BadText)
    );
}

#[test]
fn from_json_validation() {
    assert_eq!(
        refused(object(vec![("port", JsonValue::Array(vec![text("22"), text("99999")]))])),
        ConfigError::Validation { keyword: b"port".to_vec(), reason: ValidationReason::OutOfRange }
    );
}

#[test]
fn from_json_match_shape() {
    assert_eq!(refused(object(vec![("match", JsonValue::Array(vec![]))])), schema(SerializationReason::MatchShape));
    assert_eq!(
        refused(object(vec![("match", object(vec![("group", text("x"))]))])),
        schema(SerializationReason::MatchShape)
    );
    assert_eq!(
        refused(object(vec![("match", object(vec![("group", JsonValue::Array(vec![text("x")]))]))])),
        schema(SerializationReason::MatchShape)
    );
}

#[test]
fn from_json_bad_category() {
    assert_eq!(
        refused(object(vec![("match", object(vec![("Group", JsonValue::Array(vec![]))]))])),
        schema(SerializationReason::BadCategory)
    );
    assert_eq!(
        refused(object(vec![("match", object(vec![("", JsonValue::Array(vec![]))]))])),
        schema(SerializationReason::BadCategory)
    );
}

#[test]
fn from_json_missing_criteria() {
    assert_eq!(
        refused(object(vec![(
            "match",
            object(vec![("group", JsonValue::Array(vec![object(vec![("loglevel", text("INFO"))])]))])
        )])),
        schema(SerializationReason::MissingCriteria)
    );
    assert_eq!(
        refused(object(vec![(
            "match",
            object(vec![("group", JsonValue::Array(vec![object(vec![("criteria", JsonValue::Null)])]))])
        )])),
        schema(SerializationReason::MissingCriteria)
    );
}

#[test]
fn from_json_bad_ensure() {
    assert_eq!(
        refused(object(vec![(
            "match",
            object(vec![(
                "group",
                JsonValue::Array(vec![object(vec![("criteria", text("a")), ("_ensure", text("Maybe"))])])
            )])
        )])),
        schema(SerializationReason::BadEnsure)
    );
}

#[test]
fn from_json_empty_object_is_the_empty_document() {
    assert_eq!(from_json(&object(vec![])).unwrap(), ConfigDocument::new());
}

#[test]
fn value_from_json_too_many_values() {
    let once = KeywordSpec { kind: ValueKind::List, repeatable: false, validator: Validator::Any };
    let kw = b"listenaddress".to_vec();
    assert_eq!(
        value_from_json(&kw, once, &JsonValue::Array(vec![text("a"), text("b")])).unwrap_err(),
        schema(SerializationReason::TooManyValues)
    );
    assert_eq!(
        value_from_json(&kw, once, &JsonValue::Array(vec![text("a")])).unwrap(),
        Value::List(vec![b"a".to_vec()])
    );
}

#[test]
fn json_text_members_keep_their_order() {
    let parsed: serde_json::Value =
        serde_json::from_str(r#"{"syslogfacility": "AUTH", "banner": "/etc/issue", "loglevel": "INFO"}"#).unwrap();
    let doc = from_json(&convert(&parsed)).unwrap();
    let keywords: Vec<Vec<u8>> = doc.directives.iter().map(|d| d.keyword.clone()).collect();
    assert_eq!(keywords, vec![b"syslogfacility".to_vec(), b"banner".to_vec(), b"loglevel".to_vec()]);
}
