use qso_sidecar::frequency::Frequency;
use qso_sidecar::json::{as_text, as_true, as_unsigned, Json, JsonNumber};
use qso_sidecar::lofi::{
    account_in, after_answer, body_of, checked_json, checked_with, link_request, operations_in, operations_query,
    parse_operation, parse_qson, qsos_path, read_record, read_record_with, registration_from, service_base, truncate,
    Attempt, Body, Credentials, Pages,
};
use qso_sidecar::model::{Band, RecordReason};
use qso_sidecar::time::contest_start;

fn text(value: &str) -> Json {
    Json::Text(value.into())
}

fn number(value: u64) -> Json {
    Json::Number(JsonNumber::Unsigned(value))
}

fn object(members: Vec<(&str, Json)>) -> Json {
    Json::Object(
        members
            .into_iter()
            .map(|(key, value)| (key.to_string(), value))
            .collect(),
    )
}

fn contact(id: &str, updated: u64) -> Json {
    object(vec![
        ("uuid", text(id)),
        ("their", object(vec![("call", text("W1AW"))])),
        ("band", text("20m")),
        ("mode", text("CW")),
        ("startAtMillis", number(1_785_607_200_000)),
        ("updatedAtMillis", number(updated)),
    ])
}

#[test]
fn parses_flexible_operation_response() {
    let operation = parse_operation(&object(vec![
        ("uuid", number(42)),
        ("userTitle", text("NAQP CW")),
        (
            "refs",
            Json::Array(vec![object(vec![
                ("type", text("naqp")),
                ("mode", text("CW")),
                ("extra", Json::Bool(true)),
            ])]),
        ),
        (
            "unknown",
            object(vec![("is", text("preserved by caller"))]),
        ),
    ]))
    .unwrap();
    assert_eq!(operation.id, "42");
    assert!(operation.is_naqp);
}

#[test]
fn parses_qson_and_preserves_unknown_fields() {
    let qso = parse_qson(&object(vec![
        ("uuid", text("q1")),
        (
            "their",
            object(vec![
                ("call", text("w1aw")),
                ("country", text("United States")),
            ]),
        ),
        ("band", text("20m")),
        ("mode", text("CW")),
        ("startAtMillis", number(1_785_607_200_000)),
        (
            "refs",
            Json::Array(vec![object(vec![
                ("type", text("naqp")),
                ("name", text("AL")),
                ("location", text("CT")),
            ])]),
        ),
        ("futureField", object(vec![("value", number(7))])),
    ]))
    .unwrap();
    assert_eq!(qso.call, "W1AW");
    assert_eq!(qso.location.as_deref(), Some("CT"));
    assert_eq!(as_unsigned(qso.raw.get_in("futureField", "value")), Some(7));
}

#[test]
fn skips_event_records_and_keeps_tombstones() {
    assert!(parse_qson(&object(vec![
        ("uuid", text("event")),
        ("event", text("break")),
    ]))
    .is_none());
    let deleted = parse_qson(&object(vec![
        ("uuid", text("q1")),
        ("their", object(vec![("call", text("W1AW"))])),
        ("band", text("20m")),
        ("mode", text("CW")),
        ("startAtMillis", number(1_785_607_200_000)),
        ("deleted", Json::Bool(true)),
    ]))
    .unwrap();
    assert!(deleted.deleted);
}

#[test]
fn contacts_carry_what_the_service_sends() {
    let qso = parse_qson(&object(vec![
        ("uuid", text("q1")),
        ("their", object(vec![("call", text(" k1abc "))])),
        ("startAtMillis", number(1_785_607_260_000)),
        ("freq", Json::Number(JsonNumber::Unsigned(14_035))),
    ]))
    .unwrap();
    assert_eq!(qso.id, "q1");
    assert!(qso.timestamp == contest_start().later_by(60));
    assert_eq!(qso.frequency_khz, Some(Frequency::from_khz(14_035)));
    assert_eq!(qso.band, Some(Band::B20));
    assert!(!qso.deleted);
}

#[test]
fn records_that_are_no_contacts_are_told_apart() {
    let why = |value: &Json| read_record(value).err().unwrap().reason;
    assert_eq!(
        why(&object(vec![
            ("uuid", text("e1")),
            ("event", text("break")),
        ])),
        RecordReason::EventOrNonContact
    );
    assert_eq!(
        why(&object(vec![
            ("uuid", text("q1")),
            ("their", object(vec![])),
            ("startAtMillis", number(1_785_607_200_000)),
        ])),
        RecordReason::MissingCall
    );
    assert_eq!(
        why(&object(vec![
            ("uuid", text("q1")),
            ("their", object(vec![("call", text("W1AW"))])),
        ])),
        RecordReason::MissingTimestamp
    );
    assert_eq!(why(&text("q1")), RecordReason::MalformedRecord);
}

#[test]
fn pages_are_taken_until_there_is_no_more() {
    let mut pages = Pages::start(Some(7));
    assert_eq!(
        pages.query(),
        vec![
            ("limit", "50".to_string()),
            ("syncedSinceMillis", "7".to_string()),
        ]
    );
    let page = |contacts: Vec<Json>, left: u64, next: u64| {
        object(vec![
            ("qsos", Json::Array(contacts)),
            (
                "meta",
                object(vec![(
                    "qsos",
                    object(vec![
                        ("records_left", number(left)),
                        ("next_synced_until_millis", number(next)),
                    ]),
                )]),
            ),
        ])
    };
    let event = object(vec![("uuid", text("e1")), ("event", text("break"))]);
    assert!(pages.take_page(&page(vec![contact("q1", 10), event], 2, 99)));
    assert_eq!(
        pages.query(),
        vec![
            ("limit", "200".to_string()),
            ("syncedSinceMillis", "7".to_string()),
            ("syncedUntilMillis", "99".to_string()),
        ]
    );
    assert!(!pages.take_page(&page(vec![contact("q2", 20)], 2, 99)));
    let ids: Vec<&str> = pages.qsos.iter().map(|q| q.id.as_str()).collect();
    assert_eq!(ids, vec!["q1", "q2"]);
    assert_eq!(pages.diagnostics.len(), 1);
    assert_eq!(pages.diagnostics[0].id.as_deref(), Some("e1"));

    let mut short = Pages::start(None);
    assert_eq!(short.query(), vec![("limit", "50".to_string())]);
    assert!(!short.take_page(&page(vec![contact("q1", 10)], 0, 99)));
    assert!(!short.take_page(&Json::Null));
}

#[test]
fn fresh_credentials_are_random() {
    let first = Credentials::fresh();
    let second = Credentials::fresh();
    assert_ne!(first.key, second.key);
    assert_ne!(first.secret, second.secret);
    assert!(first.key.starts_with("browser:"));
    assert_eq!(first.key.len(), 44);
    assert_eq!(first.secret.len(), 36);
    assert!(first.token.is_none());
    for identifier in [&first.key[8..], first.secret.as_str()] {
        assert_eq!(&identifier[14..15], "4");
        assert!("89ab".contains(&identifier[19..20]));
        for (i, c) in identifier.chars().enumerate() {
            if [8, 13, 18, 23].contains(&i) {
                assert_eq!(c, '-');
            } else {
                assert!(c.is_ascii_digit() || ('a'..='f').contains(&c));
            }
        }
    }
}

#[test]
fn a_rejected_identity_is_replaced() {
    let mut credentials = Credentials::from_ids("abc", "secret".into());
    credentials.token = Some("t1".into());
    assert_eq!(credentials.renew_if_rejected(false), None);
    assert_eq!(credentials.key, "browser:abc");
    assert_eq!(credentials.token.as_deref(), Some("t1"));
    assert_eq!(
        credentials.renew_if_rejected(true),
        Some("saved LoFi client identity was rejected; created a new identity, retry linking")
    );
    assert_ne!(credentials.key, "browser:abc");
    assert_ne!(credentials.secret, "secret");
    assert_eq!(credentials.token, None);
}

#[test]
fn answers_decide_on_another_attempt() {
    assert_eq!(after_answer(true, 0), Attempt::RegisterAndRetry);
    assert_eq!(after_answer(true, 1), Attempt::Take);
    assert_eq!(after_answer(false, 0), Attempt::Take);
}

#[test]
fn failed_answers_are_cut_short() {
    assert_eq!(truncate("abcdef", 3), "abc\u{2026}");
    assert_eq!(truncate("abc", 3), "abc");
    assert!(matches!(body_of(true, "200 OK", "  "), Body::Empty));
    assert!(matches!(body_of(true, "200 OK", "{}"), Body::Document));
    match body_of(false, "500 Internal Server Error", "broken") {
        Body::Failed(message) => {
            assert_eq!(message, "LoFi HTTP 500 Internal Server Error: broken");
        }
        _ => panic!("a failed answer was taken"),
    }
}

#[test]
fn answers_hold_the_document_of_their_body() {
    let read = checked_json(true, "200 OK", r#"{"uuid":"q"}"#).unwrap();
    assert_eq!(as_text(read.get("uuid")).unwrap(), "q");
    assert!(matches!(checked_json(true, "200 OK", " \n "), Ok(Json::Null)));
    assert_eq!(
        checked_json(false, "404 Not Found", "{}").unwrap_err(),
        "LoFi HTTP 404 Not Found: {}"
    );
    assert!(checked_json(true, "200 OK", "<html>")
        .unwrap_err()
        .starts_with("LoFi returned invalid JSON: expected value"));
    assert_eq!(
        checked_with(true, "200 OK", "x", Err("no".into())).unwrap_err(),
        "LoFi returned invalid JSON: no"
    );
    assert!(matches!(
        checked_with(true, "200 OK", "x", Ok(Json::Bool(true))),
        Ok(Json::Bool(true))
    ));
    assert!(matches!(checked_with(true, "200 OK", "", Err("no".into())), Ok(Json::Null)));
}

#[test]
fn unknown_members_of_a_record_come_through_whole() {
    let body = r#"{"uuid":"q","their":{"call":"K1ABC"},"startAtMillis":1785607200000,
        "freq":14035.5,"grid":{"lat":41.72916666666667,"tiny":1e-10}}"#;
    let record = checked_json(true, "200 OK", body).unwrap();
    let qso = parse_qson(&record).unwrap();
    assert_eq!(qso.frequency_khz, Some(Frequency::from_tenths(140_355)));
    match qso.raw.get_in("grid", "lat") {
        Some(Json::Number(JsonNumber::Decimal(kept))) => assert_eq!(kept, "41.72916666666667"),
        _ => panic!("the member is kept"),
    }
    assert!(qso.raw.same(&record));
}

#[test]
fn accounts_are_linked_where_there_is_one() {
    let nobody = registration_from(None);
    assert!(!nobody.linked);
    assert_eq!(nobody.account_call, None);
    assert!(!registration_from(Some(&Json::Null)).linked);
    let unnamed = registration_from(Some(&object(vec![])));
    assert!(unnamed.linked);
    assert_eq!(unnamed.account_call, None);
    let account = account_in(&object(vec![(
        "current_account",
        object(vec![("call", text("N1RWJ"))]),
    )]));
    assert!(account.linked);
    assert_eq!(account.account_call.as_deref(), Some("N1RWJ"));
    assert!(!account_in(&Json::Null).linked);
}

#[test]
fn requests_name_what_they_ask_for() {
    assert_eq!(
        service_base("https://lofi.ham2k.net//"),
        "https://lofi.ham2k.net"
    );
    assert_eq!(qsos_path("op-1"), "/v1/operations/op-1/qsos");
    let link = link_request(" me@example.org ");
    assert_eq!(as_text(link.get("email")).unwrap(), "me@example.org");
    assert!(as_true(link.get("send_email")));
    assert_eq!(
        operations_query(Some(5), contest_start()),
        vec![
            ("syncedSinceMillis", "5".to_string()),
            ("limit", "100".to_string()),
        ]
    );
    assert_eq!(
        operations_query(None, contest_start()),
        vec![
            ("startedUntilMillis", "1785607200000".to_string()),
            ("limit", "100".to_string()),
        ]
    );
}

#[test]
fn registration_sends_the_identity_and_keeps_the_token() {
    let mut credentials = Credentials::from_ids("abc", "secret".into());
    assert_eq!(credentials.key, "browser:abc");
    let request = credentials.registration_request();
    assert_eq!(
        as_text(request.get_in("client", "name")).unwrap(),
        "QSO Sidecar"
    );
    assert_eq!(as_text(request.get_in("client", "type")).unwrap(), "browser");
    assert_eq!(
        as_text(request.get_in("client", "key")).unwrap(),
        "browser:abc"
    );
    assert_eq!(as_text(request.get_in("client", "secret")).unwrap(), "secret");
    let registration = credentials.accept(&object(vec![
        ("token", text("t1")),
        ("account", object(vec![("call", text("N1RWJ"))])),
    ]));
    assert_eq!(credentials.token.as_deref(), Some("t1"));
    assert!(registration.linked);
    assert_eq!(registration.account_call.as_deref(), Some("N1RWJ"));
    let refused = credentials.accept(&object(vec![("account", Json::Null)]));
    assert_eq!(credentials.token, None);
    assert!(!refused.linked);
}

#[test]
fn operations_of_an_answer_keep_their_order() {
    let operations = operations_in(&object(vec![(
        "operations",
        Json::Array(vec![
            object(vec![
                ("uuid", text("b")),
                ("title", text("Second")),
                ("startAtMillisMin", number(1_785_607_200_000)),
            ]),
            object(vec![("title", text("no identifier"))]),
            object(vec![("uuid", text("c")), ("deleted", Json::Bool(true))]),
            object(vec![("uuid", text("a"))]),
        ]),
    )]));
    let ids: Vec<&str> = operations.iter().map(|o| o.id.as_str()).collect();
    assert_eq!(ids, vec!["b", "a"]);
    assert_eq!(operations[0].title, "Second");
    assert!(operations[0].start == Some(contest_start()));
    assert!(operations[0].end.is_none());
    assert!(!operations[0].is_naqp);
    assert_eq!(operations[1].title, "Untitled operation");
}

#[test]
fn times_as_text_are_read_where_there_are_no_milliseconds() {
    let at = |time: &str| {
        parse_qson(&object(vec![
            ("uuid", text("q1")),
            ("their", object(vec![("baseCall", text("w1aw"))])),
            ("startAt", text(time)),
        ]))
    };
    let qso = at("2026-08-01T20:00:30+02:00").unwrap();
    assert_eq!(qso.call, "W1AW");
    assert!(qso.timestamp == contest_start().later_by(30));
    assert!(at("yesterday").is_none());
}

#[test]
fn a_named_time_counts_where_there_are_no_milliseconds() {
    let timed = contact("q1", 1);
    let named = Some(contest_start().later_by(5));
    assert!(read_record_with(&timed, named).unwrap().timestamp == contest_start());
    let untimed = object(vec![
        ("uuid", text("q1")),
        ("their", object(vec![("call", text("W1AW"))])),
    ]);
    assert!(read_record_with(&untimed, named).unwrap().timestamp == contest_start().later_by(5));
    assert_eq!(
        read_record_with(&untimed, None).unwrap_err().reason,
        RecordReason::MissingTimestamp
    );
}
