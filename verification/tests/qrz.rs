use quick_xml::events::Event;
use quick_xml::Reader;

use qso_sidecar::qrz::{
    lookup_from, session_expired, Callsign, Config, Database, Inquiry, Progress, QrzError, Question,
    Session,
};

fn empty_callsign() -> Callsign {
    Callsign {
        call: None,
        state: None,
        country: None,
        dxcc: None,
        grid: None,
        geoloc: None,
    }
}

/// The elements of the station in an answer.
fn callsign_in(xml: &str) -> Callsign {
    let mut reader = Reader::from_str(xml);
    let mut callsign = empty_callsign();
    let mut element = String::new();
    loop {
        match reader.read_event().unwrap() {
            Event::Start(start) => {
                element = String::from_utf8(start.name().as_ref().to_vec()).unwrap();
            }
            Event::End(_) => element.clear(),
            Event::Text(text) => {
                let value = text.unescape().unwrap().into_owned();
                match element.as_str() {
                    "call" => callsign.call = Some(value),
                    "state" => callsign.state = Some(value),
                    "land" => callsign.country = Some(value),
                    "dxcc" => callsign.dxcc = value.parse().ok(),
                    "grid" => callsign.grid = Some(value),
                    "geoloc" => callsign.geoloc = Some(value),
                    _ => {}
                }
            }
            Event::Eof => return callsign,
            _ => {}
        }
    }
}

fn answer(error: Option<&str>, key: Option<&str>) -> Database {
    Database {
        session: Some(Session {
            key: key.map(str::to_string),
            error: error.map(str::to_string),
            message: None,
        }),
        callsign: None,
    }
}

#[test]
fn parses_reordered_callsign_fields_and_ignores_unknowns() {
    let callsign = callsign_in(
        r#"<?xml version="1.0"?><QRZDatabase version="1.34"><Callsign><grid>FN42</grid><future>ignored</future><state>ma</state><call>K1ABC</call><dxcc>291</dxcc><geoloc>grid</geoloc><land>United States</land></Callsign><Session><Key>abc</Key></Session></QRZDatabase>"#,
    );
    let lookup = lookup_from(&callsign).unwrap();
    assert_eq!(lookup.call, "K1ABC");
    assert_eq!(lookup.state.as_deref(), Some("MA"));
    assert_eq!(lookup.grid.as_deref(), Some("FN42"));
    assert_eq!(lookup.dxcc, Some(291));
}

#[test]
fn detects_expired_session_messages() {
    let session = Session {
        message: Some("Session Timeout".into()),
        ..Session::default()
    };
    assert!(session_expired(Some(&session)));
    assert!(!session_expired(None));
}

#[test]
fn test_config_can_override_endpoint_without_exposing_credentials() {
    let config =
        Config::new("user".into(), "secret".into()).with_endpoint("http://127.0.0.1:1234/");
    assert_eq!(config.endpoint(), "http://127.0.0.1:1234/");
}

#[test]
fn authentication_sends_who_asks() {
    let config = Config::new("user".into(), "secret".into());
    assert_eq!(
        config.authentication_query("agent"),
        vec![
            ("username", "user".to_string()),
            ("password", "secret".to_string()),
            ("agent", "agent".to_string()),
        ]
    );
}

#[test]
fn an_expired_session_is_renewed_once() {
    let mut inquiry = Inquiry::begin(" k1abc ", Some("old".into())).unwrap();
    assert!(
        matches!(inquiry.next(), Question::Station { key, call } if key == "old" && call == "K1ABC")
    );
    let expired = answer(Some("Session Timeout"), None);
    assert!(matches!(inquiry.on_response(&expired), Progress::Again));
    assert!(matches!(inquiry.next(), Question::Authenticate));
    inquiry.on_authentication(&answer(None, Some("new"))).unwrap();
    assert!(
        matches!(inquiry.next(), Question::Station { key, call } if key == "new" && call == "K1ABC")
    );
    match inquiry.on_response(&expired) {
        Progress::Failed(error) => {
            assert_eq!(error.message(), "QRZ lookup failed: Session Timeout");
        }
        _ => panic!("a second expiry was not reported"),
    }
}

#[test]
fn every_failure_of_a_lookup_is_told() {
    assert!(matches!(
        Inquiry::begin("  ", None),
        Err(QrzError::EmptyCall)
    ));
    let mut inquiry = Inquiry::begin("K1ABC", None).unwrap();
    let nothing = Database {
        session: None,
        callsign: None,
    };
    assert_eq!(
        inquiry.on_authentication(&nothing).unwrap_err().message(),
        "QRZ authentication response omitted Session"
    );
    assert_eq!(
        inquiry
            .on_authentication(&answer(Some("Password incorrect"), Some("k")))
            .unwrap_err()
            .message(),
        "QRZ authentication failed: Password incorrect"
    );
    assert_eq!(
        inquiry
            .on_authentication(&answer(None, Some(" ")))
            .unwrap_err()
            .message(),
        "QRZ authentication did not return a session key"
    );
    inquiry.on_authentication(&answer(None, Some("k"))).unwrap();
    assert!(matches!(
        inquiry.on_response(&answer(Some("Not found: K1ABC"), None)),
        Progress::NotFound
    ));
    assert!(matches!(inquiry.on_response(&nothing), Progress::NotFound));
    let unnamed = Database {
        session: None,
        callsign: Some(empty_callsign()),
    };
    match inquiry.on_response(&unnamed) {
        Progress::Failed(error) => {
            assert_eq!(error.message(), "QRZ callsign response omitted call");
        }
        _ => panic!("a station without a call was found"),
    }
    assert_eq!(
        QrzError::EmptyCall.message(),
        "QRZ lookup callsign cannot be empty"
    );
}
