//! Lookups in the QRZ callbook: what is asked, and what the answers mean.
use vstd::prelude::*;

use crate::model;
use crate::text;

verus! {

/// The account with which lookups are made, and where.
pub struct Config {
    username: String,
    password: String,
    endpoint: String,
}

impl Config {
    pub closed spec fn user(self) -> Seq<char> {
        self.username@
    }

    pub closed spec fn secret(self) -> Seq<char> {
        self.password@
    }

    pub closed spec fn address(self) -> Seq<char> {
        self.endpoint@
    }

    pub fn new(username: String, password: String) -> (r: Self)
        ensures
            r.user() == username@,
            r.secret() == password@,
            r.address() == "https://xmldata.qrz.com/xml/current/"@,
    {
        Config {
            username,
            password,
            endpoint: text::owned("https://xmldata.qrz.com/xml/current/"),
        }
    }

    /// The same account at another address.
    pub fn with_endpoint(self, endpoint: &str) -> (r: Self)
        ensures
            r.user() == self.user(),
            r.secret() == self.secret(),
            r.address() == endpoint@,
    {
        Config {
            username: self.username,
            password: self.password,
            endpoint: text::owned(endpoint),
        }
    }

    pub fn endpoint(&self) -> (r: &str)
        ensures
            r@ == self.address(),
    {
        self.endpoint.as_str()
    }

    /// The parameters of the request that opens a session.
    pub fn authentication_query(&self, agent: &str) -> (r: Vec<(&'static str, String)>)
        ensures
            r@.len() == 3,
            r@[0].0@ == "username"@ && r@[0].1@ == self.user(),
            r@[1].0@ == "password"@ && r@[1].1@ == self.secret(),
            r@[2].0@ == "agent"@ && r@[2].1@ == agent@,
    {
        let mut r: Vec<(&'static str, String)> = Vec::new();
        r.push(("username", self.username.clone()));
        r.push(("password", self.password.clone()));
        r.push(("agent", text::owned(agent)));
        r
    }
}

// ---------------------------------------------------------------------------------------------
// Answers
// ---------------------------------------------------------------------------------------------
/// The session part of an answer.
pub struct Session {
    pub key: Option<String>,
    pub error: Option<String>,
    pub message: Option<String>,
}

impl Default for Session {
    fn default() -> (r: Self)
        ensures
            r.key is None && r.error is None && r.message is None,
    {
        Session { key: None, error: None, message: None }
    }
}

/// The callsign part of an answer.
pub struct Callsign {
    pub call: Option<String>,
    pub state: Option<String>,
    pub country: Option<String>,
    pub dxcc: Option<u32>,
    pub grid: Option<String>,
    pub geoloc: Option<String>,
}

/// An answer.
pub struct Database {
    pub session: Option<Session>,
    pub callsign: Option<Callsign>,
}

/// What the callbook says of a station.
#[derive(Debug)]
pub struct Lookup {
    pub call: String,
    pub state: Option<String>,
    pub country: Option<String>,
    pub dxcc: Option<u32>,
    pub grid: Option<String>,
    pub geoloc: Option<String>,
}

/// Why a lookup failed.
#[derive(Debug)]
pub enum QrzError {
    EmptyCall,
    NoSession,
    /// Holds the reason that the service gives.
    Authentication(String),
    NoKey,
    /// Holds the reason that the service gives.
    Lookup(String),
    NoCall,
}

impl QrzError {
    pub open spec fn text(self) -> Seq<char> {
        match self {
            QrzError::EmptyCall => "QRZ lookup callsign cannot be empty"@,
            QrzError::NoSession => "QRZ authentication response omitted Session"@,
            QrzError::Authentication(e) => "QRZ authentication failed: "@ + e@,
            QrzError::NoKey => "QRZ authentication did not return a session key"@,
            QrzError::Lookup(e) => "QRZ lookup failed: "@ + e@,
            QrzError::NoCall => "QRZ callsign response omitted call"@,
        }
    }

    pub fn message(&self) -> (r: String)
        ensures
            r@ == self.text(),
    {
        match self {
            QrzError::EmptyCall => text::owned("QRZ lookup callsign cannot be empty"),
            QrzError::NoSession => text::owned("QRZ authentication response omitted Session"),
            QrzError::Authentication(e) => text::joined("QRZ authentication failed: ", e.as_str()),
            QrzError::NoKey => text::owned("QRZ authentication did not return a session key"),
            QrzError::Lookup(e) => text::joined("QRZ lookup failed: ", e.as_str()),
            QrzError::NoCall => text::owned("QRZ callsign response omitted call"),
        }
    }
}

/// A value trimmed; a blank one is none.
pub open spec fn clean(value: Option<Seq<char>>) -> Option<Seq<char>> {
    match value {
        Some(v) => if text::trimmed(v).len() > 0 {
            Some(text::trimmed(v))
        } else {
            None
        },
        None => None,
    }
}

pub open spec fn clean_upper(value: Option<Seq<char>>) -> Option<Seq<char>> {
    match clean(value) {
        Some(v) => Some(text::upper(v)),
        None => None,
    }
}

fn cleaned(value: &Option<String>) -> (r: Option<String>)
    ensures
        text::opt_text(r) == clean(text::opt_text(*value)),
{
    match value {
        Some(v) => {
            let t = text::trim(v.as_str());
            if text::is_blank(v.as_str()) {
                None
            } else {
                Some(t)
            }
        },
        None => None,
    }
}

fn cleaned_upper(value: &Option<String>) -> (r: Option<String>)
    ensures
        text::opt_text(r) == clean_upper(text::opt_text(*value)),
{
    match cleaned(value) {
        Some(v) => Some(text::to_upper(v.as_str())),
        None => None,
    }
}

/// The lookup that a callsign part gives.
pub open spec fn looked_up(r: Lookup, c: Callsign) -> bool {
    &&& c.call matches Some(call) && r.call@ == model::normalized(call@)
    &&& text::opt_text(r.state) == clean_upper(text::opt_text(c.state))
    &&& text::opt_text(r.country) == clean(text::opt_text(c.country))
    &&& r.dxcc == c.dxcc
    &&& text::opt_text(r.grid) == clean_upper(text::opt_text(c.grid))
    &&& text::opt_text(r.geoloc) == clean(text::opt_text(c.geoloc))
}

/// The answer names its station.
pub open spec fn names_station(c: Callsign) -> bool {
    c.call matches Some(call) && text::trimmed(call@).len() > 0
}

pub fn lookup_from(callsign: &Callsign) -> (r: Result<Lookup, QrzError>)
    ensures
        match r {
            Ok(l) => names_station(*callsign) && looked_up(l, *callsign),
            Err(e) => !names_station(*callsign) && e is NoCall,
        },
{
    match &callsign.call {
        Some(call) => {
            if text::is_blank(call.as_str()) {
                return Err(QrzError::NoCall);
            }
            Ok(
                Lookup {
                    call: model::normalize_call(call.as_str()),
                    state: cleaned_upper(&callsign.state),
                    country: cleaned(&callsign.country),
                    dxcc: callsign.dxcc,
                    grid: cleaned_upper(&callsign.grid),
                    geoloc: cleaned(&callsign.geoloc),
                },
            )
        },
        None => Err(QrzError::NoCall),
    }
}

/// What a session part says: its error, or else its message.
pub open spec fn said(session: Session) -> Seq<char> {
    match (session.error, session.message) {
        (Some(e), _) => e@,
        (None, Some(m)) => m@,
        (None, None) => Seq::empty(),
    }
}

/// The session part says that the session is over.
pub open spec fn expired(session: Option<Session>) -> bool {
    match session {
        Some(s) => {
            let t = text::lower(said(s));
            text::has_part(t, "session"@) && (text::has_part(t, "timeout"@) || text::has_part(
                t,
                "invalid"@,
            ))
        },
        None => false,
    }
}

pub fn session_expired(session: Option<&Session>) -> (r: bool)
    ensures
        r == match session {
            Some(s) => expired(Some(*s)),
            None => false,
        },
{
    match session {
        Some(s) => {
            let said = match (&s.error, &s.message) {
                (Some(e), _) => text::to_lower(e.as_str()),
                (None, Some(m)) => text::to_lower(m.as_str()),
                (None, None) => text::to_lower(""),
            };
            proof {
                reveal_strlit("");
                assert(""@ =~= Seq::empty());
            }
            text::contains(said.as_str(), "session") && (text::contains(said.as_str(), "timeout")
                || text::contains(said.as_str(), "invalid"))
        },
        None => false,
    }
}

// ---------------------------------------------------------------------------------------------
// Asking
// ---------------------------------------------------------------------------------------------
/// A lookup under way: which station is asked for, the key of the session if there is one, and
/// whether a session has already run out.
pub struct Inquiry {
    pub call: String,
    pub session_key: Option<String>,
    pub retried: bool,
}

/// What to ask next.
#[derive(Debug)]
pub enum Question {
    /// Open a session.
    Authenticate,
    /// Ask for the station in the session of `key`.
    Station { key: String, call: String },
}

/// What an answer for a station leads to.
#[derive(Debug)]
pub enum Progress {
    /// The session has run out: open another and ask again.
    Again,
    /// The station is in the callbook.
    Found(Lookup),
    /// The station is not in the callbook.
    NotFound,
    /// The lookup failed.
    Failed(QrzError),
}

impl Inquiry {
    /// Begins a lookup with the key of the last session, if there was one.
    pub fn begin(call: &str, session_key: Option<String>) -> (r: Result<Inquiry, QrzError>)
        ensures
            match r {
                Ok(i) => text::trimmed(call@).len() > 0 && i.call@ == model::normalized(call@)
                    && i.session_key == session_key && !i.retried,
                Err(e) => text::trimmed(call@).len() == 0 && e is EmptyCall,
            },
    {
        if text::is_blank(call) {
            Err(QrzError::EmptyCall)
        } else {
            Ok(Inquiry { call: model::normalize_call(call), session_key, retried: false })
        }
    }

    pub fn next(&self) -> (r: Question)
        ensures
            match r {
                Question::Authenticate => self.session_key is None,
                Question::Station { key, call } => self.session_key == Some(key) && call@
                    == self.call@,
            },
    {
        match &self.session_key {
            Some(key) => Question::Station { key: key.clone(), call: self.call.clone() },
            None => Question::Authenticate,
        }
    }

    /// Takes in the answer to the opening of a session.
    pub fn on_authentication(&mut self, database: &Database) -> (r: Result<(), QrzError>)
        ensures
            final(self).call == old(self).call,
            final(self).retried == old(self).retried,
            match r {
                Ok(_) => key_in(database.session) is Some && text::opt_text(
                    final(self).session_key,
                ) == key_in(database.session),
                Err(QrzError::NoSession) => database.session is None,
                Err(QrzError::Authentication(e)) => fault_in(database.session) == Some(e@),
                Err(QrzError::NoKey) => database.session is Some && fault_in(database.session)
                    is None && key_in(database.session) is None,
                Err(_) => false,
            },
            r matches Err(e) ==> final(self).session_key == if e is NoKey {
                None
            } else {
                old(self).session_key
            },
    {
        let session = match &database.session {
            Some(s) => s,
            None => return Err(QrzError::NoSession),
        };
        if let Some(e) = &session.error {
            return Err(QrzError::Authentication(e.clone()));
        }
        match &session.key {
            Some(key) => if text::is_blank(key.as_str()) {
                self.session_key = None;
                Err(QrzError::NoKey)
            } else {
                self.session_key = Some(key.clone());
                Ok(())
            },
            None => {
                self.session_key = None;
                Err(QrzError::NoKey)
            },
        }
    }

    /// Takes in the answer for the station. A session that has run out is renewed once.
    pub fn on_response(&mut self, database: &Database) -> (r: Progress)
        ensures
            final(self).call == old(self).call,
            r is Again <==> expired(database.session) && !old(self).retried,
            r is Again ==> final(self).retried && final(self).session_key is None,
            r !is Again ==> final(self).retried == old(self).retried && final(self).session_key
                == old(self).session_key,
            r !is Again ==> match fault_in(database.session) {
                Some(e) => if text::has_part(text::lower(e), "not found"@) {
                    r is NotFound
                } else {
                    r matches Progress::Failed(QrzError::Lookup(why)) && why@ == e
                },
                None => match database.callsign {
                    None => r is NotFound,
                    Some(c) => if names_station(c) {
                        r matches Progress::Found(l) && looked_up(l, c)
                    } else {
                        r matches Progress::Failed(QrzError::NoCall)
                    },
                },
            },
    {
        if session_expired(database.session.as_ref()) && !self.retried {
            self.retried = true;
            self.session_key = None;
            return Progress::Again;
        }
        if let Some(s) = &database.session {
            if let Some(e) = &s.error {
                if text::contains(text::to_lower(e.as_str()).as_str(), "not found") {
                    return Progress::NotFound;
                }
                return Progress::Failed(QrzError::Lookup(e.clone()));
            }
        }
        match &database.callsign {
            None => Progress::NotFound,
            Some(c) => match lookup_from(c) {
                Ok(l) => Progress::Found(l),
                Err(e) => Progress::Failed(e),
            },
        }
    }
}

/// The key of the session that was opened: one that is not blank, without an error beside it.
pub open spec fn key_in(session: Option<Session>) -> Option<Seq<char>> {
    match session {
        Some(s) => match (s.error, s.key) {
            (None, Some(k)) => if text::trimmed(k@).len() > 0 {
                Some(k@)
            } else {
                None
            },
            _ => None,
        },
        None => None,
    }
}

/// The error that a session part gives.
pub open spec fn fault_in(session: Option<Session>) -> Option<Seq<char>> {
    match session {
        Some(s) => text::opt_text(s.error),
        None => None,
    }
}

// ---------------------------------------------------------------------------------------------
// What the answers mean
// ---------------------------------------------------------------------------------------------
/// Blanks around a value do not matter, and a blank value is none; a value that is put in capitals
/// is the same whatever the case of its letters.
pub proof fn law_values_are_cleaned(v: Seq<char>)
    ensures
        clean(None) is None && clean_upper(None) is None,
        clean(Some(v)) is None <==> text::trimmed(v).len() == 0,
        clean(Some(v)) matches Some(c) ==> c == text::trimmed(v),
        clean_upper(Some(v)) is None <==> text::trimmed(v).len() == 0,
        clean_upper(Some(v)) matches Some(c) ==> c == text::upper(text::trimmed(v)),
{
}

/// A lookup is what the answer gives for the station: each of its values from the one of that name.
pub proof fn law_lookup_is_taken_over(r: Lookup, c: Callsign)
    requires
        looked_up(r, c),
    ensures
        c.call is Some && r.call@ == model::normalized(c.call->0@),
        r.dxcc == c.dxcc,
        c.country is None ==> r.country is None,
        c.country is Some && text::trimmed(c.country->0@).len() > 0 ==> (r.country matches Some(w)
            && w@ == text::trimmed(c.country->0@)),
        c.geoloc is None ==> r.geoloc is None,
        c.geoloc is Some && text::trimmed(c.geoloc->0@).len() > 0 ==> (r.geoloc matches Some(w) && w@
            == text::trimmed(c.geoloc->0@)),
        c.state is None ==> r.state is None,
        c.state is Some && text::trimmed(c.state->0@).len() > 0 ==> (r.state matches Some(w) && w@
            == text::upper(text::trimmed(c.state->0@))),
        c.grid is None ==> r.grid is None,
        c.grid is Some && text::trimmed(c.grid->0@).len() > 0 ==> (r.grid matches Some(w) && w@
            == text::upper(text::trimmed(c.grid->0@))),
{
}

/// A session is over where its error, or its message where it has no error, speaks of a session and
/// of a timeout or of something invalid, whatever the case of the letters.
pub proof fn law_when_a_session_is_over(s: Session)
    ensures
        ({
            let t = text::lower(
                if s.error is Some {
                    s.error->0@
                } else if s.message is Some {
                    s.message->0@
                } else {
                    Seq::empty()
                },
            );
            let of_session = text::has_part(t, "session"@);
            &&& of_session && text::has_part(t, "timeout"@) ==> expired(Some(s))
            &&& of_session && text::has_part(t, "invalid"@) ==> expired(Some(s))
            &&& !of_session ==> !expired(Some(s))
            &&& !text::has_part(t, "timeout"@) && !text::has_part(t, "invalid"@) ==> !expired(
                Some(s),
            )
            &&& !expired(None)
        }),
{
}

/// A session is opened where it has a key that is not blank and no error; an error is what is wrong.
pub proof fn law_when_a_session_is_opened(s: Session)
    ensures
        key_in(Some(s)) is Some <==> s.error is None && (s.key matches Some(k) && text::trimmed(
            k@,
        ).len() > 0),
        key_in(Some(s)) matches Some(k) ==> k == s.key->0@,
        key_in(None) is None,
        fault_in(None) is None,
        s.error matches Some(e) ==> fault_in(Some(s)) == Some(e@),
        s.error is None ==> fault_in(Some(s)) is None,
{
}

} // verus!
