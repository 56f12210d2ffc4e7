//! Parsing of the operator's slash commands: which service command a line asks for, and
//! the arguments of the `/pi …` hardware commands.
//!
//! Words are split and texts trimmed as `str::split_whitespace` and `str::trim` do; numbers
//! are read as `u8`'s `FromStr` does; direction words are matched ignoring ASCII case.

use vstd::prelude::*;

use crate::pi_client::{point_direction_text, track_direction_text, PointDirection, TrackDirection};
use crate::text::{debug_quote, debug_text, push_str};

verus! {

/// The words of a text, split at Unicode white space as `str::split_whitespace` does.
pub uninterp spec fn whitespace_words(s: Seq<char>) -> Seq<Seq<char>>;

/// A text without leading and trailing Unicode white space, as `str::trim` gives it.
pub uninterp spec fn trimmed(s: Seq<char>) -> Seq<char>;

/// The words of a text (`str::split_whitespace`); the result is named [`whitespace_words`].
#[verifier::external_body]
pub(crate) fn split_words(s: &str) -> (r: Vec<String>)
    ensures
        r@.map_values(|w: String| w@) == whitespace_words(s@),
{
    s.split_whitespace().map(|w| w.to_string()).collect()
}

/// A text without leading and trailing white space (`str::trim`); the result is named
/// [`trimmed`].
#[verifier::external_body]
pub(crate) fn trim_text(s: &str) -> (r: String)
    ensures
        r@ == trimmed(s@),
{
    s.trim().to_string()
}

/// The character is an ASCII decimal digit.
pub open spec fn is_digit(c: char) -> bool {
    '0' <= c <= '9'
}

/// The value of a string of decimal digits.
pub open spec fn digits_value(s: Seq<char>) -> nat
    decreases s.len(),
{
    if s.len() == 0 {
        0
    } else {
        digits_value(s.drop_last()) * 10 + ((s.last() as int) - ('0' as int)) as nat
    }
}

/// What `u8`'s `FromStr` reads from a text: an optional `+` followed by at least one ASCII
/// digit and nothing else, with a value of at most 255.
pub open spec fn u8_text_value(s: Seq<char>) -> Option<u8> {
    let digits = if s.len() > 0 && s[0] == '+' {
        s.drop_first()
    } else {
        s
    };
    if digits.len() > 0 && (forall|i: int| 0 <= i < digits.len() ==> is_digit(#[trigger] digits[i]))
        && digits_value(digits) <= 255 {
        Some(digits_value(digits) as u8)
    } else {
        None
    }
}

/// Reads a `u8` with its `FromStr` (`str::parse::<u8>`).
#[verifier::external_body]
pub(crate) fn parse_u8_text(s: &str) -> (r: Option<u8>)
    ensures
        r == u8_text_value(s@),
{
    s.parse::<u8>().ok()
}

/// Code of the ASCII upper case of a character (other characters unchanged).
pub open spec fn upper_code(c: char) -> int {
    let x = c as int;
    if 97 <= x <= 122 {
        x - 32
    } else {
        x
    }
}

/// Code of the ASCII lower case of a character (other characters unchanged).
pub open spec fn lower_code(c: char) -> int {
    let x = c as int;
    if 65 <= x <= 90 {
        x + 32
    } else {
        x
    }
}

/// `s` written in ASCII upper case is `word` (`to_ascii_uppercase`).
pub open spec fn upper_is(s: Seq<char>, word: Seq<char>) -> bool {
    s.len() == word.len() && forall|i: int| 0 <= i < s.len() ==> upper_code(#[trigger] s[i]) == word[i] as int
}

/// `s` written in ASCII lower case is `word` (`to_ascii_lowercase`).
pub open spec fn lower_is(s: Seq<char>, word: Seq<char>) -> bool {
    s.len() == word.len() && forall|i: int| 0 <= i < s.len() ==> lower_code(#[trigger] s[i]) == word[i] as int
}

/// `s` in ASCII upper case (`upper` true) or lower case is `word`.
fn case_folded_equals(s: &str, word: &str, upper: bool) -> (b: bool)
    ensures
        b == (if upper {
            upper_is(s@, word@)
        } else {
            lower_is(s@, word@)
        }),
{
    let n = s.unicode_len();
    let m = word.unicode_len();
    if n != m {
        return false;
    }
    let mut i: usize = 0;
    while i < n
        invariant
            0 <= i <= n,
            n == s@.len(),
            m == word@.len(),
            n == m,
            forall|k: int|
                0 <= k < i ==> (if upper {
                    upper_code(#[trigger] s@[k])
                } else {
                    lower_code(s@[k])
                }) == word@[k] as int,
        decreases n - i,
    {
        let c = s.get_char(i) as u32;
        let w = word.get_char(i) as u32;
        let folded = if upper {
            if 97 <= c && c <= 122 {
                c - 32
            } else {
                c
            }
        } else {
            if 65 <= c && c <= 90 {
                c + 32
            } else {
                c
            }
        };
        if folded != w {
            return false;
        }
        i = i + 1;
    }
    true
}


/// The message of a word that is not one of the expected ones.
pub open spec fn expected_text(expected: Seq<char>, got: Seq<char>) -> Seq<char> {
    "expected "@ + expected + ", got "@ + debug_text(got)
}

/// `"expected {expected}, got {got:?}"`.
fn expected_message(expected: &str, got: &str) -> (m: String)
    ensures
        m@ == expected_text(expected@, got@),
{
    let mut m = String::new();
    push_str(&mut m, "expected ");
    push_str(&mut m, expected);
    push_str(&mut m, ", got ");
    let q = debug_quote(got);
    push_str(&mut m, q.as_str());
    assert(m@ =~= expected_text(expected@, got@));
    m
}

/// Reads a track direction (`OFF`, `FWD` or `BCK`, in any ASCII case).
pub fn parse_track_direction(s: &str) -> (r: Result<TrackDirection, String>)
    ensures
        match r {
            Ok(d) => track_direction_of(s@) == Some(d) && upper_is(s@, track_direction_text(d)),
            Err(m) => track_direction_of(s@) is None && m@ == expected_text("OFF|FWD|BCK"@, s@),
        },
{
    proof {
        reveal_strlit("OFF");
        reveal_strlit("FWD");
        reveal_strlit("BCK");
    }
    if case_folded_equals(s, "OFF", true) {
        Ok(TrackDirection::Off)
    } else if case_folded_equals(s, "FWD", true) {
        Ok(TrackDirection::Fwd)
    } else if case_folded_equals(s, "BCK", true) {
        Ok(TrackDirection::Bck)
    } else {
        Err(expected_message("OFF|FWD|BCK", s))
    }
}

/// Reads a point direction (`THRU` or `BRANCH`, in any ASCII case).
pub fn parse_point_direction(s: &str) -> (r: Result<PointDirection, String>)
    ensures
        match r {
            Ok(d) => point_direction_of(s@) == Some(d) && upper_is(s@, point_direction_text(d)),
            Err(m) => point_direction_of(s@) is None && m@ == expected_text("THRU|BRANCH"@, s@),
        },
{
    proof {
        reveal_strlit("THRU");
        reveal_strlit("BRANCH");
    }
    if case_folded_equals(s, "THRU", true) {
        Ok(PointDirection::Thru)
    } else if case_folded_equals(s, "BRANCH", true) {
        Ok(PointDirection::Branch)
    } else {
        Err(expected_message("THRU|BRANCH", s))
    }
}

/// A word that reads as true (`true`, `1`, `yes`, in any ASCII case).
pub open spec fn true_word(s: Seq<char>) -> bool {
    lower_is(s, "true"@) || lower_is(s, "1"@) || lower_is(s, "yes"@)
}

/// A word that reads as false (`false`, `0`, `no`, in any ASCII case).
pub open spec fn false_word(s: Seq<char>) -> bool {
    lower_is(s, "false"@) || lower_is(s, "0"@) || lower_is(s, "no"@)
}

/// Reads a boolean word: `true`, `1` or `yes` for true; `false`, `0` or `no` for false
/// (in any ASCII case).
pub fn parse_bool_word(s: &str) -> (r: Result<bool, String>)
    ensures
        match r {
            Ok(b) => bool_of(s@) == Some(b),
            Err(m) => bool_of(s@) is None && m@ == expected_text("true|false"@, s@),
        },
{
    if case_folded_equals(s, "true", false) || case_folded_equals(s, "1", false) || case_folded_equals(s, "yes", false) {
        Ok(true)
    } else if case_folded_equals(s, "false", false) || case_folded_equals(s, "0", false) || case_folded_equals(
        s,
        "no",
        false,
    ) {
        Ok(false)
    } else {
        Err(expected_message("true|false", s))
    }
}


/// A `/pi …` hardware command.
#[derive(Debug, Clone, Copy, PartialEq, Eq, Structural)]
pub enum PiCommand {
    Status,
    Health,
    Sensors,
    SensorsReset,
    TrackSpeed { track: u8, direction: TrackDirection, speed: u8 },
    TrackStop { track: u8 },
    AllStop,
    Point { point: u8, direction: PointDirection },
    Sensor { sensor: u8, value: bool },
}

/// The track direction a word names, if any.
pub open spec fn track_direction_of(w: Seq<char>) -> Option<TrackDirection> {
    if upper_is(w, "OFF"@) {
        Some(TrackDirection::Off)
    } else if upper_is(w, "FWD"@) {
        Some(TrackDirection::Fwd)
    } else if upper_is(w, "BCK"@) {
        Some(TrackDirection::Bck)
    } else {
        None
    }
}

/// The point direction a word names, if any.
pub open spec fn point_direction_of(w: Seq<char>) -> Option<PointDirection> {
    if upper_is(w, "THRU"@) {
        Some(PointDirection::Thru)
    } else if upper_is(w, "BRANCH"@) {
        Some(PointDirection::Branch)
    } else {
        None
    }
}

/// The boolean a word names, if any.
pub open spec fn bool_of(w: Seq<char>) -> Option<bool> {
    if true_word(w) {
        Some(true)
    } else if false_word(w) {
        Some(false)
    } else {
        None
    }
}

/// The `/pi track …` command of the words of a line, or its error message.
pub open spec fn track_command_spec(w: Seq<Seq<char>>) -> Result<PiCommand, Seq<char>> {
    let n = w.len();
    if n >= 3 && w[2] == "speed"@ {
        if n < 6 {
            Err("/pi track speed <id> OFF|FWD|BCK <speed> — not enough arguments"@)
        } else {
            match u8_text_value(w[3]) {
                None => Err("invalid track id "@ + debug_text(w[3])),
                Some(track) => match track_direction_of(w[4]) {
                    None => Err(expected_text("OFF|FWD|BCK"@, w[4])),
                    Some(direction) => match u8_text_value(w[5]) {
                        None => Err("invalid speed "@ + debug_text(w[5])),
                        Some(speed) => Ok(PiCommand::TrackSpeed { track, direction, speed }),
                    },
                },
            }
        }
    } else if n >= 3 && w[2] == "stop"@ {
        if n < 4 {
            Err("/pi track stop <id>"@)
        } else {
            match u8_text_value(w[3]) {
                None => Err("invalid track id "@ + debug_text(w[3])),
                Some(track) => Ok(PiCommand::TrackStop { track }),
            }
        }
    } else {
        Err("/pi track speed … or /pi track stop …"@)
    }
}

/// The `/pi …` command of the words of a line, or its error message.
pub open spec fn pi_command_spec(w: Seq<Seq<char>>) -> Result<PiCommand, Seq<char>> {
    let n = w.len();
    if n == 0 || w[0] != "/pi"@ {
        Err("expected line to start with /pi"@)
    } else if n < 2 {
        Err("/pi: add a subcommand (status, health, sensors, track, …)"@)
    } else if w[1] == "status"@ {
        Ok(PiCommand::Status)
    } else if w[1] == "health"@ {
        Ok(PiCommand::Health)
    } else if w[1] == "sensors"@ {
        if n == 3 && w[2] == "reset"@ {
            Ok(PiCommand::SensorsReset)
        } else if n == 2 {
            Ok(PiCommand::Sensors)
        } else {
            Err("/pi sensors [reset] — use `/pi sensors` or `/pi sensors reset`"@)
        }
    } else if w[1] == "track"@ {
        track_command_spec(w)
    } else if w[1] == "allstop"@ {
        Ok(PiCommand::AllStop)
    } else if w[1] == "point"@ {
        if n < 4 {
            Err("/pi point <id> THRU|BRANCH"@)
        } else {
            match u8_text_value(w[2]) {
                None => Err("invalid point id "@ + debug_text(w[2])),
                Some(point) => match point_direction_of(w[3]) {
                    None => Err(expected_text("THRU|BRANCH"@, w[3])),
                    Some(direction) => Ok(PiCommand::Point { point, direction }),
                },
            }
        }
    } else if w[1] == "sensor"@ {
        if n < 4 {
            Err("/pi sensor <id> true|false"@)
        } else {
            match u8_text_value(w[2]) {
                None => Err("invalid sensor id "@ + debug_text(w[2])),
                Some(sensor) => match bool_of(w[3]) {
                    None => Err(expected_text("true|false"@, w[3])),
                    Some(value) => Ok(PiCommand::Sensor { sensor, value }),
                },
            }
        }
    } else {
        Err("unknown /pi subcommand "@ + debug_text(w[1]))
    }
}

/// The word is the given literal.
fn word_is(w: &String, lit: &str) -> (b: bool)
    ensures
        b == (w@ == lit@),
{
    *w == String::from_str(lit)
}

/// `prefix` followed by the `{:?}` form of `w`.
fn quoted_message(prefix: &str, w: &String) -> (m: String)
    ensures
        m@ == prefix@ + debug_text(w@),
{
    let mut m = String::new();
    push_str(&mut m, prefix);
    let q = debug_quote(w.as_str());
    push_str(&mut m, q.as_str());
    assert(m@ =~= prefix@ + debug_text(w@));
    m
}

/// The message of a failed command, as a string.
fn message(s: &str) -> (m: String)
    ensures
        m@ == s@,
{
    String::from_str(s)
}

/// The `/pi track …` command of the words of a line.
fn parse_track_command(w: &Vec<String>) -> (r: Result<PiCommand, String>)
    requires
        w@.len() >= 2,
    ensures
        match r {
            Ok(c) => track_command_spec(w@.map_values(|x: String| x@)) == Ok::<PiCommand, Seq<char>>(c),
            Err(m) => track_command_spec(w@.map_values(|x: String| x@)) == Err::<PiCommand, Seq<char>>(m@),
        },
{
    let ghost ws = w@.map_values(|x: String| x@);
    let n = w.len();
    if n >= 3 && word_is(&w[2], "speed") {
        if n < 6 {
            return Err(message("/pi track speed <id> OFF|FWD|BCK <speed> — not enough arguments"));
        }
        assert(ws[3] == w@[3]@ && ws[4] == w@[4]@ && ws[5] == w@[5]@);
        let track = match parse_u8_text(w[3].as_str()) {
            Some(t) => t,
            None => {
                return Err(quoted_message("invalid track id ", &w[3]));
            },
        };
        let direction = match parse_track_direction(w[4].as_str()) {
            Ok(d) => d,
            Err(m) => {
                return Err(m);
            },
        };
        let speed = match parse_u8_text(w[5].as_str()) {
            Some(s) => s,
            None => {
                return Err(quoted_message("invalid speed ", &w[5]));
            },
        };
        Ok(PiCommand::TrackSpeed { track, direction, speed })
    } else if n >= 3 && word_is(&w[2], "stop") {
        if n < 4 {
            return Err(message("/pi track stop <id>"));
        }
        assert(ws[3] == w@[3]@);
        match parse_u8_text(w[3].as_str()) {
            Some(track) => Ok(PiCommand::TrackStop { track }),
            None => Err(quoted_message("invalid track id ", &w[3])),
        }
    } else {
        Err(message("/pi track speed … or /pi track stop …"))
    }
}

/// Reads a `/pi …` command line: the sub-command and its arguments, or a message saying
/// what is wrong with it.
pub fn parse_pi_command(line: &str) -> (r: Result<PiCommand, String>)
    ensures
        match r {
            Ok(c) => pi_command_spec(whitespace_words(line@)) == Ok::<PiCommand, Seq<char>>(c),
            Err(m) => pi_command_spec(whitespace_words(line@)) == Err::<PiCommand, Seq<char>>(m@),
        },
{
    let w = split_words(line);
    let ghost ws = w@.map_values(|x: String| x@);
    let n = w.len();
    if n == 0 || !word_is(&w[0], "/pi") {
        return Err(message("expected line to start with /pi"));
    }
    if n < 2 {
        return Err(message("/pi: add a subcommand (status, health, sensors, track, …)"));
    }
    assert(ws[1] == w@[1]@);
    if word_is(&w[1], "status") {
        Ok(PiCommand::Status)
    } else if word_is(&w[1], "health") {
        Ok(PiCommand::Health)
    } else if word_is(&w[1], "sensors") {
        if n == 3 && word_is(&w[2], "reset") {
            Ok(PiCommand::SensorsReset)
        } else if n == 2 {
            Ok(PiCommand::Sensors)
        } else {
            Err(message("/pi sensors [reset] — use `/pi sensors` or `/pi sensors reset`"))
        }
    } else if word_is(&w[1], "track") {
        parse_track_command(&w)
    } else if word_is(&w[1], "allstop") {
        Ok(PiCommand::AllStop)
    } else if word_is(&w[1], "point") {
        if n < 4 {
            return Err(message("/pi point <id> THRU|BRANCH"));
        }
        assert(ws[2] == w@[2]@ && ws[3] == w@[3]@);
        let point = match parse_u8_text(w[2].as_str()) {
            Some(p) => p,
            None => {
                return Err(quoted_message("invalid point id ", &w[2]));
            },
        };
        match parse_point_direction(w[3].as_str()) {
            Ok(direction) => Ok(PiCommand::Point { point, direction }),
            Err(m) => Err(m),
        }
    } else if word_is(&w[1], "sensor") {
        if n < 4 {
            return Err(message("/pi sensor <id> true|false"));
        }
        assert(ws[2] == w@[2]@ && ws[3] == w@[3]@);
        let sensor = match parse_u8_text(w[2].as_str()) {
            Some(s) => s,
            None => {
                return Err(quoted_message("invalid sensor id ", &w[2]));
            },
        };
        match parse_bool_word(w[3].as_str()) {
            Ok(value) => Ok(PiCommand::Sensor { sensor, value }),
            Err(m) => Err(m),
        }
    } else {
        Err(quoted_message("unknown /pi subcommand ", &w[1]))
    }
}


/// `s` begins with `p`.
pub open spec fn starts_with(s: Seq<char>, p: Seq<char>) -> bool {
    p.len() <= s.len() && s.take(p.len() as int) == p
}

/// `s` begins with `p`.
fn text_starts_with(s: &str, p: &str) -> (b: bool)
    ensures
        b == starts_with(s@, p@),
{
    let n = s.unicode_len();
    let m = p.unicode_len();
    if m > n {
        return false;
    }
    let mut i: usize = 0;
    while i < m
        invariant
            0 <= i <= m <= n,
            n == s@.len(),
            m == p@.len(),
            forall|k: int| 0 <= k < i ==> s@[k] == p@[k],
        decreases m - i,
    {
        if s.get_char(i) != p.get_char(i) {
            assert(s@.take(m as int)[i as int] != p@[i as int]);
            return false;
        }
        i = i + 1;
    }
    assert(s@.take(m as int) =~= p@);
    true
}

/// A service command line (the commands the HTTP service also offers).
#[derive(Debug, Clone, PartialEq, Eq)]
pub enum ServiceCommand {
    Health,
    Journal,
    Roadmap,
    Evolve,
    Automatic,
    AutomaticStatus,
    Stop,
    /// `/initialise` with its JSON body.
    Initialise(String),
    /// `/program` with its JSON body.
    Program(String),
    /// `/route` with its JSON body.
    Route(String),
    /// `/initialise`, `/program` or `/route` given without a body; holds the command.
    MissingBody(String),
    /// A `/pi …` line (see [`parse_pi_command`]).
    Pi(String),
    /// Not a service command.
    Other,
}

/// Value of a [`ServiceCommand`].
pub enum ServiceCommandView {
    Health,
    Journal,
    Roadmap,
    Evolve,
    Automatic,
    AutomaticStatus,
    Stop,
    Initialise(Seq<char>),
    Program(Seq<char>),
    Route(Seq<char>),
    MissingBody(Seq<char>),
    Pi(Seq<char>),
    Other,
}

impl View for ServiceCommand {
    type V = ServiceCommandView;

    open spec fn view(&self) -> ServiceCommandView {
        match self {
            ServiceCommand::Health => ServiceCommandView::Health,
            ServiceCommand::Journal => ServiceCommandView::Journal,
            ServiceCommand::Roadmap => ServiceCommandView::Roadmap,
            ServiceCommand::Evolve => ServiceCommandView::Evolve,
            ServiceCommand::Automatic => ServiceCommandView::Automatic,
            ServiceCommand::AutomaticStatus => ServiceCommandView::AutomaticStatus,
            ServiceCommand::Stop => ServiceCommandView::Stop,
            ServiceCommand::Initialise(b) => ServiceCommandView::Initialise(b@),
            ServiceCommand::Program(b) => ServiceCommandView::Program(b@),
            ServiceCommand::Route(b) => ServiceCommandView::Route(b@),
            ServiceCommand::MissingBody(c) => ServiceCommandView::MissingBody(c@),
            ServiceCommand::Pi(l) => ServiceCommandView::Pi(l@),
            ServiceCommand::Other => ServiceCommandView::Other,
        }
    }
}

/// A JSON command: its body (the rest of the line after the command, trimmed), or a
/// missing body.
pub open spec fn json_command(t: Seq<char>, command: Seq<char>, with_body: spec_fn(Seq<char>) -> ServiceCommandView) -> ServiceCommandView {
    let rest = trimmed(t.skip(command.len() as int));
    if rest.len() == 0 {
        ServiceCommandView::MissingBody(command)
    } else {
        with_body(rest)
    }
}

/// The service command a line asks for (the line is trimmed first): one of the plain
/// commands when it is exactly one of them, else a JSON command or `/pi` line by prefix.
pub open spec fn service_command_spec(line: Seq<char>) -> ServiceCommandView {
    let t = trimmed(line);
    if t == "/health"@ {
        ServiceCommandView::Health
    } else if t == "/journal"@ {
        ServiceCommandView::Journal
    } else if t == "/roadmap"@ {
        ServiceCommandView::Roadmap
    } else if t == "/evolve"@ {
        ServiceCommandView::Evolve
    } else if t == "/automatic"@ {
        ServiceCommandView::Automatic
    } else if t == "/automatic/status"@ {
        ServiceCommandView::AutomaticStatus
    } else if t == "/stop"@ {
        ServiceCommandView::Stop
    } else if starts_with(t, "/initialise"@) {
        json_command(t, "/initialise"@, |b: Seq<char>| ServiceCommandView::Initialise(b))
    } else if starts_with(t, "/program"@) {
        json_command(t, "/program"@, |b: Seq<char>| ServiceCommandView::Program(b))
    } else if starts_with(t, "/route"@) {
        json_command(t, "/route"@, |b: Seq<char>| ServiceCommandView::Route(b))
    } else if starts_with(t, "/pi"@) {
        ServiceCommandView::Pi(t)
    } else {
        ServiceCommandView::Other
    }
}

/// The trimmed rest of `t` after `command` (which `t` starts with).
fn rest_after(t: &String, command: &str) -> (r: String)
    requires
        starts_with(t@, command@),
    ensures
        r@ == trimmed(t@.skip(command@.len() as int)),
{
    let n = t.as_str().unicode_len();
    let m = command.unicode_len();
    let rest = t.as_str().substring_char(m, n);
    assert(rest@ =~= t@.skip(m as int));
    trim_text(rest)
}

/// Reads which service command a line asks for.
pub fn classify_service_line(line: &str) -> (c: ServiceCommand)
    ensures
        c@ == service_command_spec(line@),
{
    let t = trim_text(line);
    if word_is(&t, "/health") {
        ServiceCommand::Health
    } else if word_is(&t, "/journal") {
        ServiceCommand::Journal
    } else if word_is(&t, "/roadmap") {
        ServiceCommand::Roadmap
    } else if word_is(&t, "/evolve") {
        ServiceCommand::Evolve
    } else if word_is(&t, "/automatic") {
        ServiceCommand::Automatic
    } else if word_is(&t, "/automatic/status") {
        ServiceCommand::AutomaticStatus
    } else if word_is(&t, "/stop") {
        ServiceCommand::Stop
    } else if text_starts_with(t.as_str(), "/initialise") {
        let rest = rest_after(&t, "/initialise");
        if rest.as_str().unicode_len() == 0 {
            ServiceCommand::MissingBody(String::from_str("/initialise"))
        } else {
            ServiceCommand::Initialise(rest)
        }
    } else if text_starts_with(t.as_str(), "/program") {
        let rest = rest_after(&t, "/program");
        if rest.as_str().unicode_len() == 0 {
            ServiceCommand::MissingBody(String::from_str("/program"))
        } else {
            ServiceCommand::Program(rest)
        }
    } else if text_starts_with(t.as_str(), "/route") {
        let rest = rest_after(&t, "/route");
        if rest.as_str().unicode_len() == 0 {
            ServiceCommand::MissingBody(String::from_str("/route"))
        } else {
            ServiceCommand::Route(rest)
        }
    } else if text_starts_with(t.as_str(), "/pi") {
        ServiceCommand::Pi(t)
    } else {
        ServiceCommand::Other
    }
}

} // verus!
