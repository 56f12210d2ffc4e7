use yoyo::commands::{
    classify_service_line, parse_bool_word, parse_pi_command, parse_point_direction, parse_track_direction, PiCommand,
    ServiceCommand,
};
use yoyo::console::{summary_key, tool_summary, truncate};
use yoyo::evolution::{
    agent_failure_message, config_from_settings, day_count_from, evolution_prompt, journal_with_transcript,
    skill_dirs_from, EvolutionError,
};
use yoyo::ids::{PointId, SensorId, TrackId};
use yoyo::pi_client::{PiClient, PiError, PointDirection, TrackDirection};

#[test]
fn parse_track_direction_fwd() {
    assert_eq!(parse_track_direction("fwd").unwrap(), TrackDirection::Fwd);
    assert_eq!(parse_track_direction("FWD").unwrap(), TrackDirection::Fwd);
}

#[test]
fn parse_track_direction_bad() {
    assert!(parse_track_direction("SIDEWAYS").is_err());
}

#[test]
fn parse_point_direction_thru() {
    assert_eq!(parse_point_direction("thru").unwrap(), PointDirection::Thru);
    assert_eq!(parse_point_direction("BRANCH").unwrap(), PointDirection::Branch);
}

#[test]
fn parse_point_direction_bad() {
    assert!(parse_point_direction("LEFT").is_err());
}

#[test]
fn parse_bool_word_true() {
    assert!(parse_bool_word("true").unwrap());
    assert!(parse_bool_word("1").unwrap());
    assert!(parse_bool_word("yes").unwrap());
}

#[test]
fn parse_bool_word_false() {
    assert!(!parse_bool_word("false").unwrap());
    assert!(!parse_bool_word("0").unwrap());
    assert!(!parse_bool_word("no").unwrap());
}

#[test]
fn parse_bool_word_bad() {
    assert!(parse_bool_word("maybe").is_err());
}

#[test]
fn parse_error_messages_quote_the_word() {
    assert_eq!(parse_bool_word("maybe").unwrap_err(), "expected true|false, got \"maybe\"");
    assert_eq!(parse_track_direction("up").unwrap_err(), "expected OFF|FWD|BCK, got \"up\"");
    assert!(parse_bool_word("YES").unwrap());
    assert_eq!(parse_track_direction("bCk").unwrap(), TrackDirection::Bck);
}

#[test]
fn pi_commands() {
    assert_eq!(parse_pi_command("/pi status"), Ok(PiCommand::Status));
    assert_eq!(parse_pi_command("/pi sensors reset"), Ok(PiCommand::SensorsReset));
    assert_eq!(parse_pi_command("/pi sensors"), Ok(PiCommand::Sensors));
    assert_eq!(
        parse_pi_command("/pi track speed 3 fwd 40"),
        Ok(PiCommand::TrackSpeed { track: 3, direction: TrackDirection::Fwd, speed: 40 })
    );
    assert_eq!(parse_pi_command("/pi track stop 7"), Ok(PiCommand::TrackStop { track: 7 }));
    assert_eq!(parse_pi_command("/pi point 5 BRANCH"), Ok(PiCommand::Point { point: 5, direction: PointDirection::Branch }));
    assert_eq!(parse_pi_command("/pi sensor 2 yes"), Ok(PiCommand::Sensor { sensor: 2, value: true }));
    assert_eq!(parse_pi_command("/pi allstop"), Ok(PiCommand::AllStop));
    assert_eq!(parse_pi_command("/pi"), Err("/pi: add a subcommand (status, health, sensors, track, …)".to_string()));
    assert_eq!(parse_pi_command("/pi point x THRU"), Err("invalid point id \"x\"".to_string()));
    assert_eq!(parse_pi_command("/pi track speed 3 fwd 300"), Err("invalid speed \"300\"".to_string()));
    assert_eq!(parse_pi_command("/pi dance"), Err("unknown /pi subcommand \"dance\"".to_string()));
    assert_eq!(parse_pi_command("/pi sensors now please"), Err("/pi sensors [reset] — use `/pi sensors` or `/pi sensors reset`".to_string()));
}

#[test]
fn service_lines() {
    assert_eq!(classify_service_line("  /health  "), ServiceCommand::Health);
    assert_eq!(classify_service_line("/automatic/status"), ServiceCommand::AutomaticStatus);
    assert_eq!(classify_service_line("/route {\"trains\":[]}"), ServiceCommand::Route("{\"trains\":[]}".to_string()));
    assert_eq!(classify_service_line("/initialise   "), ServiceCommand::MissingBody("/initialise".to_string()));
    assert_eq!(classify_service_line("/pi status"), ServiceCommand::Pi("/pi status".to_string()));
    assert_eq!(classify_service_line("hello"), ServiceCommand::Other);
}

#[test]
fn test_truncate_short_string() {
    assert_eq!(truncate("hello", 10), "hello");
}

#[test]
fn test_truncate_exact_length() {
    assert_eq!(truncate("hello", 5), "hello");
}

#[test]
fn test_truncate_long_string() {
    assert_eq!(truncate("hello world", 5), "hello");
}

#[test]
fn test_truncate_unicode() {
    assert_eq!(truncate("héllo wörld", 5), "héllo");
}

#[test]
fn test_truncate_empty() {
    assert_eq!(truncate("", 5), "");
}

#[test]
fn tool_summary_bash() {
    assert_eq!(summary_key("bash"), Some("command"));
    assert_eq!(tool_summary("bash", Some("ls -la")), "$ ls -la");
}

#[test]
fn tool_summary_read_file() {
    assert_eq!(summary_key("read_file"), Some("path"));
    assert_eq!(tool_summary("read_file", Some("src/main.rs")), "read src/main.rs");
}

#[test]
fn tool_summary_unknown_tool() {
    assert_eq!(summary_key("custom_tool"), None);
    assert_eq!(tool_summary("custom_tool", None), "custom_tool");
}

#[test]
fn tool_summary_placeholders() {
    assert_eq!(tool_summary("list_files", None), "ls .");
    assert_eq!(tool_summary("search", Some("needle")), "search 'needle'");
    assert_eq!(tool_summary("bash", None), "$ ...");
}

#[test]
fn default_base_url() {
    let c = PiClient::default();
    assert_eq!(c.base_url(), "http://192.168.1.80:5000");
}

#[test]
fn base_url_loses_trailing_slashes() {
    let c = PiClient::new("http://pi.local:5000//");
    assert_eq!(c.base_url(), "http://pi.local:5000");
    assert_eq!(PiError::Unreachable("timeout".into()).to_string(), "Pi unreachable: timeout");
}

#[test]
fn id_ranges() {
    assert!(TrackId::try_new(12).is_some());
    assert!(TrackId::try_new(13).is_none());
    assert!(SensorId::try_new(24).is_some());
    assert!(SensorId::try_new(0).is_none());
    assert!(PointId::try_new(13).is_some());
    assert!(PointId::try_new(14).is_none());
}

#[test]
fn prepend_journal_transcript_inserts_at_top() {
    let s = journal_with_transcript("## Old\n\nlegacy\n", 7, "Hello from session.");
    assert!(s.starts_with("## Session 7 — Evolution transcript"));
    assert!(s.contains("Hello from session."));
    assert!(s.contains("## Old"));
    assert!(s.find("## Session 7").unwrap() < s.find("## Old").unwrap());
}

#[test]
fn prepend_journal_transcript_empty_transcript() {
    let s = journal_with_transcript("", 1, "   \n");
    assert!(s.contains("_No assistant text"));
    assert!(s.ends_with('\n'));
}

#[test]
fn evolution_texts() {
    let p = evolution_prompt(3, "2026-01-02", "journal", "issues");
    assert!(p.starts_with("This is evolution session 3 (2026-01-02)."));
    assert!(p.contains("## Session 3 — [title]"));
    assert!(p.ends_with("Now begin. Read IDENTITY.md first."));
    assert_eq!(day_count_from(Some(" 12\n")), 12);
    assert_eq!(day_count_from(Some("x")), 1);
    assert_eq!(day_count_from(None), 1);
    assert_eq!(agent_failure_message("Anthropic overloaded"), "Anthropic overloaded");
    assert_eq!(agent_failure_message("bad key"), "API error: bad key");
    assert_eq!(skill_dirs_from(Some(" a, ,b ")), vec!["a".to_string(), "b".to_string()]);
    assert_eq!(skill_dirs_from(None), vec!["./skills".to_string()]);
    let c = config_from_settings(None, Some("k2"), Some("m1"), None).unwrap();
    assert_eq!(c.api_key, "k2");
    assert_eq!(c.model, "m1");
    assert_eq!(config_from_settings(None, None, None, None), Err("ANTHROPIC_API_KEY or API_KEY must be set".to_string()));
    assert_eq!(config_from_settings(Some("k1"), None, None, None), Err("MODEL must be set".to_string()));
    assert_eq!(EvolutionError::Agent("x".into()).to_string(), "agent error: x");
}
