use termfix::fix::{
    bearer_authorization, config_file_path, fix_count, fix_endpoint, session_log_path, next_stream_action,
    output_start_marker_bytes, select_commands, Count, StreamAction, StreamEvent,
};
use termfix::helpers::CommandOutput;
use termfix::text::IntParseFailure;

fn cmd(c: &str) -> CommandOutput {
    CommandOutput {
        command: c.to_string(),
        output: format!("{c} out"),
    }
}

fn names(v: &[CommandOutput]) -> Vec<String> {
    v.iter().map(|c| c.command.clone()).collect()
}

#[test]
fn count_parse_all_and_numbers() {
    assert_eq!(Count::parse("all"), Ok(Count::All));
    assert_eq!(Count::parse("3"), Ok(Count::Number(3)));
    assert_eq!(Count::parse("+7"), Ok(Count::Number(7)));
    assert_eq!(Count::parse("ALL"), Err(IntParseFailure::InvalidDigit));
    assert_eq!(Count::parse(""), Err(IntParseFailure::Empty));
    assert_eq!(Count::parse("5000000000"), Err(IntParseFailure::PosOverflow));
}

#[test]
fn count_from_str() {
    assert_eq!("12".parse::<Count>(), Ok(Count::Number(12)));
    assert_eq!("all".parse::<Count>(), Ok(Count::All));
}

#[test]
fn count_text() {
    assert_eq!(Count::All.to_text(), "all");
    assert_eq!(Count::Number(0).to_text(), "0");
    assert_eq!(Count::Number(105).to_text(), "105");
}

#[test]
fn count_text_roundtrip() {
    for c in [Count::All, Count::Number(0), Count::Number(9), Count::Number(10), Count::Number(u32::MAX)] {
        assert_eq!(Count::parse(&c.to_text()), Ok(c));
    }
}

#[test]
fn select_all() {
    let all = vec![cmd("a"), cmd("b"), cmd("c")];
    assert_eq!(names(&select_commands(all, Count::All)), vec!["a", "b", "c"]);
}

#[test]
fn select_last_two() {
    let all = vec![cmd("a"), cmd("b"), cmd("c")];
    let sel = select_commands(all, Count::Number(2));
    assert_eq!(names(&sel), vec!["b", "c"]);
    assert_eq!(sel[1].output, "c out");
}

#[test]
fn select_more_than_recorded() {
    let all = vec![cmd("a"), cmd("b")];
    assert_eq!(names(&select_commands(all, Count::Number(10))), vec!["a", "b"]);
}

#[test]
fn select_zero() {
    let all = vec![cmd("a")];
    assert!(select_commands(all, Count::Number(0)).is_empty());
}

#[test]
fn config_path_under_home() {
    assert_eq!(
        config_file_path(Some("/home/u")),
        Some("/home/u/.termfix/config.toml".to_string())
    );
}

#[test]
fn config_path_needs_home() {
    assert_eq!(config_file_path(None), None);
}

#[test]
fn log_path_under_home() {
    assert_eq!(session_log_path("/home/u", 1700000000), "/home/u/.termfix/logs/1700000000.json");
    assert_eq!(session_log_path("/h", 0), "/h/.termfix/logs/0.json");
}

#[test]
fn fix_count_from_options() {
    assert_eq!(fix_count(None, false), Count::Number(1));
    assert_eq!(fix_count(Some(3), false), Count::Number(3));
    assert_eq!(fix_count(None, true), Count::All);
}

#[test]
fn endpoint_and_authorization() {
    assert_eq!(fix_endpoint("http://localhost:3000"), "http://localhost:3000/api/fix");
    assert_eq!(bearer_authorization("k3y"), "Bearer k3y");
}

#[test]
fn stream_actions() {
    assert!(matches!(next_stream_action(StreamEvent::Chunk(b"a\nb".to_vec())), StreamAction::Echo(b) if b == b"a\r\nb"));
    assert!(matches!(next_stream_action(StreamEvent::ReadFailed), StreamAction::Fail));
    assert!(matches!(next_stream_action(StreamEvent::Finished), StreamAction::Stop));
    assert!(matches!(
        next_stream_action(StreamEvent::TimedOut),
        StreamAction::Notify(b) if b == b"\r\ntermfix error: stream timed out after 15s idle\r\n"
    ));
}

#[test]
fn output_marker_bytes() {
    assert_eq!(output_start_marker_bytes(), b"\x1b]133;C\x07".to_vec());
}

#[test]
fn marker_opens_output_region() {
    let mut input = b"\x1b]133;B\x07termfix fix".to_vec();
    input.extend(output_start_marker_bytes());
    input.extend(b"answer\x1b]133;D\x07");
    let regions = termfix::parser::split_command_regions(&input);
    assert_eq!(regions.len(), 1);
    assert_eq!(regions[0].command, b"termfix fix".to_vec());
    assert_eq!(regions[0].output, b"answer".to_vec());
}
