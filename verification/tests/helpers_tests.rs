use termfix::cli::Commands;
use termfix::fix::Count;
use termfix::helpers::{
    command_arguments, context_reply, is_context_command, normalize_for_tty, parse_error_reply,
    scan_termfix_commands, strip_clear_sequences_stream, termfix_action, CommandExecution,
    ProcessedPtyChunk, PtyPiece, TermfixAction,
};

#[test]
fn normalize_inserts_carriage_returns() {
    assert_eq!(normalize_for_tty(b"a\nb\n".to_vec()), b"a\r\nb\r\n".to_vec());
}

#[test]
fn normalize_keeps_existing_carriage_returns() {
    assert_eq!(normalize_for_tty(b"a\r\nb".to_vec()), b"a\r\nb".to_vec());
}

#[test]
fn normalize_leading_line_feed() {
    assert_eq!(normalize_for_tty(b"\n\n".to_vec()), b"\r\n\r\n".to_vec());
}

#[test]
fn normalize_empty() {
    assert_eq!(normalize_for_tty(Vec::new()), Vec::<u8>::new());
}

#[test]
fn normalize_is_idempotent_on_sample() {
    let once = normalize_for_tty(b"x\ny\r\nz\n\r\n".to_vec());
    assert_eq!(normalize_for_tty(once.clone()), once);
}

#[test]
fn strip_drops_form_feed() {
    let mut pending = Vec::new();
    assert_eq!(strip_clear_sequences_stream(&mut pending, b"\x0cabc"), b"abc".to_vec());
    assert!(pending.is_empty());
}

#[test]
fn strip_drops_screen_clear() {
    let mut pending = Vec::new();
    assert_eq!(
        strip_clear_sequences_stream(&mut pending, b"a\x1b[2Jb\x1b[3J"),
        b"ab".to_vec()
    );
}

#[test]
fn strip_drops_cursor_home_forms() {
    let mut pending = Vec::new();
    assert_eq!(
        strip_clear_sequences_stream(&mut pending, b"1\x1b[H2\x1b[1H3\x1b[1;1H4"),
        b"1234".to_vec()
    );
}

#[test]
fn strip_keeps_other_sequences() {
    let mut pending = Vec::new();
    assert_eq!(
        strip_clear_sequences_stream(&mut pending, b"\x1b[31mred\x1b[0m\x1b[2;3H"),
        b"\x1b[31mred\x1b[0m\x1b[2;3H".to_vec()
    );
}

#[test]
fn strip_keeps_unfinished_sequence_pending() {
    let mut pending = Vec::new();
    assert_eq!(strip_clear_sequences_stream(&mut pending, b"ok\x1b[12"), b"ok".to_vec());
    assert_eq!(pending, b"\x1b[12".to_vec());
}

#[test]
fn strip_split_clear_still_dropped() {
    let mut pending = Vec::new();
    assert_eq!(strip_clear_sequences_stream(&mut pending, b"ab\x1b[2"), b"ab".to_vec());
    assert_eq!(pending, b"\x1b[2".to_vec());
    assert_eq!(strip_clear_sequences_stream(&mut pending, b"Jc"), b"c".to_vec());
    assert!(pending.is_empty());
}

#[test]
fn strip_split_color_sequence_kept_whole() {
    let mut pending = Vec::new();
    assert_eq!(strip_clear_sequences_stream(&mut pending, b"\x1b[3"), Vec::<u8>::new());
    assert_eq!(strip_clear_sequences_stream(&mut pending, b"1mred"), b"\x1b[31mred".to_vec());
    assert!(pending.is_empty());
}

#[test]
fn strip_chunking_matches_whole() {
    let whole_input = b"a\x0c\x1b[2Jb\x1b[31mc\x1b[1;1Hd".to_vec();
    let mut q = Vec::new();
    let whole = strip_clear_sequences_stream(&mut q, &whole_input);
    for cut in 0..=whole_input.len() {
        if cut > 0 && whole_input[cut - 1] == 0x1b {
            continue;
        }
        let mut p = Vec::new();
        let mut out = strip_clear_sequences_stream(&mut p, &whole_input[..cut]);
        out.extend(strip_clear_sequences_stream(&mut p, &whole_input[cut..]));
        assert_eq!(out, whole, "cut at {}", cut);
        assert_eq!(p, q);
    }
}

#[test]
fn strip_consumes_pending_first() {
    let mut pending = b"\x1b[".to_vec();
    assert_eq!(strip_clear_sequences_stream(&mut pending, b"Jtext"), b"text".to_vec());
    assert!(pending.is_empty());
}

#[test]
fn strip_keeps_lone_escape_at_end() {
    let mut pending = Vec::new();
    assert_eq!(strip_clear_sequences_stream(&mut pending, b"a\x1b"), b"a\x1b".to_vec());
}

#[test]
fn scan_finds_termfix_command() {
    let mut pending = Vec::new();
    let pieces = scan_termfix_commands(&mut pending, b"ab\x1b]1337;TERMFIX_CMD=status\x07cd");
    assert_eq!(pieces.len(), 3);
    assert!(matches!(&pieces[0], PtyPiece::Passthrough(b) if b == b"ab"));
    assert!(matches!(&pieces[1], PtyPiece::Command(c) if c == b"status"));
    assert!(matches!(&pieces[2], PtyPiece::Passthrough(b) if b == b"cd"));
    assert!(pending.is_empty());
}

#[test]
fn scan_passes_other_osc_sequences() {
    let mut pending = Vec::new();
    let pieces = scan_termfix_commands(&mut pending, b"a\x1b]133;C\x1b\\b");
    assert_eq!(pieces.len(), 1);
    assert!(matches!(&pieces[0], PtyPiece::Passthrough(b) if b == b"a\x1b]133;C\x1b\\b"));
}

#[test]
fn scan_command_with_string_terminator() {
    let mut pending = b"\x1b]1337;TERMFIX_".to_vec();
    let pieces = scan_termfix_commands(&mut pending, b"CMD=fix\x1b\\");
    assert_eq!(pieces.len(), 1);
    assert!(matches!(&pieces[0], PtyPiece::Command(c) if c == b"fix"));
}

#[test]
fn scan_keeps_unterminated_osc_pending() {
    let mut pending = Vec::new();
    let pieces = scan_termfix_commands(&mut pending, b"xy\x1b]1337;TERMFIX_CMD=sta");
    assert_eq!(pieces.len(), 1);
    assert!(matches!(&pieces[0], PtyPiece::Passthrough(b) if b == b"xy"));
    assert_eq!(pending, b"\x1b]1337;TERMFIX_CMD=sta".to_vec());
}

#[test]
fn split_command_runs_whole_next_read() {
    let mut pending = Vec::new();
    let mut first = ProcessedPtyChunk::new();
    for piece in scan_termfix_commands(&mut pending, b"x\x1b]1337;TERMFIX_") {
        match piece {
            PtyPiece::Passthrough(b) => first.push_passthrough(&b),
            PtyPiece::Command(_) => panic!("no command yet"),
        }
    }
    assert_eq!(first.display, b"x".to_vec());
    assert_eq!(first.capture, b"x".to_vec());
    assert_eq!(pending, b"\x1b]1337;TERMFIX_".to_vec());
    let mut second = ProcessedPtyChunk::new();
    for piece in scan_termfix_commands(&mut pending, b"CMD=status\x07y") {
        match piece {
            PtyPiece::Passthrough(b) => second.push_passthrough(&b),
            PtyPiece::Command(c) => {
                assert_eq!(c, b"status".to_vec());
                let command = String::from_utf8_lossy(&c).into_owned();
                let reply = match termfix_action(Some(Commands::Status)) {
                    TermfixAction::Reply(b) => b,
                    _ => panic!("status replies"),
                };
                second.record_execution(&command, CommandExecution::Buffered(reply));
            }
        }
    }
    assert_eq!(second.display, b"active\r\ny".to_vec());
    assert_eq!(second.capture, b"active\r\ny".to_vec());
    assert!(pending.is_empty());
}

#[test]
fn scan_empty_input_gives_nothing() {
    let mut pending = Vec::new();
    assert!(scan_termfix_commands(&mut pending, b"").is_empty());
}

#[test]
fn context_command_detection() {
    assert!(is_context_command("  context\n"));
    assert!(is_context_command("context"));
    assert!(!is_context_command("contexts"));
    assert!(!is_context_command("fix"));
}

#[test]
fn record_buffered_reply() {
    let mut p = ProcessedPtyChunk::new();
    p.push_passthrough(b"$ ");
    p.record_execution("status", CommandExecution::Buffered(b"active\r\n".to_vec()));
    assert_eq!(p.display, b"$ active\r\n".to_vec());
    assert_eq!(p.capture, b"$ active\r\n".to_vec());
}

#[test]
fn record_context_reply_as_placeholder() {
    let mut p = ProcessedPtyChunk::new();
    p.record_execution("context", CommandExecution::Buffered(b"[{...}]\r\n".to_vec()));
    assert_eq!(p.display, b"[{...}]\r\n".to_vec());
    assert_eq!(p.capture, b"<User session context>\r\n".to_vec());
}

#[test]
fn record_streamed_reply_adds_nothing() {
    let mut p = ProcessedPtyChunk::new();
    p.record_execution("fix", CommandExecution::Streamed);
    assert!(p.display.is_empty());
    assert!(p.capture.is_empty());
}

#[test]
fn record_failure_message() {
    let mut p = ProcessedPtyChunk::new();
    p.record_failure(b"no key\nset");
    assert_eq!(p.display, b"termfix error: no key\r\nset\r\n".to_vec());
    assert_eq!(p.capture, p.display);
}

#[test]
fn action_for_each_subcommand() {
    assert!(matches!(termfix_action(Some(Commands::Start)), TermfixAction::Reply(b) if b == b"already active\r\n"));
    assert!(matches!(termfix_action(Some(Commands::Status)), TermfixAction::Reply(b) if b == b"active\r\n"));
    assert!(matches!(termfix_action(Some(Commands::Context)), TermfixAction::ShowContext));
    assert!(matches!(
        termfix_action(Some(Commands::Fix { message: None, count: None, all: false })),
        TermfixAction::StreamFix { count: Count::Number(1), message: None }
    ));
    assert!(matches!(
        termfix_action(Some(Commands::Fix { message: Some("why?".to_string()), count: Some(3), all: false })),
        TermfixAction::StreamFix { count: Count::Number(3), message: Some(m) } if m == "why?"
    ));
    assert!(matches!(
        termfix_action(Some(Commands::Fix { message: None, count: None, all: true })),
        TermfixAction::StreamFix { count: Count::All, message: None }
    ));
    assert!(matches!(termfix_action(None), TermfixAction::Reply(b) if b == b"Error\r\n"));
}

#[test]
fn context_reply_ends_line() {
    assert_eq!(context_reply(b"[]"), b"[]\r\n".to_vec());
    assert_eq!(context_reply(b"a\nb"), b"a\r\nb\r\n".to_vec());
}

#[test]
fn parse_error_reply_ends_line() {
    assert_eq!(parse_error_reply(b"error: bad\nusage"), b"error: bad\r\nusage\r\n".to_vec());
}

#[test]
fn arguments_split_on_unicode_white_space() {
    let args = command_arguments("termfix", "  fix \t--count\u{3000}3  ");
    assert_eq!(args, vec!["termfix", "fix", "--count", "3"]);
}

#[test]
fn arguments_of_blank_command() {
    assert_eq!(command_arguments("prog", "   "), vec!["prog"]);
}

#[test]
fn normalize_by_chunks_matches_whole() {
    let whole = normalize_for_tty(b"ab\ncd\n".to_vec());
    let mut parts = normalize_for_tty(b"ab".to_vec());
    parts.extend(normalize_for_tty(b"\ncd\n".to_vec()));
    assert_eq!(parts, whole);
}

#[test]
fn normalize_by_chunks_split_crlf_differs() {
    let whole = normalize_for_tty(b"a\r\nb".to_vec());
    let mut parts = normalize_for_tty(b"a\r".to_vec());
    parts.extend(normalize_for_tty(b"\nb".to_vec()));
    assert_eq!(whole, b"a\r\nb".to_vec());
    assert_eq!(parts, b"a\r\r\nb".to_vec());
}

#[test]
fn every_line_feed_follows_carriage_return() {
    let out = normalize_for_tty(b"\n\r\n\n\rx\n".to_vec());
    for (i, b) in out.iter().enumerate() {
        if *b == b'\n' {
            assert!(i > 0 && out[i - 1] == b'\r');
        }
    }
}

#[test]
fn plain_text_survives_clear_filter() {
    let mut pending = Vec::new();
    let text = b"total 48\r\ndrwxr-xr-x  2 user\r\n".to_vec();
    assert_eq!(strip_clear_sequences_stream(&mut pending, &text), text);
}

#[test]
fn plain_output_is_one_piece() {
    let mut pending = Vec::new();
    let pieces = scan_termfix_commands(&mut pending, b"hello\r\nworld");
    assert_eq!(pieces.len(), 1);
    assert!(matches!(&pieces[0], PtyPiece::Passthrough(b) if b == b"hello\r\nworld"));
}

#[test]
fn lone_command_sequence_leaks_nothing() {
    let mut pending = Vec::new();
    let pieces = scan_termfix_commands(&mut pending, b"\x1b]1337;TERMFIX_CMD=context\x07");
    assert_eq!(pieces.len(), 1);
    assert!(matches!(&pieces[0], PtyPiece::Command(c) if c == b"context"));
}

#[derive(Debug, PartialEq)]
enum Unit {
    Byte(u8),
    Cmd(Vec<u8>),
}

fn units(pieces: Vec<PtyPiece>) -> Vec<Unit> {
    let mut out = Vec::new();
    for p in pieces {
        match p {
            PtyPiece::Passthrough(b) => out.extend(b.into_iter().map(Unit::Byte)),
            PtyPiece::Command(c) => out.push(Unit::Cmd(c)),
        }
    }
    out
}

#[test]
fn termfix_scan_chunking_matches_whole() {
    let input = b"a\x1b]133;C\x07b\x1b]1337;TERMFIX_CMD=status\x07c\x1b]1337;TERMFIX_CMD=fix -c 2\x1b\\d".to_vec();
    let mut q = Vec::new();
    let whole = units(scan_termfix_commands(&mut q, &input));
    for cut in 0..=input.len() {
        if cut > 0 && input[cut - 1] == 0x1b && cut < input.len() && input[cut] == b']' {
            continue;
        }
        let mut p = Vec::new();
        let mut got = units(scan_termfix_commands(&mut p, &input[..cut]));
        got.extend(units(scan_termfix_commands(&mut p, &input[cut..])));
        assert_eq!(got, whole, "cut at {}", cut);
        assert_eq!(p, q);
    }
}
