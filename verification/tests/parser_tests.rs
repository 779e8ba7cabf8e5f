use termfix::parser::{
    finish_command, parse_osc_133_event, split_command_regions, strip_legacy_title_sequences,
};

#[test]
fn title_sequence_removed() {
    assert_eq!(strip_legacy_title_sequences(b"a\x1bkTITLE\x1b\\b"), b"ab".to_vec());
}

#[test]
fn unterminated_title_keeps_last_byte() {
    assert_eq!(strip_legacy_title_sequences(b"a\x1bkxyz"), b"az".to_vec());
}

#[test]
fn title_start_at_end_removed() {
    assert_eq!(strip_legacy_title_sequences(b"a\x1bk"), b"a".to_vec());
}

#[test]
fn other_escapes_kept() {
    assert_eq!(strip_legacy_title_sequences(b"\x1b[1mx\x1b"), b"\x1b[1mx\x1b".to_vec());
}

#[test]
fn osc_133_events() {
    assert_eq!(parse_osc_133_event(b"133;B"), Some(b'B'));
    assert_eq!(parse_osc_133_event(b"133;D;0"), Some(b'D'));
    assert_eq!(parse_osc_133_event(b"133;"), None);
    assert_eq!(parse_osc_133_event(b"7;file://host"), None);
    assert_eq!(parse_osc_133_event(b""), None);
}

#[test]
fn regions_of_two_commands() {
    let input = b"\x1b]133;B\x07ls\x1b]133;C\x07a b\r\n\x1b]133;D;0\x07\x1b]133;A\x07\
prompt\x1b]133;B\x1b\\pwd\x1b]133;C\x07/home\x1b]133;D\x07";
    let regions = split_command_regions(input);
    assert_eq!(regions.len(), 2);
    assert_eq!(regions[0].command, b"ls".to_vec());
    assert_eq!(regions[0].output, b"a b\r\n".to_vec());
    assert_eq!(regions[1].command, b"pwd".to_vec());
    assert_eq!(regions[1].output, b"/home".to_vec());
}

#[test]
fn regions_skip_empty_command() {
    let input = b"\x1b]133;B\x07\x1b]133;C\x07\x1b]133;D\x07";
    assert!(split_command_regions(input).is_empty());
}

#[test]
fn regions_stop_at_unterminated_osc() {
    let input = b"\x1b]133;B\x07ls\x1b]133;C\x07out\x1b]133;D";
    assert!(split_command_regions(input).is_empty());
}

#[test]
fn regions_start_mark_clears_command_only() {
    let input = b"\x1b]133;C\x07early\x1b]133;B\x07x\x1b]133;B\x07y\x1b]133;D\x07";
    let regions = split_command_regions(input);
    assert_eq!(regions.len(), 1);
    assert_eq!(regions[0].command, b"y".to_vec());
    assert_eq!(regions[0].output, b"early".to_vec());
}

#[test]
fn regions_ignore_bytes_outside_marks() {
    let input = b"banner\x1b]133;B\x07echo\x1b]133;C\x07hi\x1b]133;D\x07tail";
    let regions = split_command_regions(input);
    assert_eq!(regions.len(), 1);
    assert_eq!(regions[0].command, b"echo".to_vec());
    assert_eq!(regions[0].output, b"hi".to_vec());
}

#[test]
fn finish_trims_command_and_output() {
    let res = finish_command("  ls -la \n", "\r\n\n  out  \n");
    assert_eq!(res, Some(("ls -la".to_string(), "  out".to_string())));
}

#[test]
fn finish_blank_command_records_nothing() {
    assert_eq!(finish_command(" \u{a0}\n", "output"), None);
}

#[test]
fn finish_unicode_white_space() {
    assert_eq!(
        finish_command("\u{3000}git status\u{2003}", ""),
        Some(("git status".to_string(), String::new()))
    );
}

#[test]
fn no_marks_no_commands() {
    assert!(split_command_regions(b"plain output\r\nwithout marks\r\n").is_empty());
}

#[test]
fn plain_text_unchanged_by_title_strip() {
    let text = b"user@host:~$ ls\r\n".to_vec();
    assert_eq!(strip_legacy_title_sequences(&text), text);
}

#[test]
fn unmarked_osc_insertion_changes_nothing() {
    let a = b"\x1b]133;B\x07ls\x1b]133;C\x07fi".to_vec();
    let b = b"le\x1b]133;D\x07".to_vec();
    let mut with = a.clone();
    with.extend(b"\x1b]0;title\x07");
    with.extend(&b);
    let mut without = a.clone();
    without.extend(&b);
    let r1 = split_command_regions(&with);
    let r2 = split_command_regions(&without);
    assert_eq!(r1.len(), 1);
    assert_eq!(r2.len(), 1);
    assert_eq!(r1[0].command, r2[0].command);
    assert_eq!(r1[0].output, b"file".to_vec());
    assert_eq!(r2[0].output, b"file".to_vec());
}

#[test]
fn prompt_text_after_end_mark_ignored() {
    let input = b"\x1b]133;B\x07pwd\x1b]133;C\x07/tmp\x1b]133;D;0\x07user@host % \x1b]133;B\x07x\x1b]133;D\x07";
    let regions = split_command_regions(input);
    assert_eq!(regions.len(), 2);
    assert_eq!(regions[0].output, b"/tmp".to_vec());
    assert_eq!(regions[1].command, b"x".to_vec());
    assert!(regions[1].output.is_empty());
}

#[test]
fn title_inserted_mid_text_removed() {
    assert_eq!(
        strip_legacy_title_sequences(b"abc\x1bkzsh: ls\x1b\\def"),
        strip_legacy_title_sequences(b"abcdef")
    );
}
