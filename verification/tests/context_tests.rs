use termfix::cli::{launch_action, Commands, LaunchAction};
use termfix::context::ShellContext;

#[test]
fn new_context_is_empty() {
    let ctx = ShellContext::new();
    assert!(ctx.get_raw_context().is_empty());
}

#[test]
fn push_appends_in_order() {
    let mut ctx = ShellContext::new();
    ctx.push(b"ls\r\n");
    ctx.push(b"file.txt\r\n");
    assert_eq!(ctx.get_raw_context(), b"ls\r\nfile.txt\r\n".to_vec());
}

#[test]
fn reading_does_not_consume() {
    let mut ctx = ShellContext::new();
    ctx.push(b"abc");
    assert_eq!(ctx.get_raw_context(), b"abc".to_vec());
    assert_eq!(ctx.get_raw_context(), b"abc".to_vec());
}

#[test]
fn chunked_pushes_equal_one_push() {
    let mut a = ShellContext::new();
    a.push(b"he");
    a.push(b"llo");
    let mut b = ShellContext::new();
    b.push(b"hello");
    assert_eq!(a.get_raw_context(), b.get_raw_context());
}

#[test]
fn launch_actions_outside_session() {
    assert_eq!(launch_action(Some(Commands::Start)), LaunchAction::StartSession);
    assert_eq!(launch_action(Some(Commands::Status)), LaunchAction::ReportInactive);
    assert_eq!(launch_action(Some(Commands::Context)), LaunchAction::ReportNoContext);
    assert_eq!(launch_action(Some(Commands::Fix { message: None, count: None, all: false })), LaunchAction::ReportNoContext);
    assert_eq!(launch_action(None), LaunchAction::Fail);
}
