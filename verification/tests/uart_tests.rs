use product::uart::{CmdCall, CmdOutcome, CmdStep, UartAction, UartCmd, UartServer};
use product::StationError;

#[test]
fn test_filter_lines() {
    let ret = UartServer::filter_lines(&vec![], &"".to_string()).unwrap();
    assert_eq!(ret, None);
    let ret = UartServer::filter_lines(&vec![], &"\n".to_string()).unwrap();
    assert_eq!(ret, None);
    let ret = UartServer::filter_lines(&vec![], &"\r\nOpenWrt login:".to_string()).unwrap();
    assert_eq!(ret, Some("OpenWrt login:".to_string()));
}

#[test]
fn filter_lines_drops_prefixed_lines() {
    let ret = UartServer::filter_lines(&vec!["log,"], "log,noise\nanswer\nlog,more\n").unwrap();
    assert_eq!(ret, Some("answer".to_string()));
    let ret = UartServer::filter_lines(&vec!["log,"], "log,a\nlog,b\n").unwrap();
    assert_eq!(ret, None);
}

#[test]
fn filter_lines_trims_kept_lines() {
    let ret = UartServer::filter_lines(&vec![], "  padded  \n").unwrap();
    assert_eq!(ret, Some("padded".to_string()));
}

#[test]
fn filter_lines_invalid_char_is_framing_error() {
    let ret = UartServer::filter_lines(&vec![">"], ">prompt\n");
    assert_eq!(ret, Err(StationError::Framing));
    let ret = UartServer::filter_lines(&vec![">"], "fine\n").unwrap();
    assert_eq!(ret, Some("fine".to_string()));
}

#[test]
fn wait_command_writes_only_after_marker() {
    let mut srv = UartServer::new("dev", 115200, 1000, vec!["noise".to_string()]);
    let acts = srv.on_command(UartCmd::Wait("OK".to_string(), "go\n".to_string()));
    assert!(acts.is_empty());
    let acts = srv.on_read("noise\n");
    assert!(acts.is_empty());
    let acts = srv.on_idle();
    assert!(acts.is_empty(), "nothing may be written while only noise arrived");
    let acts = srv.on_read("OK ready\n");
    assert!(acts.is_empty());
    let acts = srv.on_idle();
    assert_eq!(acts.len(), 1);
    match &acts[0] {
        UartAction::WriteAfterMarker(s) => assert_eq!(s, "go\n"),
        other => panic!("expected the armed payload write, got {:?}", order_name(other)),
    }
}

fn order_name(a: &UartAction) -> &'static str {
    match a {
        UartAction::WriteCommand(_) => "WriteCommand",
        UartAction::WriteAfterMarker(_) => "WriteAfterMarker",
        UartAction::Deliver(_) => "Deliver",
        UartAction::Recover => "Recover",
    }
}

#[test]
fn immediate_command_delivers_filtered_reply() {
    let mut srv = UartServer::new("dev", 115200, 1000, vec![]);
    let acts = srv.on_command(UartCmd::NoWait("stat\n".to_string()));
    assert_eq!(acts.len(), 1);
    match &acts[0] {
        UartAction::WriteCommand(s) => assert_eq!(s, "stat\n"),
        _ => panic!("the command must be written at once"),
    }
    let acts = srv.on_read("reply\r\n");
    assert!(acts.is_empty());
    let acts = srv.on_idle();
    assert_eq!(acts.len(), 1);
    match &acts[0] {
        UartAction::Deliver(s) => assert_eq!(s, "reply"),
        _ => panic!("the reply must be delivered"),
    }
}

#[test]
fn terminal_echo_is_filtered_from_reply() {
    let mut srv = UartServer::new("dev", 115200, 1000, vec![]).set_tty(true);
    let _ = srv.on_command(UartCmd::NoWait("stat\n".to_string()));
    let _ = srv.on_read("stat\nvalue=3\n");
    let acts = srv.on_idle();
    assert_eq!(acts.len(), 1);
    match &acts[0] {
        UartAction::Deliver(s) => assert_eq!(s, "value=3"),
        _ => panic!("only the non-echo line may be delivered"),
    }
}

#[test]
fn invalid_char_on_line_asks_for_recovery() {
    let mut srv = UartServer::new("dev", 115200, 1000, vec![">".to_string()]);
    let _ = srv.on_read(">broken\n");
    let acts = srv.on_idle();
    assert_eq!(acts.len(), 1);
    assert!(matches!(acts[0], UartAction::Recover));
}

#[test]
fn small_reads_only_accumulate() {
    let mut srv = UartServer::new("dev", 115200, 1000, vec![]);
    let acts = srv.on_read("partial");
    assert!(acts.is_empty());
    assert_eq!(srv.line_buf, "partial");
    let acts = srv.on_idle();
    assert!(acts.is_empty(), "no caller waits, so a flush only drops the buffer");
    assert!(srv.line_buf.is_empty());
}

#[test]
fn command_times_out_after_three_attempts() {
    let d: u64 = 3;
    let mut call = CmdCall::new(d);
    match call.on_outcome(CmdOutcome::TimedOut) {
        CmdStep::RetryAfterSleep(s) => assert_eq!(s, 1),
        _ => panic!("the first timeout must retry after one second"),
    }
    match call.on_outcome(CmdOutcome::TimedOut) {
        CmdStep::RetryAfterSleep(s) => assert_eq!(s, 2),
        _ => panic!("the second timeout must retry after two seconds"),
    }
    match call.on_outcome(CmdOutcome::TimedOut) {
        CmdStep::Done(r) => assert_eq!(r, Err(StationError::CommandTimeout)),
        _ => panic!("the third timeout must end the call"),
    }
    assert!(call.finished);
    assert_eq!(call.elapsed_secs, 3 * d + 3);
    assert!(call.elapsed_secs >= d + 1 + 2);
}

#[test]
fn command_accounting_fits_the_widest_timeout() {
    // The greatest per-attempt timeout the policy accepts: three waits plus
    // both backoff sleeps land just inside the sixty-four-bit counter.
    let d: u64 = 6_148_914_691_236_517_203;
    let mut call = CmdCall::new(d);
    assert!(matches!(call.on_outcome(CmdOutcome::TimedOut), CmdStep::RetryAfterSleep(1)));
    assert!(matches!(call.on_outcome(CmdOutcome::TimedOut), CmdStep::RetryAfterSleep(2)));
    match call.on_outcome(CmdOutcome::TimedOut) {
        CmdStep::Done(r) => assert_eq!(r, Err(StationError::CommandTimeout)),
        _ => panic!("the third timeout must end the call"),
    }
    assert_eq!(call.elapsed_secs, u64::MAX - 3);
}

#[test]
fn command_reply_ends_the_call() {
    let mut call = CmdCall::new(5);
    match call.on_outcome(CmdOutcome::Reply("done".to_string())) {
        CmdStep::Done(r) => assert_eq!(r, Ok("done".to_string())),
        _ => panic!("a reply must end the call"),
    }
    let mut call = CmdCall::new(5);
    match call.on_outcome(CmdOutcome::ChannelError) {
        CmdStep::Done(r) => assert_eq!(r, Err(StationError::FatalIo)),
        _ => panic!("a closed channel must end the call"),
    }
}
