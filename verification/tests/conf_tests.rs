use product::conf::{check_is_in, get_esl, get_esl_id_out, is_during, need_sleep_time, CgiParm, Opt};
use product::logfile::{journal_allows, log_init_journal, log_line_to_stderr, LogLevel};
use product::strutil::{i64_to_string, remove_all, trim, u64_to_string};

#[test]
fn default_options() {
    let o = Opt::default();
    assert_eq!(o.ip, "127.0.0.1");
    assert_eq!(o.port, 12345);
    assert_eq!(o.uart_sensor, "/dev/ttyLP3");
    assert_eq!(o.uart_ant, "/dev/ttyLP4");
    assert_eq!(o.ant_chn, 38);
    assert_eq!(o.eight_timeout, 60);
}

#[test]
fn cgi_parm_holds_plain_fields() {
    let p = CgiParm {
        ssl: "enabled".to_string(),
        wss: true,
        port: 8080,
        net_dhcp: true,
        net_iptype: "static".to_string(),
        ew_auto: false,
        ew_ipaddr: "example.com".to_string(),
        ew_port: 443,
        ew_ssl: true,
        ew_ssl_mutual_auth: false,
        ew_wss: true,
    };
    assert_eq!(p.port, 8080);
    assert!(p.wss && !p.ew_auto);
}

#[test]
fn tag_list_strips_the_id_prefix() {
    let r = get_esl("eslid=AB-CD\nplain line\neslid=  EF  \n");
    assert_eq!(r, vec!["AB-CD".to_string(), "plain line".to_string(), "EF".to_string()]);
    assert_eq!(get_esl(""), Vec::<String>::new());
}

#[test]
fn id_list_drops_comments_and_the_user_code_suffix() {
    let r = get_esl_id_out("# comment\nAA-BB=god.2\nCC-DD\n", "god.2");
    assert_eq!(r, vec!["AA-BB".to_string(), "CC-DD".to_string()]);
}

#[test]
fn sleep_window_length() {
    let args = ["10:00".to_string(), "10:30".to_string()];
    assert_eq!(need_sleep_time(&args), 1800);
    let args = ["00:00".to_string(), "23:59".to_string()];
    assert_eq!(need_sleep_time(&args), 23 * 3600 + 59 * 60);
    let args = ["08:15".to_string(), "08:15".to_string()];
    assert_eq!(need_sleep_time(&args), 0);
}

#[test]
fn missing_tags_are_listed() {
    let all = vec!["a".to_string(), "b".to_string(), "c".to_string()];
    let recv = vec!["c".to_string(), "a".to_string()];
    assert_eq!(check_is_in(&all, &recv), vec!["b".to_string()]);
    assert_eq!(check_is_in(&all, &all), Vec::<String>::new());
}

#[test]
fn daily_window_membership() {
    assert!(is_during("08:00", "10:00", 9 * 3600));
    assert!(is_during("08:00", "10:00", 8 * 3600));
    assert!(!is_during("08:00", "10:00", 7 * 3600));
    assert!(!is_during("08:00", "10:00", 10 * 3600 + 1));
}

#[test]
fn error_records_go_to_stderr() {
    assert!(log_line_to_stderr("x WARN y"));
    assert!(log_line_to_stderr("x ERROR y"));
    assert!(!log_line_to_stderr("x INFO y"));
}

#[test]
fn journal_identifier_from_the_arguments() {
    let c = log_init_journal(&vec!["/usr/bin/station".to_string()]);
    assert_eq!(c.identifier, "station");
    let c = log_init_journal(&vec!["station".to_string(), "product-test".to_string()]);
    assert_eq!(c.identifier, "product-test");
    let c = log_init_journal(&vec!["a/b/".to_string()]);
    assert_eq!(c.identifier, "b");
    let c = log_init_journal(&vec!["..".to_string()]);
    assert_eq!(c.identifier, "");
    let c = log_init_journal(&vec![]);
    assert_eq!(c.identifier, "unknown");
    assert_eq!(c.filter.len(), 7);
    assert_eq!(c.default_level, LogLevel::Debug);
}

#[test]
fn journal_filter_caps_noisy_modules() {
    let c = log_init_journal(&vec!["station".to_string()]);
    assert!(!journal_allows(&c, "anything", LogLevel::Trace));
    assert!(journal_allows(&c, "station::uart", LogLevel::Debug));
    assert!(!journal_allows(&c, "hyper::client::conn", LogLevel::Info));
    assert!(journal_allows(&c, "hyper::client::conn", LogLevel::Warn));
    assert!(journal_allows(&c, "reqwest", LogLevel::Error));
    assert!(!journal_allows(&c, "reqwest", LogLevel::Debug));
}

#[test]
fn number_and_string_helpers() {
    assert_eq!(u64_to_string(0), "0");
    assert_eq!(u64_to_string(1234567890), "1234567890");
    assert_eq!(i64_to_string(-42), "-42");
    assert_eq!(trim("  a b \r\n"), "a b");
    assert_eq!(remove_all("a=god.2,b=god.2", "=god.2"), "a,b");
    assert_eq!(remove_all("aaa", "aa"), "a");
}
