use wslforward::command::{
    add_rule_command, delete_rule_command, escape_single_quotes, exec, exec_checked, CommandOutcome,
};
use wslforward::data::{get_all_data, port_probe};
use wslforward::docker::{docker_matches, parse_docker_output};
use wslforward::firewall::{
    firewall_port_open, firewall_rule_name, local_port_matches, remove_firewall_rule_command,
    add_firewall_rule_command,
};
use wslforward::netsh::parse_netsh;
use wslforward::text::{chars_of, decimal_string, parse_u16_in};
use wslforward::watch::{watch_next, WatchAction, WatchOutcome};
use wslforward::wsl::{parse_wsl_ports, WslPortScan};

/// What PowerShell reads out of the body of a single-quoted literal.
fn read_quoted(t: &str) -> Option<String> {
    let mut out = String::new();
    let mut chars = t.chars().peekable();
    while let Some(c) = chars.next() {
        if c == '\'' {
            if chars.peek() == Some(&'\'') {
                chars.next();
                out.push('\'');
            } else {
                return None;
            }
        } else {
            out.push(c);
        }
    }
    Some(out)
}

#[test]
fn law_decimal_parses_back() {
    for p in [0u16, 1, 9, 10, 99, 100, 8080, 65535] {
        let d = decimal_string(p as u64);
        let cs = chars_of(&d);
        assert_eq!(parse_u16_in(&cs, 0, cs.len()), Some(p));
    }
}

#[test]
fn law_rule_name_has_no_quote() {
    for p in [0u16, 22, 8080, 65535] {
        assert!(!firewall_rule_name(p).contains('\''));
    }
}

#[test]
fn law_created_rule_opens_port() {
    for p in [1u16, 8080, 65535] {
        assert!(firewall_port_open(&[("TCP".to_string(), decimal_string(p as u64))], p));
    }
}

#[test]
fn law_any_local_port_never_opens() {
    for p in [0u16, 80, 8080, 65535] {
        assert!(!local_port_matches("Any", p));
        assert!(!firewall_port_open(&[("Any".to_string(), "Any".to_string()), ("TCP".to_string(), "Any".to_string())], p));
    }
}

#[test]
fn law_open_and_close_name_the_same_rule() {
    let open = add_firewall_rule_command("8080").unwrap();
    let close = remove_firewall_rule_command("8080").unwrap();
    assert!(open[4].contains("-Name 'WSLForward-8080'"));
    assert!(close[4].contains("-Name 'WSLForward-8080'"));
    assert!(open[4].contains("-LocalPort 8080 "));
}

#[test]
fn law_port_zero_never_listens() {
    let ports = parse_wsl_ports("tcp LISTEN 0 0 0.0.0.0:0 0.0.0.0:*\ntcp LISTEN 0 0 [::]:00 x\n");
    assert!(ports.is_empty());
}

#[test]
fn law_netsh_fields_are_words() {
    let raw = "Address Port Address Port\n  a\tb  c d e\n\u{3000}x y z w\n";
    for (a, b, c, d) in parse_netsh(raw) {
        for f in [a, b, c, d] {
            assert!(!f.is_empty());
            assert!(!f.chars().any(char::is_whitespace));
        }
    }
}

#[test]
fn law_docker_matches_are_exact() {
    let cs = parse_docker_output("a web 0.0.0.0:8080->80/tcp, 1.2.3.4:81->8080/udp, 0.0.0.0:1->2\nb api 127.0.0.1:8080->8080\n");
    let m = docker_matches(&cs, 8080);
    for x in &m {
        assert!(x.host_port == 8080 || x.container_port == Some(8080));
    }
    let mut expected = 0;
    for c in &cs {
        for p in &c.ports {
            if p.host_port == 8080 || p.container_port == Some(8080) {
                expected += 1;
                assert!(m.iter().any(|x| x.name == c.name && x.host_port == p.host_port && x.container_port == p.container_port && x.proto == p.proto));
            }
        }
    }
    assert_eq!(m.len(), expected);
    assert_eq!(expected, 3);
}

#[test]
fn law_escaped_path_reads_back() {
    for path in ["C:\\plain\\app.exe", "C:\\O'Brien\\app.exe", "''", "'", "", "a'''b"] {
        assert_eq!(read_quoted(&escape_single_quotes(path)), Some(path.to_string()));
    }
    assert_eq!(read_quoted("it's"), None);
}

fn exited(success: bool) -> Option<CommandOutcome> {
    Some(CommandOutcome::Exited { success, status: "exit code: 5".into(), stdout: b"o".to_vec(), stderr: b"e".to_vec() })
}

#[test]
fn law_exec_and_checked_agree() {
    let cases = || vec![None, Some(CommandOutcome::Failed { error: "x".into() }), exited(true), exited(false)];
    for (a, b) in cases().into_iter().zip(cases()) {
        assert_eq!(exec(a).is_some(), exec_checked(b).is_ok());
    }
}

#[test]
fn law_delete_matches_add() {
    let add = add_rule_command("0.0.0.0", "8080", "172.20.1.2", "80");
    let mut expected = add[..7].to_vec();
    expected[3] = "delete".to_string();
    assert_eq!(delete_rule_command("0.0.0.0", "8080"), expected);
}

#[test]
fn law_forwarded_rule_is_checked_on_its_port() {
    let row = ("0.0.0.0".to_string(), decimal_string(3000), "172.20.1.2".to_string(), decimal_string(3000));
    assert_eq!(port_probe(&row), Some("127.0.0.1:3000".to_string()));
    let wsl: std::collections::HashSet<u16> = [3000].into_iter().collect();
    let docker = parse_docker_output("c web 0.0.0.0:3000->3000/tcp\n");
    let data = get_all_data(vec![row], None, vec![Some(true)], wsl, vec![], docker, Some("TCP|3000\n".to_string()));
    assert!(data.rules[0].firewall_open && data.rules[0].wsl_running && data.rules[0].docker_matches.len() == 1);
}

#[test]
fn law_one_log_line_per_attempt() {
    let mut scan = WslPortScan::new();
    scan.record(None, "a".to_string());
    scan.record(None, "b".to_string());
    scan.record(Some(String::new()), "ok".to_string());
    assert!(scan.next_command().is_none());
    let (_, log) = scan.finish();
    assert_eq!(log.len(), 3);
}

#[test]
fn law_watcher_notices_shutdown_at_next_timeout() {
    let mut action = watch_next(WatchAction::WaitForChange { timeout_millis: 5000 }, WatchOutcome::TimedOut);
    assert!(matches!(action, WatchAction::CheckAlive));
    action = watch_next(action, WatchOutcome::Failed);
    assert!(matches!(action, WatchAction::CloseEvent));
    action = watch_next(action, WatchOutcome::Succeeded);
    assert!(matches!(action, WatchAction::Stop));
}

#[test]
fn law_watcher_notifies_only_after_signal_and_stops_after_closing() {
    let actions = [
        WatchAction::CreateEvent,
        WatchAction::OpenKey,
        WatchAction::PauseThenOpen { millis: 2000 },
        WatchAction::ArmNotify,
        WatchAction::WaitForChange { timeout_millis: 5000 },
        WatchAction::PauseThenNotify { millis: 300 },
        WatchAction::CheckAlive,
        WatchAction::CloseKey,
        WatchAction::CloseEvent,
        WatchAction::Stop,
    ];
    let outcomes = [WatchOutcome::Succeeded, WatchOutcome::Failed, WatchOutcome::Signaled, WatchOutcome::TimedOut];
    for a in actions {
        for o in outcomes {
            let next = watch_next(a, o);
            if matches!(next, WatchAction::PauseThenNotify { .. }) {
                assert!(matches!(a, WatchAction::WaitForChange { .. }) && matches!(o, WatchOutcome::Signaled));
            }
            if matches!(next, WatchAction::Stop) {
                assert!(
                    (matches!(a, WatchAction::CreateEvent) && !matches!(o, WatchOutcome::Succeeded))
                        || matches!(a, WatchAction::CloseEvent)
                        || matches!(a, WatchAction::Stop)
                );
            }
        }
    }
}

#[test]
fn law_joined_listings_give_the_union() {
    let a = "tcp LISTEN 0 0 0.0.0.0:22 x\nudp 0 0 0.0.0.0:53";
    let b = "tcp6 LISTEN 0 0 [::]:8080 y\n";
    let cr = "tcp LISTEN 0 0 0.0.0.0:22\r";
    let crs = "udp 0 0 0.0.0.0:53\r\ntcp listen 0 0 0.0.0.0:7000\r\r";
    for (x, y) in [(a, b), ("", b), ("tcp LISTEN 1.1.1.1:9\n", ""), (a, ""), (cr, b), (crs, cr), ("\r", b)] {
        let joined = parse_wsl_ports(&format!("{}\n{}", x, y));
        let union: std::collections::HashSet<u16> = parse_wsl_ports(x).union(&parse_wsl_ports(y)).copied().collect();
        assert_eq!(joined, union);
    }
}

#[test]
fn listing_line_ending_in_carriage_returns_keeps_its_port() {
    let ports = parse_wsl_ports("tcp listen 0 0 0.0.0.0:7000\r\r");
    assert_eq!(ports, [7000u16].into_iter().collect());
    let joined = parse_wsl_ports("tcp LISTEN 0 0 0.0.0.0:22\r\ntcp LISTEN 0 0 [::]:8080\n");
    assert_eq!(joined, [22u16, 8080].into_iter().collect());
}

#[test]
fn law_created_rule_shows_open_in_refresh() {
    let rows = parse_netsh("Address Port Address Port\n0.0.0.0 8080 172.20.1.2 8080\n0.0.0.0 9090 172.20.1.2 9090\n");
    let data = get_all_data(rows, None, vec![], Default::default(), vec![], vec![], Some("UDP|53\nTCP|8080\n".to_string()));
    assert!(data.rules[0].firewall_open);
    assert!(!data.rules[1].firewall_open);
    assert!(!data.rules[0].win_open);
}
