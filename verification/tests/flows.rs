use std::collections::HashSet;

use wslforward::data::{get_all_data, port_probe, read_netsh};
use wslforward::docker::{parse_docker_output, DockerScan};
use wslforward::watch::{watch_next, WatchAction, WatchOutcome};
use wslforward::wsl::{join_spaced, WslPortScan};

fn strings(v: &[&str]) -> Vec<String> {
    v.iter().map(|s| s.to_string()).collect()
}

#[test]
fn wsl_scan_falls_back_until_a_command_runs() {
    let mut scan = WslPortScan::new();
    assert_eq!(scan.next_command(), Some(strings(&["wsl", "ss", "-tulpn"])));
    scan.record(None, "exit exit code: 1".to_string());
    assert_eq!(scan.next_command(), Some(strings(&["wsl", "sudo", "ss", "-tulpn"])));
    scan.record(None, "sudo: a password is required".to_string());
    assert_eq!(scan.next_command(), Some(strings(&["wsl", "netstat", "-tulpn"])));
    scan.record(Some("\ntcp 0 0 0.0.0.0:22 0.0.0.0:* LISTEN\ntcp 0 0 0.0.0.0:80 0.0.0.0:* LISTEN\n\n".to_string()), "ok".to_string());
    assert_eq!(scan.next_command(), None);
    let (ports, log) = scan.finish();
    let want: HashSet<u16> = [22, 80].into_iter().collect();
    assert_eq!(ports, want);
    assert_eq!(
        log,
        strings(&[
            "[WSL ports] `wsl ss -tulpn` → failed: exit exit code: 1",
            "[WSL ports] `wsl sudo ss -tulpn` → failed: sudo: a password is required",
            "[WSL ports] `wsl netstat -tulpn` → 2 ports found\nraw:\ntcp 0 0 0.0.0.0:22 0.0.0.0:* LISTEN\ntcp 0 0 0.0.0.0:80 0.0.0.0:* LISTEN",
        ])
    );
}

#[test]
fn wsl_scan_gives_up_after_four_failures() {
    let mut scan = WslPortScan::new();
    let mut tried = 0;
    while let Some(_cmd) = scan.next_command() {
        scan.record(None, "failed".to_string());
        tried += 1;
    }
    assert_eq!(tried, 4);
    let (ports, log) = scan.finish();
    assert!(ports.is_empty());
    assert_eq!(log.len(), 4);
    assert_eq!(log[3], "[WSL ports] `wsl sudo netstat -tulpn` → failed: failed");
}

#[test]
fn joins_with_spaces() {
    assert_eq!(join_spaced(&strings(&["wsl", "sudo", "ss"])), "wsl sudo ss");
    assert_eq!(join_spaced(&strings(&["one"])), "one");
    assert_eq!(join_spaced(&vec![]), "");
}

#[test]
fn docker_scan_needs_a_nonempty_listing() {
    let fmt = "{{.ID}} {{.Names}} {{.Ports}}";
    let mut scan = DockerScan::new();
    assert_eq!(scan.next_command(), Some(strings(&["docker", "ps", "--format", fmt])));
    scan.record(Some(String::new()));
    assert_eq!(scan.next_command(), Some(strings(&["wsl", "docker", "ps", "--format", fmt])));
    scan.record(None);
    assert_eq!(scan.next_command(), Some(strings(&["wsl", "-u", "root", "docker", "ps", "--format", fmt])));
    scan.record(Some("c1 web 0.0.0.0:80->80/tcp\n".to_string()));
    assert_eq!(scan.next_command(), None);
    let found = scan.finish();
    assert_eq!(found.len(), 1);
    assert_eq!(found[0].name, "web");
}

#[test]
fn docker_scan_stops_at_first_listing() {
    let mut scan = DockerScan::new();
    scan.record(Some("c1 web\n".to_string()));
    assert_eq!(scan.next_command(), None);
    assert_eq!(scan.finish().len(), 1);
    let mut scan = DockerScan::new();
    while scan.next_command().is_some() {
        scan.record(None);
    }
    assert!(scan.finish().is_empty());
}

#[test]
fn netsh_reading() {
    let (rows, err) = read_netsh(None);
    assert!(rows.is_empty());
    assert_eq!(err, Some("netsh failed — ensure the app runs as Administrator".to_string()));
    let (rows, err) = read_netsh(Some("Address Port Address Port\n1.1.1.1 1 2.2.2.2 2\n".to_string()));
    assert_eq!(rows.len(), 1);
    assert_eq!(err, None);
}

fn row(a: &str, b: &str, c: &str, d: &str) -> (String, String, String, String) {
    (a.to_string(), b.to_string(), c.to_string(), d.to_string())
}

#[test]
fn probe_addresses() {
    assert_eq!(port_probe(&row("0.0.0.0", "8080", "x", "1")), Some("127.0.0.1:8080".to_string()));
    assert_eq!(port_probe(&row("*", "+22", "x", "1")), Some("127.0.0.1:22".to_string()));
    assert_eq!(port_probe(&row("192.168.1.5", "0080", "x", "1")), Some("192.168.1.5:80".to_string()));
    assert_eq!(port_probe(&row("0.0.0.0", "http", "x", "1")), None);
}

#[test]
fn all_data_puts_findings_together() {
    let rows = vec![row("0.0.0.0", "8080", "172.20.1.2", "80"), row("*", "2222", "172.20.1.2", "22"), row("1.2.3.4", "x", "1.1.1.1", "y")];
    let answered = vec![Some(true), Some(false), None];
    let wsl: HashSet<u16> = [22, 5000, 3].into_iter().collect();
    let docker = parse_docker_output("c1 web 0.0.0.0:8080->80/tcp\nc2 ssh 0.0.0.0:2022->22/tcp\n");
    let data = get_all_data(
        rows,
        Some("netsh failed — ensure the app runs as Administrator".to_string()),
        answered,
        wsl,
        strings(&["log line"]),
        docker,
        Some("TCP|8080\nUDP|2222\n".to_string()),
    );
    assert_eq!(data.rules.len(), 3);
    let r = &data.rules[0];
    assert_eq!((r.listen_addr.as_str(), r.listen_port.as_str(), r.connect_addr.as_str(), r.connect_port.as_str()), ("0.0.0.0", "8080", "172.20.1.2", "80"));
    assert!(r.win_open);
    assert!(r.firewall_open);
    assert!(!r.wsl_running);
    assert_eq!(r.docker_matches.len(), 1);
    assert_eq!(r.docker_matches[0].name, "web");
    let r = &data.rules[1];
    assert!(!r.win_open);
    assert!(!r.firewall_open);
    assert!(r.wsl_running);
    assert_eq!(r.docker_matches.len(), 1);
    assert_eq!(r.docker_matches[0].name, "ssh");
    let r = &data.rules[2];
    assert!(!r.win_open && !r.firewall_open && !r.wsl_running && r.docker_matches.is_empty());
    assert_eq!(data.wsl_ports, vec![3, 22, 5000]);
    assert_eq!(data.docker_containers.len(), 2);
    assert_eq!(data.errors, strings(&["netsh failed — ensure the app runs as Administrator"]));
    assert_eq!(data.debug_log, strings(&["log line"]));
}

#[test]
fn all_data_reports_firewall_failure_after_netsh_failure() {
    let data = get_all_data(vec![], Some("first".to_string()), vec![], HashSet::new(), vec![], vec![], None);
    assert_eq!(data.errors, strings(&["first", "Get-NetFirewallRule failed — could not read firewall rules"]));
    let data = get_all_data(vec![], None, vec![], HashSet::new(), vec![], vec![], None);
    assert_eq!(data.errors, strings(&["Get-NetFirewallRule failed — could not read firewall rules"]));
    let data = get_all_data(vec![], None, vec![], HashSet::new(), vec![], vec![], Some(String::new()));
    assert!(data.errors.is_empty());
}

fn name(a: WatchAction) -> String {
    format!("{:?}", a)
}

#[test]
fn registry_watcher_steps() {
    assert_eq!(name(watch_next(WatchAction::CreateEvent, WatchOutcome::Succeeded)), name(WatchAction::OpenKey));
    assert_eq!(name(watch_next(WatchAction::CreateEvent, WatchOutcome::Failed)), name(WatchAction::Stop));
    assert_eq!(name(watch_next(WatchAction::OpenKey, WatchOutcome::Failed)), name(WatchAction::PauseThenOpen { millis: 2000 }));
    assert_eq!(name(watch_next(WatchAction::PauseThenOpen { millis: 2000 }, WatchOutcome::Succeeded)), name(WatchAction::OpenKey));
    assert_eq!(name(watch_next(WatchAction::OpenKey, WatchOutcome::Succeeded)), name(WatchAction::ArmNotify));
    assert_eq!(name(watch_next(WatchAction::ArmNotify, WatchOutcome::Succeeded)), name(WatchAction::WaitForChange { timeout_millis: 5000 }));
    assert_eq!(name(watch_next(WatchAction::ArmNotify, WatchOutcome::Failed)), name(WatchAction::CloseKey));
    assert_eq!(name(watch_next(WatchAction::CloseKey, WatchOutcome::Succeeded)), name(WatchAction::PauseThenOpen { millis: 1000 }));
    assert_eq!(name(watch_next(WatchAction::WaitForChange { timeout_millis: 5000 }, WatchOutcome::TimedOut)), name(WatchAction::CheckAlive));
    assert_eq!(name(watch_next(WatchAction::CheckAlive, WatchOutcome::Succeeded)), name(WatchAction::WaitForChange { timeout_millis: 5000 }));
    assert_eq!(name(watch_next(WatchAction::CheckAlive, WatchOutcome::Failed)), name(WatchAction::CloseEvent));
    assert_eq!(name(watch_next(WatchAction::WaitForChange { timeout_millis: 5000 }, WatchOutcome::Signaled)), name(WatchAction::PauseThenNotify { millis: 300 }));
    assert_eq!(name(watch_next(WatchAction::WaitForChange { timeout_millis: 5000 }, WatchOutcome::Failed)), name(WatchAction::CloseEvent));
    assert_eq!(name(watch_next(WatchAction::PauseThenNotify { millis: 300 }, WatchOutcome::Succeeded)), name(WatchAction::ArmNotify));
    assert_eq!(name(watch_next(WatchAction::PauseThenNotify { millis: 300 }, WatchOutcome::Failed)), name(WatchAction::CloseEvent));
    assert_eq!(name(watch_next(WatchAction::CloseEvent, WatchOutcome::Succeeded)), name(WatchAction::Stop));
    assert_eq!(name(watch_next(WatchAction::Stop, WatchOutcome::Signaled)), name(WatchAction::Stop));
}
