use wslforward::command::{
    add_rule_command, delete_rule_command, escape_single_quotes, exec, exec_checked, exec_debug,
    forward_port_command, get_wsl_ip, is_admin, netsh_show_command, powershell_command,
    restart_as_admin_command, split_command, wsl_ip_command, CommandOutcome,
};
use wslforward::firewall::{
    add_firewall_rule_command, firewall_list_command, firewall_rule_name, gather_firewall_rules,
    remove_firewall_rule_command,
};

fn strings(v: &[&str]) -> Vec<String> {
    v.iter().map(|s| s.to_string()).collect()
}

fn exited(success: bool, status: &str, stdout: &[u8], stderr: &[u8]) -> Option<CommandOutcome> {
    Some(CommandOutcome::Exited {
        success,
        status: status.to_string(),
        stdout: stdout.to_vec(),
        stderr: stderr.to_vec(),
    })
}

#[test]
fn empty_command_is_not_run() {
    assert!(split_command(&vec![]).is_none());
    let (program, rest) = split_command(&strings(&["netsh", "interface", "show"])).unwrap();
    assert_eq!(program, "netsh");
    assert_eq!(rest, strings(&["interface", "show"]));
    let (program, rest) = split_command(&strings(&["whoami"])).unwrap();
    assert_eq!(program, "whoami");
    assert!(rest.is_empty());
}

#[test]
fn exec_reports() {
    assert_eq!(exec_debug(None), (None, "empty command".to_string()));
    assert_eq!(
        exec_debug(Some(CommandOutcome::Failed { error: "program not found".into() })),
        (None, "program not found".to_string())
    );
    assert_eq!(exec_debug(exited(true, "exit code: 0", b"hello\n", b"")), (Some("hello\n".to_string()), "ok (6 bytes)".to_string()));
    assert_eq!(exec_debug(exited(true, "exit code: 0", "é".as_bytes(), b"")), (Some("é".to_string()), "ok (2 bytes)".to_string()));
    assert_eq!(
        exec_debug(exited(true, "exit code: 0", &[0xff], b"")),
        (Some("\u{FFFD}".to_string()), "ok (3 bytes)".to_string())
    );
    assert_eq!(exec_debug(exited(false, "exit code: 1", b"out", b"  oops \n")), (None, "oops".to_string()));
    assert_eq!(exec_debug(exited(false, "exit code: 1", b"out", b"")), (None, "exit exit code: 1".to_string()));
    assert_eq!(exec_debug(exited(false, "exit code: 1", b"", b" ")), (None, "".to_string()));
    assert_eq!(exec(exited(true, "exit code: 0", b"x", b"")), Some("x".to_string()));
    assert_eq!(exec(exited(false, "exit code: 2", b"x", b"")), None);
    assert_eq!(exec(None), None);
}

#[test]
fn exec_checked_reports() {
    assert_eq!(exec_checked(None), Err("Empty command".to_string()));
    assert_eq!(exec_checked(Some(CommandOutcome::Failed { error: "denied".into() })), Err("denied".to_string()));
    assert_eq!(exec_checked(exited(true, "exit code: 0", b"", b"warn")), Ok(()));
    assert_eq!(exec_checked(exited(false, "exit code: 1", b"", b"The requested operation requires elevation.\r\n")), Err("The requested operation requires elevation.\r\n".to_string()));
}

#[test]
fn admin_level_from_whoami() {
    assert!(is_admin(Some(b"Mandatory Label\\High Mandatory Level Label S-1-16-12288".to_vec())));
    assert!(!is_admin(Some(b"Mandatory Label\\Medium Mandatory Level Label S-1-16-8192".to_vec())));
    assert!(!is_admin(None));
    assert!(!is_admin(Some(Vec::new())));
}

#[test]
fn wsl_ip_is_first_filled_line() {
    assert_eq!(get_wsl_ip(Some("\n  172.20.1.5  \n10.0.0.1\n".into())), Ok("172.20.1.5".to_string()));
    assert_eq!(get_wsl_ip(Some("10.0.0.1".into())), Ok("10.0.0.1".to_string()));
    assert_eq!(get_wsl_ip(Some("\n \r\n".into())), Err("Could not detect WSL IP from eth0".to_string()));
    assert_eq!(get_wsl_ip(None), Err("Could not detect WSL IP from eth0".to_string()));
}

#[test]
fn netsh_command_lines() {
    assert_eq!(
        add_rule_command("0.0.0.0", "8080", "172.20.1.2", "80"),
        strings(&[
            "netsh",
            "interface",
            "portproxy",
            "add",
            "v4tov4",
            "listenaddress=0.0.0.0",
            "listenport=8080",
            "connectaddress=172.20.1.2",
            "connectport=80"
        ])
    );
    assert_eq!(
        delete_rule_command("*", "2222"),
        strings(&["netsh", "interface", "portproxy", "delete", "v4tov4", "listenaddress=*", "listenport=2222"])
    );
    assert_eq!(
        forward_port_command(3000, "172.20.1.2"),
        strings(&[
            "netsh",
            "interface",
            "portproxy",
            "add",
            "v4tov4",
            "listenaddress=0.0.0.0",
            "listenport=3000",
            "connectaddress=172.20.1.2",
            "connectport=3000"
        ])
    );
    assert_eq!(netsh_show_command(), strings(&["netsh", "interface", "portproxy", "show", "all"]));
    assert_eq!(
        wsl_ip_command(),
        strings(&["wsl", "bash", "-c", r"ip addr show eth0 | grep -oP '(?<=inet\s)\d+(?:\.\d+){3}'"])
    );
}

#[test]
fn powershell_command_lines() {
    assert_eq!(
        powershell_command("Get-Date"),
        strings(&["powershell", "-NoProfile", "-NonInteractive", "-Command", "Get-Date"])
    );
    let script = r#"
$ErrorActionPreference = 'Stop'
try {
    Get-NetFirewallRule -Direction Inbound | Where-Object { $_.Enabled -eq 'True' -and $_.Action -eq 'Allow' } | ForEach-Object { $_ | Get-NetFirewallPortFilter } | ForEach-Object { "$($_.Protocol)|$($_.LocalPort -join ',')" }
} catch {
    Write-Error $_
    exit 1
}
"#;
    assert_eq!(firewall_list_command(), strings(&["powershell", "-NoProfile", "-NonInteractive", "-Command", script]));
}

#[test]
fn firewall_rule_names() {
    assert_eq!(firewall_rule_name(8080), "WSLForward-8080");
    assert_eq!(firewall_rule_name(0), "WSLForward-0");
    assert_eq!(firewall_rule_name(65535), "WSLForward-65535");
}

#[test]
fn firewall_scripts() {
    let name = "WSLForward-8080";
    let port = 8080;
    let open = format!(
        r#"
$ErrorActionPreference = 'Stop'
try {{
    Remove-NetFirewallRule -Name '{name}' -ErrorAction SilentlyContinue | Out-Null
    New-NetFirewallRule -Name '{name}' -DisplayName '{name}' -Direction Inbound -Action Allow -Protocol TCP -LocalPort {port} -Profile Any | Out-Null
}} catch {{
    Write-Error $_
    exit 1
}}
"#,
        name = name,
        port = port,
    );
    assert_eq!(
        add_firewall_rule_command("8080"),
        Ok(strings(&["powershell", "-NoProfile", "-NonInteractive", "-Command", &open]))
    );
    let close = format!(
        r#"
$ErrorActionPreference = 'Stop'
try {{
    if (Get-NetFirewallRule -Name '{name}' -ErrorAction SilentlyContinue) {{
        Remove-NetFirewallRule -Name '{name}'
    }}
}} catch {{
    Write-Error $_
    exit 1
}}
"#,
        name = name,
    );
    assert_eq!(
        remove_firewall_rule_command("+8080"),
        Ok(strings(&["powershell", "-NoProfile", "-NonInteractive", "-Command", &close]))
    );
    assert_eq!(add_firewall_rule_command("abc"), Err("Invalid port".to_string()));
    assert_eq!(add_firewall_rule_command(" 8080"), Err("Invalid port".to_string()));
    assert_eq!(remove_firewall_rule_command("70000"), Err("Invalid port".to_string()));
    assert_eq!(remove_firewall_rule_command(""), Err("Invalid port".to_string()));
}

#[test]
fn firewall_gathering() {
    let (rules, err) = gather_firewall_rules(Some("TCP|80\n".into()));
    assert_eq!(rules, vec![("TCP".to_string(), "80".to_string())]);
    assert_eq!(err, None);
    let (rules, err) = gather_firewall_rules(None);
    assert!(rules.is_empty());
    assert_eq!(err, Some("Get-NetFirewallRule failed — could not read firewall rules".to_string()));
}

#[test]
fn restart_command_quotes_the_path() {
    assert_eq!(escape_single_quotes("C:\\it's\\a'b.exe"), "C:\\it''s\\a''b.exe");
    assert_eq!(escape_single_quotes(""), "");
    assert_eq!(escape_single_quotes("'"), "''");
    let exe = "C:\\Users\\O'Brien\\WSLForward.exe";
    assert_eq!(
        restart_as_admin_command(exe),
        strings(&[
            "powershell",
            "-WindowStyle",
            "Hidden",
            "-Command",
            &format!("Start-Process -FilePath '{}' -Verb RunAs", exe.replace('\'', "''")),
        ])
    );
}
