use wslforward::docker::{docker_matches, parse_docker_output};
use wslforward::firewall::{firewall_port_open, local_port_matches, parse_firewall_ports};
use wslforward::netsh::{parse_netsh, parse_netsh_lowered};
use wslforward::text::{
    chars_of, decimal_string, line_spans, parse_u16_in, trim_span, word_spans,
};
use wslforward::wsl::{parse_wsl_ports, parse_wsl_ports_uppercased, sorted_ports};

fn pieces(text: &str, spans: &[(usize, usize)]) -> Vec<String> {
    let cs: Vec<char> = text.chars().collect();
    spans.iter().map(|&(a, b)| cs[a..b].iter().collect()).collect()
}

fn parse(text: &str) -> Option<u16> {
    let cs = chars_of(text);
    parse_u16_in(&cs, 0, cs.len())
}

#[test]
fn lines_follow_str_lines() {
    for text in ["a\r\nb\n\nc\n", "a\nb", "", "\n", "x\r", "one\r\r\ntwo\r"] {
        let cs = chars_of(text);
        let got = pieces(text, &line_spans(&cs, 0, cs.len()));
        let want: Vec<String> = text.lines().map(|l| l.to_string()).collect();
        assert_eq!(got, want, "lines of {:?}", text);
    }
}

#[test]
fn words_follow_split_whitespace() {
    for text in ["  a b\tc  ", "", "   ", "x\u{3000}y\u{a0}z", "one"] {
        let cs = chars_of(text);
        let got = pieces(text, &word_spans(&cs, 0, cs.len()));
        let want: Vec<String> = text.split_whitespace().map(|w| w.to_string()).collect();
        assert_eq!(got, want, "words of {:?}", text);
    }
}

#[test]
fn trim_follows_str_trim() {
    for text in ["  a b  ", "", " \t\r\n", "\u{2003}x\u{2003}", "y"] {
        let cs = chars_of(text);
        let sp = trim_span(&cs, 0, cs.len());
        assert_eq!(pieces(text, &[sp])[0], text.trim());
    }
}

#[test]
fn u16_parsing_follows_str_parse() {
    for text in ["0", "8080", "+5", "", "+", "-0", "65535", "65536", "007", "12a", " 1", "99999999999"] {
        assert_eq!(parse(text), text.parse::<u16>().ok(), "parse of {:?}", text);
    }
}

#[test]
fn decimal_strings() {
    assert_eq!(decimal_string(0), "0");
    assert_eq!(decimal_string(7), "7");
    assert_eq!(decimal_string(65535), "65535");
    assert_eq!(decimal_string(1000000), "1000000");
    assert_eq!(decimal_string(u64::MAX), u64::MAX.to_string());
}

const NETSH_EN: &str = "\r\nListen on ipv4:             Connect to ipv4:\r\n\r\nAddress         Port        Address         Port\r\n--------------- ----------  --------------- ----------\r\n0.0.0.0         8080        172.20.1.2      8080\r\n*               2222        172.20.1.2      22\r\n\r\n";

fn row(a: &str, b: &str, c: &str, d: &str) -> (String, String, String, String) {
    (a.to_string(), b.to_string(), c.to_string(), d.to_string())
}

#[test]
fn netsh_rows_after_the_address_header() {
    let rows = parse_netsh(NETSH_EN);
    assert_eq!(
        rows,
        vec![
            row("0.0.0.0", "8080", "172.20.1.2", "8080"),
            row("*", "2222", "172.20.1.2", "22"),
        ]
    );
}

#[test]
fn netsh_rows_after_the_dash_line() {
    let raw = "侦听 ipv4:                 连接到 ipv4:\n\n地址            端口        地址            端口\n--------------- ----------  --------------- ----------\n0.0.0.0         3000        172.20.1.2      3000\n";
    assert_eq!(parse_netsh(raw), vec![row("0.0.0.0", "3000", "172.20.1.2", "3000")]);
}

#[test]
fn netsh_header_is_found_in_any_case() {
    let raw = "junk a b c d\nADDRESS port address port\n1.2.3.4 1 5.6.7.8 2\nshort line\n";
    assert_eq!(parse_netsh(raw), vec![row("1.2.3.4", "1", "5.6.7.8", "2")]);
}

#[test]
fn netsh_without_header_reads_every_line() {
    let raw = "a b c d e\nx y\n";
    assert_eq!(parse_netsh(raw), vec![row("a", "b", "c", "d")]);
    assert_eq!(parse_netsh(""), vec![]);
}

#[test]
fn firewall_listing_pairs() {
    let raw = "TCP|8080\r\n UDP | 53,67 \nno bar here\nAny|Any\n|\n";
    let pairs = parse_firewall_ports(raw);
    let want: Vec<(String, String)> = vec![
        ("TCP".into(), "8080".into()),
        ("UDP".into(), "53,67".into()),
        ("Any".into(), "Any".into()),
        ("".into(), "".into()),
    ];
    assert_eq!(pairs, want);
}

#[test]
fn local_port_specs() {
    assert!(local_port_matches("80,443,8000-8100", 8050));
    assert!(local_port_matches("80,443,8000-8100", 443));
    assert!(!local_port_matches("80,443,8000-8100", 8101));
    assert!(local_port_matches(" 10 - 20 ", 10));
    assert!(local_port_matches("10-20", 20));
    assert!(!local_port_matches("20-10", 15));
    assert!(!local_port_matches("Any", 8080));
    assert!(!local_port_matches("RPC", 135));
    assert!(!local_port_matches("1-2-3", 2));
    assert!(local_port_matches("+8080", 8080));
    assert!(!local_port_matches("", 0));
}

fn pair(p: &str, l: &str) -> (String, String) {
    (p.to_string(), l.to_string())
}

#[test]
fn firewall_open_needs_tcp_or_any_and_a_numeric_port() {
    assert!(firewall_port_open(&[pair("TCP", "8080")], 8080));
    assert!(firewall_port_open(&[pair("tcp", "8000-9000")], 8080));
    assert!(firewall_port_open(&[pair("Any", "8080")], 8080));
    assert!(!firewall_port_open(&[pair("UDP", "8080")], 8080));
    assert!(!firewall_port_open(&[pair("TCP", "Any")], 8080));
    assert!(!firewall_port_open(&[pair("Any", "Any")], 8080));
    assert!(!firewall_port_open(&[], 8080));
    assert!(firewall_port_open(&[pair("UDP", "8080"), pair("TCP", "1,8080")], 8080));
}

const SS: &str = "Netid State  Recv-Q Send-Q Local Address:Port  Peer Address:PortProcess\n\
tcp   LISTEN 0      4096   127.0.0.53%lo:53      0.0.0.0:*\n\
tcp   LISTEN 0      511    0.0.0.0:8080        0.0.0.0:*    users:((\"node\",pid=1,fd=3))\n\
tcp   LISTEN 0      4096   [::]:22            [::]:*\n\
udp   UNCONN 0      0      0.0.0.0:68         0.0.0.0:*\n";

#[test]
fn wsl_ports_from_ss() {
    let ports = parse_wsl_ports(SS);
    assert_eq!(sorted_ports(&ports), vec![22, 53, 8080]);
}

#[test]
fn wsl_ports_from_netstat() {
    let raw = "Active Internet connections (only servers)\nProto Recv-Q Send-Q Local Address Foreign Address State PID/Program name\ntcp 0 0 0.0.0.0:22 0.0.0.0:* LISTEN 123/sshd\ntcp6 0 0 :::80 :::* LISTEN -\ntcp 0 0 127.0.0.1:0 0.0.0.0:* listen\ntcp 0 0 1.2.3.4:70000 0.0.0.0:* LISTEN\ntcp 0 0 0.0.0.0:7000 0.0.0.0:* Listen\nudp 0 0 0.0.0.0:9999 0.0.0.0:*\n";
    let ports = parse_wsl_ports(raw);
    assert_eq!(sorted_ports(&ports), vec![22, 80, 7000]);
}

#[test]
fn sorted_ports_are_increasing_and_complete() {
    let set: std::collections::HashSet<u16> = [65535, 0, 7, 300].into_iter().collect();
    assert_eq!(sorted_ports(&set), vec![0, 7, 300, 65535]);
    assert_eq!(sorted_ports(&std::collections::HashSet::new()), Vec::<u16>::new());
}

#[test]
fn docker_listing() {
    let raw = "abc123 web 0.0.0.0:8080->80/tcp, :::8080->80/tcp\nxyz solo\n\n  \ndef456 db 5432/tcp, 127.0.0.1:5433->5432\nlonely\nid name 0.0.0.0:8000-8001->8000-8001/udp, 9000->9001/udp\n";
    let cs = parse_docker_output(raw);
    assert_eq!(cs.len(), 4);
    assert_eq!(cs[0].id, "abc123");
    assert_eq!(cs[0].name, "web");
    assert_eq!(cs[0].ports.len(), 2);
    assert_eq!(cs[0].ports[0].host_ip, "0.0.0.0");
    assert_eq!(cs[0].ports[0].host_port, 8080);
    assert_eq!(cs[0].ports[0].container_port, Some(80));
    assert_eq!(cs[0].ports[0].proto, "tcp");
    assert_eq!(cs[0].ports[1].host_ip, "::");
    assert_eq!(cs[1].name, "solo");
    assert!(cs[1].ports.is_empty());
    assert_eq!(cs[2].name, "db");
    assert_eq!(cs[2].ports.len(), 1);
    assert_eq!(cs[2].ports[0].host_ip, "127.0.0.1");
    assert_eq!(cs[2].ports[0].host_port, 5433);
    assert_eq!(cs[2].ports[0].proto, "tcp");
    assert_eq!(cs[3].ports.len(), 1);
    assert_eq!(cs[3].ports[0].host_ip, "");
    assert_eq!(cs[3].ports[0].host_port, 9000);
    assert_eq!(cs[3].ports[0].container_port, Some(9001));
    assert_eq!(cs[3].ports[0].proto, "udp");
}

#[test]
fn docker_matches_by_host_or_container_port() {
    let cs = parse_docker_output("a web 0.0.0.0:8080->80/tcp, 0.0.0.0:80->8080/tcp\nb api 0.0.0.0:9000->9000/tcp\n");
    let m = docker_matches(&cs, 8080);
    assert_eq!(m.len(), 2);
    assert_eq!(m[0].name, "web");
    assert_eq!((m[0].host_port, m[0].container_port), (8080, Some(80)));
    assert_eq!((m[1].host_port, m[1].container_port), (80, Some(8080)));
    assert!(docker_matches(&cs, 1234).is_empty());
    let m = docker_matches(&cs, 9000);
    assert_eq!(m.len(), 1);
    assert_eq!(m[0].name, "api");
}

#[test]
fn netsh_listing_from_review() {
    let raw = "Listen on ipv4:  Connect to ipv4:\n\nAddress  Port  Address  Port\n-------- ----  -------- ----\n0.0.0.0  8080  172.20.1.2  8080\n";
    assert_eq!(parse_netsh(raw), vec![row("0.0.0.0", "8080", "172.20.1.2", "8080")]);
}

#[test]
fn netsh_dash_lines_are_never_rows() {
    let raw = "Address Port Address Port\n--- --- --- ---\n  ---a b c d\n1 2 3 4\n";
    assert_eq!(parse_netsh(raw), vec![row("1", "2", "3", "4")]);
}

#[test]
fn netsh_with_given_lowered_lines() {
    let raw = "x a b c\nHeader one two three\n1 2 3 4\n";
    let lowered = vec!["x a b c".to_string(), "address one two three".to_string(), "1 2 3 4".to_string()];
    assert_eq!(parse_netsh_lowered(raw, &lowered), vec![row("1", "2", "3", "4")]);
    let plain: Vec<String> = raw.lines().map(|l| l.trim().to_lowercase()).collect();
    assert_eq!(parse_netsh_lowered(raw, &plain), vec![row("x", "a", "b", "c"), row("Header", "one", "two", "three"), row("1", "2", "3", "4")]);
}

#[test]
fn wsl_ports_with_given_uppercase_lines() {
    let raw = "tcp a 0.0.0.0:22 x\ntcp LISTEN 0.0.0.0:80 x\n";
    let upper = vec!["LISTEN".to_string(), "nothing".to_string()];
    assert_eq!(sorted_ports(&parse_wsl_ports_uppercased(raw, &upper)), vec![22]);
}
