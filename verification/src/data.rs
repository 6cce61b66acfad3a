use std::collections::HashSet;
use vstd::prelude::*;
use vstd::string::*;

use crate::command::{opt_text, strings_text};
use crate::docker::{docker_matches, docker_matches_for, matches_view};
use crate::firewall::{
    admits_tcp, firewall_entries, firewall_opens, local_port_covers, firewall_port_open, firewall_read_error, gather_firewall_rules,
    pairs_text,
};
use crate::netsh::{netsh_rows, parse_netsh, row_text, rows_text, NetshRow};
use crate::text::{chars_of, decimal, decimal_string, lines_of, parse_u16_in, parse_u16_spec, same_text};
use crate::types::{
    containers_view, AllData, DockerContainer, DockerContainerModel, PortProxyRule, PortProxyRuleModel,
};
use crate::wsl::sorted_ports;

verus! {

broadcast use vstd::std_specs::hash::group_hash_axioms;

/// The error reported when the port proxy rules could not be listed.
pub open spec fn netsh_error() -> Seq<char> {
    "netsh failed \u{2014} ensure the app runs as Administrator"@
}

/// The rules that the listing command printed (none when it did not run), and
/// the error to report when it did not.
pub fn read_netsh(out: Option<String>) -> (r: (Vec<NetshRow>, Option<String>))
    ensures
        match opt_text(out) {
            Some(text) => rows_text(r.0@) == netsh_rows(text) && r.1 is None,
            None => rows_text(r.0@) == netsh_rows(Seq::empty()) && opt_text(r.1) == Some(netsh_error()),
        },
{
    match out {
        Some(text) => (parse_netsh(text.as_str()), None),
        None => {
            let empty = String::new();
            (parse_netsh(empty.as_str()), Some(String::from_str("netsh failed \u{2014} ensure the app runs as Administrator")))
        },
    }
}

/// A port number from text, or 0 when the text is no port.
pub open spec fn port_or_zero(s: Seq<char>) -> u16 {
    match parse_u16_spec(s) {
        Some(p) => p,
        None => 0,
    }
}

/// The host to try a rule's listen port on: the loopback address for a rule
/// that listens on every address (`0.0.0.0` or `*`), its own address otherwise.
pub open spec fn probe_host(listen_addr: Seq<char>) -> Seq<char> {
    if listen_addr == "0.0.0.0"@ || listen_addr == "*"@ {
        "127.0.0.1"@
    } else {
        listen_addr
    }
}

/// The `host:port` address to connect to when checking whether a rule's
/// listen port answers on Windows; none when the listen port is no port.
pub open spec fn probe_address(listen_addr: Seq<char>, listen_port: Seq<char>) -> Option<Seq<char>> {
    match parse_u16_spec(listen_port) {
        Some(p) => Some(probe_host(listen_addr) + ":"@ + decimal(p as nat)),
        None => None,
    }
}

/// Says where to check that a rule's listen port answers.
pub fn port_probe(row: &NetshRow) -> (r: Option<String>)
    ensures
        opt_text(r) == probe_address(row.0@, row.1@),
{
    let lp = chars_of(row.1.as_str());
    assert(lp@.subrange(0, lp@.len() as int) =~= lp@);
    let port = match parse_u16_in(&lp, 0, lp.len()) {
        Some(p) => p,
        None => return None,
    };
    let la = chars_of(row.0.as_str());
    let any_v4: Vec<char> = vec!['0', '.', '0', '.', '0', '.', '0'];
    let star: Vec<char> = vec!['*'];
    proof {
        reveal_strlit("0.0.0.0");
        reveal_strlit("*");
        assert(any_v4@ =~= "0.0.0.0"@);
        assert(star@ =~= "*"@);
    }
    let everywhere = same_text(&la, &any_v4) || same_text(&la, &star);
    let mut addr = if everywhere {
        String::from_str("127.0.0.1")
    } else {
        row.0.clone()
    };
    addr.append(":");
    let digits = decimal_string(port as u64);
    addr.append(digits.as_str());
    Some(addr)
}


/// What is shown for one rule: its four fields, whether its listen port
/// answered, whether the firewall opens its listen port, whether WSL listens
/// on its connect port, and the container ports that its connect port names.
/// A port that is no number counts as port 0.
pub open spec fn rule_model(
    row: (Seq<char>, Seq<char>, Seq<char>, Seq<char>),
    win_open: bool,
    firewall: Seq<(Seq<char>, Seq<char>)>,
    wsl_ports: Set<u16>,
    containers: Seq<DockerContainerModel>,
) -> PortProxyRuleModel {
    let lp = port_or_zero(row.1);
    let cp = port_or_zero(row.3);
    PortProxyRuleModel {
        listen_addr: row.0,
        listen_port: row.1,
        connect_addr: row.2,
        connect_port: row.3,
        win_open,
        firewall_open: firewall_opens(firewall, lp),
        wsl_running: wsl_ports.contains(cp),
        docker_matches: docker_matches_for(containers, cp),
    }
}

/// The firewall rules that the listing gave: none when it did not run.
pub open spec fn firewall_seen(out: Option<Seq<char>>) -> Seq<(Seq<char>, Seq<char>)> {
    match out {
        Some(text) => firewall_entries(text),
        None => seq![],
    }
}

/// The errors to show: the one from listing the rules, then the one from
/// reading the firewall.
pub open spec fn errors_seen(netsh_error: Option<Seq<char>>, firewall_out: Option<Seq<char>>) -> Seq<Seq<char>> {
    let first = match netsh_error {
        Some(e) => seq![e],
        None => seq![],
    };
    let second = match firewall_out {
        Some(_) => seq![],
        None => seq![firewall_read_error()],
    };
    first + second
}

/// Puts together what one refresh shows. `rows` are the listed rules, and
/// `answered[i]` says whether a connection to `port_probe(&rows[i])` succeeded
/// (`None` where there was no address to try, and a rule without an entry,
/// both count as not open); the other inputs are what the WSL, Docker and
/// firewall searches gave.
pub fn get_all_data(
    rows: Vec<NetshRow>,
    netsh_error: Option<String>,
    answered: Vec<Option<bool>>,
    wsl_ports: HashSet<u16>,
    wsl_log: Vec<String>,
    docker_containers: Vec<DockerContainer>,
    firewall_out: Option<String>,
) -> (r: AllData)
    ensures
        r@.rules.len() == rows@.len(),
        forall|i: int|
            0 <= i < rows@.len() ==> #[trigger] r@.rules[i] == rule_model(
                row_text(rows@[i]),
                i < answered@.len() && answered@[i] == Some(true),
                firewall_seen(opt_text(firewall_out)),
                wsl_ports@,
                containers_view(docker_containers@),
            ),
        forall|i: int|
            0 <= i < rows@.len() ==> (#[trigger] r@.rules[i]).firewall_open == firewall_opens(
                firewall_seen(opt_text(firewall_out)),
                port_or_zero(rows@[i].1@),
            ),
        forall|i: int|
            0 <= i < rows@.len() ==> (#[trigger] r@.rules[i]).wsl_running == wsl_ports@.contains(
                port_or_zero(rows@[i].3@),
            ),
        forall|i: int, j: int| 0 <= i < j < r@.wsl_ports.len() ==> r@.wsl_ports[i] < r@.wsl_ports[j],
        forall|p: u16| wsl_ports@.contains(p) <==> r@.wsl_ports.contains(p),
        r@.docker_containers == containers_view(docker_containers@),
        r@.errors == errors_seen(opt_text(netsh_error), opt_text(firewall_out)),
        r@.debug_log == strings_text(wsl_log@),
{
    let ghost fw_out = opt_text(firewall_out);
    let (fw_rules, fw_error) = gather_firewall_rules(firewall_out);
    assert(pairs_text(fw_rules@) == firewall_seen(fw_out)) by {
        if fw_out is None {
            assert(pairs_text(fw_rules@) =~= Seq::<(Seq<char>, Seq<char>)>::empty());
        }
    }
    let mut errors: Vec<String> = Vec::new();
    match netsh_error {
        Some(e) => errors.push(e),
        None => {},
    }
    match fw_error {
        Some(e) => errors.push(e),
        None => {},
    }
    assert(strings_text(errors@) =~= errors_seen(opt_text(netsh_error), fw_out));
    let mut rules: Vec<PortProxyRule> = Vec::new();
    let mut i: usize = 0;
    while i < rows.len()
        invariant
            i <= rows@.len(),
            rules@.len() == i,
            pairs_text(fw_rules@) == firewall_seen(fw_out),
            forall|j: int|
                0 <= j < i ==> #[trigger] rules@[j]@ == rule_model(
                    row_text(rows@[j]),
                    j < answered@.len() && answered@[j] == Some(true),
                    firewall_seen(fw_out),
                    wsl_ports@,
                    containers_view(docker_containers@),
                ),
        decreases rows@.len() - i,
    {
        let row = &rows[i];
        let lp_text = chars_of(row.1.as_str());
        assert(lp_text@.subrange(0, lp_text@.len() as int) =~= lp_text@);
        let lp = match parse_u16_in(&lp_text, 0, lp_text.len()) {
            Some(p) => p,
            None => 0,
        };
        let cp_text = chars_of(row.3.as_str());
        assert(cp_text@.subrange(0, cp_text@.len() as int) =~= cp_text@);
        let cp = match parse_u16_in(&cp_text, 0, cp_text.len()) {
            Some(p) => p,
            None => 0,
        };
        let firewall_open = firewall_port_open(fw_rules.as_slice(), lp);
        let wsl_running = wsl_ports.contains(&cp);
        let matches = docker_matches(&docker_containers, cp);
        let rule = PortProxyRule {
            listen_addr: row.0.clone(),
            listen_port: row.1.clone(),
            connect_addr: row.2.clone(),
            connect_port: row.3.clone(),
            win_open: i < answered.len() && match answered[i] {
                Some(open) => open,
                None => false,
            },
            firewall_open,
            wsl_running,
            docker_matches: matches,
        };
        assert(rule@.docker_matches == matches_view(rule.docker_matches@));
        rules.push(rule);
        i = i + 1;
    }
    let sorted = sorted_ports(&wsl_ports);
    let r = AllData { rules, wsl_ports: sorted, docker_containers, errors, debug_log: wsl_log };
    assert(r@.docker_containers =~= containers_view(r.docker_containers@));
    assert(r@.errors =~= strings_text(r.errors@));
    assert(r@.debug_log =~= strings_text(r.debug_log@));
    r
}


/// A rule is shown with its own four fields and whether its listen port
/// answered; with the firewall open exactly when some listed allow rule for
/// TCP (or any protocol) covers its listen port; and with WSL running exactly
/// when WSL listens on its connect port. A port that is no number counts as 0.
pub proof fn lemma_rule_status_ports(
    row: (Seq<char>, Seq<char>, Seq<char>, Seq<char>),
    win_open: bool,
    firewall: Seq<(Seq<char>, Seq<char>)>,
    wsl_ports: Set<u16>,
    containers: Seq<DockerContainerModel>,
)
    ensures
        rule_model(row, win_open, firewall, wsl_ports, containers).firewall_open <==> exists|k: int|
            0 <= k < firewall.len() && admits_tcp(#[trigger] firewall[k].0) && local_port_covers(
                firewall[k].1,
                port_or_zero(row.1),
            ),
        rule_model(row, win_open, firewall, wsl_ports, containers).wsl_running <==> wsl_ports.contains(
            port_or_zero(row.3),
        ),
        !wsl_ports.contains(port_or_zero(row.3)) ==> !rule_model(
            row,
            win_open,
            firewall,
            wsl_ports,
            containers,
        ).wsl_running,
        ({
            let m = rule_model(row, win_open, firewall, wsl_ports, containers);
            &&& m.listen_addr == row.0
            &&& m.listen_port == row.1
            &&& m.connect_addr == row.2
            &&& m.connect_port == row.3
            &&& m.win_open == win_open
        }),
{
}

/// Whether the firewall is open goes by the listen port alone, and whether WSL
/// runs the service and which containers match by the connect port alone: two
/// rules with the same listen port agree on the first, two with the same
/// connect port on the others, whatever their other fields.
pub proof fn lemma_rule_status_follows_own_port(
    row1: (Seq<char>, Seq<char>, Seq<char>, Seq<char>),
    row2: (Seq<char>, Seq<char>, Seq<char>, Seq<char>),
    win1: bool,
    win2: bool,
    firewall: Seq<(Seq<char>, Seq<char>)>,
    wsl_ports: Set<u16>,
    containers: Seq<DockerContainerModel>,
)
    ensures
        row1.1 == row2.1 ==> rule_model(row1, win1, firewall, wsl_ports, containers).firewall_open
            == rule_model(row2, win2, firewall, wsl_ports, containers).firewall_open,
        row1.3 == row2.3 ==> rule_model(row1, win1, firewall, wsl_ports, containers).wsl_running
            == rule_model(row2, win2, firewall, wsl_ports, containers).wsl_running,
        row1.3 == row2.3 ==> rule_model(row1, win1, firewall, wsl_ports, containers).docker_matches
            == rule_model(row2, win2, firewall, wsl_ports, containers).docker_matches,
{
}

/// A rule that `forward_port_command` adds for `host_port`, once listed, is
/// tried on the loopback address at `host_port`, and `host_port` is the port
/// that the firewall, WSL and Docker are checked for.
pub proof fn lemma_forwarded_rule_checks(
    host_port: u16,
    wsl_ip: Seq<char>,
    answered: bool,
    firewall: Seq<(Seq<char>, Seq<char>)>,
    wsl_ports: Set<u16>,
    containers: Seq<DockerContainerModel>,
)
    ensures
        probe_address("0.0.0.0"@, decimal(host_port as nat)) == Some(
            "127.0.0.1"@ + ":"@ + decimal(host_port as nat),
        ),
        ({
            let m = rule_model(
                ("0.0.0.0"@, decimal(host_port as nat), wsl_ip, decimal(host_port as nat)),
                answered,
                firewall,
                wsl_ports,
                containers,
            );
            &&& m.firewall_open == firewall_opens(firewall, host_port)
            &&& m.wsl_running == wsl_ports.contains(host_port)
            &&& m.docker_matches == docker_matches_for(containers, host_port)
        }),
{
    crate::text::lemma_parse_decimal(host_port);
}


/// Once the firewall listing has the line `TCP|<port>`, as it does for the
/// rule that `add_firewall_rule_command` creates, every rule whose listen port
/// reads `<port>` is shown with the firewall open.
pub proof fn lemma_created_rule_shows_open(
    port: u16,
    listing: Seq<char>,
    row: (Seq<char>, Seq<char>, Seq<char>, Seq<char>),
    answered: bool,
    wsl_ports: Set<u16>,
    containers: Seq<DockerContainerModel>,
)
    requires
        lines_of(listing).contains("TCP|"@ + decimal(port as nat)),
        row.1 == decimal(port as nat),
    ensures
        rule_model(row, answered, firewall_seen(Some(listing)), wsl_ports, containers).firewall_open,
{
    reveal_strlit("TCP|");
    reveal_strlit("TCP");
    let d = decimal(port as nat);
    crate::text::lemma_decimal_digits(port as nat);
    crate::text::lemma_parse_decimal(port);
    let line = "TCP|"@ + d;
    assert(crate::text::is_first_index(line, '|', 3));
    let w = choose|i: int| crate::text::is_first_index(line, '|', i);
    assert(w == 3) by {
        if w < 3 {
            assert(line[w] != '|');
        } else if w > 3 {
            assert(line[3] != '|');
        }
    }
    assert(line.take(3) =~= "TCP"@);
    assert(line.skip(4) =~= d);
    crate::firewall::lemma_trim_inert("TCP"@);
    assert(!crate::text::is_ws(d[0]) && !crate::text::is_ws(d.last())) by {
        assert(crate::text::is_digit(d[0]));
        assert(crate::text::is_digit(d[d.len() - 1]));
    }
    crate::firewall::lemma_trim_inert(d);
    assert(crate::firewall::firewall_entry(line) == Some(("TCP"@, d)));
    let ls = lines_of(listing);
    let i = choose|i: int| 0 <= i < ls.len() && ls[i] == line;
    crate::text::lemma_filter_map_keeps(ls, |l: Seq<char>| crate::firewall::firewall_entry(l), i, ("TCP"@, d));
    crate::firewall::lemma_listed_rule_opens_port(firewall_entries(listing), port);
}

} // verus!
