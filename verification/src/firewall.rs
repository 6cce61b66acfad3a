use vstd::prelude::*;
use vstd::string::*;

use crate::command::{opt_text, powershell_args, powershell_command, strings_text};
use crate::text::{
    chars_of, decimal, decimal_string, eq_ignore_ascii_case, eq_ignore_ascii_case_in, find_in,
    line_spans, lines_of, parse_u16_in, parse_u16_spec, span_string, span_text, spans_text,
    spans_within, split_char, split_once_char, split_spans, trim, trim_span,
};

verus! {

/// The text of a list of (protocol, local port) pairs.
pub open spec fn pairs_text(v: Seq<(String, String)>) -> Seq<(Seq<char>, Seq<char>)> {
    v.map_values(|p: (String, String)| (p.0@, p.1@))
}

/// The (protocol, local port) pair that a line `Protocol|LocalPort` gives,
/// both trimmed; a line without `|` gives none.
pub open spec fn firewall_entry(line: Seq<char>) -> Option<(Seq<char>, Seq<char>)> {
    match split_once_char(line, '|') {
        Some((protocol, local_port)) => Some((trim(protocol), trim(local_port))),
        None => None,
    }
}

/// The (protocol, local port) pairs listed in `raw`, in order.
pub open spec fn firewall_entries(raw: Seq<char>) -> Seq<(Seq<char>, Seq<char>)> {
    lines_of(raw).filter_map(|l: Seq<char>| firewall_entry(l))
}

/// Reads the `Protocol|LocalPort` lines that the firewall listing prints.
pub fn parse_firewall_ports(raw: &str) -> (r: Vec<(String, String)>)
    ensures
        pairs_text(r@) == firewall_entries(raw@),
{
    let cs = chars_of(raw);
    let ls = line_spans(&cs, 0, cs.len());
    assert(cs@.subrange(0, cs@.len() as int) =~= cs@);
    let ghost lines = lines_of(raw@);
    let n = ls.len();
    let mut out: Vec<(String, String)> = Vec::new();
    let mut k: usize = 0;
    while k < n
        invariant
            n == ls@.len(),
            k <= n,
            cs@ == raw@,
            spans_text(cs@, ls@) == lines,
            spans_within(ls@, 0, cs@.len() as int),
            pairs_text(out@) == lines.take(k as int).filter_map(|l: Seq<char>| firewall_entry(l)),
        decreases n - k,
    {
        let (a, b) = ls[k];
        let ghost line = lines[k as int];
        assert(span_text(cs@, ls@[k as int]) == line);
        assert(lines.take(k + 1).drop_last() =~= lines.take(k as int));
        assert(lines.take(k + 1).last() == line);
        match find_in(&cs, a, b, '|') {
            Some(bar) => {
                assert(line.take(bar - a) =~= cs@.subrange(a as int, bar as int));
                assert(line.skip(bar - a + 1) =~= cs@.subrange(bar + 1, b as int));
                let p = trim_span(&cs, a, bar);
                let q = trim_span(&cs, bar + 1, b);
                let pair = (span_string(raw, &cs, p), span_string(raw, &cs, q));
                assert(pairs_text(out@.push(pair)) =~= pairs_text(out@).push((pair.0@, pair.1@)));
                out.push(pair);
            },
            None => {},
        }
        k = k + 1;
    }
    assert(lines.take(n as int) =~= lines);
    out
}

/// A comma-separated piece of a `LocalPort` value matches `port`: trimmed, it
/// is either a range `start-end` whose two ends parse and hold `port`, or a
/// single number equal to `port`.
pub open spec fn port_token_matches(tok: Seq<char>, port: u16) -> bool {
    let t = trim(tok);
    match split_once_char(t, '-') {
        Some((lo, hi)) => match (parse_u16_spec(trim(lo)), parse_u16_spec(trim(hi))) {
            (Some(s), Some(e)) => s <= port && port <= e,
            _ => false,
        },
        None => parse_u16_spec(t) == Some(port),
    }
}

/// Some comma-separated piece of `spec` matches `port`.
pub open spec fn local_port_covers(spec: Seq<char>, port: u16) -> bool {
    let toks = split_char(spec, ',');
    exists|i: int| 0 <= i < toks.len() && #[trigger] port_token_matches(toks[i], port)
}

fn token_matches(cs: &Vec<char>, lo: usize, hi: usize, port: u16) -> (r: bool)
    requires
        lo <= hi <= cs@.len(),
    ensures
        r == port_token_matches(cs@.subrange(lo as int, hi as int), port),
{
    let (a, b) = trim_span(cs, lo, hi);
    let ghost t = cs@.subrange(a as int, b as int);
    match find_in(cs, a, b, '-') {
        Some(dash) => {
            assert(t.take(dash - a) =~= cs@.subrange(a as int, dash as int));
            assert(t.skip(dash - a + 1) =~= cs@.subrange(dash + 1, b as int));
            let (a1, b1) = trim_span(cs, a, dash);
            let (a2, b2) = trim_span(cs, dash + 1, b);
            match (parse_u16_in(cs, a1, b1), parse_u16_in(cs, a2, b2)) {
                (Some(s), Some(e)) => port >= s && port <= e,
                _ => false,
            }
        },
        None => parse_u16_in(cs, a, b) == Some(port),
    }
}

/// Whether a firewall rule's `LocalPort` value (numbers and ranges separated
/// by commas) covers `port`.
pub fn local_port_matches(spec: &str, port: u16) -> (r: bool)
    ensures
        r == local_port_covers(spec@, port),
{
    let cs = chars_of(spec);
    let toks = split_spans(&cs, 0, cs.len(), ',');
    assert(cs@.subrange(0, cs@.len() as int) =~= cs@);
    let ghost pieces = split_char(spec@, ',');
    let n = toks.len();
    let mut i: usize = 0;
    while i < n
        invariant
            n == toks@.len(),
            i <= n,
            spans_text(cs@, toks@) == pieces,
            pieces == split_char(spec@, ','),
            spans_within(toks@, 0, cs@.len() as int),
            forall|j: int| 0 <= j < i ==> !port_token_matches(#[trigger] pieces[j], port),
        decreases n - i,
    {
        let (a, b) = toks[i];
        assert(span_text(cs@, toks@[i as int]) == pieces[i as int]);
        if token_matches(&cs, a, b, port) {
            assert(port_token_matches(pieces[i as int], port));
            return true;
        }
        i = i + 1;
    }
    false
}

/// The protocol name `tcp`.
pub open spec fn tcp_word() -> Seq<char> {
    seq!['t', 'c', 'p']
}

/// The protocol name `any`.
pub open spec fn any_word() -> Seq<char> {
    seq!['a', 'n', 'y']
}

/// A rule protocol that lets TCP through: `TCP` or `Any`, in any ASCII case.
pub open spec fn admits_tcp(protocol: Seq<char>) -> bool {
    eq_ignore_ascii_case(protocol, tcp_word()) || eq_ignore_ascii_case(protocol, any_word())
}

/// Some enabled allow rule lets TCP through on `port` by an explicit number or
/// range (a `LocalPort` of `Any` is never taken as opening it).
pub open spec fn firewall_opens(rules: Seq<(Seq<char>, Seq<char>)>, port: u16) -> bool {
    exists|i: int|
        0 <= i < rules.len() && admits_tcp(#[trigger] rules[i].0) && local_port_covers(rules[i].1, port)
}

/// Whether the listed inbound allow rules open TCP `port`.
pub fn firewall_port_open(rules: &[(String, String)], port: u16) -> (r: bool)
    ensures
        r == firewall_opens(pairs_text(rules@), port),
{
    let ghost rs = pairs_text(rules@);
    let tcp: Vec<char> = vec!['t', 'c', 'p'];
    let any: Vec<char> = vec!['a', 'n', 'y'];
    assert(tcp@ =~= tcp_word());
    assert(any@ =~= any_word());
    let n = rules.len();
    let mut i: usize = 0;
    while i < n
        invariant
            n == rules@.len(),
            i <= n,
            rs == pairs_text(rules@),
            tcp@ == tcp_word(),
            any@ == any_word(),
            forall|j: int| 0 <= j < i ==> !(admits_tcp(#[trigger] rs[j].0) && local_port_covers(rs[j].1, port)),
        decreases n - i,
    {
        let protocol = chars_of(rules[i].0.as_str());
        assert(protocol@.subrange(0, protocol@.len() as int) =~= protocol@);
        let tcp_like = eq_ignore_ascii_case_in(&protocol, 0, protocol.len(), &tcp)
            || eq_ignore_ascii_case_in(&protocol, 0, protocol.len(), &any);
        assert(rs[i as int].0 == rules@[i as int].0@);
        assert(rs[i as int].1 == rules@[i as int].1@);
        if tcp_like && local_port_matches(rules[i].1.as_str(), port) {
            assert(admits_tcp(rs[i as int].0) && local_port_covers(rs[i as int].1, port));
            return true;
        }
        i = i + 1;
    }
    false
}

/// The name of the firewall rule that opens `port`: `WSLForward-<port>`.
pub open spec fn rule_name(port: u16) -> Seq<char> {
    "WSLForward-"@ + decimal(port as nat)
}

/// Names the firewall rule that this tool makes for `port`.
pub fn firewall_rule_name(port: u16) -> (r: String)
    ensures
        r@ == rule_name(port),
{
    let mut r = String::from_str("WSLForward-");
    let digits = decimal_string(port as u64);
    r.append(digits.as_str());
    r
}


/// The name of every firewall rule this tool makes stays inside a PowerShell
/// single-quoted literal: it holds no `'`.
pub proof fn lemma_rule_name_has_no_quote(port: u16)
    ensures
        forall|i: int| 0 <= i < rule_name(port).len() ==> rule_name(port)[i] != '\'',
{
    reveal_strlit("WSLForward-");
    crate::text::lemma_decimal_digits(port as nat);
    let prefix = "WSLForward-"@;
    let digits = decimal(port as nat);
    assert forall|i: int| 0 <= i < rule_name(port).len() implies rule_name(port)[i] != '\'' by {
        if i >= prefix.len() {
            assert(rule_name(port)[i] == digits[i - prefix.len()]);
            assert(crate::text::is_digit(digits[i - prefix.len()]));
        }
    }
}

/// The script that lists the protocol and local ports of every enabled
/// inbound allow rule, one `Protocol|LocalPort` line each.
pub open spec fn list_rules_script() -> Seq<char> {
    "\n$ErrorActionPreference = 'Stop'\ntry {\n    Get-NetFirewallRule -Direction Inbound | Where-Object { $_.Enabled -eq 'True' -and $_.Action -eq 'Allow' } | ForEach-Object { $_ | Get-NetFirewallPortFilter } | ForEach-Object { \"$($_.Protocol)|$($_.LocalPort -join ',')\" }\n} catch {\n    Write-Error $_\n    exit 1\n}\n"@
}

/// Builds the command line that lists the enabled inbound allow rules.
pub fn firewall_list_command() -> (r: Vec<String>)
    ensures
        strings_text(r@) == powershell_args(list_rules_script()),
{
    powershell_command(
        "\n$ErrorActionPreference = 'Stop'\ntry {\n    Get-NetFirewallRule -Direction Inbound | Where-Object { $_.Enabled -eq 'True' -and $_.Action -eq 'Allow' } | ForEach-Object { $_ | Get-NetFirewallPortFilter } | ForEach-Object { \"$($_.Protocol)|$($_.LocalPort -join ',')\" }\n} catch {\n    Write-Error $_\n    exit 1\n}\n",
    )
}

/// The error reported when the firewall rules could not be read.
pub open spec fn firewall_read_error() -> Seq<char> {
    "Get-NetFirewallRule failed \u{2014} could not read firewall rules"@
}

/// The rules that the listing gave, or, when it did not run, no rules and the
/// error that says so.
pub fn gather_firewall_rules(out: Option<String>) -> (r: (Vec<(String, String)>, Option<String>))
    ensures
        match opt_text(out) {
            Some(text) => pairs_text(r.0@) == firewall_entries(text) && r.1 is None,
            None => r.0@.len() == 0 && opt_text(r.1) == Some(firewall_read_error()),
        },
{
    match out {
        Some(text) => (parse_firewall_ports(text.as_str()), None),
        None => (Vec::new(), Some(String::from_str("Get-NetFirewallRule failed \u{2014} could not read firewall rules"))),
    }
}

/// The script that (re)creates the inbound TCP allow rule for `port`.
pub open spec fn open_port_script(port: u16) -> Seq<char> {
    let name = rule_name(port);
    "\n$ErrorActionPreference = 'Stop'\ntry {\n    Remove-NetFirewallRule -Name '"@ + name
        + "' -ErrorAction SilentlyContinue | Out-Null\n    New-NetFirewallRule -Name '"@ + name
        + "' -DisplayName '"@ + name
        + "' -Direction Inbound -Action Allow -Protocol TCP -LocalPort "@ + decimal(port as nat)
        + " -Profile Any | Out-Null\n} catch {\n    Write-Error $_\n    exit 1\n}\n"@
}

/// The script that deletes the allow rule for `port`, if there is one.
pub open spec fn close_port_script(port: u16) -> Seq<char> {
    let name = rule_name(port);
    "\n$ErrorActionPreference = 'Stop'\ntry {\n    if (Get-NetFirewallRule -Name '"@ + name
        + "' -ErrorAction SilentlyContinue) {\n        Remove-NetFirewallRule -Name '"@ + name
        + "'\n    }\n} catch {\n    Write-Error $_\n    exit 1\n}\n"@
}

/// Builds the command line that opens TCP `port` (given as text) in the
/// firewall; text that is no port is refused with `Invalid port`.
pub fn add_firewall_rule_command(port: &str) -> (r: Result<Vec<String>, String>)
    ensures
        match parse_u16_spec(port@) {
            Some(p) => r matches Ok(v) && strings_text(v@) == powershell_args(open_port_script(p)),
            None => r matches Err(e) && e@ == "Invalid port"@,
        },
{
    let cs = chars_of(port);
    assert(cs@.subrange(0, cs@.len() as int) =~= cs@);
    let p = match parse_u16_in(&cs, 0, cs.len()) {
        Some(p) => p,
        None => return Err(String::from_str("Invalid port")),
    };
    let name = firewall_rule_name(p);
    let digits = decimal_string(p as u64);
    let mut script = String::from_str("\n$ErrorActionPreference = 'Stop'\ntry {\n    Remove-NetFirewallRule -Name '");
    script.append(name.as_str());
    script.append("' -ErrorAction SilentlyContinue | Out-Null\n    New-NetFirewallRule -Name '");
    script.append(name.as_str());
    script.append("' -DisplayName '");
    script.append(name.as_str());
    script.append("' -Direction Inbound -Action Allow -Protocol TCP -LocalPort ");
    script.append(digits.as_str());
    script.append(" -Profile Any | Out-Null\n} catch {\n    Write-Error $_\n    exit 1\n}\n");
    Ok(powershell_command(script.as_str()))
}

/// Builds the command line that closes TCP `port` (given as text) in the
/// firewall again; text that is no port is refused with `Invalid port`.
pub fn remove_firewall_rule_command(port: &str) -> (r: Result<Vec<String>, String>)
    ensures
        match parse_u16_spec(port@) {
            Some(p) => r matches Ok(v) && strings_text(v@) == powershell_args(close_port_script(p)),
            None => r matches Err(e) && e@ == "Invalid port"@,
        },
{
    let cs = chars_of(port);
    assert(cs@.subrange(0, cs@.len() as int) =~= cs@);
    let p = match parse_u16_in(&cs, 0, cs.len()) {
        Some(p) => p,
        None => return Err(String::from_str("Invalid port")),
    };
    let name = firewall_rule_name(p);
    let mut script = String::from_str("\n$ErrorActionPreference = 'Stop'\ntry {\n    if (Get-NetFirewallRule -Name '");
    script.append(name.as_str());
    script.append("' -ErrorAction SilentlyContinue) {\n        Remove-NetFirewallRule -Name '");
    script.append(name.as_str());
    script.append("'\n    }\n} catch {\n    Write-Error $_\n    exit 1\n}\n");
    Ok(powershell_command(script.as_str()))
}


/// A `LocalPort` of `Any` never counts as opening a port.
pub proof fn lemma_any_local_port_never_opens(port: u16)
    ensures
        !local_port_covers("Any"@, port),
{
    reveal_strlit("Any");
    let s = "Any"@;
    assert(s =~= seq!['A', 'n', 'y']);
    lemma_split_whole(s, ',');
    lemma_trim_inert(s);
    assert(!exists|i: int| crate::text::is_first_index(s, '-', i));
    assert(!crate::text::is_digit(s[0]));
    assert(!crate::text::all_digits(s));
}

/// A text with no whitespace at either end is its own trim.
pub proof fn lemma_trim_inert(s: Seq<char>)
    requires
        s.len() > 0 ==> !crate::text::is_ws(s[0]) && !crate::text::is_ws(s.last()),
    ensures
        trim(s) == s,
{
}

/// Once the firewall lists the rule that `add_firewall_rule_command` creates
/// for `port` (protocol TCP, local port `port`), `port` counts as open.
pub proof fn lemma_created_rule_opens_port(port: u16)
    ensures
        firewall_opens(seq![("TCP"@, decimal(port as nat))], port),
{
    reveal_strlit("TCP");
    let d = decimal(port as nat);
    crate::text::lemma_decimal_digits(port as nat);
    crate::text::lemma_parse_decimal(port);
    assert forall|i: int| 0 <= i < d.len() implies d[i] != ',' by {
        assert(crate::text::is_digit(d[i]));
    }
    lemma_split_whole(d, ',');
    assert(!crate::text::is_ws(d[0]) && !crate::text::is_ws(d.last())) by {
        assert(crate::text::is_digit(d[0]));
        assert(crate::text::is_digit(d[d.len() - 1]));
    }
    lemma_trim_inert(d);
    assert(!exists|i: int| crate::text::is_first_index(d, '-', i)) by {
        if exists|i: int| crate::text::is_first_index(d, '-', i) {
            let i = choose|i: int| crate::text::is_first_index(d, '-', i);
            assert(crate::text::is_digit(d[i]));
        }
    }
    assert(port_token_matches(split_char(d, ',')[0], port));
    assert(local_port_covers(d, port));
    assert(eq_ignore_ascii_case("TCP"@, tcp_word())) by {
        assert(forall|i: int| 0 <= i < 3 ==> crate::text::ascii_lower(#[trigger] "TCP"@[i]) == crate::text::ascii_lower(tcp_word()[i]));
    }
    let rules = seq![("TCP"@, d)];
    assert(admits_tcp(rules[0].0) && local_port_covers(rules[0].1, port));
}

/// A listing that holds the entry `TCP|<port>` counts `port` as open.
pub proof fn lemma_listed_rule_opens_port(rules: Seq<(Seq<char>, Seq<char>)>, port: u16)
    requires
        rules.contains(("TCP"@, decimal(port as nat))),
    ensures
        firewall_opens(rules, port),
{
    lemma_created_rule_opens_port(port);
    let one = seq![("TCP"@, decimal(port as nat))];
    let k = choose|k: int| 0 <= k < one.len() && admits_tcp(#[trigger] one[k].0) && local_port_covers(one[k].1, port);
    assert(k == 0);
    let i = choose|i: int| 0 <= i < rules.len() && rules[i] == ("TCP"@, decimal(port as nat));
    assert(admits_tcp(rules[i].0) && local_port_covers(rules[i].1, port));
}

/// A text without `sep` is one piece when split at `sep`.
pub proof fn lemma_split_whole(s: Seq<char>, sep: char)
    requires
        forall|i: int| 0 <= i < s.len() ==> s[i] != sep,
    ensures
        split_char(s, sep) == seq![s],
    decreases s.len(),
{
    if s.len() == 0 {
        assert(s =~= Seq::<char>::empty());
    } else {
        lemma_split_whole(s.drop_last(), sep);
        let prev = seq![s.drop_last()];
        assert(prev.drop_last() =~= Seq::<Seq<char>>::empty());
        assert(s.drop_last().push(s.last()) =~= s);
        assert(prev.drop_last().push(prev.last().push(s.last())) =~= seq![s]);
    }
}

} // verus!
