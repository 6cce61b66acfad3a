use vstd::prelude::*;
use vstd::string::*;
use vstd::utf8::encode_utf8;

use crate::text::{
    chars_of, contains_text, decimal, decimal_string, has_infix, line_spans, lines_of, span_string,
    span_text, spans_text, spans_within, trim, trim_span,
};
use crate::unicode::{lossy_text, utf8_lossy};

verus! {

/// The texts of a list of strings.
pub open spec fn strings_text(v: Seq<String>) -> Seq<Seq<char>> {
    v.map_values(|s: String| s@)
}

/// The text of an optional string.
pub open spec fn opt_text(o: Option<String>) -> Option<Seq<char>> {
    match o {
        Some(s) => Some(s@),
        None => None,
    }
}

/// What became of a command that was started.
pub enum CommandOutcome {
    /// The process ran to its end: whether it succeeded, how its exit status
    /// reads, and the bytes it wrote to standard output and standard error.
    Exited { success: bool, status: String, stdout: Vec<u8>, stderr: Vec<u8> },
    /// The process could not be run; the error's text.
    Failed { error: String },
}

/// The program and its arguments, for a command line that is not empty.
pub fn split_command(args: &Vec<String>) -> (r: Option<(String, Vec<String>)>)
    ensures
        match r {
            None => args@.len() == 0,
            Some((program, rest)) => {
                &&& args@.len() > 0
                &&& program@ == args@[0]@
                &&& strings_text(rest@) == strings_text(args@).drop_first()
            },
        },
{
    if args.len() == 0 {
        return None;
    }
    let program = args[0].clone();
    let mut rest: Vec<String> = Vec::new();
    let mut i: usize = 1;
    while i < args.len()
        invariant
            1 <= i <= args@.len(),
            strings_text(rest@) == strings_text(args@).subrange(1, i as int),
        decreases args@.len() - i,
    {
        let a = args[i].clone();
        assert(a@ == args@[i as int]@);
        assert(strings_text(rest@.push(a)) =~= strings_text(rest@).push(a@));
        assert(strings_text(rest@).push(a@) =~= strings_text(args@).subrange(1, i + 1));
        rest.push(a);
        i = i + 1;
    }
    assert(strings_text(args@).subrange(1, args@.len() as int) =~= strings_text(args@).drop_first());
    Some((program, rest))
}

/// The output and the one-line report that running a command gives: `None` as
/// the outcome means the command line was empty and nothing ran. A success
/// gives the standard output and `ok (<bytes> bytes)`; a failure gives no output
/// and the trimmed standard error, or `exit <status>` when that is empty; a
/// process that could not start gives the error's text.
pub open spec fn exec_report(outcome: Option<CommandOutcome>) -> (Option<Seq<char>>, Seq<char>) {
    match outcome {
        None => (None, "empty command"@),
        Some(CommandOutcome::Failed { error }) => (None, error@),
        Some(CommandOutcome::Exited { success, status, stdout, stderr }) => {
            let out = lossy_text(stdout@);
            let err = lossy_text(stderr@);
            if success {
                (Some(out), "ok ("@ + decimal(encode_utf8(out).len()) + " bytes)"@)
            } else if err.len() == 0 {
                (None, "exit "@ + status@)
            } else {
                (None, trim(err))
            }
        },
    }
}

/// Interprets the outcome of running a command: its output when it succeeded,
/// and a line that says what happened.
pub fn exec_debug(outcome: Option<CommandOutcome>) -> (r: (Option<String>, String))
    ensures
        (opt_text(r.0), r.1@) == exec_report(outcome),
{
    match outcome {
        None => (None, String::from_str("empty command")),
        Some(CommandOutcome::Failed { error }) => (None, error),
        Some(CommandOutcome::Exited { success, status, stdout, stderr }) => {
            let out = utf8_lossy(stdout.as_slice());
            let err = utf8_lossy(stderr.as_slice());
            if success {
                let mut detail = String::from_str("ok (");
                let bytes = out.as_str().as_bytes();
                let count = decimal_string(bytes.len() as u64);
                detail.append(count.as_str());
                detail.append(" bytes)");
                (Some(out), detail)
            } else if err.as_str().is_empty() {
                let mut detail = String::from_str("exit ");
                detail.append(status.as_str());
                (None, detail)
            } else {
                let cs = chars_of(err.as_str());
                let sp = trim_span(&cs, 0, cs.len());
                assert(cs@.subrange(0, cs@.len() as int) =~= cs@);
                (None, span_string(err.as_str(), &cs, sp))
            }
        },
    }
}

/// The output of a command that succeeded, and nothing otherwise.
pub fn exec(outcome: Option<CommandOutcome>) -> (r: Option<String>)
    ensures
        opt_text(r) == exec_report(outcome).0,
{
    exec_debug(outcome).0
}

/// What running a command that must succeed gives: nothing when it succeeded,
/// and otherwise the reason: `Empty command`, the error that kept it from
/// starting, or its standard error.
pub open spec fn checked_report(outcome: Option<CommandOutcome>) -> Result<(), Seq<char>> {
    match outcome {
        None => Err("Empty command"@),
        Some(CommandOutcome::Failed { error }) => Err(error@),
        Some(CommandOutcome::Exited { success, status, stdout, stderr }) => {
            if success {
                Ok(())
            } else {
                Err(lossy_text(stderr@))
            }
        },
    }
}

/// Interprets the outcome of a command that must succeed.
pub fn exec_checked(outcome: Option<CommandOutcome>) -> (r: Result<(), String>)
    ensures
        match (r, checked_report(outcome)) {
            (Ok(()), Ok(())) => true,
            (Err(e), Err(t)) => e@ == t,
            _ => false,
        },
{
    match outcome {
        None => Err(String::from_str("Empty command")),
        Some(CommandOutcome::Failed { error }) => Err(error),
        Some(CommandOutcome::Exited { success, status, stdout, stderr }) => {
            if success {
                Ok(())
            } else {
                Err(utf8_lossy(stderr.as_slice()))
            }
        },
    }
}

/// The group SID that marks an elevated (high mandatory level) process.
pub open spec fn high_integrity_sid() -> Seq<char> {
    seq!['S', '-', '1', '-', '1', '6', '-', '1', '2', '2', '8', '8']
}

/// Whether `whoami /groups` showed the elevated level: its output, when the
/// command ran, names the high-integrity SID.
pub fn is_admin(stdout: Option<Vec<u8>>) -> (r: bool)
    ensures
        r == match stdout {
            Some(b) => contains_text(lossy_text(b@), high_integrity_sid()),
            None => false,
        },
{
    match stdout {
        Some(b) => {
            let text = utf8_lossy(b.as_slice());
            let cs = chars_of(text.as_str());
            let sid: Vec<char> = vec!['S', '-', '1', '-', '1', '6', '-', '1', '2', '2', '8', '8'];
            assert(sid@ =~= high_integrity_sid());
            has_infix(&cs, &sid)
        },
        None => false,
    }
}


/// `a` followed by `b`.
pub fn joined(a: &str, b: &str) -> (r: String)
    ensures
        r@ == a@ + b@,
{
    let mut r = String::from_str(a);
    r.append(b);
    r
}

/// The command line that adds a v4-to-v4 port proxy rule.
pub open spec fn add_rule_args(la: Seq<char>, lp: Seq<char>, ca: Seq<char>, cp: Seq<char>) -> Seq<Seq<char>> {
    seq![
        "netsh"@,
        "interface"@,
        "portproxy"@,
        "add"@,
        "v4tov4"@,
        "listenaddress="@ + la,
        "listenport="@ + lp,
        "connectaddress="@ + ca,
        "connectport="@ + cp,
    ]
}

/// Builds the `netsh` command line that forwards `la:lp` to `ca:cp`.
pub fn add_rule_command(la: &str, lp: &str, ca: &str, cp: &str) -> (r: Vec<String>)
    ensures
        strings_text(r@) == add_rule_args(la@, lp@, ca@, cp@),
{
    let r = vec![
        String::from_str("netsh"),
        String::from_str("interface"),
        String::from_str("portproxy"),
        String::from_str("add"),
        String::from_str("v4tov4"),
        joined("listenaddress=", la),
        joined("listenport=", lp),
        joined("connectaddress=", ca),
        joined("connectport=", cp),
    ];
    assert(strings_text(r@) =~= add_rule_args(la@, lp@, ca@, cp@));
    r
}

/// The command line that deletes the v4-to-v4 rule listening on `la:lp`.
pub open spec fn delete_rule_args(la: Seq<char>, lp: Seq<char>) -> Seq<Seq<char>> {
    seq![
        "netsh"@,
        "interface"@,
        "portproxy"@,
        "delete"@,
        "v4tov4"@,
        "listenaddress="@ + la,
        "listenport="@ + lp,
    ]
}

/// Builds the `netsh` command line that deletes the rule on `la:lp`.
pub fn delete_rule_command(la: &str, lp: &str) -> (r: Vec<String>)
    ensures
        strings_text(r@) == delete_rule_args(la@, lp@),
{
    let r = vec![
        String::from_str("netsh"),
        String::from_str("interface"),
        String::from_str("portproxy"),
        String::from_str("delete"),
        String::from_str("v4tov4"),
        joined("listenaddress=", la),
        joined("listenport=", lp),
    ];
    assert(strings_text(r@) =~= delete_rule_args(la@, lp@));
    r
}

/// Builds the command line that forwards `host_port` on every address to the
/// same port at `wsl_ip`.
pub fn forward_port_command(host_port: u16, wsl_ip: &str) -> (r: Vec<String>)
    ensures
        strings_text(r@) == add_rule_args(
            "0.0.0.0"@,
            decimal(host_port as nat),
            wsl_ip@,
            decimal(host_port as nat),
        ),
{
    let p = decimal_string(host_port as u64);
    add_rule_command("0.0.0.0", p.as_str(), wsl_ip, p.as_str())
}

/// The command line that runs a PowerShell script without a profile or prompts.
pub open spec fn powershell_args(script: Seq<char>) -> Seq<Seq<char>> {
    seq!["powershell"@, "-NoProfile"@, "-NonInteractive"@, "-Command"@, script]
}

/// Builds the command line that runs `script` in PowerShell.
pub fn powershell_command(script: &str) -> (r: Vec<String>)
    ensures
        strings_text(r@) == powershell_args(script@),
{
    let r = vec![
        String::from_str("powershell"),
        String::from_str("-NoProfile"),
        String::from_str("-NonInteractive"),
        String::from_str("-Command"),
        String::from_str(script),
    ];
    assert(strings_text(r@) =~= powershell_args(script@));
    r
}

/// The command line that lists the port proxy rules.
pub open spec fn netsh_show_args() -> Seq<Seq<char>> {
    seq!["netsh"@, "interface"@, "portproxy"@, "show"@, "all"@]
}

/// Builds the command line that lists the port proxy rules.
pub fn netsh_show_command() -> (r: Vec<String>)
    ensures
        strings_text(r@) == netsh_show_args(),
{
    let r = vec![
        String::from_str("netsh"),
        String::from_str("interface"),
        String::from_str("portproxy"),
        String::from_str("show"),
        String::from_str("all"),
    ];
    assert(strings_text(r@) =~= netsh_show_args());
    r
}

/// The command line that prints the IPv4 address of WSL's `eth0`.
pub open spec fn wsl_ip_args() -> Seq<Seq<char>> {
    seq!["wsl"@, "bash"@, "-c"@, "ip addr show eth0 | grep -oP '(?<=inet\\s)\\d+(?:\\.\\d+){3}'"@]
}

/// Builds the command line that prints the IPv4 address of WSL's `eth0`.
pub fn wsl_ip_command() -> (r: Vec<String>)
    ensures
        strings_text(r@) == wsl_ip_args(),
{
    let r = vec![
        String::from_str("wsl"),
        String::from_str("bash"),
        String::from_str("-c"),
        String::from_str("ip addr show eth0 | grep -oP '(?<=inet\\s)\\d+(?:\\.\\d+){3}'"),
    ];
    assert(strings_text(r@) =~= wsl_ip_args());
    r
}

/// `i` is the first line among `lines` that is not blank.
pub open spec fn is_first_filled(lines: Seq<Seq<char>>, i: int) -> bool {
    &&& 0 <= i < lines.len()
    &&& trim(lines[i]).len() > 0
    &&& forall|j: int| 0 <= j < i ==> trim(#[trigger] lines[j]).len() == 0
}

/// The WSL address that the output of the address command gives: its first
/// line that is not blank, trimmed; or the error that no address was found.
pub open spec fn wsl_ip_result(out: Option<Seq<char>>) -> Result<Seq<char>, Seq<char>> {
    match out {
        Some(text) => {
            let ls = lines_of(text);
            if exists|i: int| is_first_filled(ls, i) {
                Ok(trim(ls[choose|i: int| is_first_filled(ls, i)]))
            } else {
                Err("Could not detect WSL IP from eth0"@)
            }
        },
        None => Err("Could not detect WSL IP from eth0"@),
    }
}

/// Reads WSL's address from the output of the address command, if it ran.
pub fn get_wsl_ip(out: Option<String>) -> (r: Result<String, String>)
    ensures
        match (r, wsl_ip_result(opt_text(out))) {
            (Ok(a), Ok(b)) => a@ == b,
            (Err(a), Err(b)) => a@ == b,
            _ => false,
        },
{
    match out {
        Some(text) => {
            let cs = chars_of(text.as_str());
            let ls = line_spans(&cs, 0, cs.len());
            assert(cs@.subrange(0, cs@.len() as int) =~= cs@);
            let ghost lines = lines_of(text@);
            let mut i: usize = 0;
            while i < ls.len()
                invariant
                    i <= ls@.len(),
                    cs@ == text@,
                    spans_text(cs@, ls@) == lines,
                    lines == lines_of(text@),
                    opt_text(out) == Some(text@),
                    spans_within(ls@, 0, cs@.len() as int),
                    forall|j: int| 0 <= j < i ==> trim(#[trigger] lines[j]).len() == 0,
                decreases ls@.len() - i,
            {
                let (a, b) = ls[i];
                assert(span_text(cs@, ls@[i as int]) == lines[i as int]);
                let sp = trim_span(&cs, a, b);
                if sp.0 < sp.1 {
                    assert(is_first_filled(lines, i as int));
                    let ghost w = choose|j: int| is_first_filled(lines, j);
                    assert(w == i) by {
                        if w < i {
                            assert(trim(lines[w]).len() == 0);
                        } else if w > i {
                            assert(trim(lines[i as int]).len() == 0);
                        }
                    }
                    return Ok(span_string(text.as_str(), &cs, sp));
                }
                i = i + 1;
            }
            assert(!exists|j: int| is_first_filled(lines, j));
            Err(String::from_str("Could not detect WSL IP from eth0"))
        },
        None => Err(String::from_str("Could not detect WSL IP from eth0")),
    }
}

/// `s` with every `'` doubled, as a PowerShell single-quoted literal needs.
pub open spec fn quote_escaped(s: Seq<char>) -> Seq<char>
    decreases s.len(),
{
    if s.len() == 0 {
        s
    } else if s.last() == '\'' {
        quote_escaped(s.drop_last()) + seq!['\'', '\'']
    } else {
        quote_escaped(s.drop_last()).push(s.last())
    }
}

/// Doubles every `'` in `s` (`str::replace('\'', "''")`).
pub fn escape_single_quotes(s: &str) -> (r: String)
    ensures
        r@ == quote_escaped(s@),
{
    let cs = chars_of(s);
    let mut r = String::new();
    let mut i: usize = 0;
    assert(cs@.take(0) =~= Seq::<char>::empty());
    while i < cs.len()
        invariant
            i <= cs@.len(),
            cs@ == s@,
            r@ == quote_escaped(cs@.take(i as int)),
        decreases cs@.len() - i,
    {
        assert(cs@.take(i + 1).drop_last() =~= cs@.take(i as int));
        if cs[i] == '\'' {
            let q = "''";
            proof {
                reveal_strlit("''");
            }
            assert(q@ =~= seq!['\'', '\'']);
            r.append(q);
        } else {
            let piece = s.substring_char(i, i + 1);
            assert(piece@ =~= seq![cs@[i as int]]);
            r.append(piece);
            assert(quote_escaped(cs@.take(i as int)).push(cs@[i as int]) =~= quote_escaped(cs@.take(i as int)) + seq![cs@[i as int]]);
        }
        i = i + 1;
    }
    assert(cs@.take(cs@.len() as int) =~= cs@);
    r
}

/// What PowerShell reads out of the body of a single-quoted literal: `''`
/// stands for one `'`, and a lone `'` would end the literal early (`None`).
pub open spec fn read_quoted(t: Seq<char>) -> Option<Seq<char>>
    decreases t.len(),
{
    if t.len() == 0 {
        Some(Seq::empty())
    } else if t[0] == '\'' {
        if t.len() >= 2 && t[1] == '\'' {
            match read_quoted(t.skip(2)) {
                Some(r) => Some(seq!['\''] + r),
                None => None,
            }
        } else {
            None
        }
    } else {
        match read_quoted(t.skip(1)) {
            Some(r) => Some(seq![t[0]] + r),
            None => None,
        }
    }
}

proof fn lemma_quote_escaped_concat(a: Seq<char>, b: Seq<char>)
    ensures
        quote_escaped(a + b) == quote_escaped(a) + quote_escaped(b),
    decreases b.len(),
{
    if b.len() == 0 {
        assert(a + b =~= a);
        assert(quote_escaped(a) + quote_escaped(b) =~= quote_escaped(a));
    } else {
        lemma_quote_escaped_concat(a, b.drop_last());
        assert((a + b).drop_last() =~= a + b.drop_last());
        assert((a + b).last() == b.last());
        if b.last() == '\'' {
            assert(quote_escaped(a) + quote_escaped(b) =~= quote_escaped(a) + quote_escaped(b.drop_last()) + seq!['\'', '\'']);
        } else {
            assert(quote_escaped(a) + quote_escaped(b) =~= (quote_escaped(a) + quote_escaped(b.drop_last())).push(b.last()));
        }
    }
}

/// A path with its quotes doubled, put inside a PowerShell single-quoted
/// literal, reads back as the very same path: it cannot end the literal early.
pub proof fn lemma_quote_escaped_reads_back(s: Seq<char>)
    ensures
        read_quoted(quote_escaped(s)) == Some(s),
    decreases s.len(),
{
    if s.len() > 0 {
        let first = seq![s[0]];
        let rest = s.drop_first();
        assert(first + rest =~= s);
        lemma_quote_escaped_concat(first, rest);
        lemma_quote_escaped_reads_back(rest);
        assert(first.drop_last() =~= Seq::<char>::empty());
        assert(quote_escaped(first.drop_last()) =~= Seq::<char>::empty());
        assert(first.last() == s[0]);
        let t = quote_escaped(s);
        if s[0] == '\'' {
            assert(quote_escaped(first) =~= seq!['\'', '\'']);
            assert(t.skip(2) =~= quote_escaped(rest));
        } else {
            assert(quote_escaped(first) =~= seq![s[0]]);
            assert(t.skip(1) =~= quote_escaped(rest));
        }
        assert(read_quoted(t) == Some(first + rest));
    } else {
        assert(quote_escaped(s) =~= Seq::<char>::empty());
        assert(s =~= Seq::<char>::empty());
    }
}

/// The command line that starts `exe` again with elevation, through PowerShell
/// in a hidden window.
pub open spec fn relaunch_args(exe: Seq<char>) -> Seq<Seq<char>> {
    seq![
        "powershell"@,
        "-WindowStyle"@,
        "Hidden"@,
        "-Command"@,
        "Start-Process -FilePath '"@ + quote_escaped(exe) + "' -Verb RunAs"@,
    ]
}

/// Builds the command line that starts the program at `exe` again as
/// administrator.
pub fn restart_as_admin_command(exe: &str) -> (r: Vec<String>)
    ensures
        strings_text(r@) == relaunch_args(exe@),
{
    let escaped = escape_single_quotes(exe);
    let mut script = String::from_str("Start-Process -FilePath '");
    script.append(escaped.as_str());
    script.append("' -Verb RunAs");
    let r = vec![
        String::from_str("powershell"),
        String::from_str("-WindowStyle"),
        String::from_str("Hidden"),
        String::from_str("-Command"),
        script,
    ];
    assert(strings_text(r@) =~= relaunch_args(exe@));
    r
}


/// A command gives output exactly when it ran and succeeded, and a command
/// that must succeed is taken as done exactly when it would have given output.
pub proof fn lemma_exec_and_checked_agree(outcome: Option<CommandOutcome>)
    ensures
        exec_report(outcome).0 is Some <==> (outcome matches Some(CommandOutcome::Exited { success, .. }) && success),
        checked_report(outcome) is Ok <==> exec_report(outcome).0 is Some,
{
}

/// Deleting names the very listen address and port that adding used: the
/// delete command line is the add command line with `delete` for `add` and
/// without the connect arguments.
pub proof fn lemma_delete_matches_add(la: Seq<char>, lp: Seq<char>, ca: Seq<char>, cp: Seq<char>)
    ensures
        delete_rule_args(la, lp) == add_rule_args(la, lp, ca, cp).take(7).update(3, "delete"@),
{
    assert(delete_rule_args(la, lp) =~= add_rule_args(la, lp, ca, cp).take(7).update(3, "delete"@));
}

} // verus!
