use std::collections::HashSet;
use vstd::prelude::*;
use vstd::string::*;

use crate::command::{opt_text, strings_text};
use crate::firewall::lemma_split_whole;
use crate::text::{
    all_digits, chars_of, contains_text, decimal, decimal_string, digit_run_len, has_infix, is_digit,
    is_last_index, leading_digits, leading_digits_span, lemma_contains_before_crs, lemma_decimal_digits,
    lemma_filter_map_keeps, lemma_lines_of_joined, lemma_parse_decimal, lemma_split_char_concat,
    lemma_split_char_nonempty, lemma_trim_crs, line_spans, lines_of, parse_u16_in, parse_u16_spec,
    rfind_char, rfind_in, span_string, span_text, spans_text, spans_within, split_char, split_spans,
    strip_cr, strip_leading, strip_leading_span, trim, trim_crs, trim_span, word_spans, words,
};
use crate::unicode::{to_uppercase, uppercase};

verus! {

broadcast use vstd::std_specs::hash::group_hash_axioms;

/// The word that marks a listening socket.
pub open spec fn listen_word() -> Seq<char> {
    seq!['L', 'I', 'S', 'T', 'E', 'N']
}

/// The text that names the port in a socket address word: after the first `]`
/// (and the `:`s that follow it) for a bracketed IPv6 address such as
/// `[::]:8080`, after the last `:` otherwise; a word without `:` names none.
pub open spec fn port_text_of(word: Seq<char>) -> Option<Seq<char>> {
    if word.len() > 0 && word[0] == '[' {
        let parts = split_char(word, ']');
        let after = if parts.len() > 1 {
            parts[1]
        } else {
            Seq::empty()
        };
        Some(strip_leading(after, ':'))
    } else {
        match rfind_char(word, ':') {
            Some(i) => Some(word.skip(i + 1)),
            None => None,
        }
    }
}

/// The port that a word of a listing names: the digits that begin its port
/// text, when they parse as a port other than 0.
pub open spec fn word_port(word: Seq<char>) -> Option<u16> {
    match port_text_of(word) {
        Some(t) => match parse_u16_spec(leading_digits(t)) {
            Some(p) => if p > 0 {
                Some(p)
            } else {
                None
            },
            None => None,
        },
        None => None,
    }
}

/// The ports that a line of `ss`/`netstat` output names, given the line in
/// upper case: those of its words when the upper-case text says `LISTEN`, none
/// otherwise.
pub open spec fn line_ports_given(line: Seq<char>, upper: Seq<char>) -> Seq<u16> {
    if contains_text(upper, listen_word()) {
        words(line).filter_map(|w: Seq<char>| word_port(w))
    } else {
        seq![]
    }
}

/// The ports that the lines name, in order, with `uppers[i]` the text of
/// `lines[i]` in upper case.
pub open spec fn listed_ports_given(lines: Seq<Seq<char>>, uppers: Seq<Seq<char>>) -> Seq<u16>
    decreases lines.len(),
{
    if lines.len() == 0 {
        seq![]
    } else {
        listed_ports_given(lines.drop_last(), uppers.drop_last()) + line_ports_given(
            lines.last(),
            uppers[lines.len() - 1],
        )
    }
}

/// The ports listening according to `output`, given each of its lines in
/// upper case.
pub open spec fn listening_ports_given(output: Seq<char>, uppers: Seq<Seq<char>>) -> Set<u16> {
    listed_ports_given(lines_of(output), uppers).to_set()
}

/// Each line of `output` in upper case (`str::to_uppercase`), taken without the
/// `'\r'`s that end it: those can neither make nor break a `LISTEN`.
pub open spec fn uppered_lines(output: Seq<char>) -> Seq<Seq<char>> {
    lines_of(output).map_values(|l: Seq<char>| uppercase(trim_crs(l)))
}

/// The ports that are listening in WSL according to the listing `output`.
pub open spec fn wsl_listening_ports(output: Seq<char>) -> Set<u16> {
    listening_ports_given(output, uppered_lines(output))
}

proof fn lemma_to_set_push(s: Seq<u16>, x: u16)
    ensures
        s.push(x).to_set() == s.to_set().insert(x),
{
    assert forall|y: u16| #[trigger] s.push(x).contains(y) <==> s.to_set().insert(x).contains(y) by {
        if s.contains(y) {
            let i = choose|i: int| 0 <= i < s.len() && s[i] == y;
            assert(s.push(x)[i] == y);
        }
        if y == x {
            assert(s.push(x)[s.len() as int] == x);
        }
        if s.push(x).contains(y) && y != x {
            let i = choose|i: int| 0 <= i < s.len() + 1 && s.push(x)[i] == y;
            assert(s[i] == y);
        }
    }
    assert(s.push(x).to_set() =~= s.to_set().insert(x));
}

fn port_of_word(cs: &Vec<char>, lo: usize, hi: usize) -> (r: Option<u16>)
    requires
        lo <= hi <= cs@.len(),
    ensures
        r == word_port(cs@.subrange(lo as int, hi as int)),
{
    let ghost word = cs@.subrange(lo as int, hi as int);
    let text = if lo < hi && cs[lo] == '[' {
        let parts = split_spans(cs, lo, hi, ']');
        let after = if parts.len() > 1 {
            assert(span_text(cs@, parts@[1]) == split_char(word, ']')[1]);
            parts[1]
        } else {
            assert(cs@.subrange(hi as int, hi as int) =~= Seq::<char>::empty());
            (hi, hi)
        };
        strip_leading_span(cs, after.0, after.1, ':')
    } else {
        match rfind_in(cs, lo, hi, ':') {
            Some(colon) => {
                assert(word.skip(colon - lo + 1) =~= cs@.subrange(colon + 1, hi as int));
                (colon + 1, hi)
            },
            None => return None,
        }
    };
    let digits = leading_digits_span(cs, text.0, text.1);
    match parse_u16_in(cs, digits.0, digits.1) {
        Some(p) => if p > 0 {
            Some(p)
        } else {
            None
        },
        None => None,
    }
}

/// Reads the listening ports out of `ss -tulpn` or `netstat -tulpn` output,
/// given each of its lines in upper case.
pub fn parse_wsl_ports_uppercased(output: &str, upper: &Vec<String>) -> (r: HashSet<u16>)
    requires
        upper@.len() == lines_of(output@).len(),
    ensures
        r@ == listening_ports_given(output@, strings_text(upper@)),
{
    let cs = chars_of(output);
    let ls = line_spans(&cs, 0, cs.len());
    assert(cs@.subrange(0, cs@.len() as int) =~= cs@);
    let ghost lines = lines_of(output@);
    let ghost ups = strings_text(upper@);
    let listen: Vec<char> = vec!['L', 'I', 'S', 'T', 'E', 'N'];
    assert(listen@ =~= listen_word());
    let mut ports: HashSet<u16> = HashSet::new();
    assert(lines.take(0) =~= Seq::<Seq<char>>::empty());
    assert(ports@ =~= Seq::<u16>::empty().to_set());
    let mut k: usize = 0;
    while k < ls.len()
        invariant
            k <= ls@.len(),
            ls@.len() == upper@.len(),
            cs@ == output@,
            listen@ == listen_word(),
            spans_text(cs@, ls@) == lines,
            ups == strings_text(upper@),
            spans_within(ls@, 0, cs@.len() as int),
            ports@ == listed_ports_given(lines.take(k as int), ups.take(k as int)).to_set(),
        decreases ls@.len() - k,
    {
        let (a, b) = ls[k];
        let ghost line = lines[k as int];
        let ghost before = listed_ports_given(lines.take(k as int), ups.take(k as int));
        assert(span_text(cs@, ls@[k as int]) == line);
        assert(lines.take(k + 1).drop_last() =~= lines.take(k as int));
        assert(ups.take(k + 1).drop_last() =~= ups.take(k as int));
        assert(lines.take(k + 1).last() == line);
        assert(ups.take(k + 1)[k as int] == upper@[k as int]@);
        let uc = chars_of(upper[k].as_str());
        if has_infix(&uc, &listen) {
            let ws = word_spans(&cs, a, b);
            let ghost wds = words(line);
            let mut j: usize = 0;
            assert(wds.take(0).filter_map(|w: Seq<char>| word_port(w)) =~= Seq::<u16>::empty());
            assert(before + Seq::<u16>::empty() =~= before);
            while j < ws.len()
                invariant
                    j <= ws@.len(),
                    spans_text(cs@, ws@) == wds,
                    spans_within(ws@, a as int, b as int),
                    b <= cs@.len(),
                    ports@ == (before + wds.take(j as int).filter_map(|w: Seq<char>| word_port(w))).to_set(),
                decreases ws@.len() - j,
            {
                let (wa, wb) = ws[j];
                assert(span_text(cs@, ws@[j as int]) == wds[j as int]);
                let ghost found = wds.take(j as int).filter_map(|w: Seq<char>| word_port(w));
                assert(wds.take(j + 1).drop_last() =~= wds.take(j as int));
                assert(wds.take(j + 1).last() == wds[j as int]);
                let got = port_of_word(&cs, wa, wb);
                assert(got == word_port(wds[j as int]));
                match got {
                    Some(p) => {
                        proof {
                            assert(wds.take(j + 1).filter_map(|w: Seq<char>| word_port(w)) =~= found.push(p));
                            lemma_to_set_push(before + found, p);
                            assert((before + found).push(p) =~= before + found.push(p));
                        }
                        ports.insert(p);
                    },
                    None => {
                        assert(wds.take(j + 1).filter_map(|w: Seq<char>| word_port(w)) =~= found);
                    },
                }
                j = j + 1;
            }
            assert(wds.take(ws@.len() as int) =~= wds);
        } else {
            assert(before + line_ports_given(line, ups[k as int]) =~= before);
        }
        k = k + 1;
    }
    assert(lines.take(ls@.len() as int) =~= lines);
    assert(ups.take(ls@.len() as int) =~= ups);
    ports
}

/// Reads the listening ports out of `ss -tulpn` or `netstat -tulpn` output.
pub fn parse_wsl_ports(output: &str) -> (r: HashSet<u16>)
    ensures
        r@ == wsl_listening_ports(output@),
{
    let cs = chars_of(output);
    let ls = line_spans(&cs, 0, cs.len());
    assert(cs@.subrange(0, cs@.len() as int) =~= cs@);
    let ghost lines = lines_of(output@);
    let mut upper: Vec<String> = Vec::new();
    let mut i: usize = 0;
    while i < ls.len()
        invariant
            i <= ls@.len(),
            cs@ == output@,
            spans_text(cs@, ls@) == lines,
            lines == lines_of(output@),
            spans_within(ls@, 0, cs@.len() as int),
            upper@.len() == i,
            forall|k: int|
                0 <= k < i ==> contains_text(#[trigger] upper@[k]@, listen_word()) == contains_text(
                    uppered_lines(output@)[k],
                    listen_word(),
                ),
        decreases ls@.len() - i,
    {
        let (a, b) = ls[i];
        assert(span_text(cs@, ls@[i as int]) == lines[i as int]);
        let piece = output.substring_char(a, b);
        let up = to_uppercase(piece);
        proof {
            let line = lines[i as int];
            lemma_trim_crs(line);
            let t = line.skip(trim_crs(line).len() as int);
            assert forall|j: int| 0 <= j < t.len() implies #[trigger] t[j] == '\r' by {
                assert(t[j] == line[trim_crs(line).len() + j]);
            }
            assert(listen_word().last() == 'N');
            lemma_contains_before_crs(uppercase(trim_crs(line)), t, listen_word());
            assert(uppered_lines(output@)[i as int] == uppercase(trim_crs(line)));
        }
        upper.push(up);
        i = i + 1;
    }
    let r = parse_wsl_ports_uppercased(output, &upper);
    proof {
        let ups = strings_text(upper@);
        assert forall|k: int| 0 <= k < lines.len() implies contains_text(#[trigger] ups[k], listen_word())
            == contains_text(uppered_lines(output@)[k], listen_word()) by {
            assert(ups[k] == upper@[k]@);
        }
        lemma_listed_ports_same_listen(lines, ups, uppered_lines(output@));
    }
    r
}

/// Two sets of upper-case lines that agree on where `LISTEN` occurs give the
/// same ports.
proof fn lemma_listed_ports_same_listen(lines: Seq<Seq<char>>, u1: Seq<Seq<char>>, u2: Seq<Seq<char>>)
    requires
        u1.len() == lines.len(),
        u2.len() == lines.len(),
        forall|k: int|
            0 <= k < lines.len() ==> contains_text(#[trigger] u1[k], listen_word()) == contains_text(
                u2[k],
                listen_word(),
            ),
    ensures
        listed_ports_given(lines, u1) == listed_ports_given(lines, u2),
    decreases lines.len(),
{
    if lines.len() > 0 {
        let n = lines.len() - 1;
        assert forall|k: int| 0 <= k < n implies contains_text(#[trigger] u1.drop_last()[k], listen_word())
            == contains_text(u2.drop_last()[k], listen_word()) by {
            assert(u1.drop_last()[k] == u1[k]);
            assert(u2.drop_last()[k] == u2[k]);
        }
        lemma_listed_ports_same_listen(lines.drop_last(), u1.drop_last(), u2.drop_last());
        assert(contains_text(u1[n], listen_word()) == contains_text(u2[n], listen_word()));
    }
}

proof fn lemma_listed_ports_nonzero(lines: Seq<Seq<char>>, uppers: Seq<Seq<char>>)
    ensures
        !listed_ports_given(lines, uppers).contains(0),
    decreases lines.len(),
{
    if lines.len() > 0 {
        lemma_listed_ports_nonzero(lines.drop_last(), uppers.drop_last());
        let before = listed_ports_given(lines.drop_last(), uppers.drop_last());
        let here = line_ports_given(lines.last(), uppers[lines.len() - 1]);
        if here.contains(0) {
            let ws = words(lines.last());
            ws.lemma_filter_map_contains(|w: Seq<char>| word_port(w), 0);
        }
        if (before + here).contains(0) {
            let i = choose|i: int| 0 <= i < (before + here).len() && (before + here)[i] == 0;
            if i < before.len() {
                assert(before[i] == 0);
            } else {
                assert(here[i - before.len()] == 0);
            }
        }
    }
}

/// Port 0 is never reported as listening.
pub proof fn lemma_listening_ports_nonzero(output: Seq<char>)
    ensures
        !wsl_listening_ports(output).contains(0),
{
    lemma_listed_ports_nonzero(lines_of(output), uppered_lines(output));
}

proof fn lemma_listed_ports_concat(l1: Seq<Seq<char>>, u1: Seq<Seq<char>>, l2: Seq<Seq<char>>, u2: Seq<Seq<char>>)
    requires
        l1.len() == u1.len(),
        l2.len() == u2.len(),
    ensures
        listed_ports_given(l1 + l2, u1 + u2) == listed_ports_given(l1, u1) + listed_ports_given(l2, u2),
    decreases l2.len(),
{
    if l2.len() == 0 {
        assert(l1 + l2 =~= l1);
        assert(u1 + u2 =~= u1);
        assert(listed_ports_given(l1, u1) + listed_ports_given(l2, u2) =~= listed_ports_given(l1, u1));
    } else {
        lemma_listed_ports_concat(l1, u1, l2.drop_last(), u2.drop_last());
        assert((l1 + l2).drop_last() =~= l1 + l2.drop_last());
        assert((u1 + u2).drop_last() =~= u1 + u2.drop_last());
        assert((l1 + l2).last() == l2.last());
        assert((u1 + u2)[(l1 + l2).len() - 1] == u2[l2.len() - 1]);
        assert(listed_ports_given(l1 + l2, u1 + u2) =~= listed_ports_given(l1, u1) + listed_ports_given(l2, u2));
    }
}

proof fn lemma_to_set_concat(s1: Seq<u16>, s2: Seq<u16>)
    ensures
        (s1 + s2).to_set() == s1.to_set().union(s2.to_set()),
{
    assert forall|x: u16| #[trigger] (s1 + s2).contains(x) <==> s1.contains(x) || s2.contains(x) by {
        if (s1 + s2).contains(x) {
            let i = choose|i: int| 0 <= i < (s1 + s2).len() && (s1 + s2)[i] == x;
            if i < s1.len() {
                assert(s1[i] == x);
            } else {
                assert(s2[i - s1.len()] == x);
            }
        }
        if s1.contains(x) {
            let i = choose|i: int| 0 <= i < s1.len() && s1[i] == x;
            assert((s1 + s2)[i] == x);
        }
        if s2.contains(x) {
            let i = choose|i: int| 0 <= i < s2.len() && s2[i] == x;
            assert((s1 + s2)[s1.len() + i] == x);
        }
    }
    assert((s1 + s2).to_set() =~= s1.to_set().union(s2.to_set()));
}

/// The ports that one line names, given its upper-case text.
proof fn lemma_listed_ports_single(line: Seq<char>, upper: Seq<char>)
    ensures
        listed_ports_given(seq![line], seq![upper]) == line_ports_given(line, upper),
{
    let ls = seq![line];
    let us = seq![upper];
    assert(ls.drop_last() =~= Seq::<Seq<char>>::empty());
    assert(us.drop_last() =~= Seq::<Seq<char>>::empty());
    assert(listed_ports_given(ls.drop_last(), us.drop_last()) =~= Seq::<u16>::empty());
    assert(ls.last() == line);
    assert(us[ls.len() - 1] == upper);
    assert(listed_ports_given(ls, us) == listed_ports_given(ls.drop_last(), us.drop_last())
        + line_ports_given(line, upper));
    assert(Seq::<u16>::empty() + line_ports_given(line, upper) =~= line_ports_given(line, upper));
}

/// A line names the same ports with or without the `'\r'` that ends it.
proof fn lemma_line_ports_strip_cr(l: Seq<char>)
    ensures
        line_ports_given(strip_cr(l), uppercase(trim_crs(strip_cr(l)))) == line_ports_given(
            l,
            uppercase(trim_crs(l)),
        ),
{
    lemma_trim_crs(l);
    if l.len() > 0 && l.last() == '\r' {
        assert(words(l) == words(l.drop_last()));
    }
}

/// The ports of two listings joined by a line break are the ports of each.
pub proof fn lemma_joined_listings(a: Seq<char>, b: Seq<char>)
    ensures
        wsl_listening_ports(a + seq!['\n'] + b) == wsl_listening_ports(a).union(wsl_listening_ports(b)),
{
    let j = a + seq!['\n'] + b;
    lemma_lines_of_joined(a, b);
    let pa = split_char(a, '\n');
    lemma_split_char_nonempty(a, '\n');
    let sc = |l: Seq<char>| strip_cr(l);
    let f = |l: Seq<char>| uppercase(trim_crs(l));
    let d = pa.drop_last().map_values(sc);
    let last = strip_cr(pa.last());
    let tail: Seq<Seq<char>> = if pa.last().len() == 0 {
        seq![]
    } else {
        seq![pa.last()]
    };
    let lb = lines_of(b);
    assert(lines_of(a) =~= d + tail);
    assert(pa.map_values(sc) =~= d.push(last));
    let la2 = d.push(last);
    assert(lines_of(j) == la2 + lb);
    assert(uppered_lines(j) =~= la2.map_values(f) + lb.map_values(f));
    assert(uppered_lines(a) =~= d.map_values(f) + tail.map_values(f));
    assert(la2 =~= d + seq![last]);
    assert(la2.map_values(f) =~= d.map_values(f) + seq![f(last)]);
    lemma_listed_ports_concat(la2, la2.map_values(f), lb, lb.map_values(f));
    lemma_listed_ports_concat(d, d.map_values(f), seq![last], seq![f(last)]);
    lemma_listed_ports_concat(d, d.map_values(f), tail, tail.map_values(f));
    lemma_listed_ports_single(last, f(last));
    let pd = listed_ports_given(d, d.map_values(f));
    let pl = line_ports_given(last, f(last));
    if pa.last().len() == 0 {
        assert(last =~= Seq::<char>::empty());
        assert(words(last) =~= Seq::<Seq<char>>::empty());
        assert(words(last).filter_map(|w: Seq<char>| word_port(w)) =~= Seq::<u16>::empty());
        assert(pl =~= Seq::<u16>::empty());
        assert(tail.map_values(f) =~= Seq::<Seq<char>>::empty());
        assert(listed_ports_given(tail, tail.map_values(f)) =~= Seq::<u16>::empty());
        assert(pd + pl =~= pd + listed_ports_given(tail, tail.map_values(f)));
    } else {
        assert(tail.map_values(f) =~= seq![f(pa.last())]);
        lemma_listed_ports_single(pa.last(), f(pa.last()));
        lemma_line_ports_strip_cr(pa.last());
    }
    let pa2 = listed_ports_given(la2, la2.map_values(f));
    let pb = listed_ports_given(lb, lb.map_values(f));
    assert(listed_ports_given(lines_of(a), uppered_lines(a)) == pa2);
    assert(listed_ports_given(lines_of(j), uppered_lines(j)) == pa2 + pb);
    lemma_to_set_concat(pa2, pb);
}

proof fn lemma_digit_run_whole(s: Seq<char>)
    requires
        all_digits(s),
    ensures
        digit_run_len(s) == s.len(),
        leading_digits(s) == s,
    decreases s.len(),
{
    if s.len() > 0 {
        assert(all_digits(s.drop_first())) by {
            assert forall|i: int| 0 <= i < s.drop_first().len() implies is_digit(#[trigger] s.drop_first()[i]) by {
                assert(s.drop_first()[i] == s[i + 1]);
            }
        }
        assert(is_digit(s[0]));
        lemma_digit_run_whole(s.drop_first());
    }
    assert(s.take(s.len() as int) =~= s);
}

/// A word `host:N`, with a host that does not begin with `[`, names port `N`,
/// for every port `N` other than 0, however many digits it has.
pub proof fn lemma_word_names_its_port(host: Seq<char>, n: u16)
    requires
        n > 0,
        !(host.len() > 0 && host[0] == '['),
    ensures
        word_port(host + seq![':'] + decimal(n as nat)) == Some(n),
{
    let d = decimal(n as nat);
    lemma_decimal_digits(n as nat);
    lemma_parse_decimal(n);
    let w = host + seq![':'] + d;
    let c = host.len() as int;
    assert(w[c] == ':');
    assert forall|j: int| c < j < w.len() implies w[j] != ':' by {
        assert(w[j] == d[j - c - 1]);
        assert(is_digit(d[j - c - 1]));
    }
    assert(is_last_index(w, ':', c));
    let k = choose|i: int| is_last_index(w, ':', i);
    assert(k == c) by {
        if k < c {
            assert(w[c] == ':');
        } else if k > c {
            assert(w[k] == ':');
        }
    }
    assert(w.skip(c + 1) =~= d);
    lemma_digit_run_whole(d);
    if host.len() > 0 {
        assert(w[0] == host[0]);
    } else {
        assert(w[0] == ':');
    }
}

/// A bracketed IPv6 word `[addr]:N` names port `N`, for every port `N` other
/// than 0.
pub proof fn lemma_bracketed_word_names_its_port(addr: Seq<char>, n: u16)
    requires
        n > 0,
        forall|i: int| 0 <= i < addr.len() ==> addr[i] != ']',
    ensures
        word_port(seq!['['] + addr + seq![']', ':'] + decimal(n as nat)) == Some(n),
{
    let d = decimal(n as nat);
    lemma_decimal_digits(n as nat);
    lemma_parse_decimal(n);
    let a = seq!['['] + addr;
    let b = seq![':'] + d;
    let w = seq!['['] + addr + seq![']', ':'] + d;
    assert(w =~= a + seq![']'] + b);
    assert forall|i: int| 0 <= i < a.len() implies a[i] != ']' by {
        if i > 0 {
            assert(a[i] == addr[i - 1]);
        }
    }
    assert forall|i: int| 0 <= i < b.len() implies b[i] != ']' by {
        if i > 0 {
            assert(b[i] == d[i - 1]);
            assert(is_digit(d[i - 1]));
        }
    }
    lemma_split_char_concat(a, b, ']');
    lemma_split_whole(a, ']');
    lemma_split_whole(b, ']');
    let parts = split_char(w, ']');
    assert(parts =~= seq![a, b]);
    assert(b.drop_first() =~= d);
    assert(is_digit(d[0]));
    assert(strip_leading(b, ':') == strip_leading(d, ':'));
    assert(strip_leading(d, ':') == d);
    assert(w[0] == '[');
    lemma_digit_run_whole(d);
}

proof fn lemma_listed_ports_has_line(lines: Seq<Seq<char>>, uppers: Seq<Seq<char>>, k: int, p: u16)
    requires
        lines.len() == uppers.len(),
        0 <= k < lines.len(),
        line_ports_given(lines[k], uppers[k]).contains(p),
    ensures
        listed_ports_given(lines, uppers).contains(p),
    decreases lines.len(),
{
    let n = lines.len() - 1;
    let before = listed_ports_given(lines.drop_last(), uppers.drop_last());
    let here = line_ports_given(lines.last(), uppers[n]);
    if k < n {
        assert(lines.drop_last()[k] == lines[k]);
        assert(uppers.drop_last()[k] == uppers[k]);
        lemma_listed_ports_has_line(lines.drop_last(), uppers.drop_last(), k, p);
        let i = choose|i: int| 0 <= i < before.len() && before[i] == p;
        assert((before + here)[i] == p);
    } else {
        let i = choose|i: int| 0 <= i < here.len() && here[i] == p;
        assert((before + here)[before.len() + i] == p);
    }
}

/// A line of the listing that says `LISTEN` and has a word naming port `N`
/// makes `N` a listening port.
pub proof fn lemma_listen_line_reports_port(output: Seq<char>, k: int, word: Seq<char>, n: u16)
    requires
        0 <= k < lines_of(output).len(),
        contains_text(uppercase(trim_crs(lines_of(output)[k])), listen_word()),
        words(lines_of(output)[k]).contains(word),
        word_port(word) == Some(n),
    ensures
        wsl_listening_ports(output).contains(n),
{
    let line = lines_of(output)[k];
    let ws = words(line);
    let i = choose|i: int| 0 <= i < ws.len() && ws[i] == word;
    lemma_filter_map_keeps(ws, |w: Seq<char>| word_port(w), i, n);
    assert(uppered_lines(output)[k] == uppercase(trim_crs(line)));
    lemma_listed_ports_has_line(lines_of(output), uppered_lines(output), k, n);
    lemma_listed_ports_has(listed_ports_given(lines_of(output), uppered_lines(output)), n);
}

proof fn lemma_listed_ports_has(s: Seq<u16>, n: u16)
    requires
        s.contains(n),
    ensures
        s.to_set().contains(n),
{
}

/// A line of the listing that says `LISTEN` and has a word `host:N` (a host
/// not beginning with `[`) makes `N` a listening port, for every port `N` other
/// than 0.
pub proof fn lemma_listen_line_reports_host_port(output: Seq<char>, k: int, host: Seq<char>, n: u16)
    requires
        n > 0,
        !(host.len() > 0 && host[0] == '['),
        0 <= k < lines_of(output).len(),
        contains_text(uppercase(trim_crs(lines_of(output)[k])), listen_word()),
        words(lines_of(output)[k]).contains(host + seq![':'] + decimal(n as nat)),
    ensures
        wsl_listening_ports(output).contains(n),
{
    lemma_word_names_its_port(host, n);
    lemma_listen_line_reports_port(output, k, host + seq![':'] + decimal(n as nat), n);
}

proof fn lemma_listed_port_from_line(lines: Seq<Seq<char>>, uppers: Seq<Seq<char>>, p: u16)
    requires
        lines.len() == uppers.len(),
        listed_ports_given(lines, uppers).contains(p),
    ensures
        exists|k: int| 0 <= k < lines.len() && #[trigger] line_ports_given(lines[k], uppers[k]).contains(p),
    decreases lines.len(),
{
    let n = lines.len() - 1;
    let before = listed_ports_given(lines.drop_last(), uppers.drop_last());
    let here = line_ports_given(lines.last(), uppers[n]);
    let i = choose|i: int| 0 <= i < (before + here).len() && (before + here)[i] == p;
    if i < before.len() {
        assert(before[i] == p);
        lemma_listed_port_from_line(lines.drop_last(), uppers.drop_last(), p);
        let k = choose|k: int|
            0 <= k < n && #[trigger] line_ports_given(lines.drop_last()[k], uppers.drop_last()[k]).contains(p);
        assert(lines.drop_last()[k] == lines[k]);
        assert(uppers.drop_last()[k] == uppers[k]);
        assert(line_ports_given(lines[k], uppers[k]).contains(p));
    } else {
        assert(here[i - before.len()] == p);
        assert(line_ports_given(lines[n], uppers[n]).contains(p));
    }
}

/// Every listening port comes from a line of the listing that says `LISTEN`
/// and has a word naming that port.
pub proof fn lemma_listening_port_from_listen_line(output: Seq<char>, n: u16)
    requires
        wsl_listening_ports(output).contains(n),
    ensures
        exists|k: int, word: Seq<char>|
            #![trigger lines_of(output)[k], word_port(word)]
            0 <= k < lines_of(output).len() && contains_text(uppercase(trim_crs(lines_of(output)[k])), listen_word())
                && words(lines_of(output)[k]).contains(word) && word_port(word) == Some(n),
{
    let ls = lines_of(output);
    let us = uppered_lines(output);
    let all = listed_ports_given(ls, us);
    assert(all.contains(n));
    lemma_listed_port_from_line(ls, us, n);
    let k = choose|k: int| 0 <= k < ls.len() && #[trigger] line_ports_given(ls[k], us[k]).contains(n);
    assert(us[k] == uppercase(trim_crs(ls[k])));
    let f = |w: Seq<char>| word_port(w);
    assert(contains_text(us[k], listen_word()));
    words(ls[k]).lemma_filter_map_contains(f, n);
    let word = choose|w: Seq<char>| words(ls[k]).contains(w) && f(w) == Some(n);
    assert(word_port(word) == Some(n));
}

/// The commands that are tried in turn to list the listening ports in WSL.
pub open spec fn wsl_port_commands() -> Seq<Seq<Seq<char>>> {
    seq![
        seq!["wsl"@, "ss"@, "-tulpn"@],
        seq!["wsl"@, "sudo"@, "ss"@, "-tulpn"@],
        seq!["wsl"@, "netstat"@, "-tulpn"@],
        seq!["wsl"@, "sudo"@, "netstat"@, "-tulpn"@],
    ]
}

/// The words joined with single spaces (`[&str]::join(" ")`).
pub open spec fn spaced(words: Seq<Seq<char>>) -> Seq<char>
    decreases words.len(),
{
    if words.len() == 0 {
        seq![]
    } else if words.len() == 1 {
        words[0]
    } else {
        spaced(words.drop_last()) + seq![' '] + words.last()
    }
}

/// Joins the words with single spaces.
pub fn join_spaced(words: &Vec<String>) -> (r: String)
    ensures
        r@ == spaced(strings_text(words@)),
{
    let ghost ws = strings_text(words@);
    let mut r = String::new();
    let mut i: usize = 0;
    assert(ws.take(0) =~= Seq::<Seq<char>>::empty());
    while i < words.len()
        invariant
            i <= words@.len(),
            ws == strings_text(words@),
            r@ == spaced(ws.take(i as int)),
        decreases words@.len() - i,
    {
        assert(ws.take(i + 1).drop_last() =~= ws.take(i as int));
        assert(ws.take(i + 1).last() == words@[i as int]@);
        if i > 0 {
            let space = " ";
            proof {
                reveal_strlit(" ");
            }
            assert(space@ =~= seq![' ']);
            r.append(space);
        } else {
            assert(r@ =~= Seq::<char>::empty());
        }
        r.append(words[i].as_str());
        i = i + 1;
    }
    assert(ws.take(words@.len() as int) =~= ws);
    r
}

/// The log line for a listing command that ran: how many ports it gave, and
/// its trimmed output.
pub open spec fn found_line(label: Seq<char>, count: nat, output: Seq<char>) -> Seq<char> {
    "[WSL ports] `"@ + label + "` \u{2192} "@ + decimal(count) + " ports found\nraw:\n"@ + trim(output)
}

/// The log line for a listing command that failed, with the reason.
pub open spec fn failed_line(label: Seq<char>, detail: Seq<char>) -> Seq<char> {
    "[WSL ports] `"@ + label + "` \u{2192} failed: "@ + detail
}

/// The search for WSL's listening ports: the commands are tried in order until
/// one runs; each attempt adds a line to the log.
pub struct WslPortScan {
    attempt: usize,
    log: Vec<String>,
    found: Option<HashSet<u16>>,
}

impl WslPortScan {
    /// How many commands have failed so far.
    pub closed spec fn attempt(&self) -> nat {
        self.attempt as nat
    }

    /// The log so far.
    pub closed spec fn log(&self) -> Seq<Seq<char>> {
        strings_text(self.log@)
    }

    /// The ports, once a command has run.
    pub closed spec fn found(&self) -> Option<Set<u16>> {
        match self.found {
            Some(s) => Some(s@),
            None => None,
        }
    }

    /// The log holds one line per command tried.
    pub closed spec fn wf(&self) -> bool {
        &&& self.attempt <= 4
        &&& self.log@.len() == self.attempt + if self.found is Some {
            1int
        } else {
            0int
        }
    }

    /// No command is left to try: one ran, or all failed.
    pub open spec fn done(&self) -> bool {
        self.found() is Some || self.attempt() >= wsl_port_commands().len()
    }

    /// A search that has tried nothing yet.
    pub fn new() -> (r: Self)
        ensures
            r.attempt() == 0,
            r.log() == Seq::<Seq<char>>::empty(),
            r.found() is None,
            r.wf(),
    {
        let r = WslPortScan { attempt: 0, log: Vec::new(), found: None };
        assert(r.log() =~= Seq::<Seq<char>>::empty());
        r
    }

    fn command(i: usize) -> (r: Vec<String>)
        requires
            i < 4,
        ensures
            strings_text(r@) == wsl_port_commands()[i as int],
    {
        let r = if i == 0 {
            vec![String::from_str("wsl"), String::from_str("ss"), String::from_str("-tulpn")]
        } else if i == 1 {
            vec![String::from_str("wsl"), String::from_str("sudo"), String::from_str("ss"), String::from_str("-tulpn")]
        } else if i == 2 {
            vec![String::from_str("wsl"), String::from_str("netstat"), String::from_str("-tulpn")]
        } else {
            vec![String::from_str("wsl"), String::from_str("sudo"), String::from_str("netstat"), String::from_str("-tulpn")]
        };
        assert(strings_text(r@) =~= wsl_port_commands()[i as int]);
        r
    }

    /// The command to run next, if any is left.
    pub fn next_command(&self) -> (r: Option<Vec<String>>)
        ensures
            match r {
                Some(v) => !self.done() && strings_text(v@) == wsl_port_commands()[self.attempt() as int],
                None => self.done(),
            },
    {
        if self.found.is_some() || self.attempt >= 4 {
            None
        } else {
            Some(Self::command(self.attempt))
        }
    }

    /// Takes in what running the next command gave: its output if it ran, and
    /// the line that says how it went.
    pub fn record(&mut self, out: Option<String>, detail: String)
        requires
            !old(self).done(),
            old(self).wf(),
        ensures
            final(self).wf(),
            match opt_text(out) {
                Some(text) => {
                    &&& final(self).found() == Some(wsl_listening_ports(text))
                    &&& final(self).attempt() == old(self).attempt()
                    &&& final(self).log() == old(self).log().push(
                        found_line(
                            spaced(wsl_port_commands()[old(self).attempt() as int]),
                            wsl_listening_ports(text).len(),
                            text,
                        ),
                    )
                },
                None => {
                    &&& final(self).found() is None
                    &&& final(self).attempt() == old(self).attempt() + 1
                    &&& final(self).log() == old(self).log().push(
                        failed_line(spaced(wsl_port_commands()[old(self).attempt() as int]), detail@),
                    )
                },
            },
    {
        let label = join_spaced(&Self::command(self.attempt));
        let mut line = String::from_str("[WSL ports] `");
        line.append(label.as_str());
        match out {
            Some(text) => {
                let ports = parse_wsl_ports(text.as_str());
                let count = decimal_string(ports.len() as u64);
                line.append("` \u{2192} ");
                line.append(count.as_str());
                line.append(" ports found\nraw:\n");
                let cs = chars_of(text.as_str());
                let sp = trim_span(&cs, 0, cs.len());
                assert(cs@.subrange(0, cs@.len() as int) =~= cs@);
                let trimmed = span_string(text.as_str(), &cs, sp);
                line.append(trimmed.as_str());
                proof {
                    assert(strings_text(self.log@.push(line)) =~= strings_text(self.log@).push(line@));
                }
                self.log.push(line);
                self.found = Some(ports);
            },
            None => {
                line.append("` \u{2192} failed: ");
                line.append(detail.as_str());
                proof {
                    assert(strings_text(self.log@.push(line)) =~= strings_text(self.log@).push(line@));
                }
                self.log.push(line);
                self.attempt = self.attempt + 1;
            },
        }
    }

    /// The ports that were found (none when every command failed), and the log.
    pub fn finish(self) -> (r: (HashSet<u16>, Vec<String>))
        ensures
            r.0@ == match self.found() {
                Some(s) => s,
                None => Set::<u16>::empty(),
            },
            strings_text(r.1@) == self.log(),
    {
        match self.found {
            Some(s) => (s, self.log),
            None => (HashSet::new(), self.log),
        }
    }
}

/// Each command that was tried left one line in the log, and no more than
/// the four commands are ever tried.
pub proof fn lemma_one_log_line_per_attempt(scan: WslPortScan)
    requires
        scan.wf(),
    ensures
        scan.attempt() <= wsl_port_commands().len(),
        scan.log().len() == scan.attempt() + if scan.found() is Some {
            1int
        } else {
            0int
        },
{
}

/// The ports of `set` in increasing order.
pub fn sorted_ports(set: &HashSet<u16>) -> (r: Vec<u16>)
    ensures
        forall|i: int, j: int| 0 <= i < j < r@.len() ==> r@[i] < r@[j],
        forall|p: u16| set@.contains(p) <==> r@.contains(p),
{
    let mut out: Vec<u16> = Vec::new();
    let mut p: u32 = 0;
    while p < 65536
        invariant
            p <= 65536,
            forall|i: int, j: int| 0 <= i < j < out@.len() ==> out@[i] < out@[j],
            forall|i: int| 0 <= i < out@.len() ==> out@[i] < p,
            forall|q: u16| (q < p && set@.contains(q)) <==> out@.contains(q),
        decreases 65536 - p,
    {
        let q = p as u16;
        assert(q == p);
        let ghost before = out@;
        let present = set.contains(&q);
        if present {
            out.push(q);
        }
        assert forall|x: u16| (x < p + 1 && set@.contains(x)) <==> out@.contains(x) by {
            if present {
                assert(out@ == before.push(q));
                if before.contains(x) {
                    let i = choose|i: int| 0 <= i < before.len() && before[i] == x;
                    assert(out@[i] == x);
                }
                if x == q {
                    assert(out@[before.len() as int] == q);
                }
                if out@.contains(x) && x != q {
                    let i = choose|i: int| 0 <= i < out@.len() && out@[i] == x;
                    assert(before[i] == x);
                }
            }
        }
        p = p + 1;
    }
    out
}

} // verus!
