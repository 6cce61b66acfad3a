use vstd::prelude::*;
use vstd::string::*;

use crate::text::{
    chars_of, has_prefix, line_spans, lines_of, span_string, span_text, spans_text, spans_within,
    starts_with, trim, trim_span, word_spans, words, is_word, lemma_filter_map_keeps, lemma_words_are_words,
};
use crate::command::strings_text;
use crate::unicode::{lowercase, to_lowercase};

verus! {

/// A row of `netsh interface portproxy show all`: listen address, listen port,
/// connect address, connect port.
pub type NetshRow = (String, String, String, String);

/// The text of a row.
pub open spec fn row_text(r: NetshRow) -> (Seq<char>, Seq<char>, Seq<char>, Seq<char>) {
    (r.0@, r.1@, r.2@, r.3@)
}

/// The text of a list of rows.
pub open spec fn rows_text(rs: Seq<NetshRow>) -> Seq<(Seq<char>, Seq<char>, Seq<char>, Seq<char>)> {
    rs.map_values(|r: NetshRow| row_text(r))
}

/// The start of the line that underlines the table header.
pub open spec fn dashes() -> Seq<char> {
    seq!['-', '-', '-']
}

/// The first word of the English table header.
pub open spec fn address_word() -> Seq<char> {
    seq!['a', 'd', 'd', 'r', 'e', 's', 's']
}

/// A line that ends the table header: trimmed, it begins with `---`, or its
/// trimmed text in lower case (`lowered`) begins with `address`.
pub open spec fn is_header_given(line: Seq<char>, lowered: Seq<char>) -> bool {
    starts_with(trim(line), dashes()) || starts_with(lowered, address_word())
}

/// `i` is the first header line among `lines`, with `lowered[j]` the trimmed
/// text of `lines[j]` in lower case.
pub open spec fn is_first_header(lines: Seq<Seq<char>>, lowered: Seq<Seq<char>>, i: int) -> bool {
    &&& 0 <= i < lines.len()
    &&& is_header_given(lines[i], lowered[i])
    &&& forall|j: int| 0 <= j < i ==> !is_header_given(#[trigger] lines[j], lowered[j])
}

/// Where the rows begin: just after the first header line, or at the top when
/// there is none.
pub open spec fn netsh_data_start(lines: Seq<Seq<char>>, lowered: Seq<Seq<char>>) -> int {
    if exists|i: int| is_first_header(lines, lowered, i) {
        (choose|i: int| is_first_header(lines, lowered, i)) + 1
    } else {
        0
    }
}

/// The row that a line gives: its first four words, when it has at least four
/// and is not a line of dashes (the rule under the table header).
pub open spec fn netsh_row(line: Seq<char>) -> Option<(Seq<char>, Seq<char>, Seq<char>, Seq<char>)> {
    let w = words(line);
    if starts_with(trim(line), dashes()) {
        None
    } else if w.len() >= 4 {
        Some((w[0], w[1], w[2], w[3]))
    } else {
        None
    }
}

/// The forwarding rules in `raw`, given the lowered trimmed text of each line.
pub open spec fn netsh_rows_given(raw: Seq<char>, lowered: Seq<Seq<char>>) -> Seq<
    (Seq<char>, Seq<char>, Seq<char>, Seq<char>),
> {
    let ls = lines_of(raw);
    ls.skip(netsh_data_start(ls, lowered)).filter_map(|l: Seq<char>| netsh_row(l))
}

/// The trimmed text of each line of `raw`, in lower case (`str::to_lowercase`).
pub open spec fn lowered_lines(raw: Seq<char>) -> Seq<Seq<char>> {
    lines_of(raw).map_values(|l: Seq<char>| lowercase(trim(l)))
}

/// The forwarding rules that `netsh interface portproxy show all` lists in `raw`.
pub open spec fn netsh_rows(raw: Seq<char>) -> Seq<(Seq<char>, Seq<char>, Seq<char>, Seq<char>)> {
    netsh_rows_given(raw, lowered_lines(raw))
}

fn is_header_line(cs: &Vec<char>, sp: (usize, usize), lowered: &String) -> (r: bool)
    requires
        sp.0 <= sp.1 <= cs@.len(),
    ensures
        r == is_header_given(span_text(cs@, sp), lowered@),
{
    let (a, b) = trim_span(cs, sp.0, sp.1);
    let dash: Vec<char> = vec!['-', '-', '-'];
    assert(dash@ =~= dashes());
    if has_prefix(cs, a, b, &dash) {
        return true;
    }
    let lc = chars_of(lowered.as_str());
    let addr: Vec<char> = vec!['a', 'd', 'd', 'r', 'e', 's', 's'];
    assert(addr@ =~= address_word());
    assert(lc@.subrange(0, lc@.len() as int) =~= lc@);
    has_prefix(&lc, 0, lc.len(), &addr)
}

fn data_start(cs: &Vec<char>, ls: &Vec<(usize, usize)>, lowered: &Vec<String>) -> (r: usize)
    requires
        spans_within(ls@, 0, cs@.len() as int),
        lowered@.len() == ls@.len(),
    ensures
        r == netsh_data_start(spans_text(cs@, ls@), strings_text(lowered@)),
        r <= ls@.len(),
{
    let ghost lines = spans_text(cs@, ls@);
    let ghost low = strings_text(lowered@);
    let n = ls.len();
    let mut i: usize = 0;
    while i < n
        invariant
            n == ls@.len(),
            n == lowered@.len(),
            i <= n,
            lines == spans_text(cs@, ls@),
            low == strings_text(lowered@),
            spans_within(ls@, 0, cs@.len() as int),
            forall|j: int| 0 <= j < i ==> !is_header_given(#[trigger] lines[j], low[j]),
        decreases n - i,
    {
        assert(span_text(cs@, ls@[i as int]) == lines[i as int]);
        assert(lowered@[i as int]@ == low[i as int]);
        if is_header_line(cs, ls[i], &lowered[i]) {
            assert(is_first_header(lines, low, i as int));
            let ghost w = choose|j: int| is_first_header(lines, low, j);
            assert(w == i) by {
                if w < i {
                    assert(!is_header_given(lines[w], low[w]));
                } else if w > i {
                    assert(!is_header_given(lines[i as int], low[i as int]));
                }
            }
            return i + 1;
        }
        i = i + 1;
    }
    assert(!exists|j: int| is_first_header(lines, low, j));
    0
}

/// Reads the rules out of the output of `netsh interface portproxy show all`,
/// given the trimmed text of each of its lines in lower case: the rows after
/// the first header line, each with at least four words and not a rule of
/// dashes.
pub fn parse_netsh_lowered(raw: &str, lowered: &Vec<String>) -> (r: Vec<NetshRow>)
    requires
        lowered@.len() == lines_of(raw@).len(),
    ensures
        rows_text(r@) == netsh_rows_given(raw@, strings_text(lowered@)),
{
    let cs = chars_of(raw);
    let ls = line_spans(&cs, 0, cs.len());
    assert(cs@.subrange(0, cs@.len() as int) =~= cs@);
    let ghost lines = lines_of(raw@);
    let n = ls.len();
    let start = data_start(&cs, &ls, lowered);
    let dash: Vec<char> = vec!['-', '-', '-'];
    assert(dash@ =~= dashes());
    let mut out: Vec<NetshRow> = Vec::new();
    let mut k = start;
    let ghost body = lines.skip(start as int);
    while k < n
        invariant
            n == ls@.len(),
            start <= k <= n,
            cs@ == raw@,
            dash@ == dashes(),
            spans_text(cs@, ls@) == lines,
            spans_within(ls@, 0, cs@.len() as int),
            body == lines.skip(start as int),
            rows_text(out@) == body.take(k - start).filter_map(|l: Seq<char>| netsh_row(l)),
        decreases n - k,
    {
        let (a, b) = ls[k];
        assert(span_text(cs@, ls@[k as int]) == lines[k as int]);
        let ghost prefix = body.take(k + 1 - start);
        assert(prefix.drop_last() =~= body.take(k - start));
        assert(prefix.last() == lines[k as int]);
        let (ta, tb) = trim_span(&cs, a, b);
        let underline = has_prefix(&cs, ta, tb, &dash);
        let ws = word_spans(&cs, a, b);
        if !underline && ws.len() >= 4 {
            assert(span_text(cs@, ws@[0]) == words(lines[k as int])[0]);
            assert(span_text(cs@, ws@[1]) == words(lines[k as int])[1]);
            assert(span_text(cs@, ws@[2]) == words(lines[k as int])[2]);
            assert(span_text(cs@, ws@[3]) == words(lines[k as int])[3]);
            let row = (
                span_string(raw, &cs, ws[0]),
                span_string(raw, &cs, ws[1]),
                span_string(raw, &cs, ws[2]),
                span_string(raw, &cs, ws[3]),
            );
            proof {
                assert(rows_text(out@.push(row)) =~= rows_text(out@).push(row_text(row)));
            }
            out.push(row);
        }
        k = k + 1;
    }
    assert(body.take(n - start) =~= body);
    out
}

/// Reads the rules out of the output of `netsh interface portproxy show all`:
/// the rows after the header, each with at least four words and not a rule
/// of dashes.
pub fn parse_netsh(raw: &str) -> (r: Vec<NetshRow>)
    ensures
        rows_text(r@) == netsh_rows(raw@),
{
    let cs = chars_of(raw);
    let ls = line_spans(&cs, 0, cs.len());
    assert(cs@.subrange(0, cs@.len() as int) =~= cs@);
    let ghost lines = lines_of(raw@);
    let mut lowered: Vec<String> = Vec::new();
    let mut i: usize = 0;
    while i < ls.len()
        invariant
            i <= ls@.len(),
            cs@ == raw@,
            spans_text(cs@, ls@) == lines,
            spans_within(ls@, 0, cs@.len() as int),
            lines == lines_of(raw@),
            strings_text(lowered@) == lowered_lines(raw@).take(i as int),
        decreases ls@.len() - i,
    {
        let (a, b) = ls[i];
        assert(span_text(cs@, ls@[i as int]) == lines[i as int]);
        let (ta, tb) = trim_span(&cs, a, b);
        let piece = raw.substring_char(ta, tb);
        assert(piece@ == trim(lines[i as int]));
        let low = to_lowercase(piece);
        assert(lowered_lines(raw@)[i as int] == lowercase(trim(lines[i as int])));
        assert(strings_text(lowered@.push(low)) =~= strings_text(lowered@).push(low@));
        assert(lowered_lines(raw@).take(i + 1) =~= lowered_lines(raw@).take(i as int).push(low@));
        lowered.push(low);
        i = i + 1;
    }
    assert(lowered_lines(raw@).take(ls@.len() as int) =~= lowered_lines(raw@));
    parse_netsh_lowered(raw, &lowered)
}

/// The rows begin right after the first header line, whatever headers follow:
/// with `h` a header line that no earlier line is, the rules are those of all
/// the lines after `h`, in order.
pub proof fn lemma_rows_follow_first_header(raw: Seq<char>, lowered: Seq<Seq<char>>, h: int)
    requires
        0 <= h < lines_of(raw).len(),
        is_header_given(lines_of(raw)[h], lowered[h]),
        forall|j: int| 0 <= j < h ==> !is_header_given(#[trigger] lines_of(raw)[j], lowered[j]),
    ensures
        netsh_rows_given(raw, lowered) == lines_of(raw).skip(h + 1).filter_map(|l: Seq<char>| netsh_row(l)),
{
    let ls = lines_of(raw);
    assert(is_first_header(ls, lowered, h));
    let w = choose|j: int| is_first_header(ls, lowered, j);
    assert(w == h) by {
        if w < h {
            assert(!is_header_given(ls[w], lowered[w]));
        } else if w > h {
            assert(!is_header_given(ls[h], lowered[h]));
        }
    }
    assert(netsh_data_start(ls, lowered) == h + 1);
}

/// After the first header line, every line with at least four words that is
/// not a rule of dashes gives a rule: its first four words.
pub proof fn lemma_line_after_header_is_row(raw: Seq<char>, lowered: Seq<Seq<char>>, h: int, k: int)
    requires
        0 <= h < k < lines_of(raw).len(),
        is_header_given(lines_of(raw)[h], lowered[h]),
        forall|j: int| 0 <= j < h ==> !is_header_given(#[trigger] lines_of(raw)[j], lowered[j]),
        words(lines_of(raw)[k]).len() >= 4,
        !starts_with(trim(lines_of(raw)[k]), dashes()),
    ensures
        ({
            let w = words(lines_of(raw)[k]);
            netsh_rows_given(raw, lowered).contains((w[0], w[1], w[2], w[3]))
        }),
{
    lemma_rows_follow_first_header(raw, lowered, h);
    let ls = lines_of(raw);
    let w = words(ls[k]);
    let body = ls.skip(h + 1);
    assert(body[k - h - 1] == ls[k]);
    lemma_filter_map_keeps(body, |l: Seq<char>| netsh_row(l), k - h - 1, (w[0], w[1], w[2], w[3]));
}

/// Without a header line, every line is read for rules.
pub proof fn lemma_rows_without_header(raw: Seq<char>, lowered: Seq<Seq<char>>)
    requires
        forall|j: int| 0 <= j < lines_of(raw).len() ==> !is_header_given(#[trigger] lines_of(raw)[j], lowered[j]),
    ensures
        netsh_rows_given(raw, lowered) == lines_of(raw).filter_map(|l: Seq<char>| netsh_row(l)),
{
    let ls = lines_of(raw);
    assert(!exists|j: int| is_first_header(ls, lowered, j));
    assert(ls.skip(0) =~= ls);
}

/// Every field of every row that is read is a word: not empty, and without
/// whitespace.
pub proof fn lemma_netsh_fields_are_words(raw: Seq<char>)
    ensures
        forall|k: int|
            0 <= k < netsh_rows(raw).len() ==> {
                let r = #[trigger] netsh_rows(raw)[k];
                is_word(r.0) && is_word(r.1) && is_word(r.2) && is_word(r.3)
            },
{
    let ls = lines_of(raw);
    let body = ls.skip(netsh_data_start(ls, lowered_lines(raw)));
    let f = |l: Seq<char>| netsh_row(l);
    assert forall|k: int| 0 <= k < netsh_rows(raw).len() implies {
        let r = #[trigger] netsh_rows(raw)[k];
        is_word(r.0) && is_word(r.1) && is_word(r.2) && is_word(r.3)
    } by {
        let r = netsh_rows(raw)[k];
        assert(body.filter_map(f).contains(r));
        body.lemma_filter_map_contains(f, r);
        let l = choose|l: Seq<char>| body.contains(l) && f(l) == Some(r);
        lemma_words_are_words(l);
        let w = words(l);
        assert(is_word(w[0]) && is_word(w[1]) && is_word(w[2]) && is_word(w[3]));
    }
}

} // verus!
