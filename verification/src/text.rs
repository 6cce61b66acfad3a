use vstd::prelude::*;
use vstd::string::*;

verus! {

/// The characters with the Unicode `White_Space` property, which is what
/// `char::is_whitespace` tests.
pub open spec fn is_ws(c: char) -> bool {
    ||| '\u{9}' <= c <= '\u{d}'
    ||| c == ' '
    ||| c == '\u{85}'
    ||| c == '\u{a0}'
    ||| c == '\u{1680}'
    ||| '\u{2000}' <= c <= '\u{200a}'
    ||| c == '\u{2028}'
    ||| c == '\u{2029}'
    ||| c == '\u{202f}'
    ||| c == '\u{205f}'
    ||| c == '\u{3000}'
}

/// Whether `c` is whitespace (`char::is_whitespace`).
pub fn is_whitespace(c: char) -> (r: bool)
    ensures
        r == is_ws(c),
{
    ('\u{9}' <= c && c <= '\u{d}') || c == ' ' || c == '\u{85}' || c == '\u{a0}' || c == '\u{1680}'
        || ('\u{2000}' <= c && c <= '\u{200a}') || c == '\u{2028}' || c == '\u{2029}' || c
        == '\u{202f}' || c == '\u{205f}' || c == '\u{3000}'
}

/// The characters of `s`, one per element.
pub fn chars_of(s: &str) -> (v: Vec<char>)
    ensures
        v@ == s@,
{
    broadcast use vstd::string::group_string_axioms;
    let mut v: Vec<char> = Vec::new();
    for c in it: s.chars()
        invariant
            v@ == it.seq().take(it.index() as int),
            it.seq() == s@,
    {
        v.push(c);
    }
    v
}

/// The one-character text of the decimal digit `d`.
pub fn digit_text(d: u64) -> (r: String)
    requires
        d < 10,
    ensures
        r@ == seq![digit_char(d as nat)],
{
    let digits = "0123456789";
    proof {
        reveal_strlit("0123456789");
    }
    let piece = digits.substring_char(d as usize, (d + 1) as usize);
    let r = String::from_str(piece);
    assert(r@ =~= seq![digit_char(d as nat)]);
    r
}


/// The piece of `cs` that a span `(start, end)` marks.
pub open spec fn span_text(cs: Seq<char>, sp: (usize, usize)) -> Seq<char> {
    cs.subrange(sp.0 as int, sp.1 as int)
}

/// The pieces of `cs` that a list of spans marks, in order.
pub open spec fn spans_text(cs: Seq<char>, sps: Seq<(usize, usize)>) -> Seq<Seq<char>> {
    sps.map_values(|sp: (usize, usize)| span_text(cs, sp))
}

/// Adding a span adds its piece.
pub proof fn lemma_spans_push(cs: Seq<char>, sps: Seq<(usize, usize)>, sp: (usize, usize))
    ensures
        spans_text(cs, sps.push(sp)) == spans_text(cs, sps).push(span_text(cs, sp)),
{
    assert(spans_text(cs, sps.push(sp)) =~= spans_text(cs, sps).push(span_text(cs, sp)));
}

/// Every span lies inside `lo..hi`.
pub open spec fn spans_within(sps: Seq<(usize, usize)>, lo: int, hi: int) -> bool {
    forall|i: int| 0 <= i < sps.len() ==> lo <= #[trigger] sps[i].0 <= sps[i].1 <= hi
}

/// The pieces between the occurrences of `sep` in `s` (what `str::split` yields
/// for a single character): `n` separators give `n + 1` pieces.
pub open spec fn split_char(s: Seq<char>, sep: char) -> Seq<Seq<char>>
    decreases s.len(),
{
    if s.len() == 0 {
        seq![Seq::empty()]
    } else {
        let prev = split_char(s.drop_last(), sep);
        if s.last() == sep {
            prev.push(Seq::empty())
        } else {
            prev.drop_last().push(prev.last().push(s.last()))
        }
    }
}

pub proof fn lemma_split_char_nonempty(s: Seq<char>, sep: char)
    ensures
        split_char(s, sep).len() >= 1,
    decreases s.len(),
{
    if s.len() > 0 {
        lemma_split_char_nonempty(s.drop_last(), sep);
    }
}

/// Splitting two texts joined by `sep` gives the pieces of the first, then
/// those of the second.
pub proof fn lemma_split_char_concat(a: Seq<char>, b: Seq<char>, sep: char)
    ensures
        split_char(a + seq![sep] + b, sep) == split_char(a, sep) + split_char(b, sep),
    decreases b.len(),
{
    let s = a + seq![sep] + b;
    if b.len() == 0 {
        assert(s.drop_last() =~= a);
        assert(s.last() == sep);
        assert(split_char(b, sep) =~= seq![Seq::<char>::empty()]) by {
            assert(b =~= Seq::<char>::empty());
        }
        assert(split_char(s, sep) =~= split_char(a, sep) + split_char(b, sep));
    } else {
        lemma_split_char_concat(a, b.drop_last(), sep);
        lemma_split_char_nonempty(b.drop_last(), sep);
        assert(s.drop_last() =~= a + seq![sep] + b.drop_last());
        assert(s.last() == b.last());
        let pa = split_char(a, sep);
        let q = split_char(b.drop_last(), sep);
        if b.last() == sep {
            assert(split_char(s, sep) =~= pa + q.push(Seq::empty()));
        } else {
            let prev = pa + q;
            assert(prev.last() == q.last());
            assert(prev.drop_last() =~= pa + q.drop_last());
            assert(split_char(s, sep) =~= pa + q.drop_last().push(q.last().push(b.last())));
        }
    }
}

/// The last piece of a split, when not empty, ends where the text ends.
pub proof fn lemma_split_char_last(s: Seq<char>, sep: char)
    requires
        split_char(s, sep).last().len() > 0,
    ensures
        s.len() > 0,
        split_char(s, sep).last().last() == s.last(),
{
    if s.len() == 0 {
        assert(split_char(s, sep).last() =~= Seq::<char>::empty());
    } else if s.last() == sep {
        assert(split_char(s, sep).last() =~= Seq::<char>::empty());
    } else {
        lemma_split_char_nonempty(s.drop_last(), sep);
    }
}

/// The lines of two texts joined by a line break: every piece of the first
/// (as a line that a `'\n'` ends), then the lines of the second.
pub proof fn lemma_lines_of_joined(a: Seq<char>, b: Seq<char>)
    ensures
        lines_of(a + seq!['\n'] + b) == split_char(a, '\n').map_values(|l: Seq<char>| strip_cr(l))
            + lines_of(b),
{
    let pa = split_char(a, '\n');
    let pb = split_char(b, '\n');
    lemma_split_char_concat(a, b, '\n');
    lemma_split_char_nonempty(b, '\n');
    let p = pa + pb;
    assert(p.drop_last() =~= pa + pb.drop_last());
    assert(p.last() == pb.last());
    let f = |l: Seq<char>| strip_cr(l);
    assert((pa + pb.drop_last()).map_values(f) =~= pa.map_values(f) + pb.drop_last().map_values(f));
    assert(lines_of(a + seq!['\n'] + b) =~= pa.map_values(f) + lines_of(b));
}

/// `s` without all the `'\r'` that end it.
pub open spec fn trim_crs(s: Seq<char>) -> Seq<char>
    decreases s.len(),
{
    if s.len() > 0 && s.last() == '\r' {
        trim_crs(s.drop_last())
    } else {
        s
    }
}

/// `trim_crs(s)` begins `s`, what follows it is all `'\r'`, and dropping one
/// trailing `'\r'` first changes nothing.
pub proof fn lemma_trim_crs(s: Seq<char>)
    ensures
        trim_crs(s).len() <= s.len(),
        trim_crs(s) == s.take(trim_crs(s).len() as int),
        forall|i: int| trim_crs(s).len() <= i < s.len() ==> #[trigger] s[i] == '\r',
        trim_crs(strip_cr(s)) == trim_crs(s),
    decreases s.len(),
{
    if s.len() > 0 && s.last() == '\r' {
        lemma_trim_crs(s.drop_last());
        let t = trim_crs(s.drop_last());
        assert(s.drop_last().take(t.len() as int) =~= s.take(t.len() as int));
        assert forall|i: int| t.len() <= i < s.len() implies #[trigger] s[i] == '\r' by {
            if i < s.len() - 1 {
                assert(s.drop_last()[i] == s[i]);
            }
        }
    } else {
        assert(s.take(s.len() as int) =~= s);
    }
}

/// A pattern that ends in something other than `'\r'` occurs in a text
/// followed by `'\r'`s just when it occurs in the text.
pub proof fn lemma_contains_before_crs(u: Seq<char>, t: Seq<char>, pat: Seq<char>)
    requires
        pat.len() > 0,
        pat.last() != '\r',
        forall|i: int| 0 <= i < t.len() ==> #[trigger] t[i] == '\r',
    ensures
        contains_text(u + t, pat) == contains_text(u, pat),
{
    let s = u + t;
    if contains_text(s, pat) {
        let i = choose|i: int| 0 <= i && i + pat.len() <= s.len() && #[trigger] s.subrange(i, i + pat.len()) == pat;
        let e = i + pat.len() - 1;
        assert(s.subrange(i, i + pat.len())[pat.len() - 1] == s[e]);
        if e >= u.len() {
            assert(s[e] == t[e - u.len()]);
        }
        assert(u.subrange(i, i + pat.len()) =~= s.subrange(i, i + pat.len()));
    }
    if contains_text(u, pat) {
        let i = choose|i: int| 0 <= i && i + pat.len() <= u.len() && #[trigger] u.subrange(i, i + pat.len()) == pat;
        assert(u.subrange(i, i + pat.len()) =~= s.subrange(i, i + pat.len()));
    }
}

/// Splits `cs[lo..hi]` at every `sep`.
pub fn split_spans(cs: &Vec<char>, lo: usize, hi: usize, sep: char) -> (r: Vec<(usize, usize)>)
    requires
        lo <= hi <= cs@.len(),
    ensures
        spans_text(cs@, r@) == split_char(cs@.subrange(lo as int, hi as int), sep),
        spans_within(r@, lo as int, hi as int),
{
    let mut out: Vec<(usize, usize)> = Vec::new();
    let mut start = lo;
    let mut i = lo;
    assert(cs@.subrange(lo as int, lo as int) =~= Seq::<char>::empty());
    assert(spans_text(cs@, out@).push(cs@.subrange(start as int, i as int)) =~= seq![Seq::<char>::empty()]);
    while i < hi
        invariant
            lo <= start <= i <= hi <= cs@.len(),
            spans_within(out@, lo as int, start as int),
            spans_text(cs@, out@).push(cs@.subrange(start as int, i as int)) == split_char(
                cs@.subrange(lo as int, i as int),
                sep,
            ),
        decreases hi - i,
    {
        let ghost prev = split_char(cs@.subrange(lo as int, i as int), sep);
        let ghost sub = cs@.subrange(lo as int, i + 1);
        assert(sub.drop_last() =~= cs@.subrange(lo as int, i as int));
        assert(sub.last() == cs@[i as int]);
        if cs[i] == sep {
            proof {
                lemma_spans_push(cs@, out@, (start, i));
            }
            out.push((start, i));
            start = i + 1;
            assert(cs@.subrange(start as int, (i + 1) as int) =~= Seq::<char>::empty());
            assert(spans_text(cs@, out@).push(cs@.subrange(start as int, (i + 1) as int)) =~= prev.push(Seq::empty()));
        } else {
            assert(cs@.subrange(start as int, i as int).push(cs@[i as int]) =~= cs@.subrange(start as int, i + 1));
            assert(spans_text(cs@, out@).push(cs@.subrange(start as int, (i + 1) as int)) =~= prev.drop_last().push(prev.last().push(cs@[i as int])));
        }
        i = i + 1;
    }
    proof {
        lemma_spans_push(cs@, out@, (start, hi));
    }
    out.push((start, hi));
    out
}


/// A line without the `'\r'` that ends it, if one does.
pub open spec fn strip_cr(l: Seq<char>) -> Seq<char> {
    if l.len() > 0 && l.last() == '\r' {
        l.drop_last()
    } else {
        l
    }
}

/// The lines of `s`, as `str::lines` yields them: split at `'\n'`, a line that a
/// `'\n'` ends loses one `'\r'` before it, and an empty last piece is no line.
pub open spec fn lines_of(s: Seq<char>) -> Seq<Seq<char>> {
    let p = split_char(s, '\n');
    let body = p.drop_last().map_values(|l: Seq<char>| strip_cr(l));
    if p.last().len() == 0 {
        body
    } else {
        body.push(p.last())
    }
}

/// The lines of `cs[lo..hi]`.
pub fn line_spans(cs: &Vec<char>, lo: usize, hi: usize) -> (r: Vec<(usize, usize)>)
    requires
        lo <= hi <= cs@.len(),
    ensures
        spans_text(cs@, r@) == lines_of(cs@.subrange(lo as int, hi as int)),
        spans_within(r@, lo as int, hi as int),
{
    let pieces = split_spans(cs, lo, hi, '\n');
    let ghost p = split_char(cs@.subrange(lo as int, hi as int), '\n');
    proof {
        lemma_split_char_nonempty(cs@.subrange(lo as int, hi as int), '\n');
    }
    let n = pieces.len() - 1;
    let mut out: Vec<(usize, usize)> = Vec::new();
    let mut k: usize = 0;
    while k < n
        invariant
            n + 1 == pieces@.len(),
            k <= n,
            hi <= cs@.len(),
            spans_text(cs@, pieces@) == p,
            spans_within(pieces@, lo as int, hi as int),
            spans_within(out@, lo as int, hi as int),
            spans_text(cs@, out@) == p.take(k as int).map_values(|l: Seq<char>| strip_cr(l)),
        decreases n - k,
    {
        let (a, b) = pieces[k];
        assert(span_text(cs@, pieces@[k as int]) == p[k as int]);
        let sp = if b > a && cs[b - 1] == '\r' {
            assert(cs@.subrange(a as int, b as int).drop_last() =~= cs@.subrange(a as int, b - 1));
            (a, b - 1)
        } else {
            (a, b)
        };
        proof {
            lemma_spans_push(cs@, out@, sp);
            assert(p.take(k + 1).map_values(|l: Seq<char>| strip_cr(l)) =~= p.take(k as int).map_values(
                |l: Seq<char>| strip_cr(l),
            ).push(strip_cr(p[k as int])));
        }
        out.push(sp);
        k = k + 1;
    }
    assert(p.take(n as int) =~= p.drop_last());
    let (a, b) = pieces[n];
    assert(span_text(cs@, pieces@[n as int]) == p[n as int]);
    if a < b {
        proof {
            lemma_spans_push(cs@, out@, (a, b));
        }
        out.push((a, b));
    }
    out
}

/// `s` without its leading whitespace (`str::trim_start`).
pub open spec fn trim_start(s: Seq<char>) -> Seq<char>
    decreases s.len(),
{
    if s.len() > 0 && is_ws(s[0]) {
        trim_start(s.drop_first())
    } else {
        s
    }
}

/// `s` without its trailing whitespace (`str::trim_end`).
pub open spec fn trim_end(s: Seq<char>) -> Seq<char>
    decreases s.len(),
{
    if s.len() > 0 && is_ws(s.last()) {
        trim_end(s.drop_last())
    } else {
        s
    }
}

/// `s` without leading and trailing whitespace (`str::trim`).
pub open spec fn trim(s: Seq<char>) -> Seq<char> {
    trim_end(trim_start(s))
}

/// The span of `cs[lo..hi]` that is left once whitespace is trimmed off both ends.
pub fn trim_span(cs: &Vec<char>, lo: usize, hi: usize) -> (r: (usize, usize))
    requires
        lo <= hi <= cs@.len(),
    ensures
        lo <= r.0 <= r.1 <= hi,
        span_text(cs@, r) == trim(cs@.subrange(lo as int, hi as int)),
{
    let mut a = lo;
    while a < hi && is_whitespace(cs[a])
        invariant
            lo <= a <= hi <= cs@.len(),
            trim_start(cs@.subrange(lo as int, hi as int)) == trim_start(cs@.subrange(a as int, hi as int)),
        decreases hi - a,
    {
        assert(cs@.subrange(a as int, hi as int).drop_first() =~= cs@.subrange(a + 1, hi as int));
        a = a + 1;
    }
    let mut b = hi;
    while b > a && is_whitespace(cs[b - 1])
        invariant
            lo <= a <= b <= hi <= cs@.len(),
            trim_end(cs@.subrange(a as int, hi as int)) == trim_end(cs@.subrange(a as int, b as int)),
        decreases b - a,
    {
        assert(cs@.subrange(a as int, b as int).drop_last() =~= cs@.subrange(a as int, b - 1));
        b = b - 1;
    }
    (a, b)
}

/// The whitespace-separated words of `s` (`str::split_whitespace`): the maximal
/// runs of characters that are not whitespace, in order.
pub open spec fn words(s: Seq<char>) -> Seq<Seq<char>>
    decreases s.len(),
{
    if s.len() == 0 {
        seq![]
    } else {
        let w = words(s.drop_last());
        let c = s.last();
        if is_ws(c) {
            w
        } else if s.len() >= 2 && !is_ws(s[s.len() - 2]) {
            w.drop_last().push(w.last().push(c))
        } else {
            w.push(seq![c])
        }
    }
}

/// A word: at least one character, none of them whitespace.
pub open spec fn is_word(w: Seq<char>) -> bool {
    &&& w.len() > 0
    &&& forall|i: int| 0 <= i < w.len() ==> !is_ws(#[trigger] w[i])
}

/// Every piece that `words` yields is a word.
pub proof fn lemma_words_are_words(s: Seq<char>)
    ensures
        forall|k: int| 0 <= k < words(s).len() ==> is_word(#[trigger] words(s)[k]),
    decreases s.len(),
{
    if s.len() > 0 {
        lemma_words_are_words(s.drop_last());
        let w = words(s.drop_last());
        let c = s.last();
        if !is_ws(c) && s.len() >= 2 && !is_ws(s[s.len() - 2]) {
            lemma_words_nonempty_after_word(s.drop_last());
            let last = w.last().push(c);
            assert(is_word(last)) by {
                assert forall|i: int| 0 <= i < last.len() implies !is_ws(#[trigger] last[i]) by {
                    if i < w.last().len() {
                        assert(is_word(w[w.len() - 1]));
                    }
                }
            }
            assert forall|k: int| 0 <= k < words(s).len() implies is_word(#[trigger] words(s)[k]) by {
                if k < w.len() - 1 {
                    assert(words(s)[k] == w[k]);
                }
            }
        } else if !is_ws(c) {
            assert(is_word(seq![c]));
            assert forall|k: int| 0 <= k < words(s).len() implies is_word(#[trigger] words(s)[k]) by {
                if k < w.len() {
                    assert(words(s)[k] == w[k]);
                }
            }
        }
    }
}

/// A text that ends in a character that is not whitespace has a last word.
pub proof fn lemma_words_nonempty_after_word(s: Seq<char>)
    requires
        s.len() > 0,
        !is_ws(s.last()),
    ensures
        words(s).len() > 0,
    decreases s.len(),
{
    if s.len() >= 2 && !is_ws(s[s.len() - 2]) {
        assert(s.drop_last().last() == s[s.len() - 2]);
        lemma_words_nonempty_after_word(s.drop_last());
    }
}

/// Spans inside `lo..hi` stay inside a wider range, and a new span inside it
/// keeps them all inside.
pub proof fn lemma_spans_within_push(sps: Seq<(usize, usize)>, sp: (usize, usize), lo: int, hi: int, wider: int)
    requires
        spans_within(sps, lo, hi),
        hi <= wider,
        lo <= sp.0 <= sp.1 <= wider,
    ensures
        spans_within(sps, lo, wider),
        spans_within(sps.push(sp), lo, wider),
{
    assert forall|i: int| 0 <= i < sps.push(sp).len() implies lo <= #[trigger] sps.push(sp)[i].0 <= sps.push(sp)[i].1
        <= wider by {
        if i < sps.len() {
            assert(sps.push(sp)[i] == sps[i]);
        }
    }
}

/// The words of `cs[lo..hi]`.
pub fn word_spans(cs: &Vec<char>, lo: usize, hi: usize) -> (r: Vec<(usize, usize)>)
    requires
        lo <= hi <= cs@.len(),
    ensures
        spans_text(cs@, r@) == words(cs@.subrange(lo as int, hi as int)),
        spans_within(r@, lo as int, hi as int),
{
    let mut out: Vec<(usize, usize)> = Vec::new();
    let mut in_word = false;
    let mut start = lo;
    let mut i = lo;
    assert(cs@.subrange(lo as int, lo as int) =~= Seq::<char>::empty());
    while i < hi
        invariant
            lo <= start <= i <= hi <= cs@.len(),
            spans_within(out@, lo as int, i as int),
            in_word ==> spans_within(out@, lo as int, start as int),
            in_word <==> (i > lo && !is_ws(cs@[i - 1])),
            in_word ==> start < i,
            words(cs@.subrange(lo as int, i as int)) == if in_word {
                spans_text(cs@, out@).push(cs@.subrange(start as int, i as int))
            } else {
                spans_text(cs@, out@)
            },
        decreases hi - i,
    {
        let ghost sub = cs@.subrange(lo as int, i + 1);
        assert(sub.drop_last() =~= cs@.subrange(lo as int, i as int));
        assert(sub.last() == cs@[i as int]);
        assert(i > lo ==> sub[sub.len() - 2] == cs@[i - 1]);
        let c = cs[i];
        if is_whitespace(c) {
            if in_word {
                proof {
                    lemma_spans_push(cs@, out@, (start, i));
                    lemma_spans_within_push(out@, (start, i), lo as int, start as int, i + 1);
                }
                out.push((start, i));
                in_word = false;
            } else {
                proof {
                    lemma_spans_within_push(out@, (lo, lo), lo as int, i as int, i + 1);
                }
            }
        } else {
            proof {
                lemma_spans_within_push(out@, (lo, lo), lo as int, i as int, i + 1);
            }
            if !in_word {
                start = i;
                in_word = true;
                assert(cs@.subrange(start as int, i + 1) =~= seq![c]);
            } else {
                assert(cs@.subrange(start as int, i as int).push(c) =~= cs@.subrange(start as int, i + 1));
            }
        }
        i = i + 1;
    }
    if in_word {
        proof {
            lemma_spans_push(cs@, out@, (start, hi));
            lemma_spans_within_push(out@, (start, hi), lo as int, start as int, hi as int);
        }
        out.push((start, hi));
    }
    out
}


/// The text of a span of `s`, as an owned string.
pub fn span_string(s: &str, cs: &Vec<char>, sp: (usize, usize)) -> (r: String)
    requires
        cs@ == s@,
        sp.0 <= sp.1 <= cs@.len(),
    ensures
        r@ == span_text(cs@, sp),
{
    String::from_str(s.substring_char(sp.0, sp.1))
}

/// `i` is where `c` first occurs in `s`.
pub open spec fn is_first_index(s: Seq<char>, c: char, i: int) -> bool {
    &&& 0 <= i < s.len()
    &&& s[i] == c
    &&& forall|j: int| 0 <= j < i ==> s[j] != c
}

/// Where `c` first occurs in `s` (`str::find`), if it does.
pub open spec fn find_char(s: Seq<char>, c: char) -> Option<int> {
    if exists|i: int| is_first_index(s, c, i) {
        Some(choose|i: int| is_first_index(s, c, i))
    } else {
        None
    }
}

/// `i` is where `c` last occurs in `s`.
pub open spec fn is_last_index(s: Seq<char>, c: char, i: int) -> bool {
    &&& 0 <= i < s.len()
    &&& s[i] == c
    &&& forall|j: int| i < j < s.len() ==> s[j] != c
}

/// Where `c` last occurs in `s` (`str::rfind`), if it does.
pub open spec fn rfind_char(s: Seq<char>, c: char) -> Option<int> {
    if exists|i: int| is_last_index(s, c, i) {
        Some(choose|i: int| is_last_index(s, c, i))
    } else {
        None
    }
}

/// The text before and after the first `c` in `s` (`str::split_once`).
pub open spec fn split_once_char(s: Seq<char>, c: char) -> Option<(Seq<char>, Seq<char>)> {
    match find_char(s, c) {
        Some(i) => Some((s.take(i), s.skip(i + 1))),
        None => None,
    }
}

/// Finds the first `c` in `cs[lo..hi]`.
pub fn find_in(cs: &Vec<char>, lo: usize, hi: usize, c: char) -> (r: Option<usize>)
    requires
        lo <= hi <= cs@.len(),
    ensures
        match r {
            Some(k) => lo <= k < hi && find_char(cs@.subrange(lo as int, hi as int), c) == Some(k - lo),
            None => find_char(cs@.subrange(lo as int, hi as int), c) is None,
        },
{
    let ghost sub = cs@.subrange(lo as int, hi as int);
    let mut k = lo;
    while k < hi
        invariant
            lo <= k <= hi <= cs@.len(),
            sub == cs@.subrange(lo as int, hi as int),
            forall|j: int| 0 <= j < k - lo ==> sub[j] != c,
        decreases hi - k,
    {
        if cs[k] == c {
            assert(is_first_index(sub, c, k - lo));
            let ghost w = choose|i: int| is_first_index(sub, c, i);
            assert(w == k - lo) by {
                if w < k - lo {
                    assert(sub[w] != c);
                } else if w > k - lo {
                    assert(sub[k - lo] != c);
                }
            }
            return Some(k);
        }
        k = k + 1;
    }
    assert(!exists|i: int| is_first_index(sub, c, i));
    None
}

/// Finds the last `c` in `cs[lo..hi]`.
pub fn rfind_in(cs: &Vec<char>, lo: usize, hi: usize, c: char) -> (r: Option<usize>)
    requires
        lo <= hi <= cs@.len(),
    ensures
        match r {
            Some(k) => lo <= k < hi && rfind_char(cs@.subrange(lo as int, hi as int), c) == Some(k - lo),
            None => rfind_char(cs@.subrange(lo as int, hi as int), c) is None,
        },
{
    let ghost sub = cs@.subrange(lo as int, hi as int);
    let mut k = hi;
    while k > lo
        invariant
            lo <= k <= hi <= cs@.len(),
            sub == cs@.subrange(lo as int, hi as int),
            forall|j: int| k - lo <= j < hi - lo ==> sub[j] != c,
        decreases k - lo,
    {
        if cs[k - 1] == c {
            let ghost at = k - 1 - lo;
            assert(is_last_index(sub, c, at));
            let ghost w = choose|i: int| is_last_index(sub, c, i);
            assert(w == at) by {
                if w < at {
                    assert(sub[at] != c);
                } else if w > at {
                    assert(sub[w] != c);
                }
            }
            return Some(k - 1);
        }
        k = k - 1;
    }
    assert(!exists|i: int| is_last_index(sub, c, i));
    None
}

/// `pat` begins `s` (`str::starts_with`).
pub open spec fn starts_with(s: Seq<char>, pat: Seq<char>) -> bool {
    pat.is_prefix_of(s)
}

/// `pat` occurs somewhere in `s` (`str::contains`).
pub open spec fn contains_text(s: Seq<char>, pat: Seq<char>) -> bool {
    exists|i: int| 0 <= i && i + pat.len() <= s.len() && #[trigger] s.subrange(i, i + pat.len()) == pat
}

/// Whether `cs[lo..hi]` begins with `pat`.
pub fn has_prefix(cs: &Vec<char>, lo: usize, hi: usize, pat: &Vec<char>) -> (r: bool)
    requires
        lo <= hi <= cs@.len(),
    ensures
        r == starts_with(cs@.subrange(lo as int, hi as int), pat@),
{
    if hi - lo < pat.len() {
        return false;
    }
    let mut k: usize = 0;
    while k < pat.len()
        invariant
            lo <= hi <= cs@.len(),
            pat@.len() <= hi - lo,
            k <= pat@.len(),
            forall|j: int| 0 <= j < k ==> cs@[lo + j] == pat@[j],
        decreases pat@.len() - k,
    {
        if cs[lo + k] != pat[k] {
            assert(cs@.subrange(lo as int, hi as int).subrange(0, pat@.len() as int)[k as int] != pat@[k as int]);
            return false;
        }
        k = k + 1;
    }
    assert(cs@.subrange(lo as int, hi as int).subrange(0, pat@.len() as int) =~= pat@);
    true
}

/// Whether `pat` occurs in `cs`.
pub fn has_infix(cs: &Vec<char>, pat: &Vec<char>) -> (r: bool)
    ensures
        r == contains_text(cs@, pat@),
{
    if cs.len() < pat.len() {
        return false;
    }
    let last = cs.len() - pat.len();
    let mut i: usize = 0;
    while i <= last
        invariant
            last + pat@.len() == cs@.len(),
            i <= last + 1,
            forall|j: int| 0 <= j < i ==> #[trigger] cs@.subrange(j, j + pat@.len()) != pat@,
        decreases last + 1 - i,
    {
        if has_prefix(cs, i, cs.len(), pat) {
            assert(cs@.subrange(i as int, cs@.len() as int).subrange(0, pat@.len() as int) =~= cs@.subrange(i as int, i + pat@.len()));
            return true;
        }
        assert(cs@.subrange(i as int, cs@.len() as int).subrange(0, pat@.len() as int) =~= cs@.subrange(i as int, i + pat@.len()));
        i = i + 1;
    }
    assert forall|j: int| 0 <= j && j + pat@.len() <= cs@.len() implies #[trigger] cs@.subrange(j, j + pat@.len()) != pat@ by {
        assert(j < i);
    }
    false
}


/// An ASCII decimal digit.
pub open spec fn is_digit(c: char) -> bool {
    '0' <= c <= '9'
}

/// Every character of `s` is an ASCII decimal digit.
pub open spec fn all_digits(s: Seq<char>) -> bool {
    forall|i: int| 0 <= i < s.len() ==> is_digit(#[trigger] s[i])
}

/// The number that a string of decimal digits writes.
pub open spec fn digits_value(s: Seq<char>) -> nat
    decreases s.len(),
{
    if s.len() == 0 {
        0
    } else {
        digits_value(s.drop_last()) * 10 + (s.last() as nat - '0' as nat) as nat
    }
}

/// What `str::parse::<u16>` makes of `s`: an optional `'+'`, then one or more
/// ASCII digits whose value fits in a `u16`; anything else is refused.
pub open spec fn parse_u16_spec(s: Seq<char>) -> Option<u16> {
    let d = if s.len() > 0 && s[0] == '+' {
        s.drop_first()
    } else {
        s
    };
    if d.len() > 0 && all_digits(d) && digits_value(d) <= u16::MAX {
        Some(digits_value(d) as u16)
    } else {
        None
    }
}

proof fn lemma_digits_value_prefix(s: Seq<char>, i: int)
    requires
        0 <= i <= s.len(),
        all_digits(s),
    ensures
        digits_value(s.take(i)) <= digits_value(s),
    decreases s.len(),
{
    if i < s.len() {
        assert(s.drop_last().take(i) =~= s.take(i));
        assert(all_digits(s.drop_last()));
        lemma_digits_value_prefix(s.drop_last(), i);
    } else {
        assert(s.take(i) =~= s);
    }
}

/// Parses `cs[lo..hi]` as a `u16`, as `str::parse::<u16>` does.
pub fn parse_u16_in(cs: &Vec<char>, lo: usize, hi: usize) -> (r: Option<u16>)
    requires
        lo <= hi <= cs@.len(),
    ensures
        r == parse_u16_spec(cs@.subrange(lo as int, hi as int)),
{
    let ghost s = cs@.subrange(lo as int, hi as int);
    let start = if lo < hi && cs[lo] == '+' {
        lo + 1
    } else {
        lo
    };
    let ghost d = cs@.subrange(start as int, hi as int);
    assert(d =~= (if s.len() > 0 && s[0] == '+' { s.drop_first() } else { s }));
    assert(parse_u16_spec(s) == (if d.len() > 0 && all_digits(d) && digits_value(d) <= u16::MAX {
        Some(digits_value(d) as u16)
    } else {
        None
    }));
    if start == hi {
        return None;
    }
    let mut value: u32 = 0;
    let mut k = start;
    while k < hi
        invariant
            start <= k <= hi <= cs@.len(),
            d == cs@.subrange(start as int, hi as int),
            d.len() > 0,
            parse_u16_spec(cs@.subrange(lo as int, hi as int)) == (if all_digits(d) && digits_value(d) <= u16::MAX {
                Some(digits_value(d) as u16)
            } else {
                None
            }),
            all_digits(cs@.subrange(start as int, k as int)),
            value == digits_value(cs@.subrange(start as int, k as int)),
            value <= u16::MAX,
        decreases hi - k,
    {
        let c = cs[k];
        if !('0' <= c && c <= '9') {
            assert(d[k - start] == c);
            assert(!is_digit(d[k - start]));
            assert(!all_digits(d));
            return None;
        }
        let ghost next = cs@.subrange(start as int, k + 1);
        assert(next.drop_last() =~= cs@.subrange(start as int, k as int));
        let digit = (c as u32) - ('0' as u32);
        let v = value * 10 + digit;
        assert(v == digits_value(next));
        if v > 65535 {
            proof {
                if all_digits(d) {
                    assert(d.take(k + 1 - start) =~= next);
                    lemma_digits_value_prefix(d, k + 1 - start);
                    assert(digits_value(d) > u16::MAX);
                }
            }
            return None;
        }
        value = v;
        k = k + 1;
    }
    assert(cs@.subrange(start as int, hi as int) =~= d);
    Some(value as u16)
}

/// The decimal digit character for `d < 10`.
pub open spec fn digit_char(d: nat) -> char {
    (d + 48) as char
}

/// `n` written in decimal, without leading zeros (what `to_string` gives).
pub open spec fn decimal(n: nat) -> Seq<char>
    decreases n,
{
    if n < 10 {
        seq![digit_char(n)]
    } else {
        decimal(n / 10).push(digit_char(n % 10))
    }
}

/// `n` written in decimal.
pub fn decimal_string(n: u64) -> (r: String)
    ensures
        r@ == decimal(n as nat),
    decreases n,
{
    if n < 10 {
        digit_text(n)
    } else {
        let mut r = decimal_string(n / 10);
        let d = digit_text(n % 10);
        r.append(d.as_str());
        r
    }
}

/// A number written in decimal reads back as itself.
pub proof fn lemma_decimal_digits(n: nat)
    ensures
        all_digits(decimal(n)),
        decimal(n).len() > 0,
        digits_value(decimal(n)) == n,
    decreases n,
{
    if n >= 10 {
        lemma_decimal_digits(n / 10);
        assert(decimal(n).drop_last() =~= decimal(n / 10));
        assert(decimal(n).last() == digit_char(n % 10));
        assert(digit_char(n % 10) as nat == n % 10 + 48);
        assert(digits_value(decimal(n)) == digits_value(decimal(n / 10)) * 10 + n % 10);
        assert((n / 10) * 10 + n % 10 == n) by (nonlinear_arith);
    } else {
        assert(decimal(n).drop_last() =~= Seq::<char>::empty());
        assert(digits_value(Seq::<char>::empty()) == 0);
        assert(decimal(n).last() == digit_char(n));
        assert(digit_char(n) as nat == n + 48);
        assert(digits_value(decimal(n)) == digits_value(decimal(n).drop_last()) * 10 + (decimal(n).last() as nat - '0' as nat) as nat);
    }
}

/// Every port written in decimal parses back as the same port.
pub proof fn lemma_parse_decimal(p: u16)
    ensures
        parse_u16_spec(decimal(p as nat)) == Some(p),
{
    lemma_decimal_digits(p as nat);
}


/// How many ASCII digits begin `s`.
pub open spec fn digit_run_len(s: Seq<char>) -> nat
    decreases s.len(),
{
    if s.len() > 0 && is_digit(s[0]) {
        1 + digit_run_len(s.drop_first())
    } else {
        0
    }
}

/// The ASCII digits that begin `s` (`chars().take_while(is_ascii_digit)`).
pub open spec fn leading_digits(s: Seq<char>) -> Seq<char> {
    s.take(digit_run_len(s) as int)
}

/// The span of the ASCII digits that begin `cs[lo..hi]`.
pub fn leading_digits_span(cs: &Vec<char>, lo: usize, hi: usize) -> (r: (usize, usize))
    requires
        lo <= hi <= cs@.len(),
    ensures
        r.0 == lo <= r.1 <= hi,
        span_text(cs@, r) == leading_digits(cs@.subrange(lo as int, hi as int)),
{
    let ghost s = cs@.subrange(lo as int, hi as int);
    let mut k = lo;
    while k < hi && '0' <= cs[k] && cs[k] <= '9'
        invariant
            lo <= k <= hi <= cs@.len(),
            s == cs@.subrange(lo as int, hi as int),
            digit_run_len(s) == (k - lo) + digit_run_len(cs@.subrange(k as int, hi as int)),
        decreases hi - k,
    {
        assert(cs@.subrange(k as int, hi as int).drop_first() =~= cs@.subrange(k + 1, hi as int));
        k = k + 1;
    }
    assert(digit_run_len(cs@.subrange(k as int, hi as int)) == 0);
    assert(s.take(k - lo) =~= cs@.subrange(lo as int, k as int));
    (lo, k)
}

/// `s` without the copies of `c` that begin it (`str::trim_start_matches`).
pub open spec fn strip_leading(s: Seq<char>, c: char) -> Seq<char>
    decreases s.len(),
{
    if s.len() > 0 && s[0] == c {
        strip_leading(s.drop_first(), c)
    } else {
        s
    }
}

/// The span of `cs[lo..hi]` once the copies of `c` that begin it are dropped.
pub fn strip_leading_span(cs: &Vec<char>, lo: usize, hi: usize, c: char) -> (r: (usize, usize))
    requires
        lo <= hi <= cs@.len(),
    ensures
        lo <= r.0 <= r.1 == hi,
        span_text(cs@, r) == strip_leading(cs@.subrange(lo as int, hi as int), c),
{
    let mut k = lo;
    while k < hi && cs[k] == c
        invariant
            lo <= k <= hi <= cs@.len(),
            strip_leading(cs@.subrange(lo as int, hi as int), c) == strip_leading(cs@.subrange(k as int, hi as int), c),
        decreases hi - k,
    {
        assert(cs@.subrange(k as int, hi as int).drop_first() =~= cs@.subrange(k + 1, hi as int));
        k = k + 1;
    }
    (k, hi)
}

/// `c` with an ASCII capital letter made small.
pub open spec fn ascii_lower(c: char) -> char {
    if 'A' <= c <= 'Z' {
        ((c as u32) + 32) as char
    } else {
        c
    }
}

/// `c` with an ASCII small letter made capital.
pub open spec fn ascii_upper(c: char) -> char {
    if 'a' <= c <= 'z' {
        ((c as u32) - 32) as char
    } else {
        c
    }
}

/// `a` and `b` are equal up to ASCII case (`str::eq_ignore_ascii_case`).
pub open spec fn eq_ignore_ascii_case(a: Seq<char>, b: Seq<char>) -> bool {
    &&& a.len() == b.len()
    &&& forall|i: int| 0 <= i < a.len() ==> ascii_lower(#[trigger] a[i]) == ascii_lower(b[i])
}

fn to_ascii_lower(c: char) -> (r: char)
    ensures
        r == ascii_lower(c),
{
    if 'A' <= c && c <= 'Z' {
        ((c as u8) + 32) as char
    } else {
        c
    }
}

/// Whether `cs[lo..hi]` equals `pat` up to ASCII case.
pub fn eq_ignore_ascii_case_in(cs: &Vec<char>, lo: usize, hi: usize, pat: &Vec<char>) -> (r: bool)
    requires
        lo <= hi <= cs@.len(),
    ensures
        r == eq_ignore_ascii_case(cs@.subrange(lo as int, hi as int), pat@),
{
    let ghost s = cs@.subrange(lo as int, hi as int);
    if hi - lo != pat.len() {
        return false;
    }
    let mut k: usize = 0;
    while k < pat.len()
        invariant
            lo <= hi <= cs@.len(),
            hi - lo == pat@.len(),
            s == cs@.subrange(lo as int, hi as int),
            k <= pat@.len(),
            forall|j: int| 0 <= j < k ==> ascii_lower(#[trigger] s[j]) == ascii_lower(pat@[j]),
        decreases pat@.len() - k,
    {
        if to_ascii_lower(cs[lo + k]) != to_ascii_lower(pat[k]) {
            assert(s[k as int] == cs@[lo + k]);
            return false;
        }
        k = k + 1;
    }
    true
}

/// Whether `cs` and `pat` hold the same characters.
pub fn same_text(cs: &Vec<char>, pat: &Vec<char>) -> (r: bool)
    ensures
        r == (cs@ == pat@),
{
    if cs.len() != pat.len() {
        return false;
    }
    let mut k: usize = 0;
    while k < cs.len()
        invariant
            cs@.len() == pat@.len(),
            k <= cs@.len(),
            forall|j: int| 0 <= j < k ==> cs@[j] == pat@[j],
        decreases cs@.len() - k,
    {
        if cs[k] != pat[k] {
            return false;
        }
        k = k + 1;
    }
    assert(cs@ =~= pat@);
    true
}

/// `i` is where the two characters `a`, `b` first occur together in `s`.
pub open spec fn is_first_pair(s: Seq<char>, a: char, b: char, i: int) -> bool {
    &&& 0 <= i && i + 1 < s.len()
    &&& s[i] == a && s[i + 1] == b
    &&& forall|j: int| 0 <= j < i ==> !(#[trigger] s[j] == a && s[j + 1] == b)
}

/// The text before and after the first `ab` in `s` (`str::split_once` with a
/// two-character pattern).
pub open spec fn split_once_pair(s: Seq<char>, a: char, b: char) -> Option<(Seq<char>, Seq<char>)> {
    if exists|i: int| is_first_pair(s, a, b, i) {
        let i = choose|i: int| is_first_pair(s, a, b, i);
        Some((s.take(i), s.skip(i + 2)))
    } else {
        None
    }
}

/// Finds the first `ab` in `cs[lo..hi]`.
pub fn find_pair_in(cs: &Vec<char>, lo: usize, hi: usize, a: char, b: char) -> (r: Option<usize>)
    requires
        lo <= hi <= cs@.len(),
    ensures
        match r {
            Some(k) => lo <= k && k + 2 <= hi && is_first_pair(cs@.subrange(lo as int, hi as int), a, b, k - lo),
            None => !exists|i: int| is_first_pair(cs@.subrange(lo as int, hi as int), a, b, i),
        },
{
    let ghost sub = cs@.subrange(lo as int, hi as int);
    let mut k = lo;
    while k < hi && k + 1 < hi
        invariant
            lo <= k <= hi <= cs@.len(),
            sub == cs@.subrange(lo as int, hi as int),
            forall|j: int| 0 <= j < k - lo ==> !(#[trigger] sub[j] == a && sub[j + 1] == b),
        decreases hi - k,
    {
        if cs[k] == a && cs[k + 1] == b {
            return Some(k);
        }
        k = k + 1;
    }
    None
}

pub proof fn lemma_first_pair_unique(s: Seq<char>, a: char, b: char, i: int, j: int)
    requires
        is_first_pair(s, a, b, i),
        is_first_pair(s, a, b, j),
    ensures
        i == j,
{
    if i < j {
        assert(!(s[i] == a && s[i + 1] == b));
    } else if j < i {
        assert(!(s[j] == a && s[j + 1] == b));
    }
}

/// An element that `f` keeps shows up in what `filter_map` gives.
pub proof fn lemma_filter_map_keeps<A, B>(s: Seq<A>, f: spec_fn(A) -> Option<B>, i: int, y: B)
    requires
        0 <= i < s.len(),
        f(s[i]) == Some(y),
    ensures
        s.filter_map(f).contains(y),
    decreases s.len(),
{
    let rest = s.drop_last();
    if i == s.len() - 1 {
        assert(s.filter_map(f) == rest.filter_map(f) + seq![y]);
        assert(s.filter_map(f)[rest.filter_map(f).len() as int] == y);
    } else {
        lemma_filter_map_keeps(rest, f, i, y);
        let k = choose|k: int| 0 <= k < rest.filter_map(f).len() && rest.filter_map(f)[k] == y;
        match f(s.last()) {
            Some(z) => assert(s.filter_map(f)[k] == y),
            None => assert(s.filter_map(f)[k] == y),
        }
    }
}

} // verus!
