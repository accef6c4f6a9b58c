//! Splitting raw text into lines and extracting one word per line.
//!
//! A line carries either a bare word or an `index word` pair (a serialized
//! word-table entry). The extraction rule is: split the line on whitespace;
//! if two or more tokens exist take the second, if exactly one exists take
//! it, and a blank line yields the empty string.

use vstd::prelude::*;

verus! {

/// The characters the library treats as whitespace when splitting a line
/// into tokens.
pub open spec fn is_ws(c: char) -> bool {
    c == ' ' || c == '\t' || c == '\n' || c == '\r' || c == '\u{b}' || c == '\u{c}'
}

/// Whether `c` is a whitespace character in the sense of `is_ws`.
pub fn is_ws_char(c: char) -> (r: bool)
    ensures
        r == is_ws(c),
{
    c == ' ' || c == '\t' || c == '\n' || c == '\r' || c == '\u{b}' || c == '\u{c}'
}

/// The least index in `[i, s.len()]` at which a character satisfying `p`
/// stands, or `s.len()` if none does.
pub open spec fn scan(s: Seq<char>, i: int, p: spec_fn(char) -> bool) -> int
    decreases s.len() - i when 0 <= i <= s.len()
{
    if i >= s.len() {
        i
    } else if p(s[i]) {
        i
    } else {
        scan(s, i + 1, p)
    }
}

pub proof fn lemma_scan_props(s: Seq<char>, i: int, p: spec_fn(char) -> bool)
    requires
        0 <= i <= s.len(),
    ensures
        i <= scan(s, i, p) <= s.len(),
        forall|k: int| i <= k < scan(s, i, p) ==> !p(s[k]),
        scan(s, i, p) < s.len() ==> p(s[scan(s, i, p)]),
    decreases s.len() - i,
{
    if i < s.len() && !p(s[i]) {
        lemma_scan_props(s, i + 1, p);
    }
}

/// If every character in `[i, j)` fails `p` and `j` is the end of the
/// sequence or carries a character satisfying `p`, the scan stops at `j`.
pub proof fn lemma_scan_found(s: Seq<char>, i: int, j: int, p: spec_fn(char) -> bool)
    requires
        0 <= i <= j <= s.len(),
        forall|k: int| i <= k < j ==> !p(s[k]),
        j == s.len() || p(s[j]),
    ensures
        scan(s, i, p) == j,
    decreases j - i,
{
    if i < j {
        lemma_scan_found(s, i + 1, j, p);
    }
}

/// Start of the first whitespace-delimited token of `s` (or `s.len()`).
pub open spec fn token1_start(s: Seq<char>) -> int {
    scan(s, 0, |c: char| !is_ws(c))
}

/// End of the first token of `s`.
pub open spec fn token1_end(s: Seq<char>) -> int {
    scan(s, token1_start(s), |c: char| is_ws(c))
}

/// Start of the second token of `s` (or `s.len()` if there is none).
pub open spec fn token2_start(s: Seq<char>) -> int {
    scan(s, token1_end(s), |c: char| !is_ws(c))
}

/// End of the second token of `s`.
pub open spec fn token2_end(s: Seq<char>) -> int {
    scan(s, token2_start(s), |c: char| is_ws(c))
}

/// The token a line contributes to a word list: the second
/// whitespace-delimited token if the line has two or more, else the first,
/// else the empty sequence.
pub open spec fn extract_token(s: Seq<char>) -> Seq<char> {
    if token2_start(s) < s.len() {
        s.subrange(token2_start(s), token2_end(s))
    } else {
        s.subrange(token1_start(s), token1_end(s))
    }
}

/// All four token boundaries are ordered and in range.
pub proof fn lemma_token_bounds(s: Seq<char>)
    ensures
        0 <= token1_start(s) <= token1_end(s) <= token2_start(s) <= token2_end(s) <= s.len(),
{
    lemma_scan_props(s, 0, |c: char| !is_ws(c));
    lemma_scan_props(s, token1_start(s), |c: char| is_ws(c));
    lemma_scan_props(s, token1_end(s), |c: char| !is_ws(c));
    lemma_scan_props(s, token2_start(s), |c: char| is_ws(c));
}

/// An extracted token never contains whitespace: it is cut between two scan
/// boundaries that whitespace would have stopped.
pub proof fn lemma_extract_token_no_ws(s: Seq<char>)
    ensures
        forall|i: int| 0 <= i < extract_token(s).len() ==> !is_ws(#[trigger] extract_token(s)[i]),
{
    lemma_token_bounds(s);
    lemma_scan_props(s, token1_start(s), |c: char| is_ws(c));
    lemma_scan_props(s, token2_start(s), |c: char| is_ws(c));
    let t = extract_token(s);
    assert forall|i: int| 0 <= i < t.len() implies !is_ws(#[trigger] t[i]) by {
        if token2_start(s) < s.len() {
            assert(t[i] == s[token2_start(s) + i]);
        } else {
            assert(t[i] == s[token1_start(s) + i]);
        }
    }
}

/// Find, executably, the least index in `[i, n)` whose character's
/// whitespace status equals `want_ws`, or `n` if none.
fn scan_str(line: &str, i: usize, want_ws: bool) -> (r: usize)
    requires
        i <= line@.len(),
    ensures
        want_ws ==> r == scan(line@, i as int, |c: char| is_ws(c)),
        !want_ws ==> r == scan(line@, i as int, |c: char| !is_ws(c)),
        i <= r <= line@.len(),
{
    let ghost p = if want_ws { |c: char| is_ws(c) } else { |c: char| !is_ws(c) };
    let n = line.unicode_len();
    let mut j = i;
    while j < n
        invariant
            i <= j <= n,
            n == line@.len(),
            forall|k: int| i <= k < j ==> !p(line@[k]),
            p == (if want_ws { |c: char| is_ws(c) } else { |c: char| !is_ws(c) }),
        decreases n - j,
    {
        let c = line.get_char(j);
        let ws = is_ws_char(c);
        if ws == want_ws {
            proof {
                lemma_scan_found(line@, i as int, j as int, p);
            }
            return j;
        }
        j = j + 1;
    }
    proof {
        lemma_scan_found(line@, i as int, n as int, p);
    }
    n
}

/// Extract the word a line contributes: the second whitespace-delimited
/// token if the line has two or more, else the first, else the empty string.
pub fn extract_token_str(line: &str) -> (r: String)
    ensures
        r@ == extract_token(line@),
{
    let t1s = scan_str(line, 0, false);
    let t1e = scan_str(line, t1s, true);
    let t2s = scan_str(line, t1e, false);
    let n = line.unicode_len();
    if t2s < n {
        let t2e = scan_str(line, t2s, true);
        line.substring_char(t2s, t2e).to_owned()
    } else {
        line.substring_char(t1s, t1e).to_owned()
    }
}

/// On a line of the form `index SPACE word`, where the index and the word are
/// non-empty and free of whitespace, the extraction rule recovers the word:
/// the index column is skipped. This is what makes a serialized word table
/// re-readable as a plain word list.
pub proof fn lemma_extract_skips_index(idx: Seq<char>, word: Seq<char>)
    requires
        idx.len() > 0,
        word.len() > 0,
        forall|k: int| 0 <= k < idx.len() ==> !is_ws(idx[k]),
        forall|k: int| 0 <= k < word.len() ==> !is_ws(word[k]),
    ensures
        extract_token(idx + seq![' '] + word) == word,
{
    let s = idx + seq![' '] + word;
    let m = idx.len() as int;
    let n = s.len() as int;
    assert(s[m] == ' ');
    assert(forall|k: int| 0 <= k < m ==> s[k] == idx[k] && !is_ws(s[k]));
    assert(forall|k: int| m < k < n ==> s[k] == word[k - m - 1] && !is_ws(s[k]));
    lemma_scan_found(s, 0, 0, |c: char| !is_ws(c));
    lemma_scan_found(s, 0, m, |c: char| is_ws(c));
    lemma_scan_found(s, m, m + 1, |c: char| !is_ws(c));
    lemma_scan_found(s, m + 1, n, |c: char| is_ws(c));
    assert(token2_start(s) == m + 1 < n);
    assert(extract_token(s) == s.subrange(m + 1, n));
    assert(s.subrange(m + 1, n) =~= word);
}

/// A sequence stripped of one trailing carriage return, if it has one.
pub open spec fn strip_cr(s: Seq<char>) -> Seq<char> {
    if s.len() > 0 && s[s.len() - 1] == '\r' {
        s.drop_last()
    } else {
        s
    }
}

/// The lines of a text: segments split at `'\n'`, each segment before a
/// newline stripped of one trailing `'\r'`. A trailing newline closes the
/// last line rather than opening an empty one.
pub open spec fn lines_of(s: Seq<char>) -> Seq<Seq<char>>
    decreases s.len()
    via lines_of_decreases
{
    if s.len() == 0 {
        Seq::empty()
    } else {
        let j = scan(s, 0, |c: char| c == '\n');
        if j >= s.len() {
            seq![s]
        } else {
            seq![strip_cr(s.subrange(0, j))] + lines_of(s.subrange(j + 1, s.len() as int))
        }
    }
}

#[via_fn]
proof fn lines_of_decreases(s: Seq<char>) {
    if s.len() > 0 {
        lemma_scan_props(s, 0, |c: char| c == '\n');
    }
}

/// Unfolds `lines_of` at the first newline of `s`.
proof fn lemma_lines_step(s: Seq<char>, j: int)
    requires
        0 <= j < s.len(),
        s[j] == '\n',
        forall|k: int| 0 <= k < j ==> s[k] != '\n',
    ensures
        lines_of(s) == seq![strip_cr(s.subrange(0, j))] + lines_of(
            s.subrange(j + 1, s.len() as int),
        ),
{
    let p = |c: char| c == '\n';
    assert(forall|k: int| 0 <= k < j ==> !p(s[k]));
    lemma_scan_found(s, 0, j, p);
}

/// `lines_of` of a newline-free text: one line, or none if it is empty.
proof fn lemma_lines_last(s: Seq<char>)
    requires
        forall|k: int| 0 <= k < s.len() ==> s[k] != '\n',
    ensures
        s.len() == 0 ==> lines_of(s) == Seq::<Seq<char>>::empty(),
        s.len() > 0 ==> lines_of(s) == seq![s],
{
    let p = |c: char| c == '\n';
    if s.len() > 0 {
        assert(forall|k: int| 0 <= k < s.len() ==> !p(s[k]));
        lemma_scan_found(s, 0, s.len() as int, p);
    }
}

/// Split a text into its lines, as `lines_of` describes them.
pub fn split_lines(contents: &str) -> (r: Vec<String>)
    ensures
        r.deep_view() == lines_of(contents@),
{
    let n = contents.unicode_len();
    let mut out: Vec<String> = Vec::new();
    let mut start: usize = 0;
    let mut i: usize = 0;
    proof {
        assert(contents@.subrange(0, n as int) =~= contents@);
        assert(out.deep_view() =~= Seq::<Seq<char>>::empty());
    }
    while i < n
        invariant
            start <= i <= n,
            n == contents@.len(),
            forall|k: int| start <= k < i ==> contents@[k] != '\n',
            lines_of(contents@) == out.deep_view() + lines_of(
                contents@.subrange(start as int, n as int),
            ),
        decreases n - i,
    {
        let c = contents.get_char(i);
        if c == '\n' {
            let ghost suffix = contents@.subrange(start as int, n as int);
            let mut seg_end = i;
            if seg_end > start && contents.get_char(seg_end - 1) == '\r' {
                seg_end = seg_end - 1;
            }
            let line = contents.substring_char(start, seg_end).to_owned();
            proof {
                lemma_lines_step(suffix, i - start);
                assert(suffix.subrange(0, i - start) =~= contents@.subrange(
                    start as int,
                    i as int,
                ));
                assert(strip_cr(contents@.subrange(start as int, i as int)) =~= line@);
                assert(suffix.subrange(i - start + 1, suffix.len() as int) =~= contents@.subrange(
                    i + 1,
                    n as int,
                ));
            }
            out.push(line);
            proof {
                assert(lines_of(contents@) =~= out.deep_view() + lines_of(
                    contents@.subrange(i + 1, n as int),
                ));
            }
            start = i + 1;
        }
        i = i + 1;
    }
    let ghost suffix = contents@.subrange(start as int, n as int);
    proof {
        lemma_lines_last(suffix);
    }
    if start < n {
        let line = contents.substring_char(start, n).to_owned();
        out.push(line);
    }
    proof {
        assert(lines_of(contents@) =~= out.deep_view());
    }
    out
}

/// A text written line by line: each line followed by one newline.
pub open spec fn join_lines(lines: Seq<Seq<char>>) -> Seq<char>
    decreases lines.len(),
{
    if lines.len() == 0 {
        Seq::empty()
    } else {
        lines[0] + seq!['\n'] + join_lines(lines.drop_first())
    }
}

/// Writing lines out and splitting the text again gives the lines back,
/// provided no line contains a newline or ends with a carriage return.
pub proof fn lemma_lines_of_join(lines: Seq<Seq<char>>)
    requires
        forall|k: int, i: int|
            0 <= k < lines.len() && 0 <= i < lines[k].len() ==> #[trigger] lines[k][i] != '\n',
        forall|k: int|
            0 <= k < lines.len() && #[trigger] lines[k].len() > 0 ==> lines[k][lines[k].len() - 1]
                != '\r',
    ensures
        lines_of(join_lines(lines)) == lines,
    decreases lines.len(),
{
    if lines.len() == 0 {
        assert(lines_of(join_lines(lines)) =~= lines);
    } else {
        let l0 = lines[0];
        let rest = lines.drop_first();
        let s = join_lines(lines);
        let m = l0.len() as int;
        assert(s[m] == '\n');
        assert(forall|i: int| 0 <= i < m ==> s[i] == l0[i]);
        lemma_lines_step(s, m);
        assert(s.subrange(0, m) =~= l0);
        assert(strip_cr(l0) == l0);
        assert(s.subrange(m + 1, s.len() as int) =~= join_lines(rest));
        assert(forall|k: int, i: int|
            0 <= k < rest.len() && 0 <= i < rest[k].len() ==> #[trigger] rest[k][i] != '\n');
        assert(forall|k: int|
            0 <= k < rest.len() && #[trigger] rest[k].len() > 0 ==> rest[k][rest[k].len() - 1]
                != '\r');
        lemma_lines_of_join(rest);
        assert(lines_of(s) =~= lines);
    }
}

/// The word list a sequence of raw lines yields: the extracted token of each
/// line, in line order. Duplicates and empty tokens are possible here; the
/// filter and the deduplicator deal with them.
pub fn make_wordlist(lines: &Vec<String>) -> (r: Vec<String>)
    ensures
        r.deep_view() == lines.deep_view().map_values(|l: Seq<char>| extract_token(l)),
{
    let mut out: Vec<String> = Vec::new();
    let mut i: usize = 0;
    while i < lines.len()
        invariant
            i <= lines.len(),
            out.deep_view() == lines.deep_view().take(i as int).map_values(
                |l: Seq<char>| extract_token(l),
            ),
        decreases lines.len() - i,
    {
        let w = extract_token_str(lines[i].as_str());
        out.push(w);
        proof {
            assert(lines.deep_view().take(i + 1).map_values(|l: Seq<char>| extract_token(l))
                =~= lines.deep_view().take(i as int).map_values(|l: Seq<char>| extract_token(l))
                + seq![extract_token(lines.deep_view()[i as int])]);
        }
        i = i + 1;
    }
    proof {
        assert(lines.deep_view().take(lines.len() as int) =~= lines.deep_view());
    }
    out
}

/// Read a word list out of a whole text: split it into lines and extract one
/// token per line.
pub fn read_string(contents: &str) -> (r: Vec<String>)
    ensures
        r.deep_view() == lines_of(contents@).map_values(|l: Seq<char>| extract_token(l)),
{
    let lines = split_lines(contents);
    make_wordlist(&lines)
}

} // verus!
