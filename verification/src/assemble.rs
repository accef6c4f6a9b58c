//! The list assembler.
//!
//! Takes the filtered corpus, removes duplicates, shuffles — which decides
//! fairly which words survive when there are more words than dice-roll
//! outcomes — truncates to the index space's size, sorts, and pairs each
//! word with the dice index of the same rank. The result is the word table:
//! ascending indices beside ascending words. A transliteration column, when
//! the external keyboard collaborator supplies one, is attached afterwards.

use vstd::prelude::*;
use vstd::pervasive::VecAdditionalExecFns;
use vstd::arithmetic::power::pow;
use crate::DicewareError;
use crate::dedup::uniq_words;
use crate::index::{gen_dice_number, index_chars};
use crate::order::{sort_words, sorted_lex};
use crate::rng::{new_rng, shuffle_words};
use crate::text::{extract_token, is_ws};

verus! {

/// One row of a word table: a dice index, the word it maps to, and
/// optionally the word's transliteration.
#[derive(Debug)]
pub struct TableEntry {
    pub index: String,
    pub word: String,
    pub translit: Option<String>,
}

/// The view of an optional transliteration.
pub open spec fn translit_view(t: Option<String>) -> Option<Seq<char>> {
    match t {
        Some(s) => Some(s@),
        None => None,
    }
}

/// The words of a table, in table order.
pub open spec fn word_column(t: Seq<TableEntry>) -> Seq<Seq<char>> {
    Seq::new(t.len(), |k: int| t[k].word@)
}

/// Sequences with equal multisets hold the same words: same set, same
/// length, and duplicate-freedom carries over.
proof fn lemma_multiset_eq_words(a: Seq<Seq<char>>, b: Seq<Seq<char>>)
    requires
        a.to_multiset() == b.to_multiset(),
    ensures
        a.len() == b.len(),
        a.to_set() == b.to_set(),
        a.no_duplicates() ==> b.no_duplicates(),
{
    a.to_multiset_ensures();
    b.to_multiset_ensures();
    assert forall|x: Seq<char>| a.to_set().contains(x) implies b.to_set().contains(x) by {
        assert(a.contains(x));
        assert(a.to_multiset().count(x) > 0);
        assert(b.to_multiset().count(x) > 0);
        assert(b.contains(x));
    }
    assert forall|x: Seq<char>| b.to_set().contains(x) implies a.to_set().contains(x) by {
        assert(b.contains(x));
        assert(b.to_multiset().count(x) > 0);
        assert(a.to_multiset().count(x) > 0);
        assert(a.contains(x));
    }
    assert(a.to_set() =~= b.to_set());
    if a.no_duplicates() {
        a.lemma_multiset_has_no_duplicates();
        b.lemma_multiset_has_no_duplicates_conv();
    }
}

/// A prefix of a duplicate-free sequence is duplicate-free and holds a
/// subset of its words.
proof fn lemma_take_words(a: Seq<Seq<char>>, n: int)
    requires
        0 <= n <= a.len(),
        a.no_duplicates(),
    ensures
        a.take(n).no_duplicates(),
        forall|x: Seq<char>| a.take(n).to_set().contains(x) ==> a.to_set().contains(x),
{
    assert forall|x: Seq<char>| a.take(n).to_set().contains(x) implies a.to_set().contains(
        x,
    ) by {
        let t = a.take(n);
        let k = choose|k: int| 0 <= k < t.len() && #[trigger] t[k] == x;
        assert(a[k] == x);
    }
}

/// Assemble a word table. The deduplicated words are shuffled with a fresh
/// OS-seeded generator, cut down to the index space's size, sorted, and
/// paired rank by rank with the ascending index space; no transliteration is
/// attached. The table's length is the smaller of the distinct-word count
/// and `dice^number`; its indices are exactly the ascending index space's
/// prefix of that length; its words are distinct, sorted ascending, and all
/// drawn from the input. Which words survive a truncation is up to chance.
/// Fails with `IndexSpaceOverflow` exactly when `dice^number` exceeds the
/// platform ceiling.
pub fn assemble_table(words: Vec<String>, dice: u8, number: u8) -> (r: Result<
    Vec<TableEntry>,
    DicewareError,
>)
    requires
        dice >= 2,
        number >= 1,
    ensures
        match r {
            Ok(t) => {
                let space = pow(dice as int, number as nat);
                let col = word_column(t@);
                &&& space <= usize::MAX
                &&& t@.len() == vstd::math::min(
                    words.deep_view().to_set().len() as int,
                    space,
                )
                &&& forall|k: int|
                    0 <= k < t@.len() ==> (#[trigger] t@[k].index)@ == index_chars(
                        dice as nat,
                        number as nat,
                        k as nat,
                    )
                &&& sorted_lex(col)
                &&& col.no_duplicates()
                &&& forall|k: int|
                    0 <= k < t@.len() ==> words.deep_view().to_set().contains(
                        (#[trigger] t@[k].word)@,
                    )
                &&& forall|k: int| 0 <= k < t@.len() ==> (#[trigger] t@[k].translit) is None
            },
            Err(e) => e == DicewareError::IndexSpaceOverflow && pow(dice as int, number as nat)
                > usize::MAX,
        },
{
    let ghost input_set = words.deep_view().to_set();
    let indices = match gen_dice_number(dice, number) {
        Ok(v) => v,
        Err(e) => {
            return Err(e);
        },
    };
    let mut ws = uniq_words(words);
    proof {
        ws.deep_view().unique_seq_to_set();
    }
    let ghost unique = ws.deep_view();
    let mut rng = new_rng();
    shuffle_words(&mut rng, &mut ws);
    proof {
        lemma_multiset_eq_words(unique, ws.deep_view());
    }
    let ghost shuffled = ws.deep_view();
    let space = indices.len();
    ws.truncate(space);
    let ghost cut = if space as int <= shuffled.len() { space as int } else {
        shuffled.len() as int
    };
    proof {
        assert(ws.deep_view() =~= shuffled.take(cut));
        lemma_take_words(shuffled, cut);
        assert(shuffled.take(cut).len() == vstd::math::min(unique.len() as int, space as int));
    }
    let ghost truncated = ws.deep_view();
    sort_words(&mut ws);
    proof {
        lemma_multiset_eq_words(truncated, ws.deep_view());
        assert forall|x: Seq<char>| ws.deep_view().to_set().contains(x) implies
            input_set.contains(x) by {
            assert(truncated.to_set().contains(x));
            assert(shuffled.to_set().contains(x));
            assert(unique.to_set().contains(x));
        }
    }
    let mut t: Vec<TableEntry> = Vec::new();
    let mut k: usize = 0;
    proof {
        assert(word_column(t@) =~= Seq::<Seq<char>>::empty());
    }
    while k < ws.len()
        invariant
            k <= ws@.len(),
            ws@.len() <= indices@.len(),
            sorted_lex(ws.deep_view()),
            ws.deep_view().no_duplicates(),
            forall|x: Seq<char>| ws.deep_view().to_set().contains(x) ==> input_set.contains(x),
            forall|j: int|
                0 <= j < indices@.len() ==> indices.deep_view()[j] == index_chars(
                    dice as nat,
                    number as nat,
                    j as nat,
                ),
            t@.len() == k,
            forall|j: int|
                0 <= j < k ==> (#[trigger] t@[j].index)@ == index_chars(
                    dice as nat,
                    number as nat,
                    j as nat,
                ),
            forall|j: int| 0 <= j < k ==> (#[trigger] t@[j].word)@ == ws.deep_view()[j],
            forall|j: int| 0 <= j < k ==> (#[trigger] t@[j].translit) is None,
        decreases ws@.len() - k,
    {
        let e = TableEntry {
            index: indices[k].clone(),
            word: ws[k].clone(),
            translit: None,
        };
        proof {
            assert(indices.deep_view()[k as int] == indices@[k as int]@);
            assert(ws.deep_view()[k as int] == ws@[k as int]@);
        }
        t.push(e);
        k = k + 1;
    }
    proof {
        let col = word_column(t@);
        assert(col =~= ws.deep_view());
        assert forall|j: int| 0 <= j < t@.len() implies input_set.contains(
            (#[trigger] t@[j].word)@,
        ) by {
            assert(ws.deep_view().contains(ws.deep_view()[j]));
            assert(ws.deep_view().to_set().contains(t@[j].word@));
        }
    }
    Ok(t)
}

/// Attach a transliteration to each entry of a table. The transliterations
/// come from the external keyboard collaborator, one per word, in table
/// order; everything else in the table stays as it was.
pub fn attach_transliterations(t: &mut Vec<TableEntry>, translits: Vec<String>)
    requires
        old(t)@.len() == translits@.len(),
    ensures
        final(t)@.len() == old(t)@.len(),
        forall|k: int|
            0 <= k < final(t)@.len() ==> (#[trigger] final(t)@[k].index)@ == old(t)@[k].index@
                && final(t)@[k].word@ == old(t)@[k].word@ && translit_view(final(t)@[k].translit)
                == Some(translits.deep_view()[k]),
{
    let ghost orig = t@;
    let mut k: usize = 0;
    while k < translits.len()
        invariant
            k <= translits@.len(),
            t@.len() == orig.len() == translits@.len(),
            forall|j: int|
                k <= j < t@.len() ==> #[trigger] t@[j] == orig[j],
            forall|j: int|
                0 <= j < k ==> (#[trigger] t@[j].index)@ == orig[j].index@ && t@[j].word@
                    == orig[j].word@ && translit_view(t@[j].translit) == Some(
                    translits.deep_view()[j],
                ),
        decreases translits@.len() - k,
    {
        let w = translits[k].clone();
        let idx = t[k].index.clone();
        let word = t[k].word.clone();
        proof {
            assert(t@[k as int] == orig[k as int]);
        }
        let e = TableEntry { index: idx, word, translit: Some(w) };
        let ghost pre = t@;
        t.set(k, e);
        proof {
            assert(t@ == pre.update(k as int, e));
            assert(t@[k as int] == e);
            assert(e.index@ == orig[k as int].index@);
            assert(e.word@ == orig[k as int].word@);
            assert(translits.deep_view()[k as int] == translits@[k as int]@);
            assert(translit_view(e.translit) == Some(translits.deep_view()[k as int]));
        }
        k = k + 1;
    }
}

/// The serialized form of one table row: the fields, separated by single
/// spaces — the dice index, then the transliteration if one is attached,
/// then the word.
pub open spec fn entry_line(index: Seq<char>, translit: Option<Seq<char>>, word: Seq<char>)
    -> Seq<char> {
    match translit {
        Some(tr) => index + seq![' '] + tr + seq![' '] + word,
        None => index + seq![' '] + word,
    }
}

/// Serialize one table row.
pub fn render_entry(e: &TableEntry) -> (r: String)
    ensures
        r@ == entry_line(e.index@, translit_view(e.translit), e.word@),
{
    proof {
        reveal_strlit(" ");
    }
    let mut s = e.index.clone();
    s.append(" ");
    match &e.translit {
        Some(tr) => {
            s.append(tr.as_str());
            s.append(" ");
        },
        None => {},
    }
    s.append(e.word.as_str());
    s
}

/// Serialize a table, one line per row, in table order.
pub fn render_table(t: &Vec<TableEntry>) -> (r: Vec<String>)
    ensures
        r@.len() == t@.len(),
        forall|k: int|
            0 <= k < t@.len() ==> r.deep_view()[k] == entry_line(
                (#[trigger] t@[k].index)@,
                translit_view(t@[k].translit),
                t@[k].word@,
            ),
{
    let mut out: Vec<String> = Vec::new();
    let mut k: usize = 0;
    while k < t.len()
        invariant
            k <= t@.len(),
            out@.len() == k,
            forall|j: int|
                0 <= j < k ==> out.deep_view()[j] == entry_line(
                    (#[trigger] t@[j].index)@,
                    translit_view(t@[j].translit),
                    t@[j].word@,
                ),
        decreases t@.len() - k,
    {
        let line = render_entry(&t[k]);
        let ghost prev = out.deep_view();
        out.push(line);
        proof {
            assert(out.deep_view() =~= prev.push(line@));
        }
        k = k + 1;
    }
    out
}

/// Round trip for one row: a serialized entry without a transliteration,
/// whose index and word are non-empty and free of whitespace, re-parses
/// under the token-extraction rule to exactly its word — the index column is
/// skipped. (With a transliteration attached, the rule returns the
/// transliteration, which stands second on the line; the law is therefore
/// stated for tables without one.)
pub proof fn lemma_entry_round_trip(index: Seq<char>, word: Seq<char>)
    requires
        index.len() > 0,
        word.len() > 0,
        forall|i: int| 0 <= i < index.len() ==> !is_ws(index[i]),
        forall|i: int| 0 <= i < word.len() ==> !is_ws(word[i]),
    ensures
        extract_token(entry_line(index, None, word)) == word,
{
    crate::text::lemma_extract_skips_index(index, word);
}

/// Round trip for a whole table without transliterations: re-extracting one
/// token per serialized line recovers exactly the word column, and with it
/// the table's word set.
pub proof fn lemma_table_round_trip(t: Seq<TableEntry>)
    requires
        forall|k: int| 0 <= k < t.len() ==> (#[trigger] t[k].index)@.len() > 0,
        forall|k: int| 0 <= k < t.len() ==> (#[trigger] t[k].word)@.len() > 0,
        forall|k: int, i: int|
            0 <= k < t.len() && 0 <= i < t[k].index@.len() ==> !is_ws(#[trigger] t[k].index@[i]),
        forall|k: int, i: int|
            0 <= k < t.len() && 0 <= i < t[k].word@.len() ==> !is_ws(#[trigger] t[k].word@[i]),
        forall|k: int| 0 <= k < t.len() ==> (#[trigger] t[k].translit) is None,
    ensures
        Seq::new(t.len(), |k: int| extract_token(entry_line(t[k].index@, translit_view(
            t[k].translit,
        ), t[k].word@))) =~= word_column(t),
{
    assert forall|k: int| 0 <= k < t.len() implies extract_token(entry_line(t[k].index@,
        translit_view(t[k].translit), t[k].word@)) == t[k].word@ by {
        lemma_entry_round_trip(t[k].index@, t[k].word@);
    }
}

/// The lines of a serialized table, in table order.
pub open spec fn table_lines(t: Seq<TableEntry>) -> Seq<Seq<char>> {
    Seq::new(t.len(), |k: int| entry_line(t[k].index@, translit_view(t[k].translit), t[k].word@))
}

/// The full round trip: write a table without transliterations out line by
/// line, read the text back as a word list — split it into lines and extract
/// one token per line — and exactly the table's word column comes back.
pub proof fn lemma_serialized_table_round_trip(t: Seq<TableEntry>)
    requires
        forall|k: int| 0 <= k < t.len() ==> (#[trigger] t[k].index)@.len() > 0,
        forall|k: int| 0 <= k < t.len() ==> (#[trigger] t[k].word)@.len() > 0,
        forall|k: int, i: int|
            0 <= k < t.len() && 0 <= i < t[k].index@.len() ==> !is_ws(#[trigger] t[k].index@[i]),
        forall|k: int, i: int|
            0 <= k < t.len() && 0 <= i < t[k].word@.len() ==> !is_ws(#[trigger] t[k].word@[i]),
        forall|k: int| 0 <= k < t.len() ==> (#[trigger] t[k].translit) is None,
    ensures
        crate::text::lines_of(crate::text::join_lines(table_lines(t))).map_values(
            |l: Seq<char>| extract_token(l),
        ) =~= word_column(t),
{
    let lines = table_lines(t);
    assert forall|k: int, i: int|
        0 <= k < lines.len() && 0 <= i < lines[k].len() implies #[trigger] lines[k][i]
        != '\n' by {
        let idx = t[k].index@;
        let w = t[k].word@;
        assert(lines[k] == idx + seq![' '] + w);
        if i < idx.len() {
            assert(lines[k][i] == idx[i]);
            assert(!is_ws(idx[i]));
        } else if i == idx.len() {
            assert(lines[k][i] == ' ');
        } else {
            assert(lines[k][i] == w[i - idx.len() - 1]);
            assert(!is_ws(w[i - idx.len() - 1]));
        }
    }
    assert forall|k: int|
        0 <= k < lines.len() && #[trigger] lines[k].len() > 0 implies lines[k][lines[k].len()
        - 1] != '\r' by {
        let idx = t[k].index@;
        let w = t[k].word@;
        assert(lines[k] == idx + seq![' '] + w);
        assert(lines[k][lines[k].len() - 1] == w[w.len() - 1]);
        assert(!is_ws(w[w.len() - 1]));
    }
    crate::text::lemma_lines_of_join(lines);
    lemma_table_round_trip(t);
    assert(lines.map_values(|l: Seq<char>| extract_token(l)) =~= word_column(t));
}

} // verus!
