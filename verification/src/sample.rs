//! The passphrase sampler.
//!
//! Draws `count` words independently and uniformly at random, with
//! replacement, from a word list, and joins them with a delimiter. An empty
//! word list is rejected before any draw is attempted.

use vstd::prelude::*;
use crate::rng::{draw_index, new_rng};
use crate::DicewareError;

verus! {

/// Every pick indexes into a list of length `len`.
pub open spec fn picks_in_range(picks: Seq<int>, len: int) -> bool {
    forall|i: int| 0 <= i < picks.len() ==> 0 <= #[trigger] picks[i] < len
}

/// The words of `ws` at positions `picks`, joined by `delim`: the passphrase
/// those draws produce. Zero picks give the empty sequence.
pub open spec fn join_picks(ws: Seq<Seq<char>>, picks: Seq<int>, delim: Seq<char>) -> Seq<char>
    decreases picks.len(),
{
    if picks.len() == 0 {
        Seq::empty()
    } else if picks.len() == 1 {
        ws[picks[0]]
    } else {
        join_picks(ws, picks.drop_last(), delim) + delim + ws[picks.last()]
    }
}

/// The segments of `s` between occurrences of the character `d`, empty
/// segments kept: `k` segments carry `k - 1` separators.
pub open spec fn split_on(s: Seq<char>, d: char) -> Seq<Seq<char>>
    decreases s.len(),
{
    if s.len() == 0 {
        seq![s]
    } else if s[0] == d {
        seq![Seq::<char>::empty()] + split_on(s.drop_first(), d)
    } else {
        let rest = split_on(s.drop_first(), d);
        seq![seq![s[0]] + rest[0]] + rest.drop_first()
    }
}

/// Splitting never yields an empty list of segments.
proof fn lemma_split_len(s: Seq<char>, d: char)
    ensures
        split_on(s, d).len() >= 1,
    decreases s.len(),
{
    if s.len() > 0 {
        lemma_split_len(s.drop_first(), d);
    }
}

/// A text free of the separator is one whole segment.
proof fn lemma_split_no_delim(w: Seq<char>, d: char)
    requires
        forall|i: int| 0 <= i < w.len() ==> w[i] != d,
    ensures
        split_on(w, d) == seq![w],
    decreases w.len(),
{
    if w.len() > 0 {
        lemma_split_no_delim(w.drop_first(), d);
        lemma_split_len(w.drop_first(), d);
        assert(seq![w[0]] + w.drop_first() =~= w);
        assert(split_on(w, d) =~= seq![w]);
    }
}

/// Splitting cuts at the first separator.
proof fn lemma_split_at_first(w: Seq<char>, rest: Seq<char>, d: char)
    requires
        forall|i: int| 0 <= i < w.len() ==> w[i] != d,
    ensures
        split_on(w + seq![d] + rest, d) == seq![w] + split_on(rest, d),
    decreases w.len(),
{
    let s = w + seq![d] + rest;
    if w.len() == 0 {
        assert(s[0] == d);
        assert(s.drop_first() =~= rest);
        assert(w =~= Seq::<char>::empty());
        assert(split_on(s, d) =~= seq![w] + split_on(rest, d));
    } else {
        assert(s[0] == w[0]);
        assert(s.drop_first() =~= w.drop_first() + seq![d] + rest);
        lemma_split_at_first(w.drop_first(), rest, d);
        lemma_split_len(rest, d);
        let r = split_on(s.drop_first(), d);
        assert(r[0] == w.drop_first());
        assert(seq![s[0]] + r[0] =~= w);
        assert(r.drop_first() =~= split_on(rest, d));
        assert(split_on(s, d) =~= seq![w] + split_on(rest, d));
    }
}

/// Unfolds a join of two or more picks at its first word.
proof fn lemma_join_front(ws: Seq<Seq<char>>, picks: Seq<int>, delim: Seq<char>)
    requires
        picks.len() >= 2,
    ensures
        join_picks(ws, picks, delim) == ws[picks[0]] + delim + join_picks(
            ws,
            picks.drop_first(),
            delim,
        ),
    decreases picks.len(),
{
    if picks.len() == 2 {
        reveal_with_fuel(join_picks, 2);
        assert(picks.drop_last().len() == 1);
        assert(picks.drop_last()[0] == picks[0]);
        assert(picks.drop_first().len() == 1);
        assert(picks.drop_first()[0] == picks[1]);
        assert(picks.last() == picks[1]);
    } else {
        let q = picks.drop_last();
        lemma_join_front(ws, q, delim);
        assert(picks.drop_first().drop_last() =~= q.drop_first());
        assert(picks.drop_first().last() == picks.last());
        assert(q[0] == picks[0]);
        assert(picks.drop_first().len() >= 2);
        assert(join_picks(ws, picks, delim) =~= ws[picks[0]] + delim + join_picks(
            ws,
            picks.drop_first(),
            delim,
        ));
    }
}

/// The passphrase has exactly as many delimiter-separated tokens as words
/// were drawn, and they are the drawn words themselves: splitting the join
/// of one or more picks on a delimiter character that no drawn word
/// contains recovers exactly the picked words, in draw order.
pub proof fn lemma_passphrase_tokens(ws: Seq<Seq<char>>, picks: Seq<int>, d: char)
    requires
        picks.len() >= 1,
        picks_in_range(picks, ws.len() as int),
        forall|k: int| 0 <= k < picks.len() ==> !(#[trigger] ws[picks[k]]).contains(d),
    ensures
        split_on(join_picks(ws, picks, seq![d]), d) == Seq::new(
            picks.len(),
            |k: int| ws[picks[k]],
        ),
    decreases picks.len(),
{
    let s = join_picks(ws, picks, seq![d]);
    let w0 = ws[picks[0]];
    assert(!ws[picks[0]].contains(d));
    assert forall|i: int| 0 <= i < w0.len() implies w0[i] != d by {
        if w0[i] == d {
            assert(w0.contains(d));
        }
    }
    if picks.len() == 1 {
        assert(s == w0);
        lemma_split_no_delim(w0, d);
        assert(split_on(s, d) =~= Seq::new(picks.len(), |k: int| ws[picks[k]]));
    } else {
        lemma_join_front(ws, picks, seq![d]);
        let rest = join_picks(ws, picks.drop_first(), seq![d]);
        assert(s == w0 + seq![d] + rest);
        lemma_split_at_first(w0, rest, d);
        assert(forall|k: int|
            0 <= k < picks.drop_first().len() ==> picks.drop_first()[k] == picks[k + 1]);
        lemma_passphrase_tokens(ws, picks.drop_first(), d);
        assert(split_on(s, d) =~= Seq::new(picks.len(), |k: int| ws[picks[k]]));
    }
}

/// Build one passphrase: draw `count` indices uniformly at random, with
/// replacement, from a fresh OS-seeded generator, and join the words at
/// those indices with `delimiter`. Zero words give the empty string. Which
/// words appear is up to chance; that the result is the join of `count`
/// in-range draws is not.
pub fn select_words(words: &[String], count: u8, delimiter: &str) -> (r: String)
    requires
        words@.len() > 0,
    ensures
        count == 0 ==> r@ == Seq::<char>::empty(),
        exists|picks: Seq<int>|
            picks.len() == count as int && picks_in_range(picks, words@.len() as int) && r@
                == join_picks(words.deep_view(), picks, delimiter@),
{
    let ghost dv = words.deep_view();
    let mut rng = new_rng();
    let mut s = String::new();
    let ghost mut picks: Seq<int> = Seq::empty();
    let mut i: u8 = 0;
    while i < count
        invariant
            i <= count,
            words@.len() > 0,
            dv == words.deep_view(),
            picks.len() == i as int,
            picks_in_range(picks, words@.len() as int),
            s@ == join_picks(dv, picks, delimiter@),
            i == 0 ==> s@ == Seq::<char>::empty(),
        decreases count - i,
    {
        let idx = draw_index(&mut rng, words.len());
        if i > 0 {
            s.append(delimiter);
        }
        s.append(words[idx].as_str());
        proof {
            assert(dv[idx as int] == words@[idx as int]@);
            let next = picks.push(idx as int);
            assert(next.drop_last() =~= picks);
            assert(next.last() == idx as int);
            if picks.len() == 0 {
                assert(join_picks(dv, next, delimiter@) == dv[idx as int]);
                assert(s@ =~= dv[idx as int]);
            } else {
                assert(join_picks(dv, next, delimiter@) == join_picks(dv, picks, delimiter@)
                    + delimiter@ + dv[idx as int]);
            }
            picks = next;
        }
        i = i + 1;
    }
    s
}

/// `select_words` behind the empty-list check: an empty word list is
/// reported as `EmptyWordList` before any random draw; any other list gives
/// a passphrase of `count` uniform draws.
pub fn try_select_words(words: &[String], count: u8, delimiter: &str) -> (r: Result<
    String,
    DicewareError,
>)
    ensures
        match r {
            Ok(s) => words@.len() > 0 && (count == 0 ==> s@ == Seq::<char>::empty()) && exists|
                picks: Seq<int>,
            |
                picks.len() == count as int && picks_in_range(picks, words@.len() as int) && s@
                    == join_picks(words.deep_view(), picks, delimiter@),
            Err(e) => e == DicewareError::EmptyWordList && words@.len() == 0,
        },
{
    if words.len() == 0 {
        Err(DicewareError::EmptyWordList)
    } else {
        Ok(select_words(words, count, delimiter))
    }
}

} // verus!
