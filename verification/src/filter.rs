//! The word filter.
//!
//! A word survives iff its length lies within the requested bounds and, when
//! shifted characters are excluded, it needs none. Length is measured either
//! in characters, which the filter measures itself, or in keystrokes on a
//! target keyboard layout, which an external keyboard collaborator measures;
//! the keep decision takes the measurement and the shift test as plain
//! values, so it covers both modes.

use vstd::prelude::*;

verus! {

/// The keep rule: a word of measured length `len`, needing a shifted
/// keystroke iff `shifted`, survives a filter with bounds `[min, max]` and
/// the `exclude_shifted` switch.
pub open spec fn spec_keep(len: nat, shifted: bool, min: nat, max: nat,
    exclude_shifted: bool) -> bool {
    min <= len && len <= max && (!exclude_shifted || !shifted)
}

/// Decide whether a word survives, from its measured length and its shift
/// test. The measurement comes from the caller: the character count for
/// plain filtering, or the keyboard collaborator's keystroke count and shift
/// test for keystroke filtering.
pub fn keep_word(length: usize, requires_shift: bool, min: u8, max: u8,
    exclude_shifted: bool) -> (r: bool)
    ensures
        r == spec_keep(length as nat, requires_shift, min as nat, max as nat, exclude_shifted),
{
    min as usize <= length && length <= max as usize && (!exclude_shifted || !requires_shift)
}

/// Whether a word's length in characters lies in `[min, max]`.
pub fn limit_len(word: &str, min: u8, max: u8) -> (r: bool)
    ensures
        r == (min as nat <= word@.len() && word@.len() <= max as nat),
{
    let len = word.unicode_len();
    min as usize <= len && len <= max as usize
}

/// The words of `ws` whose character count lies in `[min, max]`, in order.
pub open spec fn spec_filter_source(ws: Seq<Seq<char>>, min: nat, max: nat) -> Seq<Seq<char>> {
    ws.filter(|w: Seq<char>| min <= w.len() && w.len() <= max)
}

/// Keep the words whose character count lies in `[min, max]`, in their
/// input order; duplicates survive.
pub fn filter_source(words: &Vec<String>, min: u8, max: u8) -> (r: Vec<String>)
    ensures
        r.deep_view() == spec_filter_source(words.deep_view(), min as nat, max as nat),
{
    let ghost full = words.deep_view();
    let ghost pred = |w: Seq<char>| min as nat <= w.len() && w.len() <= max as nat;
    let mut out: Vec<String> = Vec::new();
    let mut i: usize = 0;
    proof {
        reveal(Seq::filter);
        assert(out.deep_view() =~= Seq::<Seq<char>>::empty());
        assert(full.take(0) =~= Seq::<Seq<char>>::empty());
    }
    while i < words.len()
        invariant
            i <= words@.len(),
            words.deep_view() == full,
            out.deep_view() == full.take(i as int).filter(pred),
            pred == (|w: Seq<char>| min as nat <= w.len() && w.len() <= max as nat),
        decreases words@.len() - i,
    {
        let keep = limit_len(words[i].as_str(), min, max);
        proof {
            reveal(Seq::filter);
            assert(words.deep_view()[i as int] == words@[i as int]@);
            assert(full.take(i + 1).drop_last() =~= full.take(i as int));
            assert(full.take(i + 1).last() == full[i as int]);
        }
        if keep {
            let ghost prev = out.deep_view();
            let w = words[i].clone();
            out.push(w);
            proof {
                assert(out.deep_view() =~= prev.push(full[i as int]));
                assert(out.deep_view() =~= full.take(i + 1).filter(pred));
            }
        } else {
            proof {
                assert(out.deep_view() =~= full.take(i + 1).filter(pred));
            }
        }
        i = i + 1;
    }
    proof {
        assert(full.take(words@.len() as int) =~= full);
    }
    out
}

/// Read a corpus whose lines are themselves the words — one word per line,
/// no index column to skip — keeping the lines whose character count lies in
/// `[min, max]`.
pub fn filter_lines(contents: &str, min: u8, max: u8) -> (r: Vec<String>)
    ensures
        r.deep_view() == spec_filter_source(
            crate::text::lines_of(contents@),
            min as nat,
            max as nat,
        ),
{
    let lines = crate::text::split_lines(contents);
    filter_source(&lines, min, max)
}

} // verus!
