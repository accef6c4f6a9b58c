//! The deduplicator.
//!
//! Removes duplicate words from a list. The output keeps each distinct word
//! exactly once — here the first occurrence, though callers may not rely on
//! any particular order: the list assembler re-imposes one by sorting before
//! words are paired with dice indices.

use vstd::prelude::*;

verus! {

/// Whether `w` already stands in `ws`.
fn contains_word(ws: &Vec<String>, w: &String) -> (r: bool)
    ensures
        r == ws.deep_view().contains(w@),
{
    let mut i: usize = 0;
    while i < ws.len()
        invariant
            i <= ws@.len(),
            forall|k: int| 0 <= k < i ==> ws.deep_view()[k] != w@,
        decreases ws@.len() - i,
    {
        let eq = ws[i] == *w;
        proof {
            assert(ws.deep_view()[i as int] == ws@[i as int]@);
        }
        if eq {
            return true;
        }
        i = i + 1;
    }
    proof {
        assert(!ws.deep_view().contains(w@));
    }
    false
}

/// Remove duplicates: the result carries no word twice and carries exactly
/// the set of words of the input.
pub fn uniq_words(words: Vec<String>) -> (r: Vec<String>)
    ensures
        r.deep_view().no_duplicates(),
        r.deep_view().to_set() == words.deep_view().to_set(),
{
    let ghost full = words.deep_view();
    let mut out: Vec<String> = Vec::new();
    let mut i: usize = 0;
    proof {
        assert(out.deep_view() =~= Seq::<Seq<char>>::empty());
        assert(full.take(0) =~= Seq::<Seq<char>>::empty());
        assert(out.deep_view().to_set() =~= full.take(0).to_set());
    }
    while i < words.len()
        invariant
            i <= words@.len(),
            words.deep_view() == full,
            out.deep_view().no_duplicates(),
            out.deep_view().to_set() == full.take(i as int).to_set(),
        decreases words@.len() - i,
    {
        let seen = contains_word(&out, &words[i]);
        let ghost prev = out.deep_view();
        proof {
            assert(full.take(i + 1).drop_last() =~= full.take(i as int));
            assert(full.take(i + 1).last() == full[i as int]);
            let ghost t = full.take(i + 1);
            assert forall|x: Seq<char>| t.to_set().contains(x) implies full.take(
                i as int,
            ).to_set().contains(x) || x == full[i as int] by {
                let k = choose|k: int| 0 <= k < t.len() && #[trigger] t[k] == x;
                if k < i {
                    assert(full.take(i as int)[k] == x);
                }
            }
            assert forall|x: Seq<char>|
                full.take(i as int).to_set().contains(x) implies t.to_set().contains(x) by {
                let u = full.take(i as int);
                let k = choose|k: int| 0 <= k < u.len() && #[trigger] u[k] == x;
                assert(t[k] == x);
            }
            assert(full.take(i + 1)[i as int] == full[i as int]);
            assert(full.take(i + 1).to_set().contains(full[i as int]));
        }
        if !seen {
            let w = words[i].clone();
            out.push(w);
            proof {
                assert(out.deep_view() =~= prev.push(full[i as int]));
                assert forall|x: int, y: int|
                    0 <= x < y < out.deep_view().len() implies out.deep_view()[x]
                    != out.deep_view()[y] by {
                    if y < prev.len() {
                        assert(out.deep_view()[x] == prev[x] && out.deep_view()[y] == prev[y]);
                    } else {
                        assert(out.deep_view()[y] == full[i as int]);
                        assert(out.deep_view()[x] == prev[x]);
                        assert(prev.contains(prev[x]));
                        assert(!prev.contains(full[i as int]));
                    }
                }
                let ghost dv = out.deep_view();
                assert forall|x: Seq<char>| dv.to_set().contains(x) implies full.take(
                    i + 1,
                ).to_set().contains(x) by {
                    let k = choose|k: int| 0 <= k < dv.len() && #[trigger] dv[k] == x;
                    if k < prev.len() {
                        assert(prev.to_set().contains(x));
                    }
                }
                assert forall|x: Seq<char>| full.take(i + 1).to_set().contains(x) implies
                    dv.to_set().contains(x) by {
                    if prev.to_set().contains(x) {
                        let k = choose|k: int| 0 <= k < prev.len() && #[trigger] prev[k] == x;
                        assert(dv[k] == x);
                    } else {
                        assert(x == full[i as int]);
                        assert(dv[prev.len() as int] == x);
                    }
                }
                assert(out.deep_view().to_set() =~= full.take(i + 1).to_set());
            }
        } else {
            proof {
                assert(prev.to_set().contains(full[i as int]));
                assert forall|x: Seq<char>| full.take(i + 1).to_set().contains(x) implies
                    prev.to_set().contains(x) by {}
                assert forall|x: Seq<char>| prev.to_set().contains(x) implies full.take(
                    i + 1,
                ).to_set().contains(x) by {}
                assert(out.deep_view().to_set() =~= full.take(i + 1).to_set());
            }
        }
        i = i + 1;
    }
    proof {
        assert(full.take(words@.len() as int) =~= full);
    }
    out
}

} // verus!
