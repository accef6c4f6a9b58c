//! Lexicographic order on words, and sorting a word list.
//!
//! Words are ordered by Unicode code point, position by position, shorter
//! prefixes first: the order in which a finished word table lists its words,
//! and the order against which the ascending dice-roll index space is paired.

use vstd::prelude::*;

verus! {

/// `a` is lexicographically at or before `b`, comparing Unicode code points
/// position by position; a proper prefix comes first.
pub open spec fn lex_le(a: Seq<char>, b: Seq<char>) -> bool
    decreases a.len(),
{
    a.len() == 0 || (b.len() > 0 && ((a[0] as u32) < (b[0] as u32) || (a[0] == b[0] && lex_le(
        a.drop_first(),
        b.drop_first(),
    ))))
}

/// Any two words are comparable.
pub proof fn lemma_lex_total(a: Seq<char>, b: Seq<char>)
    ensures
        lex_le(a, b) || lex_le(b, a),
    decreases a.len(),
{
    if a.len() > 0 && b.len() > 0 {
        if (a[0] as u32) == (b[0] as u32) {
            vstd::utf8::char_u32_cast(a[0], a[0] as u32);
            vstd::utf8::char_u32_cast(b[0], b[0] as u32);
            assert(a[0] == b[0]);
            lemma_lex_total(a.drop_first(), b.drop_first());
        }
    }
}

/// The order is transitive.
pub proof fn lemma_lex_trans(a: Seq<char>, b: Seq<char>, c: Seq<char>)
    requires
        lex_le(a, b),
        lex_le(b, c),
    ensures
        lex_le(a, c),
    decreases a.len(),
{
    if a.len() > 0 {
        if a[0] == b[0] && b[0] == c[0] {
            lemma_lex_trans(a.drop_first(), b.drop_first(), c.drop_first());
        }
    }
}

/// A word list in ascending lexicographic order.
pub open spec fn sorted_lex(ws: Seq<Seq<char>>) -> bool {
    forall|i: int, j: int| 0 <= i < j < ws.len() ==> lex_le(ws[i], ws[j])
}

/// Equal prefixes do not decide the comparison: it is settled by the rest.
proof fn lemma_lex_skip(a: Seq<char>, b: Seq<char>, i: int)
    requires
        0 <= i <= a.len(),
        i <= b.len(),
        forall|k: int| 0 <= k < i ==> a[k] == b[k],
    ensures
        lex_le(a, b) == lex_le(a.skip(i), b.skip(i)),
    decreases i,
{
    if i == 0 {
        assert(a.skip(0) =~= a);
        assert(b.skip(0) =~= b);
    } else {
        assert(a.len() > 0 && b.len() > 0 && a[0] == b[0]);
        lemma_lex_skip(a.drop_first(), b.drop_first(), i - 1);
        assert(a.drop_first().skip(i - 1) =~= a.skip(i));
        assert(b.drop_first().skip(i - 1) =~= b.skip(i));
    }
}

/// Compare two words lexicographically.
pub fn str_le(a: &str, b: &str) -> (r: bool)
    ensures
        r == lex_le(a@, b@),
{
    let na = a.unicode_len();
    let nb = b.unicode_len();
    let mut i: usize = 0;
    loop
        invariant
            i <= na,
            i <= nb,
            na == a@.len(),
            nb == b@.len(),
            forall|k: int| 0 <= k < i ==> a@[k] == b@[k],
        decreases na - i,
    {
        proof {
            lemma_lex_skip(a@, b@, i as int);
        }
        if i >= na {
            return true;
        }
        if i >= nb {
            proof {
                assert(a@.skip(i as int).len() > 0);
                assert(b@.skip(i as int).len() == 0);
            }
            return false;
        }
        let ca = a.get_char(i);
        let cb = b.get_char(i);
        proof {
            assert(a@.skip(i as int)[0] == ca);
            assert(b@.skip(i as int)[0] == cb);
        }
        if (ca as u32) < (cb as u32) {
            return true;
        }
        if (cb as u32) < (ca as u32) {
            proof {
                vstd::utf8::char_u32_cast(ca, ca as u32);
                vstd::utf8::char_u32_cast(cb, cb as u32);
                assert(ca != cb);
            }
            return false;
        }
        proof {
            vstd::utf8::char_u32_cast(ca, ca as u32);
            vstd::utf8::char_u32_cast(cb, cb as u32);
            assert(ca == cb);
        }
        i = i + 1;
    }
}

/// The index at which `w` belongs in the sorted list `ws`: everything before
/// it is at or below `w`, and the entry standing there, if any, is above.
fn find_insert_pos(ws: &Vec<String>, w: &String) -> (p: usize)
    requires
        sorted_lex(ws.deep_view()),
    ensures
        p <= ws@.len(),
        forall|k: int| 0 <= k < p ==> lex_le(ws.deep_view()[k], w@),
        p < ws@.len() ==> !lex_le(ws.deep_view()[p as int], w@),
{
    let mut p: usize = 0;
    while p < ws.len()
        invariant
            p <= ws@.len(),
            forall|k: int| 0 <= k < p ==> lex_le(ws.deep_view()[k], w@),
        decreases ws@.len() - p,
    {
        let le = str_le(ws[p].as_str(), w.as_str());
        proof {
            assert(ws.deep_view()[p as int] == ws@[p as int]@);
        }
        if !le {
            return p;
        }
        p = p + 1;
    }
    p
}

/// Sort a word list into ascending lexicographic order. The list keeps
/// exactly the words it had, multiplicity included.
pub fn sort_words(words: &mut Vec<String>)
    ensures
        sorted_lex(final(words).deep_view()),
        final(words).deep_view().to_multiset() == old(words).deep_view().to_multiset(),
{
    let ghost full = words.deep_view();
    let mut out: Vec<String> = Vec::new();
    let mut i: usize = 0;
    proof {
        assert(out.deep_view() =~= Seq::<Seq<char>>::empty());
        assert(full.take(0) =~= Seq::<Seq<char>>::empty());
        assert(out.deep_view().to_multiset() =~= full.take(0).to_multiset());
    }
    while i < words.len()
        invariant
            i <= words@.len(),
            words.deep_view() == full,
            sorted_lex(out.deep_view()),
            out.deep_view().to_multiset() == full.take(i as int).to_multiset(),
        decreases words@.len() - i,
    {
        let w = words[i].clone();
        proof {
            assert(w@ == full[i as int]);
        }
        let p = find_insert_pos(&out, &w);
        let ghost prev = out.deep_view();
        out.insert(p, w);
        proof {
            assert(out.deep_view() =~= prev.insert(p as int, w@));
            vstd::seq_lib::to_multiset_insert(prev, p as int, w@);
            assert(full.take(i + 1) =~= full.take(i as int).push(full[i as int]));
            vstd::seq_lib::to_multiset_build(full.take(i as int), full[i as int]);
            if p < prev.len() {
                lemma_lex_total(prev[p as int], w@);
            }
            assert forall|x: int, y: int|
                0 <= x < y < out.deep_view().len() implies lex_le(
                out.deep_view()[x],
                out.deep_view()[y],
            ) by {
                let dv = out.deep_view();
                if y < p {
                    assert(dv[x] == prev[x] && dv[y] == prev[y]);
                } else if x < p && y == p {
                    assert(dv[x] == prev[x] && dv[y] == w@);
                } else if x < p && y > p {
                    assert(dv[x] == prev[x] && dv[y] == prev[y - 1]);
                } else if x == p && y > p {
                    assert(dv[x] == w@ && dv[y] == prev[y - 1]);
                    assert(!lex_le(prev[p as int], w@));
                    assert(lex_le(w@, prev[p as int]));
                    if y - 1 > p {
                        assert(lex_le(prev[p as int], prev[y - 1]));
                        lemma_lex_trans(w@, prev[p as int], prev[y - 1]);
                    }
                } else {
                    assert(dv[x] == prev[x - 1] && dv[y] == prev[y - 1]);
                }
            }
        }
        i = i + 1;
    }
    proof {
        assert(full.take(words@.len() as int) =~= full);
    }
    *words = out;
}

} // verus!
