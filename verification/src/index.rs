//! The dice-roll index space.
//!
//! Rolling `number` dice with `dice` faces each has `dice^number` possible
//! outcomes. Each outcome is written as a string: the digit of every roll, in
//! the range `1..=dice`, rendered in decimal, most significant roll first,
//! the digits joined by `'|'`. The generator enumerates the whole space in
//! ascending order of the digit sequences, which is what lets a sorted word
//! list be paired against it positionally.

use vstd::prelude::*;
use vstd::arithmetic::power::{
    pow, lemma_pow_adds, lemma_pow_increases, lemma_pow0, lemma_pow1,
};
use vstd::arithmetic::div_mod::{
    lemma_fundamental_div_mod, lemma_div_is_ordered, lemma_multiply_divide_lt,
    lemma_remainder_lower, lemma_remainder_upper,
};
use crate::DicewareError;

verus! {

/// The decimal digit character for a value below ten.
pub open spec fn dec_digit(n: nat) -> char {
    if n == 0 {
        '0'
    } else if n == 1 {
        '1'
    } else if n == 2 {
        '2'
    } else if n == 3 {
        '3'
    } else if n == 4 {
        '4'
    } else if n == 5 {
        '5'
    } else if n == 6 {
        '6'
    } else if n == 7 {
        '7'
    } else if n == 8 {
        '8'
    } else {
        '9'
    }
}

/// The decimal rendering of `n`, without leading zeros.
pub open spec fn dec_str(n: nat) -> Seq<char>
    decreases n,
{
    if n < 10 {
        seq![dec_digit(n)]
    } else {
        dec_str(n / 10) + seq![dec_digit(n % 10)]
    }
}

/// The digit sequence of outcome `k` in the space of `number` dice with
/// `dice` faces: the base-`dice` representation of `k`, each digit shifted
/// up by one into `1..=dice`, most significant first.
pub open spec fn dice_digits(dice: nat, number: nat, k: nat) -> Seq<nat>
    decreases number,
{
    if number == 0 {
        Seq::empty()
    } else {
        dice_digits(dice, (number - 1) as nat, k / dice) + seq![k % dice + 1]
    }
}

/// The index string for a digit sequence: each digit in decimal, joined by
/// `'|'`.
pub open spec fn render_index(ds: Seq<nat>) -> Seq<char>
    decreases ds.len(),
{
    if ds.len() == 0 {
        Seq::empty()
    } else if ds.len() == 1 {
        dec_str(ds[0])
    } else {
        render_index(ds.drop_last()) + seq!['|'] + dec_str(ds.last())
    }
}

/// The index string of outcome `k`, the unit the generator emits.
pub open spec fn index_chars(dice: nat, number: nat, k: nat) -> Seq<char> {
    render_index(dice_digits(dice, number, k))
}

/// A digit sequence always has exactly one digit per die rolled.
pub proof fn lemma_dice_digits_len(dice: nat, number: nat, k: nat)
    requires
        dice >= 1,
    ensures
        dice_digits(dice, number, k).len() == number,
    decreases number,
{
    if number > 0 {
        lemma_dice_digits_len(dice, (number - 1) as nat, k / dice);
        assert(dice_digits(dice, number, k).len() == dice_digits(
            dice,
            (number - 1) as nat,
            k / dice,
        ).len() + 1);
    }
}

/// The decimal digit for a value below ten, executably.
fn dec_digit_str(n: u8) -> (r: &'static str)
    requires
        n < 10,
    ensures
        r@ == seq![dec_digit(n as nat)],
{
    proof {
        reveal_strlit("0");
        reveal_strlit("1");
        reveal_strlit("2");
        reveal_strlit("3");
        reveal_strlit("4");
        reveal_strlit("5");
        reveal_strlit("6");
        reveal_strlit("7");
        reveal_strlit("8");
        reveal_strlit("9");
    }
    if n == 0 {
        "0"
    } else if n == 1 {
        "1"
    } else if n == 2 {
        "2"
    } else if n == 3 {
        "3"
    } else if n == 4 {
        "4"
    } else if n == 5 {
        "5"
    } else if n == 6 {
        "6"
    } else if n == 7 {
        "7"
    } else if n == 8 {
        "8"
    } else {
        "9"
    }
}

/// Render `n` in decimal.
fn dec_string(n: u8) -> (r: String)
    ensures
        r@ == dec_str(n as nat),
    decreases n,
{
    if n < 10 {
        dec_digit_str(n).to_owned()
    } else {
        let mut s = dec_string(n / 10);
        s.append(dec_digit_str(n % 10));
        s
    }
}

/// `dice^number` as a `usize`, or `None` when it exceeds the platform
/// ceiling. This is the guard that keeps the generator from attempting to
/// materialize an absurdly large index space.
pub fn checked_index_space(dice: u8, number: u8) -> (r: Option<usize>)
    requires
        dice >= 1,
    ensures
        match r {
            Some(v) => v == pow(dice as int, number as nat),
            None => pow(dice as int, number as nat) > usize::MAX,
        },
{
    let mut acc: usize = 1;
    let mut i: u8 = 0;
    proof {
        lemma_pow0(dice as int);
    }
    while i < number
        invariant
            i <= number,
            dice >= 1,
            acc == pow(dice as int, i as nat),
        decreases number - i,
    {
        let limit = usize::MAX / (dice as usize);
        if acc > limit {
            proof {
                lemma_pow_overflow(dice as nat, (i + 1) as nat, acc as nat);
                lemma_pow_increases(dice as nat, (i + 1) as nat, number as nat);
            }
            return None;
        }
        proof {
            lemma_mul_within_limit(acc as nat, dice as nat, limit as nat);
            assert(pow(dice as int, (i + 1) as nat) == pow(dice as int, i as nat) * dice) by {
                lemma_pow_adds(dice as int, i as nat, 1);
                lemma_pow1(dice as int);
            }
        }
        acc = acc * (dice as usize);
        i = i + 1;
    }
    Some(acc)
}

/// If `acc` exceeds `usize::MAX / dice`, then `acc * dice`, and with it
/// `pow(dice, e)` for any exponent `e` whose power reaches `acc * dice`,
/// exceeds `usize::MAX`. Here specialized to `acc == pow(dice, e - 1)`.
proof fn lemma_pow_overflow(dice: nat, e: nat, acc: nat)
    requires
        dice >= 1,
        e >= 1,
        acc == pow(dice as int, (e - 1) as nat),
        acc > usize::MAX as nat / dice,
    ensures
        pow(dice as int, e) > usize::MAX,
{
    let m = usize::MAX as int;
    lemma_pow_adds(dice as int, (e - 1) as nat, 1);
    lemma_pow1(dice as int);
    assert(pow(dice as int, e) == acc * dice);
    lemma_fundamental_div_mod(m, dice as int);
    assert(m == dice * (m / dice as int) + m % dice as int);
    lemma_remainder_upper(m, dice as int);
    assert(acc >= m / dice as int + 1);
    assert(acc * dice >= (m / dice as int + 1) * dice) by (nonlinear_arith)
        requires
            acc >= m / dice as int + 1,
            dice >= 1,
    ;
    assert((m / dice as int + 1) * dice == dice * (m / dice as int) + dice) by (nonlinear_arith);
}

/// If `acc <= limit` and `limit == usize::MAX / dice`, the product
/// `acc * dice` stays below the platform ceiling.
proof fn lemma_mul_within_limit(acc: nat, dice: nat, limit: nat)
    requires
        dice >= 1,
        limit == usize::MAX as nat / dice,
        acc <= limit,
    ensures
        acc * dice <= usize::MAX,
{
    let m = usize::MAX as int;
    lemma_fundamental_div_mod(m, dice as int);
    lemma_remainder_lower(m, dice as int);
    assert(acc * dice <= limit * dice) by (nonlinear_arith)
        requires
            acc <= limit,
            dice >= 1,
    ;
    assert(limit * dice == dice * (m / dice as int)) by (nonlinear_arith)
        requires
            limit == m / dice as int,
    ;
}

/// The index string of outcome `k`.
fn index_string(dice: u8, number: u8, k: usize) -> (r: String)
    requires
        dice >= 2,
        number >= 1,
        (k as int) < pow(dice as int, number as nat),
    ensures
        r@ == index_chars(dice as nat, number as nat, k as nat),
{
    let mut digits: Vec<u8> = Vec::new();
    let mut kk = k;
    let mut i: u8 = 0;
    while i < number
        invariant
            i <= number,
            dice >= 2,
            dice_digits(dice as nat, number as nat, k as nat) == dice_digits(
                dice as nat,
                (number - i) as nat,
                kk as nat,
            ) + digits@.map_values(|u: u8| u as nat),
        decreases number - i,
    {
        let d = ((kk % (dice as usize)) + 1) as u8;
        proof {
            let ghost ds = digits@.map_values(|u: u8| u as nat);
            assert(dice_digits(dice as nat, (number - i) as nat, kk as nat) == dice_digits(
                dice as nat,
                (number - i - 1) as nat,
                (kk as nat) / (dice as nat),
            ) + seq![(kk as nat) % (dice as nat) + 1]);
            assert((seq![d] + digits@).map_values(|u: u8| u as nat) =~= seq![d as nat] + ds);
            assert(dice_digits(dice as nat, (number - i - 1) as nat, (kk as nat) / (dice as nat))
                + seq![(kk as nat) % (dice as nat) + 1] + ds == dice_digits(
                dice as nat,
                (number - i - 1) as nat,
                (kk as nat) / (dice as nat),
            ) + (seq![d] + digits@).map_values(|u: u8| u as nat));
        }
        let ghost prev = digits@;
        digits.insert(0, d);
        proof {
            assert(digits@ =~= seq![d] + prev);
        }
        kk = kk / (dice as usize);
        i = i + 1;
    }
    proof {
        assert(digits@.map_values(|u: u8| u as nat) == dice_digits(
            dice as nat,
            number as nat,
            k as nat,
        ));
        lemma_dice_digits_len(dice as nat, number as nat, k as nat);
    }
    let ghost ds = digits@.map_values(|u: u8| u as nat);
    let mut s = dec_string(digits[0]);
    proof {
        assert(ds.subrange(0, 1).len() == 1);
        assert(render_index(ds.subrange(0, 1)) == dec_str(ds[0]));
    }
    let mut j: usize = 1;
    while j < digits.len()
        invariant
            1 <= j <= digits.len(),
            digits@.len() == number as int,
            ds == digits@.map_values(|u: u8| u as nat),
            s@ == render_index(ds.subrange(0, j as int)),
        decreases digits.len() - j,
    {
        proof {
            reveal_strlit("|");
        }
        s.append("|");
        let t = dec_string(digits[j]);
        s.append(t.as_str());
        proof {
            let pre = ds.subrange(0, j + 1);
            assert(pre.drop_last() =~= ds.subrange(0, j as int));
            assert(pre.len() >= 2);
            assert(render_index(pre) == render_index(ds.subrange(0, j as int)) + seq!['|']
                + dec_str(ds[j as int]));
        }
        j = j + 1;
    }
    proof {
        assert(ds.subrange(0, ds.len() as int) =~= ds);
    }
    s
}

/// Generate the complete dice-roll index space: `dice^number` strings, the
/// `k`-th being the index string of outcome `k`, so the whole sequence is in
/// ascending order of the underlying digit sequences. Fails with
/// `IndexSpaceOverflow`, before allocating anything, exactly when
/// `dice^number` exceeds the platform ceiling.
pub fn gen_dice_number(dice: u8, number: u8) -> (r: Result<Vec<String>, DicewareError>)
    requires
        dice >= 2,
        number >= 1,
    ensures
        match r {
            Ok(v) => pow(dice as int, number as nat) <= usize::MAX && v@.len() == pow(
                dice as int,
                number as nat,
            ) && forall|k: int|
                0 <= k < v@.len() ==> v.deep_view()[k] == index_chars(
                    dice as nat,
                    number as nat,
                    k as nat,
                ),
            Err(e) => e == DicewareError::IndexSpaceOverflow && pow(dice as int, number as nat)
                > usize::MAX,
        },
{
    let size = match checked_index_space(dice, number) {
        Some(s) => s,
        None => {
            return Err(DicewareError::IndexSpaceOverflow);
        },
    };
    let mut out: Vec<String> = Vec::new();
    let mut k: usize = 0;
    while k < size
        invariant
            k <= size,
            dice >= 2,
            number >= 1,
            size == pow(dice as int, number as nat),
            out@.len() == k,
            forall|j: int|
                0 <= j < k ==> out.deep_view()[j] == index_chars(
                    dice as nat,
                    number as nat,
                    j as nat,
                ),
        decreases size - k,
    {
        let s = index_string(dice, number, k);
        let ghost prev = out.deep_view();
        out.push(s);
        proof {
            assert(out.deep_view() =~= prev.push(s@));
        }
        k = k + 1;
    }
    Ok(out)
}

/// Strict lexicographic order on digit sequences, most significant digit
/// first. This, not character order of the rendered strings, is the order in
/// which the generator emits the index space.
pub open spec fn digits_lt(a: Seq<nat>, b: Seq<nat>) -> bool
    decreases a.len(),
{
    a.len() > 0 && b.len() > 0 && (a[0] < b[0] || (a[0] == b[0] && digits_lt(
        a.drop_first(),
        b.drop_first(),
    )))
}

/// No digit sequence is lexicographically below itself.
pub proof fn lemma_digits_lt_irreflexive(a: Seq<nat>)
    ensures
        !digits_lt(a, a),
    decreases a.len(),
{
    if a.len() > 0 {
        lemma_digits_lt_irreflexive(a.drop_first());
    }
}

/// Appending one digit each to two ordered sequences of equal length keeps
/// them ordered.
proof fn lemma_digits_lt_push(a: Seq<nat>, b: Seq<nat>, x: nat, y: nat)
    requires
        a.len() == b.len(),
        digits_lt(a, b),
    ensures
        digits_lt(a.push(x), b.push(y)),
    decreases a.len(),
{
    assert(a.push(x)[0] == a[0]);
    assert(b.push(y)[0] == b[0]);
    if a[0] == b[0] {
        lemma_digits_lt_push(a.drop_first(), b.drop_first(), x, y);
        assert(a.push(x).drop_first() =~= a.drop_first().push(x));
        assert(b.push(y).drop_first() =~= b.drop_first().push(y));
    }
}

/// Appending a smaller digit to the same prefix gives the smaller sequence.
proof fn lemma_digits_lt_push_eq(a: Seq<nat>, x: nat, y: nat)
    requires
        x < y,
    ensures
        digits_lt(a.push(x), a.push(y)),
    decreases a.len(),
{
    if a.len() == 0 {
        assert(a.push(x)[0] == x);
        assert(a.push(y)[0] == y);
    } else {
        lemma_digits_lt_push_eq(a.drop_first(), x, y);
        assert(a.push(x)[0] == a[0]);
        assert(a.push(y)[0] == a[0]);
        assert(a.push(x).drop_first() =~= a.drop_first().push(x));
        assert(a.push(y).drop_first() =~= a.drop_first().push(y));
    }
}

/// The generator's order: of two outcomes in the index space, the one with
/// the smaller outcome number has the lexicographically smaller digit
/// sequence. The whole emitted sequence is therefore strictly ascending.
pub proof fn lemma_index_space_ordered(dice: nat, number: nat, k1: nat, k2: nat)
    requires
        dice >= 2,
        k1 < k2,
        k2 < pow(dice as int, number),
    ensures
        digits_lt(dice_digits(dice, number, k1), dice_digits(dice, number, k2)),
    decreases number,
{
    if number == 0 {
        lemma_pow0(dice as int);
    } else {
        let d = dice as int;
        let q1 = k1 as int / d;
        let q2 = k2 as int / d;
        let r1 = k1 as int % d;
        let r2 = k2 as int % d;
        let p1 = dice_digits(dice, (number - 1) as nat, (k1 / dice) as nat);
        let p2 = dice_digits(dice, (number - 1) as nat, (k2 / dice) as nat);
        lemma_dice_digits_len(dice, (number - 1) as nat, (k1 / dice) as nat);
        lemma_dice_digits_len(dice, (number - 1) as nat, (k2 / dice) as nat);
        assert(dice_digits(dice, number, k1) =~= p1.push((r1 + 1) as nat));
        assert(dice_digits(dice, number, k2) =~= p2.push((r2 + 1) as nat));
        lemma_pow_adds(d, (number - 1) as nat, 1);
        lemma_pow1(d);
        assert(pow(d, number) == pow(d, (number - 1) as nat) * d);
        assert((k2 as int) < d * pow(d, (number - 1) as nat)) by {
            vstd::arithmetic::mul::lemma_mul_is_commutative(pow(d, (number - 1) as nat), d);
        }
        lemma_multiply_divide_lt(k2 as int, d, pow(d, (number - 1) as nat));
        lemma_div_is_ordered(k1 as int, k2 as int, d);
        if q1 == q2 {
            lemma_fundamental_div_mod(k1 as int, d);
            lemma_fundamental_div_mod(k2 as int, d);
            assert(r1 < r2);
            lemma_digits_lt_push_eq(p1, (r1 + 1) as nat, (r2 + 1) as nat);
        } else {
            lemma_index_space_ordered(dice, (number - 1) as nat, (k1 / dice) as nat, (k2
                / dice) as nat);
            lemma_digits_lt_push(p1, p2, (r1 + 1) as nat, (r2 + 1) as nat);
        }
    }
}

/// Whether `c` is a decimal digit character.
pub open spec fn is_dec_digit_char(c: char) -> bool {
    c == '0' || c == '1' || c == '2' || c == '3' || c == '4' || c == '5' || c == '6' || c == '7'
        || c == '8' || c == '9'
}

/// A decimal rendering is never empty.
proof fn lemma_dec_str_len(n: nat)
    ensures
        dec_str(n).len() >= 1,
    decreases n,
{
    if n >= 10 {
        lemma_dec_str_len(n / 10);
    }
}

/// A decimal rendering consists of digit characters only; in particular it
/// never contains the `'|'` separator.
proof fn lemma_dec_str_digits(n: nat)
    ensures
        forall|i: int| 0 <= i < dec_str(n).len() ==> is_dec_digit_char(dec_str(n)[i]),
    decreases n,
{
    if n >= 10 {
        lemma_dec_str_digits(n / 10);
        assert(forall|i: int|
            0 <= i < dec_str(n / 10).len() ==> dec_str(n)[i] == dec_str(n / 10)[i]);
    }
}

/// Two distinct values never share a decimal rendering.
proof fn lemma_dec_str_injective(a: nat, b: nat)
    requires
        dec_str(a) == dec_str(b),
    ensures
        a == b,
    decreases a,
{
    lemma_dec_str_len(a);
    lemma_dec_str_len(b);
    if a < 10 && b < 10 {
        assert(dec_str(a)[0] == dec_digit(a));
        assert(dec_str(b)[0] == dec_digit(b));
    } else if a < 10 {
        lemma_dec_str_len(b / 10);
        assert(dec_str(b).len() >= 2);
    } else if b < 10 {
        lemma_dec_str_len(a / 10);
        assert(dec_str(a).len() >= 2);
    } else {
        assert(dec_str(a).last() == dec_digit(a % 10));
        assert(dec_str(b).last() == dec_digit(b % 10));
        assert(a % 10 == b % 10);
        assert(dec_str(a).drop_last() =~= dec_str(a / 10));
        assert(dec_str(b).drop_last() =~= dec_str(b / 10));
        lemma_dec_str_injective(a / 10, b / 10);
        lemma_fundamental_div_mod(a as int, 10);
        lemma_fundamental_div_mod(b as int, 10);
    }
}

/// Two distinct digit sequences of equal length never render to the same
/// index string: the `'|'` separators fix where each digit's decimal
/// rendering stands.
proof fn lemma_render_injective(a: Seq<nat>, b: Seq<nat>)
    requires
        a.len() == b.len(),
        render_index(a) == render_index(b),
    ensures
        a =~= b,
    decreases a.len(),
{
    if a.len() == 1 {
        lemma_dec_str_injective(a[0], b[0]);
    } else if a.len() >= 2 {
        let s = render_index(a);
        let ra = render_index(a.drop_last());
        let rb = render_index(b.drop_last());
        let da = dec_str(a.last());
        let db = dec_str(b.last());
        lemma_dec_str_len(a.last());
        lemma_dec_str_len(b.last());
        lemma_dec_str_digits(a.last());
        lemma_dec_str_digits(b.last());
        assert(s.len() == ra.len() + 1 + da.len());
        assert(s.len() == rb.len() + 1 + db.len());
        if da.len() < db.len() {
            let p = s.len() - da.len() - 1;
            assert(s[p] == '|');
            assert(s[p] == db[p - rb.len() - 1]);
            assert(is_dec_digit_char(db[p - rb.len() - 1]));
            assert(false);
        } else if db.len() < da.len() {
            let p = s.len() - db.len() - 1;
            assert(s[p] == '|');
            assert(s[p] == da[p - ra.len() - 1]);
            assert(is_dec_digit_char(da[p - ra.len() - 1]));
            assert(false);
        } else {
            assert(da =~= s.subrange(s.len() - da.len(), s.len() as int));
            assert(db =~= s.subrange(s.len() - db.len(), s.len() as int));
            lemma_dec_str_injective(a.last(), b.last());
            assert(ra =~= s.subrange(0, ra.len() as int));
            assert(rb =~= s.subrange(0, rb.len() as int));
            lemma_render_injective(a.drop_last(), b.drop_last());
            assert(forall|i: int| 0 <= i < a.len() - 1 ==> a[i] == a.drop_last()[i]);
            assert(forall|i: int| 0 <= i < b.len() - 1 ==> b[i] == b.drop_last()[i]);
        }
    }
}

/// An index string consists of digit characters and separators only.
proof fn lemma_render_chars(ds: Seq<nat>)
    ensures
        ds.len() > 0 ==> render_index(ds).len() > 0,
        forall|i: int|
            0 <= i < render_index(ds).len() ==> is_dec_digit_char(#[trigger] render_index(ds)[i])
                || render_index(ds)[i] == '|',
    decreases ds.len(),
{
    if ds.len() == 1 {
        lemma_dec_str_len(ds[0]);
        lemma_dec_str_digits(ds[0]);
    } else if ds.len() >= 2 {
        lemma_render_chars(ds.drop_last());
        lemma_dec_str_len(ds.last());
        lemma_dec_str_digits(ds.last());
        let s = render_index(ds);
        let r = render_index(ds.drop_last());
        let d = dec_str(ds.last());
        assert forall|i: int| 0 <= i < s.len() implies is_dec_digit_char(#[trigger] s[i]) || s[i]
            == '|' by {
            if i < r.len() {
                assert(s[i] == r[i]);
            } else if i == r.len() {
                assert(s[i] == '|');
            } else {
                assert(s[i] == d[i - r.len() - 1]);
            }
        }
    }
}

/// An index string is never empty and never contains whitespace: serialized
/// as the first column of a table line, it reads back as one whole token.
pub proof fn lemma_index_chars_wf(dice: nat, number: nat, k: nat)
    requires
        dice >= 1,
        number >= 1,
    ensures
        index_chars(dice, number, k).len() > 0,
        forall|i: int|
            0 <= i < index_chars(dice, number, k).len() ==> !crate::text::is_ws(
                #[trigger] index_chars(dice, number, k)[i],
            ),
{
    lemma_dice_digits_len(dice, number, k);
    lemma_render_chars(dice_digits(dice, number, k));
}

/// No two outcomes of the index space share an index string: the generator's
/// output is duplicate-free.
pub proof fn lemma_index_space_distinct(dice: nat, number: nat, k1: nat, k2: nat)
    requires
        dice >= 2,
        k1 < k2,
        k2 < pow(dice as int, number),
    ensures
        index_chars(dice, number, k1) != index_chars(dice, number, k2),
{
    lemma_index_space_ordered(dice, number, k1, k2);
    lemma_digits_lt_irreflexive(dice_digits(dice, number, k1));
    lemma_dice_digits_len(dice, number, k1);
    lemma_dice_digits_len(dice, number, k2);
    if index_chars(dice, number, k1) == index_chars(dice, number, k2) {
        lemma_render_injective(dice_digits(dice, number, k1), dice_digits(dice, number, k2));
    }
}

} // verus!
