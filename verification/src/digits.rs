//! Decimal digits: the spec-level meaning of digit characters and digit
//! strings, the canonical decimal rendering of a number, and the lemmas that
//! tie the two together. Both the log codec and the command-line parser rest
//! on these definitions.
use vstd::prelude::*;

verus! {

pub open spec fn is_digit(c: char) -> bool {
    0x30 <= (c as u32) && (c as u32) <= 0x39
}

pub open spec fn digit_val(c: char) -> nat {
    ((c as u32) - 0x30) as nat
}

/// The digit character for a value below ten.
pub open spec fn digit_char(n: nat) -> char {
    if n == 0 {
        '0'
    } else if n == 1 {
        '1'
    } else if n == 2 {
        '2'
    } else if n == 3 {
        '3'
    } else if n == 4 {
        '4'
    } else if n == 5 {
        '5'
    } else if n == 6 {
        '6'
    } else if n == 7 {
        '7'
    } else if n == 8 {
        '8'
    } else {
        '9'
    }
}

/// Canonical decimal rendering of `n`: no sign, no leading zero
/// (except the single digit of zero itself).
pub open spec fn dec_digits(n: nat) -> Seq<char>
    decreases n,
{
    if n < 10 {
        seq![digit_char(n)]
    } else {
        dec_digits(n / 10).push(digit_char(n % 10))
    }
}

pub open spec fn all_digits(s: Seq<char>) -> bool {
    forall|i: int| 0 <= i < s.len() ==> is_digit(#[trigger] s[i])
}

/// The number a digit string denotes, most significant digit first.
pub open spec fn digits_val(s: Seq<char>) -> nat
    decreases s.len(),
{
    if s.len() == 0 {
        0
    } else {
        digits_val(s.drop_last()) * 10 + digit_val(s.last())
    }
}

pub open spec fn pow10(k: nat) -> nat
    decreases k,
{
    if k == 0 {
        1
    } else {
        10 * pow10((k - 1) as nat)
    }
}

pub proof fn lemma_pow10_pos(k: nat)
    ensures
        pow10(k) >= 1,
    decreases k,
{
    if k > 0 {
        lemma_pow10_pos((k - 1) as nat);
    }
}

/// Prepending a digit shifts it by the weight of the rest.
pub proof fn lemma_digits_val_cons(c: char, s: Seq<char>)
    ensures
        digits_val(seq![c] + s) == digit_val(c) * pow10(s.len()) + digits_val(s),
    decreases s.len(),
{
    if s.len() == 0 {
        assert(seq![c] + s =~= seq![c]);
        assert(seq![c].drop_last() =~= Seq::<char>::empty());
        assert(digits_val(Seq::<char>::empty()) == 0);
        assert(seq![c].last() == c);
        assert(digits_val(seq![c]) == digit_val(c));
        assert(pow10(0) == 1);
    } else {
        let whole = seq![c] + s;
        assert(whole.drop_last() =~= seq![c] + s.drop_last());
        assert(whole.last() == s.last());
        lemma_digits_val_cons(c, s.drop_last());
        lemma_pow10_pos(s.drop_last().len());
        assert(pow10(s.len()) == 10 * pow10(s.drop_last().len()));
        let k = s.drop_last().len();
        assert((digit_val(c) * pow10(k) + digits_val(s.drop_last())) * 10 == digit_val(c) * (10
            * pow10(k)) + digits_val(s.drop_last()) * 10) by (nonlinear_arith);
        assert(digits_val(whole) == digits_val(whole.drop_last()) * 10 + digit_val(whole.last()));
        assert(digits_val(s) == digits_val(s.drop_last()) * 10 + digit_val(s.last()));
    }
}

/// The canonical rendering is made of digits, is never empty, denotes the
/// number it was made from, and starts with a nonzero digit unless the
/// number is zero.
pub proof fn lemma_dec_digits(n: nat)
    ensures
        dec_digits(n).len() >= 1,
        all_digits(dec_digits(n)),
        digits_val(dec_digits(n)) == n,
        n > 0 ==> dec_digits(n)[0] != '0',
        n < 10 ==> dec_digits(n).len() == 1,
    decreases n,
{
    if n < 10 {
        assert(seq![digit_char(n)].drop_last() =~= Seq::<char>::empty());
        assert(digits_val(Seq::<char>::empty()) == 0);
        assert(seq![digit_char(n)].last() == digit_char(n));
        assert(digits_val(seq![digit_char(n)]) == digit_val(digit_char(n)));
    } else {
        lemma_dec_digits(n / 10);
        let d = dec_digits(n / 10);
        let whole = d.push(digit_char(n % 10));
        assert(whole.drop_last() =~= d);
        assert(digits_val(whole) == digits_val(d) * 10 + digit_val(whole.last()));
        assert(digit_val(digit_char(n % 10)) == n % 10);
        assert((n / 10) * 10 + n % 10 == n) by (nonlinear_arith);
        assert(whole[0] == d[0]);
        assert(forall|i: int|
            0 <= i < whole.len() ==> is_digit(#[trigger] whole[i]) == (if i < d.len() {
                is_digit(d[i])
            } else {
                is_digit(digit_char(n % 10))
            }));
    }
}

/// A prefix of a digit string never denotes more than the whole string.
pub proof fn lemma_digits_val_take(s: Seq<char>, k: int)
    requires
        0 <= k <= s.len(),
    ensures
        digits_val(s.take(k)) <= digits_val(s),
    decreases s.len(),
{
    if k == s.len() {
        assert(s.take(k) =~= s);
    } else {
        assert(s.drop_last().take(k) =~= s.take(k));
        lemma_digits_val_take(s.drop_last(), k);
        assert(digits_val(s) == digits_val(s.drop_last()) * 10 + digit_val(s.last()));
    }
}

/// Writes the decimal digits of `n` onto `out`, most significant first.
pub fn push_dec_digits(out: &mut Vec<char>, n: u64)
    ensures
        final(out)@ == old(out)@ + dec_digits(n as nat),
    decreases n,
{
    if n < 10 {
        out.push(exec_digit_char((n % 10) as u8));
        assert(out@ =~= old(out)@ + dec_digits(n as nat));
    } else {
        push_dec_digits(out, n / 10);
        out.push(exec_digit_char((n % 10) as u8));
        assert(out@ =~= old(out)@ + dec_digits(n as nat));
    }
}

/// The digit character for a value below ten.
pub fn exec_digit_char(n: u8) -> (c: char)
    requires
        n < 10,
    ensures
        c == digit_char(n as nat),
{
    if n == 0 {
        '0'
    } else if n == 1 {
        '1'
    } else if n == 2 {
        '2'
    } else if n == 3 {
        '3'
    } else if n == 4 {
        '4'
    } else if n == 5 {
        '5'
    } else if n == 6 {
        '6'
    } else if n == 7 {
        '7'
    } else if n == 8 {
        '8'
    } else {
        '9'
    }
}

/// Whether a character is a decimal digit, in executable form.
pub fn exec_is_digit(c: char) -> (r: bool)
    ensures
        r == is_digit(c),
{
    let v = c as u32;
    0x30 <= v && v <= 0x39
}

/// The value of a digit character, in executable form.
pub fn exec_digit_val(c: char) -> (n: u8)
    requires
        is_digit(c),
    ensures
        n as nat == digit_val(c),
        n < 10,
{
    ((c as u32) - 0x30) as u8
}

} // verus!
