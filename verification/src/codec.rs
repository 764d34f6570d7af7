//! The mathematical model of the canonical asset text format.
//!
//! The format is `numeric-token SP symbol-token`, where the numeric token is
//! an optional sign, the whole digits and, for a positive precision, a decimal
//! point followed by the fractional digits. The spec functions here describe
//! both directions of the codec; the executable codec lives on
//! [`crate::asset::Asset`] and is specified against them.

use vstd::prelude::*;

verus! {

/// Largest exponent the codec raises ten to. Formatting clamps every digit
/// exponent here so that each power of ten fits a 64-bit integer even when a
/// symbol declares a larger precision.
pub const MAX_EXPONENT: u8 = 18;

/// Ten to the power `e`.
pub open spec fn pow10(e: nat) -> nat
    decreases e,
{
    if e == 0 {
        1
    } else {
        10 * pow10((e - 1) as nat)
    }
}

/// The exponent the codec uses for position `e`: `e`, clamped to
/// [`MAX_EXPONENT`].
pub open spec fn clamped(e: nat) -> nat {
    if e <= MAX_EXPONENT {
        e
    } else {
        MAX_EXPONENT as nat
    }
}

/// The magnitude of `a`.
pub open spec fn abs_val(a: int) -> nat {
    if a >= 0 {
        a as nat
    } else {
        (-a) as nat
    }
}

/// Whether `c` is an ASCII decimal digit.
pub open spec fn is_digit_char(c: char) -> bool {
    '0' <= c && c <= '9'
}

/// The numeric value of a decimal digit character.
pub open spec fn digit_value(c: char) -> nat {
    ((c as int) - ('0' as int)) as nat
}

/// The character for the decimal digit `d` (meaningful for `d < 10`).
pub open spec fn digit_char(d: nat) -> char {
    ((48 + d) as u8) as char
}

/// The decimal digits of `n`, most significant first; zero is rendered "0".
pub open spec fn dec_digits(n: nat) -> Seq<char>
    decreases n,
{
    if n < 10 {
        seq![digit_char(n)]
    } else {
        dec_digits(n / 10).push(digit_char(n % 10))
    }
}

/// The number denoted by a sequence of decimal digit characters; leading
/// zeros are allowed and the empty sequence denotes zero.
pub open spec fn digits_val(s: Seq<char>) -> nat
    decreases s.len(),
{
    if s.len() == 0 {
        0
    } else {
        digits_val(s.drop_last()) * 10 + digit_value(s.last())
    }
}

/// Whether every character of `s` is a decimal digit.
pub open spec fn all_digits(s: Seq<char>) -> bool {
    forall|i: int| 0 <= i < s.len() ==> is_digit_char(#[trigger] s[i])
}

/// The digit part of a signed-number token: everything after an optional
/// leading sign character.
pub open spec fn number_digits(s: Seq<char>) -> Seq<char> {
    if s.len() > 0 && (s[0] == '-' || s[0] == '+') {
        s.drop_first()
    } else {
        s
    }
}

/// Whether the token denotes a negative number: it starts with a minus sign.
pub open spec fn number_is_negative(s: Seq<char>) -> bool {
    s.len() > 0 && s[0] == '-'
}

/// Whether `s` parses as a signed 64-bit integer: an optional sign, at least
/// one digit, and a value that fits.
pub open spec fn is_i64_seq(s: Seq<char>) -> bool {
    &&& number_digits(s).len() > 0
    &&& all_digits(number_digits(s))
    &&& if number_is_negative(s) {
        digits_val(number_digits(s)) <= 0x8000000000000000
    } else {
        digits_val(number_digits(s)) < 0x8000000000000000
    }
}

/// The signed value denoted by `s`.
pub open spec fn i64_seq_val(s: Seq<char>) -> int {
    if number_is_negative(s) {
        -(digits_val(number_digits(s)) as int)
    } else {
        digits_val(number_digits(s)) as int
    }
}

/// Whether `i` is the position of the single space of `s`: the character at
/// `i` is a space and no other character is one.
pub open spec fn is_single_space_at(s: Seq<char>, i: int) -> bool {
    &&& 0 <= i < s.len()
    &&& s[i] == ' '
    &&& forall|j: int| 0 <= j < s.len() && j != i ==> s[j] != ' '
}

/// Whether `s` splits into exactly two space-separated tokens, that is,
/// holds exactly one space.
pub open spec fn has_two_tokens(s: Seq<char>) -> bool {
    exists|i: int| is_single_space_at(s, i)
}

/// The position of the single space of `s`.
pub open spec fn split_point(s: Seq<char>) -> int {
    choose|i: int| is_single_space_at(s, i)
}

/// The numeric token: everything before the single space.
pub open spec fn numeric_token(s: Seq<char>) -> Seq<char> {
    s.subrange(0, split_point(s))
}

/// The symbol token: everything after the single space.
pub open spec fn symbol_token(s: Seq<char>) -> Seq<char> {
    s.subrange(split_point(s) + 1, s.len() as int)
}

/// `s` with every decimal point removed.
pub open spec fn strip_dots(s: Seq<char>) -> Seq<char>
    decreases s.len(),
{
    if s.len() == 0 {
        Seq::empty()
    } else if s.last() == '.' {
        strip_dots(s.drop_last())
    } else {
        strip_dots(s.drop_last()).push(s.last())
    }
}

/// Whether `i` is the position of the first decimal point of `s`.
pub open spec fn is_first_dot(s: Seq<char>, i: int) -> bool {
    &&& 0 <= i < s.len()
    &&& s[i] == '.'
    &&& forall|j: int| 0 <= j < i ==> s[j] != '.'
}

/// Whether `s` holds a decimal point.
pub open spec fn has_dot(s: Seq<char>) -> bool {
    exists|i: int| is_first_dot(s, i)
}

/// The position of the first decimal point of `s`.
pub open spec fn first_dot(s: Seq<char>) -> int {
    choose|i: int| is_first_dot(s, i)
}

/// The precision a numeric token declares: the number of characters after
/// its first decimal point, reduced to a byte, or zero when it has no
/// decimal point.
pub open spec fn token_precision(s: Seq<char>) -> nat {
    if has_dot(s) {
        ((s.len() - first_dot(s) - 1) % 256) as nat
    } else {
        0
    }
}

/// The whole part the codec prints: `|amount| / 10^min(precision, 18)`.
pub open spec fn whole_magnitude(amount: int, precision: nat) -> nat {
    abs_val(amount) / pow10(clamped(precision))
}

/// The fractional digits printed for a magnitude: position `i`, counted
/// from the left, shows decimal digit `min(precision - 1 - i, 18)` of the
/// magnitude.
pub open spec fn frac_digits_of(mag: nat, precision: nat) -> Seq<char> {
    Seq::new(precision, |i: int| digit_char((mag / pow10(clamped((precision - 1 - i) as nat))) % 10))
}

/// The fractional digits the codec prints for an amount.
pub open spec fn frac_chars(amount: int, precision: nat) -> Seq<char> {
    frac_digits_of(abs_val(amount), precision)
}

/// The numeric token the codec prints. The minus sign appears exactly when
/// the amount is negative and its truncated whole part is nonzero.
pub open spec fn numeric_chars(amount: int, precision: nat) -> Seq<char> {
    let sign = if amount < 0 && whole_magnitude(amount, precision) > 0 {
        seq!['-']
    } else {
        Seq::<char>::empty()
    };
    let whole = sign + dec_digits(whole_magnitude(amount, precision));
    if precision == 0 {
        whole
    } else {
        whole + seq!['.'] + frac_chars(amount, precision)
    }
}

/// The full canonical text of an asset: the numeric token, one space, and
/// the symbol-code characters.
pub open spec fn encoded_chars(amount: int, precision: nat, code: Seq<char>) -> Seq<char> {
    numeric_chars(amount, precision) + seq![' '] + code
}

/// Relies on `String::push`: appends the given character to the end of the
/// string.
#[verifier::external_body]
pub(crate) fn push_char(s: &mut String, c: char)
    ensures
        final(s)@ == old(s)@.push(c),
{
    s.push(c);
}

/// Powers of ten are positive.
pub proof fn lemma_pow10_pos(e: nat)
    ensures
        pow10(e) >= 1,
    decreases e,
{
    if e > 0 {
        lemma_pow10_pos((e - 1) as nat);
    }
}

/// Powers of ten grow with the exponent.
pub proof fn lemma_pow10_increases(a: nat, b: nat)
    requires
        a <= b,
    ensures
        pow10(a) <= pow10(b),
    decreases b,
{
    if a < b {
        lemma_pow10_increases(a, (b - 1) as nat);
        lemma_pow10_pos((b - 1) as nat);
    }
}

/// The largest power of ten the codec takes at run time.
pub proof fn lemma_pow10_max_exponent()
    ensures
        pow10(MAX_EXPONENT as nat) == 1000000000000000000,
{
    reveal_with_fuel(pow10, 19);
}

/// Ten to the power `e`, computed at run time; `e` stays at most
/// [`MAX_EXPONENT`] so the result fits a 64-bit integer.
pub fn pow10_u64(e: u8) -> (r: u64)
    requires
        e <= MAX_EXPONENT,
    ensures
        r as nat == pow10(e as nat),
{
    let mut r: u64 = 1;
    let mut j: u8 = 0;
    while j < e
        invariant
            j <= e,
            e <= MAX_EXPONENT,
            r as nat == pow10(j as nat),
        decreases e - j,
    {
        proof {
            lemma_pow10_increases((j + 1) as nat, MAX_EXPONENT as nat);
            lemma_pow10_max_exponent();
        }
        r = r * 10;
        j += 1;
    }
    r
}

/// Concatenating digit runs weighs the left run by ten to the length of the
/// right one.
pub proof fn lemma_digits_val_concat(a: Seq<char>, b: Seq<char>)
    ensures
        digits_val(a + b) == digits_val(a) * pow10(b.len()) + digits_val(b),
    decreases b.len(),
{
    if b.len() == 0 {
        assert(a + b =~= a);
        assert(pow10(b.len()) == 1);
        assert(digits_val(b) == 0);
        assert(digits_val(a) * 1 == digits_val(a)) by (nonlinear_arith);
        assert(digits_val(a + b) == digits_val(a) * pow10(b.len()) + digits_val(b));
    } else {
        lemma_digits_val_concat(a, b.drop_last());
        assert((a + b).drop_last() =~= a + b.drop_last());
        let x = digits_val(a);
        let p = pow10((b.len() - 1) as nat);
        assert(pow10(b.len()) == 10 * p);
        assert(digits_val(a + b) == digits_val(a + b.drop_last()) * 10 + digit_value(b.last()));
        assert(digits_val(a + b.drop_last()) == x * p + digits_val(b.drop_last()));
        assert((x * p + digits_val(b.drop_last())) * 10 == x * p * 10 + digits_val(b.drop_last())
            * 10) by (nonlinear_arith);
        assert(x * p * 10 == x * (10 * p)) by (nonlinear_arith);
        assert(digits_val(b) == digits_val(b.drop_last()) * 10 + digit_value(b.last()));
        assert(digits_val(a + b) == digits_val(a + b.drop_last()) * 10 + digit_value(b.last()));
        assert(digits_val(a + b) == (x * p + digits_val(b.drop_last())) * 10 + digit_value(
            b.last(),
        ));
        assert(digits_val(a + b) == x * (10 * p) + digits_val(b));
        assert(digits_val(a + b) == digits_val(a) * pow10(b.len()) + digits_val(b));
    }
}

/// A prefix of a digit run never denotes more than the whole run.
pub proof fn lemma_digits_val_prefix(a: Seq<char>, k: int)
    requires
        0 <= k <= a.len(),
    ensures
        digits_val(a.subrange(0, k)) <= digits_val(a),
{
    let pre = a.subrange(0, k);
    let suf = a.subrange(k, a.len() as int);
    assert(a =~= pre + suf);
    lemma_digits_val_concat(pre, suf);
    lemma_pow10_pos(suf.len());
    assert(digits_val(pre) * pow10(suf.len()) >= digits_val(pre) * 1) by (nonlinear_arith)
        requires
            pow10(suf.len()) >= 1,
    ;
}

/// Digit characters denote their digit.
pub proof fn lemma_digit_char_value(d: nat)
    requires
        d < 10,
    ensures
        is_digit_char(digit_char(d)),
        digit_value(digit_char(d)) == d,
{
}

/// The decimal rendering of a number is nonempty, consists of digits, and
/// denotes the number.
pub proof fn lemma_dec_digits(n: nat)
    ensures
        dec_digits(n).len() >= 1,
        all_digits(dec_digits(n)),
        digits_val(dec_digits(n)) == n,
    decreases n,
{
    if n < 10 {
        lemma_digit_char_value(n);
        reveal_with_fuel(digits_val, 2);
        assert(dec_digits(n).drop_last() =~= Seq::<char>::empty());
        assert(digits_val(dec_digits(n)) == digit_value(digit_char(n)));
    } else {
        lemma_dec_digits(n / 10);
        lemma_digit_char_value(n % 10);
        let pre = dec_digits(n / 10);
        let c = digit_char(n % 10);
        assert(pre.push(c).drop_last() =~= pre);
        assert(pre.push(c).last() == c);
        assert(digits_val(pre.push(c)) == digits_val(pre) * 10 + digit_value(c));
        assert(digits_val(dec_digits(n)) == (n / 10) * 10 + n % 10);
        assert(forall|i: int|
            0 <= i < pre.push(c).len() ==> is_digit_char(#[trigger] pre.push(c)[i]));
    }
}

/// Peeling the last fractional digit: the digits of a magnitude at a
/// positive precision are those of a tenth of it, one shorter, followed by
/// its final decimal digit.
proof fn lemma_frac_digits_peel(mag: nat, p: nat)
    requires
        1 <= p <= MAX_EXPONENT,
    ensures
        frac_digits_of(mag, p) == frac_digits_of(mag / 10, (p - 1) as nat).push(
            digit_char(mag % 10),
        ),
{
    let lhs = frac_digits_of(mag, p);
    let rhs = frac_digits_of(mag / 10, (p - 1) as nat).push(digit_char(mag % 10));
    assert forall|i: int| 0 <= i < p implies lhs[i] == rhs[i] by {
        if i < p - 1 {
            let e = (p - 2 - i) as nat;
            lemma_pow10_pos(e);
            vstd::arithmetic::div_mod::lemma_div_denominator(mag as int, 10, pow10(e) as int);
            assert(pow10((p - 1 - i) as nat) == 10 * pow10(e));
            assert((mag / 10) / pow10(e) == mag / pow10((p - 1 - i) as nat));
        } else {
            assert(pow10(clamped((p - 1 - i) as nat)) == 1);
            assert(mag as int / 1 == mag as int);
        }
    }
    assert(lhs =~= rhs);
}

/// The fractional digits of a magnitude denote it, reduced modulo ten to
/// the precision.
pub proof fn lemma_frac_digits_val(mag: nat, p: nat)
    requires
        1 <= p <= MAX_EXPONENT,
    ensures
        frac_digits_of(mag, p).len() == p,
        all_digits(frac_digits_of(mag, p)),
        digits_val(frac_digits_of(mag, p)) == mag % pow10(p),
    decreases p,
{
    if p == 1 {
        lemma_digit_char_value(mag % 10);
        reveal_with_fuel(digits_val, 2);
        let f = frac_digits_of(mag, 1);
        assert(f.drop_last() =~= Seq::<char>::empty());
        assert(pow10(clamped(0)) == 1);
        assert(mag as int / 1 == mag as int);
        assert(f.last() == digit_char(mag % 10));
        assert(digits_val(f) == digit_value(digit_char(mag % 10)));
        assert(pow10(1) == 10);
    } else {
        lemma_frac_digits_val(mag / 10, (p - 1) as nat);
        lemma_frac_digits_peel(mag, p);
        lemma_digit_char_value(mag % 10);
        let pre = frac_digits_of(mag / 10, (p - 1) as nat);
        let c = digit_char(mag % 10);
        let f = frac_digits_of(mag, p);
        assert(f.drop_last() =~= pre);
        assert(f.last() == c);
        assert(digits_val(f) == digits_val(pre) * 10 + digit_value(c));
        lemma_pow10_pos((p - 1) as nat);
        vstd::arithmetic::div_mod::lemma_breakdown(mag as int, 10, pow10((p - 1) as nat) as int);
        assert(pow10(p) == 10 * pow10((p - 1) as nat));
        assert(forall|i: int| 0 <= i < f.len() ==> is_digit_char(#[trigger] f[i]));
    }
}

/// Removing decimal points leaves dot-free text unchanged.
pub proof fn lemma_strip_dots_id(s: Seq<char>)
    requires
        forall|i: int| 0 <= i < s.len() ==> s[i] != '.',
    ensures
        strip_dots(s) == s,
    decreases s.len(),
{
    if s.len() == 0 {
        assert(strip_dots(s) =~= s);
    } else {
        lemma_strip_dots_id(s.drop_last());
        assert(strip_dots(s.drop_last()).push(s.last()) =~= s);
    }
}

/// Removing decimal points distributes over concatenation.
pub proof fn lemma_strip_dots_concat(a: Seq<char>, b: Seq<char>)
    ensures
        strip_dots(a + b) == strip_dots(a) + strip_dots(b),
    decreases b.len(),
{
    if b.len() == 0 {
        assert(a + b =~= a);
        assert(strip_dots(a) + strip_dots(b) =~= strip_dots(a));
    } else {
        lemma_strip_dots_concat(a, b.drop_last());
        assert((a + b).drop_last() =~= a + b.drop_last());
        assert((a + b).last() == b.last());
        if b.last() == '.' {
            assert(strip_dots(b) == strip_dots(b.drop_last()));
        } else {
            assert(strip_dots(a) + strip_dots(b.drop_last()).push(b.last()) =~= (strip_dots(a)
                + strip_dots(b.drop_last())).push(b.last()));
        }
    }
}

/// A position seen to be the first decimal point is the one the parser's
/// model speaks of.
pub proof fn lemma_first_dot_at(s: Seq<char>, i: int)
    requires
        is_first_dot(s, i),
    ensures
        has_dot(s),
        first_dot(s) == i,
{
    let w = first_dot(s);
    assert(is_first_dot(s, w));
    if w < i {
        assert(s[w] != '.');
    } else if w > i {
        assert(s[i] != '.');
    }
}

/// A position seen to hold the only space is the split point the parser's
/// model speaks of.
pub proof fn lemma_single_space_at(s: Seq<char>, i: int)
    requires
        is_single_space_at(s, i),
    ensures
        has_two_tokens(s),
        split_point(s) == i,
{
    let w = split_point(s);
    assert(is_single_space_at(s, w));
    if w != i {
        assert(s[w] != ' ');
    }
}

} // verus!
