//! The asset value type: a signed 64-bit amount scaled by its symbol's
//! precision, with range validation and a checked arithmetic and comparison
//! set that refuses to combine values carrying different symbols.

use vstd::prelude::*;

use crate::codec::abs_val;
use crate::codec::all_digits;
use crate::codec::clamped;
use crate::codec::dec_digits;
use crate::codec::digit_char;
use crate::codec::digit_value;
use crate::codec::digits_val;
use crate::codec::encoded_chars;
use crate::codec::first_dot;
use crate::codec::frac_chars;
use crate::codec::has_dot;
use crate::codec::has_two_tokens;
use crate::codec::i64_seq_val;
use crate::codec::is_digit_char;
use crate::codec::is_first_dot;
use crate::codec::is_i64_seq;
use crate::codec::is_single_space_at;
use crate::codec::frac_digits_of;
use crate::codec::lemma_dec_digits;
use crate::codec::lemma_digits_val_concat;
use crate::codec::lemma_first_dot_at;
use crate::codec::lemma_frac_digits_val;
use crate::codec::lemma_pow10_pos;
use crate::codec::lemma_single_space_at;
use crate::codec::lemma_strip_dots_concat;
use crate::codec::lemma_strip_dots_id;
use crate::codec::number_digits;
use crate::codec::number_is_negative;
use crate::codec::numeric_chars;
use crate::codec::numeric_token;
use crate::codec::pow10;
use crate::codec::pow10_u64;
use crate::codec::push_char;
use crate::codec::strip_dots;
use crate::codec::symbol_token;
use crate::codec::token_precision;
use crate::codec::whole_magnitude;
use crate::codec::MAX_EXPONENT;
use crate::errors::AssetError;
use crate::errors::ParseError;
use crate::symbol::code_chars;
use crate::symbol::chars_code;
use crate::symbol::is_code_char;
use crate::symbol::is_code_seq;
use crate::symbol::lemma_chars_code_of_code_chars;
use crate::symbol::Symbol;
use crate::symbol::SymbolCode;
use vstd::string::StrSliceExecFns;
use vstd::string::StringExecFns;

verus! {

/// Largest magnitude an asset amount may take: `2^62 - 1`. The two spare
/// bits of headroom let intermediate products be range-checked in a wider
/// type without ambiguity at the boundary.
pub const MAX_AMOUNT: i64 = 4611686018427387903;

/// Whether an amount lies within the allowed range.
pub open spec fn spec_within_range(amount: int) -> bool {
    -MAX_AMOUNT <= amount <= MAX_AMOUNT
}

/// The quotient of `a` by `b`, truncated toward zero (meaningful for
/// `b != 0`).
pub open spec fn trunc_div(a: int, b: int) -> int {
    if (a < 0) == (b < 0) {
        (abs_val(a) / abs_val(b)) as int
    } else {
        -((abs_val(a) / abs_val(b)) as int)
    }
}

/// A ledger quantity: an amount of `10^-precision` units of the symbol's
/// currency.
#[derive(Debug, Clone, Copy)]
pub struct Asset {
    /// The amount, scaled by ten to the symbol's precision.
    pub amount: i64,
    /// The unit of account; every arithmetic or comparison partner must
    /// carry an identical one.
    pub symbol: Symbol,
}

impl Asset {
    /// Whether the amount lies within `±MAX_AMOUNT`.
    pub open spec fn spec_is_amount_within_range(self) -> bool {
        spec_within_range(self.amount as int)
    }

    /// Whether the asset is valid: amount in range and symbol valid.
    pub open spec fn spec_is_valid(self) -> bool {
        self.spec_is_amount_within_range() && self.symbol.spec_is_valid()
    }

    /// The zero asset with the empty symbol.
    pub fn new() -> (a: Asset)
        ensures
            a.amount == 0,
            a.symbol.code.value == 0,
            a.symbol.precision == 0,
    {
        Asset { amount: 0, symbol: Symbol::new() }
    }

    /// Build an asset from an amount and a symbol. Nothing is checked here:
    /// validity is a query, not a construction gate.
    pub fn from_amount(amount: i64, symbol: Symbol) -> (a: Asset)
        ensures
            a.amount == amount,
            a.symbol == symbol,
    {
        Asset { amount, symbol }
    }

    /// Whether the amount lies within `±MAX_AMOUNT`.
    pub fn is_amount_within_range(&self) -> (b: bool)
        ensures
            b == self.spec_is_amount_within_range(),
    {
        -MAX_AMOUNT <= self.amount && self.amount <= MAX_AMOUNT
    }

    /// Whether the asset is valid: its amount is in range and its symbol's
    /// code is well formed.
    pub fn is_valid(&self) -> (b: bool)
        ensures
            b == self.spec_is_valid(),
    {
        self.is_amount_within_range() && self.symbol.is_valid()
    }

    /// Replace the amount. This is the one mutation choke point after
    /// construction, so the new amount must lie within range.
    pub fn set_amount(&mut self, amount: i64)
        requires
            spec_within_range(amount as int),
        ensures
            final(self).amount == amount,
            final(self).symbol == old(self).symbol,
    {
        self.amount = amount;
    }

    /// The asset with the negated amount. The allowed range is symmetric,
    /// so negation cannot leave it; only the unrepresentable negation of
    /// `i64::MIN` is excluded.
    pub fn neg(&self) -> (r: Asset)
        requires
            self.amount != i64::MIN,
        ensures
            r.amount == -self.amount,
            r.symbol == self.symbol,
    {
        Asset { amount: -self.amount, symbol: self.symbol }
    }

    /// Add another asset's amount into this one. Both operands must carry
    /// the same symbol and the sum must stay in range.
    pub fn add_assign(&mut self, other: &Asset)
        requires
            old(self).symbol == other.symbol,
            spec_within_range(old(self).amount + other.amount),
        ensures
            final(self).amount == old(self).amount + other.amount,
            final(self).symbol == old(self).symbol,
    {
        self.amount = self.amount + other.amount;
    }

    /// Subtract another asset's amount from this one. Both operands must
    /// carry the same symbol and the difference must stay in range.
    pub fn sub_assign(&mut self, other: &Asset)
        requires
            old(self).symbol == other.symbol,
            spec_within_range(old(self).amount - other.amount),
        ensures
            final(self).amount == old(self).amount - other.amount,
            final(self).symbol == old(self).symbol,
    {
        self.amount = self.amount - other.amount;
    }

    /// Scale this asset's amount by an integer. The product must stay in
    /// range; the symbol is untouched and need not match anything.
    pub fn mul_assign(&mut self, rhs: i64)
        requires
            spec_within_range(old(self).amount * rhs),
        ensures
            final(self).amount == old(self).amount * rhs,
            final(self).symbol == old(self).symbol,
    {
        self.amount = self.amount * rhs;
    }

    /// Divide this asset's amount by an integer, truncating toward zero.
    /// The divisor must be nonzero, and dividing the minimum representable
    /// amount by minus one is excluded as unrepresentable.
    pub fn div_assign(&mut self, rhs: i64)
        requires
            rhs != 0,
            !(old(self).amount == i64::MIN && rhs == -1),
        ensures
            final(self).amount == trunc_div(old(self).amount as int, rhs as int),
            final(self).symbol == old(self).symbol,
    {
        self.amount = div_trunc(self.amount, rhs);
    }

    /// Sum of two assets: `Ok` exactly when the symbols match and the sum
    /// stays in range, the matching tagged failure otherwise.
    pub fn add(&self, other: &Asset) -> (r: Result<Asset, AssetError>)
        ensures
            self.symbol != other.symbol ==> r == Err::<Asset, AssetError>(
                AssetError::SymbolMismatch,
            ),
            self.symbol == other.symbol && self.amount + other.amount > MAX_AMOUNT ==> r == Err::<
                Asset,
                AssetError,
            >(AssetError::Overflow),
            self.symbol == other.symbol && self.amount + other.amount < -MAX_AMOUNT ==> r == Err::<
                Asset,
                AssetError,
            >(AssetError::Underflow),
            self.symbol == other.symbol && spec_within_range(self.amount + other.amount) ==> (
            r matches Ok(v) && v.amount == self.amount + other.amount && v.symbol == self.symbol),
    {
        if !(self.symbol == other.symbol) {
            return Err(AssetError::SymbolMismatch);
        }
        let sum: i128 = (self.amount as i128) + (other.amount as i128);
        if sum > MAX_AMOUNT as i128 {
            Err(AssetError::Overflow)
        } else if sum < -(MAX_AMOUNT as i128) {
            Err(AssetError::Underflow)
        } else {
            let mut result = *self;
            result.add_assign(other);
            Ok(result)
        }
    }

    /// Difference of two assets: `Ok` exactly when the symbols match and
    /// the difference stays in range, the matching tagged failure otherwise.
    pub fn sub(&self, other: &Asset) -> (r: Result<Asset, AssetError>)
        ensures
            self.symbol != other.symbol ==> r == Err::<Asset, AssetError>(
                AssetError::SymbolMismatch,
            ),
            self.symbol == other.symbol && self.amount - other.amount > MAX_AMOUNT ==> r == Err::<
                Asset,
                AssetError,
            >(AssetError::Overflow),
            self.symbol == other.symbol && self.amount - other.amount < -MAX_AMOUNT ==> r == Err::<
                Asset,
                AssetError,
            >(AssetError::Underflow),
            self.symbol == other.symbol && spec_within_range(self.amount - other.amount) ==> (
            r matches Ok(v) && v.amount == self.amount - other.amount && v.symbol == self.symbol),
    {
        if !(self.symbol == other.symbol) {
            return Err(AssetError::SymbolMismatch);
        }
        let diff: i128 = (self.amount as i128) - (other.amount as i128);
        if diff > MAX_AMOUNT as i128 {
            Err(AssetError::Overflow)
        } else if diff < -(MAX_AMOUNT as i128) {
            Err(AssetError::Underflow)
        } else {
            let mut result = *self;
            result.sub_assign(other);
            Ok(result)
        }
    }

    /// Product of an asset and an integer scalar, range-checked in a wider
    /// intermediate before narrowing: `Ok` exactly when the product stays in
    /// range.
    pub fn mul(&self, rhs: i64) -> (r: Result<Asset, AssetError>)
        ensures
            self.amount * rhs > MAX_AMOUNT ==> r == Err::<Asset, AssetError>(AssetError::Overflow),
            self.amount * rhs < -MAX_AMOUNT ==> r == Err::<Asset, AssetError>(
                AssetError::Underflow,
            ),
            spec_within_range(self.amount * rhs) ==> (r matches Ok(v) && v.amount == self.amount
                * rhs && v.symbol == self.symbol),
    {
        proof {
            lemma_product_fits_i128(self.amount, rhs);
        }
        let product: i128 = (self.amount as i128) * (rhs as i128);
        if product > MAX_AMOUNT as i128 {
            Err(AssetError::Overflow)
        } else if product < -(MAX_AMOUNT as i128) {
            Err(AssetError::Underflow)
        } else {
            let mut result = *self;
            result.mul_assign(rhs);
            Ok(result)
        }
    }

    /// Quotient of an asset by an integer scalar, truncated toward zero:
    /// `Ok` unless the scalar is zero or the quotient is unrepresentable.
    pub fn div(&self, rhs: i64) -> (r: Result<Asset, AssetError>)
        ensures
            rhs == 0 ==> r == Err::<Asset, AssetError>(AssetError::DivideByZero),
            rhs != 0 && self.amount == i64::MIN && rhs == -1 ==> r == Err::<Asset, AssetError>(
                AssetError::DivisionOverflow,
            ),
            rhs != 0 && !(self.amount == i64::MIN && rhs == -1) ==> (r matches Ok(v) && v.amount
                == trunc_div(self.amount as int, rhs as int) && v.symbol == self.symbol),
    {
        if rhs == 0 {
            return Err(AssetError::DivideByZero);
        }
        if self.amount == i64::MIN && rhs == -1 {
            return Err(AssetError::DivisionOverflow);
        }
        let mut result = *self;
        result.div_assign(rhs);
        Ok(result)
    }

    /// Integer ratio of two assets' amounts, truncated toward zero — a
    /// plain number, not a new asset: `Ok` exactly when the divisor's amount
    /// is nonzero, the symbols match and the quotient is representable.
    pub fn ratio(&self, other: &Asset) -> (r: Result<i64, AssetError>)
        ensures
            other.amount == 0 ==> r == Err::<i64, AssetError>(AssetError::DivideByZero),
            other.amount != 0 && self.symbol != other.symbol ==> r == Err::<i64, AssetError>(
                AssetError::SymbolMismatch,
            ),
            other.amount != 0 && self.symbol == other.symbol && self.amount == i64::MIN
                && other.amount == -1 ==> r == Err::<i64, AssetError>(AssetError::DivisionOverflow),
            other.amount != 0 && self.symbol == other.symbol && !(self.amount == i64::MIN
                && other.amount == -1) ==> (r matches Ok(q) && q == trunc_div(
                self.amount as int,
                other.amount as int,
            )),
    {
        if other.amount == 0 {
            return Err(AssetError::DivideByZero);
        }
        if !(self.symbol == other.symbol) {
            return Err(AssetError::SymbolMismatch);
        }
        if self.amount == i64::MIN && other.amount == -1 {
            return Err(AssetError::DivisionOverflow);
        }
        Ok(div_trunc(self.amount, other.amount))
    }

    /// Render the asset in its canonical text form: the numeric token, one
    /// space, and the symbol code's letters. Rendering never fails; digit
    /// exponents are clamped at [`MAX_EXPONENT`] so every power of ten taken
    /// fits 64 bits, whatever precision the symbol declares.
    pub fn to_string(&self) -> (r: String)
        ensures
            r@ == encoded_chars(
                self.amount as int,
                self.symbol.precision as nat,
                code_chars(self.symbol.code.value as nat),
            ),
    {
        let amount = self.amount;
        let precision = self.symbol.precision;
        let ghost amt: int = amount as int;
        let ghost prec: nat = precision as nat;
        let mut out = String::new();
        let mag: u64 = if amount == i64::MIN {
            9223372036854775808u64
        } else if amount < 0 {
            (-amount) as u64
        } else {
            amount as u64
        };
        let e: u8 = if precision <= MAX_EXPONENT {
            precision
        } else {
            MAX_EXPONENT
        };
        let p10: u64 = pow10_u64(e);
        proof {
            assert(mag as nat == abs_val(amt));
            assert(e as nat == clamped(prec));
            crate::codec::lemma_pow10_pos(clamped(prec));
        }
        let whole: u64 = mag / p10;
        proof {
            assert(whole as nat == whole_magnitude(amt, prec));
        }
        if amount < 0 && whole > 0 {
            push_char(&mut out, '-');
        }
        push_dec_digits(&mut out, whole);
        if precision > 0 {
            push_char(&mut out, '.');
            let ghost base: Seq<char> = out@;
            let mut i: u8 = 0;
            while i < precision
                invariant
                    i <= precision,
                    prec == precision as nat,
                    mag as nat == abs_val(amt),
                    out@ == base + frac_chars(amt, prec).subrange(0, i as int),
                decreases precision - i,
            {
                let pos: u8 = precision - 1 - i;
                let ee: u8 = if pos <= MAX_EXPONENT {
                    pos
                } else {
                    MAX_EXPONENT
                };
                let q10: u64 = pow10_u64(ee);
                proof {
                    crate::codec::lemma_pow10_pos(ee as nat);
                    assert(ee as nat == clamped((prec - 1 - i) as nat));
                }
                let d: u64 = (mag / q10) % 10;
                push_char(&mut out, (48 + d as u8) as char);
                proof {
                    assert((48 + d as u8) as char == frac_chars(amt, prec)[i as int]);
                    assert(out@ =~= base + frac_chars(amt, prec).subrange(0, i + 1));
                }
                i += 1;
            }
            proof {
                assert(frac_chars(amt, prec).subrange(0, prec as int) =~= frac_chars(amt, prec));
            }
        }
        push_char(&mut out, ' ');
        let code_text = self.symbol.code.to_string();
        out.append(code_text.as_str());
        proof {
            assert(out@ =~= encoded_chars(amt, prec, code_chars(self.symbol.code.value as nat)));
        }
        out
    }

    /// Decode an asset from its canonical text form, `"amount CODE"`.
    ///
    /// The input must hold exactly one space. The precision is the number
    /// of characters after the numeric token's first decimal point; the
    /// amount is the token with its decimal points removed, read as a
    /// signed 64-bit integer; the symbol token must be one to seven
    /// uppercase letters. Nothing else is checked: decoding succeeds even
    /// for an out-of-range amount, range being a separate query.
    pub fn from_str(s: &str) -> (r: Result<Asset, ParseError>)
        ensures
            !has_two_tokens(s@) ==> (r matches Err(e) && e == ParseError::BadFormat),
            has_two_tokens(s@) && !is_i64_seq(strip_dots(numeric_token(s@))) ==> (r matches Err(e)
                && e matches ParseError::BadAmount(t) && t@ == numeric_token(s@)),
            has_two_tokens(s@) && is_i64_seq(strip_dots(numeric_token(s@))) && !is_code_seq(
                symbol_token(s@),
            ) ==> (r matches Err(e) && e matches ParseError::BadSymbolCode(t) && t@ == symbol_token(
                s@,
            )),
            has_two_tokens(s@) && is_i64_seq(strip_dots(numeric_token(s@))) && is_code_seq(
                symbol_token(s@),
            ) ==> (r matches Ok(a) && a.amount as int == i64_seq_val(strip_dots(numeric_token(s@)))
                && a.symbol.precision as nat == token_precision(numeric_token(s@))
                && a.symbol.code.value as nat == chars_code(symbol_token(s@))),
    {
        let n = s.unicode_len();
        let mut i: usize = 0;
        let mut found: bool = false;
        let mut sp: usize = 0;
        while i < n
            invariant
                n == s@.len(),
                i <= n,
                !found ==> forall|j: int| 0 <= j < i ==> s@[j] != ' ',
                found ==> sp < i && s@[sp as int] == ' ' && (forall|j: int|
                    0 <= j < i && j != sp ==> s@[j] != ' '),
            decreases n - i,
        {
            let c = s.get_char(i);
            if c == ' ' {
                if found {
                    proof {
                        assert forall|k: int| !is_single_space_at(s@, k) by {
                            if is_single_space_at(s@, k) {
                                assert(s@[sp as int] == ' ');
                                assert(s@[i as int] == ' ');
                            }
                        }
                    }
                    return Err(ParseError::BadFormat);
                }
                found = true;
                sp = i;
            }
            i += 1;
        }
        if !found {
            proof {
                assert forall|k: int| !is_single_space_at(s@, k) by {
                    if is_single_space_at(s@, k) {
                        assert(s@[k] != ' ');
                    }
                }
            }
            return Err(ParseError::BadFormat);
        }
        proof {
            lemma_single_space_at(s@, sp as int);
        }
        let num = s.substring_char(0, sp);
        let sym = s.substring_char(sp + 1, n);
        proof {
            assert(num@ == numeric_token(s@));
            assert(sym@ == symbol_token(s@));
        }
        let amount = match parse_amount(num) {
            Some(a) => a,
            None => {
                return Err(ParseError::BadAmount(num.to_owned()));
            },
        };
        let code = match SymbolCode::parse(sym) {
            Some(c) => c,
            None => {
                return Err(ParseError::BadSymbolCode(sym.to_owned()));
            },
        };
        let precision = token_precision_exec(num);
        Ok(Asset::from_amount(amount, Symbol::from_precision(code, precision)))
    }

    /// Whether two assets of the same symbol hold the same amount:
    /// comparing across symbols is refused.
    pub fn eq(&self, other: &Asset) -> (r: Result<bool, AssetError>)
        ensures
            r == (if self.symbol == other.symbol {
                Ok::<bool, AssetError>(self.amount == other.amount)
            } else {
                Err::<bool, AssetError>(AssetError::SymbolMismatch)
            }),
    {
        if self.symbol == other.symbol {
            Ok(self.amount == other.amount)
        } else {
            Err(AssetError::SymbolMismatch)
        }
    }

    /// Whether this asset's amount is less than the other's; comparing
    /// across symbols is refused.
    pub fn lt(&self, other: &Asset) -> (r: Result<bool, AssetError>)
        ensures
            r == (if self.symbol == other.symbol {
                Ok::<bool, AssetError>(self.amount < other.amount)
            } else {
                Err::<bool, AssetError>(AssetError::SymbolMismatch)
            }),
    {
        if self.symbol == other.symbol {
            Ok(self.amount < other.amount)
        } else {
            Err(AssetError::SymbolMismatch)
        }
    }

    /// Whether this asset's amount is at most the other's; comparing across
    /// symbols is refused.
    pub fn le(&self, other: &Asset) -> (r: Result<bool, AssetError>)
        ensures
            r == (if self.symbol == other.symbol {
                Ok::<bool, AssetError>(self.amount <= other.amount)
            } else {
                Err::<bool, AssetError>(AssetError::SymbolMismatch)
            }),
    {
        if self.symbol == other.symbol {
            Ok(self.amount <= other.amount)
        } else {
            Err(AssetError::SymbolMismatch)
        }
    }

    /// Whether this asset's amount exceeds the other's; comparing across
    /// symbols is refused.
    pub fn gt(&self, other: &Asset) -> (r: Result<bool, AssetError>)
        ensures
            r == (if self.symbol == other.symbol {
                Ok::<bool, AssetError>(self.amount > other.amount)
            } else {
                Err::<bool, AssetError>(AssetError::SymbolMismatch)
            }),
    {
        if self.symbol == other.symbol {
            Ok(self.amount > other.amount)
        } else {
            Err(AssetError::SymbolMismatch)
        }
    }

    /// Whether this asset's amount is at least the other's; comparing
    /// across symbols is refused.
    pub fn ge(&self, other: &Asset) -> (r: Result<bool, AssetError>)
        ensures
            r == (if self.symbol == other.symbol {
                Ok::<bool, AssetError>(self.amount >= other.amount)
            } else {
                Err::<bool, AssetError>(AssetError::SymbolMismatch)
            }),
    {
        if self.symbol == other.symbol {
            Ok(self.amount >= other.amount)
        } else {
            Err(AssetError::SymbolMismatch)
        }
    }
}

/// Parse a numeric token: remove every decimal point, then read the rest as
/// a signed 64-bit integer, exactly as the numeric grammar demands.
fn parse_amount(num: &str) -> (r: Option<i64>)
    ensures
        r is Some <==> is_i64_seq(strip_dots(num@)),
        r matches Some(v) ==> v as int == i64_seq_val(strip_dots(num@)),
{
    let n = num.unicode_len();
    let mut stripped: Vec<char> = Vec::new();
    let mut i: usize = 0;
    while i < n
        invariant
            n == num@.len(),
            i <= n,
            stripped@ == strip_dots(num@.subrange(0, i as int)),
        decreases n - i,
    {
        let c = num.get_char(i);
        proof {
            assert(num@.subrange(0, i + 1).drop_last() =~= num@.subrange(0, i as int));
            assert(num@.subrange(0, i + 1).last() == num@[i as int]);
        }
        if c != '.' {
            stripped.push(c);
        }
        i += 1;
    }
    proof {
        assert(num@.subrange(0, n as int) =~= num@);
    }
    let ghost whole: Seq<char> = strip_dots(num@);
    let m = stripped.len();
    if m == 0 {
        return None;
    }
    let first = stripped[0];
    let neg = first == '-';
    let start: usize = if neg || first == '+' {
        1
    } else {
        0
    };
    if m == start {
        return None;
    }
    let ghost digits = number_digits(whole);
    proof {
        assert(digits =~= whole.subrange(start as int, m as int));
    }
    let mut mag: u64 = 0;
    let mut j: usize = start;
    while j < m
        invariant
            m == stripped@.len(),
            whole == strip_dots(num@),
            stripped@ == whole,
            start <= j <= m,
            start <= 1,
            digits == number_digits(whole),
            digits =~= whole.subrange(start as int, m as int),
            forall|k: int| 0 <= k < j - start ==> is_digit_char(#[trigger] digits[k]),
            digits_val(digits.subrange(0, j - start)) <= 9223372036854775808 && mag as nat
                == digits_val(digits.subrange(0, j - start)) || digits_val(
                digits.subrange(0, j - start),
            ) > 9223372036854775808 && mag == 9223372036854775809u64,
        decreases m - j,
    {
        let c = stripped[j];
        if c < '0' || c > '9' {
            proof {
                assert(digits[j - start] == c);
                assert(!is_digit_char(c));
                assert(0 <= j - start < digits.len());
                assert(!crate::codec::all_digits(digits));
                assert(!is_i64_seq(whole));
            }
            return None;
        }
        let d: u64 = (c as u64) - 48;
        proof {
            let pre = digits.subrange(0, j - start);
            let ext = digits.subrange(0, j + 1 - start);
            assert(ext.drop_last() =~= pre);
            assert(ext.last() == digits[j - start]);
            assert(digits_val(ext) == digits_val(pre) * 10 + digit_value(c));
            assert(digit_value(c) == d);
        }
        if mag > 922337203685477580u64 {
            mag = 9223372036854775809u64;
        } else {
            mag = mag * 10 + d;
            if mag > 9223372036854775808u64 {
                mag = 9223372036854775809u64;
            }
        }
        j += 1;
    }
    proof {
        assert(digits.subrange(0, m - start) =~= digits);
    }
    if mag > 9223372036854775808u64 {
        return None;
    }
    if neg {
        if mag == 9223372036854775808u64 {
            Some(i64::MIN)
        } else {
            Some(-(mag as i64))
        }
    } else {
        if mag == 9223372036854775808u64 {
            None
        } else {
            Some(mag as i64)
        }
    }
}

/// The precision a numeric token declares: the number of characters after
/// its first decimal point, reduced to a byte, or zero without one.
fn token_precision_exec(num: &str) -> (p: u8)
    ensures
        p as nat == token_precision(num@),
{
    let n = num.unicode_len();
    let mut i: usize = 0;
    while i < n
        invariant
            n == num@.len(),
            i <= n,
            forall|j: int| 0 <= j < i ==> num@[j] != '.',
        decreases n - i,
    {
        let c = num.get_char(i);
        if c == '.' {
            proof {
                lemma_first_dot_at(num@, i as int);
            }
            let raw: usize = n - i - 1;
            return (raw % 256) as u8;
        }
        i += 1;
    }
    proof {
        assert(!has_dot(num@)) by {
            if has_dot(num@) {
                let w = first_dot(num@);
                assert(is_first_dot(num@, w));
                assert(num@[w] != '.');
            }
        }
    }
    0
}

/// Append the decimal digits of `n`, most significant first, to `out`.
fn push_dec_digits(out: &mut String, n: u64)
    ensures
        final(out)@ == old(out)@ + dec_digits(n as nat),
    decreases n,
{
    if n < 10 {
        push_char(out, (48 + n as u8) as char);
        proof {
            assert(out@ =~= old(out)@ + dec_digits(n as nat));
        }
    } else {
        push_dec_digits(out, n / 10);
        push_char(out, (48 + (n % 10) as u8) as char);
        proof {
            assert(dec_digits(n as nat) == dec_digits((n as nat) / 10).push(
                digit_char((n as nat) % 10),
            ));
            assert(out@ =~= old(out)@ + dec_digits(n as nat));
        }
    }
}

/// The product of two 64-bit amounts always fits the 128-bit intermediate.
proof fn lemma_product_fits_i128(x: i64, y: i64)
    ensures
        -0x40000000000000000000000000000000 <= (x as int) * (y as int)
            <= 0x40000000000000000000000000000000,
{
    assert(-0x40000000000000000000000000000000 <= (x as int) * (y as int)
        <= 0x40000000000000000000000000000000) by (nonlinear_arith)
        requires
            -0x8000000000000000 <= x <= 0x7fffffffffffffff,
            -0x8000000000000000 <= y <= 0x7fffffffffffffff,
    ;
}

/// Codec round trip: the canonical text of an asset parses back to exactly
/// its amount, its precision and its code.
///
/// This holds for precisions up to [`MAX_EXPONENT`], amounts within range
/// and a valid symbol code; for a negative amount the truncated whole part
/// must be nonzero (the magnitude at least ten to the precision), since
/// rendering prints no sign in front of a zero whole part.
pub proof fn lemma_codec_round_trip(a: Asset)
    requires
        a.symbol.precision <= MAX_EXPONENT,
        a.spec_is_amount_within_range(),
        a.symbol.spec_is_valid(),
        a.amount >= 0 || abs_val(a.amount as int) >= pow10(a.symbol.precision as nat),
    ensures
        ({
            let s = encoded_chars(
                a.amount as int,
                a.symbol.precision as nat,
                code_chars(a.symbol.code.value as nat),
            );
            &&& has_two_tokens(s)
            &&& is_i64_seq(strip_dots(numeric_token(s)))
            &&& is_code_seq(symbol_token(s))
            &&& i64_seq_val(strip_dots(numeric_token(s))) == a.amount as int
            &&& token_precision(numeric_token(s)) == a.symbol.precision as nat
            &&& chars_code(symbol_token(s)) == a.symbol.code.value as nat
        }),
{
    let amt = a.amount as int;
    let p = a.symbol.precision as nat;
    let mag = abs_val(amt);
    let code = code_chars(a.symbol.code.value as nat);
    let num = numeric_chars(amt, p);
    let s = encoded_chars(amt, p, code);
    let w = whole_magnitude(amt, p);
    let wd = dec_digits(w);
    let sign: Seq<char> = if amt < 0 && w > 0 {
        seq!['-']
    } else {
        Seq::<char>::empty()
    };
    let fd = frac_digits_of(mag, p);
    lemma_dec_digits(w);
    lemma_pow10_pos(p);
    assert(clamped(p) == p);
    if p >= 1 {
        lemma_frac_digits_val(mag, p);
    }
    // The shape of the numeric token.
    if p == 0 {
        assert(num =~= sign + wd);
    } else {
        assert(num =~= sign + wd + seq!['.'] + fd);
    }
    // No character of the numeric token is a space.
    assert forall|j: int| 0 <= j < num.len() implies num[j] != ' ' by {
        if j < sign.len() {
            assert(num[j] == '-');
        } else if j < sign.len() + wd.len() {
            assert(num[j] == wd[j - sign.len()]);
            assert(is_digit_char(num[j]));
        } else if p >= 1 && j == sign.len() + wd.len() {
            assert(num[j] == '.');
        } else {
            assert(num[j] == fd[j - (sign.len() + wd.len() + 1)]);
            assert(is_digit_char(num[j]));
        }
    }
    // The one space of the full text sits between the two tokens.
    assert(s =~= num + seq![' '] + code);
    assert(s[num.len() as int] == ' ');
    assert forall|j: int| 0 <= j < s.len() && j != num.len() implies s[j] != ' ' by {
        if j < num.len() {
            assert(s[j] == num[j]);
        } else {
            assert(s[j] == code[j - num.len() - 1]);
            assert(is_code_char(s[j]));
        }
    }
    assert(is_single_space_at(s, num.len() as int));
    lemma_single_space_at(s, num.len() as int);
    assert(numeric_token(s) =~= num);
    assert(symbol_token(s) =~= code);
    // Stripping the decimal point leaves the sign and the digit runs.
    let d_all = if p == 0 {
        wd
    } else {
        wd + fd
    };
    assert forall|j: int| 0 <= j < (sign + wd).len() implies (sign + wd)[j] != '.' by {
        if j < sign.len() {
            assert((sign + wd)[j] == '-');
        } else {
            assert((sign + wd)[j] == wd[j - sign.len()]);
            assert(is_digit_char((sign + wd)[j]));
        }
    }
    if p == 0 {
        lemma_strip_dots_id(num);
        assert(strip_dots(num) == num);
    } else {
        assert(num =~= (sign + wd) + (seq!['.'] + fd));
        lemma_strip_dots_concat(sign + wd, seq!['.'] + fd);
        lemma_strip_dots_concat(seq!['.'], fd);
        lemma_strip_dots_id(sign + wd);
        assert(forall|i: int| 0 <= i < fd.len() ==> fd[i] != '.') by {
            assert(forall|i: int| 0 <= i < fd.len() ==> is_digit_char(#[trigger] fd[i]));
        }
        lemma_strip_dots_id(fd);
        reveal_with_fuel(strip_dots, 2);
        assert(strip_dots(seq!['.']) =~= Seq::<char>::empty());
        assert(strip_dots(num) =~= sign + d_all);
    }
    let st = strip_dots(num);
    assert(st == sign + d_all);
    assert(d_all.len() >= 1);
    assert forall|j: int| 0 <= j < d_all.len() implies is_digit_char(#[trigger] d_all[j]) by {
        if j < wd.len() {
            assert(d_all[j] == wd[j]);
        } else {
            assert(d_all[j] == fd[j - wd.len()]);
        }
    }
    // The sign and the digit part of the stripped token.
    if sign.len() == 1 {
        assert(st[0] == '-');
        assert(number_is_negative(st));
        assert(number_digits(st) =~= d_all);
    } else {
        assert(st =~= d_all);
        assert(is_digit_char(st[0]));
        assert(st[0] != '-' && st[0] != '+');
        assert(!number_is_negative(st));
        assert(number_digits(st) == st);
    }
    assert(number_digits(st) == d_all);
    // The digit part denotes the magnitude.
    if p == 0 {
        assert(pow10(0) == 1);
        assert(mag as int / 1 == mag as int);
        assert(w == mag);
        assert(digits_val(d_all) == mag);
    } else {
        lemma_digits_val_concat(wd, fd);
        assert(digits_val(d_all) == w * pow10(p) + mag % pow10(p));
        vstd::arithmetic::div_mod::lemma_fundamental_div_mod(mag as int, pow10(p) as int);
        assert(mag == pow10(p) * (mag as int / pow10(p) as int) + mag as int % pow10(p) as int);
        assert(digits_val(d_all) == mag);
    }
    assert(mag <= MAX_AMOUNT);
    // The value comes back with its sign.
    if amt < 0 {
        vstd::arithmetic::div_mod::lemma_div_non_zero(mag as int, pow10(p) as int);
        assert(w > 0);
        assert(sign.len() == 1);
        assert(i64_seq_val(st) == -(mag as int));
        assert(i64_seq_val(st) == amt);
    } else {
        assert(sign.len() == 0);
        assert(i64_seq_val(st) == mag);
        assert(i64_seq_val(st) == amt);
    }
    assert(is_i64_seq(st));
    // The precision comes back from the dot position.
    if p == 0 {
        assert(!has_dot(num)) by {
            if has_dot(num) {
                let wdot = first_dot(num);
                assert(is_first_dot(num, wdot));
                assert(num[wdot] != '.');
            }
        }
        assert(token_precision(num) == 0);
    } else {
        let di = sign.len() + wd.len();
        assert(num[di as int] == '.');
        assert(is_first_dot(num, di as int));
        lemma_first_dot_at(num, di as int);
        assert(num.len() - di - 1 == p);
        vstd::arithmetic::div_mod::lemma_small_mod(p, 256);
        assert(token_precision(num) == p);
    }
    // The code comes back from its letters.
    lemma_chars_code_of_code_chars(a.symbol.code.value as nat);
    assert(chars_code(symbol_token(s)) == a.symbol.code.value as nat);
}

/// Truncating signed division, computed over magnitudes so that every step
/// is visibly free of overflow.
fn div_trunc(a: i64, b: i64) -> (q: i64)
    requires
        b != 0,
        !(a == i64::MIN && b == -1),
    ensures
        q == trunc_div(a as int, b as int),
{
    let negative: bool = (a < 0) != (b < 0);
    let ma: u64 = if a == i64::MIN {
        9223372036854775808u64
    } else if a < 0 {
        (-a) as u64
    } else {
        a as u64
    };
    let mb: u64 = if b == i64::MIN {
        9223372036854775808u64
    } else if b < 0 {
        (-b) as u64
    } else {
        b as u64
    };
    let mq: u64 = ma / mb;
    proof {
        vstd::arithmetic::div_mod::lemma_div_nonincreasing(ma as int, mb as int);
        if ma > 0 && mb >= 2 {
            vstd::arithmetic::div_mod::lemma_div_decreases(ma as int, mb as int);
        }
    }
    if negative {
        if mq == 9223372036854775808u64 {
            i64::MIN
        } else {
            -(mq as i64)
        }
    } else {
        mq as i64
    }
}

} // verus!
