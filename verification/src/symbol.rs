//! The unit-of-account identity an asset carries: a currency-like code of one
//! to seven uppercase ASCII letters packed into a 64-bit value, paired with a
//! decimal precision.

use vstd::prelude::*;

use crate::codec::all_digits;
use crate::codec::digits_val;
use crate::codec::is_digit_char;
use vstd::string::StrSliceExecFns;

verus! {

/// 256 to the power `e`: the weight of byte position `e` of a packed code.
pub open spec fn pow256(e: nat) -> nat
    decreases e,
{
    if e == 0 {
        1
    } else {
        256 * pow256((e - 1) as nat)
    }
}

/// The characters of a packed symbol code, read from the least-significant
/// byte upward; reading stops at the first zero byte.
pub open spec fn code_chars(v: nat) -> Seq<char>
    decreases v,
{
    if v == 0 {
        Seq::empty()
    } else {
        seq![((v % 256) as u8) as char] + code_chars(v / 256)
    }
}

/// The packed value denoted by a sequence of characters, the first character
/// in the least-significant byte.
pub open spec fn chars_code(s: Seq<char>) -> nat
    decreases s.len(),
{
    if s.len() == 0 {
        0
    } else {
        (s[0] as nat) + 256 * chars_code(s.drop_first())
    }
}

/// Whether `c` may appear in a symbol code: an uppercase ASCII letter.
pub open spec fn is_code_char(c: char) -> bool {
    'A' <= c && c <= 'Z'
}

/// Whether `s` is a well-formed symbol code: one to seven uppercase letters.
pub open spec fn is_code_seq(s: Seq<char>) -> bool {
    &&& 1 <= s.len() <= 7
    &&& forall|i: int| 0 <= i < s.len() ==> is_code_char(#[trigger] s[i])
}

/// A packed sequence of characters denotes less than the weight of the next
/// byte position, as long as every character fits a byte.
pub proof fn lemma_chars_code_bound(s: Seq<char>)
    requires
        forall|i: int| 0 <= i < s.len() ==> (#[trigger] s[i] as nat) < 256,
    ensures
        chars_code(s) < pow256(s.len()),
    decreases s.len(),
{
    if s.len() > 0 {
        lemma_chars_code_bound(s.drop_first());
    }
}

/// Packing the characters read out of a value restores the value.
pub proof fn lemma_chars_code_of_code_chars(v: nat)
    ensures
        chars_code(code_chars(v)) == v,
    decreases v,
{
    if v > 0 {
        lemma_chars_code_of_code_chars(v / 256);
        let s = code_chars(v);
        assert(s.drop_first() =~= code_chars(v / 256));
        assert(s[0] as nat == v % 256);
    }
}

/// A currency-like code: up to seven uppercase ASCII letters, the first
/// letter in the least-significant byte of the packed value.
#[derive(Debug, Clone, Copy, PartialEq, Eq, Structural)]
pub struct SymbolCode {
    pub value: u64,
}

impl SymbolCode {
    /// Whether the packed value spells a well-formed code.
    pub open spec fn spec_is_valid(self) -> bool {
        is_code_seq(code_chars(self.value as nat))
    }

    /// The empty code.
    pub fn new() -> (c: SymbolCode)
        ensures
            c.value == 0,
    {
        SymbolCode { value: 0 }
    }

    /// The packed representation.
    pub fn raw(&self) -> (r: u64)
        ensures
            r == self.value,
    {
        self.value
    }

    /// Parse a symbol-code token: succeeds exactly on one to seven uppercase
    /// ASCII letters, and packs them first letter lowest.
    pub fn parse(s: &str) -> (r: Option<SymbolCode>)
        ensures
            r is Some <==> is_code_seq(s@),
            r matches Some(c) ==> c.value as nat == chars_code(s@),
    {
        let n = s.unicode_len();
        if n < 1 || n > 7 {
            return None;
        }
        let mut j: usize = 0;
        while j < n
            invariant
                n == s@.len(),
                1 <= n <= 7,
                j <= n,
                forall|k: int| 0 <= k < j ==> is_code_char(#[trigger] s@[k]),
            decreases n - j,
        {
            let c = s.get_char(j);
            if c < 'A' || c > 'Z' {
                return None;
            }
            j += 1;
        }
        let mut value: u64 = 0;
        let mut k: usize = n;
        while k > 0
            invariant
                n == s@.len(),
                1 <= n <= 7,
                k <= n,
                forall|m: int| 0 <= m < n ==> is_code_char(#[trigger] s@[m]),
                value as nat == chars_code(s@.subrange(k as int, n as int)),
            decreases k,
        {
            proof {
                lemma_chars_code_bound(s@.subrange(k as int, n as int));
                reveal_with_fuel(pow256, 8);
                lemma_pow256_increases((n - k) as nat, 6);
            }
            k -= 1;
            let c = s.get_char(k);
            proof {
                assert(s@.subrange(k as int, n as int).drop_first() =~= s@.subrange(
                    k + 1,
                    n as int,
                ));
            }
            value = value * 256 + (c as u64);
        }
        proof {
            assert(s@.subrange(0, n as int) =~= s@);
        }
        Some(SymbolCode { value })
    }

    /// Whether the packed value spells a well-formed code.
    pub fn is_valid(&self) -> (b: bool)
        ensures
            b == self.spec_is_valid(),
    {
        let ghost orig: nat = self.value as nat;
        let mut v: u64 = self.value;
        let mut count: usize = 0;
        let ghost mut pref: Seq<char> = Seq::empty();
        while v != 0
            invariant
                orig == self.value as nat,
                code_chars(orig) == pref + code_chars(v as nat),
                pref.len() == count,
                count <= 7,
                forall|i: int| 0 <= i < pref.len() ==> is_code_char(#[trigger] pref[i]),
            decreases v,
        {
            let b = (v % 256) as u8;
            let c = b as char;
            if b < 65 || b > 90 {
                proof {
                    assert(code_chars(orig)[count as int] == c);
                }
                return false;
            }
            if count == 7 {
                proof {
                    assert(code_chars(orig).len() > 7);
                }
                return false;
            }
            proof {
                pref = pref.push(c);
                assert(code_chars(orig) =~= pref + code_chars((v / 256) as nat));
            }
            v = v / 256;
            count += 1;
        }
        proof {
            assert(code_chars(orig) =~= pref);
        }
        count >= 1
    }

    /// The text of the code: its letters in order.
    pub fn to_string(&self) -> (r: String)
        ensures
            r@ == code_chars(self.value as nat),
    {
        let ghost orig: nat = self.value as nat;
        let mut out = String::new();
        let mut v: u64 = self.value;
        while v != 0
            invariant
                code_chars(orig) == out@ + code_chars(v as nat),
            decreases v,
        {
            let b = (v % 256) as u8;
            crate::codec::push_char(&mut out, b as char);
            proof {
                assert(code_chars(orig) =~= out@ + code_chars((v / 256) as nat));
            }
            v = v / 256;
        }
        proof {
            assert(code_chars(orig) =~= out@);
        }
        out
    }
}

/// Powers of 256 grow with the exponent.
pub proof fn lemma_pow256_increases(a: nat, b: nat)
    requires
        a <= b,
    ensures
        pow256(a) <= pow256(b),
    decreases b,
{
    if a < b {
        lemma_pow256_increases(a, (b - 1) as nat);
        lemma_pow256_pos((b - 1) as nat);
    }
}

/// Powers of 256 are positive.
pub proof fn lemma_pow256_pos(e: nat)
    ensures
        pow256(e) >= 1,
    decreases e,
{
    if e > 0 {
        lemma_pow256_pos((e - 1) as nat);
    }
}

/// Whether `i` is the position of the first comma of `s`.
pub open spec fn is_first_comma(s: Seq<char>, i: int) -> bool {
    &&& 0 <= i < s.len()
    &&& s[i] == ','
    &&& forall|j: int| 0 <= j < i ==> s[j] != ','
}

/// The position of the first comma of `s`.
pub open spec fn literal_comma(s: Seq<char>) -> int {
    choose|i: int| is_first_comma(s, i)
}

/// Whether the parts around position `i` form a symbol literal: decimal
/// digits denoting at most 255 before it, a well-formed code after it.
pub open spec fn wf_symbol_parts(s: Seq<char>, i: int) -> bool {
    &&& 1 <= i
    &&& all_digits(s.subrange(0, i))
    &&& digits_val(s.subrange(0, i)) <= 255
    &&& is_code_seq(s.subrange(i + 1, s.len() as int))
}

/// Whether `s` is a well-formed symbol literal, `"precision,CODE"`.
pub open spec fn is_symbol_literal(s: Seq<char>) -> bool {
    exists|i: int| is_first_comma(s, i) && wf_symbol_parts(s, i)
}

/// The precision a symbol literal declares.
pub open spec fn literal_precision(s: Seq<char>) -> nat {
    digits_val(s.subrange(0, literal_comma(s)))
}

/// The packed code a symbol literal declares.
pub open spec fn literal_code(s: Seq<char>) -> nat {
    chars_code(s.subrange(literal_comma(s) + 1, s.len() as int))
}

/// In a well-formed symbol literal the chosen comma is the first one, and
/// the parts around it are well formed.
pub proof fn lemma_literal_comma(s: Seq<char>)
    requires
        is_symbol_literal(s),
    ensures
        is_first_comma(s, literal_comma(s)),
        wf_symbol_parts(s, literal_comma(s)),
{
    let i0 = choose|i: int| is_first_comma(s, i) && wf_symbol_parts(s, i);
    assert(is_first_comma(s, i0));
    let w = literal_comma(s);
    assert(is_first_comma(s, w));
    if w < i0 {
        assert(s[w] != ',');
    } else if w > i0 {
        assert(s[i0] != ',');
    }
}

/// The unit of account of an asset: a symbol code together with the number
/// of decimal digits the amount is scaled by.
#[derive(Debug, Clone, Copy, PartialEq, Eq, Structural)]
pub struct Symbol {
    pub code: SymbolCode,
    pub precision: u8,
}

impl Symbol {
    /// Whether the symbol is valid: its code spells one to seven uppercase
    /// letters.
    pub open spec fn spec_is_valid(self) -> bool {
        self.code.spec_is_valid()
    }

    /// The empty symbol: empty code, precision zero.
    pub fn new() -> (s: Symbol)
        ensures
            s.code.value == 0,
            s.precision == 0,
    {
        Symbol { code: SymbolCode { value: 0 }, precision: 0 }
    }

    /// Build a symbol from a code and a precision.
    pub fn from_precision(code: SymbolCode, precision: u8) -> (s: Symbol)
        ensures
            s.code == code,
            s.precision == precision,
    {
        Symbol { code, precision }
    }

    /// The number of decimal digits the paired amount is scaled by.
    pub fn precision(&self) -> (p: u8)
        ensures
            p == self.precision,
    {
        self.precision
    }

    /// The code identity.
    pub fn code(&self) -> (c: SymbolCode)
        ensures
            c == self.code,
    {
        self.code
    }

    /// The packed representation: the code shifted one byte up, the
    /// precision in the low byte.
    pub fn raw(&self) -> (r: u64)
        requires
            self.code.value < 72057594037927936,
    ensures
            r == self.code.value * 256 + self.precision,
    {
        self.code.value * 256 + (self.precision as u64)
    }

    /// Whether the symbol is valid.
    pub fn is_valid(&self) -> (b: bool)
        ensures
            b == self.spec_is_valid(),
    {
        self.code.is_valid()
    }

    /// Build a symbol from a literal of the form `"precision,CODE"`: a
    /// decimal precision of at most 255, a comma, and one to seven
    /// uppercase letters.
    pub fn from(s: &str) -> (sym: Symbol)
        requires
            is_symbol_literal(s@),
        ensures
            sym.precision as nat == literal_precision(s@),
            sym.code.value as nat == literal_code(s@),
    {
        proof {
            lemma_literal_comma(s@);
        }
        let ghost k: int = literal_comma(s@);
        let n = s.unicode_len();
        let mut i: usize = 0;
        while s.get_char(i) != ','
            invariant
                n == s@.len(),
                k == literal_comma(s@),
                is_first_comma(s@, k),
                0 <= i <= k < n,
                forall|j: int| 0 <= j < i ==> s@[j] != ',',
            decreases k - i,
        {
            i += 1;
        }
        proof {
            assert(i as int == k);
        }
        let ghost dpart = s@.subrange(0, k);
        let mut val: u64 = 0;
        let mut j: usize = 0;
        while j < i
            invariant
                n == s@.len(),
                i as int == k,
                k == literal_comma(s@),
                is_first_comma(s@, k),
                wf_symbol_parts(s@, k),
                dpart == s@.subrange(0, k),
                j <= i,
                i < n,
                val as nat == digits_val(dpart.subrange(0, j as int)),
                val <= 255,
            decreases i - j,
        {
            let c = s.get_char(j);
            proof {
                assert(dpart[j as int] == s@[j as int]);
                assert(is_digit_char(c));
                let pre = dpart.subrange(0, j as int);
                let ext = dpart.subrange(0, j + 1);
                assert(ext.drop_last() =~= pre);
                assert(ext.last() == c);
                crate::codec::lemma_digits_val_prefix(dpart, j + 1);
            }
            let d: u64 = (c as u64) - 48;
            val = val * 10 + d;
            j += 1;
        }
        proof {
            assert(dpart.subrange(0, i as int) =~= dpart);
        }
        let code_str = s.substring_char(i + 1, n);
        let code = match SymbolCode::parse(code_str) {
            Some(c) => c,
            None => unreached(),
        };
        Symbol { code, precision: val as u8 }
    }
}

} // verus!
