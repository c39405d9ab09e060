//! The `Effort` value type: a tagged duration with a non-negative magnitude,
//! together with its textual encoding `"<n>min|h|d|w|m|y"`.
//!
//! The textual decoding is total: malformed text yields
//! `DecodeError::InvalidEffort` instead of aborting.

use vstd::prelude::*;
use vstd::string::{StrSliceExecFns, StringExecFns};
use crate::records::DecodeError;

verus! {

/// A duration tagged with its unit.
#[derive(Clone, Copy, Debug, PartialEq, Eq, Structural)]
pub enum Effort {
    Minutes(u64),
    Hours(u64),
    Days(u64),
    Weeks(u64),
    Months(u64),
    Years(u64),
}

impl Effort {
    /// The magnitude, regardless of unit.
    pub open spec fn magnitude(self) -> u64 {
        match self {
            Effort::Minutes(n) => n,
            Effort::Hours(n) => n,
            Effort::Days(n) => n,
            Effort::Weeks(n) => n,
            Effort::Months(n) => n,
            Effort::Years(n) => n,
        }
    }

    /// A small integer code naming the unit, used by the byte codec.
    pub open spec fn unit_code(self) -> u64 {
        match self {
            Effort::Minutes(_) => 1,
            Effort::Hours(_) => 2,
            Effort::Days(_) => 3,
            Effort::Weeks(_) => 4,
            Effort::Months(_) => 5,
            Effort::Years(_) => 6,
        }
    }
}

/// The effort with the given unit code and magnitude, if the code names a unit.
pub open spec fn effort_from_parts(unit: nat, magnitude: u64) -> Option<Effort> {
    if unit == 1 {
        Some(Effort::Minutes(magnitude))
    } else if unit == 2 {
        Some(Effort::Hours(magnitude))
    } else if unit == 3 {
        Some(Effort::Days(magnitude))
    } else if unit == 4 {
        Some(Effort::Weeks(magnitude))
    } else if unit == 5 {
        Some(Effort::Months(magnitude))
    } else if unit == 6 {
        Some(Effort::Years(magnitude))
    } else {
        None
    }
}

// ---------------------------------------------------------------------------
// The textual encoding "<n>min|h|d|w|m|y"
// ---------------------------------------------------------------------------

/// The character for one decimal digit.
pub open spec fn digit_char(d: nat) -> char {
    if d == 0 {
        '0'
    } else if d == 1 {
        '1'
    } else if d == 2 {
        '2'
    } else if d == 3 {
        '3'
    } else if d == 4 {
        '4'
    } else if d == 5 {
        '5'
    } else if d == 6 {
        '6'
    } else if d == 7 {
        '7'
    } else if d == 8 {
        '8'
    } else {
        '9'
    }
}

/// The decimal digits of a value, most significant first.
pub open spec fn dec_digits(v: nat) -> Seq<char>
    decreases v,
{
    if v < 10 {
        seq![digit_char(v)]
    } else {
        dec_digits(v / 10) + seq![digit_char(v % 10)]
    }
}

/// The unit suffix of an effort's textual form.
pub open spec fn unit_suffix(e: Effort) -> Seq<char> {
    match e {
        Effort::Minutes(_) => "min"@,
        Effort::Hours(_) => "h"@,
        Effort::Days(_) => "d"@,
        Effort::Weeks(_) => "w"@,
        Effort::Months(_) => "m"@,
        Effort::Years(_) => "y"@,
    }
}

/// The textual form of an effort: its magnitude in decimal, then its unit.
pub open spec fn effort_text(e: Effort) -> Seq<char> {
    dec_digits(e.magnitude() as nat) + unit_suffix(e)
}

pub open spec fn is_digit(c: char) -> bool {
    48 <= c as u32 <= 57
}

pub open spec fn digit_val(c: char) -> nat {
    (c as u32 - 48) as nat
}

pub open spec fn all_digits(s: Seq<char>) -> bool {
    forall|i: int| 0 <= i < s.len() ==> is_digit(#[trigger] s[i])
}

/// The value of a string of decimal digits.
pub open spec fn digits_val(s: Seq<char>) -> nat
    decreases s.len(),
{
    if s.len() == 0 {
        0
    } else {
        digits_val(s.drop_last()) * 10 + digit_val(s.last())
    }
}

/// A magnitude parses when it is a non-empty digit string whose value fits
/// a 64-bit integer.
pub open spec fn parse_mag(digits: Seq<char>) -> Option<u64> {
    if digits.len() > 0 && all_digits(digits) && digits_val(digits) < 0x10000000000000000 {
        Some(digits_val(digits) as u64)
    } else {
        None
    }
}

/// The effort a text denotes, if any: digits followed by `min`, `h`, `d`,
/// `w`, `m` or `y`.
pub open spec fn effort_of_text(s: Seq<char>) -> Option<Effort> {
    if s.len() >= 3 && s.skip(s.len() - 3) == "min"@ {
        match parse_mag(s.take(s.len() - 3)) {
            Some(m) => Some(Effort::Minutes(m)),
            None => None,
        }
    } else if s.len() >= 1 && s.last() == 'h' {
        match parse_mag(s.drop_last()) {
            Some(m) => Some(Effort::Hours(m)),
            None => None,
        }
    } else if s.len() >= 1 && s.last() == 'd' {
        match parse_mag(s.drop_last()) {
            Some(m) => Some(Effort::Days(m)),
            None => None,
        }
    } else if s.len() >= 1 && s.last() == 'w' {
        match parse_mag(s.drop_last()) {
            Some(m) => Some(Effort::Weeks(m)),
            None => None,
        }
    } else if s.len() >= 1 && s.last() == 'm' {
        match parse_mag(s.drop_last()) {
            Some(m) => Some(Effort::Months(m)),
            None => None,
        }
    } else if s.len() >= 1 && s.last() == 'y' {
        match parse_mag(s.drop_last()) {
            Some(m) => Some(Effort::Years(m)),
            None => None,
        }
    } else {
        None
    }
}

fn digit_str(d: u64) -> (r: &'static str)
    requires
        d < 10,
    ensures
        r@ == seq![digit_char(d as nat)],
{
    let r: &'static str = if d == 0 {
        "0"
    } else if d == 1 {
        "1"
    } else if d == 2 {
        "2"
    } else if d == 3 {
        "3"
    } else if d == 4 {
        "4"
    } else if d == 5 {
        "5"
    } else if d == 6 {
        "6"
    } else if d == 7 {
        "7"
    } else if d == 8 {
        "8"
    } else {
        "9"
    };
    proof {
        reveal_strlit("0");
        reveal_strlit("1");
        reveal_strlit("2");
        reveal_strlit("3");
        reveal_strlit("4");
        reveal_strlit("5");
        reveal_strlit("6");
        reveal_strlit("7");
        reveal_strlit("8");
        reveal_strlit("9");
        assert(r@ =~= seq![digit_char(d as nat)]);
    }
    r
}

fn u64_to_dec(v: u64) -> (r: String)
    ensures
        r@ == dec_digits(v as nat),
    decreases v,
{
    if v < 10 {
        digit_str(v).to_owned()
    } else {
        let prefix = u64_to_dec(v / 10);
        let r = prefix.concat(digit_str(v % 10));
        proof {
            assert(r@ =~= dec_digits(v as nat));
        }
        r
    }
}

impl Effort {
    /// The textual form of this effort.
    pub fn to_text(&self) -> (r: String)
        ensures
            r@ == effort_text(*self),
    {
        let (magnitude, suffix): (u64, &str) = match self {
            Effort::Minutes(n) => (*n, "min"),
            Effort::Hours(n) => (*n, "h"),
            Effort::Days(n) => (*n, "d"),
            Effort::Weeks(n) => (*n, "w"),
            Effort::Months(n) => (*n, "m"),
            Effort::Years(n) => (*n, "y"),
        };
        let r = u64_to_dec(magnitude).concat(suffix);
        proof {
            assert(r@ =~= effort_text(*self));
        }
        r
    }

    /// Parses the textual form. Total: any text that is not digits followed
    /// by a unit, or whose value overflows, is an invalid-effort error.
    pub fn from_text(s: &str) -> (r: Result<Effort, DecodeError>)
        ensures
            match r {
                Ok(e) => effort_of_text(s@) == Some(e),
                Err(err) => effort_of_text(s@) is None && err == DecodeError::InvalidEffort,
            },
    {
        proof {
            reveal_strlit("min");
        }
        let n = s.unicode_len();
        if n == 0 {
            return Err(DecodeError::InvalidEffort);
        }
        let is_min = n >= 3 && s.get_char(n - 3) == 'm' && s.get_char(n - 2) == 'i' && s.get_char(
            n - 1,
        ) == 'n';
        proof {
            if is_min {
                assert(s@.skip(s@.len() - 3) =~= "min"@);
            } else if n >= 3 {
                assert(s@.skip(s@.len() - 3) != "min"@) by {
                    if s@.skip(s@.len() - 3) == "min"@ {
                        assert(s@.skip(s@.len() - 3)[0] == 'm');
                        assert(s@.skip(s@.len() - 3)[1] == 'i');
                        assert(s@.skip(s@.len() - 3)[2] == 'n');
                    }
                }
            }
        }
        if is_min {
            match parse_digits(s, n - 3) {
                Some(m) => Ok(Effort::Minutes(m)),
                None => Err(DecodeError::InvalidEffort),
            }
        } else {
            let last = s.get_char(n - 1);
            let magnitude = match parse_digits(s, n - 1) {
                Some(m) => m,
                None => {
                    proof {
                        assert(s@.drop_last() =~= s@.take(s@.len() - 1));
                    }
                    return Err(DecodeError::InvalidEffort);
                },
            };
            proof {
                assert(s@.drop_last() =~= s@.take(s@.len() - 1));
            }
            if last == 'h' {
                Ok(Effort::Hours(magnitude))
            } else if last == 'd' {
                Ok(Effort::Days(magnitude))
            } else if last == 'w' {
                Ok(Effort::Weeks(magnitude))
            } else if last == 'm' {
                Ok(Effort::Months(magnitude))
            } else if last == 'y' {
                Ok(Effort::Years(magnitude))
            } else {
                Err(DecodeError::InvalidEffort)
            }
        }
    }
}

/// The value of digit text grows, or stays, as the text grows.
proof fn lemma_digits_val_prefix(s: Seq<char>, k: int)
    requires
        0 <= k <= s.len(),
    ensures
        digits_val(s) >= digits_val(s.take(k)),
    decreases s.len(),
{
    if k < s.len() {
        assert(s.drop_last().take(k) =~= s.take(k));
        lemma_digits_val_prefix(s.drop_last(), k);
        assert(digits_val(s) == digits_val(s.drop_last()) * 10 + digit_val(s.last()));
        assert(digits_val(s.drop_last()) * 10 >= digits_val(s.drop_last())) by (nonlinear_arith);
    } else {
        assert(s.take(k) =~= s);
    }
}

/// Parses the first `dlen` characters of `s` as a decimal magnitude.
fn parse_digits(s: &str, dlen: usize) -> (r: Option<u64>)
    requires
        dlen <= s@.len(),
    ensures
        r == parse_mag(s@.take(dlen as int)),
{
    let digits: Ghost<Seq<char>> = Ghost(s@.take(dlen as int));
    if dlen == 0 {
        return None;
    }
    let mut val: u64 = 0;
    let mut i: usize = 0;
    proof {
        assert(digits@.take(0) =~= Seq::<char>::empty());
    }
    while i < dlen
        invariant
            i <= dlen,
            dlen <= s@.len(),
            digits@ == s@.take(dlen as int),
            all_digits(digits@.take(i as int)),
            val as nat == digits_val(digits@.take(i as int)),
        decreases dlen - i,
    {
        let c = s.get_char(i);
        let cv = c as u32;
        proof {
            assert(digits@.take(i + 1).drop_last() =~= digits@.take(i as int));
            assert(digits@.take(i + 1).last() == digits@[i as int]);
            assert(digits@[i as int] == s@[i as int]);
        }
        if cv < 48 || cv > 57 {
            proof {
                assert(!is_digit(digits@[i as int]));
                assert(!all_digits(digits@));
            }
            return None;
        }
        let d = ((cv - 48) as u8) as u64;
        if val > (u64::MAX - d) / 10 {
            proof {
                let grown = digits_val(digits@.take(i + 1));
                assert(grown == (val as nat) * 10 + (d as nat));
                assert((val as nat) * 10 + (d as nat) > 0xffffffffffffffff) by (nonlinear_arith)
                    requires
                        val > (0xffffffffffffffff - d) / 10,
                        d < 10,
                        val <= 0xffffffffffffffff,
                        d <= 0xffffffffffffffff,
                ;
                lemma_digits_val_prefix(digits@, i + 1);
            }
            return None;
        }
        proof {
            assert((val as nat) * 10 + (d as nat) <= 0xffffffffffffffff) by (nonlinear_arith)
                requires
                    val <= (0xffffffffffffffff - d) / 10,
                    d < 10,
        ;
        }
        val = val * 10 + d;
        i = i + 1;
    }
    proof {
        assert(digits@.take(dlen as int) =~= digits@);
    }
    Some(val)
}

/// Printing an effort and parsing the text back yields the same effort.
pub proof fn lemma_effort_text_round_trip(e: Effort)
    ensures
        effort_of_text(effort_text(e)) == Some(e),
{
    reveal_strlit("min");
    reveal_strlit("h");
    reveal_strlit("d");
    reveal_strlit("w");
    reveal_strlit("m");
    reveal_strlit("y");
    let v = e.magnitude() as nat;
    lemma_dec_digits_form(v);
    let dd = dec_digits(v);
    let s = effort_text(e);
    match e {
        Effort::Minutes(_) => {
            assert(s.skip(s.len() - 3) =~= "min"@);
            assert(s.take(s.len() - 3) =~= dd);
        },
        _ => {
            assert(s.len() == dd.len() + 1);
            assert(s.last() == unit_suffix(e)[0]);
            if s.len() >= 3 {
                assert(s.skip(s.len() - 3)[2] == s.last());
                assert(s.skip(s.len() - 3) != "min"@);
            }
            assert(s.drop_last() =~= dd);
        },
    }
}

/// Decimal digit text is non-empty, all digits, and denotes its value.
proof fn lemma_dec_digits_form(v: nat)
    ensures
        dec_digits(v).len() >= 1,
        all_digits(dec_digits(v)),
        digits_val(dec_digits(v)) == v,
    decreases v,
{
    if v < 10 {
        let s = dec_digits(v);
        assert(s =~= seq![digit_char(v)]);
        assert(is_digit(digit_char(v)));
        assert(digit_val(digit_char(v)) == v);
        assert(s.drop_last() =~= Seq::<char>::empty());
        assert(digits_val(s) == digits_val(s.drop_last()) * 10 + digit_val(s.last()));
    } else {
        lemma_dec_digits_form(v / 10);
        let s = dec_digits(v);
        assert(s =~= dec_digits(v / 10) + seq![digit_char(v % 10)]);
        assert(s.drop_last() =~= dec_digits(v / 10));
        assert(s.last() == digit_char(v % 10));
        assert(is_digit(digit_char(v % 10)));
        assert(digit_val(digit_char(v % 10)) == v % 10);
        assert(forall|i: int| 0 <= i < s.len() ==> is_digit(#[trigger] s[i]));
        assert(digits_val(s) == digits_val(s.drop_last()) * 10 + digit_val(s.last()));
        assert(digits_val(s) == (v / 10) * 10 + (v % 10));
        assert((v / 10) * 10 + (v % 10) == v) by {
            vstd::arithmetic::div_mod::lemma_fundamental_div_mod(v as int, 10);
        }
    }
}

} // verus!
