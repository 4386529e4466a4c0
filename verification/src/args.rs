//! Reading numbers from the text of a command line or of a request.

use vstd::prelude::*;
use vstd::string::*;

verus! {

/// The value of a digit in the given radix, for radix 10 and 16.
pub open spec fn radix_digit(c: char, radix: u32) -> Option<nat> {
    if '0' <= c <= '9' {
        Some((c as u32 - '0' as u32) as nat)
    } else if radix == 16 && 'a' <= c <= 'f' {
        Some((c as u32 - 'a' as u32 + 10) as nat)
    } else if radix == 16 && 'A' <= c <= 'F' {
        Some((c as u32 - 'A' as u32 + 10) as nat)
    } else {
        None
    }
}

/// Whether the text is made of digits of the radix alone.
pub open spec fn radix_digits(s: Seq<char>, radix: u32) -> bool {
    forall|i: int| 0 <= i < s.len() ==> radix_digit(#[trigger] s[i], radix) is Some
}

/// The number that digits stand for in the radix.
pub open spec fn radix_value(s: Seq<char>, radix: u32) -> nat
    decreases s.len(),
{
    if s.len() == 0 {
        0
    } else {
        (radix as nat) * radix_value(s.drop_last(), radix) + radix_digit(
            s.last(),
            radix,
        ).unwrap_or(0)
    }
}

/// The text without a plus sign in front.
pub open spec fn unsigned_part(s: Seq<char>) -> Seq<char> {
    if s.len() > 0 && s[0] == '+' {
        s.skip(1)
    } else {
        s
    }
}

/// The 32-bit number that the text stands for in the radix: a plus sign may
/// stand in front, one digit at least has to follow, nothing but digits, and
/// the number has to fit.
pub open spec fn spec_parse_number(s: Seq<char>, radix: u32) -> Option<u32> {
    let digits = unsigned_part(s);
    if digits.len() > 0 && radix_digits(digits, radix) && radix_value(digits, radix) <= u32::MAX {
        Some(radix_value(digits, radix) as u32)
    } else {
        None
    }
}

/// The text without its underscores.
pub open spec fn without_underscores(s: Seq<char>) -> Seq<char>
    decreases s.len(),
{
    if s.len() == 0 {
        Seq::empty()
    } else if s.last() == '_' {
        without_underscores(s.drop_last())
    } else {
        without_underscores(s.drop_last()).push(s.last())
    }
}

/// The value of digits never gets smaller when a digit is added.
proof fn lemma_radix_value_grows(s: Seq<char>, radix: u32, n: int)
    requires
        0 <= n <= s.len(),
        radix >= 1,
    ensures
        radix_value(s.take(n), radix) <= radix_value(s, radix),
    decreases s.len() - n,
{
    if n < s.len() {
        lemma_radix_value_grows(s, radix, n + 1);
        assert(s.take(n + 1).drop_last() =~= s.take(n));
        let v = radix_value(s.take(n), radix);
        assert(v <= radix * v) by (nonlinear_arith)
            requires
                radix >= 1,
                v >= 0,
        ;
    } else {
        assert(s.take(n) =~= s);
    }
}

/// Reads a 32-bit number in radix 10 or 16.
pub fn parse_number(text: &str, radix: u32) -> (r: Option<u32>)
    requires
        radix == 10 || radix == 16,
    ensures
        r == spec_parse_number(text@, radix),
{
    let n: usize = text.unicode_len();
    let start: usize = if n > 0 && text.get_char(0) == '+' {
        1
    } else {
        0
    };
    if start == n {
        return None;
    }
    let ghost digits = unsigned_part(text@);
    let mut value: u32 = 0;
    let mut i: usize = start;
    while i < n
        invariant
            start <= i <= n,
            n == text@.len(),
            radix == 10 || radix == 16,
            digits == text@.skip(start as int),
            digits == unsigned_part(text@),
            radix_digits(digits.take(i - start), radix),
            value == radix_value(digits.take(i - start), radix),
        decreases n - i,
    {
        let c = text.get_char(i);
        let ghost head = digits.take(i - start);
        let ghost next = digits.take(i - start + 1);
        proof {
            assert(digits[i - start] == c);
            assert(next.drop_last() =~= head);
            assert(next.last() == c);
        }
        let d: u32 = if '0' <= c && c <= '9' {
            c as u32 - '0' as u32
        } else if radix == 16 && 'a' <= c && c <= 'f' {
            c as u32 - 'a' as u32 + 10
        } else if radix == 16 && 'A' <= c && c <= 'F' {
            c as u32 - 'A' as u32 + 10
        } else {
            proof {
                assert(radix_digit(digits[i - start], radix) is None);
            }
            return None;
        };
        let grown = match value.checked_mul(radix) {
            Some(shifted) => shifted.checked_add(d),
            None => None,
        };
        match grown {
            Some(v) => {
                value = v;
            },
            None => {
                proof {
                    lemma_radix_value_grows(digits, radix, i - start + 1);
                    assert(radix_value(next, radix) > u32::MAX);
                }
                return None;
            },
        }
        proof {
            assert forall|k: int| 0 <= k < next.len() implies radix_digit(
                #[trigger] next[k],
                radix,
            ) is Some by {
                if k < i - start {
                    assert(head[k] == next[k]);
                }
            }
        }
        i += 1;
    }
    proof {
        assert(digits.take(i - start) =~= digits);
    }
    Some(value)
}

/// The text without its underscores.
pub fn strip_underscores(text: &str) -> (out: String)
    ensures
        out@ == without_underscores(text@),
{
    let n: usize = text.unicode_len();
    let mut out = String::new();
    let mut i: usize = 0;
    while i < n
        invariant
            i <= n,
            n == text@.len(),
            out@ == without_underscores(text@.take(i as int)),
        decreases n - i,
    {
        let c = text.get_char(i);
        proof {
            assert(text@.take(i + 1).drop_last() =~= text@.take(i as int));
            assert(text@.take(i + 1).last() == c);
        }
        if c != '_' {
            let piece = text.substring_char(i, i + 1);
            proof {
                assert(piece@ =~= seq![c]);
                assert(out@ + piece@ =~= out@.push(c));
            }
            out.append(piece);
        }
        i += 1;
    }
    proof {
        assert(text@.take(i as int) =~= text@);
    }
    out
}

/// Reads a decimal 32-bit number in which underscores may group the digits.
/// Text that is no such number is handed back without its underscores.
pub fn format_u32_str(s: &str) -> (r: Result<u32, String>)
    ensures
        r is Ok <==> spec_parse_number(without_underscores(s@), 10) is Some,
        r is Ok ==> r->Ok_0 == spec_parse_number(without_underscores(s@), 10)->Some_0,
        r is Err ==> r->Err_0@ == without_underscores(s@),
{
    let cleaned = strip_underscores(s);
    match parse_number(cleaned.as_str(), 10) {
        Some(n) => Ok(n),
        None => Err(cleaned),
    }
}

/// Reads a hexadecimal 32-bit number. Text that is no such number is handed
/// back.
pub fn format_hex_str(s: &str) -> (r: Result<u32, String>)
    ensures
        r is Ok <==> spec_parse_number(s@, 16) is Some,
        r is Ok ==> r->Ok_0 == spec_parse_number(s@, 16)->Some_0,
        r is Err ==> r->Err_0@ == s@,
{
    match parse_number(s, 16) {
        Some(n) => Ok(n),
        None => Err(String::from_str(s)),
    }
}

} // verus!
