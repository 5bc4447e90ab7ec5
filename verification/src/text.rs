use vstd::prelude::*;
use vstd::string::StringExecFns;

verus! {

/// The upper-case hexadecimal digit for `d` (below 16).
pub open spec fn hex_digit(d: nat) -> char {
    if d < 10 {
        (('0' as nat) + d) as char
    } else {
        (('A' as nat) + d - 10) as char
    }
}

/// `n` in upper-case hexadecimal, without leading zeros (`0` for zero).
pub open spec fn hex_text(n: nat) -> Seq<char>
    decreases n,
{
    if n < 16 {
        seq![hex_digit(n)]
    } else {
        hex_text(n / 16).push(hex_digit(n % 16))
    }
}

/// `n` in decimal, without leading zeros (`0` for zero).
pub open spec fn decimal_text(n: nat) -> Seq<char>
    decreases n,
{
    if n < 10 {
        seq![hex_digit(n)]
    } else {
        decimal_text(n / 10).push(hex_digit(n % 10))
    }
}

/// Appends `c` to `s`. Calls std's `String::push`, which appends the character.
#[verifier::external_body]
pub(crate) fn push_char(s: &mut String, c: char)
    ensures
        final(s)@ == old(s)@.push(c),
{
    s.push(c)
}

/// The digit character for `d`.
fn digit_char(d: u64) -> (r: char)
    requires
        d < 16,
    ensures
        r == hex_digit(d as nat),
{
    if d < 10 {
        let c = (48 + d) as u8;
        c as char
    } else {
        let c = (55 + d) as u8;
        c as char
    }
}

/// Appends `n` in upper-case hexadecimal to `s`.
pub fn push_hex(s: &mut String, n: u64)
    ensures
        final(s)@ == old(s)@ + hex_text(n as nat),
    decreases n,
{
    if n >= 16 {
        push_hex(s, n / 16);
    }
    push_char(s, digit_char(n % 16));
    proof {
        if n < 16 {
            assert(old(s)@ + hex_text(n as nat) =~= old(s)@.push(hex_digit(n as nat)));
        } else {
            assert(old(s)@ + hex_text(n as nat) =~= (old(s)@ + hex_text((n / 16) as nat)).push(
                hex_digit((n % 16) as nat),
            ));
        }
    }
}

/// Appends `n` in decimal to `s`.
pub fn push_decimal(s: &mut String, n: u64)
    ensures
        final(s)@ == old(s)@ + decimal_text(n as nat),
    decreases n,
{
    if n >= 10 {
        push_decimal(s, n / 10);
    }
    push_char(s, digit_char(n % 10));
    proof {
        if n < 10 {
            assert(old(s)@ + decimal_text(n as nat) =~= old(s)@.push(hex_digit(n as nat)));
        } else {
            assert(old(s)@ + decimal_text(n as nat) =~= (old(s)@ + decimal_text((n / 10) as nat)).push(
                hex_digit((n % 10) as nat),
            ));
        }
    }
}

/// Appends `t` to `s`.
pub fn push_str(s: &mut String, t: &str)
    ensures
        final(s)@ == old(s)@ + t@,
{
    s.append(t);
}

/// The number that the decimal digits `s` stand for, the last one the units.
pub open spec fn decimal_value(s: Seq<char>) -> int
    decreases s.len(),
{
    if s.len() == 0 {
        0
    } else {
        decimal_value(s.drop_last()) * 10 + (s.last() as int - '0' as int)
    }
}

/// `decimal_text` writes a number in base ten: each character is a digit
/// from `0` to `9`, the first one is not `0` unless the number is zero, and
/// the digits read in base ten give the number back.
pub proof fn lemma_decimal_text(n: nat)
    ensures
        forall|i: int| 0 <= i < decimal_text(n).len() ==> '0' <= #[trigger] decimal_text(n)[i] <= '9',
        decimal_text(n).len() >= 1,
        decimal_text(n)[0] == '0' ==> n == 0,
        decimal_value(decimal_text(n)) == n,
    decreases n,
{
    if n < 10 {
        lemma_digit(n);
        assert(decimal_text(n).drop_last() =~= Seq::<char>::empty());
        assert(decimal_value(Seq::<char>::empty()) == 0);
        assert(decimal_text(n).last() == hex_digit(n));
    } else {
        lemma_decimal_text(n / 10);
        lemma_digit(n % 10);
        let t = decimal_text(n);
        assert(t.drop_last() =~= decimal_text(n / 10));
        assert(t[0] == decimal_text(n / 10)[0]);
        assert(t.last() == hex_digit(n % 10));
        assert(decimal_value(t) == decimal_value(decimal_text(n / 10)) * 10 + (hex_digit(n % 10) as int - '0' as int));
        assert((n / 10) * 10 + n % 10 == n) by (nonlinear_arith);
        assert forall|i: int| 0 <= i < t.len() implies '0' <= #[trigger] t[i] <= '9' by {
            if i < t.len() - 1 {
                assert(t[i] == decimal_text(n / 10)[i]);
            }
        }
    }
}

/// The digit for `d` below ten is the character `d` places after `0`.
proof fn lemma_digit(d: nat)
    requires
        d < 10,
    ensures
        hex_digit(d) as int == '0' as int + d,
        '0' <= hex_digit(d) <= '9',
{
}

/// The number that the upper-case hexadecimal digits `s` stand for.
pub open spec fn hex_value(s: Seq<char>) -> int
    decreases s.len(),
{
    if s.len() == 0 {
        0
    } else {
        let c = s.last();
        let d = if c <= '9' { c as int - '0' as int } else { c as int - 'A' as int + 10 };
        hex_value(s.drop_last()) * 16 + d
    }
}

/// `hex_text` writes a number in base sixteen with upper-case digits: each
/// character is `0` to `9` or `A` to `F`, the first one is not `0` unless the
/// number is zero, and the digits read in base sixteen give the number back.
pub proof fn lemma_hex_text(n: nat)
    ensures
        forall|i: int|
            0 <= i < hex_text(n).len() ==> ('0' <= #[trigger] hex_text(n)[i] <= '9' || 'A' <= hex_text(n)[i]
                <= 'F'),
        hex_text(n).len() >= 1,
        hex_text(n)[0] == '0' ==> n == 0,
        hex_value(hex_text(n)) == n,
    decreases n,
{
    if n < 16 {
        lemma_hex_digit(n);
        assert(hex_text(n).drop_last() =~= Seq::<char>::empty());
        assert(hex_value(Seq::<char>::empty()) == 0);
        assert(hex_text(n).last() == hex_digit(n));
    } else {
        lemma_hex_text(n / 16);
        lemma_hex_digit(n % 16);
        let t = hex_text(n);
        assert(t.drop_last() =~= hex_text(n / 16));
        assert(t[0] == hex_text(n / 16)[0]);
        assert(t.last() == hex_digit(n % 16));
        assert((n / 16) * 16 + n % 16 == n) by (nonlinear_arith);
        assert forall|i: int| 0 <= i < t.len() implies ('0' <= #[trigger] t[i] <= '9' || 'A' <= t[i] <= 'F') by {
            if i < t.len() - 1 {
                assert(t[i] == hex_text(n / 16)[i]);
            }
        }
    }
}

/// The digit for `d` below sixteen: `0` to `9`, then `A` to `F`.
proof fn lemma_hex_digit(d: nat)
    requires
        d < 16,
    ensures
        d < 10 ==> hex_digit(d) as int == '0' as int + d && '0' <= hex_digit(d) <= '9',
        d >= 10 ==> hex_digit(d) as int == 'A' as int + d - 10 && 'A' <= hex_digit(d) <= 'F',
{
}

} // verus!
