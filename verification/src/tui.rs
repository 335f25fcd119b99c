//! Texts for the terminal.

use vstd::prelude::*;
use crate::text::{decimal, digit_char, push_decimal, push_signed_decimal, signed_decimal};

verus! {

/// A key of the keyboard, as far as the program tells keys apart.
#[derive(Debug, Clone, Copy, PartialEq, Eq, Structural)]
pub enum Key {
    Char(char),
    Enter,
    Esc,
    Backspace,
    Up,
    Down,
    Left,
    Right,
    PageUp,
    PageDown,
    Other,
}

pub const KIB: i64 = 1024;

pub const MIB: i64 = 1048576;

pub const GIB: i64 = 1073741824;

/// The spacing of the double-precision numbers around `n`, for `n` below 2^63:
/// one up to 2^53, and twice as much for each further bit.
pub open spec fn double_spacing(n: nat) -> nat {
    if n < 0x20_0000_0000_0000 {
        1
    } else if n < 0x40_0000_0000_0000 {
        2
    } else if n < 0x80_0000_0000_0000 {
        4
    } else if n < 0x100_0000_0000_0000 {
        8
    } else if n < 0x200_0000_0000_0000 {
        16
    } else if n < 0x400_0000_0000_0000 {
        32
    } else if n < 0x800_0000_0000_0000 {
        64
    } else if n < 0x1000_0000_0000_0000 {
        128
    } else if n < 0x2000_0000_0000_0000 {
        256
    } else if n < 0x4000_0000_0000_0000 {
        512
    } else {
        1024
    }
}

/// `n / unit` rounded to the nearest whole number, a tie going to the even one.
pub open spec fn round_half_even(n: nat, unit: nat) -> nat {
    let q = n / unit;
    let r = n % unit;
    if 2 * r > unit || (2 * r == unit && q % 2 == 1) {
        q + 1
    } else {
        q
    }
}

/// The double-precision number nearest to `n`, a tie going to the even
/// significand: what a conversion of `n` to `f64` holds.
pub open spec fn nearest_double(n: nat) -> nat {
    round_half_even(n, double_spacing(n)) * double_spacing(n)
}

/// The number of tenths of `unit` in the double nearest to `n`, rounded to
/// the nearest whole number, a tie going to the even one.
pub open spec fn tenths(n: nat, unit: nat) -> nat {
    round_half_even(nearest_double(n) * 10, unit)
}

/// `n / unit` with one digit behind the point.
pub open spec fn one_decimal(n: nat, unit: nat) -> Seq<char> {
    decimal(tenths(n, unit) / 10) + seq!['.', digit_char(tenths(n, unit) % 10)]
}

/// A size for people to read: in GB, MB or KB (powers of 1024) with one digit
/// behind the point from 1 KB on, and in whole bytes below that.
pub open spec fn size_text(bytes: int) -> Seq<char> {
    if bytes >= GIB {
        one_decimal(bytes as nat, GIB as nat) + " GB"@
    } else if bytes >= MIB {
        one_decimal(bytes as nat, MIB as nat) + " MB"@
    } else if bytes >= KIB {
        one_decimal(bytes as nat, KIB as nat) + " KB"@
    } else {
        signed_decimal(bytes) + " B"@
    }
}

fn spacing_of(n: u64) -> (unit: u64)
    ensures
        unit == double_spacing(n as nat),
        1 <= unit <= 1024,
{
    if n < 0x20_0000_0000_0000 {
        1
    } else if n < 0x40_0000_0000_0000 {
        2
    } else if n < 0x80_0000_0000_0000 {
        4
    } else if n < 0x100_0000_0000_0000 {
        8
    } else if n < 0x200_0000_0000_0000 {
        16
    } else if n < 0x400_0000_0000_0000 {
        32
    } else if n < 0x800_0000_0000_0000 {
        64
    } else if n < 0x1000_0000_0000_0000 {
        128
    } else if n < 0x2000_0000_0000_0000 {
        256
    } else if n < 0x4000_0000_0000_0000 {
        512
    } else {
        1024
    }
}

fn rounded(n: u128, unit: u128) -> (q: u128)
    requires
        unit > 0,
        n < 0x1_0000_0000_0000_0000_0000,
    ensures
        q == round_half_even(n as nat, unit as nat),
        q <= n + 1,
{
    let q = n / unit;
    let r = n % unit;
    assert(q <= n) by (nonlinear_arith)
        requires
            q == n / unit,
            unit > 0,
    ;
    assert(r < unit) by (nonlinear_arith)
        requires
            r == n % unit,
            unit > 0,
    ;
    if r > unit - r || (r == unit - r && q % 2 == 1) {
        q + 1
    } else {
        q
    }
}

/// Appends `n / unit` with one digit behind the point.
fn push_one_decimal(out: &mut String, n: u64, unit: u64)
    requires
        unit > 0,
        n < 0x8000_0000_0000_0000,
    ensures
        final(out)@ == old(out)@ + one_decimal(n as nat, unit as nat),
{
    let spacing = spacing_of(n);
    let steps = rounded(n as u128, spacing as u128);
    assert(steps * spacing <= 0x8000_0000_0000_0001 * 1024) by (nonlinear_arith)
        requires
            steps <= 0x8000_0000_0000_0001,
            spacing <= 1024,
    ;
    let nearest: u128 = steps * (spacing as u128);
    let t = rounded(nearest * 10, unit as u128);
    push_decimal(out, t / 10);
    out.push('.');
    push_decimal(out, t % 10);
    proof {
        assert(decimal((t % 10) as nat) =~= seq![digit_char((t % 10) as nat)]);
        assert(out@ =~= old(out)@ + one_decimal(n as nat, unit as nat));
    }
}

/// A size for people to read, such as `1.5 KB`, `2.0 GB` or `12 B`.
pub fn fmt_size(bytes: i64) -> (text: String)
    ensures
        text@ == size_text(bytes as int),
{
    let mut out = String::new();
    if bytes >= GIB {
        push_one_decimal(&mut out, bytes as u64, GIB as u64);
        out.append(" GB");
    } else if bytes >= MIB {
        push_one_decimal(&mut out, bytes as u64, MIB as u64);
        out.append(" MB");
    } else if bytes >= KIB {
        push_one_decimal(&mut out, bytes as u64, KIB as u64);
        out.append(" KB");
    } else {
        push_signed_decimal(&mut out, bytes);
        out.append(" B");
    }
    out
}

/// The end of a path that fits in `width` characters: the path as it is
/// where it fits, else three dots and the last `width - 3` characters, and
/// only the last `width` characters where there is no room for the dots.
pub open spec fn truncated(path: Seq<char>, width: nat) -> Seq<char> {
    if path.len() <= width {
        path
    } else if width <= 3 {
        path.skip(path.len() - width)
    } else {
        "..."@ + path.skip(path.len() - (width - 3))
    }
}

/// A path cut at its beginning so that it fits in `width` characters.
pub fn truncate_path(path: &str, width: usize) -> (text: String)
    ensures
        text@ == truncated(path@, width as nat),
{
    let chars = crate::text::chars_of(path);
    if chars.len() <= width {
        return crate::text::string_of(&chars);
    }
    let mut out = String::new();
    let start: usize = if width <= 3 {
        chars.len() - width
    } else {
        out.append("...");
        chars.len() - (width - 3)
    };
    let ghost head = out@;
    let mut i: usize = start;
    while i < chars.len()
        invariant
            start <= i <= chars.len(),
            out@ =~= head + chars@.subrange(start as int, i as int),
        decreases chars.len() - i,
    {
        out.push(chars[i]);
        i += 1;
    }
    proof {
        assert(chars@.subrange(start as int, chars.len() as int) =~= chars@.skip(start as int));
    }
    out
}

} // verus!
