use vstd::prelude::*;

verus! {

/// The decimal digits of `n`, most significant first.
pub open spec fn decimal(n: nat) -> Seq<char>
    decreases n,
{
    if n < 10 {
        seq![digit_char(n)]
    } else {
        decimal(n / 10).push(digit_char(n % 10))
    }
}

/// The character of a decimal digit.
pub open spec fn digit_char(d: nat) -> char {
    if d < 10 { ((d + 48) as u8) as char } else { '?' }
}

/// 1024 raised to `e`.
pub open spec fn kib_pow(e: nat) -> nat
    decreases e,
{
    if e == 0 { 1 } else { 1024 * kib_pow((e - 1) as nat) }
}

/// The largest `e` (at most 5) with `1024^e <= b`; zero for `b == 0`.
pub open spec fn unit_index(b: nat) -> nat {
    if b < kib_pow(1) { 0 }
    else if b < kib_pow(2) { 1 }
    else if b < kib_pow(3) { 2 }
    else if b < kib_pow(4) { 3 }
    else if b < kib_pow(5) { 4 }
    else { 5 }
}

/// The unit letter for `1024^e` bytes; `T` from the fourth power on.
pub open spec fn unit_suffix(e: nat) -> Seq<char> {
    if e == 0 { seq!['B'] }
    else if e == 1 { seq!['K'] }
    else if e == 2 { seq!['M'] }
    else if e == 3 { seq!['G'] }
    else { seq!['T'] }
}

/// The number shown for `b` bytes: `b` itself below 1024; then `b / 1024^e`
/// rounded half up, up to the `T` unit; past it, whole `T` units rounded down.
pub open spec fn shown_amount(b: nat) -> nat {
    let e = unit_index(b);
    if e == 0 {
        b
    } else if e >= 5 {
        b / kib_pow(4)
    } else {
        (b + kib_pow(e) / 2) / kib_pow(e)
    }
}

/// The human-readable text for a byte count.
pub open spec fn bytes_text(b: nat) -> Seq<char> {
    if b == 0 {
        seq!['0', 'B']
    } else {
        decimal(shown_amount(b)) + unit_suffix(unit_index(b))
    }
}

pub const KIB: u64 = 1024;
pub const MIB: u64 = 1048576;
pub const GIB: u64 = 1073741824;
pub const TIB: u64 = 1099511627776;
pub const PIB: u64 = 1125899906842624;

/// Relies on `std::fmt` (`format!`): a `u64` written in decimal, then `unit`.
#[verifier::external_body]
fn amount_with_unit(n: u64, unit: &str) -> (r: String)
    ensures
        r@ == decimal(n as nat) + unit@,
{
    format!("{}{}", n, unit)
}

/// Renders a byte count with a binary unit (`B`, `K`, `M`, `G`, `T`),
/// rounding to the nearest whole unit.
pub fn format_bytes(bytes: u64) -> (r: String)
    ensures
        r@ == bytes_text(bytes as nat),
{
    proof {
        reveal_with_fuel(kib_pow, 6);
        reveal_strlit("B");
        reveal_strlit("K");
        reveal_strlit("M");
        reveal_strlit("G");
        reveal_strlit("T");
        assert(decimal(0) + seq!['B'] =~= seq!['0', 'B']);
    }
    if bytes == 0 {
        amount_with_unit(0, "B")
    } else if bytes < KIB {
        amount_with_unit(bytes, "B")
    } else if bytes < MIB {
        amount_with_unit((bytes + KIB / 2) / KIB, "K")
    } else if bytes < GIB {
        amount_with_unit((bytes + MIB / 2) / MIB, "M")
    } else if bytes < TIB {
        amount_with_unit((bytes + GIB / 2) / GIB, "G")
    } else if bytes < PIB {
        amount_with_unit((bytes + TIB / 2) / TIB, "T")
    } else {
        amount_with_unit(bytes / TIB, "T")
    }
}

} // verus!
