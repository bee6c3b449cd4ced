//! Human-readable renderings of byte counts and mount states.
use crate::i18n::Language;
use crate::model::MountState;
use crate::text::{decimal, decimal_string};
use vstd::prelude::*;
use vstd::string::*;

verus! {

/// `2^e`.
pub open spec fn two_pow(e: nat) -> nat
    decreases e,
{
    if e == 0 {
        1
    } else {
        2 * two_pow((e - 1) as nat)
    }
}

/// How many low bits must be dropped for `b` to fit a 53-bit significand.
pub open spec fn excess_bits(b: nat) -> nat
    decreases b,
{
    if b < 0x20_0000_0000_0000 {
        0
    } else {
        1 + excess_bits(b / 2)
    }
}

/// `n / d` rounded to the nearest integer, ties to even.
pub open spec fn div_round_half_even(n: nat, d: nat) -> nat
    recommends
        d > 0,
{
    let q = n / d;
    let r = n % d;
    if 2 * r > d || (2 * r == d && q % 2 == 1) {
        q + 1
    } else {
        q
    }
}

/// The value of `b as f64`: `b` rounded to a 53-bit significand, ties to even.
pub open spec fn as_f64(b: nat) -> nat {
    let m = two_pow(excess_bits(b));
    div_round_half_even(b, m) * m
}

/// How many times a value is divided by 1024 before it drops below 1024,
/// counting from `unit` and stopping at the largest unit (TiB).
pub open spec fn unit_index(value: nat, unit: nat) -> nat
    decreases 4 - unit,
{
    if unit < 4 && value >= 1024 {
        unit_index(value / 1024, unit + 1)
    } else {
        unit
    }
}

/// `1024^unit`.
pub open spec fn unit_size(unit: nat) -> nat
    decreases unit,
{
    if unit == 0 {
        1
    } else {
        1024 * unit_size((unit - 1) as nat)
    }
}

pub open spec fn unit_name(unit: nat) -> Seq<char> {
    if unit == 0 {
        "B"@
    } else if unit == 1 {
        "KiB"@
    } else if unit == 2 {
        "MiB"@
    } else if unit == 3 {
        "GiB"@
    } else {
        "TiB"@
    }
}

/// The text of `format_bytes(bytes)`: below 1 KiB the exact count in bytes,
/// otherwise the `f64` value in the largest binary unit (up to TiB) that
/// keeps it at least 1, with one decimal rounded half to even.
pub open spec fn bytes_text(bytes: nat) -> Seq<char> {
    let value = as_f64(bytes);
    let unit = unit_index(value, 0);
    if unit == 0 {
        decimal(bytes) + " B"@
    } else {
        let tenths = div_round_half_even(value * 10, unit_size(unit));
        decimal(tenths / 10) + "."@ + decimal(tenths % 10) + " "@ + unit_name(unit)
    }
}

/// Byte counts that `f64` holds exactly are shown from their own value:
/// below 1 KiB as the exact number of bytes, from 1 KiB on in a unit of at
/// least KiB.
pub proof fn law_small_counts_are_exact(bytes: nat)
    ensures
        bytes < 0x20_0000_0000_0000 ==> as_f64(bytes) == bytes,
        bytes < 1024 ==> bytes_text(bytes) == decimal(bytes) + " B"@,
        1024 <= bytes < 0x20_0000_0000_0000 ==> unit_index(as_f64(bytes), 0) >= 1,
{
    if bytes < 0x20_0000_0000_0000 {
        assert(excess_bits(bytes) == 0);
        assert(two_pow(0) == 1);
        assert(bytes / 1 == bytes && bytes % 1 == 0) by (nonlinear_arith);
        assert(div_round_half_even(bytes, 1) == bytes);
        assert(as_f64(bytes) == bytes);
        if bytes >= 1024 {
            assert(unit_index(bytes, 0) == unit_index(bytes / 1024, 1));
            assert(unit_index(bytes / 1024, 1) >= 1) by {
                lemma_unit_index_at_least(bytes / 1024, 1);
            }
        }
    }
}

proof fn lemma_unit_index_at_least(value: nat, unit: nat)
    ensures
        unit_index(value, unit) >= unit,
    decreases 4 - unit,
{
    if unit < 4 && value >= 1024 {
        lemma_unit_index_at_least(value / 1024, unit + 1);
    }
}

proof fn lemma_two_pow_positive(e: nat)
    ensures
        two_pow(e) >= 1,
    decreases e,
{
    if e > 0 {
        lemma_two_pow_positive((e - 1) as nat);
    }
}

proof fn lemma_two_pow_monotone(a: nat, b: nat)
    requires
        a <= b,
    ensures
        two_pow(a) <= two_pow(b),
    decreases b,
{
    if a < b {
        lemma_two_pow_monotone(a, (b - 1) as nat);
        lemma_two_pow_positive((b - 1) as nat);
    }
}

proof fn lemma_div_div(b: nat, m: nat, k: nat)
    requires
        m > 0,
        k > 0,
    ensures
        b / m / k == b / (m * k),
{
    vstd::arithmetic::div_mod::lemma_div_denominator(b as int, m as int, k as int);
    assert(m * k > 0) by (nonlinear_arith)
        requires
            m > 0,
            k > 0,
    ;
}

proof fn lemma_excess_shift(b: nat, m: nat, e: nat)
    requires
        m == two_pow(e),
        b / m >= 0x20_0000_0000_0000,
    ensures
        excess_bits(b / m) == 1 + excess_bits(b / (2 * m)),
{
    lemma_two_pow_positive(e);
    lemma_div_div(b, m, 2);
    assert(m * 2 == 2 * m);
}

/// The value of `bytes as f64`, held in an integer.
fn f64_value(bytes: u64) -> (v: u128)
    ensures
        v == as_f64(bytes as nat),
        v <= 0x1_0000_0000_0000_0000,
        bytes < 0x20_0000_0000_0000 ==> v == bytes,
        bytes >= 0x20_0000_0000_0000 ==> v >= 1024,
{
    let b = bytes as u128;
    let mut m: u128 = 1;
    let mut cur: u128 = b;
    let ghost mut e: nat = 0;
    while cur >= 0x20_0000_0000_0000
        invariant
            m == two_pow(e),
            1 <= m <= 0x800,
            e <= 11,
            cur == b / m,
            b == bytes as u128,
            excess_bits(b as nat) == e + excess_bits(cur as nat),
            cur >= 0x20_0000_0000_0000 ==> e < 11,
            e == 0 ==> cur == b && m == 1,
            e > 0 ==> cur >= 0x10_0000_0000_0000 && b >= 0x20_0000_0000_0000,
        decreases cur,
    {
        proof {
            lemma_excess_shift(b as nat, m as nat, e);
            lemma_div_div(b as nat, m as nat, 2);
            assert(cur as nat / 2 == b as nat / (m as nat * 2));
        }
        let ghost old_m = m;
        m = m * 2;
        cur = cur / 2;
        proof {
            e = e + 1;
            assert(m as nat * cur as nat <= b as nat) by (nonlinear_arith)
                requires
                    cur == b / m,
                    m > 0,
            ;
            if cur >= 0x20_0000_0000_0000 {
                assert(m < 0x800) by (nonlinear_arith)
                    requires
                        m * cur <= b,
                        b < 0x1_0000_0000_0000_0000,
                        cur >= 0x20_0000_0000_0000,
                ;
                reveal_with_fuel(two_pow, 12);
                assert(two_pow(11) == 0x800);
                if e >= 11 {
                    lemma_two_pow_monotone(11, e);
                }
            }
            reveal_with_fuel(two_pow, 12);
            assert(two_pow(11) == 0x800);
            lemma_two_pow_monotone(e, 11);
        }
    }
    proof {
        assert(excess_bits(cur as nat) == 0);
    }
    let q = cur;
    let r = b % m;
    let up = 2 * r > m || (2 * r == m && q % 2 == 1);
    let rounded = if up {
        q + 1
    } else {
        q
    };
    proof {
        assert(rounded * m >= rounded) by (nonlinear_arith)
            requires
                m >= 1,
        ;
        assert(rounded * m <= 0x1_0000_0000_0000_0000) by (nonlinear_arith)
            requires
                q == b / m,
                m >= 1,
                m <= 0x800,
                rounded <= q + 1,
                b < 0x1_0000_0000_0000_0000,
                q < 0x20_0000_0000_0000,
                m > 1 || rounded == q,
        ;
    }
    rounded * m
}

/// Formats a byte count with binary units.
pub fn format_bytes(bytes: u64) -> (s: String)
    ensures
        s@ == bytes_text(bytes as nat),
{
    let value = f64_value(bytes);
    let mut unit: u64 = 0;
    let mut scaled: u128 = value;
    let mut size: u128 = 1;
    while unit < 4 && scaled >= 1024
        invariant
            unit <= 4,
            size == unit_size(unit as nat),
            (unit == 0 && size == 1) || (unit == 1 && size == 0x400) || (unit == 2 && size
                == 0x10_0000) || (unit == 3 && size == 0x4000_0000) || (unit == 4 && size
                == 0x100_0000_0000),
            scaled == value / size,
            unit_index(value as nat, 0) == unit_index(scaled as nat, unit as nat),
            value <= 0x1_0000_0000_0000_0000,
        decreases 4 - unit,
    {
        proof {
            lemma_div_div(value as nat, size as nat, 1024);
        }
        scaled = scaled / 1024;
        proof {
            assert(size * 1024 == 1024 * size);
        }
        size = size * 1024;
        unit = unit + 1;
    }
    if unit == 0 {
        proof {
            assert(value < 1024);
            assert(value == bytes);
        }
        let s = decimal_string(bytes);
        s.concat(" B")
    } else {
        let n = value * 10;
        let q = n / size;
        let r = n % size;
        let tenths = if 2 * r > size || (2 * r == size && q % 2 == 1) {
            q + 1
        } else {
            q
        };
        proof {
            assert(q <= n / 1024) by (nonlinear_arith)
                requires
                    q == n / size,
                    size >= 1024,
            ;
        }
        let whole = (tenths / 10) as u64;
        let fraction = (tenths % 10) as u64;
        let mut s = decimal_string(whole);
        s.append(".");
        let f = decimal_string(fraction);
        s.append(f.as_str());
        s.append(" ");
        let name = if unit == 1 {
            "KiB"
        } else if unit == 2 {
            "MiB"
        } else if unit == 3 {
            "GiB"
        } else {
            "TiB"
        };
        s.append(name);
        s
    }
}

/// The text shown for the state of the mount.
pub open spec fn mount_text(language: Language, state: MountState) -> Seq<char> {
    match state {
        MountState::Unmounted => language.table().unmounted@,
        MountState::Mounting => language.table().mounting@,
        MountState::Mounted { path, .. } => language.mounted_at_text(path@),
        MountState::Error { message } => language.mount_failed_text(message@),
    }
}

/// Formats the current mount state in `language`.
pub fn format_mount_state(language: Language, state: &MountState) -> (s: String)
    ensures
        s@ == mount_text(language, *state),
{
    let strings = language.strings();
    match state {
        MountState::Unmounted => String::from_str(strings.unmounted),
        MountState::Mounting => String::from_str(strings.mounting),
        MountState::Mounted { path, .. } => language.mounted_at(path.as_str()),
        MountState::Error { message } => language.mount_failed(message.as_str()),
    }
}

} // verus!
