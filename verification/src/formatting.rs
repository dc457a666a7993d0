//! Formatting of raw file attributes into human-readable strings: sizes
//! with binary (1024-based) scaling, modification timestamps, and octal
//! permission text.

use vstd::prelude::*;

use crate::text::{dec_digits, digit_char, oct_digits, u64_to_dec_string};

verus! {

pub const KIB: u64 = 1024;

pub const MIB: u64 = 1048576;

pub const GIB: u64 = 1073741824;

/// The magnitude band a byte count is displayed in: 0 for bytes, 1 for
/// kibibytes, 2 for mebibytes, 3 for gibibytes.
pub open spec fn size_band(b: nat) -> nat {
    if b < KIB {
        0
    } else if b < MIB {
        1
    } else if b < GIB {
        2
    } else {
        3
    }
}

/// The scaled size in tenths of the band unit, truncated: the band never
/// shows a value that belongs to the next unit.
pub open spec fn size_tenths(b: nat) -> nat {
    if b < MIB {
        b * 10 / (KIB as nat)
    } else if b < GIB {
        b * 10 / (MIB as nat)
    } else {
        b * 10 / (GIB as nat)
    }
}

/// A scaled value printed with exactly one fractional digit.
pub open spec fn tenths_text(t: nat) -> Seq<char> {
    dec_digits(t / 10) + seq!['.', digit_char(t % 10)]
}

/// The full human-readable size: a plain byte count under 1024, otherwise
/// one fractional digit and the band's unit letter.
pub open spec fn size_text(b: nat) -> Seq<char> {
    if b < KIB {
        dec_digits(b) + seq!['B']
    } else if b < MIB {
        tenths_text(size_tenths(b)) + seq!['K']
    } else if b < GIB {
        tenths_text(size_tenths(b)) + seq!['M']
    } else {
        tenths_text(size_tenths(b)) + seq!['G']
    }
}

fn append_tenths(out: &mut String, t: u64)
    ensures
        final(out)@ == old(out)@ + tenths_text(t as nat),
{
    let whole = u64_to_dec_string(t / 10);
    out.append(whole.as_str());
    out.append(".");
    let frac = u64_to_dec_string(t % 10);
    proof {
        reveal_strlit(".");
        assert(dec_digits((t % 10) as nat) =~= seq![digit_char((t % 10) as nat)]);
        assert(old(out)@ + tenths_text(t as nat) =~= old(out)@ + dec_digits(
            (t / 10) as nat,
        ) + "."@ + dec_digits((t % 10) as nat));
    }
    out.append(frac.as_str());
}

/// Formats a byte count with binary scaling: `"{n}B"` under 1024 bytes,
/// then `"{x.x}K"`, `"{x.x}M"`, `"{x.x}G"`, each with exactly one
/// fractional digit, truncated so a value never reads as the next unit.
pub fn format_size(size: u64) -> (r: String)
    ensures
        r@ == size_text(size as nat),
{
    if size < KIB {
        let mut s = u64_to_dec_string(size);
        s.append("B");
        proof {
            reveal_strlit("B");
            assert(s@ =~= size_text(size as nat));
        }
        s
    } else {
        let (divisor, unit): (u64, &str) = if size < MIB {
            (KIB, "K")
        } else if size < GIB {
            (MIB, "M")
        } else {
            (GIB, "G")
        };
        let wide: u128 = (size as u128) * 10 / (divisor as u128);
        assert(wide <= u64::MAX) by {
            let s10 = (size as int) * 10;
            assert(s10 / (divisor as int) <= s10 / 1024) by (nonlinear_arith)
                requires
                    divisor >= 1024,
                    s10 >= 0,
            ;
        };
        let t = wide as u64;
        let mut s = String::new();
        append_tenths(&mut s, t);
        s.append(unit);
        proof {
            reveal_strlit("K");
            reveal_strlit("M");
            reveal_strlit("G");
            assert(s@ =~= size_text(size as nat));
        }
        s
    }
}

/// Displayed band never decreases as the byte count grows, and within one
/// band the displayed magnitude never decreases either.
pub proof fn lemma_format_size_monotonic(b1: nat, b2: nat)
    requires
        b1 <= b2,
    ensures
        size_band(b1) <= size_band(b2),
        size_band(b1) == size_band(b2) ==> size_tenths(b1) <= size_tenths(b2),
{
    vstd::arithmetic::div_mod::lemma_div_is_ordered(b1 * 10 as int, b2 * 10 as int, KIB as int);
    vstd::arithmetic::div_mod::lemma_div_is_ordered(b1 * 10 as int, b2 * 10 as int, MIB as int);
    vstd::arithmetic::div_mod::lemma_div_is_ordered(b1 * 10 as int, b2 * 10 as int, GIB as int);
}

/// The band boundaries are exact: 1023 still reads in bytes, 1024 turns to
/// kibibytes, and the kibibyte band rolls to `"1.0M"` at exactly 1048576,
/// never reaching a displayed `"1024.0"`.
pub proof fn lemma_format_size_boundaries()
    ensures
        size_band(1023) == 0,
        size_band(1024) == 1,
        size_band(1048575) == 1,
        size_band(1048576) == 2,
        size_band(1073741823) == 2,
        size_band(1073741824) == 3,
        forall|b: nat| size_band(b) == 1 ==> #[trigger] size_tenths(b) < 10240,
        forall|b: nat| size_band(b) == 2 ==> #[trigger] size_tenths(b) < 10240,
        size_text(1023) =~= seq!['1', '0', '2', '3', 'B'],
        size_text(1024) =~= seq!['1', '.', '0', 'K'],
        size_text(1048576) =~= seq!['1', '.', '0', 'M'],
{
    assert forall|b: nat| size_band(b) == 1 implies #[trigger] size_tenths(b) < 10240 by {
        vstd::arithmetic::div_mod::lemma_div_is_ordered(b * 10 as int, 10485750int, KIB as int);
    }
    assert forall|b: nat| size_band(b) == 2 implies #[trigger] size_tenths(b) < 10240 by {
        vstd::arithmetic::div_mod::lemma_div_is_ordered(b * 10 as int, 10737418230int, MIB as int);
    }
    reveal_with_fuel(dec_digits, 5);
    assert(size_text(1023) =~= seq!['1', '0', '2', '3', 'B']);
    assert(size_tenths(1024) == 10);
    assert(size_text(1024) =~= seq!['1', '.', '0', 'K']);
    assert(size_tenths(1048576) == 10);
    assert(size_text(1048576) =~= seq!['1', '.', '0', 'M']);
}

/// A formatted size never holds an escape character.
pub proof fn lemma_size_text_esc_free(b: nat)
    ensures
        crate::ansi::esc_free(size_text(b)),
{
    let t = size_text(b);
    crate::text::lemma_dec_digits_plain(b);
    crate::text::lemma_dec_digits_plain(size_tenths(b) / 10);
    assert(digit_char(size_tenths(b) % 10) as nat == 48 + size_tenths(b) % 10);
    assert forall|i: int| 0 <= i < t.len() implies t[i] != crate::ansi::esc() by {
        if b < KIB {
            if i < dec_digits(b).len() {
                assert(t[i] == dec_digits(b)[i]);
            } else {
                assert(t[i] == 'B');
            }
        } else {
            let w = dec_digits(size_tenths(b) / 10);
            if i < w.len() {
                assert(t[i] == w[i]);
            } else if i == w.len() {
                assert(t[i] == '.');
            } else if i == w.len() + 1 {
                assert(t[i] == digit_char(size_tenths(b) % 10));
            } else {
                assert(t[i] == 'K' || t[i] == 'M' || t[i] == 'G');
            }
        }
    }
}

/// The octal text of the low twelve mode bits, zero-padded to at least
/// three digits.
pub open spec fn octal_mode_text(mode: nat) -> Seq<char> {
    let m = mode % 4096;
    if m < 8 {
        seq!['0', '0'] + oct_digits(m)
    } else if m < 64 {
        seq!['0'] + oct_digits(m)
    } else {
        oct_digits(m)
    }
}

fn push_oct_digits(n: u32, out: &mut Vec<char>)
    ensures
        final(out)@ == old(out)@ + oct_digits(n as nat),
    decreases n,
{
    let z: u8 = 48;
    if n < 8 {
        out.push((z + (n as u8)) as char);
    } else {
        push_oct_digits(n / 8, out);
        out.push((z + ((n % 8) as u8)) as char);
    }
}

/// Formats the low twelve permission bits (including setuid, setgid and
/// sticky) as octal text, zero-padded to at least three digits.
pub fn format_octal_permissions(mode: u32) -> (r: String)
    ensures
        r@ == octal_mode_text(mode as nat),
{
    let m = mode % 4096;
    let mut v: Vec<char> = Vec::new();
    if m < 8 {
        v.push('0');
        v.push('0');
    } else if m < 64 {
        v.push('0');
    }
    push_oct_digits(m, &mut v);
    let r = crate::text::chars_to_string(&v);
    proof {
        assert(r@ =~= octal_mode_text(mode as nat));
    }
    r
}

/// Epoch seconds that are sure to convert: eight trillion seconds either
/// side of the epoch, around 253,000 years, comfortably inside chrono's
/// documented span of about 262,000 years.
pub open spec fn timestamp_renderable(secs: i64) -> bool {
    -8000000000000 <= secs <= 8000000000000
}

/// Relies on chrono's `DateTime::from_timestamp` and its `%b %d %H:%M`
/// formatting: an in-range epoch second renders as a twelve-character
/// timestamp (three-letter month, two-digit day, two-digit hour, colon,
/// two-digit minute) in the machine's local time zone; only a second
/// beyond the representable date range yields nothing, so the whole
/// renderable span succeeds.
#[verifier::external_body]
fn format_epoch_secs(secs: i64) -> (r: Option<String>)
    ensures
        r is Some ==> r.unwrap()@.len() == 12,
        timestamp_renderable(secs) ==> r is Some,
{
    chrono::DateTime::from_timestamp(secs, 0).map(
        |dt| dt.with_timezone(&chrono::Local).format("%b %d %H:%M").to_string(),
    )
}

/// Formats an optional modification time (epoch seconds): `"Unknown"`
/// exactly when the time is absent or beyond chrono's range, otherwise
/// the twelve-character short local-time form.
pub fn format_time(modified: &Option<i64>) -> (r: String)
    ensures
        modified is None ==> r@ == "Unknown"@,
        r@ == "Unknown"@ || r@.len() == 12,
        modified matches Some(s) && timestamp_renderable(*s) ==> r@.len() == 12 && r@
            != "Unknown"@,
{
    proof {
        reveal_strlit("Unknown");
    }
    match modified {
        None => String::from_str("Unknown"),
        Some(secs) => match format_epoch_secs(*secs) {
            Some(t) => t,
            None => String::from_str("Unknown"),
        },
    }
}

} // verus!
