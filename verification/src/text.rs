//! Character-sequence helpers shared by the formatters and renderers:
//! numerals in decimal and octal, and conversions between `String` and
//! `Vec<char>` for character-level editing.

use vstd::prelude::*;

verus! {

/// The character for one digit value below ten.
pub open spec fn digit_char(d: nat) -> char
    recommends
        d < 10,
{
    (('0' as nat + d) as u8) as char
}

/// Decimal numeral of `n`, most significant digit first.
pub open spec fn dec_digits(n: nat) -> Seq<char>
    decreases n,
{
    if n < 10 {
        seq![digit_char(n)]
    } else {
        dec_digits(n / 10) + seq![digit_char(n % 10)]
    }
}

/// Octal numeral of `n`, most significant digit first.
pub open spec fn oct_digits(n: nat) -> Seq<char>
    decreases n,
{
    if n < 8 {
        seq![digit_char(n)]
    } else {
        oct_digits(n / 8) + seq![digit_char(n % 8)]
    }
}

/// Relies on `String: FromIterator<char>`: collecting yields exactly the
/// given characters, in order.
#[verifier::external_body]
pub(crate) fn chars_to_string(v: &Vec<char>) -> (r: String)
    ensures
        r@ == v@,
{
    v.iter().collect()
}

/// Relies on `str::chars`: the characters of a string slice, in order.
#[verifier::external_body]
pub(crate) fn str_to_chars(s: &str) -> (r: Vec<char>)
    ensures
        r@ == s@,
{
    s.chars().collect()
}

fn digit_to_char(d: u8) -> (c: char)
    requires
        d < 10,
    ensures
        c == digit_char(d as nat),
{
    let z: u8 = 48;
    (z + d) as char
}

/// Pushes the decimal digits of `n` onto `out`.
fn push_dec_digits(n: u64, out: &mut Vec<char>)
    ensures
        final(out)@ == old(out)@ + dec_digits(n as nat),
    decreases n,
{
    if n < 10 {
        out.push(digit_to_char(n as u8));
    } else {
        push_dec_digits(n / 10, out);
        out.push(digit_to_char((n % 10) as u8));
    }
}

/// The decimal text of `n`.
pub fn u64_to_dec_string(n: u64) -> (r: String)
    ensures
        r@ == dec_digits(n as nat),
{
    let mut v: Vec<char> = Vec::new();
    push_dec_digits(n, &mut v);
    chars_to_string(&v)
}

/// Decimal digits are ordinary visible characters: never an escape, a
/// border glyph or a space.
pub proof fn lemma_dec_digits_plain(n: nat)
    ensures
        forall|i: int|
            0 <= i < dec_digits(n).len() ==> #[trigger] dec_digits(n)[i] != '\u{1b}' && dec_digits(
                n,
            )[i] != '│' && dec_digits(n)[i] != ' ',
    decreases n,
{
    if n < 10 {
        assert(digit_char(n) as nat == 48 + n);
        assert(dec_digits(n)[0] == digit_char(n));
    } else {
        lemma_dec_digits_plain(n / 10);
        assert(digit_char(n % 10) as nat == 48 + n % 10);
        assert forall|i: int|
            0 <= i < dec_digits(n).len() implies #[trigger] dec_digits(n)[i] != '\u{1b}'
            && dec_digits(n)[i] != '│' && dec_digits(n)[i] != ' ' by {
            if i < dec_digits(n / 10).len() {
                assert(dec_digits(n)[i] == dec_digits(n / 10)[i]);
            } else {
                assert(dec_digits(n)[i] == digit_char(n % 10));
            }
        }
    }
}

/// `p` is a prefix of `s`.
pub open spec fn has_prefix(s: Seq<char>, p: Seq<char>) -> bool {
    p.len() <= s.len() && s.subrange(0, p.len() as int) == p
}

/// `pat` occurs somewhere in `s`.
pub open spec fn contains_seq(s: Seq<char>, pat: Seq<char>) -> bool {
    exists|i: int| 0 <= i <= s.len() - pat.len() && has_prefix(#[trigger] s.skip(i), pat)
}

/// Every occurrence of `pat` in `s` replaced by `repl`, scanning left to
/// right without overlap, as `str::replace` does.
pub open spec fn spec_replace_all(s: Seq<char>, pat: Seq<char>, repl: Seq<char>) -> Seq<char>
    recommends
        pat.len() > 0,
    decreases s.len(),
{
    if pat.len() == 0 || s.len() == 0 {
        s
    } else if has_prefix(s, pat) {
        repl + spec_replace_all(s.skip(pat.len() as int), pat, repl)
    } else {
        seq![s[0]] + spec_replace_all(s.skip(1), pat, repl)
    }
}

/// Replacement copies any leading stretch in which no character matches
/// the pattern's first character.
pub proof fn lemma_replace_all_copies_prefix(s: Seq<char>, pat: Seq<char>, repl: Seq<char>, n: int)
    requires
        pat.len() > 0,
        0 <= n <= s.len(),
        forall|i: int| 0 <= i < n ==> s[i] != pat[0],
    ensures
        spec_replace_all(s, pat, repl) == s.subrange(0, n) + spec_replace_all(s.skip(n), pat, repl),
    decreases n,
{
    if n == 0 {
        assert(s.skip(0) =~= s);
        assert(s.subrange(0, 0) + spec_replace_all(s, pat, repl) =~= spec_replace_all(
            s,
            pat,
            repl,
        ));
    } else {
        assert(!has_prefix(s, pat)) by {
            if has_prefix(s, pat) {
                assert(s.subrange(0, pat.len() as int)[0] == s[0]);
            }
        };
        lemma_replace_all_copies_prefix(s.skip(1), pat, repl, n - 1);
        assert(s.skip(1).subrange(0, n - 1) =~= s.subrange(1, n));
        assert(s.skip(1).skip(n - 1) =~= s.skip(n));
        assert(seq![s[0]] + (s.subrange(1, n) + spec_replace_all(s.skip(n), pat, repl)) =~= s
            .subrange(0, n) + spec_replace_all(s.skip(n), pat, repl));
    }
}

/// Text without an occurrence of the pattern is left exactly as it is.
pub proof fn lemma_replace_all_no_match(s: Seq<char>, pat: Seq<char>, repl: Seq<char>)
    requires
        pat.len() > 0,
        !contains_seq(s, pat),
    ensures
        spec_replace_all(s, pat, repl) == s,
    decreases s.len(),
{
    if s.len() > 0 {
        assert(!has_prefix(s, pat)) by {
            if has_prefix(s, pat) {
                assert(s.skip(0) =~= s);
                assert(0 <= 0 <= s.len() - pat.len() && has_prefix(s.skip(0), pat));
            }
        };
        assert(!contains_seq(s.skip(1), pat)) by {
            if contains_seq(s.skip(1), pat) {
                let i = choose|i: int|
                    0 <= i <= s.skip(1).len() - pat.len() && has_prefix(
                        #[trigger] s.skip(1).skip(i),
                        pat,
                    );
                assert(s.skip(1).skip(i) =~= s.skip(i + 1));
                assert(has_prefix(s.skip(i + 1), pat));
            }
        };
        lemma_replace_all_no_match(s.skip(1), pat, repl);
        assert(seq![s[0]] + s.skip(1) =~= s);
    }
}

fn matches_at(t: &Vec<char>, pat: &Vec<char>, i: usize) -> (r: bool)
    requires
        i <= t@.len(),
    ensures
        r == has_prefix(t@.skip(i as int), pat@),
{
    if pat.len() > t.len() - i {
        assert(!has_prefix(t@.skip(i as int), pat@));
        return false;
    }
    let tlen: usize = t.len();
    let mut j: usize = 0;
    while j < pat.len()
        invariant
            0 <= j <= pat@.len(),
            i + pat@.len() <= t@.len(),
            tlen == t@.len(),
            forall|k: int| 0 <= k < j ==> t@[i + k] == pat@[k],
        decreases pat@.len() - j,
    {
        assert(i + j < tlen);
        if t[i + j] != pat[j] {
            assert(t@.skip(i as int)[j as int] != pat@[j as int]);
            assert(!has_prefix(t@.skip(i as int), pat@)) by {
                if has_prefix(t@.skip(i as int), pat@) {
                    assert(t@.skip(i as int).subrange(0, pat@.len() as int)[j as int] == pat@[
                    j as int]);
                }
            };
            return false;
        }
        j += 1;
    }
    proof {
        assert(t@.skip(i as int).subrange(0, pat@.len() as int) =~= pat@);
    }
    true
}

/// Replaces every occurrence of `pat` in `t` by `repl`, scanning left to
/// right without overlap.
pub fn replace_all_chars(t: &Vec<char>, pat: &Vec<char>, repl: &Vec<char>) -> (out: Vec<char>)
    requires
        pat@.len() > 0,
    ensures
        out@ == spec_replace_all(t@, pat@, repl@),
{
    let mut out: Vec<char> = Vec::new();
    let mut i: usize = 0;
    proof {
        assert(t@.skip(0) =~= t@);
        assert(out@ + spec_replace_all(t@, pat@, repl@) =~= spec_replace_all(t@, pat@, repl@));
    }
    while i < t.len()
        invariant
            0 <= i <= t@.len(),
            pat@.len() > 0,
            spec_replace_all(t@, pat@, repl@) == out@ + spec_replace_all(
                t@.skip(i as int),
                pat@,
                repl@,
            ),
        decreases t@.len() - i,
    {
        if matches_at(t, pat, i) {
            let ghost out_snap = out@;
            let mut k: usize = 0;
            while k < repl.len()
                invariant
                    0 <= k <= repl@.len(),
                    out@ == out_snap + repl@.subrange(0, k as int),
                decreases repl@.len() - k,
            {
                out.push(repl[k]);
                k += 1;
            }
            proof {
                assert(repl@.subrange(0, repl@.len() as int) =~= repl@);
                assert(t@.skip(i as int).skip(pat@.len() as int) =~= t@.skip(
                    i + pat@.len() as int,
                ));
                assert((out_snap + repl@) + spec_replace_all(t@.skip(i + pat@.len()), pat@, repl@)
                    =~= out_snap + (repl@ + spec_replace_all(
                    t@.skip(i as int).skip(pat@.len() as int),
                    pat@,
                    repl@,
                )));
            }
            i += pat.len();
        } else {
            out.push(t[i]);
            proof {
                assert(t@.skip(i as int).len() > 0);
                assert(t@.skip(i as int)[0] == t@[i as int]);
                assert(t@.skip(i as int).skip(1) =~= t@.skip(i + 1));
                assert((out@ + seq![t@[i as int]]) + spec_replace_all(t@.skip(i + 1), pat@, repl@)
                    =~= out@ + (seq![t@.skip(i as int)[0]] + spec_replace_all(
                    t@.skip(i as int).skip(1),
                    pat@,
                    repl@,
                )));
            }
            i += 1;
        }
    }
    proof {
        assert(t@.skip(t@.len() as int) =~= Seq::<char>::empty());
        assert(out@ + Seq::<char>::empty() =~= out@);
    }
    out
}

} // verus!
