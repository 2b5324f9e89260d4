//! Byte-string helpers shared by the codec and the command layer:
//! ASCII case folding, decimal parsing and formatting, and UTF-8 validity.
use vstd::prelude::*;

verus! {

use vstd::utf8::valid_utf8;

/// Maps an ASCII upper-case letter to its lower-case form and leaves
/// every other byte unchanged.
pub open spec fn lower_byte(b: u8) -> u8 {
    if 65 <= b <= 90 {
        (b + 32) as u8
    } else {
        b
    }
}

/// ASCII lower-casing of a byte sequence.
pub open spec fn lower_seq(s: Seq<u8>) -> Seq<u8> {
    s.map_values(|b: u8| lower_byte(b))
}

/// ASCII decimal digit.
pub open spec fn is_digit(b: u8) -> bool {
    48 <= b <= 57
}

/// Numeric value of one digit byte; zero for anything else.
pub open spec fn digit_of(b: u8) -> nat {
    if is_digit(b) {
        (b - 48) as nat
    } else {
        0
    }
}

/// Value of a digit string, most significant digit first.
pub open spec fn digits_val(s: Seq<u8>) -> nat
    decreases s.len(),
{
    if s.len() == 0 {
        0
    } else {
        digits_val(s.drop_last()) * 10 + digit_of(s.last())
    }
}

/// Length of the run of digit bytes starting at `from`.
pub open spec fn digit_run(s: Seq<u8>, from: int) -> int
    decreases s.len() - from,
{
    if from < 0 || from >= s.len() || !is_digit(s[from]) {
        0
    } else {
        1 + digit_run(s, from + 1)
    }
}

/// What `atoi` makes of a byte string, for an unsigned 64-bit target: an
/// optional sign byte, then the longest digit run; bytes after the run are
/// ignored.  `None` when the string starts with no sign and no digit, when
/// a minus sign precedes a non-zero value, or when the value overflows.
pub open spec fn spec_atoi_u64(s: Seq<u8>) -> Option<u64> {
    let off: int = if s.len() > 0 && (s[0] == 43 || s[0] == 45) {
        1
    } else {
        0
    };
    let k = digit_run(s, off);
    if off == 0 && k == 0 {
        None
    } else {
        let v = digits_val(s.subrange(off, off + k));
        if s.len() > 0 && s[0] == 45 {
            if v == 0 {
                Some(0u64)
            } else {
                None
            }
        } else if v > u64::MAX {
            None
        } else {
            Some(v as u64)
        }
    }
}

/// Decimal digit string of a number, most significant digit first,
/// without leading zeros.
pub open spec fn dec_digits(n: nat) -> Seq<u8>
    decreases n,
{
    if n < 10 {
        seq![(48 + n) as u8]
    } else {
        dec_digits(n / 10).push((48 + n % 10) as u8)
    }
}

/// Relies on `atoi::atoi::<u64>`: it skips one optional `+`/`-` byte, reads
/// the longest run of ASCII digits there, and ignores whatever follows the
/// run.  It returns `None` when sign and digit run are both absent, when the
/// digits overflow a `u64`, or when a `-` sign precedes a non-zero value;
/// `-0`, `+` and `-` alone parse as zero.
#[verifier::external_body]
pub fn atoi_u64(text: &[u8]) -> (r: Option<u64>)
    ensures
        r == spec_atoi_u64(text@),
{
    atoi::atoi::<u64>(text)
}

/// Relies on `itoa::Buffer::format`: it writes exactly the decimal digit
/// string of the value, without sign or leading zeros.
#[verifier::external_body]
pub fn format_u64(n: u64) -> (r: Vec<u8>)
    ensures
        r@ == dec_digits(n as nat),
{
    let mut buf = itoa::Buffer::new();
    buf.format(n).as_bytes().to_vec()
}

/// Relies on `core::str::from_utf8`: it succeeds exactly on the byte
/// strings that are well-formed UTF-8.
#[verifier::external_body]
pub fn utf8_check(v: &[u8]) -> (r: bool)
    ensures
        r == valid_utf8(v@),
{
    core::str::from_utf8(v).is_ok()
}

/// ASCII lower-casing of a byte vector, used for case-insensitive
/// command-name dispatch.
pub fn to_ascii_lower(v: &[u8]) -> (r: Vec<u8>)
    ensures
        r@ == lower_seq(v@),
{
    let mut out: Vec<u8> = Vec::new();
    let mut i: usize = 0;
    while i < v.len()
        invariant
            i <= v.len(),
            out@ == lower_seq(v@.take(i as int)),
        decreases v.len() - i,
    {
        let b = v[i];
        let lowered = if 65 <= b && b <= 90 {
            b + 32
        } else {
            b
        };
        out.push(lowered);
        proof {
            assert(lower_seq(v@.take(i + 1)) =~= lower_seq(v@.take(i as int)).push(
                lower_byte(v@[i as int]),
            ));
        }
        i = i + 1;
    }
    proof {
        assert(v@.take(v@.len() as int) =~= v@);
    }
    out
}

/// Byte-for-byte equality of two byte strings.
pub fn eq_bytes(a: &[u8], b: &[u8]) -> (r: bool)
    ensures
        r == (a@ == b@),
{
    if a.len() != b.len() {
        proof {
            assert(a@ != b@) by {
                if a@ == b@ {
                    assert(a@.len() == b@.len());
                }
            }
        }
        return false;
    }
    let mut i: usize = 0;
    while i < a.len()
        invariant
            i <= a.len(),
            a@.len() == b@.len(),
            forall|j: int| 0 <= j < i ==> a@[j] == b@[j],
        decreases a.len() - i,
    {
        if a[i] != b[i] {
            return false;
        }
        i = i + 1;
    }
    proof {
        assert(a@ =~= b@);
    }
    true
}

/// The digits of a number are digit bytes, and evaluate back to it.
pub proof fn lemma_dec_digits(n: nat)
    ensures
        dec_digits(n).len() >= 1,
        forall|i: int| 0 <= i < dec_digits(n).len() ==> is_digit(#[trigger] dec_digits(n)[i]),
        digits_val(dec_digits(n)) == n,
    decreases n,
{
    if n < 10 {
        assert(dec_digits(n) =~= seq![(48 + n) as u8]);
        assert(dec_digits(n).drop_last() =~= Seq::<u8>::empty());
        assert(digit_of((48 + n) as u8) == n);
        assert(digits_val(dec_digits(n)) == digits_val(dec_digits(n).drop_last()) * 10 + digit_of(
            dec_digits(n).last(),
        ));
        assert(digits_val(dec_digits(n).drop_last()) == 0);
        assert(dec_digits(n).last() == (48 + n) as u8);
    } else {
        lemma_dec_digits(n / 10);
        assert(dec_digits(n).drop_last() =~= dec_digits(n / 10));
        assert(dec_digits(n).last() == (48 + n % 10) as u8);
        assert(digit_of((48 + n % 10) as u8) == n % 10);
        assert(digits_val(dec_digits(n)) == digits_val(dec_digits(n / 10)) * 10 + n % 10);
        assert(n / 10 * 10 + n % 10 == n) by (nonlinear_arith);
    }
}

/// `atoi` undoes decimal formatting: the digit string of `n` parses
/// back to `n`, also when other bytes follow it, as long as the byte
/// right after the digits is not itself a digit.
pub proof fn lemma_atoi_dec_digits(n: u64, tail: Seq<u8>)
    requires
        tail.len() == 0 || !is_digit(tail[0]),
    ensures
        spec_atoi_u64(dec_digits(n as nat) + tail) == Some(n),
{
    let d = dec_digits(n as nat);
    let s = d + tail;
    lemma_dec_digits(n as nat);
    assert(is_digit(s[0]));
    assert(s[0] != 43 && s[0] != 45);
    lemma_digit_run_exact(s, 0, d.len() as int);
    assert(s.subrange(0, d.len() as int) =~= d);
}

/// A digit run covering exactly `[from, from + k)` has length `k`.
pub proof fn lemma_digit_run_exact(s: Seq<u8>, from: int, k: int)
    requires
        0 <= from,
        0 <= k,
        from + k <= s.len(),
        forall|i: int| from <= i < from + k ==> is_digit(#[trigger] s[i]),
        from + k == s.len() || !is_digit(s[from + k]),
    ensures
        digit_run(s, from) == k,
    decreases k,
{
    if k == 0 {
    } else {
        lemma_digit_run_exact(s, from + 1, k - 1);
    }
}

} // verus!
