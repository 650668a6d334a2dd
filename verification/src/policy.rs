use vstd::prelude::*;
use crate::error::SpritesheetErr;

verus! {

/// Floor of the square root of `n`.
pub open spec fn isqrt(n: nat) -> nat
    decreases n,
{
    if n == 0 {
        0
    } else {
        let r = isqrt((n - 1) as nat);
        if (r + 1) * (r + 1) <= n {
            r + 1
        } else {
            r
        }
    }
}

/// `isqrt(n)` is the unique `r` with `r * r <= n < (r + 1) * (r + 1)`.
pub proof fn lemma_isqrt_bounds(n: nat)
    ensures
        isqrt(n) * isqrt(n) <= n,
        n < (isqrt(n) + 1) * (isqrt(n) + 1),
    decreases n,
{
    if n > 0 {
        lemma_isqrt_bounds((n - 1) as nat);
        let r = isqrt((n - 1) as nat);
        assert(r * r <= n - 1);
        assert(n - 1 < (r + 1) * (r + 1));
        if (r + 1) * (r + 1) <= n {
            assert(isqrt(n) == r + 1);
            assert(n <= (r + 1) * (r + 1));
            assert((r + 1) * (r + 1) < (r + 2) * (r + 2)) by (nonlinear_arith);
            assert(n < (isqrt(n) + 1) * (isqrt(n) + 1));
        } else {
            assert(isqrt(n) == r);
        }
    } else {
        assert(n == 0);
        assert(isqrt(n) == 0);
        assert(isqrt(n) * isqrt(n) <= n);
        assert((isqrt(n) + 1) * (isqrt(n) + 1) == 1) by (nonlinear_arith)
            requires
                isqrt(n) == 0,
        ;
    }
}

pub proof fn lemma_isqrt_unique(n: nat, r: nat)
    requires
        r * r <= n,
        n < (r + 1) * (r + 1),
    ensures
        r == isqrt(n),
{
    lemma_isqrt_bounds(n);
    let s = isqrt(n);
    if r < s {
        assert((r + 1) * (r + 1) <= s * s) by (nonlinear_arith)
            requires
                r + 1 <= s,
        ;
    }
    if s < r {
        assert((s + 1) * (s + 1) <= r * r) by (nonlinear_arith)
            requires
                s + 1 <= r,
        ;
    }
}

/// Automatic row-count mode: the floor of the square root of the image count
/// gives a near-square layout, clamped to at least one so the composed canvas
/// is never degenerate.
pub fn calculate_row_count(images_count: usize) -> (r: u32)
    ensures
        r >= 1,
        images_count == 0 ==> r == 1,
        images_count >= 1 ==> r as nat == isqrt(images_count as nat),
{
    let n: u64 = images_count as u64;
    if n == 0 {
        return 1;
    }
    let mut lo: u64 = 1;
    let mut hi: u64 = 0x1_0000_0000;
    while hi - lo > 1
        invariant
            1 <= lo < hi <= 0x1_0000_0000u64,
            (lo as int) * (lo as int) <= n as int,
            (n as int) < (hi as int) * (hi as int),
        decreases hi - lo,
    {
        let mid: u64 = lo + (hi - lo) / 2;
        proof {
            assert((mid as int) * (mid as int) <= 0xffff_ffff_ffff_ffff) by (nonlinear_arith)
                requires
                    mid <= 0xffff_ffffu64,
            ;
        }
        let sq: u64 = mid * mid;
        if sq <= n {
            lo = mid;
        } else {
            hi = mid;
        }
    }
    proof {
        lemma_isqrt_unique(n as nat, lo as nat);
    }
    lo as u32
}

/// An ASCII decimal digit.
pub open spec fn is_digit(b: u8) -> bool {
    0x30 <= b <= 0x39
}

pub open spec fn all_digits(s: Seq<u8>) -> bool {
    forall|i: int| 0 <= i < s.len() ==> is_digit(s[i])
}

/// The value of a string of decimal digits, most significant first.
pub open spec fn digits_val(s: Seq<u8>) -> int
    decreases s.len(),
{
    if s.len() == 0 {
        0
    } else {
        digits_val(s.drop_last()) * 10 + s.last() - 0x30
    }
}

/// The digits of an unsigned decimal literal: an optional leading `+` sign is
/// stripped, as `u32` parsing accepts one.
pub open spec fn unsigned_body(s: Seq<u8>) -> Seq<u8> {
    if s.len() >= 1 && s[0] == 0x2bu8 {
        s.drop_first()
    } else {
        s
    }
}

/// Whether `s` is a valid decimal `u32`: a non-empty run of digits, after an
/// optional `+`, whose value fits.
pub open spec fn parses_as_u32(s: Seq<u8>) -> bool {
    let b = unsigned_body(s);
    b.len() >= 1 && all_digits(b) && digits_val(b) <= u32::MAX
}

pub proof fn lemma_digits_nonneg(s: Seq<u8>)
    requires
        all_digits(s),
    ensures
        digits_val(s) >= 0,
    decreases s.len(),
{
    if s.len() > 0 {
        assert(all_digits(s.drop_last()));
        lemma_digits_nonneg(s.drop_last());
    }
}

/// For a digit string, every prefix has a value no larger than the whole.
pub proof fn lemma_digits_prefix(s: Seq<u8>, j: int)
    requires
        all_digits(s),
        0 <= j <= s.len(),
    ensures
        digits_val(s.take(j)) <= digits_val(s),
    decreases s.len() - j,
{
    if j < s.len() {
        lemma_digits_prefix(s, j + 1);
        assert(s.take(j + 1).drop_last() =~= s.take(j));
        assert(all_digits(s.take(j)));
        lemma_digits_nonneg(s.take(j));
    } else {
        assert(s.take(j) =~= s);
    }
}

/// Manual row-count mode: parses the bytes of the typed line as an unsigned
/// decimal integer, exactly as `u32` string parsing would.
pub fn parse_row_count(s: &[u8]) -> (r: Result<u32, SpritesheetErr>)
    ensures
        match r {
            Ok(v) => parses_as_u32(s@) && v as int == digits_val(unsigned_body(s@)),
            Err(e) => e == SpritesheetErr::ParseError && !parses_as_u32(s@),
        },
{
    let start: usize = if s.len() >= 1 && s[0] == 0x2bu8 {
        1
    } else {
        0
    };
    proof {
        assert(unsigned_body(s@) =~= s@.subrange(start as int, s@.len() as int));
    }
    if s.len() == start {
        return Err(SpritesheetErr::ParseError);
    }
    let ghost body = unsigned_body(s@);
    let mut acc: u64 = 0;
    let mut i: usize = start;
    while i < s.len()
        invariant
            start <= i <= s@.len(),
            start <= 1,
            body == unsigned_body(s@),
            body =~= s@.subrange(start as int, s@.len() as int),
            all_digits(s@.subrange(start as int, i as int)),
            acc as int == digits_val(s@.subrange(start as int, i as int)),
            acc <= u32::MAX,
        decreases s@.len() - i,
    {
        let b: u8 = s[i];
        if b < 0x30 || b > 0x39 {
            proof {
                assert(body[i - start] == s@[i as int]);
                assert(!all_digits(body));
            }
            return Err(SpritesheetErr::ParseError);
        }
        let next: u64 = acc * 10 + ((b - 0x30) as u64);
        proof {
            assert(s@.subrange(start as int, i + 1).drop_last() =~= s@.subrange(
                start as int,
                i as int,
            ));
            assert(s@.subrange(start as int, i + 1).last() == b);
        }
        if next > 0xffff_ffffu64 {
            proof {
                if all_digits(body) {
                    assert(body.take(i + 1 - start) =~= s@.subrange(start as int, i + 1));
                    lemma_digits_prefix(body, i + 1 - start);
                }
            }
            return Err(SpritesheetErr::ParseError);
        }
        acc = next;
        i = i + 1;
    }
    proof {
        assert(s@.subrange(start as int, i as int) =~= body);
    }
    Ok(acc as u32)
}

} // verus!
