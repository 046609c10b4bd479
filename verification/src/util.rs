//! Small front-end helpers.

use vstd::prelude::*;
use vstd::string::StringSliceAdditionalSpecFns;

verus! {

/// An ASCII decimal digit.
pub open spec fn is_digit(c: u8) -> bool {
    48 <= c <= 57
}

/// The number the digit bytes `[from, to)` spell, most significant first.
pub open spec fn digits_val(b: Seq<u8>, from: int, to: int) -> int
    decreases to - from,
{
    if to <= from {
        0
    } else {
        digits_val(b, from, to - 1) * 10 + (b[to - 1] - 48)
    }
}

/// The bytes spell a resolution `WxH`: a nonempty digit run, one `x`, and
/// a second nonempty digit run, the two values being `w` and `h`.
pub open spec fn spells_resolution(b: Seq<u8>, i: int, w: usize, h: usize) -> bool {
    &&& 0 < i < b.len() - 1
    &&& b[i] == 120
    &&& forall|j: int| 0 <= j < i ==> is_digit(#[trigger] b[j])
    &&& forall|j: int| i < j < b.len() ==> is_digit(#[trigger] b[j])
    &&& w == digits_val(b, 0, i)
    &&& h == digits_val(b, i + 1, b.len() as int)
}

/// A digit run spells a nonnegative number.
proof fn lemma_digits_nonneg(b: Seq<u8>, from: int, k: int)
    requires
        from <= k <= b.len(),
        forall|j: int| from <= j < k ==> is_digit(#[trigger] b[j]),
    ensures
        digits_val(b, from, k) >= 0,
    decreases k - from,
{
    if k > from {
        lemma_digits_nonneg(b, from, k - 1);
        assert(digits_val(b, from, k - 1) * 10 >= 0) by (nonlinear_arith)
            requires
                digits_val(b, from, k - 1) >= 0,
        ;
    }
}

/// A longer digit run never spells a smaller number.
proof fn lemma_digits_grow(b: Seq<u8>, from: int, k: int, to: int)
    requires
        from <= k <= to <= b.len(),
        forall|j: int| from <= j < to ==> is_digit(#[trigger] b[j]),
    ensures
        digits_val(b, from, k) <= digits_val(b, from, to),
    decreases to - k,
{
    if k < to {
        lemma_digits_grow(b, from, k, to - 1);
        lemma_digits_nonneg(b, from, to - 1);
        assert(digits_val(b, from, to - 1) * 10 >= digits_val(b, from, to - 1))
            by (nonlinear_arith)
            requires
                digits_val(b, from, to - 1) >= 0,
        ;
    }
}

/// Reads the digit run `[from, to)` as a number, or nothing when a byte is
/// no digit or the value does not fit the machine word.
fn parse_digits(b: &[u8], from: usize, to: usize) -> (r: Option<usize>)
    requires
        from <= to <= b@.len(),
    ensures
        match r {
            Some(v) => (forall|j: int| from <= j < to ==> is_digit(#[trigger] b@[j])) && v
                == digits_val(b@, from as int, to as int),
            None => (exists|j: int| from <= j < to && !is_digit(#[trigger] b@[j])) || ((forall|
                j: int,
            | from <= j < to ==> is_digit(#[trigger] b@[j])) && digits_val(
                b@,
                from as int,
                to as int,
            ) > usize::MAX),
        },
{
    let mut v: usize = 0;
    let mut k = from;
    while k < to
        invariant
            from <= k <= to <= b@.len(),
            forall|j: int| from <= j < k ==> is_digit(#[trigger] b@[j]),
            v == digits_val(b@, from as int, k as int),
        decreases to - k,
    {
        let c = b[k];
        if c < 48 || c > 57 {
            return None;
        }
        let d = (c - 48) as usize;
        if v > (usize::MAX - d) / 10 {
            // the run's value has outgrown the machine word
            proof {
                assert(digits_val(b@, from as int, k as int + 1) > usize::MAX) by (nonlinear_arith)
                    requires
                        digits_val(b@, from as int, k as int + 1) == v * 10 + d,
                        v > (usize::MAX - d) / 10,
                        0 <= d <= 9,
                        v >= 0,
                ;
                if forall|j: int| from <= j < to ==> is_digit(#[trigger] b@[j]) {
                    lemma_digits_grow(b@, from as int, k as int + 1, to as int);
                } else {
                    assert(exists|j: int| from <= j < to && !is_digit(#[trigger] b@[j]));
                }
            }
            return None;
        }
        proof {
            assert(v * 10 + d <= usize::MAX) by (nonlinear_arith)
                requires
                    v <= (usize::MAX - d) / 10,
                    0 <= d <= 9,
                    v >= 0,
            ;
        }
        v = v * 10 + d;
        k = k + 1;
    }
    Some(v)
}

/// The position of the first `x` byte at or after `k`, or the length.
pub open spec fn first_x(b: Seq<u8>, k: int) -> int
    decreases b.len() - k,
{
    if k < 0 || k >= b.len() {
        b.len() as int
    } else if b[k] == 120 {
        k
    } else {
        first_x(b, k + 1)
    }
}

/// The result is right for the bytes: a parsed pair is what they spell
/// around their first separator, and a refusal means no position spells a
/// resolution.
pub open spec fn resolution_ok(b: Seq<u8>, r: Option<(usize, usize)>) -> bool {
    match r {
        Some((w, h)) => spells_resolution(b, first_x(b, 0), w, h),
        None => forall|i: int, w: usize, h: usize|
            !(#[trigger] spells_resolution(b, i, w, h)),
    }
}

/// With no `x` before `i` and one at `i` (or none at all and `i` the
/// length), the first `x` sits at `i`.
proof fn lemma_first_x(b: Seq<u8>, k: int, i: int)
    requires
        0 <= k <= i <= b.len(),
        forall|j: int| 0 <= j < i ==> b[j] != 120,
        i < b.len() ==> b[i] == 120,
    ensures
        first_x(b, k) == i,
    decreases i - k,
{
    if k < i {
        lemma_first_x(b, k + 1, i);
    }
}

/// Parses a resolution written as `800x600`: the two numbers, or nothing
/// when the text is not one digit run, one `x`, and a second digit run
/// with both values fitting the machine word.
pub fn parse_resolution(res: &str) -> (r: Option<(usize, usize)>)
    ensures
        resolution_ok(res.spec_bytes(), r),
{
    let b = res.as_bytes();
    let n = b.len();
    // exactly one separator
    let mut xi: usize = 0;
    let mut found = false;
    let mut k: usize = 0;
    while k < n
        invariant
            k <= n,
            n == b@.len(),
            b@ == res.spec_bytes(),
            !found ==> forall|j: int| 0 <= j < k ==> b@[j] != 120,
            found ==> xi < k && b@[xi as int] == 120,
            found ==> forall|j: int| 0 <= j < k && j != xi ==> b@[j] != 120,
        decreases n - k,
    {
        if b[k] == 120 {
            if found {
                // a second separator sits inside one of the digit runs
                proof {
                    assert forall|i: int, w: usize, h: usize|
                        !(#[trigger] spells_resolution(res.spec_bytes(), i, w, h)) by {
                        if spells_resolution(res.spec_bytes(), i, w, h) {
                            if i != xi {
                                assert(!is_digit(b@[xi as int]));
                            }
                            if i != k {
                                assert(!is_digit(b@[k as int]));
                            }
                        }
                    }
                }
                return None;
            }
            xi = k;
            found = true;
        }
        k = k + 1;
    }
    if !found {
        proof {
            assert forall|i: int, w: usize, h: usize|
                !(#[trigger] spells_resolution(res.spec_bytes(), i, w, h)) by {}
        }
        return None;
    }
    if xi == 0 || xi + 1 == n {
        proof {
            assert forall|i: int, w: usize, h: usize|
                !(#[trigger] spells_resolution(res.spec_bytes(), i, w, h)) by {
                if spells_resolution(res.spec_bytes(), i, w, h) {
                    if i != xi {
                        assert(!is_digit(b@[xi as int]));
                    }
                }
            }
        }
        return None;
    }
    let w = match parse_digits(b, 0, xi) {
        Some(v) => v,
        None => {
            proof {
                assert forall|i: int, w: usize, h: usize|
                    !(#[trigger] spells_resolution(res.spec_bytes(), i, w, h)) by {
                    if spells_resolution(res.spec_bytes(), i, w, h) {
                        if i != xi {
                            assert(!is_digit(b@[xi as int]));
                        }
                    }
                }
            }
            return None;
        },
    };
    let h = match parse_digits(b, xi + 1, n) {
        Some(v) => v,
        None => {
            proof {
                assert forall|i: int, w: usize, h: usize|
                    !(#[trigger] spells_resolution(res.spec_bytes(), i, w, h)) by {
                    if spells_resolution(res.spec_bytes(), i, w, h) {
                        if i != xi {
                            assert(!is_digit(b@[xi as int]));
                        }
                    }
                }
            }
            return None;
        },
    };
    proof {
        lemma_first_x(res.spec_bytes(), 0, xi as int);
        assert(spells_resolution(res.spec_bytes(), xi as int, w, h));
    }
    Some((w, h))
}

} // verus!
