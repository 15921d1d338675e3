//! Size of one length's index space, and its division into worker ranges.
use vstd::arithmetic::div_mod::*;
use vstd::arithmetic::power::*;
use vstd::prelude::*;

use crate::candidate::space_size;

verus! {

/// Indices per worker: `total / workers`, rounded up.
pub open spec fn chunk_size(total: int, workers: int) -> int {
    if total % workers == 0 {
        total / workers
    } else {
        total / workers + 1
    }
}

/// Where range `i` starts, and range `i - 1` ends: `min(i * chunk, total)`.
pub open spec fn boundary(total: int, workers: int, i: int) -> int {
    let c = chunk_size(total, workers);
    if i * c < total {
        i * c
    } else {
        total
    }
}

/// Range `i` holds index `x`.
pub open spec fn in_range(total: int, workers: int, i: int, x: int) -> bool {
    boundary(total, workers, i) <= x < boundary(total, workers, i + 1)
}

/// Some range holds index `x`.
pub open spec fn covered(total: int, workers: int, x: int) -> bool {
    exists|i: int| 0 <= i < workers && #[trigger] in_range(total, workers, i, x)
}

/// The count of candidates of `length` symbols over `alphabet_len` symbols, or
/// `None` where it does not fit in a `u64`.
pub fn index_space(alphabet_len: usize, length: usize) -> (r: Option<u64>)
    ensures
        space_size(alphabet_len as nat, length as nat) <= u64::MAX <==> r is Some,
        r matches Some(t) ==> t == space_size(alphabet_len as nat, length as nat),
{
    let a = alphabet_len as u64;
    let mut t: u64 = 1;
    let mut k: usize = 0;
    proof {
        reveal(pow);
    }
    while k < length
        invariant
            k <= length,
            a == alphabet_len,
            t == pow(a as int, k as nat),
        decreases length - k,
    {
        proof {
            reveal(pow);
            assert(pow(a as int, (k + 1) as nat) == a * pow(a as int, k as nat));
        }
        match t.checked_mul(a) {
            Some(n) => {
                t = n;
            },
            None => {
                proof {
                    assert(t * a > u64::MAX);
                    assert(a >= 2) by (nonlinear_arith)
                        requires
                            t * a > u64::MAX,
                            t <= u64::MAX,
                    ;
                    lemma_pow_increases(a as nat, (k + 1) as nat, length as nat);
                }
                return None;
            },
        }
        k = k + 1;
    }
    Some(t)
}

/// Splits `[0, total)` into `workers` contiguous ranges of `chunk_size` indices
/// each; the ranges at the end may be shorter, down to empty.
pub fn partition(total: u64, workers: usize) -> (r: Vec<(u64, u64)>)
    requires
        workers >= 1,
    ensures
        r@.len() == workers,
        forall|i: int|
            0 <= i < workers ==> r@[i].0 == boundary(total as int, workers as int, i) && r@[i].1
                == boundary(total as int, workers as int, i + 1),
{
    let w = workers as u64;
    proof {
        lemma_fundamental_div_mod(total as int, w as int);
        assert(total / w <= total) by {
            lemma_div_is_ordered_by_denominator(total as int, 1, w as int);
        }
        if total % w != 0 {
            assert(total / w < total) by (nonlinear_arith)
                requires
                    total / w <= total,
                    total % w != 0,
                    total == w * (total / w) + total % w,
                    w >= 1,
            {
            }
        }
    }
    let chunk: u64 = if total % w == 0 {
        total / w
    } else {
        total / w + 1
    };
    let mut r: Vec<(u64, u64)> = Vec::new();
    let mut start: u64 = 0;
    let mut i: usize = 0;
    while i < workers
        invariant
            i <= workers,
            w == workers,
            chunk == chunk_size(total as int, workers as int),
            r@.len() == i,
            start == boundary(total as int, workers as int, i as int),
            forall|j: int|
                0 <= j < i ==> r@[j].0 == boundary(total as int, workers as int, j) && r@[j].1
                    == boundary(total as int, workers as int, j + 1),
        decreases workers - i,
    {
        let end: u64 = if total - start > chunk {
            start + chunk
        } else {
            total
        };
        proof {
            let c = chunk as int;
            assert((i + 1) * c == i * c + c) by (nonlinear_arith);
            assert(i * c >= 0) by (nonlinear_arith)
                requires
                    c >= 0,
            ;
        }
        r.push((start, end));
        start = end;
        i = i + 1;
    }
    r
}

/// The ranges cut for `workers` workers cover `[0, total)` exactly: the first
/// starts at 0, the last ends at `total`, each ends where the next starts, and
/// every index below `total` lies in one range and in no other.
pub proof fn lemma_partition_covers(total: nat, workers: nat)
    requires
        workers >= 1,
    ensures
        boundary(total as int, workers as int, 0) == 0,
        boundary(total as int, workers as int, workers as int) == total,
        forall|i: int|
            0 <= i < workers ==> #[trigger] boundary(total as int, workers as int, i) <= boundary(
                total as int,
                workers as int,
                i + 1,
            ),
        forall|x: int| 0 <= x < total ==> #[trigger] covered(total as int, workers as int, x),
        forall|i: int, j: int, x: int|
            0 <= i < workers && 0 <= j < workers && #[trigger] in_range(
                total as int,
                workers as int,
                i,
                x,
            ) && #[trigger] in_range(total as int, workers as int, j, x) ==> i == j,
{
    let t = total as int;
    let w = workers as int;
    let c = chunk_size(t, w);
    lemma_fundamental_div_mod(t, w);
    lemma_div_pos_is_pos(t, w);
    assert(w * c >= t) by (nonlinear_arith)
        requires
            t == w * (t / w) + t % w,
            c == (if t % w == 0 {
                t / w
            } else {
                t / w + 1
            }),
            0 <= t % w < w,
    ;
    assert(c >= 0);
    assert forall|i: int, j: int| i <= j implies #[trigger] boundary(t, w, i) <= #[trigger] boundary(
        t,
        w,
        j,
    ) by {
        assert(i * c <= j * c) by (nonlinear_arith)
            requires
                i <= j,
                c >= 0,
        ;
    }
    assert(boundary(t, w, 0) == 0) by {
        assert(0 * c == 0);
    }
    assert forall|x: int| 0 <= x < total implies #[trigger] covered(t, w, x) by {
        assert(c > 0) by (nonlinear_arith)
            requires
                w * c >= t,
                t > x >= 0,
                c >= 0,
        ;
        let i = x / c;
        lemma_fundamental_div_mod(x, c);
        lemma_div_pos_is_pos(x, c);
        lemma_mod_pos_bound(x, c);
        assert(i * c <= x < (i + 1) * c) by (nonlinear_arith)
            requires
                x == c * i + x % c,
                0 <= x % c < c,
        ;
        assert(i < w) by (nonlinear_arith)
            requires
                i * c <= x,
                x < t,
                w * c >= t,
                c > 0,
        ;
        assert(in_range(t, w, i, x));
    }
    assert forall|i: int, j: int, x: int|
        0 <= i < workers && 0 <= j < workers && #[trigger] in_range(t, w, i, x) && #[trigger] in_range(
            t,
            w,
            j,
            x,
        ) implies i == j by {
        if i < j {
            assert(boundary(t, w, i + 1) <= boundary(t, w, j));
        } else if j < i {
            assert(boundary(t, w, j + 1) <= boundary(t, w, i));
        }
    }
}

} // verus!
