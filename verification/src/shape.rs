//! The shape tracker: a stack of strided views over a flat buffer, through
//! which reshapes, permutes, expands, slices and pads resolve to physical
//! offsets without moving any data.

use vstd::arithmetic::div_mod::lemma_fundamental_div_mod_converse;
use vstd::arithmetic::div_mod::lemma_mod_bound;
use vstd::arithmetic::div_mod::lemma_mod_breakdown;
use vstd::arithmetic::div_mod::lemma_small_mod;
use vstd::prelude::*;

verus! {

/// The errors of the shape algebra.
#[derive(Clone, Copy, Debug, PartialEq, Eq, Structural)]
pub enum ShapeError {
    /// The new shape has another number of elements than the old one.
    IncompatibleReshape,
    /// A view operator does not fit the shape that it is applied to.
    IncompatibleShape,
    /// The shape has more elements than the machine can count.
    TooLarge,
}

/// The product of the axis lengths from axis `k` on.
pub open spec fn tail_numel(shape: Seq<usize>, k: int) -> int
    decreases shape.len() - k,
{
    if 0 <= k < shape.len() {
        shape[k] * tail_numel(shape, k + 1)
    } else {
        1
    }
}

/// The number of elements of a tensor of the given shape.
pub open spec fn numel(shape: Seq<usize>) -> int {
    tail_numel(shape, 0)
}

/// The product of the axis lengths from axis `k` on, with every axis of
/// length zero counted as one.
pub open spec fn tail_capacity(shape: Seq<usize>, k: int) -> int
    decreases shape.len() - k,
{
    if 0 <= k < shape.len() {
        (if shape[k] == 0 {
            1
        } else {
            shape[k] as int
        }) * tail_capacity(shape, k + 1)
    } else {
        1
    }
}

/// The size that decides whether a shape can be tracked: its element count
/// with every axis of length zero counted as one. For a shape without such an
/// axis this is the element count itself.
pub open spec fn capacity(shape: Seq<usize>) -> int {
    tail_capacity(shape, 0)
}

/// The capacity of a tail is at least one and no more than that of the tail
/// that is one axis longer.
proof fn lemma_tail_step(shape: Seq<usize>, k: int)
    requires
        0 <= k < shape.len(),
    ensures
        1 <= tail_capacity(shape, k + 1) <= tail_capacity(shape, k),
    decreases shape.len() - k,
{
    if k + 1 < shape.len() {
        lemma_tail_step(shape, k + 1);
    }
    let d: int = if shape[k] == 0 {
        1
    } else {
        shape[k] as int
    };
    let b = tail_capacity(shape, k + 1);
    assert(b <= d * b) by (nonlinear_arith)
        requires
            1 <= d,
            1 <= b,
    ;
}

/// The capacity of a tail is no more than that of the whole shape.
proof fn lemma_tail_upto(shape: Seq<usize>, k: int)
    requires
        0 <= k < shape.len(),
    ensures
        tail_capacity(shape, k) <= capacity(shape),
    decreases k,
{
    if k > 0 {
        lemma_tail_upto(shape, k - 1);
        lemma_tail_step(shape, k - 1);
    }
}

/// Element counts are never negative and never above the capacity, and the
/// capacity of a tail is at least one and at most that of a longer tail.
pub proof fn lemma_tail_bounds(shape: Seq<usize>, k: int)
    requires
        0 <= k <= shape.len(),
    ensures
        0 <= tail_numel(shape, k) <= tail_capacity(shape, k),
        1 <= tail_capacity(shape, k) <= capacity(shape),
    decreases shape.len() - k, k,
{
    if k < shape.len() {
        lemma_tail_bounds(shape, k + 1);
        let d: int = if shape[k] == 0 {
            1
        } else {
            shape[k] as int
        };
        let a = tail_numel(shape, k + 1);
        let b = tail_capacity(shape, k + 1);
        assert(0 <= shape[k] * a <= d * b) by (nonlinear_arith)
            requires
                0 <= shape[k] <= d,
                0 <= a <= b,
        ;
        assert(b <= d * b) by (nonlinear_arith)
            requires
                1 <= d,
                1 <= b,
        ;
    }
    if k > 0 {
        lemma_tail_step(shape, k - 1);
        lemma_tail_upto(shape, k - 1);
    }
}

/// A tail with elements has no axis of length zero.
proof fn lemma_all_positive(shape: Seq<usize>, k: int)
    requires
        0 <= k <= shape.len(),
        tail_numel(shape, k) > 0,
    ensures
        forall|i: int| k <= i < shape.len() ==> shape[i] > 0,
    decreases shape.len() - k,
{
    if k < shape.len() {
        lemma_tail_bounds(shape, k + 1);
        let a = tail_numel(shape, k + 1);
        assert(shape[k] > 0 && a > 0) by (nonlinear_arith)
            requires
                shape[k] * a > 0,
                shape[k] >= 0,
                a >= 0,
        ;
        lemma_all_positive(shape, k + 1);
    }
}

/// A shape with elements has no axis of length zero, so each of its tails
/// has as many elements as its capacity says.
pub proof fn lemma_tail_full(shape: Seq<usize>, k: int)
    requires
        0 <= k <= shape.len(),
        numel(shape) > 0,
    ensures
        tail_numel(shape, k) == tail_capacity(shape, k),
        forall|i: int| 0 <= i < shape.len() ==> shape[i] > 0,
    decreases shape.len() - k, k,
{
    lemma_all_positive(shape, 0);
    if k < shape.len() {
        lemma_tail_full(shape, k + 1);
    }
}

/// A shape without an axis of length zero has elements, as many as its
/// capacity says.
pub proof fn lemma_positive_numel(shape: Seq<usize>, k: int)
    requires
        0 <= k <= shape.len(),
        forall|i: int| 0 <= i < shape.len() ==> shape[i] > 0,
    ensures
        tail_numel(shape, k) == tail_capacity(shape, k),
        tail_numel(shape, k) >= 1,
    decreases shape.len() - k,
{
    lemma_tail_bounds(shape, k);
    if k < shape.len() {
        lemma_positive_numel(shape, k + 1);
    }
}

/// A shape with an axis of length zero has no element.
pub proof fn lemma_empty_axis(shape: Seq<usize>, i: int)
    requires
        0 <= i < shape.len(),
        shape[i] == 0,
    ensures
        numel(shape) == 0,
{
    if numel(shape) > 0 {
        lemma_tail_full(shape, 0);
    } else {
        lemma_tail_bounds(shape, 0);
    }
}

/// A shape whose axes are no longer than those of another has no greater
/// capacity.
pub proof fn lemma_capacity_mono(s: Seq<usize>, t: Seq<usize>, k: int)
    requires
        s.len() == t.len(),
        0 <= k <= s.len(),
        forall|i: int| 0 <= i < s.len() ==> s[i] <= t[i],
    ensures
        tail_capacity(s, k) <= tail_capacity(t, k),
    decreases s.len() - k,
{
    if k < s.len() {
        lemma_capacity_mono(s, t, k + 1);
        lemma_tail_bounds(s, k + 1);
        let a: int = if s[k] == 0 {
            1
        } else {
            s[k] as int
        };
        let b: int = if t[k] == 0 {
            1
        } else {
            t[k] as int
        };
        let x = tail_capacity(s, k + 1);
        let y = tail_capacity(t, k + 1);
        assert(a * x <= b * y) by (nonlinear_arith)
            requires
                1 <= a <= b,
                1 <= x <= y,
        ;
    }
}

/// The capacity of a shape, if the machine can count it.
pub fn checked_capacity(shape: &Vec<usize>) -> (r: Option<usize>)
    ensures
        match r {
            Some(c) => c == capacity(shape@),
            None => capacity(shape@) > usize::MAX,
        },
{
    let n = shape.len();
    let mut cap: usize = 1;
    let mut k: usize = n;
    while k > 0
        invariant
            k <= n,
            n == shape@.len(),
            cap == tail_capacity(shape@, k as int),
        decreases k,
    {
        k -= 1;
        let d = if shape[k] == 0 {
            1
        } else {
            shape[k]
        };
        proof {
            lemma_tail_bounds(shape@, k as int);
        }
        match d.checked_mul(cap) {
            Some(c) => {
                cap = c;
            },
            None => {
                return None;
            },
        }
    }
    Some(cap)
}

/// The number of elements of a shape that the machine can track.
pub fn count(shape: &Vec<usize>) -> (r: usize)
    requires
        capacity(shape@) <= usize::MAX,
    ensures
        r == numel(shape@),
{
    let n = shape.len();
    let mut total: usize = 1;
    let mut k: usize = n;
    while k > 0
        invariant
            k <= n,
            n == shape@.len(),
            capacity(shape@) <= usize::MAX,
            total == tail_numel(shape@, k as int),
        decreases k,
    {
        k -= 1;
        proof {
            lemma_tail_bounds(shape@, k as int);
        }
        total = shape[k] * total;
    }
    total
}

/// The strides of a dense row-major layout of the shape: for each axis the
/// number of elements of the axes after it.
pub fn row_major(shape: &Vec<usize>) -> (strides: Vec<usize>)
    requires
        capacity(shape@) <= usize::MAX,
    ensures
        strides@.len() == shape@.len(),
        forall|i: int| 0 <= i < shape@.len() ==> strides@[i] == tail_numel(shape@, i + 1),
{
    let n = shape.len();
    let mut strides: Vec<usize> = Vec::new();
    let mut i: usize = 0;
    while i < n
        invariant
            i <= n,
            strides@.len() == i,
        decreases n - i,
    {
        strides.push(0);
        i += 1;
    }
    let mut step: usize = 1;
    let mut k: usize = n;
    while k > 0
        invariant
            k <= n,
            n == shape@.len(),
            strides@.len() == n,
            capacity(shape@) <= usize::MAX,
            step == tail_numel(shape@, k as int),
            forall|i: int| k <= i < n ==> strides@[i] == tail_numel(shape@, i + 1),
        decreases k,
    {
        k -= 1;
        strides.set(k, step);
        proof {
            lemma_tail_bounds(shape@, k as int);
        }
        step = shape[k] * step;
    }
    strides
}

/// A copy of a list of lengths.
pub(crate) fn copy_dims(dims: &Vec<usize>) -> (out: Vec<usize>)
    ensures
        out@ == dims@,
{
    let mut out: Vec<usize> = Vec::new();
    let n = dims.len();
    let mut i: usize = 0;
    while i < n
        invariant
            i <= n,
            n == dims@.len(),
            out@ == dims@.take(i as int),
        decreases n - i,
    {
        out.push(dims[i]);
        proof {
            assert(dims@.take(i + 1) =~= dims@.take(i as int).push(dims@[i as int]));
        }
        i += 1;
    }
    proof {
        assert(dims@.take(n as int) =~= dims@);
    }
    out
}

/// The sum of the entries of `t` from position `k` on.
pub open spec fn sum_from(t: Seq<int>, k: int) -> int
    decreases t.len() - k,
{
    if 0 <= k < t.len() {
        t[k] + sum_from(t, k + 1)
    } else {
        0
    }
}

/// A sum from a position on is the term there and the sum from the next
/// position on.
proof fn lemma_sum_nonneg_step(t: Seq<int>, k: int)
    requires
        0 <= k < t.len(),
    ensures
        sum_from(t, k) == t[k] + sum_from(t, k + 1),
{
}

/// A sum of terms that are not negative is not negative.
pub proof fn lemma_sum_nonneg(t: Seq<int>, k: int)
    requires
        0 <= k <= t.len(),
        forall|i: int| k <= i < t.len() ==> 0 <= t[i],
    ensures
        0 <= sum_from(t, k),
    decreases t.len() - k,
{
    if k < t.len() {
        lemma_sum_nonneg(t, k + 1);
    }
}

/// Sums grow with their terms.
pub proof fn lemma_sum_mono(s: Seq<int>, t: Seq<int>, k: int)
    requires
        s.len() == t.len(),
        0 <= k <= s.len(),
        forall|i: int| k <= i < s.len() ==> s[i] <= t[i],
    ensures
        sum_from(s, k) <= sum_from(t, k),
    decreases s.len() - k,
{
    if k < s.len() {
        lemma_sum_mono(s, t, k + 1);
    }
}

/// Sums of terms that agree from `k` on agree.
pub proof fn lemma_sum_same(s: Seq<int>, t: Seq<int>, k: int)
    requires
        s.len() == t.len(),
        0 <= k <= s.len(),
        forall|i: int| k <= i < s.len() ==> s[i] == t[i],
    ensures
        sum_from(s, k) == sum_from(t, k),
    decreases s.len() - k,
{
    if k < s.len() {
        lemma_sum_same(s, t, k + 1);
    }
}

/// The sum of two lists of terms is the sum of their sums.
pub proof fn lemma_sum_add(s: Seq<int>, t: Seq<int>, k: int)
    requires
        s.len() == t.len(),
        0 <= k <= s.len(),
    ensures
        sum_from(Seq::new(s.len(), |i: int| s[i] + t[i]), k) == sum_from(s, k) + sum_from(t, k),
    decreases s.len() - k,
{
    if k < s.len() {
        lemma_sum_add(s, t, k + 1);
    }
}

/// The sum (or, with `times`, the product) of the entries of `t` from
/// position `k` on.
pub open spec fn fold_from(t: Seq<int>, k: int, times: bool) -> int
    decreases t.len() - k,
{
    if 0 <= k < t.len() {
        if times {
            t[k] * fold_from(t, k + 1, times)
        } else {
            t[k] + fold_from(t, k + 1, times)
        }
    } else if times {
        1
    } else {
        0
    }
}

/// Tails that agree entry by entry fold to the same value.
proof fn lemma_fold_shift(a: Seq<int>, ka: int, b: Seq<int>, kb: int, times: bool)
    requires
        0 <= ka <= a.len(),
        0 <= kb <= b.len(),
        a.len() - ka == b.len() - kb,
        forall|i: int| ka <= i < a.len() ==> #[trigger] a[i] == b[i - ka + kb],
    ensures
        fold_from(a, ka, times) == fold_from(b, kb, times),
    decreases a.len() - ka,
{
    if ka < a.len() {
        assert(a[ka] == b[ka - ka + kb]);
        assert forall|i: int| ka + 1 <= i < a.len() implies #[trigger] a[i] == b[i - (ka + 1)
            + (kb + 1)] by {
            assert(a[i] == b[i - ka + kb]);
        }
        lemma_fold_shift(a, ka + 1, b, kb + 1, times);
    }
}

/// An entry can be taken out of a fold and put in front of it.
proof fn lemma_fold_remove(t: Seq<int>, j: int, k: int, times: bool)
    requires
        0 <= k <= j < t.len(),
    ensures
        fold_from(t, k, times) == if times {
            t[j] * fold_from(t.remove(j), k, times)
        } else {
            t[j] + fold_from(t.remove(j), k, times)
        },
    decreases j - k,
{
    let r = t.remove(j);
    if k == j {
        lemma_fold_shift(t, j + 1, r, j, times);
    } else {
        lemma_fold_remove(t, j, k + 1, times);
        assert(r[k] == t[k]);
        let x = t[k];
        let y = t[j];
        let z = fold_from(r, k + 1, times);
        if times {
            assert(x * (y * z) == y * (x * z)) by (nonlinear_arith);
        }
    }
}

/// Whether `p` lists axis `a`.
pub open spec fn lists_axis(p: Seq<usize>, a: int) -> bool {
    exists|i: int| 0 <= i < p.len() && #[trigger] p[i] == a
}

/// Whether `p` lists the axes `0..n` in some order, each once.
pub open spec fn is_permutation(p: Seq<usize>, n: nat) -> bool {
    &&& p.len() == n
    &&& forall|i: int| 0 <= i < n ==> #[trigger] p[i] < n
    &&& forall|i: int, j: int| 0 <= i < j < n ==> p[i] != p[j]
    &&& forall|a: int| 0 <= a < n ==> #[trigger] lists_axis(p, a)
}

/// The entries of `t` in the order that `p` lists them.
pub open spec fn permute_seq<A>(t: Seq<A>, p: Seq<usize>) -> Seq<A> {
    Seq::new(p.len(), |i: int| t[p[i] as int])
}

/// Whether `axes` lists the axes `0..n` in some order, each once.
pub fn check_permutation(axes: &Vec<usize>, n: usize) -> (b: bool)
    ensures
        b == is_permutation(axes@, n as nat),
{
    if axes.len() != n {
        return false;
    }
    let mut seen: Vec<bool> = Vec::new();
    let mut k: usize = 0;
    while k < n
        invariant
            k <= n,
            seen@.len() == k,
            forall|a: int| 0 <= a < k ==> !seen@[a],
        decreases n - k,
    {
        seen.push(false);
        k += 1;
    }
    let mut i: usize = 0;
    while i < n
        invariant
            i <= n,
            n == axes@.len(),
            seen@.len() == n,
            forall|j: int| 0 <= j < i ==> #[trigger] axes@[j] < n,
            forall|j: int, l: int| 0 <= j < l < i ==> axes@[j] != axes@[l],
            forall|a: int|
                0 <= a < n ==> (#[trigger] seen@[a] <==> exists|j: int|
                    0 <= j < i && axes@[j] == a),
        decreases n - i,
    {
        let a = axes[i];
        if a >= n {
            proof {
                assert(!(axes@[i as int] < n));
            }
            return false;
        }
        if seen[a] {
            proof {
                let j = choose|j: int| 0 <= j < i && axes@[j] == a;
                assert(axes@[j] == axes@[i as int]);
            }
            return false;
        }
        let ghost before = seen@;
        seen.set(a, true);
        proof {
            assert forall|x: int| 0 <= x < n implies (#[trigger] seen@[x] <==> exists|j: int|
                0 <= j < i + 1 && axes@[j] == x) by {
                if x == a {
                    assert(axes@[i as int] == x);
                } else {
                    assert(seen@[x] == before[x]);
                    if before[x] {
                        let j = choose|j: int| 0 <= j < i && axes@[j] == x;
                        assert(0 <= j < i + 1 && axes@[j] == x);
                    }
                    if exists|j: int| 0 <= j < i + 1 && axes@[j] == x {
                        let j = choose|j: int| 0 <= j < i + 1 && axes@[j] == x;
                        assert(j < i);
                    }
                }
            }
            assert forall|j: int, l: int| 0 <= j < l < i + 1 implies axes@[j] != axes@[l] by {
                if l == i && axes@[j] == a {
                    assert(before[a as int]);
                }
            }
        }
        i += 1;
    }
    let mut a: usize = 0;
    while a < n
        invariant
            a <= n,
            n == axes@.len(),
            seen@.len() == n,
            forall|x: int|
                0 <= x < n ==> (#[trigger] seen@[x] <==> exists|j: int|
                    0 <= j < n && axes@[j] == x),
            forall|x: int| 0 <= x < a ==> #[trigger] lists_axis(axes@, x),
        decreases n - a,
    {
        if !seen[a] {
            proof {
                assert(!lists_axis(axes@, a as int));
            }
            return false;
        }
        proof {
            let j = choose|j: int| 0 <= j < n && axes@[j] == a;
            assert(axes@[j] == a as int);
        }
        a += 1;
    }
    true
}

/// A fold does not depend on the order of its entries.
pub proof fn lemma_fold_permute(t: Seq<int>, p: Seq<usize>, times: bool)
    requires
        is_permutation(p, t.len()),
    ensures
        fold_from(permute_seq(t, p), 0, times) == fold_from(t, 0, times),
    decreases t.len(),
{
    let n = t.len() as int;
    let s = permute_seq(t, p);
    if n > 0 {
        let j = p[0] as int;
        let r = t.remove(j);
        let q = Seq::new(
            (n - 1) as nat,
            |i: int|
                if p[i + 1] > j {
                    (p[i + 1] - 1) as usize
                } else {
                    p[i + 1]
                },
        );
        assert forall|i: int| 0 <= i < n - 1 implies #[trigger] q[i] < n - 1 && r[q[i] as int]
            == s[1 + i] by {
            assert(p[i + 1] < n);
            assert(p[0] != p[i + 1]);
        }
        assert forall|i: int, k: int| 0 <= i < k < n - 1 implies q[i] != q[k] by {
            assert(p[i + 1] != p[k + 1]);
            assert(p[0] != p[i + 1]);
            assert(p[0] != p[k + 1]);
        }
        assert forall|a: int| 0 <= a < n - 1 implies #[trigger] lists_axis(q, a) by {
            let orig = if a >= j {
                a + 1
            } else {
                a
            };
            assert(lists_axis(p, orig));
            let i = choose|i: int| 0 <= i < p.len() && #[trigger] p[i] == orig;
            assert(i != 0);
            assert(q[i - 1] == a);
        }
        assert(is_permutation(q, r.len()));
        lemma_fold_permute(r, q, times);
        lemma_fold_shift(s, 1, permute_seq(r, q), 0, times);
        lemma_fold_remove(t, j, 0, times);
    }
}

/// The sum of a tail is its additive fold.
proof fn lemma_sum_is_fold(t: Seq<int>, k: int)
    requires
        0 <= k <= t.len(),
    ensures
        sum_from(t, k) == fold_from(t, k, false),
    decreases t.len() - k,
{
    if k < t.len() {
        lemma_sum_is_fold(t, k + 1);
    }
}

/// The axis lengths as factors of the capacity.
spec fn factors(shape: Seq<usize>) -> Seq<int> {
    Seq::new(
        shape.len(),
        |i: int|
            if shape[i] == 0 {
                1
            } else {
                shape[i] as int
            },
    )
}

/// The capacity of a tail is the multiplicative fold of its factors.
proof fn lemma_capacity_is_fold(shape: Seq<usize>, k: int)
    requires
        0 <= k <= shape.len(),
    ensures
        tail_capacity(shape, k) == fold_from(factors(shape), k, true),
    decreases shape.len() - k,
{
    if k < shape.len() {
        lemma_capacity_is_fold(shape, k + 1);
    }
}

/// A sum does not depend on the order of its terms.
pub proof fn lemma_sum_permute(t: Seq<int>, p: Seq<usize>)
    requires
        is_permutation(p, t.len()),
    ensures
        sum_from(permute_seq(t, p), 0) == sum_from(t, 0),
{
    lemma_fold_permute(t, p, false);
    lemma_sum_is_fold(t, 0);
    lemma_sum_is_fold(permute_seq(t, p), 0);
}

/// The capacity of a shape does not depend on the order of its axes.
pub proof fn lemma_capacity_permute(shape: Seq<usize>, p: Seq<usize>)
    requires
        is_permutation(p, shape.len()),
    ensures
        capacity(permute_seq(shape, p)) == capacity(shape),
{
    lemma_fold_permute(factors(shape), p, true);
    lemma_capacity_is_fold(shape, 0);
    lemma_capacity_is_fold(permute_seq(shape, p), 0);
    assert(factors(permute_seq(shape, p)) =~= permute_seq(factors(shape), p));
}

/// A sum with one more term, put in anywhere.
pub proof fn lemma_sum_insert(t: Seq<int>, k: int, x: int)
    requires
        0 <= k <= t.len(),
    ensures
        sum_from(t.insert(k, x), 0) == x + sum_from(t, 0),
{
    let u = t.insert(k, x);
    lemma_fold_remove(u, k, 0, false);
    assert(u.remove(k) =~= t);
    lemma_sum_is_fold(u, 0);
    lemma_sum_is_fold(t, 0);
}

/// The capacity of a shape with one more axis, put in anywhere.
pub proof fn lemma_capacity_insert(shape: Seq<usize>, k: int, size: usize)
    requires
        0 <= k <= shape.len(),
    ensures
        capacity(shape.insert(k, size)) == (if size == 0 {
            1
        } else {
            size as int
        }) * capacity(shape),
{
    let wide = shape.insert(k, size);
    let f = factors(wide);
    lemma_fold_remove(f, k, 0, true);
    assert(f.remove(k) =~= factors(shape));
    lemma_capacity_is_fold(wide, 0);
    lemma_capacity_is_fold(shape, 0);
}

/// The capacity of a shape with an axis of length one enlarged.
pub proof fn lemma_capacity_enlarge(shape: Seq<usize>, k: int, size: usize)
    requires
        0 <= k < shape.len(),
        shape[k] == 1,
    ensures
        capacity(shape.update(k, size)) == (if size == 0 {
            1
        } else {
            size as int
        }) * capacity(shape),
{
    let rest = shape.remove(k);
    assert(rest.insert(k, size) =~= shape.update(k, size));
    assert(rest.insert(k, 1usize) =~= shape);
    lemma_capacity_insert(rest, k, size);
    lemma_capacity_insert(rest, k, 1usize);
}

/// Coordinates as mathematical integers.
pub open spec fn ints(c: Seq<usize>) -> Seq<int> {
    Seq::new(c.len(), |i: int| c[i] as int)
}

/// The row-major coordinates of the `o`-th element of a shape.
pub open spec fn unravel(shape: Seq<usize>, o: int) -> Seq<int> {
    Seq::new(shape.len(), |i: int| (o / tail_numel(shape, i + 1)) % (shape[i] as int))
}

/// The position of a coordinate in row-major order.
pub open spec fn ravel(shape: Seq<usize>, c: Seq<int>) -> int {
    sum_from(Seq::new(shape.len(), |i: int| c[i] * tail_numel(shape, i + 1)), 0)
}

/// The row-major coordinates of an element of a shape are coordinates of the
/// shape.
pub proof fn lemma_unravel_holds(shape: Seq<usize>, o: int)
    requires
        0 <= o < numel(shape),
    ensures
        unravel(shape, o).len() == shape.len(),
        forall|i: int| 0 <= i < shape.len() ==> 0 <= #[trigger] unravel(shape, o)[i] < shape[i],
{
    lemma_tail_full(shape, 0);
    assert forall|i: int| 0 <= i < shape.len() implies 0 <= #[trigger] unravel(shape, o)[i]
        < shape[i] by {
        lemma_mod_bound(o / tail_numel(shape, i + 1), shape[i] as int);
    }
}

/// The terms of the row-major position of the coordinates of element `o`
/// add up, from axis `k` on, to the remainder of `o` by the elements of the
/// axes from `k` on.
proof fn lemma_ravel_tail(shape: Seq<usize>, o: int, k: int)
    requires
        0 <= o < numel(shape),
        0 <= k <= shape.len(),
    ensures
        tail_numel(shape, k) > 0,
        sum_from(
            Seq::new(shape.len(), |i: int| unravel(shape, o)[i] * tail_numel(shape, i + 1)),
            k,
        ) == o % tail_numel(shape, k),
    decreases shape.len() - k,
{
    lemma_tail_full(shape, k);
    lemma_tail_bounds(shape, k);
    if k < shape.len() {
        lemma_ravel_tail(shape, o, k + 1);
        let t = tail_numel(shape, k + 1);
        let d = shape[k] as int;
        lemma_mod_breakdown(o, t, d);
        assert(t * d == d * t) by (nonlinear_arith);
        assert(t * ((o / t) % d) == ((o / t) % d) * t) by (nonlinear_arith);
    }
}

/// Row-major position and row-major coordinates are inverse to each other:
/// the coordinates of element `o` lie at position `o`.
pub proof fn lemma_ravel_unravel(shape: Seq<usize>, o: int)
    requires
        0 <= o < numel(shape),
    ensures
        ravel(shape, unravel(shape, o)) == o,
{
    lemma_ravel_tail(shape, o, 0);
    lemma_small_mod(o as nat, numel(shape) as nat);
    let c = unravel(shape, o);
    let a = Seq::new(shape.len(), |i: int| c[i] * tail_numel(shape, i + 1));
    let b = Seq::new(shape.len(), |i: int| unravel(shape, o)[i] * tail_numel(shape, i + 1));
    assert(a =~= b);
}

/// The position that the first `k` coordinates have among the first `k`
/// axes.
pub open spec fn head_ravel(shape: Seq<usize>, c: Seq<int>, k: int) -> int
    decreases k,
{
    if k <= 0 {
        0
    } else {
        head_ravel(shape, c, k - 1) * shape[k - 1] + c[k - 1]
    }
}

/// The terms of a row-major position from axis `k` on add up to less than
/// the elements of the axes from `k` on.
proof fn lemma_ravel_rest(shape: Seq<usize>, c: Seq<int>, k: int)
    requires
        c.len() == shape.len(),
        forall|i: int| 0 <= i < c.len() ==> 0 <= #[trigger] c[i] < shape[i],
        0 <= k <= shape.len(),
    ensures
        0 <= sum_from(Seq::new(shape.len(), |i: int| c[i] * tail_numel(shape, i + 1)), k)
            < tail_numel(shape, k),
    decreases shape.len() - k,
{
    let terms = Seq::new(shape.len(), |i: int| c[i] * tail_numel(shape, i + 1));
    if k < shape.len() {
        lemma_ravel_rest(shape, c, k + 1);
        let d = shape[k] as int;
        let x = c[k];
        let t = tail_numel(shape, k + 1);
        assert(terms[k] == x * t);
        assert(0 <= x * t && x * t + t <= d * t) by (nonlinear_arith)
            requires
                0 <= x < d,
                0 < t,
        ;
    }
}

/// A row-major position splits at any axis into the position among the axes
/// before it, scaled by the elements of the axes from it on, and a rest that
/// is less than those elements.
proof fn lemma_ravel_split(shape: Seq<usize>, c: Seq<int>, k: int)
    requires
        c.len() == shape.len(),
        forall|i: int| 0 <= i < c.len() ==> 0 <= #[trigger] c[i] < shape[i],
        0 <= k <= shape.len(),
    ensures
        ravel(shape, c) == head_ravel(shape, c, k) * tail_numel(shape, k) + sum_from(
            Seq::new(shape.len(), |i: int| c[i] * tail_numel(shape, i + 1)),
            k,
        ),
        0 <= sum_from(Seq::new(shape.len(), |i: int| c[i] * tail_numel(shape, i + 1)), k)
            < tail_numel(shape, k),
        0 <= head_ravel(shape, c, k),
    decreases k,
{
    let terms = Seq::new(shape.len(), |i: int| c[i] * tail_numel(shape, i + 1));
    if k < shape.len() {
        lemma_ravel_rest(shape, c, k);
    }
    if k > 0 {
        lemma_ravel_split(shape, c, k - 1);
        lemma_ravel_rest(shape, c, k - 1);
        let h = head_ravel(shape, c, k - 1);
        let d = shape[k - 1] as int;
        let x = c[k - 1];
        let t = tail_numel(shape, k);
        assert(terms[k - 1] == x * t);
        assert((h * d + x) * t == h * (d * t) + x * t) by (nonlinear_arith);
        assert(0 <= h * d + x) by (nonlinear_arith)
            requires
                0 <= h,
                0 <= d,
                0 <= x,
        ;
    }
}

/// Row-major coordinates and row-major position are inverse to each other:
/// the element at the position of a coordinate has that coordinate.
pub proof fn lemma_unravel_ravel(shape: Seq<usize>, c: Seq<int>)
    requires
        c.len() == shape.len(),
        forall|i: int| 0 <= i < c.len() ==> 0 <= #[trigger] c[i] < shape[i],
    ensures
        unravel(shape, ravel(shape, c)) == c,
{
    let o = ravel(shape, c);
    let u = unravel(shape, o);
    assert forall|i: int| 0 <= i < shape.len() implies u[i] == c[i] by {
        lemma_ravel_split(shape, c, i + 1);
        lemma_ravel_split(shape, c, i);
        let t = tail_numel(shape, i + 1);
        let rest = sum_from(Seq::new(shape.len(), |j: int| c[j] * tail_numel(shape, j + 1)), i + 1);
        let h = head_ravel(shape, c, i + 1);
        lemma_fundamental_div_mod_converse(o, t, h, rest);
        lemma_fundamental_div_mod_converse(h, shape[i] as int, head_ravel(shape, c, i), c[i]);
    }
    assert(u =~= c);
}

/// The row-major coordinates of element `o` of a shape.
pub fn unravel_index(shape: &Vec<usize>, o: usize) -> (c: Vec<usize>)
    requires
        capacity(shape@) <= usize::MAX,
        o < numel(shape@),
    ensures
        ints(c@) == unravel(shape@, o as int),
{
    let strides = row_major(shape);
    let n = shape.len();
    let mut c: Vec<usize> = Vec::new();
    let mut i: usize = 0;
    proof {
        lemma_tail_full(shape@, 0);
    }
    while i < n
        invariant
            i <= n,
            n == shape@.len(),
            strides@.len() == n,
            numel(shape@) > 0,
            forall|j: int| 0 <= j < n ==> strides@[j] == tail_numel(shape@, j + 1),
            forall|j: int| 0 <= j < n ==> shape@[j] > 0,
            c@.len() == i,
            forall|j: int| 0 <= j < i ==> c@[j] as int == unravel(shape@, o as int)[j],
        decreases n - i,
    {
        proof {
            lemma_tail_full(shape@, i + 1);
            lemma_tail_bounds(shape@, i + 1);
        }
        c.push((o / strides[i]) % shape[i]);
        i += 1;
    }
    proof {
        assert(ints(c@) =~= unravel(shape@, o as int));
    }
    c
}

/// One view: a shape laid over a linear space by strides from an origin, with
/// the range of each axis that holds data; coordinates outside the range are
/// padding.
pub struct ViewLayer {
    pub(crate) shape: Vec<usize>,
    pub(crate) strides: Vec<usize>,
    pub(crate) offset: usize,
    pub(crate) mask: Vec<(usize, usize)>,
}

/// The mathematical content of a [`ViewLayer`].
pub struct ViewModel {
    pub shape: Seq<usize>,
    pub strides: Seq<usize>,
    pub offset: usize,
    pub mask: Seq<(usize, usize)>,
}

impl View for ViewLayer {
    type V = ViewModel;

    open(crate) spec fn view(&self) -> ViewModel {
        ViewModel {
            shape: self.shape@,
            strides: self.strides@,
            offset: self.offset,
            mask: self.mask@,
        }
    }
}

impl ViewModel {
    /// The invariant of a view: one stride and one data range per axis, each
    /// range within its axis, and a shape that the machine can count.
    pub open spec fn wf(self) -> bool {
        &&& self.strides.len() == self.shape.len()
        &&& self.mask.len() == self.shape.len()
        &&& forall|i: int|
            0 <= i < self.shape.len() ==> (#[trigger] self.mask[i]).0 <= self.mask[i].1
                <= self.shape[i]
        &&& capacity(self.shape) <= usize::MAX
    }

    /// Whether `c` is a coordinate of the view's shape.
    pub open spec fn holds(self, c: Seq<int>) -> bool {
        &&& c.len() == self.shape.len()
        &&& forall|i: int| 0 <= i < c.len() ==> 0 <= #[trigger] c[i] < self.shape[i]
    }

    /// Whether the coordinate lies in the data range of every axis.
    pub open spec fn valid(self, c: Seq<int>) -> bool {
        forall|i: int|
            0 <= i < self.shape.len() ==> (#[trigger] self.mask[i]).0 <= c[i] < self.mask[i].1
    }

    /// What each axis adds to the offset of a coordinate.
    pub open spec fn terms(self, c: Seq<int>) -> Seq<int> {
        Seq::new(self.shape.len(), |i: int| (c[i] - self.mask[i].0) * self.strides[i])
    }

    /// The offset of a coordinate in the space below the view.
    pub open spec fn offset_of(self, c: Seq<int>) -> int {
        self.offset + sum_from(self.terms(c), 0)
    }

    /// Whether any coordinate holds data.
    pub open spec fn occupied(self) -> bool {
        forall|i: int| 0 <= i < self.shape.len() ==> (#[trigger] self.mask[i]).0 < self.mask[i].1
    }

    /// The last coordinate that holds data.
    pub open spec fn corner(self) -> Seq<int> {
        Seq::new(self.shape.len(), |i: int| self.mask[i].1 - 1)
    }

    /// The highest offset that the view reaches.
    pub open spec fn reach(self) -> int {
        self.offset_of(self.corner())
    }

    /// Whether every offset that the view reaches lies below `limit`.
    pub open spec fn bounded(self, limit: int) -> bool {
        self.occupied() ==> self.reach() < limit
    }

    /// Whether every coordinate of the shape holds data.
    pub open spec fn unmasked(self) -> bool {
        forall|i: int|
            0 <= i < self.shape.len() ==> (#[trigger] self.mask[i]) == (0usize, self.shape[i])
    }

    /// Whether the strides are those of a dense row-major layout of the shape.
    pub open spec fn dense(self) -> bool {
        forall|i: int|
            0 <= i < self.shape.len() ==> (#[trigger] self.strides[i]) == tail_numel(
                self.shape,
                i + 1,
            )
    }
}

/// The dense row-major view of a whole shape, from the given origin.
pub open spec fn dense_view(shape: Seq<usize>, offset: usize) -> ViewModel {
    ViewModel {
        shape,
        strides: Seq::new(shape.len(), |i: int| tail_numel(shape, i + 1) as usize),
        offset,
        mask: Seq::new(shape.len(), |i: int| (0usize, shape[i])),
    }
}

/// The offset of a coordinate that holds data lies between the view's origin
/// and its reach, and so does every partial sum on the way.
pub proof fn lemma_offset_bounds(v: ViewModel, c: Seq<int>, k: int)
    requires
        v.wf(),
        v.holds(c),
        v.valid(c),
        0 <= k <= v.shape.len(),
    ensures
        v.occupied(),
        0 <= sum_from(v.terms(c), k) <= sum_from(v.terms(v.corner()), k),
        v.offset <= v.offset_of(c) <= v.reach(),
{
    let t = v.terms(c);
    let u = v.terms(v.corner());
    assert forall|i: int| 0 <= i < t.len() implies 0 <= #[trigger] t[i] <= u[i] by {
        let s = v.strides[i] as int;
        let a = c[i] - v.mask[i].0;
        let b = v.mask[i].1 - 1 - v.mask[i].0;
        assert(0 <= a * s <= b * s) by (nonlinear_arith)
            requires
                0 <= a <= b,
                0 <= s,
        ;
    }
    assert forall|i: int| 0 <= i < v.shape.len() implies (#[trigger] v.mask[i]).0
        < v.mask[i].1 by {
        assert(v.mask[i].0 <= c[i] < v.mask[i].1);
    }
    lemma_sum_nonneg(t, k);
    lemma_sum_mono(t, u, k);
    lemma_sum_nonneg(t, 0);
    lemma_sum_mono(t, u, 0);
}

/// A dense view of a whole shape reaches the last element of the shape.
pub proof fn lemma_dense_reach(v: ViewModel, k: int)
    requires
        v.wf(),
        v.dense(),
        v.unmasked(),
        v.occupied(),
        0 <= k <= v.shape.len(),
    ensures
        sum_from(v.terms(v.corner()), k) == tail_numel(v.shape, k) - 1,
        k == 0 ==> v.reach() == v.offset + numel(v.shape) - 1,
    decreases v.shape.len() - k,
{
    if k < v.shape.len() {
        lemma_dense_reach(v, k + 1);
        let d = v.shape[k] as int;
        let t = tail_numel(v.shape, k + 1);
        assert(v.mask[k] == (0usize, v.shape[k]));
        assert(v.strides[k] == t);
        assert(v.terms(v.corner())[k] == (d - 1) * t);
        assert((d - 1) * t + t - 1 == d * t - 1) by (nonlinear_arith);
    }
}

/// A coordinate of a shape has a row-major position among the elements of
/// the shape.
pub proof fn lemma_ravel_bounds(shape: Seq<usize>, c: Seq<int>)
    requires
        capacity(shape) <= usize::MAX,
        dense_view(shape, 0).holds(c),
    ensures
        0 <= ravel(shape, c) < numel(shape),
        dense_view(shape, 0).valid(c),
        dense_view(shape, 0).offset_of(c) == ravel(shape, c),
{
    let v = dense_view(shape, 0);
    assert forall|i: int| 0 <= i < shape.len() implies (#[trigger] v.strides[i]) == tail_numel(
        shape,
        i + 1,
    ) by {
        lemma_tail_bounds(shape, i + 1);
    }
    assert forall|i: int| 0 <= i < shape.len() implies (#[trigger] v.mask[i]).0 <= c[i]
        < v.mask[i].1 by {}
    assert(v.wf());
    let a = v.terms(c);
    let b = Seq::new(shape.len(), |i: int| c[i] * tail_numel(shape, i + 1));
    assert forall|i: int| 0 <= i < a.len() implies a[i] == b[i] by {
        assert(v.strides[i] == tail_numel(shape, i + 1));
    }
    lemma_sum_same(a, b, 0);
    lemma_offset_bounds(v, c, 0);
    lemma_dense_reach(v, 0);
}

impl ViewModel {
    /// The view with its axes in the order that `p` lists them.
    pub open spec fn permuted(self, p: Seq<usize>) -> ViewModel {
        ViewModel {
            shape: permute_seq(self.shape, p),
            strides: permute_seq(self.strides, p),
            offset: self.offset,
            mask: permute_seq(self.mask, p),
        }
    }
}

/// A permuted view is well formed and reaches as far as the view itself.
pub proof fn lemma_permuted_view(v: ViewModel, p: Seq<usize>)
    requires
        v.wf(),
        is_permutation(p, v.shape.len()),
    ensures
        v.permuted(p).wf(),
        v.permuted(p).occupied() == v.occupied(),
        v.permuted(p).reach() == v.reach(),
{
    let w = v.permuted(p);
    lemma_capacity_permute(v.shape, p);
    assert forall|i: int| 0 <= i < w.shape.len() implies (#[trigger] w.mask[i]).0 <= w.mask[i].1
        <= w.shape[i] by {
        assert(p[i] < v.shape.len());
        assert(v.mask[p[i] as int].0 <= v.mask[p[i] as int].1);
    }
    if v.occupied() {
        assert forall|i: int| 0 <= i < w.shape.len() implies (#[trigger] w.mask[i]).0
            < w.mask[i].1 by {
            assert(p[i] < v.shape.len());
            assert(v.mask[p[i] as int].0 < v.mask[p[i] as int].1);
        }
    }
    if w.occupied() {
        assert forall|a: int| 0 <= a < v.shape.len() implies (#[trigger] v.mask[a]).0
            < v.mask[a].1 by {
            assert(lists_axis(p, a));
            let i = choose|i: int| 0 <= i < p.len() && #[trigger] p[i] == a;
            assert(w.mask[i].0 < w.mask[i].1);
        }
    }
    assert(w.terms(w.corner()) =~= permute_seq(v.terms(v.corner()), p)) by {
        assert forall|i: int| 0 <= i < w.shape.len() implies w.terms(w.corner())[i]
            == v.terms(v.corner())[p[i] as int] by {
            assert(p[i] < v.shape.len());
        }
    }
    lemma_sum_permute(v.terms(v.corner()), p);
}

impl ViewModel {
    /// The view with a new axis of length `size` before axis `axis`, along
    /// which every element repeats.
    pub open spec fn expanded(self, axis: int, size: usize) -> ViewModel {
        ViewModel {
            shape: self.shape.insert(axis, size),
            strides: self.strides.insert(axis, 0),
            offset: self.offset,
            mask: self.mask.insert(axis, (0usize, size)),
        }
    }

    /// The length of each axis after padding it on both sides.
    pub open spec fn padded_dims(self, pads: Seq<(usize, usize)>) -> Seq<int> {
        Seq::new(self.shape.len(), |i: int| pads[i].0 + self.shape[i] + pads[i].1)
    }

    /// The view with `pads[i].0` coordinates of padding before axis `i` and
    /// `pads[i].1` after it.
    pub open spec fn padded(self, pads: Seq<(usize, usize)>) -> ViewModel {
        ViewModel {
            shape: Seq::new(
                self.shape.len(),
                |i: int| (pads[i].0 + self.shape[i] + pads[i].1) as usize,
            ),
            strides: self.strides,
            offset: self.offset,
            mask: Seq::new(
                self.shape.len(),
                |i: int|
                    ((self.mask[i].0 + pads[i].0) as usize, (self.mask[i].1 + pads[i].0) as usize),
            ),
        }
    }

    /// Whether the padded view is one that the machine can track: every axis
    /// length and the capacity of the new shape fit.
    pub open spec fn pad_fits(self, pads: Seq<(usize, usize)>) -> bool {
        &&& forall|i: int|
            0 <= i < self.shape.len() ==> #[trigger] self.padded_dims(pads)[i] <= usize::MAX
        &&& capacity(self.padded(pads).shape) <= usize::MAX
    }
}

/// An expanded view that the machine can count is well formed and reaches no
/// further than the view itself.
pub proof fn lemma_expanded_view(v: ViewModel, axis: int, size: usize, limit: int)
    requires
        v.wf(),
        v.bounded(limit),
        0 <= axis <= v.shape.len(),
        capacity(v.shape.insert(axis, size)) <= usize::MAX,
    ensures
        v.expanded(axis, size).wf(),
        v.expanded(axis, size).bounded(limit),
{
    let w = v.expanded(axis, size);
    assert forall|i: int| 0 <= i < w.shape.len() implies (#[trigger] w.mask[i]).0 <= w.mask[i].1
        <= w.shape[i] by {
        if i < axis {
            assert(w.mask[i] == v.mask[i]);
        } else if i > axis {
            assert(w.mask[i] == v.mask[i - 1]);
        }
    }
    if w.occupied() {
        assert forall|i: int| 0 <= i < v.shape.len() implies (#[trigger] v.mask[i]).0
            < v.mask[i].1 by {
            if i < axis {
                assert(w.mask[i] == v.mask[i]);
            } else {
                assert(w.mask[i + 1] == v.mask[i]);
            }
        }
        assert(w.terms(w.corner()) =~= v.terms(v.corner()).insert(axis, 0)) by {
            assert forall|i: int| 0 <= i < w.shape.len() implies w.terms(w.corner())[i]
                == v.terms(v.corner()).insert(axis, 0)[i] by {
                if i < axis {
                    assert(w.mask[i] == v.mask[i]);
                } else if i > axis {
                    assert(w.mask[i] == v.mask[i - 1]);
                } else {
                    assert(w.strides[i] == 0);
                }
            }
        }
        lemma_sum_insert(v.terms(v.corner()), axis, 0);
    }
}

/// A padded view that the machine can track is well formed and reaches
/// exactly as far as the view itself.
pub proof fn lemma_padded_view(v: ViewModel, pads: Seq<(usize, usize)>, limit: int)
    requires
        v.wf(),
        v.bounded(limit),
        pads.len() == v.shape.len(),
        v.pad_fits(pads),
    ensures
        v.padded(pads).wf(),
        v.padded(pads).bounded(limit),
{
    let w = v.padded(pads);
    assert forall|i: int| 0 <= i < w.shape.len() implies (#[trigger] w.mask[i]).0 <= w.mask[i].1
        <= w.shape[i] by {
        assert(v.padded_dims(pads)[i] <= usize::MAX);
        assert(v.mask[i].0 <= v.mask[i].1 <= v.shape[i]);
    }
    if w.occupied() {
        assert forall|i: int| 0 <= i < v.shape.len() implies (#[trigger] v.mask[i]).0
            < v.mask[i].1 by {
            assert(v.padded_dims(pads)[i] <= usize::MAX);
            assert(v.mask[i].0 <= v.mask[i].1 <= v.shape[i]);
            assert(w.mask[i].0 < w.mask[i].1);
        }
        assert(w.terms(w.corner()) =~= v.terms(v.corner())) by {
            assert forall|i: int| 0 <= i < w.shape.len() implies w.terms(w.corner())[i]
                == v.terms(v.corner())[i] by {
                assert(v.padded_dims(pads)[i] <= usize::MAX);
                assert(v.mask[i].0 <= v.mask[i].1 <= v.shape[i]);
            }
        }
    }
}

impl ViewModel {
    /// The view with axis `axis`, of length one, enlarged to `size`: along
    /// the axis every element repeats.
    pub open spec fn enlarged(self, axis: int, size: usize) -> ViewModel {
        ViewModel {
            shape: self.shape.update(axis, size),
            strides: self.strides.update(axis, 0),
            offset: self.offset,
            mask: self.mask.update(
                axis,
                if self.mask[axis] == (0usize, 1usize) {
                    (0usize, size)
                } else {
                    (0usize, 0usize)
                },
            ),
        }
    }
}

/// An enlarged view that the machine can count is well formed and reaches no
/// further than the view itself.
pub proof fn lemma_enlarged_view(v: ViewModel, axis: int, size: usize, limit: int)
    requires
        v.wf(),
        v.bounded(limit),
        0 <= axis < v.shape.len(),
        v.shape[axis] == 1,
        capacity(v.shape.update(axis, size)) <= usize::MAX,
    ensures
        v.enlarged(axis, size).wf(),
        v.enlarged(axis, size).bounded(limit),
{
    let w = v.enlarged(axis, size);
    assert forall|i: int| 0 <= i < w.shape.len() implies (#[trigger] w.mask[i]).0 <= w.mask[i].1
        <= w.shape[i] by {
        if i != axis {
            assert(w.mask[i] == v.mask[i]);
        }
    }
    if w.occupied() {
        assert(w.mask[axis].0 < w.mask[axis].1);
        assert forall|i: int| 0 <= i < v.shape.len() implies (#[trigger] v.mask[i]).0
            < v.mask[i].1 by {
            if i != axis {
                assert(w.mask[i] == v.mask[i]);
            }
        }
        assert(w.terms(w.corner()) =~= v.terms(v.corner())) by {
            assert forall|i: int| 0 <= i < w.shape.len() implies w.terms(w.corner())[i]
                == v.terms(v.corner())[i] by {
                if i != axis {
                    assert(w.mask[i] == v.mask[i]);
                } else {
                    let x = w.corner()[i] - w.mask[i].0;
                    let s = v.strides[i] as int;
                    assert(v.mask[i] == (0usize, 1usize));
                    assert(x * 0 == 0 && 0 * s == 0) by (nonlinear_arith);
                }
            }
        }
    }
}

/// `x`, or the nearer end of the range from `a` to `b` where it lies outside.
pub open spec fn clamp(x: int, a: int, b: int) -> int {
    if x < a {
        a
    } else if x > b {
        b
    } else {
        x
    }
}

impl ViewModel {
    /// Whether `ranges` names a range of coordinates of each axis.
    pub open spec fn ranges_ok(self, ranges: Seq<(usize, usize)>) -> bool {
        &&& ranges.len() == self.shape.len()
        &&& forall|i: int|
            0 <= i < ranges.len() ==> (#[trigger] ranges[i]).0 <= ranges[i].1 <= self.shape[i]
    }

    /// The data range of each axis within the slice, counted from the start
    /// of the slice.
    pub open spec fn sliced_mask(self, ranges: Seq<(usize, usize)>) -> Seq<(usize, usize)> {
        Seq::new(
            self.shape.len(),
            |i: int|
                (
                    (clamp(self.mask[i].0 as int, ranges[i].0 as int, ranges[i].1 as int)
                        - ranges[i].0) as usize,
                    (clamp(self.mask[i].1 as int, ranges[i].0 as int, ranges[i].1 as int)
                        - ranges[i].0) as usize,
                ),
        )
    }

    /// How far each axis moves the origin when the slice starts inside the
    /// data range of the axis.
    pub open spec fn slice_shift(self, ranges: Seq<(usize, usize)>) -> Seq<int> {
        Seq::new(
            self.shape.len(),
            |i: int|
                if ranges[i].0 > self.mask[i].0 {
                    (ranges[i].0 - self.mask[i].0) * self.strides[i]
                } else {
                    0
                },
        )
    }

    /// Whether the slice holds any data.
    pub open spec fn slice_occupied(self, ranges: Seq<(usize, usize)>) -> bool {
        forall|i: int|
            0 <= i < self.shape.len() ==> (#[trigger] self.sliced_mask(ranges)[i]).0
                < self.sliced_mask(ranges)[i].1
    }

    /// The view of the coordinates from `ranges[i].0` up to `ranges[i].1` of
    /// each axis `i`. Where the slice holds data the origin moves to its
    /// first element; an empty slice keeps the origin.
    pub open spec fn sliced(self, ranges: Seq<(usize, usize)>) -> ViewModel {
        ViewModel {
            shape: Seq::new(self.shape.len(), |i: int| (ranges[i].1 - ranges[i].0) as usize),
            strides: self.strides,
            offset: if self.slice_occupied(ranges) {
                (self.offset + sum_from(self.slice_shift(ranges), 0)) as usize
            } else {
                self.offset
            },
            mask: self.sliced_mask(ranges),
        }
    }
}

/// A slice of a view is well formed and reaches no further than the view;
/// where it holds data, its origin lies within the reach of the view.
pub proof fn lemma_sliced_view(v: ViewModel, ranges: Seq<(usize, usize)>, limit: int, k: int)
    requires
        v.wf(),
        v.bounded(limit),
        limit <= usize::MAX,
        v.ranges_ok(ranges),
        0 <= k <= v.shape.len(),
    ensures
        v.sliced(ranges).wf(),
        v.sliced(ranges).bounded(limit),
        v.slice_occupied(ranges) ==> 0 <= sum_from(v.slice_shift(ranges), k) && v.offset
            + sum_from(v.slice_shift(ranges), 0) < limit,
{
    let w = v.sliced(ranges);
    lemma_capacity_mono(w.shape, v.shape, 0);
    assert forall|i: int| 0 <= i < w.shape.len() implies (#[trigger] w.mask[i]).0 <= w.mask[i].1
        <= w.shape[i] by {
        assert(ranges[i].0 <= ranges[i].1 <= v.shape[i]);
        assert(v.mask[i].0 <= v.mask[i].1 <= v.shape[i]);
    }
    if v.slice_occupied(ranges) {
        let shift = v.slice_shift(ranges);
        let here = w.terms(w.corner());
        let there = v.terms(v.corner());
        let both = Seq::new(shift.len(), |i: int| shift[i] + here[i]);
        assert forall|i: int| 0 <= i < v.shape.len() implies (#[trigger] v.mask[i]).0 < v.mask[i].1
            && 0 <= shift[i] && 0 <= here[i] && both[i] <= there[i] by {
            assert(ranges[i].0 <= ranges[i].1 <= v.shape[i]);
            assert(v.mask[i].0 <= v.mask[i].1 <= v.shape[i]);
            assert(w.mask[i].0 < w.mask[i].1);
            let s = v.strides[i] as int;
            let lo = v.mask[i].0 as int;
            let hi = v.mask[i].1 as int;
            let a = ranges[i].0 as int;
            let b = ranges[i].1 as int;
            let x = if a > lo {
                a - lo
            } else {
                0
            };
            let y = w.mask[i].1 - 1 - w.mask[i].0;
            assert(shift[i] == x * s);
            assert(here[i] == y * s);
            assert(there[i] == (hi - 1 - lo) * s);
            assert(0 <= x * s && 0 <= y * s && x * s + y * s <= (hi - 1 - lo) * s)
                by (nonlinear_arith)
                requires
                    0 <= x,
                    0 <= y,
                    x + y <= hi - 1 - lo,
                    0 <= s,
            ;
        }
        assert(v.occupied());
        lemma_sum_nonneg(shift, k);
        lemma_sum_nonneg(shift, 0);
        lemma_sum_nonneg(here, 0);
        lemma_sum_add(shift, here, 0);
        lemma_sum_mono(both, there, 0);
        }
}

/// A slice with an empty range has an axis of length zero and no element.
pub proof fn lemma_empty_slice(v: ViewModel, ranges: Seq<(usize, usize)>, i: int)
    requires
        v.ranges_ok(ranges),
        0 <= i < ranges.len(),
        ranges[i].0 == ranges[i].1,
    ensures
        v.sliced(ranges).shape[i] == 0,
        numel(v.sliced(ranges).shape) == 0,
{
    lemma_empty_axis(v.sliced(ranges).shape, i);
}

/// A copy of a view.
pub(crate) fn copy_view(v: &ViewLayer) -> (out: ViewLayer)
    ensures
        out@ == v@,
{
    let n = v.mask.len();
    let mut mask: Vec<(usize, usize)> = Vec::new();
    let mut i: usize = 0;
    while i < n
        invariant
            i <= n,
            n == v.mask@.len(),
            mask@ == v.mask@.take(i as int),
        decreases n - i,
    {
        mask.push(v.mask[i]);
        proof {
            assert(v.mask@.take(i + 1) =~= v.mask@.take(i as int).push(v.mask@[i as int]));
        }
        i += 1;
    }
    proof {
        assert(v.mask@.take(n as int) =~= v.mask@);
    }
    ViewLayer { shape: copy_dims(&v.shape), strides: copy_dims(&v.strides), offset: v.offset, mask }
}

impl ViewLayer {
    /// The dense row-major view of a whole shape, from the given origin.
    pub fn dense_over(shape: Vec<usize>, offset: usize) -> (v: ViewLayer)
        requires
            capacity(shape@) <= usize::MAX,
        ensures
            v@ == dense_view(shape@, offset),
            v@.wf(),
            v@.dense(),
            v@.unmasked(),
    {
        let strides = row_major(&shape);
        let n = shape.len();
        let mut mask: Vec<(usize, usize)> = Vec::new();
        let mut i: usize = 0;
        while i < n
            invariant
                i <= n,
                n == shape@.len(),
                mask@.len() == i,
                forall|j: int| 0 <= j < i ==> (#[trigger] mask@[j]) == (0usize, shape@[j]),
            decreases n - i,
        {
            mask.push((0, shape[i]));
            i += 1;
        }
        let v = ViewLayer { shape, strides, offset, mask };
        proof {
            assert(v@.strides =~= dense_view(shape@, offset).strides);
            assert(v@.mask =~= dense_view(shape@, offset).mask);
        }
        v
    }

    /// Whether a coordinate of the shape holds data rather than padding.
    pub fn admits(&self, c: &Vec<usize>) -> (b: bool)
        requires
            self@.wf(),
            c@.len() == self@.shape.len(),
        ensures
            b == self@.valid(ints(c@)),
    {
        let n = self.mask.len();
        let mut i: usize = 0;
        while i < n
            invariant
                i <= n,
                n == self@.mask.len(),
                n == c@.len(),
                n == self@.shape.len(),
                forall|j: int|
                    0 <= j < i ==> (#[trigger] self@.mask[j]).0 <= ints(c@)[j] < self@.mask[j].1,
            decreases n - i,
        {
            let (lo, hi) = self.mask[i];
            proof {
                assert(ints(c@)[i as int] == c@[i as int]);
            }
            if c[i] < lo || c[i] >= hi {
                proof {
                    assert(ints(c@)[i as int] == c@[i as int]);
                    assert(!(self@.mask[i as int].0 <= ints(c@)[i as int] < self@.mask[i as int].1));
                }
                return false;
            }
            i += 1;
        }
        true
    }

    /// The offset of a coordinate that holds data.
    pub fn offset_at(&self, c: &Vec<usize>) -> (o: usize)
        requires
            self@.wf(),
            self@.holds(ints(c@)),
            self@.valid(ints(c@)),
            self@.reach() <= usize::MAX,
        ensures
            o == self@.offset_of(ints(c@)),
    {
        let n = self.strides.len();
        let ghost t = self@.terms(ints(c@));
        let mut o: usize = self.offset;
        let mut i: usize = 0;
        proof {
            lemma_offset_bounds(self@, ints(c@), 0);
        }
        while i < n
            invariant
                i <= n,
                n == self@.shape.len(),
                self@.wf(),
                self@.holds(ints(c@)),
                self@.valid(ints(c@)),
                t == self@.terms(ints(c@)),
                o + sum_from(t, i as int) == self@.offset_of(ints(c@)),
                self@.offset_of(ints(c@)) <= usize::MAX,
            decreases n - i,
        {
            proof {
                lemma_offset_bounds(self@, ints(c@), i + 1);
                assert(t[i as int] == (ints(c@)[i as int] - self@.mask[i as int].0)
                    * self@.strides[i as int]);
                assert(self@.mask[i as int].0 <= ints(c@)[i as int]);
                assert(0 <= t[i as int]) by (nonlinear_arith)
                    requires
                        t[i as int] == (ints(c@)[i as int] - self@.mask[i as int].0)
                            * self@.strides[i as int],
                        self@.mask[i as int].0 <= ints(c@)[i as int],
                        0 <= self@.strides[i as int],
                ;
            }
            let step = (c[i] - self.mask[i].0) * self.strides[i];
            o = o + step;
            i += 1;
        }
        o
    }
}

/// A stack of views over a buffer. The last view is the one that users see;
/// the first lies on the buffer itself.
pub struct ShapeTracker {
    pub(crate) views: Vec<ViewLayer>,
    /// The number of elements of the buffer.
    pub(crate) size: usize,
}

/// The mathematical content of a [`ShapeTracker`].
pub struct TrackerModel {
    pub views: Seq<ViewModel>,
    pub size: usize,
}

impl View for ShapeTracker {
    type V = TrackerModel;

    open(crate) spec fn view(&self) -> TrackerModel {
        TrackerModel {
            views: Seq::new(self.views@.len(), |k: int| self.views@[k]@),
            size: self.size,
        }
    }
}

impl TrackerModel {
    /// The size of the space below view `k`: the buffer for the first view,
    /// the elements of the view below for any other.
    pub open spec fn limit(self, k: int) -> int {
        if k == 0 {
            self.size as int
        } else {
            numel(self.views[k - 1].shape)
        }
    }

    /// The invariant of a tracker: it has a view, and every view is well
    /// formed and reaches no offset outside the space below it.
    pub open spec fn wf(self) -> bool {
        &&& self.views.len() >= 1
        &&& forall|k: int|
            0 <= k < self.views.len() ==> (#[trigger] self.views[k]).wf() && self.views[k].bounded(
                self.limit(k),
            )
    }

    /// The tracker of a freshly stored tensor: one dense view of the whole
    /// buffer.
    pub open spec fn fresh(shape: Seq<usize>) -> TrackerModel {
        TrackerModel { views: seq![dense_view(shape, 0)], size: numel(shape) as usize }
    }

    /// The view that users see.
    pub open spec fn top(self) -> ViewModel {
        self.views.last()
    }

    /// The shape that users see.
    pub open spec fn shape(self) -> Seq<usize> {
        self.top().shape
    }

    /// Resolves a coordinate of view `k` through the views below it: the
    /// offset in the buffer, and whether the coordinate holds data in every
    /// view on the way. A coordinate that is padding resolves to offset 0.
    pub open spec fn locate(self, k: int, c: Seq<int>) -> (int, bool)
        decreases k,
    {
        if 0 <= k < self.views.len() {
            let v = self.views[k];
            if !v.valid(c) {
                (0, false)
            } else if k == 0 {
                (v.offset_of(c), true)
            } else {
                self.locate(k - 1, unravel(self.views[k - 1].shape, v.offset_of(c)))
            }
        } else {
            (0, false)
        }
    }

    /// The physical offset of a logical coordinate, and whether the
    /// coordinate holds data rather than padding.
    pub open spec fn index(self, c: Seq<int>) -> (int, bool) {
        self.locate(self.views.len() - 1, c)
    }

    /// Whether the view that users see is dense and row-major with no
    /// padding.
    pub open spec fn contiguous(self) -> bool {
        self.top().dense() && self.top().unmasked()
    }
}

impl TrackerModel {
    /// The tracker with another view in place of the one that users see.
    pub open spec fn with_top(self, v: ViewModel) -> TrackerModel {
        TrackerModel { views: self.views.drop_last().push(v), size: self.size }
    }

    /// The tracker whose logical axes are those of `self` in the order that
    /// `p` lists them.
    pub open spec fn permuted(self, p: Seq<usize>) -> TrackerModel {
        self.with_top(self.top().permuted(p))
    }
}

impl TrackerModel {
    /// The tracker with a new logical axis of length `size` before axis
    /// `axis`.
    pub open spec fn expanded(self, axis: int, size: usize) -> TrackerModel {
        self.with_top(self.top().expanded(axis, size))
    }

    /// The tracker with every logical axis padded on both sides.
    pub open spec fn padded(self, pads: Seq<(usize, usize)>) -> TrackerModel {
        self.with_top(self.top().padded(pads))
    }
}

impl TrackerModel {
    /// The tracker with logical axis `axis`, of length one, enlarged to
    /// `size`.
    pub open spec fn enlarged(self, axis: int, size: usize) -> TrackerModel {
        self.with_top(self.top().enlarged(axis, size))
    }
}

impl TrackerModel {
    /// The tracker of a slice of the logical shape.
    pub open spec fn sliced(self, ranges: Seq<(usize, usize)>) -> TrackerModel {
        self.with_top(self.top().sliced(ranges))
    }

    /// The tracker of the same elements under another logical shape. A
    /// contiguous view gives way to the dense view of the new shape from the
    /// same origin; on any other view the dense view of the new shape is
    /// stacked.
    pub open spec fn reshaped(self, shape: Seq<usize>) -> TrackerModel {
        if self.contiguous() {
            self.with_top(dense_view(shape, self.top().offset))
        } else {
            TrackerModel { views: self.views.push(dense_view(shape, 0)), size: self.size }
        }
    }
}

/// Every coordinate that holds data resolves to an offset inside the buffer.
pub proof fn lemma_locate_in_bounds(t: TrackerModel, k: int, c: Seq<int>)
    requires
        t.wf(),
        0 <= k < t.views.len(),
        t.views[k].holds(c),
    ensures
        t.locate(k, c).1 ==> 0 <= t.locate(k, c).0 < t.size,
        !t.locate(k, c).1 ==> t.locate(k, c).0 == 0,
    decreases k,
{
    let v = t.views[k];
    if v.valid(c) {
        lemma_offset_bounds(v, c, 0);
        if k > 0 {
            let below = t.views[k - 1];
            lemma_unravel_holds(below.shape, v.offset_of(c));
            lemma_locate_in_bounds(t, k - 1, unravel(below.shape, v.offset_of(c)));
        }
    }
}

/// A tracker stays well formed when the view that users see gives way to a
/// well-formed view that reaches no further.
pub proof fn lemma_with_top_wf(t: TrackerModel, v: ViewModel)
    requires
        t.wf(),
        v.wf(),
        v.bounded(t.limit(t.views.len() - 1)),
    ensures
        t.with_top(v).wf(),
{
    let r = t.with_top(v);
    assert forall|k: int| 0 <= k < r.views.len() implies (#[trigger] r.views[k]).wf()
        && r.views[k].bounded(r.limit(k)) by {
        if k < r.views.len() - 1 {
            assert(r.views[k] == t.views[k]);
            if k > 0 {
                assert(r.views[k - 1] == t.views[k - 1]);
            }
        } else if k > 0 {
            assert(r.views[k - 1] == t.views[k - 1]);
        }
    }
}

/// Permuting the axes keeps a tracker well formed.
pub proof fn lemma_permuted_wf(t: TrackerModel, p: Seq<usize>)
    requires
        t.wf(),
        is_permutation(p, t.shape().len()),
    ensures
        t.permuted(p).wf(),
{
    lemma_permuted_view(t.top(), p);
    lemma_with_top_wf(t, t.top().permuted(p));
}

/// Slicing keeps a tracker well formed.
pub proof fn lemma_sliced_wf(t: TrackerModel, ranges: Seq<(usize, usize)>)
    requires
        t.wf(),
        t.top().ranges_ok(ranges),
    ensures
        t.sliced(ranges).wf(),
{
    let k = t.views.len() - 1;
    if k > 0 {
        lemma_tail_bounds(t.views[k - 1].shape, 0);
    }
    lemma_sliced_view(t.top(), ranges, t.limit(k), 0);
    lemma_with_top_wf(t, t.top().sliced(ranges));
}

/// Reshaping to a shape with as many elements, which the machine can count,
/// keeps a tracker well formed.
pub proof fn lemma_reshaped_wf(t: TrackerModel, shape: Seq<usize>)
    requires
        t.wf(),
        numel(shape) == numel(t.shape()),
        capacity(shape) <= usize::MAX,
    ensures
        t.reshaped(shape).wf(),
        t.reshaped(shape).contiguous(),
        t.reshaped(shape).shape() == shape,
{
    let r = t.reshaped(shape);
    let old_top = t.top();
    let k = t.views.len() - 1;
    let off = if t.contiguous() {
        old_top.offset
    } else {
        0usize
    };
    let v = dense_view(shape, off);
    assert forall|i: int| 0 <= i < shape.len() implies (#[trigger] v.strides[i]) == tail_numel(
        shape,
        i + 1,
    ) by {
        lemma_tail_bounds(shape, i + 1);
    }
    assert(v.wf());
    assert(v.dense() && v.unmasked());
    if v.occupied() {
        lemma_dense_reach(v, 0);
        assert forall|i: int| 0 <= i < shape.len() implies shape[i] > 0 by {
            assert(v.mask[i].0 < v.mask[i].1);
        }
        lemma_positive_numel(shape, 0);
        lemma_tail_full(old_top.shape, 0);
    }
    if t.contiguous() {
        if v.occupied() {
            assert forall|i: int| 0 <= i < old_top.shape.len() implies (
            #[trigger] old_top.mask[i]).0 < old_top.mask[i].1 by {
                assert(old_top.mask[i] == (0usize, old_top.shape[i]));
            }
            lemma_dense_reach(old_top, 0);
        }
        lemma_with_top_wf(t, v);
        assert(r.views[k] == v);
    } else {
        assert forall|j: int| 0 <= j < r.views.len() implies (#[trigger] r.views[j]).wf()
            && r.views[j].bounded(r.limit(j)) by {
            if j <= k {
                assert(r.views[j] == t.views[j]);
                if j > 0 {
                    assert(r.views[j - 1] == t.views[j - 1]);
                }
            } else {
                assert(r.views[j - 1] == old_top);
            }
        }
        assert(r.views[k + 1] == v);
    }
}

/// Two trackers with the same views up to view `k` resolve the coordinates
/// of view `k` alike.
pub proof fn lemma_same_below(s: TrackerModel, t: TrackerModel, k: int, c: Seq<int>)
    requires
        0 <= k < s.views.len(),
        k < t.views.len(),
        forall|i: int| 0 <= i <= k ==> s.views[i] == t.views[i],
    ensures
        s.locate(k, c) == t.locate(k, c),
    decreases k,
{
    if k > 0 && s.views[k].valid(c) {
        lemma_same_below(s, t, k - 1, unravel(s.views[k - 1].shape, s.views[k].offset_of(c)));
    }
}

/// Where a coordinate `d` of a new top view holds data exactly when the
/// coordinate `c` of the old one does, and then lies at the same offset, the
/// tracker with the new top view resolves `d` as the tracker itself
/// resolves `c`.
pub proof fn lemma_top_swap(t: TrackerModel, w: ViewModel, c: Seq<int>, d: Seq<int>)
    requires
        t.views.len() >= 1,
        w.valid(d) == t.top().valid(c),
        w.valid(d) ==> w.offset_of(d) == t.top().offset_of(c),
    ensures
        t.with_top(w).index(d) == t.index(c),
{
    let r = t.with_top(w);
    let k = t.views.len() - 1;
    assert(r.views[k] == w);
    if k > 0 && w.valid(d) {
        assert(r.views[k - 1] == t.views[k - 1]);
        assert forall|i: int| 0 <= i <= k - 1 implies r.views[i] == t.views[i] by {}
        lemma_same_below(r, t, k - 1, unravel(t.views[k - 1].shape, w.offset_of(d)));
    }
}

/// In a tracker that is one contiguous view from the start of the buffer,
/// every coordinate holds data and lies at its row-major position.
pub proof fn lemma_contiguous_index(t: TrackerModel, c: Seq<int>)
    requires
        t.wf(),
        t.views.len() == 1,
        t.contiguous(),
        t.top().offset == 0,
        t.top().holds(c),
    ensures
        t.index(c) == (ravel(t.shape(), c), true),
{
    let v = t.top();
    assert forall|i: int| 0 <= i < v.shape.len() implies (#[trigger] v.mask[i]).0 <= c[i]
        < v.mask[i].1 by {
        assert(v.mask[i] == (0usize, v.shape[i]));
    }
    let a = v.terms(c);
    let b = Seq::new(v.shape.len(), |i: int| c[i] * tail_numel(v.shape, i + 1));
    assert forall|i: int| 0 <= i < a.len() implies a[i] == b[i] by {
        assert(v.mask[i] == (0usize, v.shape[i]));
        assert(v.strides[i] == tail_numel(v.shape, i + 1));
    }
    lemma_sum_same(a, b, 0);
}

/// In a tracker that is one contiguous view from the start of the buffer,
/// the element at row-major position `o` lies at offset `o`.
pub proof fn lemma_contiguous_index_linear(t: TrackerModel, o: int)
    requires
        t.wf(),
        t.views.len() == 1,
        t.contiguous(),
        t.top().offset == 0,
        0 <= o < numel(t.shape()),
    ensures
        t.index(unravel(t.shape(), o)) == (o, true),
{
    lemma_unravel_holds(t.shape(), o);
    lemma_contiguous_index(t, unravel(t.shape(), o));
    lemma_ravel_unravel(t.shape(), o);
}

/// A coordinate of a permuted tracker resolves like the coordinate of the
/// tracker itself that it is a permutation of.
pub proof fn lemma_permuted_index(t: TrackerModel, p: Seq<usize>, c: Seq<int>)
    requires
        t.wf(),
        is_permutation(p, t.shape().len()),
        t.top().holds(c),
    ensures
        t.permuted(p).top().holds(permute_seq(c, p)),
        t.permuted(p).index(permute_seq(c, p)) == t.index(c),
{
    let v = t.top();
    let w = v.permuted(p);
    let r = t.permuted(p);
    let d = permute_seq(c, p);
    let k = t.views.len() - 1;
    assert(r.views[k] == w);
    assert forall|i: int| 0 <= i < d.len() implies 0 <= #[trigger] d[i] < w.shape[i] by {
        assert(p[i] < v.shape.len());
        assert(0 <= c[p[i] as int] < v.shape[p[i] as int]);
    }
    if v.valid(c) {
        assert forall|i: int| 0 <= i < w.shape.len() implies (#[trigger] w.mask[i]).0 <= d[i]
            < w.mask[i].1 by {
            assert(p[i] < v.shape.len());
            assert(v.mask[p[i] as int].0 <= c[p[i] as int]);
        }
    }
    if w.valid(d) {
        assert forall|a: int| 0 <= a < v.shape.len() implies (#[trigger] v.mask[a]).0 <= c[a]
            < v.mask[a].1 by {
            assert(lists_axis(p, a));
            let i = choose|i: int| 0 <= i < p.len() && #[trigger] p[i] == a;
            assert(w.mask[i].0 <= d[i]);
        }
    }
    assert(w.terms(d) =~= permute_seq(v.terms(c), p)) by {
        assert forall|i: int| 0 <= i < w.shape.len() implies w.terms(d)[i] == v.terms(c)[p[i] as int] by {
            assert(p[i] < v.shape.len());
        }
    }
    lemma_sum_permute(v.terms(c), p);
    if k > 0 {
        assert(r.views[k - 1] == t.views[k - 1]);
        lemma_same_below(t, r, k - 1, unravel(t.views[k - 1].shape, v.offset_of(c)));
    }
}

/// Permuting the axes and then permuting them back gives the tracker that
/// one started from.
pub proof fn lemma_permute_inverse(t: TrackerModel, p: Seq<usize>, q: Seq<usize>)
    requires
        t.wf(),
        is_permutation(p, t.shape().len()),
        q.len() == p.len(),
        forall|i: int| 0 <= i < q.len() ==> q[i] < p.len() && p[q[i] as int] == i,
    ensures
        t.permuted(p).permuted(q) == t,
{
    let v = t.top();
    let w = v.permuted(p).permuted(q);
    assert(w.shape =~= v.shape);
    assert(w.strides =~= v.strides);
    assert(w.mask =~= v.mask);
    let r = t.permuted(p).permuted(q);
    assert(r.views =~= t.views);
}

/// Every coordinate along a new axis of an expanded tracker resolves like
/// the coordinate of the tracker itself that it was made from: along the new
/// axis each element repeats.
pub proof fn lemma_expanded_index(t: TrackerModel, axis: int, size: usize, c: Seq<int>, x: int)
    requires
        t.wf(),
        0 <= axis <= t.shape().len(),
        t.top().holds(c),
        0 <= x < size,
    ensures
        t.expanded(axis, size).top().holds(c.insert(axis, x)),
        t.expanded(axis, size).index(c.insert(axis, x)) == t.index(c),
{
    let v = t.top();
    let w = v.expanded(axis, size);
    let d = c.insert(axis, x);
    assert(t.expanded(axis, size).top() == w);
    assert forall|i: int| 0 <= i < d.len() implies 0 <= #[trigger] d[i] < w.shape[i] by {
        if i < axis {
            assert(d[i] == c[i]);
        } else if i > axis {
            assert(d[i] == c[i - 1]);
        }
    }
    if v.valid(c) {
        assert forall|i: int| 0 <= i < w.shape.len() implies (#[trigger] w.mask[i]).0 <= d[i]
            < w.mask[i].1 by {
            if i < axis {
                assert(w.mask[i] == v.mask[i]);
            } else if i > axis {
                assert(w.mask[i] == v.mask[i - 1]);
            }
        }
    }
    if w.valid(d) {
        assert forall|i: int| 0 <= i < v.shape.len() implies (#[trigger] v.mask[i]).0 <= c[i]
            < v.mask[i].1 by {
            if i < axis {
                assert(w.mask[i] == v.mask[i]);
                assert(d[i] == c[i]);
            } else {
                assert(w.mask[i + 1] == v.mask[i]);
                assert(d[i + 1] == c[i]);
            }
        }
    }
    assert(w.terms(d) =~= v.terms(c).insert(axis, 0)) by {
        assert forall|i: int| 0 <= i < w.shape.len() implies w.terms(d)[i] == v.terms(c).insert(
            axis,
            0,
        )[i] by {
            if i < axis {
                assert(w.mask[i] == v.mask[i]);
            } else if i > axis {
                assert(w.mask[i] == v.mask[i - 1]);
            } else {
                assert(w.strides[i] == 0);
            }
        }
    }
    lemma_sum_insert(v.terms(c), axis, 0);
    lemma_top_swap(t, w, c, d);
}

/// Every coordinate along an enlarged axis resolves like the one coordinate
/// that the axis had before.
pub proof fn lemma_enlarged_index(t: TrackerModel, axis: int, size: usize, c: Seq<int>)
    requires
        t.wf(),
        0 <= axis < t.shape().len(),
        t.shape()[axis] == 1,
        t.enlarged(axis, size).top().holds(c),
    ensures
        t.top().holds(c.update(axis, 0)),
        t.enlarged(axis, size).index(c) == t.index(c.update(axis, 0)),
{
    let v = t.top();
    let w = v.enlarged(axis, size);
    let d = c.update(axis, 0);
    assert(t.enlarged(axis, size).top() == w);
    assert forall|i: int| 0 <= i < d.len() implies 0 <= #[trigger] d[i] < v.shape[i] by {
        if i != axis {
            assert(0 <= c[i] < w.shape[i]);
        }
    }
    assert(0 <= c[axis] < w.shape[axis]);
    assert(v.mask[axis].0 <= v.mask[axis].1 <= v.shape[axis]);
    if v.valid(d) {
        assert(v.mask[axis].0 <= d[axis] < v.mask[axis].1);
        assert forall|i: int| 0 <= i < w.shape.len() implies (#[trigger] w.mask[i]).0 <= c[i]
            < w.mask[i].1 by {
            if i != axis {
                assert(w.mask[i] == v.mask[i]);
                assert(v.mask[i].0 <= d[i] < v.mask[i].1);
            }
        }
    }
    if w.valid(c) {
        assert(w.mask[axis].0 <= c[axis] < w.mask[axis].1);
        assert forall|i: int| 0 <= i < v.shape.len() implies (#[trigger] v.mask[i]).0 <= d[i]
            < v.mask[i].1 by {
            if i != axis {
                assert(w.mask[i] == v.mask[i]);
                assert(w.mask[i].0 <= c[i] < w.mask[i].1);
            }
        }
        assert(w.terms(c) =~= v.terms(d)) by {
            assert forall|i: int| 0 <= i < w.shape.len() implies w.terms(c)[i] == v.terms(d)[i] by {
                if i != axis {
                    assert(w.mask[i] == v.mask[i]);
                } else {
                    let x = c[i] - w.mask[i].0;
                    let s = v.strides[i] as int;
                    assert(v.mask[i] == (0usize, 1usize));
                    assert(x * 0 == 0 && 0 * s == 0) by (nonlinear_arith);
                }
            }
        }
    }
    lemma_top_swap(t, w, d, c);
}

/// A coordinate moved by the start of each range.
pub open spec fn shifted(c: Seq<int>, ranges: Seq<(usize, usize)>) -> Seq<int> {
    Seq::new(c.len(), |i: int| c[i] + ranges[i].0)
}

/// A coordinate of a slice resolves like the coordinate of the tracker
/// itself that lies as far from the start of each range.
pub proof fn lemma_sliced_index(t: TrackerModel, ranges: Seq<(usize, usize)>, c: Seq<int>)
    requires
        t.wf(),
        t.top().ranges_ok(ranges),
        t.sliced(ranges).top().holds(c),
    ensures
        t.top().holds(shifted(c, ranges)),
        t.sliced(ranges).index(c) == t.index(shifted(c, ranges)),
{
    let v = t.top();
    let w = v.sliced(ranges);
    let d = shifted(c, ranges);
    let k = t.views.len() - 1;
    assert(t.sliced(ranges).top() == w);
    assert forall|i: int| 0 <= i < v.shape.len() implies 0 <= #[trigger] d[i] < v.shape[i] && ((
    w.mask[i].0 <= c[i] < w.mask[i].1) <==> (v.mask[i].0 <= d[i] < v.mask[i].1)) by {
        assert(ranges[i].0 <= ranges[i].1 <= v.shape[i]);
        assert(v.mask[i].0 <= v.mask[i].1 <= v.shape[i]);
        assert(0 <= c[i] < w.shape[i]);
    }
    if v.valid(d) {
        assert forall|i: int| 0 <= i < w.shape.len() implies (#[trigger] w.mask[i]).0 <= c[i]
            < w.mask[i].1 by {
            assert(v.mask[i].0 <= d[i] < v.mask[i].1);
        }
    }
    if w.valid(c) {
        assert forall|i: int| 0 <= i < v.shape.len() implies (#[trigger] v.mask[i]).0 <= d[i]
            < v.mask[i].1 by {
            assert(w.mask[i].0 <= c[i] < w.mask[i].1);
        }
        assert forall|i: int| 0 <= i < v.shape.len() implies (#[trigger] v.sliced_mask(
            ranges,
        )[i]).0 < v.sliced_mask(ranges)[i].1 by {
            assert(w.mask[i].0 <= c[i] < w.mask[i].1);
        }
        assert(v.slice_occupied(ranges));
        if k > 0 {
            lemma_tail_bounds(t.views[k - 1].shape, 0);
        }
        lemma_sliced_view(v, ranges, t.limit(k), 0);
        let shift = v.slice_shift(ranges);
        let here = w.terms(c);
        let there = v.terms(d);
        let both = Seq::new(shift.len(), |i: int| shift[i] + here[i]);
        assert forall|i: int| 0 <= i < v.shape.len() implies both[i] == there[i] by {
            assert(ranges[i].0 <= ranges[i].1 <= v.shape[i]);
            assert(v.mask[i].0 <= v.mask[i].1 <= v.shape[i]);
            assert(w.mask[i].0 <= c[i] < w.mask[i].1);
            let s = v.strides[i] as int;
            let lo = v.mask[i].0 as int;
            let a = ranges[i].0 as int;
            let x = if a > lo {
                a - lo
            } else {
                0
            };
            let y = c[i] - w.mask[i].0;
            assert(shift[i] == x * s);
            assert(here[i] == y * s);
            assert(there[i] == (d[i] - lo) * s);
            assert(x * s + y * s == (d[i] - lo) * s) by (nonlinear_arith)
                requires
                    x + y == d[i] - lo,
            ;
        }
        lemma_sum_add(shift, here, 0);
        lemma_sum_same(both, there, 0);
    }
    lemma_top_swap(t, w, d, c);
}

/// Whether a coordinate of a padded shape lies in what was there before the
/// padding.
pub open spec fn inside(c: Seq<int>, shape: Seq<usize>, pads: Seq<(usize, usize)>) -> bool {
    forall|i: int| 0 <= i < shape.len() ==> pads[i].0 <= #[trigger] c[i] < pads[i].0 + shape[i]
}

/// A coordinate with the padding before each axis taken off.
pub open spec fn unpadded(c: Seq<int>, pads: Seq<(usize, usize)>) -> Seq<int> {
    Seq::new(c.len(), |i: int| c[i] - pads[i].0)
}

/// A coordinate of a padded tracker that lies in what was there before
/// resolves like the coordinate of the tracker itself; any other is
/// padding.
pub proof fn lemma_padded_index(t: TrackerModel, pads: Seq<(usize, usize)>, c: Seq<int>)
    requires
        t.wf(),
        pads.len() == t.shape().len(),
        t.top().pad_fits(pads),
        t.padded(pads).top().holds(c),
    ensures
        inside(c, t.shape(), pads) ==> t.top().holds(unpadded(c, pads)) && t.padded(pads).index(c)
            == t.index(unpadded(c, pads)),
        !inside(c, t.shape(), pads) ==> t.padded(pads).index(c) == (0int, false),
{
    let v = t.top();
    let w = v.padded(pads);
    let d = unpadded(c, pads);
    let k = t.views.len() - 1;
    let r = t.padded(pads);
    assert(r.views[k] == w);
    assert forall|i: int| 0 <= i < v.shape.len() implies ((#[trigger] w.mask[i]).0 <= c[i]
        < w.mask[i].1 <==> v.mask[i].0 <= d[i] < v.mask[i].1) by {
        assert(v.padded_dims(pads)[i] <= usize::MAX);
        assert(v.mask[i].0 <= v.mask[i].1 <= v.shape[i]);
    }
    if inside(c, v.shape, pads) {
        assert forall|i: int| 0 <= i < d.len() implies 0 <= #[trigger] d[i] < v.shape[i] by {
            assert(pads[i].0 <= c[i] < pads[i].0 + v.shape[i]);
        }
        if v.valid(d) {
            assert forall|i: int| 0 <= i < w.shape.len() implies (#[trigger] w.mask[i]).0 <= c[i]
                < w.mask[i].1 by {
                assert(v.mask[i].0 <= d[i] < v.mask[i].1);
            }
        }
        if w.valid(c) {
            assert forall|i: int| 0 <= i < v.shape.len() implies (#[trigger] v.mask[i]).0 <= d[i]
                < v.mask[i].1 by {
                assert(w.mask[i].0 <= c[i] < w.mask[i].1);
            }
            assert(w.terms(c) =~= v.terms(d)) by {
                assert forall|i: int| 0 <= i < w.shape.len() implies w.terms(c)[i] == v.terms(
                    d,
                )[i] by {
                    assert(v.padded_dims(pads)[i] <= usize::MAX);
                    assert(v.mask[i].0 <= v.mask[i].1 <= v.shape[i]);
                }
            }
        }
        lemma_top_swap(t, w, d, c);
    } else {
        let i = choose|i: int|
            0 <= i < v.shape.len() && !(pads[i].0 <= #[trigger] c[i] < pads[i].0 + v.shape[i]);
        assert(v.padded_dims(pads)[i] <= usize::MAX);
        assert(v.mask[i].0 <= v.mask[i].1 <= v.shape[i]);
        assert(!(w.mask[i].0 <= c[i] < w.mask[i].1));
        assert(!w.valid(c));
    }
}

/// A coordinate of a reshaped tracker resolves like the coordinate of the
/// tracker itself that has the same row-major position.
pub proof fn lemma_reshaped_index(t: TrackerModel, shape: Seq<usize>, c: Seq<int>)
    requires
        t.wf(),
        numel(shape) == numel(t.shape()),
        capacity(shape) <= usize::MAX,
        dense_view(shape, 0).holds(c),
    ensures
        0 <= ravel(shape, c) < numel(t.shape()),
        t.reshaped(shape).index(c) == t.index(unravel(t.shape(), ravel(shape, c))),
{
    let v = t.top();
    let k = t.views.len() - 1;
    let o = ravel(shape, c);
    let u = unravel(v.shape, o);
    let r = t.reshaped(shape);
    lemma_ravel_bounds(shape, c);
    lemma_unravel_holds(v.shape, o);
    if t.contiguous() {
        let w = dense_view(shape, v.offset);
        let z = dense_view(shape, 0);
        assert(w.valid(c));
        assert(w.terms(c) =~= z.terms(c));
        assert(w.offset_of(c) == v.offset + o);
        assert forall|i: int| 0 <= i < v.shape.len() implies (#[trigger] v.mask[i]).0 <= u[i]
            < v.mask[i].1 by {
            assert(v.mask[i] == (0usize, v.shape[i]));
        }
        let a = v.terms(u);
        let b = Seq::new(v.shape.len(), |i: int| u[i] * tail_numel(v.shape, i + 1));
        assert forall|i: int| 0 <= i < a.len() implies a[i] == b[i] by {
            assert(v.mask[i] == (0usize, v.shape[i]));
            assert(v.strides[i] == tail_numel(v.shape, i + 1));
        }
        lemma_sum_same(a, b, 0);
        lemma_ravel_unravel(v.shape, o);
        lemma_top_swap(t, w, u, c);
    } else {
        let w = dense_view(shape, 0);
        assert(r.views[k + 1] == w);
        assert(r.views[k] == v);
        assert forall|i: int| 0 <= i <= k implies r.views[i] == t.views[i] by {}
        lemma_same_below(r, t, k, u);
    }
}

/// Reshaping a contiguous tracker and reshaping it back to its own shape
/// gives the tracker that one started from.
pub proof fn lemma_reshape_round_trip(t: TrackerModel, shape: Seq<usize>)
    requires
        t.wf(),
        t.contiguous(),
        numel(shape) == numel(t.shape()),
        capacity(shape) <= usize::MAX,
    ensures
        t.reshaped(shape).reshaped(t.shape()) == t,
{
    lemma_reshaped_wf(t, shape);
    let mid = t.reshaped(shape);
    let v = t.top();
    let back = dense_view(v.shape, v.offset);
    assert(back.strides =~= v.strides) by {
        assert forall|i: int| 0 <= i < v.shape.len() implies back.strides[i] == v.strides[i] by {
            assert(v.strides[i] == tail_numel(v.shape, i + 1));
        }
    }
    assert(back.mask =~= v.mask) by {
        assert forall|i: int| 0 <= i < v.shape.len() implies back.mask[i] == v.mask[i] by {
            assert(v.mask[i] == (0usize, v.shape[i]));
        }
    }
    assert(mid.top().offset == v.offset);
    assert(mid.reshaped(v.shape).views =~= t.views);
}

impl ShapeTracker {
    /// The tracker of a freshly stored tensor: one dense view of the whole
    /// buffer. Fails with `TooLarge` exactly when the machine cannot count the
    /// shape.
    pub fn new(shape: Vec<usize>) -> (r: Result<ShapeTracker, ShapeError>)
        ensures
            match r {
                Ok(t) => {
                    &&& capacity(shape@) <= usize::MAX
                    &&& t@ == TrackerModel::fresh(shape@)
                    &&& t@.wf()
                    &&& t@.contiguous()
                },
                Err(e) => e == ShapeError::TooLarge && capacity(shape@) > usize::MAX,
            },
    {
        if checked_capacity(&shape).is_none() {
            return Err(ShapeError::TooLarge);
        }
        let size = count(&shape);
        let view = ViewLayer::dense_over(shape, 0);
        let mut views: Vec<ViewLayer> = Vec::new();
        views.push(view);
        let t = ShapeTracker { views, size };
        proof {
            let v = t@.views[0];
            if v.occupied() {
                lemma_dense_reach(v, 0);
            }
            assert(t@.views =~= TrackerModel::fresh(shape@).views);
        }
        Ok(t)
    }

    /// The shape that users see.
    pub fn shape(&self) -> (dims: Vec<usize>)
        requires
            self@.wf(),
        ensures
            dims@ == self@.shape(),
    {
        copy_dims(&self.views[self.views.len() - 1].shape)
    }

    /// The strides of the view that users see.
    pub fn strides(&self) -> (strides: Vec<usize>)
        requires
            self@.wf(),
        ensures
            strides@ == self@.top().strides,
    {
        copy_dims(&self.views[self.views.len() - 1].strides)
    }

    /// The origin of the view that users see.
    pub fn offset(&self) -> (offset: usize)
        requires
            self@.wf(),
        ensures
            offset == self@.top().offset,
    {
        self.views[self.views.len() - 1].offset
    }

    /// The number of elements of the buffer.
    pub fn size(&self) -> (size: usize)
        ensures
            size == self@.size,
    {
        self.size
    }

    /// A copy of the tracker.
    pub fn duplicate(&self) -> (copy: ShapeTracker)
        ensures
            copy@ == self@,
    {
        let n = self.views.len();
        let mut views: Vec<ViewLayer> = Vec::new();
        let mut k: usize = 0;
        while k < n
            invariant
                k <= n,
                n == self.views@.len(),
                views@.len() == k,
                forall|i: int| 0 <= i < k ==> (#[trigger] views@[i])@ == self.views@[i]@,
            decreases n - k,
        {
            views.push(copy_view(&self.views[k]));
            k += 1;
        }
        let copy = ShapeTracker { views, size: self.size };
        proof {
            assert(copy@.views =~= self@.views);
        }
        copy
    }

    /// The number of views on the stack.
    pub fn depth(&self) -> (depth: usize)
        ensures
            depth == self@.views.len(),
    {
        self.views.len()
    }

    /// The number of elements of the shape that users see.
    pub fn n_elements(&self) -> (n: usize)
        requires
            self@.wf(),
        ensures
            n == numel(self@.shape()),
    {
        let top = &self.views[self.views.len() - 1];
        proof {
            assert(self@.views[self@.views.len() - 1] == top@);
        }
        count(&top.shape)
    }

    /// Whether the view that users see is dense and row-major with no
    /// padding.
    pub fn is_contiguous(&self) -> (b: bool)
        requires
            self@.wf(),
        ensures
            b == self@.contiguous(),
    {
        let top = &self.views[self.views.len() - 1];
        proof {
            assert(self@.views[self@.views.len() - 1] == top@);
        }
        let dense = row_major(&top.shape);
        let n = top.shape.len();
        let mut i: usize = 0;
        while i < n
            invariant
                i <= n,
                n == top@.shape.len(),
                top@ == self@.top(),
                top@.wf(),
                dense@.len() == n,
                forall|j: int| 0 <= j < n ==> dense@[j] == tail_numel(top@.shape, j + 1),
                forall|j: int|
                    0 <= j < i ==> (#[trigger] top@.strides[j]) == tail_numel(top@.shape, j + 1),
                forall|j: int| 0 <= j < i ==> (#[trigger] top@.mask[j]) == (0usize, top@.shape[j]),
            decreases n - i,
        {
            let (lo, hi) = top.mask[i];
            if top.strides[i] != dense[i] || lo != 0 || hi != top.shape[i] {
                proof {
                    if top.strides[i as int] != dense[i as int] {
                        assert(top@.strides[i as int] != tail_numel(top@.shape, i + 1));
                    } else {
                        assert(top@.mask[i as int] != (0usize, top@.shape[i as int]));
                    }
                }
                return false;
            }
            i += 1;
        }
        true
    }

    /// Resolves a coordinate of view `k` through the views below it.
    fn locate(&self, k: usize, c: &Vec<usize>) -> (r: (usize, bool))
        requires
            self@.wf(),
            k < self@.views.len(),
            self@.views[k as int].holds(ints(c@)),
        ensures
            (r.0 as int, r.1) == self@.locate(k as int, ints(c@)),
            r.1 ==> r.0 < self@.size,
        decreases k,
    {
        let v = &self.views[k];
        proof {
            lemma_locate_in_bounds(self@, k as int, ints(c@));
            if k > 0 {
                lemma_tail_bounds(self@.views[k - 1].shape, 0);
            }
        }
        if !v.admits(c) {
            return (0, false);
        }
        proof {
            lemma_offset_bounds(v@, ints(c@), 0);
        }
        let o = v.offset_at(c);
        if k == 0 {
            return (o, true);
        }
        let below = &self.views[k - 1];
        let inner = unravel_index(&below.shape, o);
        proof {
            lemma_unravel_holds(below@.shape, o as int);
        }
        self.locate(k - 1, &inner)
    }

    /// The physical offset of a logical coordinate, and whether the
    /// coordinate holds data rather than padding. A coordinate that holds
    /// data resolves to an offset inside the buffer; padding resolves to
    /// offset 0, which lies inside any buffer but an empty one.
    pub fn index(&self, c: &Vec<usize>) -> (r: (usize, bool))
        requires
            self@.wf(),
            self@.top().holds(ints(c@)),
        ensures
            (r.0 as int, r.1) == self@.index(ints(c@)),
            r.1 ==> r.0 < self@.size,
            !r.1 ==> r.0 == 0,
            self@.size > 0 ==> r.0 < self@.size,
    {
        proof {
            lemma_locate_in_bounds(self@, self@.views.len() - 1, ints(c@));
        }
        self.locate(self.views.len() - 1, c)
    }
}

impl ShapeTracker {
    /// The physical offset of the element at row-major position `o` of the
    /// logical shape, and whether it holds data rather than padding.
    pub fn index_linear(&self, o: usize) -> (r: (usize, bool))
        requires
            self@.wf(),
            o < numel(self@.shape()),
        ensures
            (r.0 as int, r.1) == self@.index(unravel(self@.shape(), o as int)),
            r.1 ==> r.0 < self@.size,
            !r.1 ==> r.0 == 0,
            self@.size > 0 ==> r.0 < self@.size,
    {
        let top = &self.views[self.views.len() - 1];
        proof {
            assert(self@.views[self@.views.len() - 1] == top@);
            lemma_unravel_holds(top@.shape, o as int);
        }
        let c = unravel_index(&top.shape, o);
        self.index(&c)
    }
}

impl ShapeTracker {
    /// A tracker with the views of `self` below the one that users see, and
    /// `top` in its place.
    fn replace_top(&self, top: ViewLayer) -> (r: ShapeTracker)
        requires
            self@.views.len() >= 1,
        ensures
            r@ == self@.with_top(top@),
    {
        let n = self.views.len() - 1;
        let mut views: Vec<ViewLayer> = Vec::new();
        let mut k: usize = 0;
        while k < n
            invariant
                k <= n,
                n == self.views@.len() - 1,
                views@.len() == k,
                forall|i: int| 0 <= i < k ==> (#[trigger] views@[i])@ == self.views@[i]@,
            decreases n - k,
        {
            views.push(copy_view(&self.views[k]));
            k += 1;
        }
        views.push(top);
        let r = ShapeTracker { views, size: self.size };
        proof {
            assert(r@.views =~= self@.with_top(top@).views);
        }
        r
    }

    /// The tracker whose logical axes are those of `self` in the order that
    /// `axes` lists them: axis `i` of the result is axis `axes[i]` of `self`.
    pub fn permute(&self, axes: &Vec<usize>) -> (r: ShapeTracker)
        requires
            self@.wf(),
            is_permutation(axes@, self@.shape().len()),
        ensures
            r@ == self@.permuted(axes@),
            r@.wf(),
    {
        let top = &self.views[self.views.len() - 1];
        proof {
            assert(self@.views[self@.views.len() - 1] == top@);
        }
        let n = axes.len();
        let mut shape: Vec<usize> = Vec::new();
        let mut strides: Vec<usize> = Vec::new();
        let mut mask: Vec<(usize, usize)> = Vec::new();
        let mut i: usize = 0;
        while i < n
            invariant
                i <= n,
                n == axes@.len(),
                top@.wf(),
                is_permutation(axes@, top@.shape.len()),
                shape@.len() == i,
                strides@.len() == i,
                mask@.len() == i,
                forall|j: int| 0 <= j < i ==> shape@[j] == top@.shape[axes@[j] as int],
                forall|j: int| 0 <= j < i ==> strides@[j] == top@.strides[axes@[j] as int],
                forall|j: int| 0 <= j < i ==> mask@[j] == top@.mask[axes@[j] as int],
            decreases n - i,
        {
            let a = axes[i];
            shape.push(top.shape[a]);
            strides.push(top.strides[a]);
            mask.push(top.mask[a]);
            i += 1;
        }
        let view = ViewLayer { shape, strides, offset: top.offset, mask };
        proof {
            let want = top@.permuted(axes@);
            assert(view@.shape =~= want.shape);
            assert(view@.strides =~= want.strides);
            assert(view@.mask =~= want.mask);
            lemma_permuted_wf(self@, axes@);
        }
        self.replace_top(view)
    }
}

impl ShapeTracker {
    /// The tracker with a new logical axis of length `size` before axis
    /// `axis` (after the last axis, where `axis` is the rank), along which
    /// every element repeats. Fails with `TooLarge` exactly when the machine
    /// cannot count the new shape.
    pub fn expand(&self, axis: usize, size: usize) -> (r: Result<ShapeTracker, ShapeError>)
        requires
            self@.wf(),
            axis <= self@.shape().len(),
        ensures
            match r {
                Ok(t) => {
                    &&& capacity(self@.shape().insert(axis as int, size)) <= usize::MAX
                    &&& t@ == self@.expanded(axis as int, size)
                    &&& t@.wf()
                },
                Err(e) => e == ShapeError::TooLarge && capacity(
                    self@.shape().insert(axis as int, size),
                ) > usize::MAX,
            },
    {
        let top = &self.views[self.views.len() - 1];
        proof {
            assert(self@.views[self@.views.len() - 1] == top@);
            lemma_capacity_insert(top@.shape, axis as int, size);
        }
        let cap = match checked_capacity(&top.shape) {
            Some(c) => c,
            None => {
                return Err(ShapeError::TooLarge);
            },
        };
        let factor = if size == 0 {
            1
        } else {
            size
        };
        if factor.checked_mul(cap).is_none() {
            return Err(ShapeError::TooLarge);
        }
        let mut view = copy_view(top);
        view.shape.insert(axis, size);
        view.strides.insert(axis, 0);
        view.mask.insert(axis, (0, size));
        proof {
            lemma_expanded_view(top@, axis as int, size, self@.limit(self@.views.len() - 1));
            lemma_with_top_wf(self@, top@.expanded(axis as int, size));
        }
        Ok(self.replace_top(view))
    }

    /// The tracker with `pads[i].0` coordinates of padding before logical
    /// axis `i` and `pads[i].1` after it. Fails with `TooLarge` exactly when
    /// the machine cannot track the new shape.
    pub fn pad(&self, pads: &Vec<(usize, usize)>) -> (r: Result<ShapeTracker, ShapeError>)
        requires
            self@.wf(),
            pads@.len() == self@.shape().len(),
        ensures
            match r {
                Ok(t) => {
                    &&& self@.top().pad_fits(pads@)
                    &&& t@ == self@.padded(pads@)
                    &&& t@.wf()
                },
                Err(e) => e == ShapeError::TooLarge && !self@.top().pad_fits(pads@),
            },
    {
        let top = &self.views[self.views.len() - 1];
        proof {
            assert(self@.views[self@.views.len() - 1] == top@);
        }
        let n = pads.len();
        let mut shape: Vec<usize> = Vec::new();
        let mut mask: Vec<(usize, usize)> = Vec::new();
        let mut i: usize = 0;
        while i < n
            invariant
                i <= n,
                n == pads@.len(),
                n == top@.shape.len(),
                top@.wf(),
                top@ == self@.top(),
                shape@.len() == i,
                mask@.len() == i,
                forall|j: int| 0 <= j < i ==> #[trigger] top@.padded_dims(pads@)[j] <= usize::MAX,
                forall|j: int| 0 <= j < i ==> shape@[j] == top@.padded(pads@).shape[j],
                forall|j: int| 0 <= j < i ==> mask@[j] == top@.padded(pads@).mask[j],
            decreases n - i,
        {
            let (before, after) = pads[i];
            let (lo, hi) = top.mask[i];
            proof {
                assert(top@.mask[i as int].0 <= top@.mask[i as int].1 <= top@.shape[i as int]);
            }
            let inner = match before.checked_add(top.shape[i]) {
                Some(x) => x,
                None => {
                    proof {
                        assert(top@.padded_dims(pads@)[i as int] > usize::MAX);
                    }
                    return Err(ShapeError::TooLarge);
                },
            };
            let whole = match inner.checked_add(after) {
                Some(x) => x,
                None => {
                    proof {
                        assert(top@.padded_dims(pads@)[i as int] > usize::MAX);
                    }
                    return Err(ShapeError::TooLarge);
                },
            };
            proof {
                assert(top@.padded_dims(pads@)[i as int] == whole);
            }
            shape.push(whole);
            mask.push((lo + before, hi + before));
            i += 1;
        }
        proof {
            assert(shape@ =~= top@.padded(pads@).shape);
            assert(mask@ =~= top@.padded(pads@).mask);
        }
        if checked_capacity(&shape).is_none() {
            return Err(ShapeError::TooLarge);
        }
        let view = ViewLayer { shape, strides: copy_dims(&top.strides), offset: top.offset, mask };
        proof {
            lemma_padded_view(top@, pads@, self@.limit(self@.views.len() - 1));
            lemma_with_top_wf(self@, top@.padded(pads@));
        }
        Ok(self.replace_top(view))
    }
}

impl ShapeTracker {
    /// The tracker with logical axis `axis`, of length one, enlarged to
    /// `size`, along which every element repeats. Fails with `TooLarge`
    /// exactly when the machine cannot count the new shape.
    pub fn enlarge(&self, axis: usize, size: usize) -> (r: Result<ShapeTracker, ShapeError>)
        requires
            self@.wf(),
            axis < self@.shape().len(),
            self@.shape()[axis as int] == 1,
        ensures
            match r {
                Ok(t) => {
                    &&& capacity(self@.shape().update(axis as int, size)) <= usize::MAX
                    &&& t@ == self@.enlarged(axis as int, size)
                    &&& t@.wf()
                },
                Err(e) => e == ShapeError::TooLarge && capacity(
                    self@.shape().update(axis as int, size),
                ) > usize::MAX,
            },
    {
        let top = &self.views[self.views.len() - 1];
        proof {
            assert(self@.views[self@.views.len() - 1] == top@);
            lemma_capacity_enlarge(top@.shape, axis as int, size);
        }
        let cap = match checked_capacity(&top.shape) {
            Some(c) => c,
            None => {
                return Err(ShapeError::TooLarge);
            },
        };
        let factor = if size == 0 {
            1
        } else {
            size
        };
        if factor.checked_mul(cap).is_none() {
            return Err(ShapeError::TooLarge);
        }
        let mut view = copy_view(top);
        let (lo, hi) = view.mask[axis];
        let range = if lo == 0 && hi == 1 {
            (0, size)
        } else {
            (0, 0)
        };
        view.shape.set(axis, size);
        view.strides.set(axis, 0);
        view.mask.set(axis, range);
        proof {
            lemma_enlarged_view(top@, axis as int, size, self@.limit(self@.views.len() - 1));
            lemma_with_top_wf(self@, top@.enlarged(axis as int, size));
        }
        Ok(self.replace_top(view))
    }

    /// Whether `c` is a coordinate of the shape that users see.
    pub fn holds(&self, c: &Vec<usize>) -> (b: bool)
        requires
            self@.wf(),
        ensures
            b == self@.top().holds(ints(c@)),
    {
        let top = &self.views[self.views.len() - 1];
        proof {
            assert(self@.views[self@.views.len() - 1] == top@);
        }
        let n = top.shape.len();
        if c.len() != n {
            return false;
        }
        let mut i: usize = 0;
        while i < n
            invariant
                i <= n,
                n == c@.len(),
                n == top@.shape.len(),
                top@ == self@.top(),
                forall|j: int| 0 <= j < i ==> 0 <= #[trigger] ints(c@)[j] < top@.shape[j],
            decreases n - i,
        {
            proof {
                assert(ints(c@)[i as int] == c@[i as int]);
            }
            if c[i] >= top.shape[i] {
                return false;
            }
            i += 1;
        }
        true
    }

    /// Whether `ranges` names a range of coordinates of each axis of the
    /// shape that users see.
    pub fn accepts_ranges(&self, ranges: &Vec<(usize, usize)>) -> (b: bool)
        requires
            self@.wf(),
        ensures
            b == self@.top().ranges_ok(ranges@),
    {
        let top = &self.views[self.views.len() - 1];
        proof {
            assert(self@.views[self@.views.len() - 1] == top@);
        }
        let n = top.shape.len();
        if ranges.len() != n {
            return false;
        }
        let mut i: usize = 0;
        while i < n
            invariant
                i <= n,
                n == ranges@.len(),
                n == top@.shape.len(),
                top@ == self@.top(),
                forall|j: int|
                    0 <= j < i ==> (#[trigger] ranges@[j]).0 <= ranges@[j].1 <= top@.shape[j],
            decreases n - i,
        {
            let (a, b) = ranges[i];
            if a > b || b > top.shape[i] {
                proof {
                    assert(!(ranges@[i as int].0 <= ranges@[i as int].1 <= top@.shape[i as int]));
                }
                return false;
            }
            i += 1;
        }
        true
    }
}

impl ShapeTracker {
    /// A tracker with the views of `self` and `top` stacked on them.
    fn stack(&self, top: ViewLayer) -> (r: ShapeTracker)
        ensures
            r@ == (TrackerModel { views: self@.views.push(top@), size: self@.size }),
    {
        let n = self.views.len();
        let mut views: Vec<ViewLayer> = Vec::new();
        let mut k: usize = 0;
        while k < n
            invariant
                k <= n,
                n == self.views@.len(),
                views@.len() == k,
                forall|i: int| 0 <= i < k ==> (#[trigger] views@[i])@ == self.views@[i]@,
            decreases n - k,
        {
            views.push(copy_view(&self.views[k]));
            k += 1;
        }
        views.push(top);
        let r = ShapeTracker { views, size: self.size };
        proof {
            assert(r@.views =~= self@.views.push(top@));
        }
        r
    }

    /// The tracker of the coordinates from `ranges[i].0` up to `ranges[i].1`
    /// of each logical axis `i`. An empty range gives an axis of length
    /// zero.
    pub fn slice(&self, ranges: &Vec<(usize, usize)>) -> (r: ShapeTracker)
        requires
            self@.wf(),
            self@.top().ranges_ok(ranges@),
        ensures
            r@ == self@.sliced(ranges@),
            r@.wf(),
            forall|i: int|
                0 <= i < ranges@.len() ==> r@.shape()[i] == ranges@[i].1 - ranges@[i].0,
    {
        let top = &self.views[self.views.len() - 1];
        let ghost limit = self@.limit(self@.views.len() - 1);
        proof {
            assert(self@.views[self@.views.len() - 1] == top@);
            if self@.views.len() > 1 {
                lemma_tail_bounds(self@.views[self@.views.len() - 2].shape, 0);
            }
            lemma_sliced_view(top@, ranges@, limit, 0);
            lemma_sliced_wf(self@, ranges@);
        }
        let n = ranges.len();
        let mut shape: Vec<usize> = Vec::new();
        let mut mask: Vec<(usize, usize)> = Vec::new();
        let mut occupied = true;
        let mut i: usize = 0;
        while i < n
            invariant
                i <= n,
                n == ranges@.len(),
                top@.wf(),
                top@.ranges_ok(ranges@),
                shape@.len() == i,
                mask@.len() == i,
                forall|j: int| 0 <= j < i ==> shape@[j] == top@.sliced(ranges@).shape[j],
                forall|j: int| 0 <= j < i ==> mask@[j] == top@.sliced_mask(ranges@)[j],
                occupied == (forall|j: int|
                    0 <= j < i ==> (#[trigger] top@.sliced_mask(ranges@)[j]).0
                        < top@.sliced_mask(ranges@)[j].1),
            decreases n - i,
        {
            let (a, b) = ranges[i];
            let (lo, hi) = top.mask[i];
            proof {
                assert(ranges@[i as int].0 <= ranges@[i as int].1 <= top@.shape[i as int]);
                assert(top@.mask[i as int].0 <= top@.mask[i as int].1 <= top@.shape[i as int]);
            }
            let first = if lo < a {
                a
            } else if lo > b {
                b
            } else {
                lo
            };
            let last = if hi < a {
                a
            } else if hi > b {
                b
            } else {
                hi
            };
            shape.push(b - a);
            mask.push((first - a, last - a));
            if first >= last {
                occupied = false;
                proof {
                    assert(!(top@.sliced_mask(ranges@)[i as int].0 < top@.sliced_mask(
                        ranges@,
                    )[i as int].1));
                }
            }
            i += 1;
        }
        let mut offset = top.offset;
        if occupied {
            let ghost shift = top@.slice_shift(ranges@);
            let mut k: usize = 0;
            while k < n
                invariant
                    k <= n,
                    n == ranges@.len(),
                    top@.wf(),
                    top@.ranges_ok(ranges@),
                    top@.bounded(limit),
                    limit <= usize::MAX,
                    top@.slice_occupied(ranges@),
                    shift == top@.slice_shift(ranges@),
                    offset + sum_from(shift, k as int) == top@.offset + sum_from(shift, 0),
                    top@.offset + sum_from(shift, 0) < limit,
                decreases n - k,
            {
                proof {
                    lemma_sliced_view(top@, ranges@, limit, k + 1);
                    assert(ranges@[k as int].0 <= ranges@[k as int].1 <= top@.shape[k as int]);
                    lemma_sum_nonneg_step(shift, k as int);
                }
                let a = ranges[k].0;
                let lo = top.mask[k].0;
                if a > lo {
                    proof {
                        assert(shift[k as int] == (a - lo) * top@.strides[k as int]);
                        assert(0 <= (a - lo) * top@.strides[k as int]) by (nonlinear_arith)
                            requires
                                a > lo,
                                0 <= top@.strides[k as int],
                        ;
                    }
                    offset = offset + (a - lo) * top.strides[k];
                }
                k += 1;
            }
        }
        let view = ViewLayer { shape, strides: copy_dims(&top.strides), offset, mask };
        proof {
            let want = top@.sliced(ranges@);
            assert(view@.shape =~= want.shape);
            assert(view@.mask =~= want.mask);
        }
        self.replace_top(view)
    }

    /// The tracker of the same elements under another logical shape. Fails
    /// with `IncompatibleReshape` exactly when the new shape has another
    /// number of elements, and with `TooLarge` when it has as many but is one
    /// that the machine cannot count.
    pub fn reshape(&self, new_shape: Vec<usize>) -> (r: Result<ShapeTracker, ShapeError>)
        requires
            self@.wf(),
        ensures
            match r {
                Ok(t) => {
                    &&& numel(new_shape@) == numel(self@.shape())
                    &&& capacity(new_shape@) <= usize::MAX
                    &&& t@ == self@.reshaped(new_shape@)
                    &&& t@.wf()
                },
                Err(e) => if numel(new_shape@) != numel(self@.shape()) {
                    e == ShapeError::IncompatibleReshape
                } else {
                    e == ShapeError::TooLarge && capacity(new_shape@) > usize::MAX
                },
            },
    {
        let top = &self.views[self.views.len() - 1];
        proof {
            assert(self@.views[self@.views.len() - 1] == top@);
            lemma_tail_bounds(top@.shape, 0);
        }
        let have = count(&top.shape);
        if checked_capacity(&new_shape).is_none() {
            let n = new_shape.len();
            let mut i: usize = 0;
            while i < n
                invariant
                    i <= n,
                    n == new_shape@.len(),
                    have == numel(self@.shape()),
                    capacity(new_shape@) > usize::MAX,
                    forall|j: int| 0 <= j < i ==> new_shape@[j] > 0,
                decreases n - i,
            {
                if new_shape[i] == 0 {
                    proof {
                        lemma_empty_axis(new_shape@, i as int);
                    }
                    if have != 0 {
                        return Err(ShapeError::IncompatibleReshape);
                    }
                    return Err(ShapeError::TooLarge);
                }
                i += 1;
            }
            proof {
                lemma_positive_numel(new_shape@, 0);
            }
            return Err(ShapeError::IncompatibleReshape);
        }
        let want = count(&new_shape);
        if want != have {
            return Err(ShapeError::IncompatibleReshape);
        }
        proof {
            lemma_reshaped_wf(self@, new_shape@);
        }
        if self.is_contiguous() {
            let view = ViewLayer::dense_over(new_shape, top.offset);
            Ok(self.replace_top(view))
        } else {
            let view = ViewLayer::dense_over(new_shape, 0);
            Ok(self.stack(view))
        }
    }

    /// The tracker with a dense view of the logical shape on top: a tracker
    /// that is contiguous already stays as it is; on any other the dense
    /// view is stacked, so that every read goes through `index`. Every
    /// coordinate resolves as before.
    pub fn contiguous(&self) -> (r: ShapeTracker)
        requires
            self@.wf(),
        ensures
            r@ == self@.reshaped(self@.shape()),
            r@.wf(),
            r@.contiguous(),
            r@.shape() == self@.shape(),
            forall|c: Seq<int>|
                self@.top().holds(c) ==> #[trigger] r@.index(c) == self@.index(c),
    {
        let top = &self.views[self.views.len() - 1];
        proof {
            assert(self@.views[self@.views.len() - 1] == top@);
            lemma_reshaped_wf(self@, self@.shape());
            assert forall|c: Seq<int>| self@.top().holds(c) implies #[trigger] self@.reshaped(
                self@.shape(),
            ).index(c) == self@.index(c) by {
                lemma_reshaped_index(self@, self@.shape(), c);
                lemma_unravel_ravel(self@.shape(), c);
            }
        }
        if self.is_contiguous() {
            let view = ViewLayer::dense_over(copy_dims(&top.shape), top.offset);
            self.replace_top(view)
        } else {
            let view = ViewLayer::dense_over(copy_dims(&top.shape), 0);
            self.stack(view)
        }
    }
}

} // verus!
