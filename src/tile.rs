use vstd::arithmetic::div_mod::lemma_fundamental_div_mod_converse_div;
use vstd::prelude::*;

verus! {

/// Where the primary region sits on the screen.
#[derive(PartialEq, Eq, Structural, Clone, Copy, Debug)]
pub enum TileType {
    Left,
    Top,
    Right,
    Bottom,
}

/// One geometry query: how many windows are shown, and the area they share.
#[derive(Clone, Copy, Debug)]
pub struct Params {
    pub view_count: u32,
    pub usable_width: u32,
    pub usable_height: u32,
}

impl Params {
    /// The same area with another window count.
    pub fn with_view_count(&self, view_count: u32) -> (r: Params)
        ensures
            r.view_count == view_count,
            r.usable_width == self.usable_width,
            r.usable_height == self.usable_height,
    {
        Params { view_count, usable_width: self.usable_width, usable_height: self.usable_height }
    }
}

/// A window's place: position and size in the unit of the usable area.
#[derive(PartialEq, Eq, Structural, Clone, Copy, Debug)]
pub struct Rect {
    pub x: i32,
    pub y: i32,
    pub width: u32,
    pub height: u32,
}

/// The two groups of windows a tile places differently.
#[derive(PartialEq, Eq, Structural, Clone, Copy, Debug)]
pub enum Region {
    Primary,
    Stack,
}

/// The rectangle with these coordinates, when each fits its machine type.
pub open spec fn rect_of(x: int, y: int, width: int, height: int) -> Option<Rect> {
    if i32::MIN <= x <= i32::MAX && i32::MIN <= y <= i32::MAX && 0 <= width <= u32::MAX && 0
        <= height <= u32::MAX {
        Some(Rect { x: x as i32, y: y as i32, width: width as u32, height: height as u32 })
    } else {
        None
    }
}

fn make_rect(x: i128, y: i128, width: i128, height: i128) -> (r: Option<Rect>)
    ensures
        r == rect_of(x as int, y as int, width as int, height as int),
{
    if i32::MIN as i128 <= x && x <= i32::MAX as i128 && i32::MIN as i128 <= y && y
        <= i32::MAX as i128 && 0 <= width && width <= u32::MAX as i128 && 0 <= height && height
        <= u32::MAX as i128 {
        Some(Rect { x: x as i32, y: y as i32, width: width as u32, height: height as u32 })
    } else {
        None
    }
}

proof fn lemma_mul_le(a: int, b: int, ma: int, mb: int)
    requires
        0 <= a <= ma,
        0 <= b <= mb,
    ensures
        0 <= a * b <= ma * mb,
{
    assert(0 <= a * b <= ma * mb) by (nonlinear_arith)
        requires
            0 <= a <= ma,
            0 <= b <= mb,
    ;
}

/// 4 raised to the power `n`.
pub open spec fn pow4(n: nat) -> nat
    decreases n,
{
    if n == 0 {
        1
    } else {
        4 * pow4((n - 1) as nat)
    }
}

/// `size * 4^i / (1 + 4 + ... + 4^(n-1))`, rounded half up.
///
/// The sum of the weights is `(4^n - 1) / 3`, so numerator and denominator are scaled by 3
/// to keep everything in integers.
pub open spec fn share(size: int, i: nat, n: nat) -> int {
    (6 * size * pow4(i) + pow4(n) - 1) / (2 * (pow4(n) - 1))
}

/// The sum of the shares of ranks `0..k`.
pub open spec fn shares_before(size: int, k: nat, n: nat) -> int
    decreases k,
{
    if k == 0 {
        0
    } else {
        shares_before(size, (k - 1) as nat, n) + share(size, (k - 1) as nat, n)
    }
}

/// The part of `size` given to rank `index` of `total`: the rounded geometric share, except
/// for the last rank, which takes whatever the others left.
pub open spec fn diminished(size: int, index: nat, total: nat) -> int {
    if index + 1 == total {
        size - shares_before(size, (total - 1) as nat, total)
    } else {
        share(size, index, total)
    }
}

/// The sum of `diminished(size, i, total)` over `i` in `0..k`.
pub open spec fn diminished_sum(size: int, k: nat, total: nat) -> int
    decreases k,
{
    if k == 0 {
        0
    } else {
        diminished_sum(size, (k - 1) as nat, total) + diminished(size, (k - 1) as nat, total)
    }
}

proof fn lemma_pow4_positive(n: nat)
    ensures
        pow4(n) >= 1,
    decreases n,
{
    if n > 0 {
        lemma_pow4_positive((n - 1) as nat);
    }
}

proof fn lemma_pow4_add(a: nat, b: nat)
    ensures
        pow4(a + b) == pow4(a) * pow4(b),
    decreases b,
{
    if b > 0 {
        lemma_pow4_add(a, (b - 1) as nat);
        assert((a + b - 1) as nat == a + (b - 1) as nat);
        let p = pow4(a);
        let q = pow4((b - 1) as nat);
        assert(pow4(a + b) == 4 * pow4((a + b - 1) as nat));
        assert(pow4(a + b) == 4 * (p * q));
        assert(pow4(b) == 4 * q);
        assert(p * (4 * q) == 4 * (p * q)) by (nonlinear_arith);
    } else {
        let p = pow4(a);
        assert(pow4(b) == 1);
        assert(p * 1 == p) by (nonlinear_arith);
    }
}

proof fn lemma_pow4_monotonic(a: nat, b: nat)
    requires
        a <= b,
    ensures
        pow4(a) <= pow4(b),
    decreases b,
{
    if a < b {
        lemma_pow4_monotonic(a, (b - 1) as nat);
        lemma_pow4_positive((b - 1) as nat);
    }
}

/// A share scaled by the weight total never exceeds twice the exact share.
proof fn lemma_share_scaled(size: int, i: nat, n: nat)
    requires
        size >= 0,
        n >= 1,
    ensures
        0 <= share(size, i, n),
        share(size, i, n) * (pow4(n) - 1) <= 6 * size * pow4(i),
{
    lemma_pow4_positive(i);
    lemma_pow4_monotonic(1, n);
    assert(pow4(1) == 4) by {
        reveal_with_fuel(pow4, 2);
    }
    let x = 6 * size * pow4(i);
    let e = pow4(n) - 1;
    assert(x >= 0) by (nonlinear_arith)
        requires
            size >= 0,
            pow4(i) >= 1,
            x == 6 * size * pow4(i),
    ;
    assert(e >= 3);
    let s = (x + e) / (2 * e);
    assert(s >= 0) by (nonlinear_arith)
        requires
            x >= 0,
            e >= 3,
            s == (x + e) / (2 * e),
    ;
    assert(share(size, i, n) == s);
    if x < e {
        assert(s == 0 && s * e <= x) by (nonlinear_arith)
            requires
                0 <= x < e,
                s == (x + e) / (2 * e),
        ;
    } else {
        assert(s * e <= x) by (nonlinear_arith)
            requires
                x >= e,
                e >= 3,
                s == (x + e) / (2 * e),
        ;
    }
}

/// The shares of ranks `0..k` add up to no more than `2 * size * (4^k - 1) / (4^n - 1)`.
proof fn lemma_shares_before_scaled(size: int, k: nat, n: nat)
    requires
        size >= 0,
        n >= 1,
    ensures
        0 <= shares_before(size, k, n),
        shares_before(size, k, n) * (pow4(n) - 1) <= 2 * size * (pow4(k) - 1),
    decreases k,
{
    if k > 0 {
        let j = (k - 1) as nat;
        lemma_shares_before_scaled(size, j, n);
        lemma_share_scaled(size, j, n);
        let e = pow4(n) - 1;
        let a = shares_before(size, j, n);
        let b = share(size, j, n);
        assert((a + b) * e == a * e + b * e) by (nonlinear_arith);
        assert(2 * size * (pow4(j) - 1) + 6 * size * pow4(j) == 2 * size * (4 * pow4(j) - 1))
            by (nonlinear_arith);
    }
}

/// Every rank but the last gets a share, and those shares never add up to more than `size`.
proof fn lemma_shares_fit(size: int, k: nat, n: nat)
    requires
        size >= 0,
        k < n,
    ensures
        0 <= shares_before(size, k, n) <= size,
{
    lemma_shares_before_scaled(size, k, n);
    lemma_pow4_monotonic(k, (n - 1) as nat);
    lemma_pow4_positive(k);
    let e = pow4(n) - 1;
    let a = shares_before(size, k, n);
    assert(pow4(n) == 4 * pow4((n - 1) as nat));
    assert(2 * (pow4(k) - 1) <= e);
    assert(a <= size) by (nonlinear_arith)
        requires
            a * e <= 2 * size * (pow4(k) - 1),
            2 * (pow4(k) - 1) <= e,
            e >= 3,
            size >= 0,
    ;
}

/// Diminishing distributes `size` exactly: the parts are non-negative and add up to `size`.
pub proof fn lemma_diminish_sums_to_size(size: int, total: nat)
    requires
        size >= 0,
        total > 0,
    ensures
        diminished_sum(size, total, total) == size,
        forall|i: nat| i < total ==> 0 <= #[trigger] diminished(size, i, total) <= size,
{
    lemma_diminished_prefix(size, (total - 1) as nat, total);
    lemma_shares_fit(size, (total - 1) as nat, total);
    assert forall|i: nat| i < total implies 0 <= #[trigger] diminished(size, i, total) <= size by {
        if i + 1 < total {
            lemma_shares_fit(size, i + 1, total);
            lemma_shares_before_scaled(size, i, total);
            lemma_share_scaled(size, i, total);
        }
    }
}

proof fn lemma_diminished_prefix(size: int, k: nat, total: nat)
    requires
        k < total,
    ensures
        diminished_sum(size, k, total) == shares_before(size, k, total),
    decreases k,
{
    if k > 0 {
        lemma_diminished_prefix(size, (k - 1) as nat, total);
    }
}

/// Far below the last rank a share rounds to nothing.
proof fn lemma_share_far(size: int, i: nat, n: nat)
    requires
        0 <= size <= u32::MAX,
        i + 18 <= n,
    ensures
        share(size, i, n) == 0,
{
    let m = (n - i) as nat;
    lemma_pow4_add(i, m);
    lemma_pow4_monotonic(18, m);
    lemma_pow4_positive(i);
    assert(pow4(18) == 68719476736) by {
        reveal_with_fuel(pow4, 19);
    }
    let p = pow4(i);
    let big = pow4(m);
    let x = 6 * size * p;
    let e = pow4(n) - 1;
    assert(x < e) by (nonlinear_arith)
        requires
            p >= 1,
            big >= 68719476736,
            0 <= size <= u32::MAX,
            x == 6 * size * p,
            e == p * big - 1,
    ;
    assert(share(size, i, n) == (x + e) / (2 * e));
    assert((x + e) / (2 * e) == 0) by (nonlinear_arith)
        requires
            0 <= x < e,
    ;
}

/// Close to the last rank, and with enough ranks before it, a share depends only on the
/// distance `n - i` to the end: the `- 1` of the weight total is too small to matter.
proof fn lemma_share_near(size: int, i: nat, n: nat)
    requires
        0 <= size <= u32::MAX,
        23 <= i < n,
    ensures
        share(size, i, n) == (6 * size + pow4((n - i) as nat)) / (2 * pow4((n - i) as nat) as int),
{
    let m = (n - i) as nat;
    lemma_pow4_add(i, m);
    lemma_pow4_monotonic(23, i);
    lemma_pow4_monotonic(1, m);
    assert(pow4(1) == 4) by {
        reveal_with_fuel(pow4, 2);
    }
    assert(pow4(23) == 70368744177664) by {
        reveal_with_fuel(pow4, 24);
    }
    let p = pow4(i) as int;
    let big = pow4(m) as int;
    let a = 6 * size + big;
    let b = 2 * big;
    let q = a / b;
    let r = a % b;
    assert(a == q * b + r && 0 <= r < b && 0 <= q < 0x1_0000_0000) by (nonlinear_arith)
        requires
            0 <= size <= u32::MAX,
            big >= 4,
            a == 6 * size + big,
            b == 2 * big,
            q == a / b,
            r == a % b,
    ;
    let num = 6 * size * p + pow4(n) - 1;
    let den = 2 * (pow4(n) - 1);
    assert(num == p * a - 1 && den == p * b - 2) by (nonlinear_arith)
        requires
            a == 6 * size + big,
            b == 2 * big,
            num == 6 * size * p + p * big - 1,
            den == 2 * (p * big - 1),
    ;
    let rest = num - q * den;
    assert(rest == p * r - 1 + 2 * q) by (nonlinear_arith)
        requires
            num == p * a - 1,
            den == p * b - 2,
            a == q * b + r,
            rest == num - q * den,
    ;
    assert(p * r + 2 * q >= 1) by (nonlinear_arith)
        requires
            p >= 1,
            a >= 4,
            a == q * b + r,
            0 <= r,
            0 <= q,
    ;
    assert(den - rest == p * (b - r) - 1 - 2 * q) by (nonlinear_arith)
        requires
            den == p * b - 2,
            rest == p * r - 1 + 2 * q,
    ;
    assert(p * (b - r) >= p) by (nonlinear_arith)
        requires
            p >= 1,
            b - r >= 1,
    ;
    lemma_fundamental_div_mod_converse_div(num, den, q, rest);
}

proof fn lemma_pow4_40()
    ensures
        pow4(40) == 0x1_0000_0000_0000_0000_0000,
{
    reveal_with_fuel(pow4, 41);
}

/// 4^k as a machine integer.
fn pow4_exec(k: u32) -> (r: u128)
    requires
        k <= 40,
    ensures
        r == pow4(k as nat),
{
    proof {
        lemma_pow4_40();
    }
    let mut r: u128 = 1;
    let mut j: u32 = 0;
    while j < k
        invariant
            j <= k <= 40,
            r == pow4(j as nat),
            pow4(40) == 0x1_0000_0000_0000_0000_0000,
        decreases k - j,
    {
        proof {
            lemma_pow4_monotonic((j + 1) as nat, 40);
        }
        r = r * 4;
        j = j + 1;
    }
    r
}

/// The rounded share of a rank below the last one.
fn rank_share(size: u32, i: u32, n: u32) -> (r: u32)
    requires
        i + 1 < n,
    ensures
        r == share(size as int, i as nat, n as nat),
{
    proof {
        lemma_shares_fit(size as int, (i + 1) as nat, n as nat);
        lemma_shares_before_scaled(size as int, i as nat, n as nat);
        lemma_share_scaled(size as int, i as nat, n as nat);
    }
    if n <= 40 {
        let pi = pow4_exec(i);
        let pn = pow4_exec(n);
        proof {
            lemma_pow4_monotonic(i as nat, 40);
            lemma_pow4_monotonic(n as nat, 40);
            lemma_pow4_monotonic(1, n as nat);
            lemma_pow4_40();
            assert(pow4(1) == 4) by {
                reveal_with_fuel(pow4, 2);
            }
            assert(6 * size * pi <= 6 * 0xffff_ffff * 0x1_0000_0000_0000_0000_0000)
                by (nonlinear_arith)
                requires
                    size <= 0xffff_ffff,
                    pi <= 0x1_0000_0000_0000_0000_0000,
            ;
        }
        let num = 6 * (size as u128) * pi + (pn - 1);
        let den = 2 * (pn - 1);
        (num / den) as u32
    } else if n - i >= 18 {
        proof {
            lemma_share_far(size as int, i as nat, n as nat);
        }
        0
    } else {
        let pm = pow4_exec(n - i);
        proof {
            lemma_share_near(size as int, i as nat, n as nat);
            lemma_pow4_positive((n - i) as nat);
            lemma_pow4_monotonic((n - i) as nat, 40);
            lemma_pow4_40();
        }
        ((6 * (size as u128) + pm) / (2 * pm)) as u32
    }
}

/// The base layout: a primary region on the left, the stack on the right.
///
/// `dim` skews the stack heights: 0 keeps them equal, a positive value makes the top window
/// the tallest and a negative one the bottom window, taking `|dim|` percent of the height.
pub struct LeftPrimary {
    pub inner: u32,
    pub outer: u32,
    pub ratio: u32,
    pub main: u32,
    pub dim: i32,
}

impl LeftPrimary {
    /// Where the stack region starts: `ratio` percent of the width.
    pub open spec fn center(self, width: int) -> int {
        width * self.ratio / 100
    }

    /// The height left for `count` windows stacked vertically once the gaps are taken out.
    pub open spec fn gaps(self, count: int, height: int) -> int {
        height - 2 * self.inner * count - 2 * self.outer
    }

    pub open spec fn skew(self) -> int {
        if self.dim < 0 {
            -self.dim
        } else {
            self.dim as int
        }
    }

    /// The height of stack window `j` of `n`, or `None` where the area cannot hold them.
    pub open spec fn stack_height(self, j: int, n: int, height: int) -> Option<int> {
        let total = self.gaps(n, height);
        if n <= 0 || total < 0 {
            None
        } else if self.dim == 0 || n == 1 {
            Some(total / n)
        } else {
            let stolen = total * self.skew() / 100;
            if stolen > total || j < 0 || j >= n {
                None
            } else {
                let rank = if self.dim > 0 {
                    n - j - 1
                } else {
                    j
                };
                Some((total - stolen) / n + diminished(stolen, rank as nat, n as nat))
            }
        }
    }

    /// How far stack window `j` of `n` sits below the first: the heights of the windows
    /// above it, each with the gap around it.
    pub open spec fn stack_offset(self, j: int, n: int, height: int) -> Option<int>
        decreases j,
    {
        if j <= 0 {
            Some(0)
        } else {
            match (self.stack_offset(j - 1, n, height), self.stack_height(j - 1, n, height)) {
                (Some(o), Some(h)) => Some(o + h + 2 * self.inner),
                _ => None,
            }
        }
    }

    pub open spec fn primary_width(self, p: Params) -> int {
        if p.view_count <= self.main {
            p.usable_width - 2 * self.inner - 2 * self.outer
        } else {
            self.center(p.usable_width as int) - 2 * self.inner - self.outer
        }
    }

    pub open spec fn stack_width(self, p: Params) -> int {
        p.usable_width - self.center(p.usable_width as int) - 2 * self.inner - self.outer
    }

    /// Primary window `i`: the first `min(view_count, main)` windows share the region's
    /// height equally.
    pub open spec fn primary_place(self, p: Params, i: int) -> Option<Rect> {
        let k: int = if p.view_count < self.main {
            p.view_count as int
        } else {
            self.main as int
        };
        let total = self.gaps(k, p.usable_height as int);
        if k == 0 || total < 0 || self.primary_width(p) < 0 {
            None
        } else {
            let h = total / k;
            rect_of(
                self.outer + self.inner,
                self.outer + self.inner + i * (2 * self.inner + h),
                self.primary_width(p),
                h,
            )
        }
    }

    /// Stack window `i`, counted among all windows.
    pub open spec fn stack_place(self, p: Params, i: int) -> Option<Rect> {
        let n = p.view_count - self.main;
        let j = i - self.main;
        if j < 0 || n <= 0 || self.stack_width(p) < 0 {
            None
        } else {
            match (
                self.stack_offset(j, n, p.usable_height as int),
                self.stack_height(j, n, p.usable_height as int),
            ) {
                (Some(o), Some(h)) => rect_of(
                    self.center(p.usable_width as int) + self.inner,
                    self.outer + self.inner + o,
                    self.stack_width(p),
                    h,
                ),
                _ => None,
            }
        }
    }

    pub fn new(inner: u32, outer: u32, ratio: u32, main: u32, dim: i32) -> (r: LeftPrimary)
        ensures
            r == (LeftPrimary { inner, outer, ratio, main, dim }),
    {
        LeftPrimary { inner, outer, ratio, main, dim }
    }

    fn get_center(&self, usable_width: u32) -> (r: u64)
        ensures
            r == self.center(usable_width as int),
    {
        proof {
            lemma_mul_le(usable_width as int, self.ratio as int, u32::MAX as int, u32::MAX as int);
        }
        (usable_width as u64 * self.ratio as u64) / 100
    }

    fn subtract_gaps(&self, count: u32, params: &Params) -> (r: Option<u32>)
        ensures
            match r {
                Some(v) => v == self.gaps(count as int, params.usable_height as int),
                None => self.gaps(count as int, params.usable_height as int) < 0,
            },
    {
        proof {
            lemma_mul_le(2 * self.inner, count as int, 2 * u32::MAX, u32::MAX as int);
        }
        let taken = 2 * (self.inner as u128) * (count as u128) + 2 * (self.outer as u128);
        if taken > params.usable_height as u128 {
            None
        } else {
            Some((params.usable_height as u128 - taken) as u32)
        }
    }

    fn get_height(&self, count: u32, params: &Params) -> (r: Option<u32>)
        requires
            count > 0,
        ensures
            match r {
                Some(v) => v == self.gaps(count as int, params.usable_height as int) / count as int
                    && self.gaps(count as int, params.usable_height as int) >= 0,
                None => self.gaps(count as int, params.usable_height as int) < 0,
            },
    {
        match self.subtract_gaps(count, params) {
            Some(total) => Some(total / count),
            None => None,
        }
    }

    fn get_diminished_height(&self, index: u32, count: u32, params: &Params) -> (r: Option<u32>)
        ensures
            match r {
                Some(v) => self.stack_height(index as int, count as int, params.usable_height as int)
                    == Some(v as int),
                None => self.stack_height(
                    index as int,
                    count as int,
                    params.usable_height as int,
                ) is None,
            },
    {
        if count == 0 {
            return None;
        }
        if self.dim == 0 || count == 1 {
            return self.get_height(count, params);
        }
        let total = match self.subtract_gaps(count, params) {
            Some(t) => t,
            None => return None,
        };
        let skew: u64 = if self.dim < 0 {
            (0 - (self.dim as i64)) as u64
        } else {
            self.dim as u64
        };
        proof {
            lemma_mul_le(total as int, skew as int, u32::MAX as int, 0x8000_0000);
        }
        let stolen = (total as u64 * skew) / 100;
        if stolen > total as u64 || index >= count {
            return None;
        }
        let stolen = stolen as u32;
        let base = (total - stolen) / count;
        let rank = if self.dim > 0 {
            count - index - 1
        } else {
            index
        };
        proof {
            lemma_diminish_sums_to_size(stolen as int, count as nat);
            assert(0 <= diminished(stolen as int, rank as nat, count as nat) <= stolen);
            assert(base <= total - stolen) by (nonlinear_arith)
                requires
                    count > 0,
                    total >= stolen,
                    base == (total - stolen) / count as int,
            ;
        }
        Some(base + LeftPrimary::diminish(stolen, rank, count))
    }

    /// Part `index` of `size` split over `total` parts with weights 1, 4, 16, ...; the
    /// rounding error is absorbed by the last part.
    pub fn diminish(size: u32, index: u32, total: u32) -> (r: u32)
        requires
            index < total,
        ensures
            r == diminished(size as int, index as nat, total as nat),
    {
        if index == total - 1 {
            let mut prev_sum: u32 = 0;
            let mut i: u32 = 0;
            while i < total - 1
                invariant
                    i <= total - 1,
                    index == total - 1,
                    prev_sum == shares_before(size as int, i as nat, total as nat),
                decreases total - 1 - i,
            {
                proof {
                    lemma_shares_fit(size as int, (i + 1) as nat, total as nat);
                }
                prev_sum = prev_sum + rank_share(size, i, total);
                i = i + 1;
            }
            proof {
                lemma_shares_fit(size as int, (total - 1) as nat, total as nat);
            }
            return size - prev_sum;
        }
        rank_share(size, index, total)
    }
}

/// Mirrors the wrapped tile horizontally.
pub struct Flipped {
    pub wrapped: Box<AnyTile>,
}

/// Exchanges the axes of the wrapped tile, turning a left/right layout into a top/bottom one.
pub struct Rotated {
    pub wrapped: Box<AnyTile>,
}

/// Shrinks the area by a margin on each side and shifts the wrapped tile into it.
pub struct Padded {
    pub wrapped: Box<AnyTile>,
    pub h_pad: i32,
    pub v_pad: i32,
}

/// Answers every query as if a single window were shown.
pub struct Monocle {
    pub wrapped: Box<AnyTile>,
}

/// A tile of any kind: the base layout, or a wrapper around another tile.
pub enum AnyTile {
    Base(LeftPrimary),
    Flipped(Flipped),
    Rotated(Rotated),
    Padded(Padded),
    Monocle(Monocle),
}

/// The area with width and height exchanged.
pub open spec fn swapped(p: Params) -> Params {
    Params { view_count: p.view_count, usable_width: p.usable_height, usable_height: p.usable_width }
}

impl Padded {
    /// The area the wrapped tile sees: shrunk by twice each margin, or left as it is where
    /// that would leave no room; `None` where the grown area does not fit the machine type.
    pub open spec fn shrunk(self, p: Params) -> Option<Params> {
        let w = p.usable_width - 2 * self.h_pad;
        let h = p.usable_height - 2 * self.v_pad;
        if w <= 0 || h <= 0 {
            Some(p)
        } else if w > u32::MAX || h > u32::MAX {
            None
        } else {
            Some(Params { view_count: p.view_count, usable_width: w as u32, usable_height: h as u32 })
        }
    }
}

/// The number of leading windows that go to the primary region.
pub open spec fn main_of(t: AnyTile) -> u32
    decreases t,
{
    match t {
        AnyTile::Base(b) => b.main,
        AnyTile::Flipped(f) => main_of(*f.wrapped),
        AnyTile::Rotated(o) => main_of(*o.wrapped),
        AnyTile::Padded(d) => main_of(*d.wrapped),
        AnyTile::Monocle(m) => main_of(*m.wrapped),
    }
}

/// Where tile `t` puts window `i` when it is answered as a member of `region`; `None` where
/// the area cannot hold the layout or a coordinate leaves its machine type.
pub open spec fn place(t: AnyTile, p: Params, region: Region, i: int) -> Option<Rect>
    decreases t,
{
    match t {
        AnyTile::Base(b) => match region {
            Region::Primary => b.primary_place(p, i),
            Region::Stack => b.stack_place(p, i),
        },
        AnyTile::Flipped(f) => match region {
            Region::Primary => match place(*f.wrapped, p, Region::Primary, i) {
                Some(r) => rect_of(p.usable_width - r.x - r.width, r.y as int, r.width as int, r.height as int),
                None => None,
            },
            Region::Stack => match (
                place(*f.wrapped, p, Region::Stack, i),
                place(*f.wrapped, p, Region::Primary, 0),
            ) {
                (Some(r), Some(q)) => Some(Rect { x: q.x, y: r.y, width: r.width, height: r.height }),
                _ => None,
            },
        },
        AnyTile::Rotated(o) => match place(*o.wrapped, swapped(p), region, i) {
            Some(r) => Some(Rect { x: r.y, y: r.x, width: r.height, height: r.width }),
            None => None,
        },
        AnyTile::Padded(d) => match d.shrunk(p) {
            Some(q) => match place(*d.wrapped, q, region, i) {
                Some(r) => rect_of(r.x + d.h_pad, r.y + d.v_pad, r.width as int, r.height as int),
                None => None,
            },
            None => None,
        },
        AnyTile::Monocle(m) => place(
            *m.wrapped,
            Params { view_count: 1, usable_width: p.usable_width, usable_height: p.usable_height },
            Region::Primary,
            0,
        ),
    }
}

/// Where tile `t` puts window `i`: the first `main_of(t)` windows are primary, the rest
/// belong to the stack.
pub open spec fn locate(t: AnyTile, p: Params, i: int) -> Option<Rect> {
    if i < main_of(t) {
        place(t, p, Region::Primary, i)
    } else {
        place(t, p, Region::Stack, i)
    }
}

/// A layout policy: places each window of a query.
pub trait Tile {
    /// This tile as a value of the general tile type.
    spec fn model(&self) -> AnyTile;

    fn get_main(&self) -> (r: u32)
        ensures
            r == main_of(self.model()),
    ;

    fn primary_rect(&self, params: &Params, index: u32) -> (r: Option<Rect>)
        ensures
            r == place(self.model(), *params, Region::Primary, index as int),
    ;

    fn stack_rect(&self, params: &Params, index: u32) -> (r: Option<Rect>)
        ensures
            r == place(self.model(), *params, Region::Stack, index as int),
    ;

    /// Window `index`, routed to the primary region or the stack.
    fn rect(&self, params: &Params, index: u32) -> (r: Option<Rect>)
        ensures
            r == locate(self.model(), *params, index as int),
    {
        if index < self.get_main() {
            self.primary_rect(params, index)
        } else {
            self.stack_rect(params, index)
        }
    }

    fn get_primary_x(&self, params: &Params, index: u32) -> (r: i32)
        requires
            place(self.model(), *params, Region::Primary, index as int) is Some,
        ensures
            r == place(self.model(), *params, Region::Primary, index as int)->Some_0.x,
    {
        self.primary_rect(params, index).unwrap().x
    }

    fn get_primary_y(&self, params: &Params, index: u32) -> (r: i32)
        requires
            place(self.model(), *params, Region::Primary, index as int) is Some,
        ensures
            r == place(self.model(), *params, Region::Primary, index as int)->Some_0.y,
    {
        self.primary_rect(params, index).unwrap().y
    }

    fn get_primary_width(&self, params: &Params, index: u32) -> (r: u32)
        requires
            place(self.model(), *params, Region::Primary, index as int) is Some,
        ensures
            r == place(self.model(), *params, Region::Primary, index as int)->Some_0.width,
    {
        self.primary_rect(params, index).unwrap().width
    }

    fn get_primary_height(&self, params: &Params, index: u32) -> (r: u32)
        requires
            place(self.model(), *params, Region::Primary, index as int) is Some,
        ensures
            r == place(self.model(), *params, Region::Primary, index as int)->Some_0.height,
    {
        self.primary_rect(params, index).unwrap().height
    }

    fn get_stack_x(&self, params: &Params, index: u32) -> (r: i32)
        requires
            place(self.model(), *params, Region::Stack, index as int) is Some,
        ensures
            r == place(self.model(), *params, Region::Stack, index as int)->Some_0.x,
    {
        self.stack_rect(params, index).unwrap().x
    }

    fn get_stack_y(&self, params: &Params, index: u32) -> (r: i32)
        requires
            place(self.model(), *params, Region::Stack, index as int) is Some,
        ensures
            r == place(self.model(), *params, Region::Stack, index as int)->Some_0.y,
    {
        self.stack_rect(params, index).unwrap().y
    }

    fn get_stack_width(&self, params: &Params, index: u32) -> (r: u32)
        requires
            place(self.model(), *params, Region::Stack, index as int) is Some,
        ensures
            r == place(self.model(), *params, Region::Stack, index as int)->Some_0.width,
    {
        self.stack_rect(params, index).unwrap().width
    }

    fn get_stack_height(&self, params: &Params, index: u32) -> (r: u32)
        requires
            place(self.model(), *params, Region::Stack, index as int) is Some,
        ensures
            r == place(self.model(), *params, Region::Stack, index as int)->Some_0.height,
    {
        self.stack_rect(params, index).unwrap().height
    }

    fn get_x(&self, params: &Params, index: u32) -> (r: i32)
        requires
            locate(self.model(), *params, index as int) is Some,
        ensures
            r == locate(self.model(), *params, index as int)->Some_0.x,
    {
        self.rect(params, index).unwrap().x
    }

    fn get_y(&self, params: &Params, index: u32) -> (r: i32)
        requires
            locate(self.model(), *params, index as int) is Some,
        ensures
            r == locate(self.model(), *params, index as int)->Some_0.y,
    {
        self.rect(params, index).unwrap().y
    }

    fn get_width(&self, params: &Params, index: u32) -> (r: u32)
        requires
            locate(self.model(), *params, index as int) is Some,
        ensures
            r == locate(self.model(), *params, index as int)->Some_0.width,
    {
        self.rect(params, index).unwrap().width
    }

    fn get_height(&self, params: &Params, index: u32) -> (r: u32)
        requires
            locate(self.model(), *params, index as int) is Some,
        ensures
            r == locate(self.model(), *params, index as int)->Some_0.height,
    {
        self.rect(params, index).unwrap().height
    }
}

proof fn lemma_offset_stays_none(b: LeftPrimary, a: int, j: int, n: int, height: int)
    requires
        0 <= a <= j,
        b.stack_offset(a, n, height) is None,
    ensures
        b.stack_offset(j, n, height) is None,
    decreases j - a,
{
    if a < j {
        lemma_offset_stays_none(b, a + 1, j, n, height);
    }
}

impl LeftPrimary {
    /// The offset of stack window `j` of `n` below the first one.
    fn stack_top(&self, j: u32, n: u32, params: &Params) -> (r: Option<u128>)
        ensures
            match r {
                Some(v) => self.stack_offset(j as int, n as int, params.usable_height as int)
                    == Some(v as int) && v <= j * 0x4_0000_0000,
                None => self.stack_offset(j as int, n as int, params.usable_height as int) is None,
            },
    {
        let mut acc: u128 = 0;
        let mut t: u32 = 0;
        while t < j
            invariant
                t <= j,
                self.stack_offset(t as int, n as int, params.usable_height as int) == Some(
                    acc as int,
                ),
                acc <= t * 0x4_0000_0000,
            decreases j - t,
        {
            proof {
                lemma_mul_le(t as int, 0x4_0000_0000, u32::MAX as int, 0x4_0000_0000);
            }
            match self.get_diminished_height(t, n, params) {
                Some(h) => {
                    acc = acc + h as u128 + 2 * self.inner as u128;
                },
                None => {
                    proof {
                        lemma_offset_stays_none(
                            *self,
                            t + 1,
                            j as int,
                            n as int,
                            params.usable_height as int,
                        );
                    }
                    return None;
                },
            }
            t = t + 1;
        }
        Some(acc)
    }
}

impl Tile for LeftPrimary {
    open spec fn model(&self) -> AnyTile {
        AnyTile::Base(*self)
    }

    fn get_main(&self) -> (r: u32) {
        self.main
    }

    fn primary_rect(&self, params: &Params, index: u32) -> (r: Option<Rect>) {
        let k = if params.view_count < self.main {
            params.view_count
        } else {
            self.main
        };
        if k == 0 {
            return None;
        }
        let h = match self.get_height(k, params) {
            Some(h) => h,
            None => return None,
        };
        let inner = self.inner as i128;
        let outer = self.outer as i128;
        let width = if params.view_count <= self.main {
            params.usable_width as i128 - 2 * inner - 2 * outer
        } else {
            self.get_center(params.usable_width) as i128 - 2 * inner - outer
        };
        if width < 0 {
            return None;
        }
        proof {
            lemma_mul_le(index as int, 2 * inner + h, u32::MAX as int, 3 * u32::MAX);
        }
        make_rect(outer + inner, outer + inner + index as i128 * (2 * inner + h as i128), width, h as i128)
    }

    fn stack_rect(&self, params: &Params, index: u32) -> (r: Option<Rect>) {
        if index < self.main || params.view_count <= self.main {
            return None;
        }
        let n = params.view_count - self.main;
        let j = index - self.main;
        let inner = self.inner as i128;
        let outer = self.outer as i128;
        let center = self.get_center(params.usable_width) as i128;
        let width = params.usable_width as i128 - center - 2 * inner - outer;
        if width < 0 {
            return None;
        }
        let offset = match self.stack_top(j, n, params) {
            Some(o) => o,
            None => return None,
        };
        let h = match self.get_diminished_height(j, n, params) {
            Some(h) => h,
            None => return None,
        };
        proof {
            lemma_mul_le(j as int, 0x4_0000_0000, u32::MAX as int, 0x4_0000_0000);
        }
        make_rect(center + inner, outer + inner + offset as i128, width, h as i128)
    }
}

pub fn flip(wrapped: AnyTile) -> (r: AnyTile)
    ensures
        r matches AnyTile::Flipped(f) && *f.wrapped == wrapped,
{
    AnyTile::Flipped(Flipped::new(wrapped))
}

impl Flipped {
    pub fn new(wrapped: AnyTile) -> (r: Flipped)
        ensures
            *r.wrapped == wrapped,
    {
        Flipped { wrapped: Box::new(wrapped) }
    }
}

impl Tile for Flipped {
    open spec fn model(&self) -> AnyTile {
        AnyTile::Flipped(*self)
    }

    fn get_main(&self) -> (r: u32)
        decreases self,
    {
        proof {
            assert(self.wrapped.model() == *self.wrapped);
        }
        self.wrapped.get_main()
    }

    fn primary_rect(&self, params: &Params, index: u32) -> (r: Option<Rect>)
        decreases self,
    {
        proof {
            assert(self.wrapped.model() == *self.wrapped);
        }
        match self.wrapped.primary_rect(params, index) {
            Some(r) => make_rect(
                params.usable_width as i128 - r.x as i128 - r.width as i128,
                r.y as i128,
                r.width as i128,
                r.height as i128,
            ),
            None => None,
        }
    }

    fn stack_rect(&self, params: &Params, index: u32) -> (r: Option<Rect>)
        decreases self,
    {
        proof {
            assert(self.wrapped.model() == *self.wrapped);
        }
        match self.wrapped.stack_rect(params, index) {
            Some(r) => match self.wrapped.primary_rect(params, 0) {
                Some(q) => Some(Rect { x: q.x, y: r.y, width: r.width, height: r.height }),
                None => None,
            },
            None => None,
        }
    }
}

pub fn rotate(wrapped: AnyTile) -> (r: AnyTile)
    ensures
        r matches AnyTile::Rotated(o) && *o.wrapped == wrapped,
{
    AnyTile::Rotated(Rotated::new(wrapped))
}

impl Rotated {
    pub fn new(wrapped: AnyTile) -> (r: Rotated)
        ensures
            *r.wrapped == wrapped,
    {
        Rotated { wrapped: Box::new(wrapped) }
    }

    fn translate(params: &Params) -> (r: Params)
        ensures
            r == swapped(*params),
    {
        Params {
            view_count: params.view_count,
            usable_width: params.usable_height,
            usable_height: params.usable_width,
        }
    }
}

impl Tile for Rotated {
    open spec fn model(&self) -> AnyTile {
        AnyTile::Rotated(*self)
    }

    fn get_main(&self) -> (r: u32)
        decreases self,
    {
        proof {
            assert(self.wrapped.model() == *self.wrapped);
        }
        self.wrapped.get_main()
    }

    fn primary_rect(&self, params: &Params, index: u32) -> (r: Option<Rect>)
        decreases self,
    {
        proof {
            assert(self.wrapped.model() == *self.wrapped);
        }
        match self.wrapped.primary_rect(&Rotated::translate(params), index) {
            Some(r) => Some(Rect { x: r.y, y: r.x, width: r.height, height: r.width }),
            None => None,
        }
    }

    fn stack_rect(&self, params: &Params, index: u32) -> (r: Option<Rect>)
        decreases self,
    {
        proof {
            assert(self.wrapped.model() == *self.wrapped);
        }
        match self.wrapped.stack_rect(&Rotated::translate(params), index) {
            Some(r) => Some(Rect { x: r.y, y: r.x, width: r.height, height: r.width }),
            None => None,
        }
    }
}

impl Padded {
    pub fn new(wrapped: AnyTile, h_pad: i32, v_pad: i32) -> (r: Padded)
        ensures
            *r.wrapped == wrapped,
            r.h_pad == h_pad,
            r.v_pad == v_pad,
    {
        Padded { wrapped: Box::new(wrapped), h_pad, v_pad }
    }

    fn translate(&self, params: &Params) -> (r: Option<Params>)
        ensures
            r == self.shrunk(*params),
    {
        let sub_w = 2 * self.h_pad as i64;
        let sub_h = 2 * self.v_pad as i64;
        let w = params.usable_width as i64 - sub_w;
        let h = params.usable_height as i64 - sub_h;
        if w <= 0 || h <= 0 {
            return Some(*params);
        }
        if w > u32::MAX as i64 || h > u32::MAX as i64 {
            return None;
        }
        Some(Params { view_count: params.view_count, usable_width: w as u32, usable_height: h as u32 })
    }

    fn shift(&self, r: Option<Rect>) -> (s: Option<Rect>)
        ensures
            s == match r {
                Some(r) => rect_of(r.x + self.h_pad, r.y + self.v_pad, r.width as int, r.height as int),
                None => None,
            },
    {
        match r {
            Some(r) => make_rect(
                r.x as i128 + self.h_pad as i128,
                r.y as i128 + self.v_pad as i128,
                r.width as i128,
                r.height as i128,
            ),
            None => None,
        }
    }
}

impl Tile for Padded {
    open spec fn model(&self) -> AnyTile {
        AnyTile::Padded(*self)
    }

    fn get_main(&self) -> (r: u32)
        decreases self,
    {
        proof {
            assert(self.wrapped.model() == *self.wrapped);
        }
        self.wrapped.get_main()
    }

    fn primary_rect(&self, params: &Params, index: u32) -> (r: Option<Rect>)
        decreases self,
    {
        proof {
            assert(self.wrapped.model() == *self.wrapped);
        }
        match self.translate(params) {
            Some(q) => self.shift(self.wrapped.primary_rect(&q, index)),
            None => None,
        }
    }

    fn stack_rect(&self, params: &Params, index: u32) -> (r: Option<Rect>)
        decreases self,
    {
        proof {
            assert(self.wrapped.model() == *self.wrapped);
        }
        match self.translate(params) {
            Some(q) => self.shift(self.wrapped.stack_rect(&q, index)),
            None => None,
        }
    }
}

impl Monocle {
    pub fn new(wrapped: AnyTile) -> (r: Monocle)
        ensures
            *r.wrapped == wrapped,
    {
        Monocle { wrapped: Box::new(wrapped) }
    }
}

impl Tile for Monocle {
    open spec fn model(&self) -> AnyTile {
        AnyTile::Monocle(*self)
    }

    fn get_main(&self) -> (r: u32)
        decreases self,
    {
        proof {
            assert(self.wrapped.model() == *self.wrapped);
        }
        self.wrapped.get_main()
    }

    fn primary_rect(&self, params: &Params, index: u32) -> (r: Option<Rect>)
        decreases self,
    {
        proof {
            assert(self.wrapped.model() == *self.wrapped);
        }
        self.wrapped.primary_rect(&params.with_view_count(1), 0)
    }

    fn stack_rect(&self, params: &Params, index: u32) -> (r: Option<Rect>)
        decreases self,
    {
        proof {
            assert(self.wrapped.model() == *self.wrapped);
        }
        self.wrapped.primary_rect(&params.with_view_count(1), 0)
    }
}

impl Tile for AnyTile {
    open spec fn model(&self) -> AnyTile {
        *self
    }

    fn get_main(&self) -> (r: u32)
        decreases self,
    {
        match self {
            AnyTile::Base(b) => {
                assert(b.model() == *self);
                b.get_main()
            },
            AnyTile::Flipped(f) => {
                assert(f.model() == *self);
                f.get_main()
            },
            AnyTile::Rotated(o) => {
                assert(o.model() == *self);
                o.get_main()
            },
            AnyTile::Padded(d) => {
                assert(d.model() == *self);
                d.get_main()
            },
            AnyTile::Monocle(m) => {
                assert(m.model() == *self);
                m.get_main()
            },
        }
    }

    fn primary_rect(&self, params: &Params, index: u32) -> (r: Option<Rect>)
        decreases self,
    {
        match self {
            AnyTile::Base(b) => {
                assert(b.model() == *self);
                b.primary_rect(params, index)
            },
            AnyTile::Flipped(f) => {
                assert(f.model() == *self);
                f.primary_rect(params, index)
            },
            AnyTile::Rotated(o) => {
                assert(o.model() == *self);
                o.primary_rect(params, index)
            },
            AnyTile::Padded(d) => {
                assert(d.model() == *self);
                d.primary_rect(params, index)
            },
            AnyTile::Monocle(m) => {
                assert(m.model() == *self);
                m.primary_rect(params, index)
            },
        }
    }

    fn stack_rect(&self, params: &Params, index: u32) -> (r: Option<Rect>)
        decreases self,
    {
        match self {
            AnyTile::Base(b) => {
                assert(b.model() == *self);
                b.stack_rect(params, index)
            },
            AnyTile::Flipped(f) => {
                assert(f.model() == *self);
                f.stack_rect(params, index)
            },
            AnyTile::Rotated(o) => {
                assert(o.model() == *self);
                o.stack_rect(params, index)
            },
            AnyTile::Padded(d) => {
                assert(d.model() == *self);
                d.stack_rect(params, index)
            },
            AnyTile::Monocle(m) => {
                assert(m.model() == *self);
                m.stack_rect(params, index)
            },
        }
    }
}

/// Gaps, ratio and main count within the ranges a configuration keeps them in, and a skew of
/// at most the whole stack height.
pub open spec fn valid_base(b: LeftPrimary) -> bool {
    &&& b.inner <= 1024
    &&& b.outer <= 1024
    &&& 10 <= b.ratio <= 90
    &&& 1 <= b.main <= 16
    &&& -100 <= b.dim <= 100
}

/// `r` lies inside the usable area.
pub open spec fn within(r: Rect, p: Params) -> bool {
    &&& 0 <= r.x
    &&& r.x + r.width <= p.usable_width
    &&& 0 <= r.y
    &&& r.y + r.height <= p.usable_height
}

/// `a` and `b` share no point.
pub open spec fn disjoint(a: Rect, b: Rect) -> bool {
    ||| a.x + a.width <= b.x
    ||| b.x + b.width <= a.x
    ||| a.y + a.height <= b.y
    ||| b.y + b.height <= a.y
}

/// The rank in the diminishing order of stack window `t` of `n`.
spec fn rank_of(b: LeftPrimary, t: int, n: int) -> int {
    if b.dim > 0 {
        n - t - 1
    } else {
        t
    }
}

/// The diminished extras of stack windows `0..m`, in window order.
spec fn extras(b: LeftPrimary, stolen: int, m: int, n: int) -> int
    decreases m,
{
    if m <= 0 {
        0
    } else {
        extras(b, stolen, m - 1, n) + diminished(stolen, rank_of(b, m - 1, n) as nat, n as nat)
    }
}

/// The heights of stack windows `0..m`.
spec fn heights(b: LeftPrimary, m: int, n: int, height: int) -> int
    decreases m,
{
    if m <= 0 {
        0
    } else {
        heights(b, m - 1, n, height) + b.stack_height(m - 1, n, height)->Some_0
    }
}

proof fn lemma_diminished_sum_monotonic(size: int, a: nat, c: nat, total: nat)
    requires
        size >= 0,
        a <= c <= total,
        total > 0,
    ensures
        diminished_sum(size, a, total) <= diminished_sum(size, c, total),
        0 <= diminished_sum(size, a, total),
    decreases c,
{
    lemma_diminish_sums_to_size(size, total);
    if c > 0 {
        assert(0 <= diminished(size, (c - 1) as nat, total));
        if a < c {
            lemma_diminished_sum_monotonic(size, a, (c - 1) as nat, total);
        } else if a > 0 {
            lemma_diminished_sum_monotonic(size, (a - 1) as nat, (c - 1) as nat, total);
        }
    }
}

/// Taken from the far end, the first `m` parts are what the other `n - m` leave.
proof fn lemma_extras_reversed(b: LeftPrimary, stolen: int, m: int, n: int)
    requires
        b.dim > 0,
        0 <= m <= n,
    ensures
        extras(b, stolen, m, n) == diminished_sum(stolen, n as nat, n as nat) - diminished_sum(
            stolen,
            (n - m) as nat,
            n as nat,
        ),
    decreases m,
{
    if m > 0 {
        lemma_extras_reversed(b, stolen, m - 1, n);
    }
}

proof fn lemma_extras_bounded(b: LeftPrimary, stolen: int, m: int, n: int)
    requires
        stolen >= 0,
        0 <= m <= n,
        n > 0,
    ensures
        0 <= extras(b, stolen, m, n) <= stolen,
{
    lemma_diminish_sums_to_size(stolen, n as nat);
    if b.dim > 0 {
        lemma_extras_reversed(b, stolen, m, n);
        lemma_diminished_sum_monotonic(stolen, (n - m) as nat, n as nat, n as nat);
    } else {
        lemma_extras_forward(b, stolen, m, n);
        lemma_diminished_sum_monotonic(stolen, m as nat, n as nat, n as nat);
    }
}

proof fn lemma_extras_forward(b: LeftPrimary, stolen: int, m: int, n: int)
    requires
        b.dim <= 0,
        0 <= m,
    ensures
        extras(b, stolen, m, n) == diminished_sum(stolen, m as nat, n as nat),
    decreases m,
{
    if m > 0 {
        lemma_extras_forward(b, stolen, m - 1, n);
    }
}

/// Where the stack can be laid out at all, every window of it has a height, the windows up
/// to `m` take no more than the height left after the gaps, and each window's offset is the
/// heights above it plus their gaps.
proof fn lemma_stack_heights(b: LeftPrimary, m: int, n: int, height: int)
    requires
        valid_base(b),
        0 <= m <= n,
        n > 0,
        b.gaps(n, height) >= 0,
    ensures
        forall|t: int|
            0 <= t < n ==> #[trigger] b.stack_height(t, n, height) is Some && b.stack_height(
                t,
                n,
                height,
            )->Some_0 >= 0,
        0 <= heights(b, m, n, height) <= b.gaps(n, height),
        b.stack_offset(m, n, height) == Some(heights(b, m, n, height) + 2 * b.inner * m),
    decreases m,
{
    let total = b.gaps(n, height);
    let stolen = total * b.skew() / 100;
    assert(0 <= stolen <= total) by (nonlinear_arith)
        requires
            total >= 0,
            0 <= b.skew() <= 100,
            stolen == total * b.skew() / 100,
    ;
    let base = (total - stolen) / n;
    let q = total / n;
    assert(0 <= base && n * base <= total - stolen && 0 <= q && n * q <= total) by (nonlinear_arith)
        requires
            n > 0,
            0 <= stolen <= total,
            base == (total - stolen) / n,
            q == total / n,
    ;
    lemma_diminish_sums_to_size(stolen, n as nat);
    assert forall|t: int| 0 <= t < n implies #[trigger] b.stack_height(t, n, height) is Some
        && b.stack_height(t, n, height)->Some_0 >= 0 by {
        if !(b.dim == 0 || n == 1) {
            let rank = rank_of(b, t, n);
            assert(0 <= diminished(stolen, rank as nat, n as nat));
        }
    }
    lemma_heights_split(b, m, n, height, base, q, stolen);
    if m > 0 {
        lemma_stack_heights(b, m - 1, n, height);
        assert(2 * b.inner * (m - 1) + 2 * b.inner == 2 * b.inner * m) by (nonlinear_arith);
    } else {
        assert(2 * b.inner * m == 0) by (nonlinear_arith)
            requires
                m == 0,
        ;
    }
}

proof fn lemma_heights_split(b: LeftPrimary, m: int, n: int, height: int, base: int, q: int, stolen: int)
    requires
        valid_base(b),
        0 <= m <= n,
        n > 0,
        b.gaps(n, height) >= 0,
        stolen == b.gaps(n, height) * b.skew() / 100,
        0 <= stolen <= b.gaps(n, height),
        base == (b.gaps(n, height) - stolen) / n,
        q == b.gaps(n, height) / n,
        0 <= base,
        n * base <= b.gaps(n, height) - stolen,
        0 <= q,
        n * q <= b.gaps(n, height),
    ensures
        (b.dim == 0 || n == 1) ==> heights(b, m, n, height) == m * q,
        !(b.dim == 0 || n == 1) ==> heights(b, m, n, height) == m * base + extras(b, stolen, m, n),
        0 <= heights(b, m, n, height) <= b.gaps(n, height),
    decreases m,
{
    if m > 0 {
        lemma_heights_split(b, m - 1, n, height, base, q, stolen);
        assert((m - 1) * q + q == m * q) by (nonlinear_arith);
        assert((m - 1) * base + base == m * base) by (nonlinear_arith);
    }
    lemma_extras_bounded(b, stolen, m, n);
    assert(0 <= m * q <= n * q && 0 <= m * base <= n * base) by (nonlinear_arith)
        requires
            0 <= m <= n,
            0 <= q,
            0 <= base,
    ;
}

proof fn lemma_heights_monotonic(b: LeftPrimary, a: int, c: int, n: int, height: int)
    requires
        0 <= a <= c <= n,
        forall|t: int|
            0 <= t < n ==> #[trigger] b.stack_height(t, n, height) is Some && b.stack_height(
                t,
                n,
                height,
            )->Some_0 >= 0,
    ensures
        heights(b, a, n, height) <= heights(b, c, n, height),
    decreases c - a,
{
    if a < c {
        lemma_heights_monotonic(b, a, c - 1, n, height);
        assert(b.stack_height(c - 1, n, height)->Some_0 >= 0);
    }
}

proof fn lemma_primary_within(b: LeftPrimary, p: Params, i: int)
    requires
        valid_base(b),
        0 <= i < p.view_count,
        i < b.main,
        b.primary_place(p, i) is Some,
    ensures
        within(b.primary_place(p, i)->Some_0, p),
{
    let k: int = if p.view_count < b.main {
        p.view_count as int
    } else {
        b.main as int
    };
    let total = b.gaps(k, p.usable_height as int);
    let h = total / k;
    let step = 2 * b.inner + h;
    assert(i * step + h <= total + 2 * b.inner * (k - 1)) by (nonlinear_arith)
        requires
            0 <= i < k,
            total >= 0,
            h == total / k,
            step == 2 * b.inner + h,
            b.inner >= 0,
    ;
    assert(2 * b.inner * k - 2 * b.inner == 2 * b.inner * (k - 1)) by (nonlinear_arith);
    assert(b.center(p.usable_width as int) <= p.usable_width) by (nonlinear_arith)
        requires
            0 <= b.ratio <= 100,
            p.usable_width >= 0,
    ;
}

proof fn lemma_stack_within(b: LeftPrimary, p: Params, i: int)
    requires
        valid_base(b),
        b.main <= i < p.view_count,
        b.stack_place(p, i) is Some,
    ensures
        within(b.stack_place(p, i)->Some_0, p),
{
    let n = p.view_count - b.main;
    let j = i - b.main;
    let height = p.usable_height as int;
    lemma_stack_heights(b, j, n, height);
    lemma_stack_heights(b, j + 1, n, height);
    assert(2 * b.inner * j <= 2 * b.inner * n - 2 * b.inner) by (nonlinear_arith)
        requires
            0 <= j < n,
            b.inner >= 0,
    ;
}

proof fn lemma_apart(b: LeftPrimary, p: Params, i: int, j: int)
    requires
        valid_base(b),
        0 <= i < j < p.view_count,
        i < b.main <==> j < b.main,
        locate(AnyTile::Base(b), p, i) is Some,
        locate(AnyTile::Base(b), p, j) is Some,
    ensures
        locate(AnyTile::Base(b), p, i)->Some_0.y + locate(AnyTile::Base(b), p, i)->Some_0.height
            <= locate(AnyTile::Base(b), p, j)->Some_0.y,
{
    if j < b.main {
        let k: int = if p.view_count < b.main {
            p.view_count as int
        } else {
            b.main as int
        };
        let total = b.gaps(k, p.usable_height as int);
        let h = total / k;
        let step = 2 * b.inner + h;
        assert(i * step + h <= j * step) by (nonlinear_arith)
            requires
                0 <= i < j,
                h >= 0,
                step == 2 * b.inner + h,
                b.inner >= 0,
        ;
    } else {
        let n = p.view_count - b.main;
        let a = i - b.main;
        let c = j - b.main;
        let height = p.usable_height as int;
        lemma_stack_heights(b, a, n, height);
        lemma_stack_heights(b, a + 1, n, height);
        lemma_stack_heights(b, c, n, height);
        lemma_heights_monotonic(b, a + 1, c, n, height);
        assert(2 * b.inner * a + 2 * b.inner <= 2 * b.inner * c) by (nonlinear_arith)
            requires
                0 <= a < c,
                b.inner >= 0,
        ;
    }
}

/// For valid parameters and at least one window, the base layout keeps every rectangle
/// inside the usable area, and no two windows of the same region overlap.
pub proof fn lemma_base_layout_sound(b: LeftPrimary, p: Params, i: int, j: int)
    requires
        valid_base(b),
        p.view_count >= 1,
        0 <= i < p.view_count,
        0 <= j < p.view_count,
    ensures
        locate(AnyTile::Base(b), p, i) is Some ==> within(locate(AnyTile::Base(b), p, i)->Some_0, p),
        i != j && (i < b.main <==> j < b.main) && locate(AnyTile::Base(b), p, i) is Some && locate(
            AnyTile::Base(b),
            p,
            j,
        ) is Some ==> disjoint(
            locate(AnyTile::Base(b), p, i)->Some_0,
            locate(AnyTile::Base(b), p, j)->Some_0,
        ),
{
    if locate(AnyTile::Base(b), p, i) is Some {
        if i < b.main {
            lemma_primary_within(b, p, i);
        } else {
            lemma_stack_within(b, p, i);
        }
    }
    if i != j && (i < b.main <==> j < b.main) && locate(AnyTile::Base(b), p, i) is Some && locate(
        AnyTile::Base(b),
        p,
        j,
    ) is Some {
        if i < j {
            lemma_apart(b, p, i, j);
        } else {
            lemma_apart(b, p, j, i);
        }
    }
}

/// The base layout turned so that the primary region sits on the side `o` names.
pub open spec fn turned(b: LeftPrimary, o: TileType) -> AnyTile {
    let base = AnyTile::Base(b);
    match o {
        TileType::Left => base,
        TileType::Top => AnyTile::Rotated(Rotated { wrapped: Box::new(base) }),
        TileType::Right => AnyTile::Flipped(Flipped { wrapped: Box::new(base) }),
        TileType::Bottom => AnyTile::Rotated(
            Rotated { wrapped: Box::new(AnyTile::Flipped(Flipped { wrapped: Box::new(base) })) },
        ),
    }
}

/// The region that window `i` belongs to under a main count of `main`.
pub open spec fn region_of(main: u32, i: int) -> Region {
    if i < main {
        Region::Primary
    } else {
        Region::Stack
    }
}

/// What the column layouts (left and right) share: every window lies inside the area, and
/// within a region a later window sits below an earlier one.
spec fn column_sound(t: AnyTile, main: u32, p: Params, i: int, j: int) -> bool {
    &&& place(t, p, region_of(main, i), i) matches Some(r) ==> within(r, p)
    &&& (i < j && region_of(main, i) == region_of(main, j) && place(t, p, region_of(main, i), i)
        is Some && place(t, p, region_of(main, j), j) is Some) ==> place(t, p, region_of(main, i), i)->Some_0.y
        + place(t, p, region_of(main, i), i)->Some_0.height <= place(t, p, region_of(main, j), j)->Some_0.y
}

proof fn lemma_base_column(b: LeftPrimary, p: Params, i: int, j: int)
    requires
        valid_base(b),
        0 <= i < p.view_count,
        0 <= j < p.view_count,
    ensures
        column_sound(AnyTile::Base(b), b.main, p, i, j),
{
    assert(main_of(AnyTile::Base(b)) == b.main);
    if place(AnyTile::Base(b), p, region_of(b.main, i), i) is Some {
        if i < b.main {
            lemma_primary_within(b, p, i);
        } else {
            lemma_stack_within(b, p, i);
        }
    }
    if i < j && region_of(b.main, i) == region_of(b.main, j) && place(AnyTile::Base(b), p, region_of(b.main, i), i)
        is Some && place(AnyTile::Base(b), p, region_of(b.main, j), j) is Some {
        lemma_apart(b, p, i, j);
    }
}

proof fn lemma_flipped_column(b: LeftPrimary, p: Params, i: int, j: int)
    requires
        valid_base(b),
        0 <= i < p.view_count,
        0 <= j < p.view_count,
    ensures
        column_sound(AnyTile::Flipped(Flipped { wrapped: Box::new(AnyTile::Base(b)) }), b.main, p, i, j),
{
    let base = AnyTile::Base(b);
    lemma_base_column(b, p, i, j);
    lemma_base_column(b, p, 0, i);
    if i < b.main {
        if place(base, p, Region::Primary, i) is Some {
            lemma_primary_within(b, p, i);
        }
    } else if place(base, p, Region::Stack, i) is Some && place(base, p, Region::Primary, 0) is Some {
        lemma_stack_within(b, p, i);
        assert(place(base, p, Region::Primary, 0)->Some_0.x == b.outer + b.inner);
        assert(place(base, p, Region::Stack, i)->Some_0.width == b.stack_width(p));
        assert(b.center(p.usable_width as int) >= 0) by (nonlinear_arith)
            requires
                b.ratio >= 0,
                p.usable_width >= 0,
        ;
    }
}

/// Turned on its side, a column layout keeps every window inside the area (with width and
/// height exchanged) and lays a region's windows out from left to right.
proof fn lemma_rotated_column(t: AnyTile, main: u32, p: Params, i: int, j: int)
    requires
        column_sound(t, main, swapped(p), i, j),
    ensures
        place(AnyTile::Rotated(Rotated { wrapped: Box::new(t) }), p, region_of(main, i), i) matches Some(r)
            ==> within(r, p),
        (i < j && region_of(main, i) == region_of(main, j) && place(
            AnyTile::Rotated(Rotated { wrapped: Box::new(t) }),
            p,
            region_of(main, i),
            i,
        ) is Some && place(AnyTile::Rotated(Rotated { wrapped: Box::new(t) }), p, region_of(main, j), j)
            is Some) ==> disjoint(
            place(AnyTile::Rotated(Rotated { wrapped: Box::new(t) }), p, region_of(main, i), i)->Some_0,
            place(AnyTile::Rotated(Rotated { wrapped: Box::new(t) }), p, region_of(main, j), j)->Some_0,
        ),
{
}

/// For valid parameters and at least one window, the base layout in each of the four
/// orientations keeps every rectangle inside the usable area, and no two windows of the same
/// region overlap.
pub proof fn lemma_turned_layout_sound(b: LeftPrimary, o: TileType, p: Params, i: int, j: int)
    requires
        valid_base(b),
        p.view_count >= 1,
        0 <= i < p.view_count,
        0 <= j < p.view_count,
    ensures
        locate(turned(b, o), p, i) is Some ==> within(locate(turned(b, o), p, i)->Some_0, p),
        i != j && (i < b.main <==> j < b.main) && locate(turned(b, o), p, i) is Some && locate(
            turned(b, o),
            p,
            j,
        ) is Some ==> disjoint(locate(turned(b, o), p, i)->Some_0, locate(turned(b, o), p, j)->Some_0),
{
    let t = turned(b, o);
    let base = AnyTile::Base(b);
    let flipped = AnyTile::Flipped(Flipped { wrapped: Box::new(base) });
    assert(main_of(base) == b.main);
    assert(main_of(flipped) == b.main);
    assert(main_of(t) == b.main);
    let q = swapped(p);
    match o {
        TileType::Left => {
            lemma_base_column(b, p, i, j);
            lemma_base_column(b, p, j, i);
        },
        TileType::Right => {
            lemma_flipped_column(b, p, i, j);
            lemma_flipped_column(b, p, j, i);
        },
        TileType::Top => {
            lemma_base_column(b, q, i, j);
            lemma_base_column(b, q, j, i);
            lemma_rotated_column(base, b.main, p, i, j);
            lemma_rotated_column(base, b.main, p, j, i);
        },
        TileType::Bottom => {
            lemma_flipped_column(b, q, i, j);
            lemma_flipped_column(b, q, j, i);
            lemma_rotated_column(flipped, b.main, p, i, j);
            lemma_rotated_column(flipped, b.main, p, j, i);
        },
    }
}

proof fn lemma_share_step(size: int, i: nat, n: nat)
    requires
        size >= 0,
        i + 2 < n,
    ensures
        share(size, i, n) <= share(size, i + 1, n),
{
    lemma_pow4_positive(i);
    lemma_pow4_monotonic(1, n);
    assert(pow4(1) == 4) by {
        reveal_with_fuel(pow4, 2);
    }
    assert(pow4(i + 1) == 4 * pow4(i));
    let e = pow4(n) - 1;
    let a = 6 * size * pow4(i) + e;
    let c = 6 * size * pow4(i + 1) + e;
    assert(a <= c) by (nonlinear_arith)
        requires
            size >= 0,
            pow4(i) >= 1,
            pow4(i + 1) == 4 * pow4(i),
            a == 6 * size * pow4(i) + e,
            c == 6 * size * pow4(i + 1) + e,
    ;
    assert(a / (2 * e) <= c / (2 * e)) by (nonlinear_arith)
        requires
            a <= c,
            e >= 3,
    ;
}

/// The last part is at least as large as the one before it.
proof fn lemma_last_share(size: int, n: nat)
    requires
        size >= 0,
        n >= 2,
    ensures
        share(size, (n - 2) as nat, n) <= diminished(size, (n - 1) as nat, n),
{
    let k = (n - 2) as nat;
    lemma_shares_before_scaled(size, (n - 1) as nat, n);
    lemma_share_scaled(size, k, n);
    lemma_pow4_positive(k);
    assert(pow4((n - 1) as nat) == 4 * pow4(k));
    assert(pow4(n) == 4 * pow4((n - 1) as nat));
    let p = pow4(k) as int;
    let e = pow4(n) - 1;
    let before = shares_before(size, (n - 1) as nat, n);
    let s = share(size, k, n);
    assert(s <= size - before) by (nonlinear_arith)
        requires
            p >= 1,
            e == 16 * p - 1,
            size >= 0,
            before * e <= 2 * size * (4 * p - 1),
            s * e <= 6 * size * p,
    ;
}

proof fn lemma_diminished_monotonic(size: int, a: nat, c: nat, n: nat)
    requires
        size >= 0,
        a <= c < n,
    ensures
        diminished(size, a, n) <= diminished(size, c, n),
    decreases c - a,
{
    if a < c {
        lemma_diminished_monotonic(size, a, (c - 1) as nat, n);
        if c + 1 < n {
            lemma_share_step(size, (c - 1) as nat, n);
        } else {
            lemma_last_share(size, n);
        }
    }
}

/// A positive skew makes the stack windows no taller from the top down, a negative one no
/// shorter.
pub proof fn lemma_skew_orders_heights(b: LeftPrimary, j: int, k: int, n: int, height: int)
    requires
        0 <= j < k < n,
        b.stack_height(j, n, height) is Some,
        b.stack_height(k, n, height) is Some,
    ensures
        b.dim > 0 ==> b.stack_height(j, n, height)->Some_0 >= b.stack_height(k, n, height)->Some_0,
        b.dim < 0 ==> b.stack_height(j, n, height)->Some_0 <= b.stack_height(k, n, height)->Some_0,
{
    if b.dim != 0 && n != 1 {
        let total = b.gaps(n, height);
        let stolen = total * b.skew() / 100;
        assert(stolen >= 0) by (nonlinear_arith)
            requires
                total >= 0,
                b.skew() >= 0,
                stolen == total * b.skew() / 100,
        ;
        if b.dim > 0 {
            lemma_diminished_monotonic(stolen, (n - k - 1) as nat, (n - j - 1) as nat, n as nat);
        } else {
            lemma_diminished_monotonic(stolen, j as nat, k as nat, n as nat);
        }
    }
}

} // verus!
