use crate::random::draw_gene;
use rand::rngs::StdRng;
use vstd::arithmetic::div_mod::*;
use vstd::prelude::*;

verus! {

/// Number of genes in a freshly built chromosome.
pub const GENE_COUNT: usize = 60;

/// Fitness given where no prediction can be formed (a gene vector whose
/// weights sum to zero, or an empty dataset): the worst value there is.
pub const WORST_FITNESS: u64 = 0xffff_ffff_ffff_ffff;

/// Largest square of a difference of two `i32` values: `(2^32 - 1)^2`.
pub const MAX_SQUARE: u128 = 0xffff_fffe_0000_0001;

pub open spec fn square(v: int) -> int {
    v * v
}

/// Sum of `(p[j] - a[j])^2` over the first `n` positions.
pub open spec fn sum_sq_diff(a: Seq<int>, p: Seq<int>, n: nat) -> int
    decreases n,
{
    if n == 0 {
        0
    } else {
        sum_sq_diff(a, p, (n - 1) as nat) + square(p[n - 1] - a[n - 1])
    }
}

/// `r` is the integer square root of `x`.
pub open spec fn is_root(x: int, r: int) -> bool {
    0 <= r && r * r <= x && x < (r + 1) * (r + 1)
}

/// Integer square root: the largest `r` with `r * r <= x` (0 for `x <= 0`).
pub open spec fn root(x: int) -> int
    decreases x,
{
    if x <= 0 {
        0
    } else {
        let r = root(x - 1);
        if (r + 1) * (r + 1) <= x {
            r + 1
        } else {
            r
        }
    }
}

/// Root-mean-square error between `a` and `p`, rounded down: the integer
/// square root of the (rounded down) mean of the squared differences, which
/// is the floor of the exact root.  Zero for empty sequences.
pub open spec fn rmse_of(a: Seq<int>, p: Seq<int>) -> int {
    if a.len() == 0 {
        0
    } else {
        root(sum_sq_diff(a, p, a.len()) / (a.len() as int))
    }
}

/// The samples of `s` as mathematical integers.
pub open spec fn ints(s: Seq<i32>) -> Seq<int> {
    s.map_values(|v: i32| v as int)
}

pub proof fn lemma_root(x: int)
    requires
        x >= 0,
    ensures
        is_root(x, root(x)),
    decreases x,
{
    if x > 0 {
        lemma_root(x - 1);
        let r = root(x - 1);
        if (r + 1) * (r + 1) <= x {
            assert(x < (r + 2) * (r + 2)) by (nonlinear_arith)
                requires
                    x - 1 < (r + 1) * (r + 1),
                    r >= 0,
            ;
        }
    }
}

pub proof fn lemma_root_unique(x: int, r1: int, r2: int)
    requires
        is_root(x, r1),
        is_root(x, r2),
    ensures
        r1 == r2,
{
    if r1 < r2 {
        assert((r1 + 1) * (r1 + 1) <= r2 * r2) by (nonlinear_arith)
            requires
                0 <= r1 + 1 <= r2,
        ;
    } else if r2 < r1 {
        assert((r2 + 1) * (r2 + 1) <= r1 * r1) by (nonlinear_arith)
            requires
                0 <= r2 + 1 <= r1,
        ;
    }
}

/// Integer square root of a 64-bit value, by bisection.
fn isqrt(x: u64) -> (r: u64)
    ensures
        r as int == root(x as int),
{
    let mut lo: u64 = 0;
    let mut hi: u64 = 0x1_0000_0000;
    assert(x < hi * hi);
    while lo + 1 < hi
        invariant
            lo < hi <= 0x1_0000_0000,
            lo * lo <= x,
            x < hi * hi,
        decreases hi - lo,
    {
        let mid: u64 = lo + (hi - lo) / 2;
        assert(mid * mid <= 0x1_0000_0000 * 0x1_0000_0000) by (nonlinear_arith)
            requires
                0 <= mid <= 0x1_0000_0000,
        ;
        if (mid as u128) * (mid as u128) <= x as u128 {
            lo = mid;
        } else {
            hi = mid;
        }
    }
    proof {
        lemma_root(x as int);
        lemma_root_unique(x as int, lo as int, root(x as int));
    }
    lo
}

/// Root-mean-square error between the true values `actual` and the
/// predicted values `predictor`, in their common unit, rounded down.
pub fn rmse(actual: &Vec<i32>, predictor: &Vec<i32>) -> (r: u64)
    requires
        actual.len() == predictor.len(),
    ensures
        r as int == rmse_of(ints(actual@), ints(predictor@)),
{
    let n = actual.len();
    if n == 0 {
        return 0;
    }
    let ghost a = ints(actual@);
    let ghost p = ints(predictor@);
    let mut sum: u128 = 0;
    let mut i: usize = 0;
    while i < n
        invariant
            i <= n,
            n == actual.len(),
            n == predictor.len(),
            a == ints(actual@),
            p == ints(predictor@),
            sum as int == sum_sq_diff(a, p, i as nat),
            sum <= i * MAX_SQUARE,
        decreases n - i,
    {
        let d: i64 = predictor[i] as i64 - actual[i] as i64;
        let m: u64 = if d < 0 {
            (-d) as u64
        } else {
            d as u64
        };
        assert(m * m <= MAX_SQUARE) by (nonlinear_arith)
            requires
                0 <= m <= 0xffff_ffff,
        ;
        assert(p[i as int] - a[i as int] == d);
        assert(square(d as int) == m * m) by (nonlinear_arith)
            requires
                m == d || m == -d,
        ;
        assert(i * MAX_SQUARE + MAX_SQUARE <= 0xffff_ffff_ffff_ffff * MAX_SQUARE + MAX_SQUARE);
        sum = sum + (m as u128) * (m as u128);
        i = i + 1;
    }
    proof {
        lemma_div_is_ordered(sum as int, n * MAX_SQUARE, n as int);
        lemma_div_by_multiple(MAX_SQUARE as int, n as int);
    }
    let mean: u128 = sum / (n as u128);
    isqrt(mean as u64)
}


/// Sum of the first `k` genes.
pub open spec fn gene_total(genes: Seq<u32>, k: nat) -> int
    decreases k,
{
    if k == 0 {
        0
    } else {
        gene_total(genes, (k - 1) as nat) + genes[k - 1] as int
    }
}

/// `sum_{j < k} genes[j] * data[start + j]`: the weighted sum of a window.
pub open spec fn weighted(genes: Seq<u32>, data: Seq<i32>, start: int, k: nat) -> int
    decreases k,
{
    if k == 0 {
        0
    } else {
        weighted(genes, data, start, (k - 1) as nat) + genes[k - 1] as int * data[start + k
            - 1] as int
    }
}

/// The value predicted after the window of `data` that starts at `i`: the
/// window's weighted sum normalised by the sum of the genes, rounded down.
pub open spec fn prediction_at(genes: Seq<u32>, data: Seq<i32>, i: int) -> int {
    weighted(genes, data, i, genes.len()) / gene_total(genes, genes.len())
}

/// One prediction for each window of `genes.len()` samples that has a
/// sample after it; prediction `i` is aligned with `data[i + genes.len()]`.
pub open spec fn predictions_of(genes: Seq<u32>, data: Seq<i32>) -> Seq<int> {
    Seq::new((data.len() - genes.len()) as nat, |i: int| prediction_at(genes, data, i))
}

/// Fitness of a gene vector on one series: the RMSE between the predictions
/// and the samples they predict; the worst fitness where the genes sum to zero.
pub open spec fn sample_fitness(genes: Seq<u32>, data: Seq<i32>) -> int {
    if gene_total(genes, genes.len()) == 0 {
        WORST_FITNESS as int
    } else {
        rmse_of(ints(data).skip(genes.len() as int), predictions_of(genes, data))
    }
}

/// Sum of the fitness of `genes` over the first `n` series of `data`.
pub open spec fn fitness_total(genes: Seq<u32>, data: Seq<Vec<i32>>, n: nat) -> int
    decreases n,
{
    if n == 0 {
        0
    } else {
        fitness_total(genes, data, (n - 1) as nat) + sample_fitness(genes, data[n - 1]@)
    }
}

/// Fitness of `genes` on a dataset: the mean of its fitness on each series,
/// rounded down; the worst fitness on an empty dataset.
pub open spec fn dataset_fitness(genes: Seq<u32>, data: Seq<Vec<i32>>) -> int {
    if data.len() == 0 {
        WORST_FITNESS as int
    } else {
        fitness_total(genes, data, data.len()) / (data.len() as int)
    }
}

/// Every series of `data` is longer than `gene_len`, so that at least one
/// prediction can be formed on each.
pub open spec fn series_fit(data: Seq<Vec<i32>>, gene_len: nat) -> bool {
    forall|k: int| 0 <= k < data.len() ==> #[trigger] data[k].len() > gene_len
}

/// A candidate predictor: its weights and its last computed fitness (lower
/// is better).
#[derive(Clone, Debug)]
pub struct Chromosome {
    pub genes: Vec<u32>,
    pub fitness: u64,
}

/// Floor division of `p` by a positive `s`.
fn floor_div(p: i128, s: u128) -> (q: i128)
    requires
        s > 0,
        s < 0x1_0000_0000_0000_0000_0000_0000_0000,
        p > -0x8000_0000_0000_0000_0000_0000_0000_0000,
    ensures
        q as int == p as int / s as int,
{
    if p >= 0 {
        let q: u128 = (p as u128) / s;
        q as i128
    } else {
        let n: u128 = (-p) as u128;
        let c: u128 = (n + s - 1) / s;
        proof {
            let pi = p as int;
            let si = s as int;
            lemma_fundamental_div_mod(pi, si);
            lemma_mod_bound(pi, si);
            let qq = pi / si;
            let rr = pi % si;
            assert(n + s - 1 == (-qq) * si + (si - 1 - rr)) by (nonlinear_arith)
                requires
                    pi == si * qq + rr,
                    n == -pi,
                    si == s,
            ;
            assert(-qq <= -pi) by (nonlinear_arith)
                requires
                    pi == si * qq + rr,
                    0 <= rr < si,
                    pi < 0,
                    si >= 1,
            ;
            lemma_fundamental_div_mod_converse(n + s - 1, si, -qq, si - 1 - rr);
        }
        -(c as i128)
    }
}

proof fn lemma_window_bounds(lo: int, hi: int, w: int, s: int, q: int)
    requires
        s > 0,
        s * lo <= w <= s * hi,
        q == w / s,
    ensures
        lo <= q <= hi,
{
    lemma_div_is_ordered(s * lo, w, s);
    lemma_div_is_ordered(w, s * hi, s);
    assert(s * lo == lo * s && s * hi == hi * s) by (nonlinear_arith);
    lemma_fundamental_div_mod_converse(s * lo, s, lo, 0);
    lemma_fundamental_div_mod_converse(s * hi, s, hi, 0);
}

impl Chromosome {
    /// A chromosome of `GENE_COUNT` uniformly drawn genes, fitness 0.
    pub fn new(rng: &mut StdRng) -> (c: Chromosome)
        ensures
            c.genes.len() == GENE_COUNT,
            c.fitness == 0,
    {
        let mut genes: Vec<u32> = Vec::with_capacity(GENE_COUNT);
        let mut i: usize = 0;
        while i < GENE_COUNT
            invariant
                i <= GENE_COUNT,
                genes.len() == i,
            decreases GENE_COUNT - i,
        {
            genes.push(draw_gene(rng));
            i = i + 1;
        }
        Chromosome { genes, fitness: 0 }
    }

    /// Sum of the genes.
    pub fn gene_sum(&self) -> (r: u128)
        ensures
            r as int == gene_total(self.genes@, self.genes.len() as nat),
            r <= self.genes.len() * 0xffff_ffff,
    {
        let mut s: u128 = 0;
        let mut k: usize = 0;
        while k < self.genes.len()
            invariant
                k <= self.genes.len(),
                s as int == gene_total(self.genes@, k as nat),
                s <= k * 0xffff_ffff,
            decreases self.genes.len() - k,
        {
            s = s + self.genes[k] as u128;
            k = k + 1;
        }
        s
    }

    /// The predicted values over `data`: for each window of `genes.len()`
    /// samples that has a sample after it, the window's average weighted by
    /// the genes, rounded down.
    pub fn predictions(&self, data: &Vec<i32>) -> (r: Vec<i32>)
        requires
            data.len() > self.genes.len(),
            gene_total(self.genes@, self.genes.len() as nat) > 0,
        ensures
            r.len() == data.len() - self.genes.len(),
            ints(r@) == predictions_of(self.genes@, data@),
    {
        let len = self.genes.len();
        let total = self.gene_sum();
        let count = data.len() - len;
        let mut r: Vec<i32> = Vec::with_capacity(count);
        let mut i: usize = 0;
        while i < count
            invariant
                i <= count,
                count == data.len() - len,
                len == self.genes.len(),
                total as int == gene_total(self.genes@, len as nat),
                total > 0,
                total <= len * 0xffff_ffff,
                r.len() == i,
                forall|j: int|
                    0 <= j < i ==> r[j] as int == prediction_at(self.genes@, data@, j),
            decreases count - i,
        {
            let mut w: i128 = 0;
            let mut k: usize = 0;
            while k < len
                invariant
                    k <= len,
                    len == self.genes.len(),
                    i < count,
                    count == data.len() - len,
                    w as int == weighted(self.genes@, data@, i as int, k as nat),
                    -0x8000_0000 * gene_total(self.genes@, k as nat) <= w,
                    w <= 0x7fff_ffff * gene_total(self.genes@, k as nat),
                    0 <= gene_total(self.genes@, k as nat) <= k * 0xffff_ffff,
                decreases len - k,
            {
                let g: u32 = self.genes[k];
                let x: i32 = data[i + k];
                assert(-0x8000_0000 * g <= g * x <= 0x7fff_ffff * g) by (nonlinear_arith)
                    requires
                        0 <= g,
                        -0x8000_0000 <= x <= 0x7fff_ffff,
                ;
                w = w + (g as i128) * (x as i128);
                k = k + 1;
            }
            let q = floor_div(w, total);
            proof {
                lemma_window_bounds(-0x8000_0000, 0x7fff_ffff, w as int, total as int, q as int);
            }
            r.push(q as i32);
            i = i + 1;
        }
        assert(ints(r@) =~= predictions_of(self.genes@, data@));
        r
    }

    /// Fitness of this chromosome on one series: the RMSE between its
    /// predictions and the samples that follow each window, or the worst
    /// fitness where its genes sum to zero.
    pub fn calculate_sample_fitness(&self, data: &Vec<i32>) -> (r: u64)
        requires
            data.len() > self.genes.len(),
        ensures
            r as int == sample_fitness(self.genes@, data@),
    {
        let total = self.gene_sum();
        if total == 0 {
            return WORST_FITNESS;
        }
        let predicted = self.predictions(data);
        let mut actual: Vec<i32> = Vec::with_capacity(predicted.len());
        let mut j: usize = self.genes.len();
        while j < data.len()
            invariant
                self.genes.len() <= j <= data.len(),
                actual@ == data@.subrange(self.genes.len() as int, j as int),
            decreases data.len() - j,
        {
            actual.push(data[j]);
            j = j + 1;
        }
        assert(ints(actual@) =~= ints(data@).skip(self.genes.len() as int));
        rmse(&actual, &predicted)
    }

    /// Fitness of this chromosome on a whole dataset: the mean over its
    /// series of the fitness on each, rounded down.
    pub fn calculate_dataset_fitness(&self, data: &Vec<Vec<i32>>) -> (r: u64)
        requires
            series_fit(data@, self.genes.len() as nat),
        ensures
            r as int == dataset_fitness(self.genes@, data@),
    {
        let n = data.len();
        if n == 0 {
            return WORST_FITNESS;
        }
        let mut sum: u128 = 0;
        let mut k: usize = 0;
        while k < n
            invariant
                k <= n,
                n == data.len(),
                series_fit(data@, self.genes.len() as nat),
                sum as int == fitness_total(self.genes@, data@, k as nat),
                sum <= k * 0xffff_ffff_ffff_ffff,
            decreases n - k,
        {
            assert(data@[k as int].len() > self.genes.len());
            let f = self.calculate_sample_fitness(&data[k]);
            assert(k * 0xffff_ffff_ffff_ffff + 0xffff_ffff_ffff_ffff
                <= 0xffff_ffff_ffff_ffff * 0xffff_ffff_ffff_ffff + 0xffff_ffff_ffff_ffff);
            sum = sum + f as u128;
            k = k + 1;
        }
        proof {
            lemma_div_is_ordered(sum as int, n * 0xffff_ffff_ffff_ffff, n as int);
            lemma_div_by_multiple(0xffff_ffff_ffff_ffff, n as int);
        }
        (sum / (n as u128)) as u64
    }
}

/// Absolute value.
pub open spec fn abs(a: int) -> int {
    if a >= 0 {
        a
    } else {
        -a
    }
}

/// Sum of `data[start + j]` for `j < k`.
pub open spec fn window_sum(data: Seq<i32>, start: int, k: nat) -> int
    decreases k,
{
    if k == 0 {
        0
    } else {
        window_sum(data, start, (k - 1) as nat) + data[start + k - 1] as int
    }
}

proof fn lemma_sum_sq_zero(x: Seq<int>, k: nat)
    ensures
        sum_sq_diff(x, x, k) == 0,
    decreases k,
{
    if k > 0 {
        lemma_sum_sq_zero(x, (k - 1) as nat);
    }
}

/// The RMSE of a sequence against itself is zero.
pub proof fn lemma_rmse_identical(x: Seq<int>)
    ensures
        rmse_of(x, x) == 0,
{
    if x.len() > 0 {
        lemma_sum_sq_zero(x, x.len());
        assert(root(0) == 0);
    }
}

proof fn lemma_sum_sq_scaled(x: Seq<int>, y: Seq<int>, u: Seq<int>, v: Seq<int>, a: int, c: int, k: nat)
    requires
        k <= x.len(),
        x.len() == y.len(),
        u.len() == x.len(),
        v.len() == x.len(),
        forall|i: int| 0 <= i < x.len() ==> #[trigger] u[i] == a * x[i] + c,
        forall|i: int| 0 <= i < x.len() ==> #[trigger] v[i] == a * y[i] + c,
    ensures
        sum_sq_diff(u, v, k) == a * a * sum_sq_diff(x, y, k),
        sum_sq_diff(x, y, k) >= 0,
    decreases k,
{
    if k > 0 {
        let j = k - 1;
        lemma_sum_sq_scaled(x, y, u, v, a, c, j as nat);
        let d = y[j] - x[j];
        assert(v[j] - u[j] == a * d) by (nonlinear_arith)
            requires
                u[j] == a * x[j] + c,
                v[j] == a * y[j] + c,
                d == y[j] - x[j],
        ;
        assert(square(a * d) == a * a * square(d)) by (nonlinear_arith);
        assert(square(d) >= 0) by (nonlinear_arith);
        assert(a * a * sum_sq_diff(x, y, j as nat) + a * a * square(d) == a * a * (sum_sq_diff(
            x,
            y,
            j as nat,
        ) + square(d))) by (nonlinear_arith);
    }
}

proof fn lemma_below_floor(q: int, x: int, n: int)
    requires
        n > 0,
        q * n <= x,
    ensures
        q <= x / n,
{
    lemma_fundamental_div_mod(x, n);
    lemma_mod_bound(x, n);
    let f = x / n;
    if q > f {
        assert(q * n >= f * n + n) by (nonlinear_arith)
            requires
                q >= f + 1,
                n > 0,
        ;
        assert(n * f == f * n) by (nonlinear_arith);
    }
}

proof fn lemma_square_order(p: int, q: int)
    requires
        0 <= p,
        0 <= q,
        p * p < q * q,
    ensures
        p < q,
{
    if p >= q {
        assert(p * p >= q * q) by (nonlinear_arith)
            requires
                p >= q,
                q >= 0,
        ;
    }
}

/// Moving both sequences by the same affine map `v -> a * v + c` scales
/// their RMSE by `|a|`, up to the rounding down of the root: the result lies
/// between `|a| * r` and `|a| * (r + 1)` (below it where `a` is not zero),
/// where `r` is the RMSE of the unmapped sequences.
pub proof fn lemma_rmse_affine(x: Seq<int>, y: Seq<int>, u: Seq<int>, v: Seq<int>, a: int, c: int)
    requires
        x.len() == y.len(),
        u.len() == x.len(),
        v.len() == x.len(),
        forall|i: int| 0 <= i < x.len() ==> #[trigger] u[i] == a * x[i] + c,
        forall|i: int| 0 <= i < x.len() ==> #[trigger] v[i] == a * y[i] + c,
    ensures
        rmse_of(x, y) >= 0,
        abs(a) * rmse_of(x, y) <= rmse_of(u, v),
        rmse_of(u, v) <= abs(a) * (rmse_of(x, y) + 1),
        a != 0 ==> rmse_of(u, v) < abs(a) * (rmse_of(x, y) + 1),
{
    let n = x.len() as int;
    if n == 0 {
        return;
    }
    lemma_sum_sq_scaled(x, y, u, v, a, c, x.len());
    let ss = sum_sq_diff(x, y, x.len());
    let ss2 = sum_sq_diff(u, v, u.len());
    let m = ss / n;
    let m2 = ss2 / n;
    let r = rmse_of(x, y);
    let r2 = rmse_of(u, v);
    let b = abs(a);
    assert(b >= 0 && b * b == a * a) by (nonlinear_arith)
        requires
            b == abs(a),
    ;
    lemma_div_pos_is_pos(ss, n);
    assert(a * a * ss >= 0) by (nonlinear_arith)
        requires
            ss >= 0,
    ;
    lemma_div_pos_is_pos(a * a * ss, n);
    lemma_root(m);
    lemma_root(m2);
    lemma_fundamental_div_mod(ss, n);
    lemma_mod_bound(ss, n);
    lemma_fundamental_div_mod(a * a * ss, n);
    lemma_mod_bound(a * a * ss, n);
    assert(m * n <= ss) by (nonlinear_arith)
        requires
            ss == n * m + ss % n,
            ss % n >= 0,
    ;
    assert((b * r) * (b * r) * n <= a * a * ss) by (nonlinear_arith)
        requires
            b * b == a * a,
            r * r <= m,
            m * n <= ss,
            n > 0,
            r >= 0,
    ;
    lemma_below_floor((b * r) * (b * r), a * a * ss, n);
    assert(b * r >= 0) by (nonlinear_arith)
        requires
            b >= 0,
            r >= 0,
    ;
    lemma_square_order(b * r, r2 + 1);
    // upper bound
    if a != 0 {
        assert(ss < n * ((r + 1) * (r + 1))) by (nonlinear_arith)
            requires
                ss == n * m + ss % n,
                ss % n < n,
                m < (r + 1) * (r + 1),
        ;
        assert(m2 * n < n * (a * a * ((r + 1) * (r + 1)))) by (nonlinear_arith)
            requires
                a * a * ss == n * m2 + (a * a * ss) % n,
                (a * a * ss) % n >= 0,
                ss < n * ((r + 1) * (r + 1)),
                a != 0,
        ;
        assert(m2 < (b * (r + 1)) * (b * (r + 1))) by (nonlinear_arith)
            requires
                m2 * n < n * (a * a * ((r + 1) * (r + 1))),
                b * b == a * a,
                n > 0,
        ;
        assert(b * (r + 1) >= 0) by (nonlinear_arith)
            requires
                b >= 0,
                r >= 0,
        ;
        lemma_square_order(r2, b * (r + 1));
    } else {
        assert(a * a * ss == 0) by (nonlinear_arith)
            requires
                a == 0,
        ;
        assert(m2 == 0);
    }
}

proof fn lemma_equal_genes_sums(genes: Seq<u32>, data: Seq<i32>, start: int, g: int, k: nat)
    requires
        k <= genes.len(),
        forall|j: int| 0 <= j < genes.len() ==> #[trigger] genes[j] as int == g,
    ensures
        weighted(genes, data, start, k) == g * window_sum(data, start, k),
        gene_total(genes, k) == g * k,
    decreases k,
{
    if k > 0 {
        lemma_equal_genes_sums(genes, data, start, g, (k - 1) as nat);
        let x = data[start + k - 1] as int;
        assert(g * window_sum(data, start, (k - 1) as nat) + g * x == g * (window_sum(
            data,
            start,
            (k - 1) as nat,
        ) + x)) by (nonlinear_arith);
        assert(g * (k - 1) + g == g * k) by (nonlinear_arith);
    }
}

/// With all genes equal and positive, each prediction is the mean of its
/// window (rounded down): the weights cancel out of the average.
pub proof fn lemma_equal_genes_predict_mean(genes: Seq<u32>, data: Seq<i32>, i: int)
    requires
        genes.len() > 0,
        genes[0] > 0,
        forall|j: int| 0 <= j < genes.len() ==> #[trigger] genes[j] == genes[0],
    ensures
        prediction_at(genes, data, i) == window_sum(data, i, genes.len()) / (genes.len() as int),
{
    let g = genes[0] as int;
    let l = genes.len() as int;
    lemma_equal_genes_sums(genes, data, i, g, genes.len());
    let w = window_sum(data, i, genes.len());
    lemma_fundamental_div_mod(w, l);
    lemma_mod_bound(w, l);
    let q = w / l;
    let r = w % l;
    assert(g * w == q * (g * l) + g * r && 0 <= g * r < g * l) by (nonlinear_arith)
        requires
            w == l * q + r,
            0 <= r < l,
            g > 0,
    ;
    lemma_fundamental_div_mod_converse(g * w, g * l, q, g * r);
}

proof fn lemma_arithmetic_window(data: Seq<i32>, s0: int, d: int, i: int, k: nat)
    requires
        0 <= i,
        i + k <= data.len(),
        forall|j: int| 0 <= j < data.len() ==> #[trigger] data[j] as int == s0 + d * j,
    ensures
        2 * window_sum(data, i, k) == 2 * k * (s0 + d * i) + d * k * (k - 1),
    decreases k,
{
    if k > 0 {
        lemma_arithmetic_window(data, s0, d, i, (k - 1) as nat);
        let w = window_sum(data, i, (k - 1) as nat);
        assert(data[i + k - 1] as int == s0 + d * (i + k - 1));
        let kk = k as int;
        assert(2 * (w + (s0 + d * (i + kk - 1))) == 2 * kk * (s0 + d * i) + d * kk * (kk - 1))
            by (nonlinear_arith)
            requires
                2 * w == 2 * (kk - 1) * (s0 + d * i) + d * (kk - 1) * (kk - 2),
        ;
    } else {
        assert(2 * 0 * (s0 + d * i) + d * 0 * (0 - 1) == 0) by (nonlinear_arith);
    }
}

proof fn lemma_arithmetic_sum_sq(a: Seq<int>, p: Seq<int>, e: int, m: nat)
    requires
        m <= a.len(),
        m <= p.len(),
        forall|i: int| 0 <= i < m ==> #[trigger] p[i] - a[i] == -e,
    ensures
        sum_sq_diff(a, p, m) == m * (e * e),
    decreases m,
{
    if m > 0 {
        lemma_arithmetic_sum_sq(a, p, e, (m - 1) as nat);
        assert(p[m - 1] - a[m - 1] == -e);
        assert(square(-e) == e * e) by (nonlinear_arith);
        assert((m - 1) * (e * e) + e * e == m * (e * e)) by (nonlinear_arith);
    } else {
        assert(0 * (e * e) == 0) by (nonlinear_arith);
    }
}

/// With all genes equal and positive, on a strictly increasing arithmetic
/// series `data[j] == s0 + d * j`, every prediction is its window mean
/// (rounded down), so every prediction misses the next sample by the same
/// amount, `d * L - (d * (L - 1)) / 2` for `L` genes (that is `d * (L + 1) / 2`
/// rounded up), and that amount is the fitness.
pub proof fn lemma_equal_genes_fitness_on_arithmetic(
    genes: Seq<u32>,
    data: Seq<i32>,
    s0: int,
    d: int,
)
    requires
        genes.len() > 0,
        genes[0] > 0,
        forall|j: int| 0 <= j < genes.len() ==> #[trigger] genes[j] == genes[0],
        data.len() > genes.len(),
        d > 0,
        forall|j: int| 0 <= j < data.len() ==> #[trigger] data[j] as int == s0 + d * j,
    ensures
        sample_fitness(genes, data) == d * genes.len() - (d * (genes.len() - 1)) / 2,
{
    let l = genes.len() as int;
    let g = genes[0] as int;
    let h = (d * (l - 1)) / 2;
    let e = d * l - h;
    lemma_equal_genes_sums(genes, data, 0, g, genes.len());
    assert(g * l > 0) by (nonlinear_arith)
        requires
            g > 0,
            l > 0,
    ;
    lemma_fundamental_div_mod(d * (l - 1), 2);
    lemma_mod_bound(d * (l - 1), 2);
    let r = (d * (l - 1)) % 2;
    let a = ints(data).skip(l);
    let p = predictions_of(genes, data);
    let m = (data.len() - genes.len()) as nat;
    assert forall|i: int| 0 <= i < m implies #[trigger] p[i] - a[i] == -e by {
        lemma_equal_genes_predict_mean(genes, data, i);
        lemma_arithmetic_window(data, s0, d, i, genes.len());
        let ws = window_sum(data, i, genes.len());
        let q = s0 + d * i + h;
        assert(ws == l * q + (l * r) / 2 && 0 <= (l * r) / 2 < l) by (nonlinear_arith)
            requires
                2 * ws == 2 * l * (s0 + d * i) + d * l * (l - 1),
                d * (l - 1) == 2 * h + r,
                0 <= r < 2,
                q == s0 + d * i + h,
                l > 0,
        ;
        lemma_fundamental_div_mod_converse(ws, l, q, (l * r) / 2);
        assert(a[i] == data[i + l] as int);
        assert(data[i + l] as int == s0 + d * (i + l));
        assert(q - (s0 + d * (i + l)) == -e) by (nonlinear_arith)
            requires
                q == s0 + d * i + h,
                e == d * l - h,
        ;
    }
    lemma_arithmetic_sum_sq(a, p, e, m);
    assert(e >= 0) by (nonlinear_arith)
        requires
            d * (l - 1) == 2 * h + r,
            0 <= r,
            e == d * l - h,
            d > 0,
            l > 0,
    ;
    lemma_fundamental_div_mod_converse(m * (e * e), m as int, e * e, 0);
    assert(m * (e * e) == (e * e) * m) by (nonlinear_arith);
    lemma_root(e * e);
    assert(is_root(e * e, e)) by (nonlinear_arith)
        requires
            e >= 0,
    ;
    lemma_root_unique(e * e, e, root(e * e));
}

} // verus!
