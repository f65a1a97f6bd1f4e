//! Lazy enumerators of permutations and combinations of indices.
use vstd::prelude::*;

verus! {

/// n!
pub open spec fn factorial(n: nat) -> nat
    decreases n,
{
    if n == 0 {
        1
    } else {
        n * factorial((n - 1) as nat)
    }
}

/// `s` orders the indices 0..n: each once, none outside.
pub open spec fn is_permutation(s: Seq<usize>, n: nat) -> bool {
    s.len() == n && (forall|j: int| 0 <= j < n ==> #[trigger] s[j] < n) && (forall|a: int, b: int|
        0 <= a < n && 0 <= b < n && a != b ==> #[trigger] s[a] != #[trigger] s[b])
}

/// The identity ordering 0, 1, ..., n-1.
pub open spec fn identity(n: nat) -> Seq<usize> {
    Seq::new(n, |j: int| j as usize)
}

/// The control counters read as a number in the factorial base: digit `j`
/// weighs j!.
pub open spec fn counter_value(c: Seq<usize>, m: nat) -> int
    decreases m,
{
    if m == 0 {
        0
    } else {
        counter_value(c, (m - 1) as nat) + c[m - 1] * factorial((m - 1) as nat)
    }
}

proof fn lemma_factorial_pos(n: nat)
    ensures
        factorial(n) >= 1,
    decreases n,
{
    if n > 0 {
        lemma_factorial_pos((n - 1) as nat);
        assert(n * factorial((n - 1) as nat) >= 1) by (nonlinear_arith)
            requires
                n >= 1,
                factorial((n - 1) as nat) >= 1,
        ;
    }
}

proof fn lemma_counter_nonneg(c: Seq<usize>, m: nat)
    ensures
        counter_value(c, m) >= 0,
    decreases m,
{
    if m > 0 {
        lemma_counter_nonneg(c, (m - 1) as nat);
        lemma_factorial_pos((m - 1) as nat);
        assert(c[m - 1] * factorial((m - 1) as nat) >= 0) by (nonlinear_arith)
            requires
                c[m - 1] >= 0,
                factorial((m - 1) as nat) >= 1,
        ;
    }
}

proof fn lemma_counter_bound(c: Seq<usize>, m: nat)
    requires
        m <= c.len(),
        forall|j: int| 0 <= j < m ==> #[trigger] c[j] <= j,
    ensures
        counter_value(c, m) <= factorial(m) - 1,
    decreases m,
{
    if m > 0 {
        let k = (m - 1) as nat;
        lemma_counter_bound(c, k);
        assert(c[k as int] * factorial(k) <= k * factorial(k)) by (nonlinear_arith)
            requires
                c[k as int] <= k,
                factorial(k) >= 0,
        ;
        assert(factorial(m) == m * factorial(k));
        assert(m * factorial(k) == k * factorial(k) + factorial(k)) by (nonlinear_arith)
            requires
                m == k + 1,
        ;
    }
}

proof fn lemma_counter_update(c: Seq<usize>, m: nat, j: int, v: usize)
    requires
        0 <= j < m <= c.len(),
    ensures
        counter_value(c.update(j, v), m) == counter_value(c, m) + (v - c[j]) * factorial(
            j as nat,
        ),
    decreases m,
{
    let k = (m - 1) as nat;
    if j < k {
        lemma_counter_update(c, k, j, v);
    } else {
        lemma_counter_frame(c, c.update(j, v), k);
        assert(v * factorial(k) - c[j] * factorial(k) == (v - c[j]) * factorial(k))
            by (nonlinear_arith);
    }
}

proof fn lemma_counter_zero(c: Seq<usize>, m: nat)
    requires
        m <= c.len(),
        forall|j: int| 0 <= j < m ==> #[trigger] c[j] == 0,
    ensures
        counter_value(c, m) == 0,
    decreases m,
{
    if m > 0 {
        lemma_counter_zero(c, (m - 1) as nat);
    }
}

proof fn lemma_counter_frame(c: Seq<usize>, d: Seq<usize>, m: nat)
    requires
        m <= c.len(),
        m <= d.len(),
        forall|j: int| 0 <= j < m ==> c[j] == d[j],
    ensures
        counter_value(c, m) == counter_value(d, m),
    decreases m,
{
    if m > 0 {
        lemma_counter_frame(c, d, (m - 1) as nat);
    }
}

/// One step of Heap's algorithm from cursor `i` over the ordering `v` and
/// the control counters `c`: the new ordering, counters and cursor, and the
/// ordering produced, if any. At a counter below its index the step swaps
/// position `i` with position 0 (even `i`) or with the position the counter
/// names (odd `i`), bumps that counter and restarts the cursor; at a counter
/// equal to its index it clears the counter and moves on.
pub open spec fn heap_scan(v: Seq<usize>, c: Seq<usize>, i: int, n: int) -> (
    Seq<usize>,
    Seq<usize>,
    int,
    Option<Seq<usize>>,
)
    decreases n - i,
{
    if i >= n || i < 0 {
        (v, c, i, None)
    } else if c[i] < i {
        let a = if i % 2 == 0 {
            0
        } else {
            c[i] as int
        };
        let v2 = v.update(a, v[i]).update(i, v[a]);
        (v2, c.update(i, (c[i] + 1) as usize), 0, Some(v2))
    } else {
        heap_scan(v, c.update(i, 0), i + 1, n)
    }
}

/// The orderings that Heap's algorithm produces from the given state, for at
/// most `fuel` steps; the pending first ordering comes before any step.
pub open spec fn heap_run(
    v: Seq<usize>,
    c: Seq<usize>,
    i: int,
    first: bool,
    n: nat,
    fuel: nat,
) -> Seq<Seq<usize>>
    decreases fuel,
{
    if fuel == 0 {
        seq![]
    } else if first {
        seq![v] + heap_run(v, c, i, false, n, (fuel - 1) as nat)
    } else {
        let (v2, c2, i2, o) = heap_scan(v, c, i, n as int);
        match o {
            Some(p) => seq![p] + heap_run(v2, c2, i2, false, n, (fuel - 1) as nat),
            None => seq![],
        }
    }
}

/// All the orderings of 0..n, in the order Heap's algorithm produces them.
pub open spec fn permutation_outputs(n: nat) -> Seq<Seq<usize>> {
    heap_run(identity(n), Seq::new(n, |j: int| 0usize), 0, true, n, factorial(n) + 1)
}

/// The view of an optional list of indices.
pub open spec fn indices_view(r: Option<Vec<usize>>) -> Option<Seq<usize>> {
    match r {
        Some(p) => Some(p@),
        None => None,
    }
}

/// A lazy enumerator of the orderings of 0..n, by Heap's algorithm: the
/// identity first, then one transposition per step.
pub struct Permutation {
    v: Vec<usize>,
    c: Vec<usize>,
    i: usize,
    n: usize,
    first: bool,
}

fn copy_indices(v: &Vec<usize>) -> (r: Vec<usize>)
    ensures
        r@ == v@,
{
    let mut r: Vec<usize> = Vec::new();
    let mut j: usize = 0;
    while j < v.len()
        invariant
            j <= v.len(),
            r@ =~= v@.subrange(0, j as int),
        decreases v.len() - j,
    {
        r.push(v[j]);
        j += 1;
    }
    assert(r@ =~= v@);
    r
}

impl Permutation {
    /// The size of the orderings.
    pub closed spec fn size(&self) -> nat {
        self.n as nat
    }

    /// The state's invariant.
    pub closed spec fn wf(&self) -> bool {
        &&& self.v@.len() == self.n
        &&& self.c@.len() == self.n
        &&& is_permutation(self.v@, self.n as nat)
        &&& forall|j: int| 0 <= j < self.n ==> #[trigger] self.c@[j] <= j
        &&& (self.i == 0 || self.i == self.n)
        &&& self.first ==> self.i == 0 && self.v@ == identity(self.n as nat) && counter_value(
            self.c@,
            self.n as nat,
        ) == 0
    }

    /// How many orderings are still to come.
    pub closed spec fn remaining(&self) -> int {
        (if self.i == self.n {
            0
        } else {
            factorial(self.n as nat) - 1 - counter_value(self.c@, self.n as nat)
        }) + (if self.first {
            1int
        } else {
            0
        })
    }

    /// Whether the next ordering is the first one, the identity.
    pub closed spec fn at_start(&self) -> bool {
        self.first
    }

    /// The current ordering.
    pub closed spec fn ordering(&self) -> Seq<usize> {
        self.v@
    }

    /// The control counters, one per index.
    pub closed spec fn counters(&self) -> Seq<usize> {
        self.c@
    }

    /// The scan cursor.
    pub closed spec fn cursor(&self) -> int {
        self.i as int
    }

    /// The orderings still to come, in order.
    pub closed spec fn outputs(&self) -> Seq<Seq<usize>> {
        heap_run(
            self.v@,
            self.c@,
            self.i as int,
            self.first,
            self.n as nat,
            (self.remaining() + 1) as nat,
        )
    }

    /// Creates an enumerator of the orderings of 0..n.
    pub fn new(n: usize) -> (r: Permutation)
        ensures
            r.wf(),
            r.size() == n,
            r.at_start(),
            r.remaining() == factorial(n as nat),
            r.outputs() == permutation_outputs(n as nat),
            r.ordering() == identity(n as nat),
            r.counters() == Seq::new(n as nat, |j: int| 0usize),
            r.cursor() == 0,
    {
        let mut v: Vec<usize> = Vec::new();
        let mut c: Vec<usize> = Vec::new();
        let mut x: usize = 0;
        while x < n
            invariant
                x <= n,
                v@ =~= identity(x as nat),
                c@ =~= Seq::new(x as nat, |j: int| 0usize),
            decreases n - x,
        {
            v.push(x);
            c.push(0);
            x += 1;
        }
        proof {
            lemma_counter_zero(c@, n as nat);
            lemma_factorial_pos(n as nat);
        }
        Permutation { v, c, i: 0, n, first: true }
    }

    /// Produces the next ordering, or `None` once all n! have been produced.
    pub fn next(&mut self) -> (r: Option<Vec<usize>>)
        requires
            old(self).wf(),
        ensures
            final(self).wf(),
            final(self).size() == old(self).size(),
            !final(self).at_start(),
            is_permutation(final(self).ordering(), final(self).size()),
            final(self).counters().len() == final(self).size(),
            forall|j: int| 0 <= j < final(self).size() ==> #[trigger] final(self).counters()[j] <= j,
            final(self).cursor() <= final(self).size(),
            r matches Some(p) ==> p@ == final(self).ordering(),
            old(self).remaining() > 0 <==> r is Some,
            r is Some ==> final(self).remaining() == old(self).remaining() - 1,
            r is None ==> final(self).remaining() == 0,
            r matches Some(p) ==> is_permutation(p@, old(self).size()),
            old(self).at_start() ==> (r matches Some(p) && p@ == identity(old(self).size())),
            old(self).at_start() ==> final(self).ordering() == old(self).ordering()
                && final(self).counters() == old(self).counters() && final(self).cursor()
                == old(self).cursor(),
            !old(self).at_start() ==> heap_scan(
                old(self).ordering(),
                old(self).counters(),
                old(self).cursor(),
                old(self).size() as int,
            ) == (final(self).ordering(), final(self).counters(), final(self).cursor(), indices_view(
                r,
            )),
            old(self).outputs() == match indices_view(r) {
                Some(p) => seq![p] + final(self).outputs(),
                None => seq![],
            },
            r is None ==> final(self).outputs() == Seq::<Seq<usize>>::empty(),
    {
        proof {
            lemma_counter_nonneg(self.c@, self.n as nat);
            lemma_counter_bound(self.c@, self.n as nat);
        }
        if self.first {
            self.first = false;
            return Some(copy_indices(&self.v));
        }
        if self.i >= self.n {
            return None;
        }
        let ghost c0 = self.c@;
        while self.i < self.n
            invariant
                self.v@.len() == self.n,
                self.c@.len() == self.n,
                c0.len() == self.n,
                is_permutation(self.v@, self.n as nat),
                !self.first,
                self.i <= self.n,
                forall|j: int| 0 <= j < self.n ==> #[trigger] self.c@[j] <= j,
                forall|j: int| 0 <= j < self.i ==> #[trigger] c0[j] == j && self.c@[j] == 0,
                forall|j: int| self.i <= j < self.n ==> #[trigger] c0[j] == self.c@[j],
                counter_value(self.c@, self.n as nat) + factorial(self.i as nat) - 1
                    == counter_value(c0, self.n as nat),
                old(self).c@ == c0,
                old(self).n == self.n,
                old(self).i == 0,
                !old(self).first,
                0 < self.n,
                heap_scan(self.v@, self.c@, self.i as int, self.n as int) == heap_scan(
                    old(self).v@,
                    old(self).c@,
                    0,
                    self.n as int,
                ),
            decreases self.n - self.i,
        {
            let i = self.i;
            let ci = self.c[i];
            if ci < i {
                let a = if i % 2 == 0 {
                    0
                } else {
                    ci
                };
                let ghost before = self.c@;
                let ghost vb = self.v@;
                let va = self.v[a];
                let vi = self.v[i];
                self.v.set(a, vi);
                self.v.set(i, va);
                self.c.set(i, ci + 1);
                self.i = 0;
                proof {
                    lemma_counter_update(before, self.n as nat, i as int, (ci + 1) as usize);
                    assert(before.update(i as int, (ci + 1) as usize) =~= self.c@);
                    assert((((ci + 1) as usize) - before[i as int]) * factorial(i as nat)
                        == factorial(i as nat)) by (nonlinear_arith)
                        requires
                            before[i as int] == ci,
                            ci < i,
                    ;
                    assert(counter_value(self.c@, self.n as nat) == counter_value(c0, self.n as nat) + 1);
                    assert(self.v@ =~= vb.update(a as int, vb[i as int]).update(i as int, vb[a as int]));
                    assert forall|x: int, y: int|
                        0 <= x < self.n && 0 <= y < self.n && x != y implies #[trigger] self.v@[x]
                        != #[trigger] self.v@[y] by {
                        let sx = if x == a { i as int } else if x == i { a as int } else { x };
                        let sy = if y == a { i as int } else if y == i { a as int } else { y };
                        assert(self.v@[x] == vb[sx]);
                        assert(self.v@[y] == vb[sy]);
                    }
                    lemma_counter_bound(self.c@, self.n as nat);
                }
                return Some(copy_indices(&self.v));
            } else {
                let ghost before = self.c@;
                self.c.set(i, 0);
                self.i = i + 1;
                proof {
                    lemma_counter_update(before, self.n as nat, i as int, 0);
                    assert(before.update(i as int, 0) =~= self.c@);
                    assert(ci == i);
                    assert((0 - ci) * factorial(i as nat) == -(i * factorial(i as nat)))
                        by (nonlinear_arith)
                        requires
                            ci == i,
                    ;
                    assert(factorial((i + 1) as nat) == (i + 1) * factorial(i as nat));
                    assert((i + 1) * factorial(i as nat) == i * factorial(i as nat) + factorial(
                        i as nat,
                    )) by (nonlinear_arith);
                }
            }
        }
        proof {
            lemma_counter_nonneg(self.c@, self.n as nat);
        }
        None
    }
}


/// Bit `j` of `x` is set.
pub open spec fn bit(x: u64, j: int) -> bool {
    (x >> (j as u64)) & 1u64 == 1u64
}

/// The positions below `m` at which `x` has a bit set, ascending.
pub open spec fn set_positions(x: u64, m: nat) -> Seq<usize>
    decreases m,
{
    if m == 0 {
        seq![]
    } else {
        set_positions(x, (m - 1) as nat) + if bit(x, m - 1) {
            seq![(m - 1) as usize]
        } else {
            seq![]
        }
    }
}

/// The number of set bits of `x`.
pub open spec fn popcount(x: u64) -> nat {
    set_positions(x, 64).len()
}

/// The Gray code of `x`.
pub open spec fn gray(x: u64) -> u64 {
    x ^ (x >> 1u64)
}

/// 2^n, the number of n-bit cursors.
pub open spec fn cursor_end(n: nat) -> u64 {
    1u64 << (n as u64)
}

/// How many cursors in `i..end` have a Gray code with exactly `k` bits set.
pub open spec fn count_matching(k: nat, i: int, end: int) -> nat
    decreases end - i,
{
    if i >= end {
        0
    } else {
        (if popcount(gray(i as u64)) == k {
            1nat
        } else {
            0
        }) + count_matching(k, i + 1, end)
    }
}

/// Scans the cursors from `i` for the first whose Gray code has `k` bits set:
/// the cursor after it and the positions of those bits, if one is found.
pub open spec fn gray_scan(n: nat, k: nat, i: int) -> (int, Option<Seq<usize>>)
    decreases cursor_end(n) - i,
{
    if i >= cursor_end(n) || i < 0 {
        (i, None)
    } else if popcount(gray(i as u64)) == k {
        (i + 1, Some(set_positions(gray(i as u64), n)))
    } else {
        gray_scan(n, k, i + 1)
    }
}

/// The subsets that the Gray-code scan produces from cursor `i`, for at most
/// `fuel` steps.
pub open spec fn gray_run(n: nat, k: nat, i: int, fuel: nat) -> Seq<Seq<usize>>
    decreases fuel,
{
    if fuel == 0 {
        seq![]
    } else {
        let (i2, o) = gray_scan(n, k, i);
        match o {
            Some(s) => seq![s] + gray_run(n, k, i2, (fuel - 1) as nat),
            None => seq![],
        }
    }
}

/// All the k-element subsets of 0..n, in the order of the Gray-code scan.
pub open spec fn combination_outputs(n: nat, k: nat) -> Seq<Seq<usize>> {
    gray_run(n, k, 0, count_matching(k, 0, cursor_end(n) as int) + 1)
}

/// `s` lists `k` indices below `n` in strictly ascending order.
pub open spec fn is_ascending_subset(s: Seq<usize>, n: nat, k: nat) -> bool {
    s.len() == k && (forall|j: int| 0 <= j < s.len() ==> #[trigger] s[j] < n) && (forall|a: int, b: int|
        0 <= a < b < s.len() ==> #[trigger] s[a] < #[trigger] s[b])
}

proof fn lemma_set_positions_ascending(x: u64, m: nat)
    requires
        m <= 64,
    ensures
        is_ascending_subset(set_positions(x, m), m, set_positions(x, m).len()),
        set_positions(x, m).len() <= m,
    decreases m,
{
    if m > 0 {
        let k = (m - 1) as nat;
        lemma_set_positions_ascending(x, k);
        let prev = set_positions(x, k);
        let cur = set_positions(x, m);
        if bit(x, k as int) {
            assert(cur =~= prev.push(k as usize));
            assert forall|a: int, b: int| 0 <= a < b < cur.len() implies #[trigger] cur[a]
                < #[trigger] cur[b] by {
                if b < prev.len() {
                    assert(prev[a] < prev[b]);
                } else {
                    assert(prev[a] < k);
                }
            }
        } else {
            assert(cur =~= prev);
        }
    }
}

/// Positions from `m` on hold no set bit, so listing up to `m2` adds nothing.
proof fn lemma_set_positions_high_zero(x: u64, m: nat, m2: nat)
    requires
        m <= m2 <= 64,
        forall|j: int| m <= j < 64 ==> !#[trigger] bit(x, j),
    ensures
        set_positions(x, m2) == set_positions(x, m),
    decreases m2,
{
    if m2 > m {
        lemma_set_positions_high_zero(x, m, (m2 - 1) as nat);
        assert(!bit(x, m2 - 1));
        assert(set_positions(x, m2) =~= set_positions(x, (m2 - 1) as nat));
    }
}

/// The Gray code of an n-bit cursor has no bit at or above n.
proof fn lemma_gray_below(i: u64, n: u64)
    requires
        n < 64,
        i < 1u64 << n,
    ensures
        forall|j: int| n <= j < 64 ==> !#[trigger] bit(gray(i), j),
{
    assert forall|j: int| n <= j < 64 implies !#[trigger] bit(gray(i), j) by {
        let ju = j as u64;
        assert(((i ^ (i >> 1u64)) >> ju) & 1u64 != 1u64) by (bit_vector)
            requires
                n < 64,
                i < 1u64 << n,
                n <= ju,
                ju < 64,
        ;
    }
}

/// The Gray code of an n-bit cursor, listed by its set bits below n.
proof fn lemma_gray_positions(i: u64, n: u64)
    requires
        n < 64,
        i < 1u64 << n,
    ensures
        set_positions(gray(i), n as nat).len() == popcount(gray(i)),
        popcount(gray(i)) <= n,
{
    lemma_gray_below(i, n);
    lemma_set_positions_high_zero(gray(i), n as nat, 64);
    lemma_set_positions_ascending(gray(i), n as nat);
}

/// Computes the Gray code of `x`.
fn gray_code(x: u64) -> (r: u64)
    ensures
        r == gray(x),
{
    x ^ (x >> 1)
}

/// Counts the set bits of `x`.
fn bits(x: u64) -> (r: u64)
    ensures
        r == popcount(x),
{
    let mut r: u64 = 0;
    let mut y: u64 = x;
    let ghost mut s: u64 = 0;
    assert(x >> 0u64 == x) by (bit_vector);
    proof {
        if x == 0 {
            assert forall|j: int| 0 <= j < 64 implies !#[trigger] bit(x, j) by {
                let ju = j as u64;
                assert((0u64 >> ju) & 1u64 != 1u64) by (bit_vector);
            }
        }
    }
    while y > 0
        invariant
            s <= 64,
            s < 64 || y == 0,
            s < 64 ==> y == x >> s,
            r <= s,
            r == set_positions(x, s as nat).len(),
            y == 0 ==> forall|j: int| s <= j < 64 ==> !#[trigger] bit(x, j),
        decreases y,
    {
        let b = y & 1;
        assert(b == 0 || b == 1) by (bit_vector)
            requires
                b == y & 1u64,
        ;
        assert(bit(x, s as int) == (b == 1));
        r = r + b;
        proof {
            let ns = (s + 1) as u64;
            assert(y >> 1u64 <= y) by (bit_vector);
            assert(y >> 1u64 < y) by (bit_vector)
                requires
                    y > 0,
            ;
            if ns < 64 {
                assert((x >> s) >> 1u64 == x >> ns) by (bit_vector)
                    requires
                        ns == s + 1,
                        ns < 64,
                ;
            } else {
                assert((x >> 63u64) >> 1u64 == 0) by (bit_vector);
            }
            if y >> 1u64 == 0 {
                assert forall|j: int| ns <= j < 64 implies !#[trigger] bit(x, j) by {
                    let ju = j as u64;
                    assert((x >> ju) & 1u64 != 1u64) by (bit_vector)
                        requires
                            (x >> s) >> 1u64 == 0,
                            ns == s + 1,
                            ns <= ju,
                            ju < 64,
                    ;
                }
            }
            s = ns;
        }
        y = y >> 1;
    }
    proof {
        lemma_set_positions_high_zero(x, s as nat, 64);
    }
    r
}

/// A lazy enumerator of the k-element subsets of 0..n, each as an ascending
/// list of indices, in the order of the Gray codes of an n-bit cursor.
pub struct Combination {
    n: usize,
    k: usize,
    i: u64,
}

impl Combination {
    /// The number of indices to choose from.
    pub closed spec fn size(&self) -> nat {
        self.n as nat
    }

    /// The number of indices in each subset.
    pub closed spec fn choose_count(&self) -> nat {
        self.k as nat
    }

    /// The cursor: the Gray codes below it have been scanned.
    pub closed spec fn cursor(&self) -> u64 {
        self.i
    }

    /// The state's invariant.
    pub closed spec fn wf(&self) -> bool {
        self.n < 64 && self.i <= cursor_end(self.n as nat)
    }

    /// How many subsets are still to come.
    pub closed spec fn remaining(&self) -> nat {
        count_matching(self.k as nat, self.i as int, cursor_end(self.n as nat) as int)
    }

    /// The subsets still to come, in order.
    pub closed spec fn outputs(&self) -> Seq<Seq<usize>> {
        gray_run(self.n as nat, self.k as nat, self.i as int, self.remaining() + 1)
    }

    /// Creates an enumerator of the k-element subsets of 0..n; the cursor
    /// counts to 2^n, so n stays below 64.
    pub fn new(n: usize, k: usize) -> (r: Combination)
        requires
            n < 64,
        ensures
            r.wf(),
            r.size() == n,
            r.choose_count() == k,
            r.cursor() == 0,
            r.remaining() == count_matching(k as nat, 0, cursor_end(n as nat) as int),
            r.outputs() == combination_outputs(n as nat, k as nat),
    {
        Combination { n, k, i: 0 }
    }

    /// Produces the next subset, or `None` once every cursor is scanned.
    pub fn next(&mut self) -> (r: Option<Vec<usize>>)
        requires
            old(self).wf(),
        ensures
            final(self).wf(),
            final(self).size() == old(self).size(),
            final(self).choose_count() == old(self).choose_count(),
            old(self).remaining() > 0 <==> r is Some,
            r is Some ==> final(self).remaining() == old(self).remaining() - 1,
            r is None ==> final(self).remaining() == 0,
            r matches Some(v) ==> is_ascending_subset(v@, old(self).size(), old(self).choose_count()),
            r matches Some(v) ==> old(self).cursor() < final(self).cursor() && v@ == set_positions(
                gray((final(self).cursor() - 1) as u64),
                old(self).size(),
            ) && popcount(gray((final(self).cursor() - 1) as u64)) == old(self).choose_count()
                && forall|j: int|
                old(self).cursor() <= j < final(self).cursor() - 1 ==> popcount(
                    #[trigger] gray(j as u64),
                ) != old(self).choose_count(),
            gray_scan(old(self).size(), old(self).choose_count(), old(self).cursor() as int) == (
                final(self).cursor() as int,
                indices_view(r),
            ),
            old(self).outputs() == match indices_view(r) {
                Some(s) => seq![s] + final(self).outputs(),
                None => seq![],
            },
            r is None ==> final(self).outputs() == Seq::<Seq<usize>>::empty(),
    {
        let ghost i0 = self.i;
        let end: u64 = 1u64 << (self.n as u64);
        while self.i < end
            invariant
                self.n == old(self).n,
                self.k == old(self).k,
                self.n < 64,
                end == cursor_end(self.n as nat),
                i0 == old(self).i,
                i0 <= self.i <= end,
                self.remaining() == old(self).remaining(),
                forall|j: int| i0 <= j < self.i ==> popcount(#[trigger] gray(j as u64)) != self.k,
                gray_scan(self.n as nat, self.k as nat, self.i as int) == gray_scan(
                    self.n as nat,
                    self.k as nat,
                    i0 as int,
                ),
            decreases end - self.i,
        {
            let cur = gray_code(self.i);
            self.i = self.i + 1;
            if bits(cur) as usize == self.k {
                let ghost pos = self.i - 1;
                proof {
                    lemma_gray_positions(pos as u64, self.n as u64);
                    lemma_set_positions_ascending(cur, self.n as nat);
                }
                let mut v: Vec<usize> = Vec::new();
                let mut j: usize = 0;
                while j < self.n
                    invariant
                        self.n < 64,
                        j <= self.n,
                        v@ == set_positions(cur, j as nat),
                    decreases self.n - j,
                {
                    let ju = j as u64;
                    let m = cur & (1u64 << ju);
                    assert((m != 0) == ((cur >> ju) & 1u64 == 1u64)) by (bit_vector)
                        requires
                            m == cur & (1u64 << ju),
                            ju < 64,
                    ;
                    if m != 0 {
                        v.push(j);
                    }
                    j += 1;
                }
                return Some(v);
            }
        }
        None
    }
}


/// Asking for more indices than there are yields no subset: no n-bit
/// cursor has a Gray code with more than n bits set.
pub proof fn lemma_combination_too_many(n: nat, k: nat, i: int)
    requires
        n < 64,
        n < k,
        0 <= i,
    ensures
        count_matching(k, i, cursor_end(n) as int) == 0,
    decreases cursor_end(n) - i,
{
    if i < cursor_end(n) {
        lemma_gray_positions(i as u64, n as u64);
        lemma_combination_too_many(n, k, i + 1);
    }
}

/// Choosing none of no indices yields exactly one subset, the empty one.
pub proof fn lemma_combination_empty()
    ensures
        count_matching(0, 0, cursor_end(0) as int) == 1,
{
    assert(1u64 << 0u64 == 1u64) by (bit_vector);
    assert(0u64 ^ (0u64 >> 1u64) == 0u64) by (bit_vector);
    assert forall|j: int| 0 <= j < 64 implies !#[trigger] bit(0u64, j) by {
        let ju = j as u64;
        assert((0u64 >> ju) & 1u64 != 1u64) by (bit_vector);
    }
    lemma_set_positions_high_zero(0u64, 0, 64);
    assert(popcount(gray(0u64)) == 0);
    assert(count_matching(0, 1, 1) == 0);
}


proof fn lemma_gray_injective(a: u64, b: u64)
    requires
        gray(a) == gray(b),
    ensures
        a == b,
{
    assert(a == b) by (bit_vector)
        requires
            a ^ (a >> 1u64) == b ^ (b >> 1u64),
    ;
}

proof fn lemma_set_positions_contains(x: u64, m: nat, j: int)
    requires
        m <= 64,
        0 <= j < 64,
    ensures
        set_positions(x, m).contains(j as usize) <==> (j < m && bit(x, j)),
    decreases m,
{
    if m > 0 {
        let k = (m - 1) as nat;
        lemma_set_positions_contains(x, k, j);
        lemma_set_positions_ascending(x, k);
        let prev = set_positions(x, k);
        let cur = set_positions(x, m);
        if bit(x, k as int) {
            assert(cur =~= prev.push(k as usize));
            if j == k {
                assert(cur[prev.len() as int] == j as usize);
            }
            if cur.contains(j as usize) {
                let t = choose|t: int| 0 <= t < cur.len() && cur[t] == j as usize;
                if t < prev.len() {
                    assert(prev[t] == j as usize);
                    assert(prev.contains(j as usize));
                }
            }
            if j < k && bit(x, j) {
                let t = choose|t: int| 0 <= t < prev.len() && prev[t] == j as usize;
                assert(cur[t] == j as usize);
            }
        } else {
            assert(cur =~= prev);
        }
    }
}

proof fn lemma_bits_determine(x: u64, y: u64, s: u64)
    requires
        s <= 64,
        forall|j: int| s <= j < 64 ==> #[trigger] bit(x, j) == bit(y, j),
    ensures
        s < 64 ==> x >> s == y >> s,
    decreases 64 - s,
{
    if s < 64 {
        let t = (s + 1) as u64;
        lemma_bits_determine(x, y, t);
        assert(bit(x, s as int) == bit(y, s as int));
        if t < 64 {
            assert(x >> s == y >> s) by (bit_vector)
                requires
                    x >> t == y >> t,
                    t == s + 1,
                    t < 64,
                    ((x >> s) & 1u64 == 1u64) == ((y >> s) & 1u64 == 1u64),
            ;
        } else {
            assert(x >> s == y >> s) by (bit_vector)
                requires
                    s == 63,
                    ((x >> s) & 1u64 == 1u64) == ((y >> s) & 1u64 == 1u64),
            ;
        }
    }
}

/// Below `n`, the listed positions of set bits determine the value.
proof fn lemma_positions_determine(x: u64, y: u64, n: nat)
    requires
        n < 64,
        forall|j: int| n <= j < 64 ==> !#[trigger] bit(x, j),
        forall|j: int| n <= j < 64 ==> !#[trigger] bit(y, j),
        set_positions(x, n) == set_positions(y, n),
    ensures
        x == y,
{
    assert forall|j: int| 0 <= j < 64 implies #[trigger] bit(x, j) == bit(y, j) by {
        lemma_set_positions_contains(x, n, j);
        lemma_set_positions_contains(y, n, j);
    }
    lemma_bits_determine(x, y, 0);
    assert(x >> 0u64 == x) by (bit_vector);
    assert(y >> 0u64 == y) by (bit_vector);
}

proof fn lemma_gray_scan_found(n: nat, k: nat, i: int)
    requires
        0 <= i,
    ensures
        gray_scan(n, k, i).1 matches Some(s) ==> i < gray_scan(n, k, i).0 <= cursor_end(n)
            && s == set_positions(gray((gray_scan(n, k, i).0 - 1) as u64), n) && popcount(
            gray((gray_scan(n, k, i).0 - 1) as u64),
        ) == k,
    decreases cursor_end(n) - i,
{
    if i < cursor_end(n) && popcount(gray(i as u64)) != k {
        lemma_gray_scan_found(n, k, i + 1);
    }
}

/// `s` lists the bits of the Gray code of a cursor in `lo..2^n` with `k`
/// bits set.
spec fn from_cursor(s: Seq<usize>, n: nat, k: nat, lo: int) -> bool {
    exists|j: int|
        lo <= j < cursor_end(n) && popcount(gray(j as u64)) == k && s == #[trigger] set_positions(
            gray(j as u64),
            n,
        )
}

proof fn lemma_gray_run_cursors(n: nat, k: nat, i: int, fuel: nat)
    requires
        0 <= i,
    ensures
        forall|a: int|
            0 <= a < gray_run(n, k, i, fuel).len() ==> from_cursor(
                #[trigger] gray_run(n, k, i, fuel)[a],
                n,
                k,
                i,
            ),
    decreases fuel,
{
    if fuel > 0 {
        lemma_gray_scan_found(n, k, i);
        let (i2, o) = gray_scan(n, k, i);
        if o is Some {
            lemma_gray_run_cursors(n, k, i2, (fuel - 1) as nat);
            let out = gray_run(n, k, i, fuel);
            let rest = gray_run(n, k, i2, (fuel - 1) as nat);
            assert forall|a: int| 0 <= a < out.len() implies from_cursor(#[trigger] out[a], n, k, i) by {
                if a == 0 {
                    assert(i <= i2 - 1 < cursor_end(n));
                    assert(out[a] == set_positions(gray((i2 - 1) as u64), n));
                } else {
                    assert(out[a] == rest[a - 1]);
                    assert(from_cursor(rest[a - 1], n, k, i2));
                    let j = choose|j: int|
                        i2 <= j < cursor_end(n) && popcount(gray(j as u64)) == k && rest[a - 1]
                            == #[trigger] set_positions(gray(j as u64), n);
                    assert(i <= j);
                }
            }
        }
    }
}

proof fn lemma_gray_run_distinct(n: nat, k: nat, i: int, fuel: nat)
    requires
        n < 64,
        0 <= i,
    ensures
        forall|a: int, b: int|
            0 <= a < b < gray_run(n, k, i, fuel).len() ==> #[trigger] gray_run(n, k, i, fuel)[a]
                != #[trigger] gray_run(n, k, i, fuel)[b],
    decreases fuel,
{
    if fuel > 0 {
        lemma_gray_scan_found(n, k, i);
        let (i2, o) = gray_scan(n, k, i);
        if o is Some {
            lemma_gray_run_distinct(n, k, i2, (fuel - 1) as nat);
            lemma_gray_run_cursors(n, k, i2, (fuel - 1) as nat);
            let out = gray_run(n, k, i, fuel);
            let rest = gray_run(n, k, i2, (fuel - 1) as nat);
            assert forall|a: int, b: int| 0 <= a < b < out.len() implies #[trigger] out[a]
                != #[trigger] out[b] by {
                if a == 0 {
                    assert(out[b] == rest[b - 1]);
                    assert(from_cursor(rest[b - 1], n, k, i2));
                    let j = choose|j: int|
                        i2 <= j < cursor_end(n) && popcount(gray(j as u64)) == k && rest[b - 1]
                            == #[trigger] set_positions(gray(j as u64), n);
                    let j0 = i2 - 1;
                    if out[a] == out[b] {
                        lemma_gray_below(j as u64, n as u64);
                        lemma_gray_below(j0 as u64, n as u64);
                        lemma_positions_determine(gray(j as u64), gray(j0 as u64), n);
                        lemma_gray_injective(j as u64, j0 as u64);
                    }
                } else {
                    assert(out[a] == rest[a - 1]);
                    assert(out[b] == rest[b - 1]);
                }
            }
        }
    }
}

/// The subsets that `Combination(n, k)` produces are distinct, and each lists
/// `k` indices below `n` in ascending order.
pub proof fn lemma_combination_outputs_distinct(n: nat, k: nat)
    requires
        n < 64,
    ensures
        forall|a: int, b: int|
            0 <= a < b < combination_outputs(n, k).len() ==> #[trigger] combination_outputs(n, k)[a]
                != #[trigger] combination_outputs(n, k)[b],
        forall|a: int|
            0 <= a < combination_outputs(n, k).len() ==> is_ascending_subset(
                #[trigger] combination_outputs(n, k)[a],
                n,
                k,
            ),
{
    let fuel = count_matching(k, 0, cursor_end(n) as int) + 1;
    lemma_gray_run_distinct(n, k, 0, fuel);
    lemma_gray_run_cursors(n, k, 0, fuel);
    assert forall|a: int| 0 <= a < combination_outputs(n, k).len() implies is_ascending_subset(
        #[trigger] combination_outputs(n, k)[a],
        n,
        k,
    ) by {
        assert(from_cursor(gray_run(n, k, 0, fuel)[a], n, k, 0));
        let j = choose|j: int|
            0 <= j < cursor_end(n) && popcount(gray(j as u64)) == k && gray_run(n, k, 0, fuel)[a]
                == #[trigger] set_positions(gray(j as u64), n);
        lemma_gray_positions(j as u64, n as u64);
        lemma_set_positions_ascending(gray(j as u64), n);
    }
}


/// The binomial coefficient C(n, k).
pub open spec fn binomial(n: nat, k: nat) -> nat
    decreases n,
{
    if k == 0 {
        1
    } else if n == 0 {
        0
    } else {
        binomial((n - 1) as nat, (k - 1) as nat) + binomial((n - 1) as nat, k)
    }
}

proof fn lemma_count_split(k: nat, a: int, b: int, c: int)
    requires
        a <= b <= c,
    ensures
        count_matching(k, a, c) == count_matching(k, a, b) + count_matching(k, b, c),
    decreases b - a,
{
    if a < b {
        lemma_count_split(k, a + 1, b, c);
    }
}

proof fn lemma_set_positions_agree(x: u64, y: u64, m: nat)
    requires
        forall|j: int| 0 <= j < m ==> #[trigger] bit(x, j) == bit(y, j),
    ensures
        set_positions(x, m) == set_positions(y, m),
    decreases m,
{
    if m > 0 {
        lemma_set_positions_agree(x, y, (m - 1) as nat);
        assert(bit(x, m - 1) == bit(y, m - 1));
    }
}

/// Setting bit `n` of a value below 2^n adds one set bit.
proof fn lemma_popcount_top(y: u64, n: u64)
    requires
        n < 63,
        y < 1u64 << n,
    ensures
        popcount((y + (1u64 << n)) as u64) == popcount(y) + 1,
{
    assert(y + (1u64 << n) < 0x8000_0000_0000_0000u64) by (bit_vector)
        requires
            n < 63,
            y < 1u64 << n,
    ;
    let z = (y + (1u64 << n)) as u64;
    assert forall|j: int| 0 <= j < n implies #[trigger] bit(z, j) == bit(y, j) by {
        let ju = j as u64;
        assert(((z >> ju) & 1u64 == 1u64) == ((y >> ju) & 1u64 == 1u64)) by (bit_vector)
            requires
                n < 63,
                y < 1u64 << n,
                z == y + (1u64 << n),
                ju < n,
        ;
    }
    assert(bit(z, n as int)) by {
        assert((z >> n) & 1u64 == 1u64) by (bit_vector)
            requires
                n < 63,
                y < 1u64 << n,
                z == y + (1u64 << n),
        ;
    }
    assert forall|j: int| n < j < 64 implies !#[trigger] bit(z, j) by {
        let ju = j as u64;
        assert((z >> ju) & 1u64 != 1u64) by (bit_vector)
            requires
                n < 63,
                y < 1u64 << n,
                z == y + (1u64 << n),
                n < ju,
                ju < 64,
        ;
    }
    assert forall|j: int| n <= j < 64 implies !#[trigger] bit(y, j) by {
        let ju = j as u64;
        assert((y >> ju) & 1u64 != 1u64) by (bit_vector)
            requires
                n < 63,
                y < 1u64 << n,
                n <= ju,
                ju < 64,
        ;
    }
    lemma_set_positions_agree(z, y, n as nat);
    lemma_set_positions_high_zero(y, n as nat, 64);
    lemma_set_positions_high_zero(z, (n + 1) as nat, 64);
    assert(set_positions(z, (n + 1) as nat) =~= set_positions(z, n as nat).push(n as usize));
}

/// The upper half of the n+1-bit Gray codes reflects the lower half, with
/// bit n set.
proof fn lemma_gray_reflect(n: u64, t: u64)
    requires
        n < 63,
        t < 1u64 << n,
    ensures
        (2 * (1u64 << n) - 1 - t) as u64 >= 1u64 << n,
        gray((2 * (1u64 << n) - 1 - t) as u64) == gray(t) + (1u64 << n),
        gray(t) < 1u64 << n,
{
    assert(2 * (1u64 << n) - 1 - t < 0x8000_0000_0000_0000u64 && 2 * (1u64 << n) - 1 - t >= 0)
        by (bit_vector)
        requires
            n < 63,
            t < 1u64 << n,
    ;
    let big = (2 * (1u64 << n) - 1 - t) as u64;
    assert(big >= 1u64 << n && (big ^ (big >> 1u64)) == (t ^ (t >> 1u64)) + (1u64 << n) && (t ^ (t
        >> 1u64)) < 1u64 << n) by (bit_vector)
        requires
            n < 63,
            t < 1u64 << n,
            big == 2 * (1u64 << n) - 1 - t,
    ;
}

proof fn lemma_count_upper_half(n: u64, k: nat, t: int)
    requires
        n < 63,
        0 <= t <= (1u64 << n),
    ensures
        count_matching(k, 2 * (1u64 << n) - t, 2 * (1u64 << n)) == if k == 0 {
            0
        } else {
            count_matching((k - 1) as nat, 0, t)
        },
    decreases t,
{
    let big_n = (1u64 << n) as int;
    if t > 0 {
        let t1 = t - 1;
        lemma_count_upper_half(n, k, t1);
        lemma_gray_reflect(n, t1 as u64);
        lemma_popcount_top(gray(t1 as u64), n);
        let a = 2 * big_n - t;
        assert(a == 2 * big_n - 1 - t1);
        assert(a + 1 == 2 * big_n - t1);
        assert(gray(a as u64) == gray(t1 as u64) + big_n);
        assert(popcount(gray(a as u64)) == popcount(gray(t1 as u64)) + 1);
        assert(count_matching(k, a, 2 * big_n) == (if popcount(gray(a as u64)) == k {
            1nat
        } else {
            0
        }) + count_matching(k, a + 1, 2 * big_n));
        if k > 0 {
            lemma_count_split((k - 1) as nat, 0, t1, t);
            assert(count_matching((k - 1) as nat, t, t) == 0);
            assert(count_matching((k - 1) as nat, t1, t) == (if popcount(gray(t1 as u64)) == k - 1 {
                1nat
            } else {
                0
            }) + count_matching((k - 1) as nat, t, t));
        }
    }
}

/// `Combination::new(n, k)` has C(n, k) subsets to come.
pub proof fn lemma_combination_count(n: nat, k: nat)
    requires
        n < 64,
    ensures
        count_matching(k, 0, cursor_end(n) as int) == binomial(n, k),
    decreases n,
{
    if n == 0 {
        assert(1u64 << 0u64 == 1u64) by (bit_vector);
        assert(0u64 ^ (0u64 >> 1u64) == 0u64) by (bit_vector);
        assert forall|j: int| 0 <= j < 64 implies !#[trigger] bit(0u64, j) by {
            let ju = j as u64;
            assert((0u64 >> ju) & 1u64 != 1u64) by (bit_vector);
        }
        lemma_set_positions_high_zero(0u64, 0, 64);
        assert(count_matching(k, 1, 1) == 0);
    } else {
        let m = (n - 1) as u64;
        lemma_combination_count(m as nat, k);
        if k > 0 {
            lemma_combination_count(m as nat, (k - 1) as nat);
        }
        let half = 1u64 << m;
        let nn = n as u64;
        assert(1u64 << nn == 2 * half && half >= 1) by (bit_vector)
            requires
                m < 63,
                nn == m + 1,
                half == 1u64 << m,
        ;
        lemma_count_split(k, 0, half as int, 2 * half);
        lemma_count_upper_half(m, k, half as int);
    }
}


proof fn lemma_gray_scan_count(n: nat, k: nat, i: int)
    requires
        0 <= i,
    ensures
        gray_scan(n, k, i).1 is Some <==> count_matching(k, i, cursor_end(n) as int) > 0,
        gray_scan(n, k, i).1 is Some ==> gray_scan(n, k, i).0 >= 0 && count_matching(
            k,
            gray_scan(n, k, i).0,
            cursor_end(n) as int,
        ) == count_matching(k, i, cursor_end(n) as int) - 1,
    decreases cursor_end(n) - i,
{
    if i < cursor_end(n) && popcount(gray(i as u64)) != k {
        lemma_gray_scan_count(n, k, i + 1);
    }
}

proof fn lemma_gray_run_len(n: nat, k: nat, i: int)
    requires
        0 <= i,
    ensures
        gray_run(n, k, i, count_matching(k, i, cursor_end(n) as int) + 1).len() == count_matching(
            k,
            i,
            cursor_end(n) as int,
        ),
    decreases count_matching(k, i, cursor_end(n) as int),
{
    lemma_gray_scan_count(n, k, i);
    let (i2, o) = gray_scan(n, k, i);
    if o is Some {
        lemma_gray_run_len(n, k, i2);
    }
}

/// `Combination(n, k)` produces C(n, k) subsets.
pub proof fn lemma_combination_outputs_count(n: nat, k: nat)
    requires
        n < 64,
    ensures
        combination_outputs(n, k).len() == binomial(n, k),
{
    lemma_gray_run_len(n, k, 0);
    lemma_combination_count(n, k);
}


/// An ordering of 0..n with control counters, each at most its index.
spec fn heap_state_ok(v: Seq<usize>, c: Seq<usize>, n: nat) -> bool {
    &&& c.len() == n
    &&& is_permutation(v, n)
    &&& forall|j: int| 0 <= j < n ==> #[trigger] c[j] <= j
}

proof fn lemma_swap_keeps_permutation(v: Seq<usize>, n: nat, a: int, i: int)
    requires
        is_permutation(v, n),
        0 <= a < n,
        0 <= i < n,
    ensures
        is_permutation(v.update(a, v[i]).update(i, v[a]), n),
{
    let w = v.update(a, v[i]).update(i, v[a]);
    assert forall|x: int, y: int| 0 <= x < n && 0 <= y < n && x != y implies #[trigger] w[x]
        != #[trigger] w[y] by {
        let sx = if x == i { a } else if x == a { i } else { x };
        let sy = if y == i { a } else if y == a { i } else { y };
        assert(w[x] == v[sx]);
        assert(w[y] == v[sy]);
    }
    assert forall|j: int| 0 <= j < n implies #[trigger] w[j] < n by {
        let sj = if j == i { a } else if j == a { i } else { j };
        assert(w[j] == v[sj]);
    }
}

/// A scan from cursor `i`, with the counters below `i` already cleared,
/// either advances the factorial-base counter by one and yields a new
/// ordering, or runs out exactly when the counter was at its largest value.
proof fn lemma_heap_scan(v: Seq<usize>, c: Seq<usize>, i: int, n: nat)
    requires
        n <= usize::MAX,
        heap_state_ok(v, c, n),
        0 <= i <= n,
        forall|j: int| 0 <= j < i ==> #[trigger] c[j] == 0,
    ensures
        ({
            let (v2, c2, i2, o) = heap_scan(v, c, i, n as int);
            let x = counter_value(c, n) + factorial(i as nat) - 1;
            &&& o is Some ==> heap_state_ok(v2, c2, n) && i2 == 0 && o == Some(v2) && counter_value(
                c2,
                n,
            ) == x + 1
            &&& o is None ==> x == factorial(n) - 1 && i2 == n
        }),
    decreases n - i,
{
    if i >= n {
        lemma_counter_zero(c, n);
    } else if c[i] < i {
        let a = if i % 2 == 0 {
            0
        } else {
            c[i] as int
        };
        lemma_swap_keeps_permutation(v, n, a, i);
        let ci1 = (c[i] + 1) as usize;
        assert(ci1 == c[i] + 1);
        lemma_counter_update(c, n, i, ci1);
        assert((ci1 - c[i]) * factorial(i as nat) == factorial(i as nat)) by (nonlinear_arith)
            requires
                ci1 == c[i] + 1,
        ;
    } else {
        let c2 = c.update(i, 0);
        lemma_counter_update(c, n, i, 0);
        lemma_heap_scan(v, c2, i + 1, n);
        assert(c[i] == i);
        assert(factorial((i + 1) as nat) == (i + 1) * factorial(i as nat));
        assert((0 - c[i]) * factorial(i as nat) + (i + 1) * factorial(i as nat) == factorial(
            i as nat,
        )) by (nonlinear_arith)
            requires
                c[i] == i,
        ;
    }
}

proof fn lemma_heap_run(v: Seq<usize>, c: Seq<usize>, n: nat)
    requires
        n <= usize::MAX,
        heap_state_ok(v, c, n),
        counter_value(c, n) <= factorial(n) - 1,
    ensures
        ({
            let out = heap_run(v, c, 0, false, n, (factorial(n) - counter_value(c, n)) as nat);
            &&& out.len() == factorial(n) - 1 - counter_value(c, n)
            &&& forall|a: int| 0 <= a < out.len() ==> is_permutation(#[trigger] out[a], n)
        }),
    decreases factorial(n) - counter_value(c, n),
{
    lemma_counter_nonneg(c, n);
    lemma_heap_scan(v, c, 0, n);
    let (v2, c2, i2, o) = heap_scan(v, c, 0, n as int);
    if o is Some {
        lemma_counter_bound(c2, n);
        lemma_heap_run(v2, c2, n);
    }
}

/// `Permutation(n)` produces n! orderings, each of 0..n, the identity first.
pub proof fn lemma_permutation_outputs(n: nat)
    requires
        n <= usize::MAX,
    ensures
        permutation_outputs(n).len() == factorial(n),
        permutation_outputs(n)[0] == identity(n),
        forall|a: int|
            0 <= a < permutation_outputs(n).len() ==> is_permutation(
                #[trigger] permutation_outputs(n)[a],
                n,
            ),
{
    let c = Seq::new(n, |j: int| 0usize);
    let v = identity(n);
    lemma_counter_zero(c, n);
    lemma_factorial_pos(n);
    assert(heap_state_ok(v, c, n));
    lemma_heap_run(v, c, n);
    let out = permutation_outputs(n);
    let rest = heap_run(v, c, 0, false, n, factorial(n));
    assert(out == seq![v] + rest);
    assert forall|a: int| 0 <= a < out.len() implies is_permutation(#[trigger] out[a], n) by {
        if a > 0 {
            assert(out[a] == rest[a - 1]);
        }
    }
}

} // verus!
