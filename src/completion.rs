use vstd::arithmetic::div_mod::lemma_fundamental_div_mod_converse;
use vstd::prelude::*;

verus! {

/// Sum of the digits in `digits`.
pub open spec fn digit_total(digits: Seq<u8>) -> int
    decreases digits.len(),
{
    if digits.len() == 0 {
        0
    } else {
        digit_total(digits.drop_last()) + digits.last()
    }
}

/// Every ordered way to add `k` distinct pool entries (by position) to a partial
/// sum `s`, as the list of resulting sums: for each pool entry in turn, take it
/// and complete with the rest of the pool.
pub open spec fn sums_with(s: int, k: nat, pool: Seq<u8>) -> Seq<int>
    decreases k, pool.len() + 1,
{
    if k == 0 {
        seq![s]
    } else {
        branch_sums(s, k, pool, pool.len() as nat)
    }
}

/// The completions of `sums_with(s, k, pool)` whose first pick is one of the
/// first `n` pool entries, in pool order.
pub open spec fn branch_sums(s: int, k: nat, pool: Seq<u8>, n: nat) -> Seq<int>
    decreases k, n,
{
    if k == 0 || n == 0 || n > pool.len() {
        seq![]
    } else {
        branch_sums(s, k, pool, (n - 1) as nat) + sums_with(
            s + pool[n - 1],
            (k - 1) as nat,
            pool.remove(n - 1),
        )
    }
}

/// The sums of all completions of a line whose known digits are `known` (at
/// most three), filling the remaining slots from `pool`.
pub open spec fn completion_sums(known: Seq<u8>, pool: Seq<u8>) -> Seq<int> {
    sums_with(digit_total(known), (3 - known.len()) as nat, pool)
}

/// `n * (n - 1) * ... * (n - k + 1)`.
pub open spec fn falling(n: nat, k: nat) -> nat
    decreases k,
{
    if k == 0 {
        1
    } else if n == 0 {
        0
    } else {
        n * falling((n - 1) as nat, (k - 1) as nat)
    }
}

/// A line with all three digits known has exactly one completion, the sum of
/// its digits, whatever the pool holds.
pub proof fn lemma_full_line_single(known: Seq<u8>, pool: Seq<u8>)
    requires
        known.len() == 3,
    ensures
        completion_sums(known, pool) == seq![digit_total(known)],
{
}

/// The number of completions that fill `k` slots from a pool of `n` entries is
/// the falling factorial of `n` of order `k`.
pub proof fn lemma_completion_count(s: int, k: nat, pool: Seq<u8>)
    ensures
        sums_with(s, k, pool).len() == falling(pool.len(), k),
    decreases k, pool.len() + 1,
{
    if k > 0 {
        lemma_branch_count(s, k, pool, pool.len());
        if pool.len() > 0 {
            assert(falling(pool.len(), k) == pool.len() * falling((pool.len() - 1) as nat, (k - 1) as nat));
        }
    }
}

proof fn lemma_branch_count(s: int, k: nat, pool: Seq<u8>, n: nat)
    requires
        k > 0,
        n <= pool.len(),
    ensures
        branch_sums(s, k, pool, n).len() == n * falling((pool.len() - 1) as nat, (k - 1) as nat),
    decreases k, n,
{
    if n > 0 {
        lemma_branch_count(s, k, pool, (n - 1) as nat);
        lemma_completion_count(s + pool[n - 1], (k - 1) as nat, pool.remove(n - 1));
        assert(pool.remove(n - 1).len() == pool.len() - 1);
        let f = falling((pool.len() - 1) as nat, (k - 1) as nat) as int;
        let m = n as int;
        assert(m * f == (m - 1) * f + f) by (nonlinear_arith);
        assert(branch_sums(s, k, pool, n) == branch_sums(s, k, pool, (n - 1) as nat) + sums_with(
            s + pool[n - 1],
            (k - 1) as nat,
            pool.remove(n - 1),
        ));
        assert(branch_sums(s, k, pool, n).len() == (m - 1) * f + f);
        assert(branch_sums(s, k, pool, n).len() == n * falling((pool.len() - 1) as nat, (k - 1) as nat));
    } else {
        assert(branch_sums(s, k, pool, n).len() == 0);
    }
}

/// A line's completion count, for the number of its empty slots and the size of
/// the pool: the falling factorial.
pub proof fn lemma_line_completion_count(known: Seq<u8>, pool: Seq<u8>)
    requires
        known.len() <= 3,
    ensures
        completion_sums(known, pool).len() == falling(pool.len(), (3 - known.len()) as nat),
{
    lemma_completion_count(digit_total(known), (3 - known.len()) as nat, pool);
}

/// Sum of `f` over every entry of `xs`.
pub open spec fn total_by(xs: Seq<int>, f: spec_fn(int) -> int) -> int
    decreases xs.len(),
{
    if xs.len() == 0 {
        0
    } else {
        total_by(xs.drop_last(), f) + f(xs.last())
    }
}

/// Every way to add `k` pool entries (by position) to a partial sum `s` without
/// regard to order: each combination once, as the resulting sum.
pub open spec fn combination_sums(s: int, k: nat, pool: Seq<u8>) -> Seq<int>
    decreases pool.len(),
{
    if k == 0 {
        seq![s]
    } else if pool.len() == 0 {
        seq![]
    } else {
        combination_sums(s + pool[0], (k - 1) as nat, pool.drop_first()) + combination_sums(
            s,
            k,
            pool.drop_first(),
        )
    }
}

/// `k!`.
pub open spec fn factorial(k: nat) -> nat
    decreases k,
{
    if k == 0 {
        1
    } else {
        k * factorial((k - 1) as nat)
    }
}

proof fn lemma_total_concat(a: Seq<int>, b: Seq<int>, f: spec_fn(int) -> int)
    ensures
        total_by(a + b, f) == total_by(a, f) + total_by(b, f),
    decreases b.len(),
{
    if b.len() > 0 {
        assert((a + b).drop_last() =~= a + b.drop_last());
        lemma_total_concat(a, b.drop_last(), f);
    }
}

proof fn lemma_total_ones(xs: Seq<int>)
    ensures
        total_by(xs, |x: int| 1int) == xs.len(),
    decreases xs.len(),
{
    if xs.len() > 0 {
        lemma_total_ones(xs.drop_last());
    }
}

/// With `pool = x` followed by `rest`, the first `n` branches of the ordered
/// completions: the branch that takes `x` first, the first `n - 1` branches over
/// `rest` alone, and `k - 1` more copies of branches over `rest` that take `x`
/// later.
proof fn lemma_branch_split(f: spec_fn(int) -> int, s: int, k: nat, x: u8, rest: Seq<u8>, n: nat)
    requires
        k >= 1,
        1 <= n <= rest.len() + 1,
    ensures
        total_by(branch_sums(s, k, seq![x] + rest, n), f) == total_by(
            sums_with(s + x, (k - 1) as nat, rest),
            f,
        ) + total_by(branch_sums(s, k, rest, (n - 1) as nat), f) + (k - 1) * total_by(
            branch_sums(s + x, (k - 1) as nat, rest, (n - 1) as nat),
            f,
        ),
    decreases k, n,
{
    let pool = seq![x] + rest;
    let km = (k - 1) as nat;
    if n == 1 {
        assert(pool.remove(0) =~= rest);
        lemma_total_concat(branch_sums(s, k, pool, 0), sums_with(s + x, km, rest), f);
        assert(branch_sums(s + x, km, rest, 0) =~= Seq::<int>::empty());
    } else {
        let m = (n - 1) as nat;
        let j = (n - 2) as nat;
        let r = rest[n - 2];
        let rest_j = rest.remove(n - 2);
        lemma_branch_split(f, s, k, x, rest, m);
        assert(pool[n - 1] == r);
        assert(pool.remove(n - 1) =~= seq![x] + rest_j);
        lemma_total_concat(branch_sums(s, k, pool, m), sums_with(s + r, km, seq![x] + rest_j), f);
        lemma_total_concat(branch_sums(s, k, rest, j), sums_with(s + r, km, rest_j), f);
        let a = total_by(branch_sums(s + x, km, rest, j), f);
        if km >= 1 {
            lemma_perm_split(f, s + r, km, x, rest_j);
            assert(s + r + x == s + x + r);
            lemma_total_concat(
                branch_sums(s + x, km, rest, j),
                sums_with(s + x + r, (km - 1) as nat, rest_j),
                f,
            );
            let b = total_by(sums_with(s + x + r, (km - 1) as nat, rest_j), f);
            assert(total_by(branch_sums(s + x, km, rest, m), f) == a + b);
            assert(km * (a + b) == km * a + km * b) by (nonlinear_arith);
        } else {
            assert(branch_sums(s + x, km, rest, m) =~= Seq::<int>::empty());
            assert(branch_sums(s + x, km, rest, j) =~= Seq::<int>::empty());
            assert(sums_with(s + r, km, seq![x] + rest_j) == sums_with(s + r, km, rest_j));
        }
    }
}

/// Splitting the ordered completions on whether they use the first pool entry:
/// those that do are `k` times the ones that complete the rest after it.
proof fn lemma_perm_split(f: spec_fn(int) -> int, s: int, k: nat, x: u8, rest: Seq<u8>)
    requires
        k >= 1,
    ensures
        total_by(sums_with(s, k, seq![x] + rest), f) == total_by(sums_with(s, k, rest), f) + k
            * total_by(sums_with(s + x, (k - 1) as nat, rest), f),
    decreases k, rest.len() + 2,
{
    let km = (k - 1) as nat;
    let pool = seq![x] + rest;
    lemma_branch_split(f, s, k, x, rest, (rest.len() + 1) as nat);
    assert(sums_with(s, k, pool) == branch_sums(s, k, pool, pool.len() as nat));
    assert(sums_with(s, k, rest) == branch_sums(s, k, rest, rest.len() as nat));
    let c = total_by(sums_with(s + x, km, rest), f);
    if km >= 1 {
        assert(branch_sums(s + x, km, rest, rest.len() as nat) == sums_with(s + x, km, rest));
    } else {
        assert(branch_sums(s + x, km, rest, rest.len() as nat) =~= Seq::<int>::empty());
    }
    assert(c + (k - 1) * c == k * c) by (nonlinear_arith);
}

proof fn lemma_perm_comb_total(f: spec_fn(int) -> int, s: int, k: nat, pool: Seq<u8>)
    ensures
        total_by(sums_with(s, k, pool), f) == factorial(k) * total_by(combination_sums(s, k, pool), f),
    decreases pool.len(),
{
    if k == 0 {
        let one = seq![s];
        assert(sums_with(s, k, pool) == one);
        assert(combination_sums(s, k, pool) == one);
        assert(one.drop_last() =~= Seq::<int>::empty());
        assert(total_by(Seq::<int>::empty(), f) == 0);
        assert(one.last() == s);
        assert(total_by(one, f) == f(s));
        assert(factorial(k) == 1);
        assert(factorial(k) * total_by(combination_sums(s, k, pool), f) == f(s));
        assert(total_by(combination_sums(s, k, pool), f) == f(s));
    } else if pool.len() == 0 {
        assert(branch_sums(s, k, pool, 0) =~= Seq::<int>::empty());
        assert(combination_sums(s, k, pool) =~= Seq::<int>::empty());
        assert(total_by(sums_with(s, k, pool), f) == 0);
        assert(total_by(combination_sums(s, k, pool), f) == 0);
        assert(factorial(k) * 0 == 0) by (nonlinear_arith);
    } else {
        let x = pool[0];
        let rest = pool.drop_first();
        let km = (k - 1) as nat;
        assert(pool =~= seq![x] + rest);
        lemma_perm_split(f, s, k, x, rest);
        lemma_perm_comb_total(f, s, k, rest);
        lemma_perm_comb_total(f, s + x, km, rest);
        lemma_total_concat(combination_sums(s + x, km, rest), combination_sums(s, k, rest), f);
        let a = total_by(combination_sums(s, k, rest), f);
        let b = total_by(combination_sums(s + x, km, rest), f);
        let fk = factorial(km) as int;
        assert(factorial(k) == k * fk);
        assert(k * (fk * b) == (k * fk) * b) by (nonlinear_arith);
        assert((k * fk) * a + (k * fk) * b == (k * fk) * (b + a)) by (nonlinear_arith);
        assert(combination_sums(s, k, pool) == combination_sums(s + x, km, rest) + combination_sums(s, k, rest));
        assert(total_by(sums_with(s, k, pool), f) == factorial(k) * a + k * (fk * b));
        assert(total_by(combination_sums(s, k, pool), f) == b + a);
        assert(total_by(sums_with(s, k, pool), f) == factorial(k) * (b + a));
    }
}

/// Enumerating ordered completions does not bias any average: each combination
/// of pool entries stands `k!` times among the ordered completions, so for every
/// function of the completion sum (the sum itself, or the reward for it) the mean
/// over ordered completions equals the mean over combinations, exactly and also
/// when rounded down.
pub proof fn lemma_permutation_mean(f: spec_fn(int) -> int, s: int, k: nat, pool: Seq<u8>)
    ensures
        sums_with(s, k, pool).len() == factorial(k) * combination_sums(s, k, pool).len(),
        total_by(sums_with(s, k, pool), f) == factorial(k) * total_by(combination_sums(s, k, pool), f),
        total_by(sums_with(s, k, pool), f) * combination_sums(s, k, pool).len() == total_by(
            combination_sums(s, k, pool),
            f,
        ) * sums_with(s, k, pool).len(),
        combination_sums(s, k, pool).len() > 0 ==> total_by(sums_with(s, k, pool), f) / (sums_with(
            s,
            k,
            pool,
        ).len() as int) == total_by(combination_sums(s, k, pool), f) / (combination_sums(
            s,
            k,
            pool,
        ).len() as int),
{
    let ones = |x: int| 1int;
    lemma_perm_comb_total(f, s, k, pool);
    lemma_perm_comb_total(ones, s, k, pool);
    lemma_total_ones(sums_with(s, k, pool));
    lemma_total_ones(combination_sums(s, k, pool));
    lemma_factorial_positive(k);
    let c = factorial(k) as int;
    let a = total_by(combination_sums(s, k, pool), f);
    let b = combination_sums(s, k, pool).len() as int;
    assert((c * a) * b == a * (c * b)) by (nonlinear_arith);
    if b > 0 {
        let q = a / b;
        let r = a % b;
        assert(a == q * b + r && 0 <= r < b) by (nonlinear_arith)
            requires
                b > 0,
                q == a / b,
                r == a % b,
        ;
        assert(c * a == q * (c * b) + c * r && 0 <= c * r < c * b) by (nonlinear_arith)
            requires
                a == q * b + r,
                0 <= r < b,
                c > 0,
        ;
        lemma_fundamental_div_mod_converse(c * a, c * b, q, c * r);
    }
}

proof fn lemma_factorial_positive(k: nat)
    ensures
        factorial(k) >= 1,
    decreases k,
{
    if k > 0 {
        lemma_factorial_positive((k - 1) as nat);
        assert(k * factorial((k - 1) as nat) >= 1) by (nonlinear_arith)
            requires
                k >= 1,
                factorial((k - 1) as nat) >= 1,
        ;
    }
}

/// `known` with `d` appended.
fn extended(known: &Vec<u8>, d: u8) -> (r: Vec<u8>)
    ensures
        r@ == known@.push(d),
{
    let mut r: Vec<u8> = Vec::new();
    let mut i: usize = 0;
    while i < known.len()
        invariant
            i <= known.len(),
            r@ == known@.subrange(0, i as int),
        decreases known.len() - i,
    {
        r.push(known[i]);
        i = i + 1;
    }
    proof {
        assert(known@.subrange(0, known.len() as int) =~= known@);
    }
    r.push(d);
    r
}

/// `pool` without its entry at `skip`.
fn without(pool: &Vec<u8>, skip: usize) -> (r: Vec<u8>)
    requires
        skip < pool.len(),
    ensures
        r@ == pool@.remove(skip as int),
{
    let mut r: Vec<u8> = Vec::new();
    let mut i: usize = 0;
    while i < pool.len()
        invariant
            skip < pool.len(),
            i <= pool.len(),
            i <= skip ==> r@ == pool@.subrange(0, i as int),
            i > skip ==> r@ == pool@.subrange(0, skip as int) + pool@.subrange(skip + 1, i as int),
        decreases pool.len() - i,
    {
        if i != skip {
            r.push(pool[i]);
        }
        proof {
            if i + 1 <= skip {
                assert(r@ =~= pool@.subrange(0, i + 1));
            } else {
                assert(r@ =~= pool@.subrange(0, skip as int) + pool@.subrange(skip + 1, i + 1));
            }
        }
        i = i + 1;
    }
    proof {
        assert(r@ =~= pool@.remove(skip as int));
    }
    r
}

/// Sum of the digits in `used`.
fn digit_sum(used: &Vec<u8>) -> (r: i32)
    requires
        used.len() <= 3,
    ensures
        r == digit_total(used@),
{
    let mut t: i32 = 0;
    let mut i: usize = 0;
    while i < used.len()
        invariant
            used.len() <= 3,
            i <= used.len(),
            t == digit_total(used@.subrange(0, i as int)),
            0 <= t <= 255 * i,
        decreases used.len() - i,
    {
        proof {
            assert(used@.subrange(0, i + 1).drop_last() =~= used@.subrange(0, i as int));
        }
        t = t + used[i] as i32;
        i = i + 1;
    }
    proof {
        assert(used@.subrange(0, used.len() as int) =~= used@);
    }
    t
}

/// Every way to fill a line up to three digits: `used` holds the line's known
/// digits, `unused_digits` the pool to draw from without repetition. Each
/// ordering of the drawn digits counts as its own completion; only the sums are
/// kept, in pool order of the first pick, then the second, then the third. A
/// line with three known digits yields its sum alone and never reads the pool.
pub fn calculate_candidate_sums(used: Vec<u8>, unused_digits: Vec<u8>) -> (r: Vec<i32>)
    requires
        used.len() <= 3,
    ensures
        r@.map_values(|v: i32| v as int) == completion_sums(used@, unused_digits@),
        used.len() == 3 ==> r@ == seq![digit_total(used@) as i32],
    decreases 3 - used.len(),
{
    if used.len() == 3 {
        let s = digit_sum(&used);
        let r = vec![s];
        proof {
            assert(r@.map_values(|v: i32| v as int) =~= seq![digit_total(used@)]);
        }
        return r;
    }
    let ghost s = digit_total(used@);
    let ghost k = (3 - used.len()) as nat;
    let mut r: Vec<i32> = Vec::new();
    let mut i: usize = 0;
    while i < unused_digits.len()
        invariant
            used.len() < 3,
            s == digit_total(used@),
            k == 3 - used.len(),
            i <= unused_digits.len(),
            r@.map_values(|v: i32| v as int) == branch_sums(s, k, unused_digits@, i as nat),
        decreases unused_digits.len() - i,
    {
        let d = unused_digits[i];
        let u = extended(&used, d);
        let rest = without(&unused_digits, i);
        let mut sub = calculate_candidate_sums(u, rest);
        proof {
            assert(u@.drop_last() =~= used@);
        }
        let ghost before = r@;
        let ghost added = sub@;
        r.append(&mut sub);
        proof {
            assert(r@.map_values(|v: i32| v as int) =~= before.map_values(|v: i32| v as int)
                + added.map_values(|v: i32| v as int));
        }
        i = i + 1;
    }
    r
}

} // verus!
