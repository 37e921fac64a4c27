use vstd::prelude::*;

verus! {

/// Mathematical factorial.
pub open spec fn fact(n: nat) -> nat
    decreases n,
{
    if n == 0 {
        1
    } else {
        n * fact((n - 1) as nat)
    }
}

/// Mathematical power.
pub open spec fn pow(b: nat, e: nat) -> nat
    decreases e,
{
    if e == 0 {
        1
    } else {
        b * pow(b, (e - 1) as nat)
    }
}

/// Binomial coefficient, by Pascal's recurrence.
pub open spec fn binom(n: nat, k: nat) -> nat
    decreases n,
{
    if k == 0 {
        1
    } else if k > n {
        0
    } else {
        binom((n - 1) as nat, (k - 1) as nat) + binom((n - 1) as nat, k)
    }
}

/// `fact` never decreases as its argument grows.
pub proof fn lemma_fact_monotone(a: nat, b: nat)
    requires
        a <= b,
    ensures
        fact(a) <= fact(b),
    decreases b,
{
    if a < b {
        lemma_fact_monotone(a, (b - 1) as nat);
        assert(fact(b) == b * fact((b - 1) as nat));
        assert(fact((b - 1) as nat) <= b * fact((b - 1) as nat)) by (nonlinear_arith)
            requires b >= 1, fact((b - 1) as nat) >= 0;
    }
}

pub proof fn lemma_fact_12()
    ensures
        fact(12) == 479001600,
{
    reveal_with_fuel(fact, 13);
    assert(fact(6) == 720);
    assert(fact(12) == 479001600);
}

/// `pow` is positive for a positive base.
pub proof fn lemma_pow_positive(b: nat, e: nat)
    requires
        b >= 1,
    ensures
        pow(b, e) >= 1,
    decreases e,
{
    if e > 0 {
        lemma_pow_positive(b, (e - 1) as nat);
        assert(b * pow(b, (e - 1) as nat) >= pow(b, (e - 1) as nat)) by (nonlinear_arith)
            requires b >= 1, pow(b, (e - 1) as nat) >= 0;
    }
}

/// With a base of at least one, `pow` never decreases as the exponent grows.
pub proof fn lemma_pow_monotone(b: nat, i: nat, j: nat)
    requires
        b >= 1,
        i <= j,
    ensures
        pow(b, i) <= pow(b, j),
    decreases j,
{
    if i < j {
        lemma_pow_monotone(b, i, (j - 1) as nat);
        assert(pow(b, (j - 1) as nat) <= b * pow(b, (j - 1) as nat)) by (nonlinear_arith)
            requires b >= 1, pow(b, (j - 1) as nat) >= 0;
    }
}

/// A power of zero is zero.
pub proof fn lemma_pow_zero_base(e: nat)
    requires
        e >= 1,
    ensures
        pow(0, e) == 0,
    decreases e,
{
    if e > 1 {
        lemma_pow_zero_base((e - 1) as nat);
    }
}

/// Every entry of Pascal's triangle is bounded by the corresponding power of two.
pub proof fn lemma_binom_le_pow2(n: nat, k: nat)
    ensures
        binom(n, k) <= pow(2, n),
    decreases n,
{
    if k == 0 {
        lemma_pow_positive(2, n);
    } else if k > n {
        lemma_pow_positive(2, n);
    } else {
        lemma_binom_le_pow2((n - 1) as nat, (k - 1) as nat);
        lemma_binom_le_pow2((n - 1) as nat, k);
        assert(pow(2, n) == 2 * pow(2, (n - 1) as nat));
    }
}

/// Choosing everything leaves exactly one way.
pub proof fn lemma_binom_diag(n: nat)
    ensures
        binom(n, n) == 1,
    decreases n,
{
    if n > 0 {
        lemma_binom_diag((n - 1) as nat);
        lemma_binom_over((n - 1) as nat, n);
    }
}

/// Choosing from fewer elements than asked for leaves nothing.
pub proof fn lemma_binom_over(n: nat, k: nat)
    requires
        k > n,
    ensures
        binom(n, k) == 0,
{
}

/// The factorial of `x`, exact for every size this library's coordinate
/// spaces use; the bound keeps the product inside a 32-bit word, so the
/// result fits `usize` on every machine.
pub fn factorial(x: usize) -> (r: usize)
    requires
        x <= 12,
    ensures
        r == fact(x as nat),
{
    let mut t: usize = 1;
    let mut i: usize = 0;
    while i < x
        invariant
            i <= x <= 12,
            t == fact(i as nat),
        decreases x - i,
    {
        proof {
            lemma_fact_12();
            lemma_fact_monotone((i + 1) as nat, 12);
            assert(fact((i + 1) as nat) == (i + 1) * fact(i as nat));
        }
        i = i + 1;
        t = t * i;
    }
    t
}

/// `base` raised to `exponent`, by repeated multiplication. As in the rest
/// of this library an exponent below one is not meaningful, and the result
/// must fit a 32-bit word so that it fits `usize` on every machine.
pub fn power(base: u8, exponent: usize) -> (r: usize)
    requires
        exponent >= 1,
        pow(base as nat, exponent as nat) <= 0xffff_ffff,
    ensures
        r == pow(base as nat, exponent as nat),
{
    let mut t: usize = base as usize;
    let mut j: usize = 1;
    proof {
        reveal_with_fuel(pow, 2);
    }
    while j < exponent
        invariant
            1 <= j <= exponent,
            pow(base as nat, exponent as nat) <= 0xffff_ffff,
            t == pow(base as nat, j as nat),
        decreases exponent - j,
    {
        proof {
            assert(pow(base as nat, (j + 1) as nat) == base * pow(base as nat, j as nat));
            assert(t * base == base * pow(base as nat, j as nat)) by (nonlinear_arith)
                requires t == pow(base as nat, j as nat);
            if base >= 1 {
                lemma_pow_monotone(base as nat, (j + 1) as nat, exponent as nat);
            } else {
                lemma_pow_zero_base(j as nat);
                lemma_pow_zero_base((j + 1) as nat);
            }
        }
        t = t * base as usize;
        j = j + 1;
    }
    t
}

/// The binomial coefficient `n` choose `k`, by walking Pascal's triangle.
/// The bound on `n` keeps every row entry below a 32-bit word.
pub fn binomial(n: usize, k: usize) -> (r: usize)
    requires
        n <= 31,
    ensures
        r == binom(n as nat, k as nat),
{
    if k > n {
        return 0;
    }
    let mut row: Vec<usize> = Vec::new();
    row.push(1);
    let mut i: usize = 0;
    while i < n
        invariant
            i <= n <= 31,
            row.len() == i + 1,
            forall|j: int| 0 <= j <= i ==> row[j] == binom(i as nat, j as nat),
        decreases n - i,
    {
        let mut next: Vec<usize> = Vec::new();
        next.push(1);
        let mut j: usize = 1;
        while j <= i
            invariant
                1 <= j <= i + 1,
                i < n <= 31,
                row.len() == i + 1,
                forall|l: int| 0 <= l <= i ==> row[l] == binom(i as nat, l as nat),
                next.len() == j,
                forall|l: int| 0 <= l < j ==> next[l] == binom((i + 1) as nat, l as nat),
            decreases i + 1 - j,
        {
            proof {
                lemma_binom_le_pow2((i + 1) as nat, j as nat);
                lemma_pow_monotone(2, (i + 1) as nat, 32);
                reveal_with_fuel(pow, 33);
            }
            let e = row[j - 1] + row[j];
            next.push(e);
            j = j + 1;
        }
        proof {
            lemma_binom_over(i as nat, (i + 1) as nat);
            lemma_binom_diag(i as nat);
            assert(binom((i + 1) as nat, (i + 1) as nat) == 1);
        }
        next.push(1);
        row = next;
        i = i + 1;
    }
    row[k]
}

/// The sequence `0, 1, ..., n - 1`.
pub fn count(n: usize) -> (r: Vec<usize>)
    ensures
        r.len() == n,
        forall|i: int| 0 <= i < n ==> r[i] == i,
{
    let mut xs: Vec<usize> = Vec::new();
    let mut i: usize = 0;
    while i < n
        invariant
            i <= n,
            xs.len() == i,
            forall|j: int| 0 <= j < i ==> xs[j] == j,
        decreases n - i,
    {
        xs.push(i);
        i = i + 1;
    }
    xs
}

} // verus!

verus! {

/// The factorials of the two smallest sizes.
pub proof fn lemma_fact_small()
    ensures
        fact(0) == 1,
        fact(1) == 1,
{
    reveal_with_fuel(fact, 2);
}

} // verus!
