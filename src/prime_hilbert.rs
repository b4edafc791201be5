//! Sparse term-frequency vectors over prime term ids, kept as exact integer
//! counts over a common scale so that every weight is the rational
//! `count / scale`.
use vstd::prelude::*;

verus! {

/// An exact non-negative rational `num / den`; a zero denominator stands for 0.
#[derive(Clone, Copy, Debug, PartialEq, Eq, Structural)]
pub struct Fraction {
    pub num: u128,
    pub den: u128,
}

/// A sparse vector: `(term, count)` entries with strictly increasing terms and
/// positive counts. The weight of `term` is `count / total`.
#[derive(Clone, Debug)]
pub struct PrimeVector {
    pub entries: Vec<(u64, u64)>,
    pub total: usize,
}

/// The dual (biorthogonal) pair of a token sequence.
#[derive(Clone, Debug)]
pub struct BiorthogonalVector {
    pub left: PrimeVector,
    pub right: PrimeVector,
}

/// Terms strictly increasing along the entries.
pub open spec fn sorted_terms(e: Seq<(u64, u64)>) -> bool {
    forall|i: int, j: int| 0 <= i < j < e.len() ==> e[i].0 < e[j].0
}

/// Every entry carries a positive count.
pub open spec fn positive_counts(e: Seq<(u64, u64)>) -> bool {
    forall|i: int| 0 <= i < e.len() ==> e[i].1 > 0
}

/// The count recorded for `t` (0 when `t` has no entry).
pub open spec fn count_in(e: Seq<(u64, u64)>, t: u64) -> nat
    decreases e.len(),
{
    if e.len() == 0 {
        0
    } else {
        (if e[0].0 == t { e[0].1 as nat } else { 0 }) + count_in(e.skip(1), t)
    }
}

/// The sum of all counts.
pub open spec fn mass(e: Seq<(u64, u64)>) -> nat
    decreases e.len(),
{
    if e.len() == 0 {
        0
    } else {
        e[0].1 as nat + mass(e.skip(1))
    }
}

/// The sum of the squared counts.
pub open spec fn square_mass(e: Seq<(u64, u64)>) -> nat
    decreases e.len(),
{
    if e.len() == 0 {
        0
    } else {
        (e[0].1 as nat) * (e[0].1 as nat) + square_mass(e.skip(1))
    }
}

/// The sum, over the terms present in both sorted entry lists, of the
/// product of their counts.
pub open spec fn shared(a: Seq<(u64, u64)>, b: Seq<(u64, u64)>) -> nat
    decreases a.len() + b.len(),
{
    if a.len() == 0 || b.len() == 0 {
        0
    } else if a[0].0 == b[0].0 {
        (a[0].1 as nat) * (b[0].1 as nat) + shared(a.skip(1), b.skip(1))
    } else if a[0].0 < b[0].0 {
        shared(a.skip(1), b)
    } else {
        shared(a, b.skip(1))
    }
}

/// How many times `t` occurs in `s`.
pub open spec fn occurrences(s: Seq<u64>, t: u64) -> nat
    decreases s.len(),
{
    if s.len() == 0 {
        0
    } else {
        occurrences(s.drop_last(), t) + (if s.last() == t { 1nat } else { 0nat })
    }
}

/// No term has an entry in both lists.
pub open spec fn disjoint_terms(a: Seq<(u64, u64)>, b: Seq<(u64, u64)>) -> bool {
    forall|i: int, j: int| 0 <= i < a.len() && 0 <= j < b.len() ==> a[i].0 != b[j].0
}

impl PrimeVector {
    pub open spec fn wf(&self) -> bool {
        &&& sorted_terms(self.entries@)
        &&& positive_counts(self.entries@)
        &&& mass(self.entries@) <= self.total
    }

    /// The count behind the weight of `t`.
    pub open spec fn count(&self, t: u64) -> nat {
        count_in(self.entries@, t)
    }
}

impl BiorthogonalVector {
    pub open spec fn wf(&self) -> bool {
        &&& self.left.wf()
        &&& self.right.wf()
        &&& self.left.total == self.right.total
        &&& mass(self.left.entries@) * 2 <= self.left.total
        &&& mass(self.right.entries@) * 2 <= self.right.total
    }
}

proof fn lemma_count_update(e: Seq<(u64, u64)>, p: int, v: (u64, u64), x: u64)
    requires
        0 <= p < e.len(),
    ensures
        count_in(e.update(p, v), x) + (if e[p].0 == x { e[p].1 as nat } else { 0 })
            == count_in(e, x) + (if v.0 == x { v.1 as nat } else { 0 }),
        mass(e.update(p, v)) + e[p].1 as nat == mass(e) + v.1 as nat,
    decreases e.len(),
{
    if p > 0 {
        lemma_count_update(e.skip(1), p - 1, v, x);
        assert(e.update(p, v).skip(1) =~= e.skip(1).update(p - 1, v));
    } else {
        assert(e.update(p, v).skip(1) =~= e.skip(1));
    }
}

proof fn lemma_count_insert(e: Seq<(u64, u64)>, p: int, v: (u64, u64), x: u64)
    requires
        0 <= p <= e.len(),
    ensures
        count_in(e.insert(p, v), x) == count_in(e, x) + (if v.0 == x { v.1 as nat } else { 0 }),
        mass(e.insert(p, v)) == mass(e) + v.1 as nat,
    decreases e.len(),
{
    if p > 0 {
        lemma_count_insert(e.skip(1), p - 1, v, x);
        assert(e.insert(p, v).skip(1) =~= e.skip(1).insert(p - 1, v));
    } else {
        assert(e.insert(p, v).skip(1) =~= e);
    }
}

proof fn lemma_count_push(e: Seq<(u64, u64)>, v: (u64, u64), x: u64)
    ensures
        count_in(e.push(v), x) == count_in(e, x) + (if v.0 == x { v.1 as nat } else { 0 }),
{
    lemma_count_insert(e, e.len() as int, v, x);
    assert(e.insert(e.len() as int, v) =~= e.push(v));
}

proof fn lemma_count_absent(e: Seq<(u64, u64)>, x: u64)
    requires
        forall|i: int| 0 <= i < e.len() ==> e[i].0 != x,
    ensures
        count_in(e, x) == 0,
    decreases e.len(),
{
    if e.len() > 0 {
        lemma_count_absent(e.skip(1), x);
    }
}

/// In a sorted list the count of a present term is its entry's count.
pub proof fn lemma_count_at(e: Seq<(u64, u64)>, i: int)
    requires
        sorted_terms(e),
        0 <= i < e.len(),
    ensures
        count_in(e, e[i].0) == e[i].1,
    decreases e.len(),
{
    if i > 0 {
        lemma_count_at(e.skip(1), i - 1);
    } else {
        lemma_count_absent(e.skip(1), e[0].0);
    }
}

proof fn lemma_shared_bound(a: Seq<(u64, u64)>, b: Seq<(u64, u64)>)
    ensures
        shared(a, b) <= mass(a) * mass(b),
    decreases a.len() + b.len(),
{
    if a.len() == 0 || b.len() == 0 {
    } else if a[0].0 == b[0].0 {
        lemma_shared_bound(a.skip(1), b.skip(1));
        let (x, y, ma, mb) = (a[0].1 as nat, b[0].1 as nat, mass(a.skip(1)), mass(b.skip(1)));
        assert((x + ma) * (y + mb) == x * y + x * mb + ma * y + ma * mb) by (nonlinear_arith);
        assert(x * mb >= 0 && ma * y >= 0) by (nonlinear_arith);
    } else if a[0].0 < b[0].0 {
        lemma_shared_bound(a.skip(1), b);
        let (x, ma, mb) = (a[0].1 as nat, mass(a.skip(1)), mass(b));
        assert((x + ma) * mb == x * mb + ma * mb) by (nonlinear_arith);
        assert(x * mb >= 0) by (nonlinear_arith);
    } else {
        lemma_shared_bound(a, b.skip(1));
        let (y, ma, mb) = (b[0].1 as nat, mass(a), mass(b.skip(1)));
        assert(ma * (y + mb) == ma * y + ma * mb) by (nonlinear_arith);
        assert(ma * y >= 0) by (nonlinear_arith);
    }
}

proof fn lemma_mul_le(a: nat, b: nat, c: nat, d: nat)
    requires
        a <= c,
        b <= d,
    ensures
        a * b <= c * d,
{
    assert(a * b <= c * b) by (nonlinear_arith)
        requires
            a <= c,
    ;
    assert(c * b <= c * d) by (nonlinear_arith)
        requires
            b <= d,
    ;
}

/// Builds the term-frequency vector of a token sequence: the count of each
/// term is its number of occurrences, over the token count.
pub fn build_vector(tokens: &[u64]) -> (v: PrimeVector)
    ensures
        v.wf(),
        v.total == tokens@.len(),
        mass(v.entries@) == tokens@.len(),
        forall|t: u64| #[trigger] v.count(t) == occurrences(tokens@, t),
{
    let mut entries: Vec<(u64, u64)> = Vec::new();
    let mut k: usize = 0;
    while k < tokens.len()
        invariant
            k <= tokens@.len(),
            sorted_terms(entries@),
            positive_counts(entries@),
            mass(entries@) == k,
            forall|t: u64| #[trigger]
                count_in(entries@, t) == occurrences(tokens@.subrange(0, k as int), t),
        decreases tokens@.len() - k,
    {
        let t = tokens[k];
        let ghost before = entries@;
        let mut p: usize = 0;
        while p < entries.len() && entries[p].0 < t
            invariant
                p <= entries@.len(),
                entries@ == before,
                forall|i: int| 0 <= i < p ==> entries@[i].0 < t,
            decreases entries@.len() - p,
        {
            p = p + 1;
        }
        proof {
            let s = tokens@.subrange(0, k as int + 1);
            assert(s.drop_last() =~= tokens@.subrange(0, k as int));
            assert(s.last() == t);
        }
        if p < entries.len() && entries[p].0 == t {
            let c = entries[p].1;
            proof {
                lemma_count_at(before, p as int);
                assert(c as nat <= mass(before)) by {
                    lemma_count_update(before, p as int, (t, 0u64), t);
                }
            }
            entries.set(p, (t, c + 1));
            proof {
                assert forall|x: u64| #[trigger]
                    count_in(entries@, x) == occurrences(tokens@.subrange(0, k as int + 1), x) by {
                    lemma_count_update(before, p as int, (t, (c + 1) as u64), x);
                }
                lemma_count_update(before, p as int, (t, (c + 1) as u64), t);
            }
        } else {
            entries.insert(p, (t, 1));
            proof {
                assert forall|x: u64| #[trigger]
                    count_in(entries@, x) == occurrences(tokens@.subrange(0, k as int + 1), x) by {
                    lemma_count_insert(before, p as int, (t, 1u64), x);
                }
                lemma_count_insert(before, p as int, (t, 1u64), t);
                assert forall|i: int, j: int| 0 <= i < j < entries@.len() implies
                    entries@[i].0 < entries@[j].0 by {
                    if j < p {
                    } else if j == p {
                    } else if i < p {
                    } else if i == p {
                    } else {
                    }
                }
            }
        }
        k = k + 1;
    }
    proof {
        assert(tokens@.subrange(0, tokens@.len() as int) =~= tokens@);
    }
    PrimeVector { entries, total: tokens.len() }
}


/// The numerator of the exact dot product: the shared count products.
pub open spec fn dot_num(a: PrimeVector, b: PrimeVector) -> nat {
    shared(a.entries@, b.entries@)
}

/// The denominator of the exact dot product: the product of the scales.
pub open spec fn dot_den(a: PrimeVector, b: PrimeVector) -> nat {
    (a.total * b.total) as nat
}

/// Sum of products of weights over the terms both vectors hold.
pub fn dot_product(vec1: &PrimeVector, vec2: &PrimeVector) -> (r: Fraction)
    requires
        vec1.wf(),
        vec2.wf(),
    ensures
        r.num == shared(vec1.entries@, vec2.entries@),
        r.den == vec1.total * vec2.total,
        r.num <= r.den,
{
    let a = &vec1.entries;
    let b = &vec2.entries;
    proof {
        lemma_shared_bound(a@, b@);
        lemma_mul_le(mass(a@), mass(b@), vec1.total as nat, vec2.total as nat);
        assert((vec1.total as nat) * (vec2.total as nat) <= u64::MAX as nat * u64::MAX as nat)
            by (nonlinear_arith)
            requires
                vec1.total <= u64::MAX,
                vec2.total <= u64::MAX,
        ;
        assert(18446744073709551615nat * 18446744073709551615nat <= 340282366920938463463374607431768211455nat);
    }
    let mut i: usize = 0;
    let mut j: usize = 0;
    let mut sum: u128 = 0;
    assert(a@.skip(0) =~= a@ && b@.skip(0) =~= b@);
    while i < a.len() && j < b.len()
        invariant
            i <= a@.len(),
            j <= b@.len(),
            sum + shared(a@.skip(i as int), b@.skip(j as int)) == shared(a@, b@),
            shared(a@, b@) <= (vec1.total as nat) * (vec2.total as nat),
            (vec1.total as nat) * (vec2.total as nat) <= u128::MAX,
        decreases a@.len() + b@.len() - i - j,
    {
        let ghost sa = a@.skip(i as int);
        let ghost sb = b@.skip(j as int);
        assert(sa.skip(1) =~= a@.skip(i as int + 1));
        assert(sb.skip(1) =~= b@.skip(j as int + 1));
        let (ta, ca) = a[i];
        let (tb, cb) = b[j];
        if ta == tb {
            assert((ca as nat) * (cb as nat) <= u64::MAX as nat * u64::MAX as nat) by (nonlinear_arith)
                requires
                    ca <= u64::MAX,
                    cb <= u64::MAX,
            ;
            assert(18446744073709551615nat * 18446744073709551615nat <= 340282366920938463463374607431768211455nat);
            sum = sum + (ca as u128) * (cb as u128);
            i = i + 1;
            j = j + 1;
        } else if ta < tb {
            i = i + 1;
        } else {
            j = j + 1;
        }
    }
    proof {
        if i == a@.len() {
            assert(a@.skip(i as int).len() == 0);
        } else {
            assert(b@.skip(j as int).len() == 0);
        }
    }
    Fraction { num: sum, den: (vec1.total as u128) * (vec2.total as u128) }
}

/// The dot product is symmetric.
pub proof fn lemma_dot_symmetric(a: PrimeVector, b: PrimeVector)
    ensures
        dot_num(a, b) == dot_num(b, a),
        dot_den(a, b) == dot_den(b, a),
{
    lemma_shared_symmetric(a.entries@, b.entries@);
    assert(a.total * b.total == b.total * a.total) by (nonlinear_arith);
}

proof fn lemma_shared_symmetric(a: Seq<(u64, u64)>, b: Seq<(u64, u64)>)
    ensures
        shared(a, b) == shared(b, a),
    decreases a.len() + b.len(),
{
    if a.len() == 0 || b.len() == 0 {
    } else if a[0].0 == b[0].0 {
        lemma_shared_symmetric(a.skip(1), b.skip(1));
        assert((a[0].1 as nat) * (b[0].1 as nat) == (b[0].1 as nat) * (a[0].1 as nat))
            by (nonlinear_arith);
    } else if a[0].0 < b[0].0 {
        lemma_shared_symmetric(a.skip(1), b);
    } else {
        lemma_shared_symmetric(a, b.skip(1));
    }
}

/// The dot product of a vector with itself is the sum of its squared
/// weights: the squared counts over the squared scale.
pub proof fn lemma_dot_self(v: PrimeVector)
    ensures
        dot_num(v, v) == square_mass(v.entries@),
        dot_den(v, v) == v.total * v.total,
{
    lemma_shared_self(v.entries@);
}

proof fn lemma_shared_self(a: Seq<(u64, u64)>)
    ensures
        shared(a, a) == square_mass(a),
    decreases a.len(),
{
    if a.len() > 0 {
        lemma_shared_self(a.skip(1));
    }
}

/// Vectors with no term in common have a zero dot product.
pub proof fn lemma_dot_disjoint(a: PrimeVector, b: PrimeVector)
    requires
        disjoint_terms(a.entries@, b.entries@),
    ensures
        dot_num(a, b) == 0,
{
    lemma_shared_disjoint(a.entries@, b.entries@);
}

proof fn lemma_shared_disjoint(a: Seq<(u64, u64)>, b: Seq<(u64, u64)>)
    requires
        disjoint_terms(a, b),
    ensures
        shared(a, b) == 0,
    decreases a.len() + b.len(),
{
    if a.len() == 0 || b.len() == 0 {
    } else {
        assert(a[0].0 != b[0].0);
        if a[0].0 < b[0].0 {
            assert(disjoint_terms(a.skip(1), b));
            lemma_shared_disjoint(a.skip(1), b);
        } else {
            assert(disjoint_terms(a, b.skip(1)));
            lemma_shared_disjoint(a, b.skip(1));
        }
    }
}

/// Builds the dual pair of a token sequence: each occurrence puts half a
/// unit of mass on both halves, normalised by the token count, so each half
/// weighs a term at `count / (2 * len)`.
pub fn build_biorthogonal_vector(primes: &[u64]) -> (r: BiorthogonalVector)
    requires
        primes@.len() * 2 <= usize::MAX,
    ensures
        r.wf(),
        r.left.total == 2 * primes@.len(),
        r.right.total == 2 * primes@.len(),
        forall|t: u64| #[trigger] r.left.count(t) == occurrences(primes@, t),
        forall|t: u64| #[trigger] r.right.count(t) == occurrences(primes@, t),
{
    let lv = build_vector(primes);
    let rv = build_vector(primes);
    let scale = 2 * primes.len();
    let r = BiorthogonalVector {
        left: PrimeVector { entries: lv.entries, total: scale },
        right: PrimeVector { entries: rv.entries, total: scale },
    };
    assert forall|t: u64| #[trigger] r.left.count(t) == occurrences(primes@, t) by {
        assert(lv.count(t) == occurrences(primes@, t));
    }
    assert forall|t: u64| #[trigger] r.right.count(t) == occurrences(primes@, t) by {
        assert(rv.count(t) == occurrences(primes@, t));
    }
    r
}

/// The dual score: the dot products of the two halves, added.
pub fn biorthogonal_score(query_bio: &BiorthogonalVector, doc_bio: &BiorthogonalVector) -> (r:
    Fraction)
    requires
        query_bio.wf(),
        doc_bio.wf(),
    ensures
        r.num == dot_num(query_bio.left, doc_bio.left) + dot_num(query_bio.right, doc_bio.right),
        r.den == dot_den(query_bio.left, doc_bio.left),
        r.den == dot_den(query_bio.right, doc_bio.right),
        r.num <= r.den,
{
    let l = dot_product(&query_bio.left, &doc_bio.left);
    let r = dot_product(&query_bio.right, &doc_bio.right);
    proof {
        let (ql, dl, qr, dr) = (query_bio.left, doc_bio.left, query_bio.right, doc_bio.right);
        lemma_shared_bound(ql.entries@, dl.entries@);
        lemma_shared_bound(qr.entries@, dr.entries@);
        let (a, b, c, d) = (mass(ql.entries@), mass(dl.entries@), mass(qr.entries@), mass(dr.entries@));
        let (tq, td) = (ql.total as nat, dl.total as nat);
        assert(a * b * 4 <= tq * td) by (nonlinear_arith)
            requires
                a * 2 <= tq,
                b * 2 <= td,
        ;
        assert(c * d * 4 <= tq * td) by (nonlinear_arith)
            requires
                c * 2 <= tq,
                d * 2 <= td,
        ;
    }
    Fraction { num: l.num + r.num, den: l.den }
}

/// Projects a sparse vector onto a dense count array indexed by term id;
/// terms above `max_prime_value` are dropped.
pub fn to_dense_vector(sparse_vec: &PrimeVector, max_prime_value: u64) -> (r: Vec<u64>)
    requires
        sparse_vec.wf(),
        max_prime_value < usize::MAX,
    ensures
        r@.len() == max_prime_value + 1,
        forall|i: int| 0 <= i < r@.len() ==> r@[i] == sparse_vec.count(i as u64),
{
    let n = max_prime_value as usize + 1;
    let mut dense: Vec<u64> = Vec::new();
    while dense.len() < n
        invariant
            dense@.len() <= n,
            forall|i: int| 0 <= i < dense@.len() ==> dense@[i] == 0,
        decreases n - dense@.len(),
    {
        dense.push(0);
    }
    let e = &sparse_vec.entries;
    let mut k: usize = 0;
    while k < e.len()
        invariant
            k <= e@.len(),
            dense@.len() == n,
            n == max_prime_value + 1,
            sorted_terms(e@),
            forall|i: int| 0 <= i < n ==> #[trigger] dense@[i] == count_in(e@.take(k as int), i as u64),
        decreases e@.len() - k,
    {
        let (t, c) = e[k];
        proof {
            assert(e@.take(k as int + 1) =~= e@.take(k as int).push(e@[k as int]));
            assert forall|x: u64| true implies count_in(e@.take(k as int + 1), x) == count_in(
                e@.take(k as int),
                x,
            ) + (if t == x { c as nat } else { 0 }) by {
                lemma_count_push(e@.take(k as int), e@[k as int], x);
            }
            assert forall|i: int| 0 <= i < e@.take(k as int).len() implies e@.take(k as int)[i].0 != t by {
                assert(e@[i].0 < e@[k as int].0);
            }
            lemma_count_absent(e@.take(k as int), t);
        }
        if t <= max_prime_value {
            dense.set(t as usize, c);
        }
        assert forall|i: int| 0 <= i < n implies #[trigger] dense@[i] == count_in(e@.take(k as int + 1), i as u64) by {
            lemma_count_push(e@.take(k as int), e@[k as int], i as u64);
        }
        k = k + 1;
    }
    assert(e@.take(e@.len() as int) =~= e@);
    dense
}

/// A sequence of one repeated token has a single entry holding all of its
/// mass: its empirical distribution is a point mass (entropy zero).
pub proof fn lemma_single_token(tokens: Seq<u64>, t: u64, v: PrimeVector)
    requires
        tokens.len() > 0,
        forall|i: int| 0 <= i < tokens.len() ==> tokens[i] == t,
        v.wf(),
        forall|x: u64| #[trigger] v.count(x) == occurrences(tokens, x),
    ensures
        v.entries@.len() == 1,
        v.entries@[0].0 == t,
        v.entries@[0].1 == tokens.len(),
{
    lemma_occurrences_constant(tokens, t);
    let e = v.entries@;
    assert forall|i: int| 0 <= i < e.len() implies e[i].0 == t by {
        lemma_count_at(e, i);
        assert(v.count(e[i].0) == occurrences(tokens, e[i].0));
    }
    assert(v.count(t) == occurrences(tokens, t));
    if e.len() == 0 {
        lemma_count_absent(e, t);
    }
    if e.len() > 1 {
        assert(e[0].0 < e[1].0);
    }
    lemma_count_at(e, 0);
}

proof fn lemma_occurrences_constant(tokens: Seq<u64>, t: u64)
    requires
        forall|i: int| 0 <= i < tokens.len() ==> tokens[i] == t,
    ensures
        occurrences(tokens, t) == tokens.len(),
        forall|x: u64| x != t ==> #[trigger] occurrences(tokens, x) == 0,
    decreases tokens.len(),
{
    if tokens.len() > 0 {
        lemma_occurrences_constant(tokens.drop_last(), t);
        assert(tokens.last() == t);
        assert forall|x: u64| x != t implies #[trigger] occurrences(tokens, x) == 0 by {
            assert(occurrences(tokens.drop_last(), x) == 0);
        }
    } else {
        assert forall|x: u64| x != t implies #[trigger] occurrences(tokens, x) == 0 by {}
    }
}

} // verus!
