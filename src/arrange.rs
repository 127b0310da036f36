use crate::text::chars_of;
use counter::Counter;
use vstd::multiset::Multiset;
use vstd::prelude::*;

verus! {

broadcast use vstd::seq_lib::group_to_multiset_ensures;

#[verifier::external_type_specification]
#[verifier::external_body]
#[verifier::reject_recursive_types(T)]
#[verifier::reject_recursive_types(N)]
#[verifier::reject_recursive_types(S)]
pub struct ExCounter<T, N, S>(Counter<T, N, S>);

/// The characters that a counter of characters holds, each as many times as
/// its count.
pub uninterp spec fn tally(c: Counter<char>) -> Multiset<char>;

/// Relies on counter's `FromIterator` impl for `Counter`: every item
/// collected adds one to that item's count.
#[verifier::external_body]
fn tally_chars(word: &str) -> (r: Counter<char>)
    ensures
        tally(r) == word@.to_multiset(),
{
    word.chars().collect::<Counter<char>>()
}

/// Relies on counter's `Index` impl for `Counter`: the count of an item,
/// zero for an item never added.
#[verifier::external_body]
fn count_in(t: &Counter<char>, c: char) -> (r: usize)
    ensures
        r == tally(*t).count(c),
{
    t[&c]
}

/// n! as a natural number.
pub open spec fn fact(n: nat) -> nat
    decreases n,
{
    if n == 0 {
        1
    } else {
        n * fact((n - 1) as nat)
    }
}

/// The largest argument whose factorial fits in a `u128`.
pub const MAX_FACTORIAL_ARG: u128 = 34;

proof fn lemma_fact_positive(n: nat)
    ensures
        fact(n) >= 1,
    decreases n,
{
    if n > 0 {
        lemma_fact_positive((n - 1) as nat);
        assert(n * fact((n - 1) as nat) >= 1) by (nonlinear_arith)
            requires n > 0, fact((n - 1) as nat) >= 1;
    }
}

proof fn lemma_fact_monotone(a: nat, b: nat)
    requires
        a <= b,
    ensures
        fact(a) <= fact(b),
    decreases b,
{
    if a < b {
        lemma_fact_monotone(a, (b - 1) as nat);
        lemma_fact_positive((b - 1) as nat);
        assert(fact((b - 1) as nat) <= b * fact((b - 1) as nat)) by (nonlinear_arith)
            requires b > 0;
    }
}

proof fn lemma_fact_fits(n: nat)
    requires
        n <= MAX_FACTORIAL_ARG,
    ensures
        fact(n) <= u128::MAX,
{
    assert(fact(0) == 1);
    assert(fact(1) == 1);
    assert(fact(2) == 2);
    assert(fact(3) == 6);
    assert(fact(4) == 24);
    assert(fact(5) == 120);
    assert(fact(6) == 720);
    assert(fact(7) == 5040);
    assert(fact(8) == 40320);
    assert(fact(9) == 362880);
    assert(fact(10) == 3628800);
    assert(fact(11) == 39916800);
    assert(fact(12) == 479001600);
    assert(fact(13) == 6227020800);
    assert(fact(14) == 87178291200);
    assert(fact(15) == 1307674368000);
    assert(fact(16) == 20922789888000);
    assert(fact(17) == 355687428096000);
    assert(fact(18) == 6402373705728000);
    assert(fact(19) == 121645100408832000);
    assert(fact(20) == 2432902008176640000);
    assert(fact(21) == 51090942171709440000);
    assert(fact(22) == 1124000727777607680000);
    assert(fact(23) == 25852016738884976640000);
    assert(fact(24) == 620448401733239439360000);
    assert(fact(25) == 15511210043330985984000000);
    assert(fact(26) == 403291461126605635584000000);
    assert(fact(27) == 10888869450418352160768000000);
    assert(fact(28) == 304888344611713860501504000000);
    assert(fact(29) == 8841761993739701954543616000000);
    assert(fact(30) == 265252859812191058636308480000000);
    assert(fact(31) == 8222838654177922817725562880000000);
    assert(fact(32) == 263130836933693530167218012160000000);
    assert(fact(33) == 8683317618811886495518194401280000000);
    assert(fact(34) == 295232799039604140847618609643520000000);
    lemma_fact_monotone(n, 34);
}

/// Computes n!; 0! and 1! are both 1.
pub fn factorial(n: u128) -> (r: u128)
    requires
        n <= MAX_FACTORIAL_ARG,
    ensures
        r == fact(n as nat),
    decreases n,
{
    if n == 0 {
        1
    } else {
        let f = factorial(n - 1);
        proof {
            lemma_fact_fits(n as nat);
        }
        n * f
    }
}

/// The product, over the distinct characters of `m`, of the factorial of
/// each character's multiplicity. Taking the copies of a character out one
/// at a time, the copy taken while k of them remain contributes k, so the
/// copies of a character of multiplicity k contribute k! together.
pub open spec fn multiplicity_product(m: Multiset<char>) -> nat
    decreases m.len(),
{
    if m.len() == 0 {
        1
    } else {
        let c = m.choose();
        m.count(c) * multiplicity_product(m.remove(c))
    }
}

/// The number of distinct arrangements of the characters of `s`: n! divided
/// by the product of the factorials of the multiplicities.
pub open spec fn arrangements(s: Seq<char>) -> nat {
    fact(s.len()) / multiplicity_product(s.to_multiset())
}

/// `m` with `k` copies of `c` taken out.
pub open spec fn remove_copies(m: Multiset<char>, c: char, k: nat) -> Multiset<char>
    decreases k,
{
    if k == 0 {
        m
    } else {
        remove_copies(m.remove(c), c, (k - 1) as nat)
    }
}

proof fn lemma_multiplicity_product_positive(m: Multiset<char>)
    ensures
        multiplicity_product(m) >= 1,
    decreases m.len(),
{
    if m.len() != 0 {
        let c = m.choose();
        lemma_multiplicity_product_positive(m.remove(c));
        assert(m.count(c) * multiplicity_product(m.remove(c)) >= 1) by (nonlinear_arith)
            requires m.count(c) >= 1, multiplicity_product(m.remove(c)) >= 1;
    }
}

/// Any character present may be taken out first.
proof fn lemma_multiplicity_product_take(m: Multiset<char>, x: char)
    requires
        m.count(x) > 0,
    ensures
        multiplicity_product(m) == m.count(x) * multiplicity_product(m.remove(x)),
    decreases m.len(),
{
    let c = m.choose();
    if c != x {
        let mc = m.remove(c);
        let mx = m.remove(x);
        lemma_multiplicity_product_take(mc, x);
        lemma_multiplicity_product_take(mx, c);
        assert(mc.remove(x) =~= mx.remove(c));
        let rest = multiplicity_product(mc.remove(x));
        assert(m.count(c) * (m.count(x) * rest) == m.count(x) * (m.count(c) * rest))
            by (nonlinear_arith);
    }
}

/// Taking out every copy of a character divides by its multiplicity's factorial.
pub proof fn lemma_multiplicity_product_remove_all(m: Multiset<char>, x: char)
    ensures
        multiplicity_product(m) == fact(m.count(x)) * multiplicity_product(
            remove_copies(m, x, m.count(x)),
        ),
        remove_copies(m, x, m.count(x)).count(x) == 0,
        forall|y: char| y != x ==> #[trigger] remove_copies(m, x, m.count(x)).count(y) == m.count(y),
    decreases m.count(x),
{
    let n = m.count(x);
    if n > 0 {
        let mx = m.remove(x);
        lemma_multiplicity_product_take(m, x);
        lemma_multiplicity_product_remove_all(mx, x);
        assert(mx.count(x) == n - 1);
        let rest = multiplicity_product(remove_copies(mx, x, (n - 1) as nat));
        assert(remove_copies(m, x, n) == remove_copies(mx, x, (n - 1) as nat));
        assert(fact(n) == n * fact((n - 1) as nat));
        assert(multiplicity_product(m) == n * multiplicity_product(mx));
        assert(multiplicity_product(mx) == fact((n - 1) as nat) * rest);
        assert(n * (fact((n - 1) as nat) * rest) == (n * fact((n - 1) as nat)) * rest)
            by (nonlinear_arith);
    } else {
        assert(fact(0) == 1);
    }
}

proof fn lemma_multiplicity_product_bound(m: Multiset<char>)
    ensures
        multiplicity_product(m) <= fact(m.len()),
    decreases m.len(),
{
    if m.len() != 0 {
        let c = m.choose();
        let r = m.remove(c);
        lemma_multiplicity_product_bound(r);
        assert(r.len() == m.len() - 1);
        assert(m.count(c) <= m.len());
        assert(fact(m.len()) == m.len() * fact(r.len()));
        assert(m.count(c) * multiplicity_product(r) <= m.len() * fact(r.len()))
            by (nonlinear_arith)
            requires m.count(c) <= m.len(), multiplicity_product(r) <= fact(r.len());
    }
}


proof fn lemma_no_duplicates_counts(s: Seq<char>)
    requires
        s.no_duplicates(),
    ensures
        forall|x: char| #[trigger] s.to_multiset().count(x) <= 1,
    decreases s.len(),
{
    if s.len() > 0 {
        let p = s.drop_last();
        assert(p.push(s.last()) =~= s);
        assert(p.no_duplicates());
        lemma_no_duplicates_counts(p);
        assert(!p.contains(s.last()));
    }
}

proof fn lemma_multiplicity_product_unit(m: Multiset<char>)
    requires
        forall|x: char| #[trigger] m.count(x) <= 1,
    ensures
        multiplicity_product(m) == 1,
    decreases m.len(),
{
    if m.len() != 0 {
        let c = m.choose();
        let r = m.remove(c);
        assert forall|x: char| #[trigger] r.count(x) <= 1 by {
            assert(m.count(x) <= 1);
        }
        lemma_multiplicity_product_unit(r);
        assert(m.count(c) == 1);
        assert(multiplicity_product(m) == m.count(c) * multiplicity_product(r));
    }
}

/// A word whose characters are all distinct has n! arrangements.
pub proof fn lemma_distinct_arrangements(s: Seq<char>)
    requires
        s.no_duplicates(),
    ensures
        arrangements(s) == fact(s.len()),
{
    lemma_no_duplicates_counts(s);
    lemma_multiplicity_product_unit(s.to_multiset());
}

/// Rearranging a word's characters does not change how many arrangements
/// it has.
pub proof fn lemma_arrangements_permutation(a: Seq<char>, b: Seq<char>)
    requires
        a.to_multiset() == b.to_multiset(),
    ensures
        arrangements(a) == arrangements(b),
{
    assert(a.len() == a.to_multiset().len());
    assert(b.len() == b.to_multiset().len());
}

/// The empty word and a word of one character each have one arrangement.
pub proof fn lemma_short_arrangements(s: Seq<char>)
    requires
        s.len() <= 1,
    ensures
        arrangements(s) == 1,
{
    assert(s.no_duplicates());
    lemma_distinct_arrangements(s);
    assert(fact(0) == 1);
    assert(fact(1) == 1);
}

/// Whether the character at position `i` already occurs before it.
fn occurs_before(chars: &Vec<char>, i: usize) -> (r: bool)
    requires
        i < chars.len(),
    ensures
        r == chars@.subrange(0, i as int).contains(chars@[i as int]),
{
    let c = chars[i];
    let mut j: usize = 0;
    while j < i
        invariant
            i < chars.len(),
            c == chars@[i as int],
            j <= i,
            forall|k: int| 0 <= k < j ==> chars@[k] != c,
        decreases i - j,
    {
        if chars[j] == c {
            assert(chars@.subrange(0, i as int)[j as int] == c);
            return true;
        }
        j += 1;
    }
    proof {
        let p = chars@.subrange(0, i as int);
        assert forall|k: int| 0 <= k < p.len() implies p[k] != c by {
            assert(p[k] == chars@[k]);
        }
    }
    false
}

/// The number of distinct arrangements of the characters of `word`:
/// n! divided by the product of the factorials of the multiplicities, where
/// n is the number of characters. The words whose n! fits in a `u128` are
/// those of at most 34 characters.
pub fn count(word: &str) -> (r: u128)
    requires
        word@.len() <= MAX_FACTORIAL_ARG,
    ensures
        r == arrangements(word@),
{
    let chars = chars_of(word);
    let n = chars.len();
    let counts = tally_chars(word);
    let ghost m = word@.to_multiset();
    let ghost mut rest = m;
    let mut divisor: u128 = 1;
    let mut i: usize = 0;
    proof {
        lemma_multiplicity_product_bound(m);
        lemma_fact_fits(n as nat);
    }
    while i < n
        invariant
            chars@ == word@,
            n == chars.len(),
            i <= n,
            n <= MAX_FACTORIAL_ARG,
            m == word@.to_multiset(),
            tally(counts) == m,
            multiplicity_product(m) <= fact(n as nat) <= u128::MAX,
            divisor * multiplicity_product(rest) == multiplicity_product(m),
            forall|x: char|
                #[trigger] rest.count(x) == if chars@.subrange(0, i as int).contains(x) {
                    0
                } else {
                    m.count(x)
                },
        decreases n - i,
    {
        let c = chars[i];
        proof {
            assert(chars@.subrange(0, i as int + 1) =~= chars@.subrange(0, i as int).push(c));
        }
        if !occurs_before(&chars, i) {
            let k = count_in(&counts, c);
            proof {
                assert(word@.contains(c));
                assert(rest.count(c) == k);
                assert(k <= n);
                lemma_multiplicity_product_remove_all(rest, c);
                let after = remove_copies(rest, c, rest.count(c));
                lemma_multiplicity_product_positive(after);
                let d = divisor as int;
                let f = fact(k as nat) as int;
                let p = multiplicity_product(after) as int;
                assert(d * f <= d * (f * p)) by (nonlinear_arith)
                    requires d >= 0, f >= 0, p >= 1;
                assert(d * (f * p) == (d * f) * p) by (nonlinear_arith);
            }
            divisor = divisor * factorial(k as u128);
            proof {
                rest = remove_copies(rest, c, rest.count(c));
            }
        }
        proof {
            let seen = chars@.subrange(0, i as int + 1);
            assert forall|x: char|
                #[trigger] rest.count(x) == if seen.contains(x) {
                    0
                } else {
                    m.count(x)
                } by {
                if x == c {
                    assert(seen[i as int] == c);
                }
                if seen.contains(x) && x != c {
                    let k = choose|k: int| 0 <= k < seen.len() && seen[k] == x;
                    assert(k < i);
                    assert(chars@.subrange(0, i as int)[k] == x);
                }
            }
        }
        i += 1;
    }
    proof {
        assert(chars@.subrange(0, n as int) =~= chars@);
        assert(rest =~= Multiset::empty());
        assert(rest.len() == 0);
        assert(multiplicity_product(rest) == 1);
        lemma_multiplicity_product_positive(m);
        assert(divisor * multiplicity_product(rest) == divisor * 1);
        assert(divisor == multiplicity_product(m));
    }
    let total = factorial(n as u128);
    total / divisor
}

} // verus!
