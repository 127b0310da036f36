use crate::text::chars_of;
use vstd::prelude::*;

verus! {

broadcast use {vstd::seq_lib::group_to_multiset_ensures, vstd::seq_lib::lemma_multiset_commutative};

/// What follows the greatest arrangement of a word's characters, the one
/// in descending order, which no arrangement follows in lexicographic order.
#[derive(Clone, Copy, Debug)]
pub enum LastArrangement {
    /// Start over from the least arrangement, the characters in ascending order.
    WrapAround,
    /// Stay at the greatest arrangement.
    Unchanged,
}

/// Whether each character of `s` is at most the ones after it.
pub open spec fn ascending(s: Seq<char>) -> bool {
    forall|a: int, b: int| 0 <= a < b < s.len() ==> s[a] <= s[b]
}

/// Whether some character of `s` is smaller than the one after it.
pub open spec fn has_ascent(s: Seq<char>) -> bool {
    exists|i: int| 0 < i < s.len() && s[i - 1] < #[trigger] s[i]
}

/// Whether `i` is the pivot of `s`: the last position whose character is
/// greater than the one before it.
pub open spec fn is_pivot(s: Seq<char>, i: int) -> bool {
    &&& 0 < i < s.len()
    &&& s[i - 1] < s[i]
    &&& forall|j: int| i < j < s.len() ==> #[trigger] s[j] <= s[j - 1]
}

/// Whether `r` is what follows `s` when `i` is its pivot: the same
/// characters; the same up to the pivot's predecessor; there the least of
/// the characters from the pivot on that exceed the one it replaces; and the
/// rest in ascending order.
pub open spec fn follows_at(s: Seq<char>, r: Seq<char>, i: int) -> bool {
    &&& r.to_multiset() == s.to_multiset()
    &&& r.subrange(0, i - 1) == s.subrange(0, i - 1)
    &&& s[i - 1] < r[i - 1]
    &&& forall|t: int| i <= t < s.len() && s[i - 1] < #[trigger] s[t] ==> r[i - 1] <= s[t]
    &&& ascending(r.subrange(i, r.len() as int))
}

/// Whether `r` is the arrangement of the characters of `s` that comes next
/// in lexicographic order, and, after the greatest one, what `policy` says.
pub open spec fn is_next_arrangement(s: Seq<char>, r: Seq<char>, policy: LastArrangement) -> bool {
    if has_ascent(s) {
        exists|i: int| is_pivot(s, i) && follows_at(s, r, i)
    } else {
        match policy {
            LastArrangement::WrapAround => r.to_multiset() == s.to_multiset() && ascending(r),
            LastArrangement::Unchanged => r == s,
        }
    }
}

/// Relies on `slice::sort`: it puts the characters in ascending order and
/// keeps each of them as many times as it was there.
#[verifier::external_body]
fn sort_chars(v: &mut Vec<char>)
    ensures
        final(v)@.to_multiset() == old(v)@.to_multiset(),
        ascending(final(v)@),
{
    v.sort();
}

/// Relies on `String`'s `FromIterator<&char>`: the string holds the
/// characters in the order given.
#[verifier::external_body]
fn string_from(chars: &Vec<char>) -> (r: String)
    ensures
        r@ == chars@,
{
    String::from_iter(chars.iter())
}

/// The pivot of `chars`, or 0 when no character is smaller than the next.
fn find_pivot(chars: &Vec<char>) -> (i: usize)
    ensures
        i == 0 ==> !has_ascent(chars@),
        i > 0 ==> is_pivot(chars@, i as int),
{
    let n = chars.len();
    let mut i: usize = if n == 0 {
        0
    } else {
        n - 1
    };
    while i > 0 && chars[i] <= chars[i - 1]
        invariant
            n == chars.len(),
            i < n || i == 0,
            forall|j: int| i < j < n ==> #[trigger] chars@[j] <= chars@[j - 1],
        decreases i,
    {
        i -= 1;
    }
    i
}

/// The leftmost position from the pivot `i` on whose character is the least
/// of those that exceed the character before the pivot.
fn least_above(chars: &Vec<char>, i: usize) -> (k: usize)
    requires
        is_pivot(chars@, i as int),
    ensures
        i <= k < chars.len(),
        chars@[i - 1] < chars@[k as int],
        forall|t: int|
            i <= t < chars.len() && chars@[i - 1] < #[trigger] chars@[t] ==> chars@[k as int]
                <= chars@[t],
{
    let n = chars.len();
    let mut smallest = i;
    let mut j = i + 1;
    while j < n
        invariant
            n == chars.len(),
            0 < i <= smallest < j <= n,
            chars@[i - 1] < chars@[smallest as int],
            forall|t: int|
                i <= t < j && chars@[i - 1] < #[trigger] chars@[t] ==> chars@[smallest as int]
                    <= chars@[t],
        decreases n - j,
    {
        if chars[j] > chars[i - 1] && chars[j] < chars[smallest] {
            smallest = j;
        }
        j += 1;
    }
    smallest
}

proof fn lemma_swap_multiset(s: Seq<char>, a: int, b: int)
    requires
        0 <= a < s.len(),
        0 <= b < s.len(),
        a != b,
    ensures
        s.update(a, s[b]).update(b, s[a]).to_multiset() == s.to_multiset(),
{
    let s1 = s.update(a, s[b]);
    assert(s1[b] == s[b]);
    assert(s1.to_multiset() == s.to_multiset().insert(s[b]).remove(s[a]));
    assert(s1.update(b, s[a]).to_multiset() == s1.to_multiset().insert(s[a]).remove(s[b]));
    assert(s1.update(b, s[a]).to_multiset() =~= s.to_multiset());
}

/// What follows `chars` when `i` is its pivot: the character before the
/// pivot trades places with the least greater one after it, and the
/// characters from the pivot on are put in ascending order.
fn rearrange_at(chars: Vec<char>, i: usize) -> (r: Vec<char>)
    requires
        is_pivot(chars@, i as int),
    ensures
        follows_at(chars@, r@, i as int),
{
    let ghost s = chars@;
    let n = chars.len();
    let k = least_above(&chars, i);
    let mut chars = chars;
    let least = chars[k];
    let prev = chars[i - 1];
    chars.set(i - 1, least);
    chars.set(k, prev);
    let ghost swapped = chars@;
    proof {
        assert(swapped =~= s.update(i - 1, s[k as int]).update(k as int, s[i - 1]));
        lemma_swap_multiset(s, i - 1, k as int);
    }
    let mut right = chars.split_off(i);
    sort_chars(&mut right);
    let ghost right_sorted = right@;
    chars.append(&mut right);
    proof {
        let r = chars@;
        assert(swapped =~= swapped.subrange(0, i as int) + swapped.subrange(i as int, n as int));
        assert(r =~= swapped.subrange(0, i as int) + right_sorted);
        assert(r.subrange(i as int, r.len() as int) =~= right_sorted);
        assert(r.subrange(0, i - 1) =~= s.subrange(0, i - 1));
        assert(r[i - 1] == least);
    }
    chars
}

/// The arrangement of the characters of `word` that comes next in
/// lexicographic order by code point, and after the greatest arrangement
/// what `policy` says. The empty word gives the empty word.
pub fn next_arrangement(word: &str, policy: LastArrangement) -> (r: String)
    ensures
        is_next_arrangement(word@, r@, policy),
{
    let mut chars = chars_of(word);
    let i = find_pivot(&chars);
    if i == 0 {
        match policy {
            LastArrangement::WrapAround => sort_chars(&mut chars),
            LastArrangement::Unchanged => {},
        }
        string_from(&chars)
    } else {
        let next = rearrange_at(chars, i);
        string_from(&next)
    }
}

/// The arrangement of the characters of `word` that comes next in
/// lexicographic order by code point; after the greatest arrangement, the
/// least one. The empty word gives the empty word.
pub fn get_next(word: &str) -> (r: String)
    ensures
        is_next_arrangement(word@, r@, LastArrangement::WrapAround),
{
    next_arrangement(word, LastArrangement::WrapAround)
}


/// Whether `a` and `b` agree before position `k` and `a` has the smaller
/// character at `k`.
pub open spec fn smaller_at(a: Seq<char>, b: Seq<char>, k: int) -> bool {
    &&& 0 <= k < a.len()
    &&& k < b.len()
    &&& a.subrange(0, k) == b.subrange(0, k)
    &&& a[k] < b[k]
}

/// Whether `a` comes before `b` in lexicographic order by code point.
pub open spec fn lex_less(a: Seq<char>, b: Seq<char>) -> bool {
    exists|k: int| #[trigger] smaller_at(a, b, k)
}

/// Two arrangements of the same characters that agree before `k` hold the
/// same characters from `k` on; so the character of `a` at `k` stands in `b`
/// at `k` or after it.
proof fn lemma_in_suffix(a: Seq<char>, b: Seq<char>, k: int) -> (t: int)
    requires
        a.to_multiset() == b.to_multiset(),
        0 <= k < a.len(),
        k < b.len(),
        a.subrange(0, k) == b.subrange(0, k),
    ensures
        k <= t < b.len(),
        b[t] == a[k],
{
    let n = a.len() as int;
    assert(b.len() == b.to_multiset().len());
    let sa = a.subrange(k, n);
    let sb = b.subrange(k, n);
    assert(a =~= a.subrange(0, k) + sa);
    assert(b =~= b.subrange(0, k) + sb);
    assert(sa.to_multiset() =~= sb.to_multiset()) by {
        assert forall|x: char| sa.to_multiset().count(x) == sb.to_multiset().count(x) by {
            assert(a.to_multiset().count(x) == a.subrange(0, k).to_multiset().count(x)
                + sa.to_multiset().count(x));
            assert(b.to_multiset().count(x) == b.subrange(0, k).to_multiset().count(x)
                + sb.to_multiset().count(x));
        }
    }
    assert(sa[0] == a[k]);
    assert(sa.contains(a[k]));
    assert(sa.to_multiset().count(a[k]) > 0);
    assert(sb.to_multiset().count(a[k]) > 0);
    assert(sb.contains(a[k]));
    let j = choose|j: int| 0 <= j < sb.len() && sb[j] == a[k];
    k + j
}

proof fn lemma_descending_from(s: Seq<char>, i: int, k: int, t: int)
    requires
        0 <= i <= k <= t < s.len(),
        forall|j: int| i < j < s.len() ==> #[trigger] s[j] <= s[j - 1],
    ensures
        s[t] <= s[k],
    decreases t - k,
{
    if t > k {
        lemma_descending_from(s, i, k, t - 1);
        assert(s[t] <= s[t - 1]);
    }
}

/// Where `s` descends from position `i` on, no arrangement of its
/// characters that agrees with it before some `k >= i` is greater at `k`.
proof fn lemma_no_greater_after(s: Seq<char>, q: Seq<char>, i: int, k: int)
    requires
        s.to_multiset() == q.to_multiset(),
        forall|j: int| i < j < s.len() ==> #[trigger] s[j] <= s[j - 1],
        0 <= i <= k,
    ensures
        !smaller_at(s, q, k),
{
    if smaller_at(s, q, k) {
        let t = lemma_in_suffix(q, s, k);
        lemma_descending_from(s, i, k, t);
    }
}

/// Where `r` ascends from position `i` on, no arrangement of its
/// characters that agrees with it before some `m >= i` is smaller at `m`.
proof fn lemma_no_smaller_after(q: Seq<char>, r: Seq<char>, i: int, m: int)
    requires
        q.to_multiset() == r.to_multiset(),
        0 <= i <= m,
        ascending(r.subrange(i, r.len() as int)),
    ensures
        !smaller_at(q, r, m),
{
    if smaller_at(q, r, m) {
        let t = lemma_in_suffix(q, r, m);
        let tail = r.subrange(i, r.len() as int);
        if t > m {
            assert(tail[m - i] <= tail[t - i]);
        }
    }
}

/// The greatest arrangement, with no ascent, has no arrangement of its
/// characters after it.
pub proof fn lemma_last_arrangement(s: Seq<char>, q: Seq<char>)
    requires
        !has_ascent(s),
        q.to_multiset() == s.to_multiset(),
    ensures
        !lex_less(s, q),
{
    assert forall|j: int| 0 < j < s.len() implies #[trigger] s[j] <= s[j - 1] by {
        if s[j - 1] < s[j] {
            assert(0 < j < s.len() && s[j - 1] < s[j]);
        }
    }
    if lex_less(s, q) {
        let k = choose|k: int| smaller_at(s, q, k);
        lemma_no_greater_after(s, q, 0, k);
    }
}

/// An arrangement in ascending order has no arrangement of its characters
/// before it: it is the one that the greatest wraps around to.
pub proof fn lemma_first_arrangement(r: Seq<char>, q: Seq<char>)
    requires
        ascending(r),
        q.to_multiset() == r.to_multiset(),
    ensures
        !lex_less(q, r),
{
    assert(r.subrange(0, r.len() as int) =~= r);
    if lex_less(q, r) {
        let m = choose|m: int| smaller_at(q, r, m);
        lemma_no_smaller_after(q, r, 0, m);
    }
}

/// A step from an arrangement that has an ascent goes to the next
/// arrangement of the same characters in lexicographic order: a greater
/// one, with none between the two.
pub proof fn lemma_next_is_successor(s: Seq<char>, r: Seq<char>, q: Seq<char>, policy: LastArrangement)
    requires
        has_ascent(s),
        is_next_arrangement(s, r, policy),
        q.to_multiset() == s.to_multiset(),
    ensures
        r.to_multiset() == s.to_multiset(),
        lex_less(s, r),
        lex_less(s, q) ==> !lex_less(q, r),
{
    let i = choose|i: int| is_pivot(s, i) && follows_at(s, r, i);
    assert(s.len() == s.to_multiset().len());
    assert(r.len() == r.to_multiset().len());
    assert(s.subrange(0, i - 1) == r.subrange(0, i - 1));
    assert(smaller_at(s, r, i - 1));
    if lex_less(s, q) && lex_less(q, r) {
        let k = choose|k: int| smaller_at(s, q, k);
        let m = choose|m: int| smaller_at(q, r, m);
        if k >= i {
            lemma_no_greater_after(s, q, i, k);
        } else {
            if m >= i {
                lemma_no_smaller_after(q, r, i, m);
            } else if m < k {
                assert(q[m] == q.subrange(0, k)[m]);
                assert(s[m] == s.subrange(0, k)[m]);
                assert(r[m] == r.subrange(0, i - 1)[m]);
                assert(s[m] == s.subrange(0, i - 1)[m]);
            } else if m > k {
                assert(q[k] == q.subrange(0, m)[k]);
                assert(r[k] == r.subrange(0, m)[k]);
                if k < i - 1 {
                    assert(r[k] == r.subrange(0, i - 1)[k]);
                    assert(s[k] == s.subrange(0, i - 1)[k]);
                } else {
                    lemma_in_suffix(q, s, k);
                }
            } else {
                if k < i - 1 {
                    assert(r[k] == r.subrange(0, i - 1)[k]);
                    assert(s[k] == s.subrange(0, i - 1)[k]);
                } else {
                    lemma_in_suffix(q, s, k);
                }
            }
        }
    }
}

} // verus!
