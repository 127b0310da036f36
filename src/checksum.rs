use crate::text::chars_of;
use vstd::prelude::*;

verus! {

broadcast use vstd::seq_lib::group_to_multiset_ensures;

/// The sum of the code points of the characters of `s`.
pub open spec fn code_sum(s: Seq<char>) -> int
    decreases s.len(),
{
    if s.len() == 0 {
        0
    } else {
        code_sum(s.drop_last()) + s.last() as u32
    }
}

/// The anagram checksum: equal lengths and equal sums of code points. Every
/// pair of anagrams passes it; some pairs that are not anagrams pass it too
/// (two 'b's against 'a' and 'c').
pub open spec fn passes_checksum(left: Seq<char>, right: Seq<char>) -> bool {
    left.len() == right.len() && code_sum(left) == code_sum(right)
}

proof fn lemma_code_sum_bounded(s: Seq<char>, i: int)
    requires
        0 <= i <= s.len(),
    ensures
        0 <= code_sum(s.subrange(0, i)) <= i * 0x1_0000_0000,
    decreases i,
{
    if i > 0 {
        lemma_code_sum_bounded(s, i - 1);
        assert(s.subrange(0, i).drop_last() =~= s.subrange(0, i - 1));
    }
}

/// Adds the code points of `chars` to `total`, or subtracts them when
/// `negate` holds.
fn accumulate(total: &mut i128, chars: &Vec<char>, negate: bool)
    requires
        -0x1_0000_0000_0000_0000_0000_0000 <= *old(total) <= 0x1_0000_0000_0000_0000_0000_0000,
    ensures
        *final(total) == *old(total) + if negate {
            -code_sum(chars@)
        } else {
            code_sum(chars@)
        },
{
    let n = chars.len();
    let mut i: usize = 0;
    while i < n
        invariant
            n == chars.len(),
            i <= n,
            -0x1_0000_0000_0000_0000_0000_0000 <= *old(total) <= 0x1_0000_0000_0000_0000_0000_0000,
            *total == *old(total) + if negate {
                -code_sum(chars@.subrange(0, i as int))
            } else {
                code_sum(chars@.subrange(0, i as int))
            },
        decreases n - i,
    {
        proof {
            lemma_code_sum_bounded(chars@, i as int + 1);
            assert(chars@.subrange(0, i as int + 1).drop_last() =~= chars@.subrange(0, i as int));
            assert((i as int + 1) * 0x1_0000_0000 <= 0x1_0000_0000_0000_0000_0000_0000) by (nonlinear_arith)
                requires i < 0x1_0000_0000_0000_0000;
        }
        let code = chars[i] as u32 as i128;
        if negate {
            *total = *total - code;
        } else {
            *total = *total + code;
        }
        i += 1;
    }
    proof {
        assert(chars@.subrange(0, n as int) =~= chars@);
    }
}

/// Whether `left` and `right` pass the anagram checksum: they have as many
/// characters, and their code points have the same sum. Anagrams always
/// pass; a few words that are not anagrams pass as well.
pub fn is_anagram(left: &str, right: &str) -> (r: bool)
    ensures
        r == passes_checksum(left@, right@),
{
    let l = chars_of(left);
    let rc = chars_of(right);
    if l.len() != rc.len() {
        false
    } else {
        let mut total: i128 = 0;
        accumulate(&mut total, &l, false);
        proof {
            lemma_code_sum_bounded(l@, l@.len() as int);
            assert(l@.subrange(0, l@.len() as int) =~= l@);
            assert(l@.len() * 0x1_0000_0000 <= 0x1_0000_0000_0000_0000_0000_0000) by (nonlinear_arith)
                requires l@.len() <= 0x1_0000_0000_0000_0000;
        }
        accumulate(&mut total, &rc, true);
        total == 0
    }
}

/// Every word passes the checksum against itself.
pub proof fn lemma_checksum_reflexive(w: Seq<char>)
    ensures
        passes_checksum(w, w),
{
}

/// The checksum does not depend on the order of its arguments.
pub proof fn lemma_checksum_symmetric(a: Seq<char>, b: Seq<char>)
    ensures
        passes_checksum(a, b) == passes_checksum(b, a),
{
}

/// Words of different lengths never pass the checksum.
pub proof fn lemma_checksum_lengths(a: Seq<char>, b: Seq<char>)
    requires
        a.len() != b.len(),
    ensures
        !passes_checksum(a, b),
{
}


proof fn lemma_code_sum_remove(s: Seq<char>, j: int)
    requires
        0 <= j < s.len(),
    ensures
        code_sum(s) == code_sum(s.remove(j)) + s[j] as u32,
    decreases s.len(),
{
    if j < s.len() - 1 {
        let p = s.drop_last();
        lemma_code_sum_remove(p, j);
        assert(s.remove(j) =~= p.remove(j).push(s.last()));
        assert(s.remove(j).drop_last() =~= p.remove(j));
    } else {
        assert(s.remove(j) =~= s.drop_last());
    }
}

/// Anagrams, words with the same characters each as many times, always
/// pass the checksum.
pub proof fn lemma_anagrams_pass(a: Seq<char>, b: Seq<char>)
    requires
        a.to_multiset() == b.to_multiset(),
    ensures
        passes_checksum(a, b),
    decreases a.len(),
{
    assert(a.len() == a.to_multiset().len());
    assert(b.len() == b.to_multiset().len());
    if a.len() > 0 {
        let x = a.last();
        let p = a.drop_last();
        assert(p.push(x) =~= a);
        assert(a.to_multiset().count(x) > 0);
        assert(b.contains(x));
        let j = choose|j: int| 0 <= j < b.len() && b[j] == x;
        let q = b.remove(j);
        assert(q.to_multiset() == b.to_multiset().remove(x));
        assert(p.to_multiset() =~= q.to_multiset());
        lemma_anagrams_pass(p, q);
        lemma_code_sum_remove(b, j);
    }
}

} // verus!
