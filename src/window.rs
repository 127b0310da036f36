use vstd::prelude::*;
use vstd::string::StringSliceAdditionalSpecFns;

verus! {

broadcast use vstd::seq_lib::group_to_multiset_ensures;

/// Whether the window of `w` that starts at `start` and is as long as `p`
/// holds the same bytes as `p`, each as many times.
pub open spec fn window_matches(w: Seq<u8>, p: Seq<u8>, start: int) -> bool {
    w.subrange(start, start + p.len()).to_multiset() == p.to_multiset()
}

/// How many of the windows starting at 0, 1, ..., k - 1 match `p`.
pub open spec fn matches_before(w: Seq<u8>, p: Seq<u8>, k: nat) -> nat
    decreases k,
{
    if k == 0 {
        0
    } else {
        matches_before(w, p, (k - 1) as nat) + if window_matches(w, p, k - 1) {
            1nat
        } else {
            0nat
        }
    }
}

/// The number of positions `start` in `0..=|w| - |p|` whose window of `w`
/// is an anagram of `p`; zero when `p` is longer than `w`.
pub open spec fn anagram_windows(w: Seq<u8>, p: Seq<u8>) -> nat {
    if p.len() > w.len() {
        0
    } else {
        matches_before(w, p, (w.len() - p.len() + 1) as nat)
    }
}

/// The starts before `k` whose window matches `p`.
pub open spec fn matching_starts_before(w: Seq<u8>, p: Seq<u8>, k: int) -> Set<int> {
    Set::new(|start: int| 0 <= start < k && window_matches(w, p, start))
}

proof fn lemma_matching_starts_before(w: Seq<u8>, p: Seq<u8>, k: nat)
    ensures
        matching_starts_before(w, p, k as int).finite(),
        matching_starts_before(w, p, k as int).len() == matches_before(w, p, k),
    decreases k,
{
    if k == 0 {
        assert(matching_starts_before(w, p, 0) =~= Set::empty());
    } else {
        let prev = matching_starts_before(w, p, k - 1);
        lemma_matching_starts_before(w, p, (k - 1) as nat);
        assert(!prev.contains(k - 1));
        if window_matches(w, p, k - 1) {
            assert(matching_starts_before(w, p, k as int) =~= prev.insert(k - 1));
        } else {
            assert(matching_starts_before(w, p, k as int) =~= prev);
        }
    }
}

/// The count is the number of positions `start` in `0..=|w| - |p|` whose
/// window of `w` holds the bytes of `p`, each as many times.
pub proof fn lemma_windows_are_positions(w: Seq<u8>, p: Seq<u8>)
    ensures
        matching_starts_before(w, p, w.len() - p.len() + 1).finite(),
        anagram_windows(w, p) == matching_starts_before(w, p, w.len() - p.len() + 1).len(),
{
    if p.len() > w.len() {
        assert(matching_starts_before(w, p, w.len() - p.len() + 1) =~= Set::empty());
    } else {
        lemma_matching_starts_before(w, p, (w.len() - p.len() + 1) as nat);
    }
}

proof fn lemma_empty_pattern_matches(w: Seq<u8>, k: nat)
    requires
        k <= w.len() + 1,
    ensures
        matches_before(w, Seq::empty(), k) == k,
    decreases k,
{
    if k > 0 {
        lemma_empty_pattern_matches(w, (k - 1) as nat);
        assert(w.subrange(k - 1, k - 1) =~= Seq::<u8>::empty());
        assert(window_matches(w, Seq::empty(), k - 1));
    }
}

/// The empty pattern occurs at every position of a word, the one after its
/// last byte included.
pub proof fn lemma_empty_pattern_windows(w: Seq<u8>)
    ensures
        anagram_windows(w, Seq::empty()) == w.len() + 1,
{
    lemma_empty_pattern_matches(w, w.len() + 1);
}

proof fn lemma_matches_before_permutation(w: Seq<u8>, p: Seq<u8>, q: Seq<u8>, k: nat)
    requires
        p.to_multiset() == q.to_multiset(),
        p.len() == q.len(),
    ensures
        matches_before(w, p, k) == matches_before(w, q, k),
    decreases k,
{
    if k > 0 {
        lemma_matches_before_permutation(w, p, q, (k - 1) as nat);
    }
}

/// Rearranging the pattern's bytes does not change how many anagrams of it
/// a word holds.
pub proof fn lemma_windows_pattern_permutation(w: Seq<u8>, p: Seq<u8>, q: Seq<u8>)
    requires
        p.to_multiset() == q.to_multiset(),
    ensures
        anagram_windows(w, p) == anagram_windows(w, q),
{
    assert(p.len() == p.to_multiset().len());
    assert(q.len() == q.to_multiset().len());
    lemma_matches_before_permutation(w, p, q, (w.len() - p.len() + 1) as nat);
}

/// The table of per-byte differences, for the bytes of `win` against those
/// of `p`.
spec fn holds_gaps(counts: Seq<i128>, win: Seq<u8>, p: Seq<u8>) -> bool {
    &&& counts.len() == 256
    &&& forall|b: u8|
        #[trigger] counts[b as int] == win.to_multiset().count(b) - p.to_multiset().count(b)
}

proof fn lemma_gaps_zero(counts: Seq<i128>, win: Seq<u8>, p: Seq<u8>)
    requires
        holds_gaps(counts, win, p),
    ensures
        (forall|k: int| 0 <= k < 256 ==> counts[k] == 0) <==> win.to_multiset() == p.to_multiset(),
{
    if forall|k: int| 0 <= k < 256 ==> counts[k] == 0 {
        assert forall|b: u8| win.to_multiset().count(b) == p.to_multiset().count(b) by {
            assert(counts[b as int] == 0);
        }
        assert(win.to_multiset() =~= p.to_multiset());
    }
    if win.to_multiset() == p.to_multiset() {
        assert forall|k: int| 0 <= k < 256 implies counts[k] == 0 by {
            assert(counts[(k as u8) as int] == 0);
        }
    }
}

proof fn lemma_count_bounded(s: Seq<u8>, b: u8)
    ensures
        s.to_multiset().count(b) <= s.len(),
{
    assert(s.to_multiset().len() == s.len());
    vstd::multiset::axiom_count_le_len(s.to_multiset(), b);
}

/// Whether every entry of the table is zero.
fn all_zero(counts: &Vec<i128>) -> (r: bool)
    ensures
        r == forall|k: int| 0 <= k < counts@.len() ==> counts@[k] == 0,
{
    let mut k: usize = 0;
    while k < counts.len()
        invariant
            k <= counts.len(),
            forall|j: int| 0 <= j < k ==> counts@[j] == 0,
        decreases counts.len() - k,
    {
        if counts[k] != 0 {
            return false;
        }
        k += 1;
    }
    true
}

/// Counts the positions in `word` at which an anagram of `input` starts:
/// the windows of `input`'s length whose bytes are those of `input`, each
/// as many times. Both are read as UTF-8 bytes. An empty `input` matches at
/// every one of the `word.len() + 1` positions; one longer than `word`
/// matches nowhere.
pub fn occurences(word: &str, input: &str) -> (r: u128)
    ensures
        r == anagram_windows(word.spec_bytes(), input.spec_bytes()),
{
    let w = word.as_bytes();
    let p = input.as_bytes();
    let len_word = w.len();
    let len_input = p.len();
    if len_input > len_word {
        return 0;
    }
    let mut counts: Vec<i128> = vec![0i128; 256];
    let mut val: usize = 0;
    while val < len_input
        invariant
            len_input <= len_word == w@.len(),
            len_input == p@.len(),
            val <= len_input,
            holds_gaps(counts@, w@.subrange(0, val as int), Seq::empty()),
        decreases len_input - val,
    {
        let b = w[val];
        proof {
            assert(w@.subrange(0, val as int + 1) =~= w@.subrange(0, val as int).push(b));
            lemma_count_bounded(w@.subrange(0, val as int), b);
        }
        counts.set(b as usize, counts[b as usize] + 1);
        val += 1;
    }
    let ghost first = w@.subrange(0, len_input as int);
    val = 0;
    while val < len_input
        invariant
            len_input <= len_word == w@.len(),
            len_input == p@.len(),
            val <= len_input,
            first == w@.subrange(0, len_input as int),
            holds_gaps(counts@, first, p@.subrange(0, val as int)),
        decreases len_input - val,
    {
        let b = p[val];
        proof {
            assert(p@.subrange(0, val as int + 1) =~= p@.subrange(0, val as int).push(b));
            lemma_count_bounded(p@.subrange(0, val as int), b);
        }
        counts.set(b as usize, counts[b as usize] - 1);
        val += 1;
    }
    assert(p@.subrange(0, len_input as int) =~= p@);
    let mut result: u128 = 0;
    proof {
        lemma_gaps_zero(counts@, first, p@);
        reveal_with_fuel(matches_before, 2);
        assert(matches_before(w@, p@, 1) == if window_matches(w@, p@, 0) {
            1nat
        } else {
            0nat
        });
    }
    if all_zero(&counts) {
        result = 1;
    }
    let mut i: usize = len_input;
    while i < len_word
        invariant
            len_input <= i <= len_word == w@.len(),
            len_input == p@.len(),
            holds_gaps(counts@, w@.subrange(i - len_input, i as int), p@),
            result == matches_before(w@, p@, (i - len_input + 1) as nat),
            result <= i - len_input + 1,
        decreases len_word - i,
    {
        let ghost start = i - len_input;
        let ghost old_win = w@.subrange(start, i as int);
        let ghost ext = w@.subrange(start, i + 1);
        let ghost new_win = w@.subrange(start + 1, i + 1);
        let enter = w[i];
        let leave = w[i - len_input];
        proof {
            assert(ext =~= old_win.push(enter));
            assert(new_win =~= ext.remove(0));
            assert(ext[0] == leave);
            lemma_count_bounded(old_win, enter);
            lemma_count_bounded(p@, leave);
        }
        counts.set(enter as usize, counts[enter as usize] + 1);
        counts.set(leave as usize, counts[leave as usize] - 1);
        proof {
            assert(new_win.to_multiset() == ext.to_multiset().remove(leave));
            assert(holds_gaps(counts@, new_win, p@));
            lemma_gaps_zero(counts@, new_win, p@);
            assert(window_matches(w@, p@, start + 1) == (new_win.to_multiset()
                == p@.to_multiset()));
        }
        if all_zero(&counts) {
            result = result + 1;
        }
        i += 1;
    }
    result
}

} // verus!
