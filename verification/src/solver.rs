use vstd::prelude::*;
use crate::bits::{bit, low_ones, lemma_ones_is_low_ones};
use crate::feedback::{feedback, lemma_answer_consistent_with_feedback};
use crate::dict::{consistent, distinct_letters, lemma_distinct_bounds, letter_of, letters_of, unique_count, unpack_word, word_matches};

verus! {

broadcast use vstd::std_specs::bits::axiom_u64_trailing_zeros;

/// Element `i` is present in the words `bits`: bit `i % 64` of word `i / 64`.
pub open spec fn member(bits: Seq<u64>, i: int) -> bool {
    bit(bits[i / 64], i % 64)
}

/// Number of `true` entries of `s`.
pub open spec fn count_true(s: Seq<bool>) -> nat
    decreases s.len(),
{
    if s.len() == 0 {
        0
    } else {
        count_true(s.drop_last()) + (if s.last() { 1nat } else { 0nat })
    }
}

/// Number of 64-bit words that hold `n` bits.
pub open spec fn words_for(n: int) -> int {
    (n + 63) / 64
}

/// Membership of every index the words have room for.
pub open spec fn all_members(bits: Seq<u64>) -> Seq<bool> {
    Seq::new(64 * bits.len(), |i: int| member(bits, i))
}

proof fn lemma_count_block(bits: Seq<u64>, w: int, j: int)
    requires
        0 <= w < bits.len(),
        0 <= j <= 64,
    ensures
        count_true(all_members(bits).take(64 * w + j)) == count_true(all_members(bits).take(64 * w))
            + low_ones(bits[w], j),
        low_ones(bits[w], j) <= j,
    decreases j,
{
    if j > 0 {
        lemma_count_block(bits, w, j - 1);
        let all = all_members(bits);
        let t = all.take(64 * w + j);
        assert(t.drop_last() =~= all.take(64 * w + j - 1));
        assert((64 * w + j - 1) / 64 == w);
        assert((64 * w + j - 1) % 64 == j - 1);
        assert(t.last() == bit(bits[w], j - 1));
    }
}

proof fn lemma_count_tail(bits: Seq<u64>, len: int, m: int)
    requires
        0 <= len <= m <= 64 * bits.len(),
        forall|i: int| len <= i < 64 * bits.len() ==> !#[trigger] member(bits, i),
    ensures
        count_true(all_members(bits).take(m)) == count_true(all_members(bits).take(len)),
    decreases m,
{
    if m > len {
        lemma_count_tail(bits, len, m - 1);
        let t = all_members(bits).take(m);
        assert(t.drop_last() =~= all_members(bits).take(m - 1));
        assert(!member(bits, m - 1));
    }
}

/// A set of word indices `0..len`, one bit per index.
pub struct BitSet {
    bits: Vec<u64>,
    len: u16,
}

impl View for BitSet {
    type V = Seq<bool>;

    /// Entry `i` tells whether index `i` is in the set.
    closed spec fn view(&self) -> Seq<bool> {
        Seq::new(self.len as nat, |i: int| member(self.bits@, i))
    }
}

impl BitSet {
    /// The words hold exactly the indices `0..len`; the bits past `len` are
    /// clear.
    pub closed spec fn wf(&self) -> bool {
        &&& self.bits@.len() == words_for(self.len as int)
        &&& forall|i: int|
            self.len <= i < 64 * self.bits@.len() ==> !#[trigger] member(self.bits@, i)
    }

    /// Number of indices that the words have room for; `get` and `clear`
    /// accept any index below it.
    pub closed spec fn capacity(&self) -> int {
        64 * self.bits@.len() as int
    }

    /// An empty set of the indices `0..len`.
    pub fn new(len: u16) -> (s: Self)
        ensures
            s.wf(),
            s@ == Seq::new(len as nat, |i: int| false),
            s.capacity() == 64 * words_for(len as int),
    {
        let n_words = (len as usize + 63) / 64;
        let mut bits: Vec<u64> = Vec::new();
        for k in 0..n_words
            invariant
                bits@.len() == k,
                forall|j: int| 0 <= j < k ==> bits@[j] == 0u64,
        {
            bits.push(0u64);
        }
        let s = BitSet { bits, len };
        proof {
            assert forall|i: int| 0 <= i < 64 * s.bits@.len() implies !#[trigger] member(s.bits@, i) by {
                let k = (i % 64) as u64;
                assert((0u64 >> k) & 1u64 == 0u64) by (bit_vector);
            }
        }
        assert(s@ =~= Seq::new(len as nat, |i: int| false));
        s
    }

    /// Puts every index `0..len` in the set.
    pub fn set_all(&mut self)
        requires
            old(self).wf(),
        ensures
            final(self).wf(),
            final(self).capacity() == old(self).capacity(),
            final(self)@ == Seq::new(old(self)@.len(), |i: int| true),
    {
        let n_words = self.bits.len();
        for k in 0..n_words
            invariant
                self.bits@.len() == n_words,
                self.len == old(self).len,
                n_words == words_for(self.len as int),
                forall|j: int| 0 <= j < k ==> self.bits@[j] == !0u64,
        {
            self.bits.set(k, !0u64);
        }
        let rem = (self.len as usize) % 64;
        let ghost full = self.bits@;
        if rem > 0 {
            let last = n_words - 1;
            let r = rem as u64;
            assert(1u64 << r >= 1u64) by (bit_vector)
                requires
                    r < 64u64,
            ;
            let low: u64 = (1u64 << r) - 1;
            let w = self.bits[last];
            let masked = w & low;
            self.bits.set(last, masked);
            proof {
                assert forall|j: int| 0 <= j < 64 implies #[trigger] bit(masked, j) == (j < rem) by {
                    let jj = j as u64;
                    assert(((masked >> jj) & 1u64 == 1u64) == (jj < r)) by (bit_vector)
                        requires
                            0u64 < r < 64u64,
                            jj < 64u64,
                            w == !0u64,
                            low == ((1u64 << r) - 1u64) as u64,
                            masked == w & low,
                    ;
                }
            }
        }
        proof {
            assert forall|j: int| 0 <= j < 64 implies #[trigger] bit(!0u64, j) by {
                let jj = j as u64;
                assert(((!0u64) >> jj) & 1u64 == 1u64) by (bit_vector)
                    requires
                        jj < 64u64,
                ;
            }
            assert forall|i: int| 0 <= i < 64 * self.bits@.len() implies #[trigger] member(self.bits@, i)
                == (i < self.len) by {
                if rem > 0 && i / 64 == n_words - 1 {
                    assert(i % 64 < rem <==> i < self.len);
                } else {
                    assert(self.bits@[i / 64] == !0u64);
                }
            }
        }
        assert(self@ =~= Seq::new(old(self)@.len(), |i: int| true));
    }

    /// Number of indices in the range of the set.
    pub fn len(&self) -> (r: u16)
        requires
            self.wf(),
        ensures
            r == self@.len(),
            r <= self.capacity(),
    {
        self.len
    }

    /// Number of indices in the set.
    pub fn count(&self) -> (r: usize)
        requires
            self.wf(),
        ensures
            r == count_true(self@),
    {
        let mut n: usize = 0;
        let n_words = self.bits.len();
        for wi in 0..n_words
            invariant
                n_words == self.bits@.len(),
                n_words == words_for(self.len as int),
                n == count_true(all_members(self.bits@).take(64 * wi)),
                n <= 64 * wi,
        {
            let w = self.bits[wi];
            proof {
                lemma_ones_is_low_ones(w);
                lemma_count_block(self.bits@, wi as int, 64);
            }
            n += w.count_ones() as usize;
        }
        proof {
            lemma_count_tail(self.bits@, self.len as int, 64 * n_words);
            assert(all_members(self.bits@).take(64 * n_words) =~= all_members(self.bits@));
            assert(all_members(self.bits@).take(self.len as int) =~= self@);
        }
        n
    }

    /// The smallest index in the set, if any.
    pub fn first(&self) -> (r: Option<u16>)
        requires
            self.wf(),
        ensures
            r is None <==> forall|i: int| 0 <= i < self@.len() ==> !self@[i],
            r matches Some(i) ==> i < self@.len() && self@[i as int] && forall|j: int|
                0 <= j < i ==> !self@[j],
    {
        let n_words = self.bits.len();
        for wi in 0..n_words
            invariant
                n_words == self.bits@.len(),
                self.wf(),
                forall|i: int| 0 <= i < 64 * wi ==> !#[trigger] member(self.bits@, i),
        {
            let w = self.bits[wi];
            if w != 0 {
                let pos = w.trailing_zeros() as usize;
                let idx = wi * 64 + pos;
                proof {
                    assert(idx / 64 == wi as int && idx % 64 == pos as int);
                    assert(member(self.bits@, idx as int));
                    assert(idx < self.len);
                    assert(self@[idx as int]);
                    assert forall|j: int| 0 <= j < idx implies !#[trigger] member(self.bits@, j) by {
                        if j >= 64 * wi {
                            let jj = (j % 64) as u64;
                            assert(j / 64 == wi as int);
                            assert((w >> jj) & 1u64 == 0u64);
                        }
                    }
                }
                return Some(idx as u16);
            }
            proof {
                assert forall|i: int| 0 <= i < 64 * (wi + 1) implies !#[trigger] member(self.bits@, i) by {
                    if i >= 64 * wi {
                        let k = (i % 64) as u64;
                        assert((0u64 >> k) & 1u64 == 0u64) by (bit_vector);
                        assert(i / 64 == wi as int);
                    }
                }
            }
        }
        None
    }

    /// Whether `idx` is in the set.
    pub fn get(&self, idx: u16) -> (r: bool)
        requires
            self.wf(),
            idx < self.capacity(),
        ensures
            r == (idx < self@.len() && self@[idx as int]),
    {
        let i = idx as usize;
        let w = self.bits[i / 64];
        let k = (i % 64) as u64;
        assert(member(self.bits@, i as int) == ((w >> k) & 1u64 == 1u64));
        (w >> k) & 1 == 1
    }

    /// Removes `idx` from the set.
    pub fn clear(&mut self, idx: u16)
        requires
            old(self).wf(),
            idx < old(self).capacity(),
        ensures
            final(self).wf(),
            final(self).capacity() == old(self).capacity(),
            final(self)@ == (if idx < old(self)@.len() {
                old(self)@.update(idx as int, false)
            } else {
                old(self)@
            }),
    {
        let i = idx as usize;
        let wi = i / 64;
        let k = (i % 64) as u64;
        let old_w = self.bits[wi];
        let new_w = old_w & !(1u64 << k);
        let ghost old_bits = self.bits@;
        self.bits.set(wi, new_w);
        proof {
            assert forall|j: int| 0 <= j < 64 implies #[trigger] bit(new_w, j) == (bit(old_w, j) && j
                != k) by {
                let jj = j as u64;
                assert(((old_w & !(1u64 << k)) >> jj) & 1u64 == 1u64 <==> (((old_w >> jj) & 1u64
                    == 1u64) && jj != k)) by (bit_vector)
                    requires
                        k < 64u64,
                        jj < 64u64,
                ;
            }
            assert forall|j: int| 0 <= j < 64 * self.bits@.len() implies #[trigger] member(self.bits@, j)
                == (member(old_bits, j) && j != i) by {
                if j / 64 != wi as int {
                    assert(self.bits@[j / 64] == old_bits[j / 64]);
                } else {
                    assert(j % 64 == k as int <==> j == i);
                }
            }
        }
        assert(self@ =~= (if idx < old(self)@.len() {
            old(self)@.update(idx as int, false)
        } else {
            old(self)@
        }));
    }
}

/// `word` can still be the answer after `guess` was answered with `marks`.
pub open spec fn word_consistent(word: u32, guess: u32, marks: Seq<u8>) -> bool {
    consistent(letters_of(word), letters_of(guess), marks)
}

/// The remaining words after the answer `marks` to `guess`: those of
/// `remaining` that `marks` does not rule out; indices past the end of `words`
/// are kept.
pub open spec fn after_feedback(remaining: Seq<bool>, words: Seq<u32>, guess: u32, marks: Seq<u8>) -> Seq<
    bool,
> {
    Seq::new(
        remaining.len(),
        |i: int| remaining[i] && (i < words.len() ==> word_consistent(words[i], guess, marks)),
    )
}

/// The hidden word is never dropped: if it is still possible, and `marks` are
/// the marks that Wordle gives for `guess` when it is the answer, it is still
/// possible after the feedback is applied.
pub proof fn lemma_answer_survives(
    remaining: Seq<bool>,
    words: Seq<u32>,
    guess: u32,
    answer: int,
)
    requires
        0 <= answer < remaining.len(),
        answer < words.len(),
        remaining[answer],
    ensures
        after_feedback(
            remaining,
            words,
            guess,
            feedback(letters_of(words[answer]), letters_of(guess)),
        )[answer],
{
    lemma_answer_consistent_with_feedback(letters_of(words[answer]), letters_of(guess));
}

/// Feedback only ever drops words, and applying the same feedback twice drops
/// nothing more.
pub proof fn lemma_feedback_shrinks_idempotent(
    remaining: Seq<bool>,
    words: Seq<u32>,
    guess: u32,
    marks: Seq<u8>,
)
    ensures
        after_feedback(remaining, words, guess, marks).len() == remaining.len(),
        forall|i: int|
            0 <= i < remaining.len() && #[trigger] after_feedback(remaining, words, guess, marks)[i]
                ==> remaining[i],
        after_feedback(after_feedback(remaining, words, guess, marks), words, guess, marks)
            == after_feedback(remaining, words, guess, marks),
{
    assert(after_feedback(after_feedback(remaining, words, guess, marks), words, guess, marks)
        =~= after_feedback(remaining, words, guess, marks));
}

/// Every letter of `word` is below 32, so that `unique_count` can score it.
pub open spec fn scorable(word: u32) -> bool {
    forall|i: int| 0 <= i < 5 ==> #[trigger] letter_of(word, i) < 32
}

/// When two or more words remain, every remaining word of `words` can be
/// scored: `best_candidate` scores them only then.
pub open spec fn remaining_scorable(remaining: Seq<bool>, words: Seq<u32>) -> bool {
    count_true(remaining) >= 2 ==> forall|i: int|
        0 <= i < words.len() && #[trigger] remaining[i] ==> scorable(words[i])
}

/// Whether every letter of `word` is below 32, so that `unique_count` can
/// score it.
pub fn is_scorable(word: u32) -> (r: bool)
    ensures
        r == scorable(word),
{
    let letters = unpack_word(word);
    for i in 0..5usize
        invariant
            letters@ == letters_of(word),
            forall|j: int| 0 <= j < i ==> #[trigger] letter_of(word, j) < 32,
    {
        if letters[i] >= 32 {
            return false;
        }
    }
    true
}

/// State of the scan for the best candidate after the words `0..n`: the index
/// picked so far, its score, how many words share that score, and how many
/// random numbers were drawn. A word that is still possible and scores higher
/// than the pick replaces it; one that ties with it replaces it when the next
/// random number is divisible by the number of words that share the score.
pub open spec fn scan(remaining: Seq<bool>, words: Seq<u32>, randoms: Seq<u32>, n: int) -> (
    int,
    int,
    int,
    int,
)
    decreases n,
{
    if n <= 0 {
        (0, 0, 0, 0)
    } else {
        let (best, best_score, seen, drawn) = scan(remaining, words, randoms, n - 1);
        let i = n - 1;
        if !remaining[i] {
            (best, best_score, seen, drawn)
        } else {
            let score = distinct_letters(words[i]) as int;
            if score > best_score {
                (i, score, 1, drawn)
            } else if score == best_score {
                if randoms[drawn] as int % (seen + 1) == 0 {
                    (i, best_score, seen + 1, drawn + 1)
                } else {
                    (best, best_score, seen + 1, drawn + 1)
                }
            } else {
                (best, best_score, seen, drawn)
            }
        }
    }
}

/// The score of word `j`: its number of different letters.
pub open spec fn score_of(words: Seq<u32>, j: int) -> int {
    distinct_letters(words[j]) as int
}

/// The highest score among the remaining words `j < n` (zero if there is
/// none).
pub open spec fn best_score_before(remaining: Seq<bool>, words: Seq<u32>, n: int) -> int
    decreases n,
{
    if n <= 0 {
        0
    } else {
        let m = best_score_before(remaining, words, n - 1);
        if remaining[n - 1] && score_of(words, n - 1) > m {
            score_of(words, n - 1)
        } else {
            m
        }
    }
}

/// Number of remaining words `j < n` with score `s`.
pub open spec fn count_scoring(remaining: Seq<bool>, words: Seq<u32>, n: int, s: int) -> nat
    decreases n,
{
    if n <= 0 {
        0
    } else {
        count_scoring(remaining, words, n - 1, s) + (if remaining[n - 1] && score_of(words, n - 1)
            == s {
            1nat
        } else {
            0nat
        })
    }
}

/// Number of remaining words `j < n` that tie the best score of the words
/// before them: one random number is drawn for each.
pub open spec fn ties_before(remaining: Seq<bool>, words: Seq<u32>, n: int) -> nat
    decreases n,
{
    if n <= 0 {
        0
    } else {
        let j = n - 1;
        ties_before(remaining, words, n - 1) + (if remaining[j] && best_score_before(
            remaining,
            words,
            j,
        ) > 0 && score_of(words, j) == best_score_before(remaining, words, j) {
            1nat
        } else {
            0nat
        })
    }
}

proof fn lemma_none_above_best(remaining: Seq<bool>, words: Seq<u32>, n: int, s: int)
    requires
        0 <= n,
        s > best_score_before(remaining, words, n),
    ensures
        count_scoring(remaining, words, n, s) == 0,
    decreases n,
{
    if n > 0 {
        lemma_none_above_best(remaining, words, n - 1, s);
    }
}

/// The scan keeps the best score so far, the number of remaining words that
/// have it, and the number of ties met so far.
pub proof fn lemma_scan_counts(remaining: Seq<bool>, words: Seq<u32>, randoms: Seq<u32>, n: int)
    requires
        0 <= n <= words.len(),
    ensures
        scan(remaining, words, randoms, n).1 == best_score_before(remaining, words, n),
        scan(remaining, words, randoms, n).2 == count_scoring(
            remaining,
            words,
            n,
            best_score_before(remaining, words, n),
        ),
        scan(remaining, words, randoms, n).3 == ties_before(remaining, words, n),
        best_score_before(remaining, words, n) >= 0,
    decreases n,
{
    if n > 0 {
        let i = n - 1;
        lemma_scan_counts(remaining, words, randoms, i);
        lemma_distinct_bounds(words[i]);
        let m = best_score_before(remaining, words, i);
        if remaining[i] && score_of(words, i) > m {
            lemma_none_above_best(remaining, words, i, score_of(words, i));
        }
    }
}

/// Ties are broken uniformly: when remaining word `n` ties the best score of
/// the words before it and is the `k`-th word with that score, it becomes the
/// pick exactly when its random number (the one drawn for this tie) is
/// divisible by `k`, and otherwise the pick stays; a word that beats the best
/// score becomes the pick; any other word leaves the pick as it was.
pub proof fn lemma_tie_break_uniform(
    remaining: Seq<bool>,
    words: Seq<u32>,
    randoms: Seq<u32>,
    n: int,
)
    requires
        0 <= n < words.len(),
        n < remaining.len(),
    ensures
        ({
            let m = best_score_before(remaining, words, n);
            let before = scan(remaining, words, randoms, n).0;
            let after = scan(remaining, words, randoms, n + 1).0;
            &&& remaining[n] && m > 0 && score_of(words, n) == m ==> after == (if randoms[ties_before(
                remaining,
                words,
                n,
            ) as int] as int % (count_scoring(remaining, words, n + 1, m) as int) == 0 {
                n
            } else {
                before
            })
            &&& remaining[n] && score_of(words, n) > m ==> after == n
            &&& !(remaining[n] && score_of(words, n) >= m) ==> after == before
            &&& best_score_before(remaining, words, n + 1) >= m
        }),
{
    lemma_scan_counts(remaining, words, randoms, n);
    lemma_distinct_bounds(words[n]);
}

/// A sequence has no `true` entry exactly when it counts none.
pub proof fn lemma_count_true_zero(s: Seq<bool>)
    ensures
        count_true(s) == 0 <==> forall|i: int| 0 <= i < s.len() ==> !s[i],
    decreases s.len(),
{
    if s.len() > 0 {
        lemma_count_true_zero(s.drop_last());
        if count_true(s) == 0 {
            assert forall|i: int| 0 <= i < s.len() implies !s[i] by {
                if i < s.len() - 1 {
                    assert(s[i] == s.drop_last()[i]);
                }
            }
        } else if !s.last() {
            let i = choose|i: int| 0 <= i < s.len() - 1 && s.drop_last()[i];
            assert(s[i]);
        }
    }
}

/// Every entry of a sequence of `n` `true`s counts: `set_all` makes `count`
/// return the length of the set.
pub proof fn lemma_count_all(n: nat)
    ensures
        count_true(Seq::new(n, |i: int| true)) == n,
    decreases n,
{
    if n > 0 {
        assert(Seq::new(n, |i: int| true).drop_last() =~= Seq::new((n - 1) as nat, |i: int| true));
        lemma_count_all((n - 1) as nat);
    }
}

/// Clearing an entry lowers the count by one if it was set, and by nothing
/// otherwise: `clear` takes exactly the cleared index out of `count`.
pub proof fn lemma_count_clear(s: Seq<bool>, i: int)
    requires
        0 <= i < s.len(),
    ensures
        count_true(s.update(i, false)) + (if s[i] { 1nat } else { 0nat }) == count_true(s),
    decreases s.len(),
{
    if i < s.len() - 1 {
        lemma_count_clear(s.drop_last(), i);
        assert(s.update(i, false).drop_last() =~= s.drop_last().update(i, false));
    } else {
        assert(s.update(i, false).drop_last() =~= s.drop_last());
    }
}

/// The solver's state: which words of the dictionary can still be the answer.
pub struct Solver {
    pub remaining: BitSet,
}

impl Solver {
    /// The set of remaining words is well formed.
    pub open spec fn wf(&self) -> bool {
        self.remaining.wf()
    }

    /// A solver for a dictionary of `word_count` words, none of them possible
    /// yet (see `init`).
    pub fn new(word_count: u16) -> (s: Self)
        ensures
            s.wf(),
            s.remaining@ == Seq::new(word_count as nat, |i: int| false),
    {
        Solver { remaining: BitSet::new(word_count) }
    }

    /// Makes every word of the dictionary possible again.
    pub fn init(&mut self)
        requires
            old(self).wf(),
        ensures
            final(self).wf(),
            final(self).remaining@ == Seq::new(old(self).remaining@.len(), |i: int| true),
    {
        self.remaining.set_all();
    }

    /// Drops every remaining word that the answer `marks` to `guess_word`
    /// rules out. `words` is the dictionary: word `i` has index `i`; indices
    /// past its end are kept.
    pub fn apply_feedback(&mut self, guess_word: u32, marks: &[u8; 5], words: &[u32])
        requires
            old(self).wf(),
            words@.len() <= old(self).remaining@.len(),
        ensures
            final(self).wf(),
            final(self).remaining@ == after_feedback(old(self).remaining@, words@, guess_word, marks@),
    {
        let ghost before = self.remaining@;
        let n = words.len();
        for idx in 0..n
            invariant
                n == words@.len(),
                n <= before.len(),
                self.remaining.wf(),
                self.remaining.capacity() == old(self).remaining.capacity(),
                before == old(self).remaining@,
                self.remaining@.len() == before.len(),
                old(self).remaining.wf(),
                forall|i: int|
                    0 <= i < idx ==> #[trigger] self.remaining@[i] == (before[i] && word_consistent(
                        words@[i],
                        guess_word,
                        marks@,
                    )),
                forall|i: int| idx <= i < before.len() ==> #[trigger] self.remaining@[i] == before[i],
        {
            let i = idx as u16;
            proof {
                assert(old(self).remaining.capacity() >= before.len());
            }
            if self.remaining.get(i) {
                if !word_matches(words[idx], guess_word, marks) {
                    self.remaining.clear(i);
                }
            }
        }
        assert(self.remaining@ =~= after_feedback(before, words@, guess_word, marks@));
    }

    /// The word to guess next, as an index into `words`.
    ///
    /// With no word remaining there is none; with one, it is that word.
    /// Otherwise the remaining words of `words` are scanned for the most
    /// different letters, ties broken at random (`scan`): `randoms` are the
    /// random numbers, drawn one per tie, in order. The pick is always a
    /// remaining word with the highest score among the remaining words of
    /// `words`, if there is one.
    pub fn best_candidate(&self, words: &[u32], randoms: &[u32]) -> (r: Option<u16>)
        requires
            self.wf(),
            words@.len() <= self.remaining@.len(),
            randoms@.len() >= words@.len(),
            remaining_scorable(self.remaining@, words@),
        ensures
            count_true(self.remaining@) == 0 ==> r is None,
            count_true(self.remaining@) == 1 ==> (r matches Some(i) && i < self.remaining@.len()
                && self.remaining@[i as int]),
            count_true(self.remaining@) >= 2 ==> r == Some(
                scan(self.remaining@, words@, randoms@, words@.len() as int).0 as u16,
            ),
            count_true(self.remaining@) >= 2 && (exists|j: int|
                0 <= j < words@.len() && #[trigger] self.remaining@[j]) ==> (r matches Some(b) && b
                < words@.len() && self.remaining@[b as int] && forall|j: int|
                0 <= j < words@.len() && #[trigger] self.remaining@[j] ==> distinct_letters(words@[j])
                    <= distinct_letters(words@[b as int])),
    {
        let total = self.count();
        proof {
            lemma_count_true_zero(self.remaining@);
        }
        if total == 0 {
            return None;
        }
        if total == 1 {
            return self.remaining.first();
        }
        let ghost rem = self.remaining@;
        let ghost ws = words@;
        let ghost rs = randoms@;
        let mut best: u16 = 0;
        let mut best_score: u32 = 0;
        let mut seen: u32 = 0;
        let mut drawn: usize = 0;
        let n = words.len();
        for idx in 0..n
            invariant
                n == ws.len(),
                ws == words@,
                rs == randoms@,
                rem == self.remaining@,
                self.wf(),
                n <= rem.len(),
                rs.len() >= n,
                forall|i: int| 0 <= i < n && #[trigger] rem[i] ==> scorable(ws[i]),
                scan(rem, ws, rs, idx as int) == (best as int, best_score as int, seen as int, drawn as int),
                drawn <= idx,
                seen <= idx,
                best_score <= 5,
                (exists|j: int| 0 <= j < idx && #[trigger] rem[j]) ==> best < idx && rem[best as int]
                    && best_score == distinct_letters(ws[best as int]) && forall|j: int|
                    0 <= j < idx && #[trigger] rem[j] ==> distinct_letters(ws[j]) <= best_score,
                !(exists|j: int| 0 <= j < idx && #[trigger] rem[j]) ==> best_score == 0,
        {
            let i = idx as u16;
            proof {
                assert(self.remaining.capacity() >= rem.len());
            }
            if self.remaining.get(i) {
                let word = words[idx];
                let score = unique_count(word);
                proof {
                    lemma_distinct_bounds(word);
                }
                if score > best_score {
                    best_score = score;
                    best = i;
                    seen = 1;
                } else if score == best_score {
                    seen += 1;
                    let r = randoms[drawn] % seen;
                    drawn += 1;
                    if r == 0 {
                        best = i;
                    }
                }
                proof {
                    assert(rem[idx as int]);
                }
            }
        }
        Some(best)
    }

    /// The smallest index of a remaining word, if any.
    pub fn first_word(&self) -> (r: Option<u16>)
        requires
            self.wf(),
        ensures
            r is None <==> forall|i: int| 0 <= i < self.remaining@.len() ==> !self.remaining@[i],
            r matches Some(i) ==> i < self.remaining@.len() && self.remaining@[i as int] && forall|
                j: int,
            |
                0 <= j < i ==> !self.remaining@[j],
    {
        self.remaining.first()
    }

    /// Number of remaining words.
    pub fn count(&self) -> (r: usize)
        requires
            self.wf(),
        ensures
            r == count_true(self.remaining@),
    {
        self.remaining.count()
    }
}

} // verus!
