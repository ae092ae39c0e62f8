use vstd::prelude::*;
use crate::dict::{
    count_letter, count_marked, consistent, lemma_marked_monotone, marked_copies, MARK_GREEN,
    MARK_YELLOW, MARK_GRAY,
};

verus! {

/// Number of positions `j < n` where the guess hits the answer exactly with
/// the letter `c`.
pub open spec fn exact_hits(answer: Seq<u8>, guess: Seq<u8>, c: u8, n: int) -> nat
    decreases n,
{
    if n <= 0 {
        0
    } else {
        exact_hits(answer, guess, c, n - 1) + (if answer[n - 1] == c && guess[n - 1] == c {
            1nat
        } else {
            0nat
        })
    }
}

/// The mark that Wordle gives to position `i` of `guess`, given the marks of
/// the positions before it: green where the letters agree; otherwise yellow
/// while the answer still has copies of the letter that are neither hit
/// exactly nor claimed by an earlier yellow, gray after that.
pub open spec fn next_mark(answer: Seq<u8>, guess: Seq<u8>, earlier: Seq<u8>, i: int) -> u8 {
    let c = guess[i];
    if answer[i] == c {
        MARK_GREEN
    } else if count_marked(guess, earlier, MARK_YELLOW, c, i) + exact_hits(answer, guess, c, 5)
        < count_letter(answer, c, 5) {
        MARK_YELLOW
    } else {
        MARK_GRAY
    }
}

/// The marks that a game of Wordle gives for the first `n` positions of
/// `guess` when the hidden word is `answer`.
pub open spec fn feedback_prefix(answer: Seq<u8>, guess: Seq<u8>, n: int) -> Seq<u8>
    decreases n,
{
    if n <= 0 {
        Seq::empty()
    } else {
        let earlier = feedback_prefix(answer, guess, n - 1);
        earlier.push(next_mark(answer, guess, earlier, n - 1))
    }
}

/// The marks that a game of Wordle gives for `guess` when the hidden word is
/// `answer`.
pub open spec fn feedback(answer: Seq<u8>, guess: Seq<u8>) -> Seq<u8> {
    feedback_prefix(answer, guess, 5)
}

proof fn lemma_prefix_stable(answer: Seq<u8>, guess: Seq<u8>, n: int, m: int)
    requires
        0 <= n <= m,
    ensures
        feedback_prefix(answer, guess, m).len() == m,
        forall|k: int| 0 <= k < n ==> #[trigger] feedback_prefix(answer, guess, m)[k]
            == feedback_prefix(answer, guess, n)[k],
    decreases m,
{
    if m > 0 {
        if n < m {
            lemma_prefix_stable(answer, guess, n, m - 1);
        } else {
            lemma_prefix_stable(answer, guess, n - 1, m - 1);
        }
    }
}

proof fn lemma_prefix_last(answer: Seq<u8>, guess: Seq<u8>, i: int)
    requires
        0 <= i,
    ensures
        feedback_prefix(answer, guess, i).len() == i,
        feedback_prefix(answer, guess, i + 1)[i] == next_mark(
            answer,
            guess,
            feedback_prefix(answer, guess, i),
            i,
        ),
{
    lemma_prefix_stable(answer, guess, i, i);
}

proof fn lemma_count_marked_agree(g: Seq<u8>, m1: Seq<u8>, m2: Seq<u8>, mark: u8, c: u8, n: int)
    requires
        n >= 0,
        forall|j: int| 0 <= j < n ==> m1[j] == m2[j],
    ensures
        count_marked(g, m1, mark, c, n) == count_marked(g, m2, mark, c, n),
    decreases n,
{
    if n > 0 {
        lemma_count_marked_agree(g, m1, m2, mark, c, n - 1);
    }
}

proof fn lemma_exact_le_count(answer: Seq<u8>, guess: Seq<u8>, c: u8, n: int)
    requires
        n >= 0,
    ensures
        exact_hits(answer, guess, c, n) <= count_letter(answer, c, n),
    decreases n,
{
    if n > 0 {
        lemma_exact_le_count(answer, guess, c, n - 1);
    }
}

proof fn lemma_greens_are_exact(answer: Seq<u8>, guess: Seq<u8>, marks: Seq<u8>, c: u8, n: int)
    requires
        n >= 0,
        forall|j: int| 0 <= j < n ==> (marks[j] == MARK_GREEN <==> answer[j] == guess[j]),
    ensures
        count_marked(guess, marks, MARK_GREEN, c, n) == exact_hits(answer, guess, c, n),
    decreases n,
{
    if n > 0 {
        lemma_greens_are_exact(answer, guess, marks, c, n - 1);
    }
}

proof fn lemma_yellow_bound(answer: Seq<u8>, guess: Seq<u8>, c: u8, n: int)
    requires
        0 <= n <= 5,
    ensures
        count_marked(guess, feedback(answer, guess), MARK_YELLOW, c, n) + exact_hits(answer, guess, c, 5)
            <= count_letter(answer, c, 5),
    decreases n,
{
    let f = feedback(answer, guess);
    if n == 0 {
        lemma_exact_le_count(answer, guess, c, 5);
    } else {
        lemma_yellow_bound(answer, guess, c, n - 1);
        let i = n - 1;
        let earlier = feedback_prefix(answer, guess, i);
        lemma_prefix_stable(answer, guess, i, 5);
        lemma_prefix_stable(answer, guess, n, 5);
        lemma_prefix_last(answer, guess, i);
        lemma_count_marked_agree(guess, f, earlier, MARK_YELLOW, guess[i], i);
        assert(f[i] == feedback_prefix(answer, guess, n)[i]);
        assert(count_marked(guess, f, MARK_YELLOW, c, n) + exact_hits(answer, guess, c, 5)
            <= count_letter(answer, c, 5));
    }
}

/// The hidden word is always consistent with the marks that Wordle gives for a
/// guess: a solver that filters its candidates by `word_matches` never drops
/// the answer.
pub proof fn lemma_answer_consistent_with_feedback(answer: Seq<u8>, guess: Seq<u8>)
    requires
        answer.len() == 5,
        guess.len() == 5,
    ensures
        consistent(answer, guess, feedback(answer, guess)),
{
    let f = feedback(answer, guess);
    lemma_prefix_stable(answer, guess, 5, 5);
    assert forall|i: int| 0 <= i < 5 implies (f[i] == MARK_GREEN <==> answer[i] == guess[i])
        && (f[i] == MARK_GREEN || f[i] == MARK_YELLOW || f[i] == MARK_GRAY) by {
        lemma_prefix_stable(answer, guess, i + 1, 5);
        lemma_prefix_last(answer, guess, i);
    }
    assert forall|c: u8| #[trigger] count_marked(guess, f, MARK_GREEN, c, 5) == exact_hits(answer, guess, c, 5) by {
        lemma_greens_are_exact(answer, guess, f, c, 5);
    }
    assert forall|i: int| 0 <= i < 5 && f[i] == MARK_YELLOW implies marked_copies(guess, f, guess[i])
        <= count_letter(answer, guess[i], 5) by {
        lemma_yellow_bound(answer, guess, guess[i], 5);
        assert(count_marked(guess, f, MARK_GREEN, guess[i], 5) == exact_hits(answer, guess, guess[i], 5));
    }
    assert forall|i: int| 0 <= i < 5 && f[i] == MARK_GRAY implies count_letter(answer, guess[i], 5)
        <= marked_copies(guess, f, guess[i]) by {
        let c = guess[i];
        let earlier = feedback_prefix(answer, guess, i);
        lemma_prefix_stable(answer, guess, i, 5);
        lemma_prefix_stable(answer, guess, i + 1, 5);
        lemma_prefix_last(answer, guess, i);
        assert(f[i] == feedback_prefix(answer, guess, i + 1)[i]);
        lemma_count_marked_agree(guess, f, earlier, MARK_YELLOW, c, i);
        lemma_marked_monotone(guess, f, MARK_YELLOW, c, i, 5);
        assert(count_marked(guess, f, MARK_GREEN, c, 5) == exact_hits(answer, guess, c, 5));
    }
}

} // verus!
