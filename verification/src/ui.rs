use vstd::prelude::*;
use crate::dict::{distinct_letters, get_word, word_matches, le_u32_at, word_offset, MARK_GREEN, MARK_GRAY};
use crate::solver::{is_scorable, after_feedback, count_true, lemma_count_all, lemma_count_true_zero, remaining_scorable, scan, scorable, Solver};

verus! {

/// Decimal digits of `n` in ASCII, most significant first, without leading
/// zeros (`0` is written `"0"`).
pub open spec fn decimal(n: nat) -> Seq<u8>
    decreases n,
{
    if n < 10 {
        seq![(0x30 + n) as u8]
    } else {
        decimal(n / 10).push((0x30 + n % 10) as u8)
    }
}

/// The number that the decimal digits `s` spell.
pub open spec fn decimal_value(s: Seq<u8>) -> int
    decreases s.len(),
{
    if s.len() == 0 {
        0
    } else {
        decimal_value(s.drop_last()) * 10 + (s.last() - 0x30)
    }
}

/// `10` to the power `k`.
pub open spec fn pow10(k: nat) -> nat
    decreases k,
{
    if k == 0 {
        1
    } else {
        10 * pow10((k - 1) as nat)
    }
}

/// A number below `10^k` has between one and `k` decimal digits.
pub proof fn lemma_decimal_len(n: nat, k: nat)
    requires
        k >= 1,
        n < pow10(k),
    ensures
        1 <= decimal(n).len() <= k,
    decreases n,
{
    if n >= 10 {
        assert(k >= 2) by {
            if k == 1 {
                assert(pow10(1) == 10 * pow10(0));
            }
        }
        assert(pow10(k) == 10 * pow10((k - 1) as nat));
        lemma_decimal_len(n / 10, (k - 1) as nat);
    }
}

/// The decimal digits of a number spell it back, and each is an ASCII digit.
pub proof fn lemma_decimal_round_trip(n: nat)
    ensures
        decimal_value(decimal(n)) == n,
        forall|k: int| 0 <= k < decimal(n).len() ==> 0x30 <= #[trigger] decimal(n)[k] <= 0x39,
    decreases n,
{
    let d = (0x30 + n % 10) as u8;
    assert(d - 0x30 == n % 10);
    if n < 10 {
        assert(decimal(n) == seq![d]);
        assert(decimal(n).drop_last() =~= Seq::<u8>::empty());
        assert(decimal(n).last() == d);
        assert(decimal_value(Seq::<u8>::empty()) == 0);
    } else {
        lemma_decimal_round_trip(n / 10);
        assert(decimal(n).drop_last() =~= decimal(n / 10));
        assert(decimal(n).last() == d);
        assert((n / 10) * 10 + n % 10 == n);
    }
}

/// Writes the decimal digits of `n` (in ASCII, most significant first) at the
/// start of `buf` and returns how many it wrote; the rest of `buf` is kept.
pub fn u32_to_str(n: usize, buf: &mut [u8]) -> (len: usize)
    requires
        n < 1_000_000_000_000,
        decimal(n as nat).len() <= old(buf)@.len(),
    ensures
        len == decimal(n as nat).len(),
        final(buf)@ == decimal(n as nat) + old(buf)@.skip(len as int),
{
    proof {
        reveal_with_fuel(pow10, 13);
        assert(pow10(12) == 1_000_000_000_000);
        lemma_decimal_len(n as nat, 12);
    }
    let ghost target = decimal(n as nat);
    let mut m = n;
    let mut i: usize = 0;
    let mut tmp = [0u8; 12];
    if m == 0 {
        tmp[0] = 0x30;
        i = 1;
        assert(target =~= tmp@.take(1));
    } else {
        while m > 0
            invariant
                target == decimal(n as nat),
                target.len() <= 12,
                i <= 12,
                m <= n,
                n < pow10(12),
                m > 0 ==> target == decimal(m as nat) + Seq::new(i as nat, |k: int| tmp@[i - 1 - k]),
                m == 0 ==> target == Seq::new(i as nat, |k: int| tmp@[i - 1 - k]),
            decreases m,
        {
            let d = (m % 10) as u8;
            proof {
                lemma_decimal_len(m as nat, 12);
            }
            tmp[i] = 0x30 + d;
            i += 1;
            m /= 10;
        }
    }
    for j in 0..i
        invariant
            i <= 12,
            i == target.len(),
            i <= old(buf)@.len(),
            target == Seq::new(i as nat, |k: int| tmp@[i - 1 - k]),
            buf@.len() == old(buf)@.len(),
            forall|k: int| 0 <= k < j ==> buf@[k] == target[k],
            forall|k: int| j <= k < buf@.len() ==> buf@[k] == old(buf)@[k],
    {
        buf[j] = tmp[i - 1 - j];
    }
    assert(buf@ =~= target + old(buf)@.skip(i as int));
    i
}

/// A key of the device.
#[derive(Clone, Copy, Debug, PartialEq, Eq, Structural)]
pub enum Key {
    Up,
    Down,
    Right,
    Left,
    Center,
    Back,
    Other,
}

/// The kind of a key event.
#[derive(Clone, Copy, Debug, PartialEq, Eq, Structural)]
pub enum InputKind {
    Press,
    Release,
    Short,
    Long,
    Repeat,
    Other,
}

/// What a key event asks the main loop to do.
#[derive(Clone, Copy, Debug, PartialEq, Eq, Structural)]
pub enum Request {
    /// Nothing.
    Nothing,
    /// Leave the application.
    Exit,
    /// Apply the marks to the remaining words.
    Filter,
    /// Start a new game.
    Reset,
}

/// The text under the word once the game is over.
#[derive(Clone, Copy, Debug, PartialEq, Eq, Structural)]
pub enum ResultText {
    /// No text yet.
    Blank,
    /// One word is left: "Guessed!".
    Guessed,
    /// No word is left: "No matches".
    NoMatches,
}

/// The answer to a key event.
#[derive(Clone, Copy, Debug, PartialEq, Eq, Structural)]
pub struct InputOutcome {
    pub request: Request,
    /// The screen must be drawn again.
    pub redraw: bool,
}

/// The mark after `m` when the mark is stepped up: green, yellow, gray, and
/// back to green.
pub open spec fn mark_up(m: u8) -> u8 {
    if m >= MARK_GRAY {
        MARK_GREEN
    } else {
        (m + 1) as u8
    }
}

/// The mark after `m` when the mark is stepped down: gray, yellow, green, and
/// back to gray.
pub open spec fn mark_down(m: u8) -> u8 {
    if m <= MARK_GREEN {
        MARK_GRAY
    } else {
        (m - 1) as u8
    }
}

/// Stepping a mark up and then down, or down and then up, gives it back.
pub proof fn lemma_mark_steps_undo(m: u8)
    requires
        MARK_GREEN <= m <= MARK_GRAY,
    ensures
        mark_down(mark_up(m)) == m,
        mark_up(mark_down(m)) == m,
        MARK_GREEN <= mark_up(m) <= MARK_GRAY,
        MARK_GREEN <= mark_down(m) <= MARK_GRAY,
{
}

/// What the screen shows: the current guess, the marks the player has set,
/// the cursor, and whether the game is over.
pub struct Screen {
    pub guess: u32,
    pub marks: [u8; 5],
    pub cursor: usize,
    pub show_result: bool,
    pub result: ResultText,
}

impl Screen {
    /// The cursor stands on one of the five letters, and every mark is green,
    /// yellow or gray.
    pub open spec fn wf(&self) -> bool {
        &&& self.cursor < 5
        &&& forall|i: int| 0 <= i < 5 ==> MARK_GREEN <= #[trigger] self.marks@[i] <= MARK_GRAY
    }

    /// A screen for the guess `guess`: every mark green, the cursor on the
    /// first letter, the game not over.
    pub fn new(guess: u32) -> (s: Self)
        ensures
            s.wf(),
            s.guess == guess,
            s.marks@ == seq![MARK_GREEN; 5],
            s.cursor == 0,
            !s.show_result,
            s.result == ResultText::Blank,
    {
        let s = Screen {
            guess,
            marks: [MARK_GREEN; 5],
            cursor: 0,
            show_result: false,
            result: ResultText::Blank,
        };
        assert(s.marks@ =~= seq![MARK_GREEN; 5]);
        s
    }

    /// Answers a key event. A long press of Back exits. Other than that only
    /// presses count: once the game is over only Back does something (it
    /// starts a new game); before that, Up and Down step the mark under the
    /// cursor, Left and Right move the cursor within the word, the center key applies the
    /// marks and Back starts a new game.
    pub fn on_input(&mut self, key: Key, kind: InputKind) -> (out: InputOutcome)
        requires
            old(self).wf(),
        ensures
            final(self).wf(),
            final(self).guess == old(self).guess,
            final(self).show_result == old(self).show_result,
            final(self).result == old(self).result,
            key == Key::Back && kind == InputKind::Long ==> out == (InputOutcome {
                request: Request::Exit,
                redraw: false,
            }) && *final(self) == *old(self),
            !(key == Key::Back && kind == InputKind::Long) && kind != InputKind::Press ==> out == (
            InputOutcome { request: Request::Nothing, redraw: false }) && *final(self) == *old(self),
            kind == InputKind::Press && old(self).show_result ==> *final(self) == *old(self) && out
                == (InputOutcome {
                request: if key == Key::Back {
                    Request::Reset
                } else {
                    Request::Nothing
                },
                redraw: true,
            }),
            kind == InputKind::Press && !old(self).show_result ==> {
                let c = old(self).cursor as int;
                &&& out.redraw
                &&& out.request == (if key == Key::Center {
                    Request::Filter
                } else if key == Key::Back {
                    Request::Reset
                } else {
                    Request::Nothing
                })
                &&& final(self).marks@ == (if key == Key::Up {
                    old(self).marks@.update(c, mark_up(old(self).marks@[c]))
                } else if key == Key::Down {
                    old(self).marks@.update(c, mark_down(old(self).marks@[c]))
                } else {
                    old(self).marks@
                })
                &&& final(self).cursor == (if key == Key::Left && c > 0 {
                    c - 1
                } else if key == Key::Right && c < 4 {
                    c + 1
                } else {
                    c
                })
            },
    {
        if key == Key::Back && kind == InputKind::Long {
            return InputOutcome { request: Request::Exit, redraw: false };
        }
        if kind != InputKind::Press {
            return InputOutcome { request: Request::Nothing, redraw: false };
        }
        if self.show_result {
            let request = if key == Key::Back {
                Request::Reset
            } else {
                Request::Nothing
            };
            return InputOutcome { request, redraw: true };
        }
        let mut request = Request::Nothing;
        match key {
            Key::Up => {
                let m = self.marks[self.cursor];
                self.marks[self.cursor] = if m >= MARK_GRAY {
                    MARK_GREEN
                } else {
                    m + 1
                };
            },
            Key::Down => {
                let m = self.marks[self.cursor];
                self.marks[self.cursor] = if m <= MARK_GREEN {
                    MARK_GRAY
                } else {
                    m - 1
                };
            },
            Key::Left => {
                if self.cursor > 0 {
                    self.cursor -= 1;
                }
            },
            Key::Right => {
                if self.cursor < 4 {
                    self.cursor += 1;
                }
            },
            Key::Center => {
                request = Request::Filter;
            },
            Key::Back => {
                request = Request::Reset;
            },
            Key::Other => {},
        }
        proof {
            lemma_mark_steps_undo(old(self).marks@[old(self).cursor as int]);
        }
        InputOutcome { request, redraw: true }
    }

    /// Applies the marks of the current guess to the solver's remaining words
    /// (`words` is the dictionary, `data` the dictionary file). With one word
    /// left the game is over and that word is shown; with none it is over with
    /// no word; otherwise the best candidate (`Solver::best_candidate`, with
    /// the random numbers `randoms`) becomes the next guess, with fresh marks.
    pub fn filter(&mut self, solver: &mut Solver, data: &[u8], words: &[u32], randoms: &[u32])
        requires
            old(self).wf(),
            old(solver).wf(),
            words@.len() <= old(solver).remaining@.len(),
            randoms@.len() >= words@.len(),
            remaining_scorable(
                after_feedback(old(solver).remaining@, words@, old(self).guess, old(self).marks@),
                words@,
            ),
        ensures
            final(self).wf(),
            final(solver).wf(),
            final(solver).remaining@ == after_feedback(
                old(solver).remaining@,
                words@,
                old(self).guess,
                old(self).marks@,
            ),
            ({
                let left = final(solver).remaining@;
                let n = count_true(left);
                &&& n == 0 ==> final(self).show_result && final(self).result == ResultText::NoMatches
                    && final(self).guess == old(self).guess && final(self).marks == old(self).marks
                    && final(self).cursor == old(self).cursor
                &&& n == 1 ==> final(self).show_result && final(self).result == ResultText::Guessed
                    && final(self).marks == old(self).marks && final(self).cursor == old(
                    self,
                ).cursor && exists|i: int|
                    0 <= i < left.len() && #[trigger] left[i] && final(self).guess == le_u32_at(
                        data@,
                        word_offset(i),
                    )
                &&& n >= 2 ==> !final(self).show_result && final(self).result == old(self).result
                    && final(self).cursor == 0 && final(self).marks@ == seq![MARK_GREEN; 5]
                    && final(self).guess == le_u32_at(
                    data@,
                    word_offset((scan(left, words@, randoms@, words@.len() as int).0 as u16) as int),
                )
                &&& n >= 2 && (exists|j: int| 0 <= j < words@.len() && #[trigger] left[j]) ==> {
                    let b = (scan(left, words@, randoms@, words@.len() as int).0 as u16) as int;
                    &&& b < words@.len()
                    &&& left[b]
                    &&& forall|j: int|
                        0 <= j < words@.len() && #[trigger] left[j] ==> distinct_letters(words@[j])
                            <= distinct_letters(words@[b])
                }
            }),
    {
        let marks = self.marks;
        solver.apply_feedback(self.guess, &marks, words);
        let count = solver.count();
        if count <= 1 {
            if count == 1 {
                proof {
                    lemma_count_true_zero(solver.remaining@);
                }
                let first = solver.first_word();
                let idx = match first {
                    Some(i) => i,
                    None => 0,
                };
                self.guess = get_word(data, idx);
                assert(solver.remaining@[idx as int]);
                self.result = ResultText::Guessed;
            } else {
                self.result = ResultText::NoMatches;
            }
            self.show_result = true;
        } else {
            let best = solver.best_candidate(words, randoms);
            if let Some(idx) = best {
                self.guess = get_word(data, idx);
            }
            self.cursor = 0;
            self.marks = [MARK_GREEN; 5];
            self.show_result = false;
            assert(self.marks@ =~= seq![MARK_GREEN; 5]);
        }
    }

    /// Whether `filter` can score the words that the marks leave: true unless
    /// two or more words are left and one of them cannot be scored.
    pub fn filter_can_score(&self, solver: &Solver, words: &[u32]) -> (r: bool)
        requires
            solver.wf(),
            words@.len() <= solver.remaining@.len(),
        ensures
            r == remaining_scorable(
                after_feedback(solver.remaining@, words@, self.guess, self.marks@),
                words@,
            ),
    {
        let ghost left = after_feedback(solver.remaining@, words@, self.guess, self.marks@);
        let len = solver.remaining.len();
        let mut kept: usize = 0;
        let mut all_scorable = true;
        let mut i: u16 = 0;
        while i < len
            invariant
                solver.wf(),
                len == solver.remaining@.len(),
                len <= solver.remaining.capacity(),
                words@.len() <= len,
                left == after_feedback(solver.remaining@, words@, self.guess, self.marks@),
                i <= len,
                kept == count_true(left.take(i as int)),
                kept <= i,
                all_scorable == forall|j: int|
                    0 <= j < i && j < words@.len() && #[trigger] left[j] ==> scorable(words@[j]),
            decreases len - i,
        {
            let idx = i as usize;
            let stays = solver.remaining.get(i) && (idx >= words.len() || word_matches(
                words[idx],
                self.guess,
                &self.marks,
            ));
            assert(stays == left[i as int]);
            assert(left.take(i + 1).drop_last() =~= left.take(i as int));
            if stays {
                kept += 1;
                if idx < words.len() && !is_scorable(words[idx]) {
                    all_scorable = false;
                }
            }
            i += 1;
        }
        assert(left.take(len as int) =~= left);
        kept < 2 || all_scorable
    }

    /// Starts a new game: every word of the dictionary is possible again, the
    /// best candidate (if any) becomes the guess, with fresh marks.
    pub fn reset(&mut self, solver: &mut Solver, data: &[u8], words: &[u32], randoms: &[u32])
        requires
            old(solver).wf(),
            words@.len() <= old(solver).remaining@.len(),
            randoms@.len() >= words@.len(),
            old(solver).remaining@.len() >= 2 ==> forall|i: int|
                0 <= i < words@.len() ==> #[trigger] scorable(words@[i]),
        ensures
            final(self).wf(),
            final(solver).wf(),
            final(solver).remaining@ == Seq::new(old(solver).remaining@.len(), |i: int| true),
            final(self).cursor == 0,
            final(self).marks@ == seq![MARK_GREEN; 5],
            !final(self).show_result,
            final(self).result == old(self).result,
            ({
                let n = old(solver).remaining@.len();
                let all = final(solver).remaining@;
                &&& n == 0 ==> final(self).guess == old(self).guess
                &&& n == 1 ==> final(self).guess == le_u32_at(data@, word_offset(0))
                &&& n >= 2 ==> final(self).guess == le_u32_at(
                    data@,
                    word_offset((scan(all, words@, randoms@, words@.len() as int).0 as u16) as int),
                )
                &&& n >= 2 && words@.len() > 0 ==> {
                    let b = (scan(all, words@, randoms@, words@.len() as int).0 as u16) as int;
                    &&& b < words@.len()
                    &&& forall|j: int|
                        0 <= j < words@.len() ==> #[trigger] distinct_letters(words@[j])
                            <= distinct_letters(words@[b])
                }
            }),
    {
        solver.init();
        proof {
            lemma_count_all(solver.remaining@.len());
            assert(solver.remaining@ =~= Seq::new(solver.remaining@.len(), |i: int| true));
            if words@.len() > 0 {
                assert(solver.remaining@[0]);
            }
        }
        let best = solver.best_candidate(words, randoms);
        if let Some(idx) = best {
            self.guess = get_word(data, idx);
            proof {
                if solver.remaining@.len() >= 2 && words@.len() > 0 {
                    assert forall|j: int| 0 <= j < words@.len() implies #[trigger] distinct_letters(
                        words@[j],
                    ) <= distinct_letters(words@[idx as int]) by {
                        assert(solver.remaining@[j]);
                    }
                }
            }
        }
        self.cursor = 0;
        self.marks = [MARK_GREEN; 5];
        self.show_result = false;
        assert(self.marks@ =~= seq![MARK_GREEN; 5]);
    }
}

} // verus!
