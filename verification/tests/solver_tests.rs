use wordle_solver::dict::{word_matches, MARK_GRAY, MARK_GREEN, MARK_YELLOW};
use wordle_solver::solver::{is_scorable, BitSet, Solver};

const ALPHABET: &str = "АБВГДЕЁЖЗИЙКЛМНОПРСТУФХЦЧШЩЪЫЬЭЮЯ";

fn pack(word: &str) -> u32 {
    let mut packed = 0u32;
    for (i, c) in word.chars().enumerate() {
        packed |= (ALPHABET.chars().position(|a| a == c).unwrap() as u32) << (6 * i);
    }
    packed
}

fn members(s: &BitSet, len: u16) -> Vec<u16> {
    (0..len).filter(|&i| s.get(i)).collect()
}

#[test]
fn bitset_starts_empty() {
    let s = BitSet::new(100);
    assert_eq!(s.count(), 0);
    assert_eq!(s.first(), None);
    assert!(!s.get(99));
    assert!(!s.get(127));
}

#[test]
fn bitset_set_all_keeps_to_range() {
    for len in [0u16, 1, 63, 64, 65, 100, 128, 1000] {
        let mut s = BitSet::new(len);
        s.set_all();
        assert_eq!(s.count(), len as usize);
        assert_eq!(s.first(), if len == 0 { None } else { Some(0) });
        let cap = ((len as u32 + 63) / 64 * 64) as u16;
        for i in len..cap {
            assert!(!s.get(i));
        }
    }
}

#[test]
fn bitset_clear_removes_one() {
    let mut s = BitSet::new(130);
    s.set_all();
    s.clear(0);
    s.clear(64);
    s.clear(129);
    s.clear(129);
    assert_eq!(s.count(), 127);
    assert!(!s.get(64));
    assert!(s.get(65));
    assert_eq!(s.first(), Some(1));
    for i in 1..64 {
        s.clear(i);
    }
    assert_eq!(s.first(), Some(65));
    assert_eq!(s.count(), 64);
    // Clearing past the range changes nothing.
    s.clear(140);
    assert_eq!(s.count(), 64);
}

fn dictionary() -> Vec<u32> {
    ["КНИГА", "ПАРТА", "КАРТА", "МАРКА", "ПАПКА", "ЛАМПА"].iter().map(|w| pack(w)).collect()
}

#[test]
fn solver_init_and_count() {
    let mut s = Solver::new(6);
    assert_eq!(s.count(), 0);
    s.init();
    assert_eq!(s.count(), 6);
    assert_eq!(s.first_word(), Some(0));
}

#[test]
fn apply_feedback_keeps_consistent_words() {
    let words = dictionary();
    let mut s = Solver::new(6);
    s.init();
    // Guess ПАРТА, answer КАРТА: П gray, the rest green.
    let marks = [MARK_GRAY, MARK_GREEN, MARK_GREEN, MARK_GREEN, MARK_GREEN];
    s.apply_feedback(words[1], &marks, &words);
    assert_eq!(members(&s.remaining, 6), vec![2]);
    assert_eq!(s.count(), 1);
    assert_eq!(s.first_word(), Some(2));
    // Applying it again drops nothing more.
    s.apply_feedback(words[1], &marks, &words);
    assert_eq!(s.count(), 1);
}

#[test]
fn apply_feedback_keeps_indices_past_the_words() {
    let words = dictionary();
    let mut s = Solver::new(8);
    s.init();
    s.apply_feedback(words[0], &[MARK_GREEN; 5], &words);
    assert_eq!(members(&s.remaining, 8), vec![0, 6, 7]);
}

#[test]
fn apply_feedback_matches_word_matches() {
    let words = dictionary();
    let guess = pack("АКРАМ");
    let marks = [MARK_YELLOW, MARK_GRAY, MARK_GREEN, MARK_GRAY, MARK_GRAY];
    let mut s = Solver::new(6);
    s.init();
    s.apply_feedback(guess, &marks, &words);
    let expected: Vec<u16> =
        (0..6).filter(|&i| word_matches(words[i as usize], guess, &marks)).collect();
    assert_eq!(members(&s.remaining, 6), expected);
}

#[test]
fn best_candidate_none_one_many() {
    let words = dictionary();
    let randoms = vec![0u32; words.len()];
    let mut s = Solver::new(6);
    assert_eq!(s.best_candidate(&words, &randoms), None);
    s.init();
    for i in 0..5 {
        s.remaining.clear(i);
    }
    assert_eq!(s.best_candidate(&words, &randoms), Some(5));
    s.init();
    // КНИГА is the only word with five different letters.
    assert_eq!(s.best_candidate(&words, &randoms), Some(0));
}

#[test]
fn best_candidate_breaks_ties_with_random_numbers() {
    // ПАРТА, КАРТА, МАРКА all have four different letters.
    let words: Vec<u32> = ["ПАРТА", "КАРТА", "МАРКА", "ПАПКА"].iter().map(|w| pack(w)).collect();
    let mut s = Solver::new(4);
    s.init();
    // Ties at КАРТА (1 in 2) and МАРКА (1 in 3).
    assert_eq!(s.best_candidate(&words, &[0, 0, 0, 0]), Some(2));
    assert_eq!(s.best_candidate(&words, &[0, 1, 0, 0]), Some(1));
    assert_eq!(s.best_candidate(&words, &[1, 1, 0, 0]), Some(0));
    assert_eq!(s.best_candidate(&words, &[1, 0, 0, 0]), Some(2));
}

#[test]
fn scorable_words_have_letters_below_32() {
    assert!(is_scorable(pack("КНИГА")));
    assert!(is_scorable(pack("ЮЮЮЮЮ")));
    assert!(!is_scorable(pack("ЯБЛОК")));
    assert!(!is_scorable(pack("КНИГЯ")));
}

#[test]
fn best_candidate_with_one_word_does_not_score() {
    // ЯБЛОК cannot be scored (Я is letter 32), but with one word left nothing
    // is scored.
    let words = vec![pack("КНИГА"), pack("ЯБЛОК")];
    let mut s = Solver::new(2);
    s.init();
    s.remaining.clear(0);
    assert_eq!(s.best_candidate(&words, &[0, 0]), Some(1));
}
