use wordle_solver::dict::{MARK_GRAY, MARK_GREEN, MARK_YELLOW};
use wordle_solver::render::{remaining_label, Color, DrawOp, Label};
use wordle_solver::solver::Solver;
use wordle_solver::ui::{u32_to_str, InputKind, Key, Request, ResultText, Screen};

const ALPHABET: &str = "АБВГДЕЁЖЗИЙКЛМНОПРСТУФХЦЧШЩЪЫЬЭЮЯ";

fn pack(word: &str) -> u32 {
    let mut packed = 0u32;
    for (i, c) in word.chars().enumerate() {
        packed |= (ALPHABET.chars().position(|a| a == c).unwrap() as u32) << (6 * i);
    }
    packed
}

#[test]
fn u32_to_str_writes_decimal() {
    let mut buf = [b'x'; 8];
    assert_eq!(u32_to_str(0, &mut buf), 1);
    assert_eq!(&buf, b"0xxxxxxx");
    let mut buf = [b'x'; 8];
    assert_eq!(u32_to_str(4096, &mut buf), 4);
    assert_eq!(&buf, b"4096xxxx");
    let mut buf = [0u8; 12];
    assert_eq!(u32_to_str(999_999_999_999, &mut buf), 12);
    assert_eq!(&buf, b"999999999999");
}

#[test]
fn remaining_label_text() {
    let buf = remaining_label(1234);
    assert_eq!(&buf[..16], b"Remaining: 1234\0");
    let buf = remaining_label(0);
    assert_eq!(&buf[..13], b"Remaining: 0\0");
}

fn press(s: &mut Screen, key: Key) -> Request {
    let out = s.on_input(key, InputKind::Press);
    assert!(out.redraw);
    out.request
}

#[test]
fn keys_move_cursor_and_step_marks() {
    let mut s = Screen::new(pack("КНИГА"));
    assert_eq!(press(&mut s, Key::Up), Request::Nothing);
    assert_eq!(s.marks, [MARK_YELLOW, MARK_GREEN, MARK_GREEN, MARK_GREEN, MARK_GREEN]);
    press(&mut s, Key::Up);
    press(&mut s, Key::Up);
    assert_eq!(s.marks[0], MARK_GREEN);
    press(&mut s, Key::Down);
    assert_eq!(s.marks[0], MARK_GRAY);
    press(&mut s, Key::Up);
    assert_eq!(s.marks[0], MARK_GREEN);
    press(&mut s, Key::Left);
    assert_eq!(s.cursor, 0);
    for _ in 0..6 {
        press(&mut s, Key::Right);
    }
    assert_eq!(s.cursor, 4);
    press(&mut s, Key::Down);
    assert_eq!(s.marks[4], MARK_GRAY);
    assert_eq!(press(&mut s, Key::Center), Request::Filter);
    assert_eq!(press(&mut s, Key::Back), Request::Reset);
}

#[test]
fn non_presses_and_long_back() {
    let mut s = Screen::new(0);
    let out = s.on_input(Key::Up, InputKind::Release);
    assert_eq!(out.request, Request::Nothing);
    assert!(!out.redraw);
    assert_eq!(s.marks, [MARK_GREEN; 5]);
    let out = s.on_input(Key::Back, InputKind::Long);
    assert_eq!(out.request, Request::Exit);
    assert!(!out.redraw);
}

#[test]
fn after_the_game_only_back_counts() {
    let mut s = Screen::new(0);
    s.show_result = true;
    assert_eq!(press(&mut s, Key::Up), Request::Nothing);
    assert_eq!(s.marks, [MARK_GREEN; 5]);
    assert_eq!(press(&mut s, Key::Center), Request::Nothing);
    assert_eq!(press(&mut s, Key::Back), Request::Reset);
}

fn dict_file(words: &[u32]) -> Vec<u8> {
    let mut data = vec![0, 0, 0, 0];
    for w in words {
        data.extend_from_slice(&w.to_le_bytes());
    }
    data
}

#[test]
fn filter_to_one_word_ends_the_game() {
    let words: Vec<u32> = ["КНИГА", "ПАРТА", "КАРТА", "МАРКА"].iter().map(|w| pack(w)).collect();
    let data = dict_file(&words);
    let randoms = vec![0u32; words.len()];
    let mut solver = Solver::new(4);
    let mut s = Screen::new(0);
    s.reset(&mut solver, &data, &words, &randoms);
    assert_eq!(s.guess, words[0]);
    assert_eq!(solver.count(), 4);
    // Answer КАРТА, guess ПАРТА.
    s.guess = words[1];
    s.marks = [MARK_GRAY, MARK_GREEN, MARK_GREEN, MARK_GREEN, MARK_GREEN];
    s.filter(&mut solver, &data, &words, &randoms);
    assert!(s.show_result);
    assert_eq!(s.result, ResultText::Guessed);
    assert_eq!(s.guess, words[2]);
}

#[test]
fn filter_to_none_and_to_many() {
    let words: Vec<u32> =
        ["КНИГА", "ПАРТА", "КАРТА", "МАРКА", "БАРКА"].iter().map(|w| pack(w)).collect();
    let data = dict_file(&words);
    let randoms = vec![0u32; words.len()];
    let mut solver = Solver::new(5);
    let mut s = Screen::new(0);
    s.reset(&mut solver, &data, &words, &randoms);
    assert_eq!(s.guess, words[0]);
    // Every letter of КНИГА gray: every word has an А, so none is left.
    s.marks = [MARK_GRAY; 5];
    s.cursor = 3;
    s.filter(&mut solver, &data, &words, &randoms);
    assert!(s.show_result);
    assert_eq!(s.result, ResultText::NoMatches);
    assert_eq!(s.cursor, 3);
    assert_eq!(solver.count(), 0);
    // A new game; guess ПАРТА with П and Т gray keeps МАРКА and БАРКА.
    s.reset(&mut solver, &data, &words, &randoms);
    s.guess = words[1];
    s.marks = [MARK_GRAY, MARK_GREEN, MARK_GREEN, MARK_GRAY, MARK_GREEN];
    s.cursor = 2;
    s.filter(&mut solver, &data, &words, &randoms);
    assert_eq!(solver.count(), 2);
    assert!(!s.show_result);
    assert_eq!(s.cursor, 0);
    assert_eq!(s.marks, [MARK_GREEN; 5]);
    // Both score four; with zero random numbers the tie goes to the later.
    assert_eq!(s.guess, words[4]);
}

#[test]
fn render_marks_screen() {
    let mut s = Screen::new(pack("ГГГГГ"));
    s.marks = [MARK_GREEN, MARK_YELLOW, MARK_GRAY, 0, MARK_GREEN];
    s.cursor = 1;
    let ops = s.render(7);
    assert_eq!(
        &ops[..4],
        &[
            DrawOp::Clear,
            DrawOp::SetColor(Color::Black),
            DrawOp::SmallFont,
            DrawOp::Text { x: 2, y: 8, label: Label::Remaining(7) },
        ]
    );
    // Г has 11 lit pixels; cell 3 has no mark and is not drawn.
    let dots = ops.iter().filter(|o| matches!(o, DrawOp::Dot { .. })).count();
    assert_eq!(dots, 4 * 11);
    assert_eq!(ops[4], DrawOp::SetColor(Color::Black));
    assert_eq!(ops[5], DrawOp::FillBox { x: 18, y: 16, w: 16, h: 16 });
    assert_eq!(ops[6], DrawOp::SetColor(Color::White));
    assert_eq!(ops[7], DrawOp::Dot { x: 23, y: 20 });
    assert!(ops.contains(&DrawOp::FillBox { x: 39, y: 18, w: 12, h: 12 }));
    assert!(ops.contains(&DrawOp::FillBox { x: 37, y: 33, w: 16, h: 2 }));
    assert!(ops.contains(&DrawOp::Frame { x: 56, y: 16, w: 16, h: 16 }));
    assert!(!ops.iter().any(|o| matches!(o, DrawOp::Dot { x: 80..=90, .. })));
    let n = ops.len();
    assert_eq!(ops[n - 3], DrawOp::SmallFont);
    assert_eq!(ops[n - 2], DrawOp::Text { x: 2, y: 55, label: Label::MarkHint });
    assert_eq!(ops[n - 1], DrawOp::Text { x: 2, y: 63, label: Label::ExitHint });
}

#[test]
fn render_result_screen() {
    let mut s = Screen::new(pack("ГГГГГ"));
    s.show_result = true;
    s.result = ResultText::Guessed;
    let ops = s.render(1);
    let frames: Vec<&DrawOp> = ops.iter().filter(|o| matches!(o, DrawOp::Frame { .. })).collect();
    assert_eq!(frames.len(), 5);
    assert_eq!(*frames[4], DrawOp::Frame { x: 94, y: 20, w: 16, h: 16 });
    assert!(ops.contains(&DrawOp::Dot { x: 23, y: 24 }));
    let n = ops.len();
    assert_eq!(ops[n - 2], DrawOp::Text { x: 2, y: 55, label: Label::Result(ResultText::Guessed) });
    assert_eq!(ops[n - 1], DrawOp::Text { x: 2, y: 63, label: Label::RestartHint });
}

#[test]
fn filter_scores_only_the_words_left() {
    // ЯБЛОК cannot be scored; the marks drop it, so the filter works.
    let words: Vec<u32> =
        ["ЯБЛОК", "ПАРТА", "МАРКА", "БАРКА"].iter().map(|w| pack(w)).collect();
    let data = dict_file(&words);
    let randoms = vec![0u32; words.len()];
    let mut solver = Solver::new(4);
    solver.init();
    let mut s = Screen::new(words[1]);
    s.marks = [MARK_GRAY, MARK_GREEN, MARK_GREEN, MARK_GRAY, MARK_GREEN];
    assert!(s.filter_can_score(&solver, &words));
    s.filter(&mut solver, &data, &words, &randoms);
    assert_eq!(solver.count(), 2);
    assert_eq!(s.guess, words[3]);
    // Marks that keep ЯБЛОК among several words cannot be scored.
    let mut solver = Solver::new(4);
    solver.init();
    let s = Screen::new(words[1]);
    let mut s2 = s;
    s2.marks = [0; 5];
    assert!(!s2.filter_can_score(&solver, &words));
}

#[test]
fn reset_with_one_word_does_not_score() {
    let words = vec![pack("ЯБЛОК")];
    let data = dict_file(&words);
    let mut solver = Solver::new(1);
    let mut s = Screen::new(0);
    s.reset(&mut solver, &data, &words, &[0]);
    assert_eq!(s.guess, words[0]);
    assert_eq!(solver.count(), 1);
}
