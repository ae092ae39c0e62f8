use wordle_solver::alphabet::{glyph_dots, CYR_GLYPHS, LETTER_BYTES};
use wordle_solver::dict::{
    cyr_word_dots, dict_words, get_word, words_in_file, unique_count, unpack_word, word_matches, word_to_str,
    MARK_GRAY, MARK_GREEN, MARK_YELLOW,
};

const ALPHABET: &str = "АБВГДЕЁЖЗИЙКЛМНОПРСТУФХЦЧШЩЪЫЬЭЮЯ";

fn letter(c: char) -> u32 {
    ALPHABET.chars().position(|a| a == c).expect("Russian capital letter") as u32
}

fn pack(word: &str) -> u32 {
    let mut packed = 0u32;
    for (i, c) in word.chars().enumerate() {
        packed |= letter(c) << (6 * i);
    }
    packed
}

const G: u8 = MARK_GREEN;
const Y: u8 = MARK_YELLOW;
const X: u8 = MARK_GRAY;

#[test]
fn unpack_word_splits_six_bit_fields() {
    let packed = 1 | (2 << 6) | (3 << 12) | (4 << 18) | (5 << 24);
    assert_eq!(unpack_word(packed), [1, 2, 3, 4, 5]);
    assert_eq!(unpack_word(u32::MAX), [63, 63, 63, 63, 63]);
    assert_eq!(unpack_word(pack("КНИГА")), [11, 14, 9, 3, 0]);
}

#[test]
fn unique_count_counts_distinct_letters() {
    assert_eq!(unique_count(pack("КНИГА")), 5);
    assert_eq!(unique_count(pack("ААААА")), 1);
    assert_eq!(unique_count(pack("ПАПКА")), 3);
    assert_eq!(unique_count(pack("ЁЖИКИ")), 4);
}

#[test]
fn word_to_str_is_utf8() {
    for word in ["КНИГА", "ЁЛКИЙ", "ЩЕЛЬЮ"] {
        let buf = word_to_str(pack(word));
        assert_eq!(&buf[..10], word.as_bytes());
        assert_eq!(buf[10], 0);
    }
}

#[test]
fn letter_bytes_match_the_alphabet() {
    for (i, c) in ALPHABET.chars().enumerate() {
        let mut enc = [0u8; 4];
        let s = c.encode_utf8(&mut enc);
        assert_eq!(&LETTER_BYTES[i][..2], s.as_bytes());
        assert_eq!(LETTER_BYTES[i][2], 0);
    }
}

#[test]
fn word_matches_all_green() {
    let w = pack("КНИГА");
    assert!(word_matches(w, w, &[G, G, G, G, G]));
    assert!(!word_matches(pack("КНИГИ"), w, &[G, G, G, G, G]));
}

#[test]
fn word_matches_yellow_and_gray() {
    let guess = pack("ПАРТА");
    // Answer КАРТА: П gray, А green, Р green, Т green, А green.
    assert!(word_matches(pack("КАРТА"), guess, &[X, G, G, G, G]));
    // A word with П is ruled out by the gray mark.
    assert!(!word_matches(pack("ПАРТА"), guess, &[X, G, G, G, G]));
    // Yellow: the letter is there, but not at this place.
    let guess = pack("АРКАН");
    assert!(word_matches(pack("ПАРТА"), guess, &[Y, Y, X, G, X]) == false);
    assert!(word_matches(pack("КАРТА"), pack("АКРТА"), &[Y, Y, G, G, G]));
    assert!(!word_matches(pack("КАРТА"), pack("АКРТА"), &[G, Y, G, G, G]));
}

#[test]
fn word_matches_counts_repeated_letters() {
    // Guess ААБВГ against answer АДЕЖЗ: first А green, second А gray.
    let guess = pack("ААБВГ");
    let marks = [G, X, X, X, X];
    assert!(word_matches(pack("АДЕЖЗ"), guess, &marks));
    // A word with two А is ruled out: the gray А says there is only one.
    assert!(!word_matches(pack("АДАЖЗ"), guess, &marks));
    // Two yellow А need two А elsewhere.
    let marks = [Y, Y, X, X, X];
    assert!(word_matches(pack("ДАЕАЖ"), pack("ААБВГ"), &marks) == false);
    assert!(word_matches(pack("ДЕАЖА"), pack("ААБВГ"), &marks));
    assert!(!word_matches(pack("ДЕАЖИ"), pack("ААБВГ"), &marks));
}

#[test]
fn word_matches_ignores_other_marks() {
    assert!(word_matches(pack("КНИГА"), pack("ПАРТЫ"), &[0, 0, 0, 0, 0]));
    assert!(word_matches(pack("КНИГА"), pack("ПАРТЫ"), &[7, 4, 0, 9, 200]));
}

fn dict_file(words: &[u32]) -> Vec<u8> {
    let mut data = vec![0xAA, 0xBB, 0xCC, 0xDD];
    for w in words {
        data.extend_from_slice(&w.to_le_bytes());
    }
    data
}

#[test]
fn dict_words_reads_whole_words_after_header() {
    let words = [pack("КНИГА"), pack("ПАРТА"), 0x0102_0304];
    let data = dict_file(&words);
    assert_eq!(dict_words(&data, 3), words.to_vec());
    assert_eq!(dict_words(&data, 2), words[..2].to_vec());
    assert_eq!(dict_words(&data, 10), words.to_vec());
    // A cut word at the end is not read.
    assert_eq!(dict_words(&data[..data.len() - 1], 10), words[..2].to_vec());
    assert_eq!(dict_words(&data[..3], 10), Vec::<u32>::new());
    assert_eq!(dict_words(&[], 10), Vec::<u32>::new());
}

#[test]
fn get_word_reads_by_index() {
    let words = [pack("КНИГА"), pack("ПАРТА"), 0x0102_0304];
    let data = dict_file(&words);
    for (i, w) in words.iter().enumerate() {
        assert_eq!(get_word(&data, i as u16), *w);
    }
    // Past the end, missing bytes read as zero.
    assert_eq!(get_word(&data[..data.len() - 1], 2), 0x0002_0304);
    assert_eq!(get_word(&data, 3), 0);
    assert_eq!(get_word(&[], 0), 0);
}

#[test]
fn glyph_dots_draws_lit_pixels() {
    // Г: a full top row and a bar on the left.
    let dots = glyph_dots(10, 20, 3);
    let mut expected = vec![(10, 20), (11, 20), (12, 20), (13, 20), (14, 20)];
    for row in 1..7 {
        expected.push((10, 20 + row));
    }
    assert_eq!(dots, expected);
    // Indices past the alphabet draw Я.
    assert_eq!(glyph_dots(0, 0, 40), glyph_dots(0, 0, 32));
    let lit: u32 = CYR_GLYPHS[32].iter().map(|b| b.count_ones()).sum();
    assert_eq!(glyph_dots(0, 0, 32).len() as u32, lit);
}

#[test]
fn cyr_word_dots_draws_each_letter() {
    let x_pos = [0, 10, 20, 30, 40];
    let word = pack("ГГГГА");
    let dots = cyr_word_dots(&x_pos, 5, word);
    let mut expected = Vec::new();
    for (i, l) in [3usize, 3, 3, 3, 0].iter().enumerate() {
        expected.extend(glyph_dots(x_pos[i], 5, *l));
    }
    assert_eq!(dots, expected);
}

#[test]
fn words_in_file_counts_whole_words() {
    let data = dict_file(&[1, 2, 3]);
    assert_eq!(words_in_file(&data), 3);
    assert_eq!(words_in_file(&data[..data.len() - 1]), 2);
    assert_eq!(words_in_file(&data[..4]), 0);
    assert_eq!(words_in_file(&data[..2]), 0);
    let big = vec![0u8; 4 + 4 * 70000];
    assert_eq!(words_in_file(&big), 65535);
}

#[test]
fn glyph_bit_zero_is_the_leftmost_column() {
    for l in 0..33usize {
        let dots = glyph_dots(100, 200, l);
        let mut expected = Vec::new();
        for row in 0..7 {
            for col in 0..5 {
                if (CYR_GLYPHS[l][row] >> col) & 1 == 1 {
                    expected.push((100 + col as i32, 200 + row as i32));
                }
            }
        }
        assert_eq!(dots, expected);
    }
    // Б: the second row is the bar on the left.
    let dots = glyph_dots(0, 0, 1);
    assert!(dots.contains(&(0, 1)));
    assert!(!dots.contains(&(4, 1)));
}
