use vstd::prelude::*;
use crate::alphabet::{glyph_dots_spec, push_glyph_dots, LETTER_BYTES, letter_codepoint, utf8_lead, utf8_trail, lemma_letter_bytes_are_utf8};
use crate::bits::{bit, low_ones, lemma_ones_is_low_ones, lemma_low_ones_set_bit, lemma_low_ones_zero};

verus! {

/// The letter at position `i` (`0 <= i < 5`) of a packed word.
pub open spec fn letter_of(word: u32, i: int) -> u8 {
    ((word >> ((6 * i) as u32)) & 0x3Fu32) as u8
}

/// The five letters of a packed word, first letter first.
pub open spec fn letters_of(word: u32) -> Seq<u8> {
    Seq::new(5, |i: int| letter_of(word, i))
}

/// Splits a packed word into its five letters.
pub fn unpack_word(packed: u32) -> (letters: [u8; 5])
    ensures
        letters@ == letters_of(packed),
        forall|i: int| 0 <= i < 5 ==> #[trigger] letters@[i] < 64,
{
    let mut letters = [0u8; 5];
    for i in 0..5usize
        invariant
            letters@.len() == 5,
            forall|j: int| 0 <= j < i ==> letters@[j] == letter_of(packed, j),
            forall|j: int| 0 <= j < i ==> #[trigger] letters@[j] < 64,
    {
        let shift: u32 = (i as u32) * 6;
        let field: u32 = (packed >> shift) & 0x3F;
        assert(field < 64) by (bit_vector)
            requires
                field == (packed >> shift) & 0x3Fu32,
        ;
        letters[i] = field as u8;
    }
    assert(letters@ =~= letters_of(packed));
    letters
}

/// The word as a zero-terminated UTF-8 string: two bytes per letter, then a
/// zero byte.
pub fn word_to_str(word: u32) -> (buf: [u8; 11])
    requires
        forall|i: int| 0 <= i < 5 ==> #[trigger] letter_of(word, i) < 33,
    ensures
        forall|i: int|
            0 <= i < 5 ==> buf@[2 * i] == utf8_lead(letter_codepoint(letter_of(word, i) as int))
                && buf@[2 * i + 1] == utf8_trail(letter_codepoint(letter_of(word, i) as int)),
        buf@[10] == 0,
{
    let letters = unpack_word(word);
    let mut buf = [0u8; 11];
    for i in 0..5usize
        invariant
            letters@ == letters_of(word),
            forall|i: int| 0 <= i < 5 ==> #[trigger] letter_of(word, i) < 33,
            forall|j: int|
                0 <= j < i ==> buf@[2 * j] == utf8_lead(letter_codepoint(letter_of(word, j) as int))
                    && buf@[2 * j + 1] == utf8_trail(
                    letter_codepoint(letter_of(word, j) as int),
                ),
    {
        let idx = letters[i] as usize;
        assert(idx == letter_of(word, i as int));
        let bytes = &LETTER_BYTES[idx];
        proof {
            lemma_letter_bytes_are_utf8(idx as int);
        }
        buf[i * 2] = bytes[0];
        buf[i * 2 + 1] = bytes[1];
    }
    buf[10] = 0;
    buf
}

/// Size of the dictionary file's header, which precedes the packed words.
pub const DICT_HEADER_LEN: usize = 4;

/// Byte `i` of `data`, or zero past its end.
pub open spec fn byte_or_zero(data: Seq<u8>, i: int) -> int {
    if 0 <= i < data.len() {
        data[i] as int
    } else {
        0
    }
}

/// The little-endian `u32` stored at `off`, bytes past the end of `data` read
/// as zero.
pub open spec fn le_u32_at(data: Seq<u8>, off: int) -> int {
    byte_or_zero(data, off) + 0x100 * byte_or_zero(data, off + 1) + 0x10000 * byte_or_zero(
        data,
        off + 2,
    ) + 0x1000000 * byte_or_zero(data, off + 3)
}

/// Offset in the dictionary file of the word with index `idx`.
pub open spec fn word_offset(idx: int) -> int {
    DICT_HEADER_LEN + 4 * idx
}

/// Number of whole words that the dictionary file `data` holds, at most
/// `word_count`.
pub open spec fn stored_words(data: Seq<u8>, word_count: int) -> int {
    let whole = if data.len() < DICT_HEADER_LEN {
        0
    } else {
        (data.len() - DICT_HEADER_LEN) / 4
    };
    if whole < word_count {
        whole
    } else {
        word_count
    }
}

/// Reads the little-endian `u32` at `off`; bytes past the end read as zero.
fn read_le_u32(data: &[u8], off: usize) -> (r: u32)
    requires
        off + 4 <= usize::MAX,
    ensures
        r == le_u32_at(data@, off as int),
{
    let mut buf = [0u32; 4];
    for k in 0..4usize
        invariant
            off + 4 <= usize::MAX,
            forall|j: int| 0 <= j < k ==> buf@[j] == byte_or_zero(data@, off + j),
            forall|j: int| 0 <= j < 4 ==> buf@[j] < 256,
            forall|j: int| k <= j < 4 ==> buf@[j] == 0,
    {
        if off + k < data.len() {
            buf[k] = data[off + k] as u32;
        }
    }
    let b0 = buf[0];
    let b1 = buf[1];
    let b2 = buf[2];
    let b3 = buf[3];
    assert((b0 | (b1 << 8u32) | (b2 << 16u32) | (b3 << 24u32)) == b0 + 0x100 * b1 + 0x10000 * b2
        + 0x1000000 * b3) by (bit_vector)
        requires
            b0 < 256,
            b1 < 256,
            b2 < 256,
            b3 < 256,
    ;
    b0 | (b1 << 8u32) | (b2 << 16u32) | (b3 << 24u32)
}

/// The packed word with index `idx` of the dictionary file `data`: the four
/// bytes after the header and the `idx` words before it, little-endian; bytes
/// missing at the end of the file read as zero.
pub fn get_word(data: &[u8], idx: u16) -> (word: u32)
    ensures
        word == le_u32_at(data@, word_offset(idx as int)),
{
    let offset = DICT_HEADER_LEN + (idx as usize) * 4;
    read_le_u32(data, offset)
}

/// Number of whole words that the dictionary file `data` holds after its
/// header, at most 65535 (word indices are `u16`).
pub fn words_in_file(data: &[u8]) -> (n: u16)
    ensures
        n == stored_words(data@, 65535),
{
    if data.len() < DICT_HEADER_LEN {
        return 0;
    }
    let whole = (data.len() - DICT_HEADER_LEN) / 4;
    if whole < 65535 {
        whole as u16
    } else {
        65535
    }
}

/// The words of the dictionary file `data`, in order: as many whole words as
/// the file holds after its header, at most `word_count`.
pub fn dict_words(data: &[u8], word_count: u16) -> (words: Vec<u32>)
    ensures
        words@.len() == stored_words(data@, word_count as int),
        forall|i: int|
            0 <= i < words@.len() ==> #[trigger] words@[i] == le_u32_at(data@, word_offset(i)),
{
    let mut words: Vec<u32> = Vec::new();
    let mut i: u16 = 0;
    while i < word_count
        invariant
            i <= word_count,
            words@.len() == i,
            i <= stored_words(data@, word_count as int),
            forall|j: int|
                0 <= j < words@.len() ==> #[trigger] words@[j] == le_u32_at(data@, word_offset(j)),
        ensures
            words@.len() == stored_words(data@, word_count as int),
            forall|j: int|
                0 <= j < words@.len() ==> #[trigger] words@[j] == le_u32_at(data@, word_offset(j)),
        decreases word_count - i,
    {
        let offset = DICT_HEADER_LEN + (i as usize) * 4;
        if data.len() < offset || data.len() - offset < 4 {
            break;
        }
        let word = read_le_u32(data, offset);
        words.push(word);
        i = i + 1;
    }
    words
}

/// The dots that draw the first `n` letters of `word` as glyphs, letter `i`
/// with its top left corner at (`x_pos[i]`, `y`).
pub open spec fn word_dots_upto(x_pos: Seq<i32>, y: int, word: u32, n: int) -> Seq<(i32, i32)>
    decreases n,
{
    if n <= 0 {
        Seq::empty()
    } else {
        word_dots_upto(x_pos, y, word, n - 1) + glyph_dots_spec(
            x_pos[n - 1] as int,
            y,
            letter_of(word, n - 1) as int,
        )
    }
}

/// A word is drawn letter by letter: first the glyph of its first letter at
/// `x_pos[0]`, then the second at `x_pos[1]`, and so on to the fifth.
pub proof fn lemma_word_dots_in_order(x_pos: Seq<i32>, y: int, word: u32)
    ensures
        word_dots_upto(x_pos, y, word, 5) == glyph_dots_spec(
            x_pos[0] as int,
            y,
            letter_of(word, 0) as int,
        ) + glyph_dots_spec(x_pos[1] as int, y, letter_of(word, 1) as int) + glyph_dots_spec(
            x_pos[2] as int,
            y,
            letter_of(word, 2) as int,
        ) + glyph_dots_spec(x_pos[3] as int, y, letter_of(word, 3) as int) + glyph_dots_spec(
            x_pos[4] as int,
            y,
            letter_of(word, 4) as int,
        ),
{
    reveal_with_fuel(word_dots_upto, 6);
    assert(word_dots_upto(x_pos, y, word, 0) == Seq::<(i32, i32)>::empty());
    assert(word_dots_upto(x_pos, y, word, 1) =~= glyph_dots_spec(
        x_pos[0] as int,
        y,
        letter_of(word, 0) as int,
    ));
}

/// The dots that draw `word` in glyphs, letter `i` with its top left corner
/// at (`x_pos[i]`, `y`), letter by letter.
pub fn cyr_word_dots(x_pos: &[i32; 5], y: i32, word: u32) -> (dots: Vec<(i32, i32)>)
    requires
        forall|i: int| 0 <= i < 5 ==> #[trigger] letter_of(word, i) < 33,
        forall|i: int| 0 <= i < 5 ==> #[trigger] x_pos@[i] <= i32::MAX - 4,
        y <= i32::MAX - 6,
    ensures
        dots@ == word_dots_upto(x_pos@, y as int, word, 5),
        dots@ == glyph_dots_spec(x_pos@[0] as int, y as int, letter_of(word, 0) as int)
            + glyph_dots_spec(x_pos@[1] as int, y as int, letter_of(word, 1) as int)
            + glyph_dots_spec(x_pos@[2] as int, y as int, letter_of(word, 2) as int)
            + glyph_dots_spec(x_pos@[3] as int, y as int, letter_of(word, 3) as int)
            + glyph_dots_spec(x_pos@[4] as int, y as int, letter_of(word, 4) as int),
{
    let letters = unpack_word(word);
    let mut dots: Vec<(i32, i32)> = Vec::new();
    for li in 0..5usize
        invariant
            letters@ == letters_of(word),
            forall|i: int| 0 <= i < 5 ==> #[trigger] letter_of(word, i) < 33,
            forall|i: int| 0 <= i < 5 ==> #[trigger] x_pos@[i] <= i32::MAX - 4,
            y <= i32::MAX - 6,
            dots@ == word_dots_upto(x_pos@, y as int, word, li as int),
    {
        let l = letters[li] as usize;
        assert(l == letter_of(word, li as int));
        let ox = x_pos[li];
        assert(ox <= i32::MAX - 4);
        push_glyph_dots(&mut dots, ox, y, l);
    }
    proof {
        lemma_word_dots_in_order(x_pos@, y as int, word);
    }
    dots
}

/// Number of positions `i < n` of `s` whose letter does not occur before `i`.
pub open spec fn distinct_prefix(s: Seq<u8>, n: int) -> nat
    decreases n,
{
    if n <= 0 {
        0
    } else {
        distinct_prefix(s, n - 1) + (if (forall|j: int| 0 <= j < n - 1 ==> #[trigger] s[j] != s[n - 1]) {
            1nat
        } else {
            0nat
        })
    }
}

/// Number of different letters in a packed word.
pub open spec fn distinct_letters(word: u32) -> nat {
    distinct_prefix(letters_of(word), 5)
}

/// A word has between one and five different letters.
pub proof fn lemma_distinct_bounds(word: u32)
    ensures
        1 <= distinct_letters(word) <= 5,
{
    let s = letters_of(word);
    assert(distinct_prefix(s, 0) == 0);
    assert(distinct_prefix(s, 1) == 1);
    assert(distinct_prefix(s, 2) <= 2);
    assert(distinct_prefix(s, 3) <= 3);
    assert(distinct_prefix(s, 4) <= 4);
    assert(distinct_prefix(s, 5) <= 5);
}

/// Number of different letters in `word`.
///
/// Each letter must be below 32: the letter picks a bit of a 32-bit mask.
pub fn unique_count(word: u32) -> (r: u32)
    requires
        forall|i: int| 0 <= i < 5 ==> #[trigger] letter_of(word, i) < 32,
    ensures
        r == distinct_letters(word),
{
    let mut mask = 0u32;
    proof {
        assert forall|k: int| 0 <= k < 64 implies !#[trigger] bit(mask as u64, k) by {
            let kk = k as u64;
            assert((0u64 >> kk) & 1u64 == 0u64) by (bit_vector);
        }
        lemma_low_ones_zero(64);
    }
    for i in 0..5usize
        invariant
            forall|i: int| 0 <= i < 5 ==> #[trigger] letter_of(word, i) < 32,
            forall|k: int|
                0 <= k < 64 ==> (#[trigger] bit(mask as u64, k) <==> exists|j: int|
                    0 <= j < i && letter_of(word, j) == k),
            low_ones(mask as u64, 64) == distinct_prefix(letters_of(word), i as int),
    {
        let shift: u32 = (i as u32) * 6;
        let field: u32 = (word >> shift) & 0x3F;
        assert(field < 64) by (bit_vector)
            requires
                field == (word >> shift) & 0x3Fu32,
        ;
        assert(shift == (6 * i) as u32);
        let letter = field as u8;
        assert(letter == letter_of(word, i as int));
        let ghost old_mask = mask;
        mask |= 1u32 << letter;
        proof {
            let m1 = old_mask as u64;
            let m2 = mask as u64;
            let l = letter as int;
            assert forall|k: int| 0 <= k < 64 implies (#[trigger] bit(m2, k) <==> (bit(m1, k) || k
                == l)) by {
                let kk = k as u64;
                let lu = letter as u32;
                let m = old_mask;
                assert(((((m | (1u32 << lu)) as u64) >> kk) & 1u64 == 1u64) == ((((m as u64) >> kk)
                    & 1u64 == 1u64) || kk == lu as u64)) by (bit_vector)
                    requires
                        lu < 32u32,
                        kk < 64u64,
                ;
            }
            lemma_low_ones_set_bit(m1, m2, l, 64);
            let s = letters_of(word);
            assert(s[i as int] == letter);
            assert(!bit(m1, l) <==> (forall|j: int| 0 <= j < i ==> s[j] != s[i as int])) by {
                if bit(m1, l) {
                    let j = choose|j: int| 0 <= j < i && letter_of(word, j) == l;
                    assert(s[j] == s[i as int]);
                }
            }
            assert forall|k: int| 0 <= k < 64 implies (bit(m2, k) <==> exists|j: int|
                0 <= j < i + 1 && letter_of(word, j) == k) by {
                if bit(m2, k) && !bit(m1, k) {
                    assert(letter_of(word, i as int) == k);
                }
            }
        }
    }
    proof {
        lemma_ones_is_low_ones(mask as u64);
    }
    mask.count_ones()
}

/// Number of positions `j < n` of `s` that hold the letter `c`.
pub open spec fn count_letter(s: Seq<u8>, c: u8, n: int) -> nat
    decreases n,
{
    if n <= 0 {
        0
    } else {
        count_letter(s, c, n - 1) + (if s[n - 1] == c { 1nat } else { 0nat })
    }
}

/// Number of positions `i < n` that carry the mark `mark` and whose guessed
/// letter is `c`.
pub open spec fn count_marked(guess: Seq<u8>, marks: Seq<u8>, mark: u8, c: u8, n: int) -> nat
    decreases n,
{
    if n <= 0 {
        0
    } else {
        count_marked(guess, marks, mark, c, n - 1) + (if marks[n - 1] == mark && guess[n - 1]
            == c {
            1nat
        } else {
            0nat
        })
    }
}

/// Mark for a letter that stands at the right place.
pub const MARK_GREEN: u8 = 1;

/// Mark for a letter that occurs in the word, but elsewhere.
pub const MARK_YELLOW: u8 = 2;

/// Mark for a letter that does not occur in the word (beyond the copies
/// already marked green or yellow).
pub const MARK_GRAY: u8 = 3;

/// Number of green and yellow marks given to the letter `c` of the guess.
pub open spec fn marked_copies(guess: Seq<u8>, marks: Seq<u8>, c: u8) -> nat {
    count_marked(guess, marks, MARK_GREEN, c, 5) + count_marked(guess, marks, MARK_YELLOW, c, 5)
}

/// `word` is a possible answer, given that `guess` was answered with `marks`
/// (one mark per position; a mark other than green, yellow or gray says
/// nothing):
/// - each green position of the guess holds the word's letter there;
/// - each yellow position does not;
/// - each yellow letter occurs in the word at least as often as it was marked
///   green or yellow;
/// - each gray letter occurs in the word at most as often as it was marked
///   green or yellow.
pub open spec fn consistent(word: Seq<u8>, guess: Seq<u8>, marks: Seq<u8>) -> bool {
    &&& forall|i: int|
        #![trigger marks[i]]
        0 <= i < 5 && marks[i] == MARK_GREEN ==> word[i] == guess[i]
    &&& forall|i: int|
        #![trigger marks[i]]
        0 <= i < 5 && marks[i] == MARK_YELLOW ==> word[i] != guess[i]
    &&& forall|i: int|
        #![trigger marks[i]]
        0 <= i < 5 && marks[i] == MARK_YELLOW ==> marked_copies(guess, marks, guess[i])
            <= count_letter(word, guess[i], 5)
    &&& forall|i: int|
        #![trigger marks[i]]
        0 <= i < 5 && marks[i] == MARK_GRAY ==> count_letter(word, guess[i], 5)
            <= marked_copies(guess, marks, guess[i])
}

/// Positions `j < n` that are taken and hold `c`.
spec fn count_taken(used: Seq<bool>, w: Seq<u8>, c: u8, n: int) -> nat
    decreases n,
{
    if n <= 0 {
        0
    } else {
        count_taken(used, w, c, n - 1) + (if used[n - 1] && w[n - 1] == c { 1nat } else { 0nat })
    }
}

/// Positions `j < n` that are free and hold `c`.
spec fn count_free(used: Seq<bool>, w: Seq<u8>, c: u8, n: int) -> nat
    decreases n,
{
    if n <= 0 {
        0
    } else {
        count_free(used, w, c, n - 1) + (if !used[n - 1] && w[n - 1] == c { 1nat } else { 0nat })
    }
}

proof fn lemma_taken_free_split(used: Seq<bool>, w: Seq<u8>, c: u8, n: int)
    requires
        n >= 0,
    ensures
        count_taken(used, w, c, n) + count_free(used, w, c, n) == count_letter(w, c, n),
        count_free(used, w, c, n) > 0 <==> exists|j: int|
            0 <= j < n && !used[j] && w[j] == c,
    decreases n,
{
    if n > 0 {
        lemma_taken_free_split(used, w, c, n - 1);
        if count_free(used, w, c, n - 1) > 0 {
            let j = choose|j: int| 0 <= j < n - 1 && !used[j] && w[j] == c;
            assert(0 <= j < n && !used[j] && w[j] == c);
        }
    }
}

proof fn lemma_taken_update(used: Seq<bool>, w: Seq<u8>, c: u8, n: int, k: int)
    requires
        0 <= k < used.len(),
        0 <= n <= used.len(),
        !used[k],
    ensures
        count_taken(used.update(k, true), w, c, n) == count_taken(used, w, c, n) + (if k < n
            && w[k] == c {
            1nat
        } else {
            0nat
        }),
    decreases n,
{
    if n > 0 {
        lemma_taken_update(used, w, c, n - 1, k);
    }
}

proof fn lemma_taken_greens(used: Seq<bool>, w: Seq<u8>, g: Seq<u8>, m: Seq<u8>, c: u8, n: int)
    requires
        n >= 0,
        forall|j: int| 0 <= j < n ==> used[j] == (m[j] == MARK_GREEN),
        forall|j: int| 0 <= j < n && m[j] == MARK_GREEN ==> w[j] == g[j],
    ensures
        count_taken(used, w, c, n) == count_marked(g, m, MARK_GREEN, c, n),
    decreases n,
{
    if n > 0 {
        lemma_taken_greens(used, w, g, m, c, n - 1);
    }
}

/// Counting marks over a longer prefix never counts fewer.
pub proof fn lemma_marked_monotone(g: Seq<u8>, m: Seq<u8>, mark: u8, c: u8, i: int, n: int)
    requires
        0 <= i <= n,
    ensures
        count_marked(g, m, mark, c, i) <= count_marked(g, m, mark, c, n),
    decreases n - i,
{
    if i < n {
        lemma_marked_monotone(g, m, mark, c, i, n - 1);
    }
}

/// The first position that is not taken yet and holds `c`.
fn first_free(used: &[bool; 5], w: &[u8; 5], c: u8) -> (r: Option<usize>)
    ensures
        r matches Some(j) ==> j < 5 && !used@[j as int] && w@[j as int] == c,
        r is None ==> forall|j: int| 0 <= j < 5 ==> !(!used@[j] && w@[j] == c),
{
    for j in 0..5usize
        invariant
            forall|k: int| 0 <= k < j ==> !(!used@[k] && w@[k] == c),
    {
        if !used[j] && w[j] == c {
            return Some(j);
        }
    }
    None
}

/// Whether `word` can still be the answer after `guess` was answered with
/// `marks` (green, yellow or gray per position).
pub fn word_matches(word: u32, guess: u32, marks: &[u8; 5]) -> (r: bool)
    ensures
        r == consistent(letters_of(word), letters_of(guess), marks@),
{
    let w = unpack_word(word);
    let g = unpack_word(guess);
    let ghost ws = w@;
    let ghost gs = g@;
    let ghost ms = marks@;
    assert(ms.len() == 5);

    let mut used = [false; 5];

    for i in 0..5usize
        invariant
            w@ == ws,
            g@ == gs,
            ms == marks@,
            ws == letters_of(word),
            gs == letters_of(guess),
            ms.len() == 5,
            ws.len() == 5,
            gs.len() == 5,
            forall|j: int| 0 <= j < i ==> used@[j] == (ms[j] == MARK_GREEN),
            forall|j: int| i <= j < 5 ==> !used@[j],
            forall|j: int| 0 <= j < i && ms[j] == MARK_GREEN ==> ws[j] == gs[j],
    {
        let mark = marks[i];
        assert(mark == ms[i as int]);
        if mark == MARK_GREEN {
            if w[i] != g[i] {
                assert(ms[i as int] == MARK_GREEN && ws[i as int] != gs[i as int]);
                return false;
            }
            used[i] = true;
        }
    }

    proof {
        assert forall|c: u8| #[trigger] count_taken(used@, ws, c, 5) == count_marked(gs, ms, MARK_GREEN, c, 5)
            + count_marked(gs, ms, MARK_YELLOW, c, 0) by {
            lemma_taken_greens(used@, ws, gs, ms, c, 5);
        }
    }

    for i in 0..5usize
        invariant
            w@ == ws,
            g@ == gs,
            ms == marks@,
            ws == letters_of(word),
            gs == letters_of(guess),
            ms.len() == 5,
            ws.len() == 5,
            gs.len() == 5,
            forall|j: int| 0 <= j < 5 && ms[j] == MARK_GREEN ==> ws[j] == gs[j],
            forall|j: int| 0 <= j < i && ms[j] == MARK_YELLOW ==> ws[j] != gs[j],
            forall|c: u8| #[trigger] count_taken(used@, ws, c, 5) == count_marked(gs, ms, MARK_GREEN, c, 5)
                + count_marked(gs, ms, MARK_YELLOW, c, i as int),
    {
        let mark = marks[i];
        assert(mark == ms[i as int]);
        if mark == MARK_YELLOW {
            if w[i] == g[i] {
                assert(ms[i as int] == MARK_YELLOW && ws[i as int] == gs[i as int]);
                return false;
            }
            match first_free(&used, &w, g[i]) {
                Some(j) => {
                    let ghost before = used@;
                    used[j] = true;
                    proof {
                        assert(used@ == before.update(j as int, true));
                        assert forall|c: u8| #[trigger] count_taken(used@, ws, c, 5) == count_marked(gs, ms, MARK_GREEN, c, 5)
                            + count_marked(gs, ms, MARK_YELLOW, c, i + 1) by {
                            lemma_taken_update(before, ws, c, 5, j as int);
                            assert(count_taken(before, ws, c, 5) == count_marked(gs, ms, MARK_GREEN, c, 5)
                                + count_marked(gs, ms, MARK_YELLOW, c, i as int));
                        }
                    }
                },
                None => {
                    proof {
                        let c = gs[i as int];
                        lemma_taken_free_split(used@, ws, c, 5);
                        assert(count_taken(used@, ws, c, 5) == count_marked(gs, ms, MARK_GREEN, c, 5)
                            + count_marked(gs, ms, MARK_YELLOW, c, i as int));
                        lemma_marked_monotone(gs, ms, MARK_YELLOW, c, i + 1, 5);
                        assert(ms[i as int] == MARK_YELLOW && marked_copies(gs, ms, c) > count_letter(ws, c, 5));
                    }
                    return false;
                },
            }
        } else {
            proof {
                assert forall|c: u8| #[trigger] count_taken(used@, ws, c, 5) == count_marked(gs, ms, MARK_GREEN, c, 5)
                    + count_marked(gs, ms, MARK_YELLOW, c, i + 1) by {
                    assert(count_taken(used@, ws, c, 5) == count_marked(gs, ms, MARK_GREEN, c, 5)
                        + count_marked(gs, ms, MARK_YELLOW, c, i as int));
                }
            }
        }
    }

    for i in 0..5usize
        invariant
            w@ == ws,
            g@ == gs,
            ms == marks@,
            ws == letters_of(word),
            gs == letters_of(guess),
            ms.len() == 5,
            ws.len() == 5,
            gs.len() == 5,
            forall|c: u8| #[trigger] count_taken(used@, ws, c, 5) == marked_copies(gs, ms, c),
            forall|j: int| 0 <= j < i && ms[j] == MARK_GRAY ==> count_letter(ws, gs[j], 5)
                <= marked_copies(gs, ms, gs[j]),
    {
        let mark = marks[i];
        assert(mark == ms[i as int]);
        if mark == MARK_GRAY {
            let c = g[i];
            proof {
                lemma_taken_free_split(used@, ws, c, 5);
                assert(count_taken(used@, ws, c, 5) == marked_copies(gs, ms, c));
            }
            if first_free(&used, &w, c).is_some() {
                assert(ms[i as int] == MARK_GRAY && count_letter(ws, gs[i as int], 5) > marked_copies(gs, ms, gs[i as int]));
                return false;
            }
        }
    }

    proof {
        assert forall|i: int| 0 <= i < 5 && ms[i] == MARK_YELLOW implies marked_copies(gs, ms, gs[i])
            <= count_letter(ws, gs[i], 5) by {
            lemma_taken_free_split(used@, ws, gs[i], 5);
            assert(count_taken(used@, ws, gs[i], 5) == marked_copies(gs, ms, gs[i]));
        }
    }
    true
}

} // verus!
