use vstd::prelude::*;

verus! {

/// Code point of the capital Russian letter with alphabet index `l`
/// (`0 <= l < 33`): `А`..`Е` are U+0410..U+0415, `Ё` is U+0401, and `Ж`..`Я`
/// are U+0416..U+042F.
pub open spec fn letter_codepoint(l: int) -> int {
    if l < 6 {
        0x410 + l
    } else if l == 6 {
        0x401
    } else {
        0x410 + l - 1
    }
}

/// First byte of the two-byte UTF-8 encoding of the code point `cp`
/// (`0x80 <= cp < 0x800`).
pub open spec fn utf8_lead(cp: int) -> int {
    0xC0 + cp / 64
}

/// Second byte of the two-byte UTF-8 encoding of the code point `cp`.
pub open spec fn utf8_trail(cp: int) -> int {
    0x80 + cp % 64
}

/// UTF-8 encoding of each capital Russian letter, in alphabet order, followed
/// by a zero byte.
pub const LETTER_BYTES: [[u8; 3]; 33] = [
    [0xD0, 0x90, 0], // А
    [0xD0, 0x91, 0], // Б
    [0xD0, 0x92, 0], // В
    [0xD0, 0x93, 0], // Г
    [0xD0, 0x94, 0], // Д
    [0xD0, 0x95, 0], // Е
    [0xD0, 0x81, 0], // Ё
    [0xD0, 0x96, 0], // Ж
    [0xD0, 0x97, 0], // З
    [0xD0, 0x98, 0], // И
    [0xD0, 0x99, 0], // Й
    [0xD0, 0x9A, 0], // К
    [0xD0, 0x9B, 0], // Л
    [0xD0, 0x9C, 0], // М
    [0xD0, 0x9D, 0], // Н
    [0xD0, 0x9E, 0], // О
    [0xD0, 0x9F, 0], // П
    [0xD0, 0xA0, 0], // Р
    [0xD0, 0xA1, 0], // С
    [0xD0, 0xA2, 0], // Т
    [0xD0, 0xA3, 0], // У
    [0xD0, 0xA4, 0], // Ф
    [0xD0, 0xA5, 0], // Х
    [0xD0, 0xA6, 0], // Ц
    [0xD0, 0xA7, 0], // Ч
    [0xD0, 0xA8, 0], // Ш
    [0xD0, 0xA9, 0], // Щ
    [0xD0, 0xAA, 0], // Ъ
    [0xD0, 0xAB, 0], // Ы
    [0xD0, 0xAC, 0], // Ь
    [0xD0, 0xAD, 0], // Э
    [0xD0, 0xAE, 0], // Ю
    [0xD0, 0xAF, 0], // Я
];

/// Each row of `LETTER_BYTES` is the UTF-8 encoding of its letter, then zero.
pub proof fn lemma_letter_bytes_are_utf8(l: int)
    requires
        0 <= l < 33,
    ensures
        LETTER_BYTES@[l]@.len() == 3,
        LETTER_BYTES@[l]@[0] == utf8_lead(letter_codepoint(l)),
        LETTER_BYTES@[l]@[1] == utf8_trail(letter_codepoint(l)),
        LETTER_BYTES@[l]@[2] == 0,
{
}

/// 5x7 bitmaps of the capital Russian letters, in alphabet order: one byte per
/// row, top row first, pixels in the low five bits; bit 0 is the leftmost
/// column and bit 4 the rightmost.
pub const CYR_GLYPHS: [[u8; 7]; 33] = [
    [0x04, 0x0A, 0x11, 0x11, 0x1F, 0x11, 0x11], // А
    [0x1F, 0x01, 0x01, 0x0F, 0x11, 0x11, 0x0F], // Б
    [0x0F, 0x11, 0x11, 0x0F, 0x11, 0x11, 0x0F], // В
    [0x1F, 0x01, 0x01, 0x01, 0x01, 0x01, 0x01], // Г
    [0x04, 0x04, 0x0A, 0x0A, 0x11, 0x11, 0x1F], // Д
    [0x1F, 0x01, 0x01, 0x0F, 0x01, 0x01, 0x1F], // Е
    [0x1F, 0x01, 0x01, 0x0F, 0x01, 0x01, 0x1F], // Ё
    [0x11, 0x0A, 0x0A, 0x04, 0x0A, 0x0A, 0x11], // Ж
    [0x0F, 0x10, 0x10, 0x0C, 0x10, 0x10, 0x0F], // З
    [0x11, 0x11, 0x19, 0x15, 0x13, 0x11, 0x11], // И
    [0x11, 0x11, 0x19, 0x15, 0x13, 0x11, 0x11], // Й
    [0x11, 0x09, 0x05, 0x03, 0x05, 0x09, 0x11], // К
    [0x10, 0x10, 0x18, 0x14, 0x12, 0x11, 0x11], // Л
    [0x11, 0x1B, 0x15, 0x11, 0x11, 0x11, 0x11], // М
    [0x11, 0x11, 0x11, 0x1F, 0x11, 0x11, 0x11], // Н
    [0x0E, 0x11, 0x11, 0x11, 0x11, 0x11, 0x0E], // О
    [0x1F, 0x11, 0x11, 0x11, 0x11, 0x11, 0x11], // П
    [0x0F, 0x11, 0x11, 0x0F, 0x01, 0x01, 0x01], // Р
    [0x0E, 0x11, 0x01, 0x01, 0x01, 0x11, 0x0E], // С
    [0x1F, 0x04, 0x04, 0x04, 0x04, 0x04, 0x04], // Т
    [0x11, 0x11, 0x11, 0x0A, 0x0A, 0x04, 0x04], // У
    [0x04, 0x0E, 0x1F, 0x15, 0x15, 0x15, 0x0E], // Ф
    [0x11, 0x11, 0x0A, 0x04, 0x0A, 0x11, 0x11], // Х
    [0x11, 0x11, 0x11, 0x11, 0x11, 0x1F, 0x10], // Ц
    [0x11, 0x11, 0x11, 0x1E, 0x10, 0x10, 0x10], // Ч
    [0x15, 0x15, 0x15, 0x15, 0x15, 0x15, 0x1F], // Ш
    [0x15, 0x15, 0x15, 0x15, 0x15, 0x1F, 0x10], // Щ
    [0x0F, 0x08, 0x08, 0x0C, 0x18, 0x08, 0x08], // Ъ
    [0x0F, 0x09, 0x09, 0x0F, 0x09, 0x09, 0x09], // Ы
    [0x0F, 0x01, 0x01, 0x0F, 0x11, 0x11, 0x01], // Ь
    [0x0E, 0x11, 0x10, 0x1C, 0x10, 0x11, 0x0E], // Э
    [0x09, 0x09, 0x09, 0x0F, 0x09, 0x09, 0x09], // Ю
    [0x1E, 0x11, 0x11, 0x1E, 0x14, 0x12, 0x11], // Я
];

/// Pixel (`row`, `col`) of the glyph of letter `l` is lit (`row < 7`,
/// `col < 5`).
pub open spec fn glyph_lit(l: int, row: int, col: int) -> bool {
    (CYR_GLYPHS@[l]@[row] >> (col as u8)) & 1u8 == 1u8
}

/// Dot `k` of a glyph at (`x`, `y`), if pixel `k` (row `k / 5`, column
/// `k % 5`) of letter `l` is lit.
pub open spec fn glyph_dot(x: int, y: int, l: int, k: int) -> Option<(i32, i32)> {
    if glyph_lit(l, k / 5, k % 5) {
        Some(((x + k % 5) as i32, (y + k / 5) as i32))
    } else {
        None
    }
}

/// The dots of the first `n` pixels of the glyph of letter `l` drawn with its
/// top left corner at (`x`, `y`): the lit pixels, row by row from the top,
/// each row from the left.
pub open spec fn glyph_dots_upto(x: int, y: int, l: int, n: int) -> Seq<(i32, i32)> {
    Seq::new(n as nat, |k: int| k).filter_map(|k: int| glyph_dot(x, y, l, k))
}

/// All the dots of the glyph of letter `l` drawn at (`x`, `y`).
pub open spec fn glyph_dots_spec(x: int, y: int, l: int) -> Seq<(i32, i32)> {
    glyph_dots_upto(x, y, l, 35)
}

/// Appends the dots of the glyph of letter `l` at (`x`, `y`) to `dots`.
pub(crate) fn push_glyph_dots(dots: &mut Vec<(i32, i32)>, x: i32, y: i32, l: usize)
    requires
        l < 33,
        x <= i32::MAX - 4,
        y <= i32::MAX - 6,
    ensures
        final(dots)@ == old(dots)@ + glyph_dots_spec(x as int, y as int, l as int),
{
    let ghost start = dots@;
    let glyph = &CYR_GLYPHS[l];
    for k in 0..35usize
        invariant
            l < 33,
            x <= i32::MAX - 4,
            y <= i32::MAX - 6,
            glyph@ == CYR_GLYPHS@[l as int]@,
            dots@ == start + glyph_dots_upto(x as int, y as int, l as int, k as int),
    {
        let row = k / 5;
        let col = k % 5;
        let byte = glyph[row];
        assert(Seq::new((k + 1) as nat, |k: int| k).drop_last() =~= Seq::new(k as nat, |k: int| k));
        if (byte >> (col as u8)) & 1 == 1 {
            dots.push((x + col as i32, y + row as i32));
        }
        assert(dots@ =~= start + glyph_dots_upto(x as int, y as int, l as int, k + 1));
    }
}

/// The dots that draw the glyph of letter `letter_idx` with its top left
/// corner at (`x`, `y`); an index past the alphabet draws its last letter.
pub fn glyph_dots(x: i32, y: i32, letter_idx: usize) -> (dots: Vec<(i32, i32)>)
    requires
        x <= i32::MAX - 4,
        y <= i32::MAX - 6,
    ensures
        dots@ == glyph_dots_spec(
            x as int,
            y as int,
            if letter_idx < 32 {
                letter_idx as int
            } else {
                32
            },
        ),
{
    let l = if letter_idx < 32 {
        letter_idx
    } else {
        32
    };
    let mut dots: Vec<(i32, i32)> = Vec::new();
    push_glyph_dots(&mut dots, x, y, l);
    assert(dots@ =~= glyph_dots_spec(x as int, y as int, l as int));
    dots
}

} // verus!
