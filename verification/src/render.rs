use vstd::prelude::*;
use crate::alphabet::{glyph_dot, glyph_dots, glyph_dots_spec, glyph_dots_upto};
use crate::dict::{letter_of, letters_of, unpack_word, MARK_GREEN, MARK_YELLOW, MARK_GRAY};
use crate::ui::{decimal, lemma_decimal_len, pow10, u32_to_str, ResultText, Screen};

verus! {

/// "Remaining: " in ASCII.
pub const REMAINING_PREFIX: [u8; 11] = [
    0x52, // R
    0x65, // e
    0x6D, // m
    0x61, // a
    0x69, // i
    0x6E, // n
    0x69, // i
    0x6E, // n
    0x67, // g
    0x3A, // :
    0x20, //  
];

/// The zero-terminated label "Remaining: N" for `count` words left.
pub fn remaining_label(count: usize) -> (buf: [u8; 24])
    requires
        count < 1_000_000_000_000,
    ensures
        buf@.take(11) == REMAINING_PREFIX@,
        buf@.subrange(11, 11 + decimal(count as nat).len() as int) == decimal(count as nat),
        buf@[11 + decimal(count as nat).len() as int] == 0,
{
    let mut buf = [0u8; 24];
    for k in 0..11usize
        invariant
            buf@.len() == 24,
            forall|j: int| 0 <= j < k ==> buf@[j] == REMAINING_PREFIX@[j],
            forall|j: int| k <= j < 24 ==> buf@[j] == 0,
    {
        buf[k] = REMAINING_PREFIX[k];
    }
    proof {
        reveal_with_fuel(pow10, 13);
        lemma_decimal_len(count as nat, 12);
    }
    let mut digits = [0u8; 13];
    let n = u32_to_str(count, &mut digits);
    for k in 0..n
        invariant
            n <= 12,
            n == decimal(count as nat).len(),
            digits@.take(n as int) == decimal(count as nat),
            forall|j: int| 0 <= j < 11 ==> buf@[j] == REMAINING_PREFIX@[j],
            forall|j: int| 0 <= j < k ==> buf@[11 + j] == digits@[j],
            forall|j: int| 11 + k <= j < 24 ==> buf@[j] == 0,
    {
        buf[11 + k] = digits[k];
    }
    buf[11 + n] = 0;
    assert(buf@.take(11) =~= REMAINING_PREFIX@);
    assert(buf@.subrange(11, 11 + n as int) =~= decimal(count as nat));
    buf
}

/// Drawing color.
#[derive(Clone, Copy, Debug, PartialEq, Eq, Structural)]
pub enum Color {
    Black,
    White,
}

/// A line of text on the screen.
#[derive(Clone, Copy, Debug, PartialEq, Eq, Structural)]
pub enum Label {
    /// "Remaining: N" (see `remaining_label`).
    Remaining(usize),
    /// The text of the game's result.
    Result(ResultText),
    /// "Back - restart".
    RestartHint,
    /// "^v mark  <> cursor  OK apply".
    MarkHint,
    /// "Back reset  LongBack exit".
    ExitHint,
}

/// One drawing step on the 128x64 screen.
#[derive(Clone, Copy, Debug, PartialEq, Eq, Structural)]
pub enum DrawOp {
    /// Clear the screen.
    Clear,
    /// Draw in this color from now on.
    SetColor(Color),
    /// Write text in the small font from now on.
    SmallFont,
    /// Write a label with its baseline starting at (`x`, `y`).
    Text { x: i32, y: i32, label: Label },
    /// Fill a `w` by `h` box with its top left corner at (`x`, `y`).
    FillBox { x: i32, y: i32, w: usize, h: usize },
    /// Outline a `w` by `h` box with its top left corner at (`x`, `y`).
    Frame { x: i32, y: i32, w: usize, h: usize },
    /// Set the pixel (`x`, `y`).
    Dot { x: i32, y: i32 },
}

/// Left edge of the cell of letter `i`: five cells of 16 pixels with gaps of
/// 3, centered on the 128 pixels of the screen.
pub open spec fn cell_x(i: int) -> int {
    18 + 19 * i
}

/// Steps that set the given dots.
pub open spec fn dot_ops(dots: Seq<(i32, i32)>) -> Seq<DrawOp> {
    dots.map_values(|p: (i32, i32)| DrawOp::Dot { x: p.0, y: p.1 })
}

/// The letter index that a glyph is drawn for: past the alphabet, its last
/// letter.
pub open spec fn glyph_letter(l: int) -> int {
    if l < 32 {
        l
    } else {
        32
    }
}

/// Steps that draw the glyph of letter `i` of `word` in a cell whose top is at
/// `cell_y`.
pub open spec fn glyph_ops(word: u32, i: int, cell_y: int) -> Seq<DrawOp> {
    dot_ops(glyph_dots_spec(cell_x(i) + 5, cell_y + 4, glyph_letter(letter_of(word, i) as int)))
}

/// Steps that draw cell `i` once the game is over: a frame and the letter.
pub open spec fn result_cell_ops(word: u32, i: int) -> Seq<DrawOp> {
    seq![
        DrawOp::SetColor(Color::Black),
        DrawOp::Frame { x: cell_x(i) as i32, y: 20, w: 16, h: 16 },
    ] + glyph_ops(word, i, 20)
}

/// Steps that draw cell `i` while marks are set: a green mark is a filled box
/// with the letter in white, a yellow one a ring with the letter inside, a
/// gray one a frame with the letter; the cell under the cursor is underlined.
pub open spec fn mark_cell_ops(word: u32, mark: u8, i: int, cursor: int) -> Seq<DrawOp> {
    let x = cell_x(i) as i32;
    let body = if mark == MARK_GREEN {
        seq![
            DrawOp::SetColor(Color::Black),
            DrawOp::FillBox { x, y: 16, w: 16, h: 16 },
            DrawOp::SetColor(Color::White),
        ] + glyph_ops(word, i, 16) + seq![DrawOp::SetColor(Color::Black)]
    } else if mark == MARK_YELLOW {
        seq![
            DrawOp::SetColor(Color::Black),
            DrawOp::FillBox { x, y: 16, w: 16, h: 16 },
            DrawOp::SetColor(Color::White),
            DrawOp::FillBox { x: (x + 2) as i32, y: 18, w: 12, h: 12 },
            DrawOp::SetColor(Color::Black),
        ] + glyph_ops(word, i, 16)
    } else if mark == MARK_GRAY {
        seq![DrawOp::SetColor(Color::Black), DrawOp::Frame { x, y: 16, w: 16, h: 16 }]
            + glyph_ops(word, i, 16)
    } else {
        Seq::empty()
    };
    body + if i == cursor {
        seq![DrawOp::SetColor(Color::Black), DrawOp::FillBox { x, y: 33, w: 16, h: 2 }]
    } else {
        Seq::empty()
    }
}

/// Steps that draw the first `n` cells of the screen.
pub open spec fn cells_ops(screen: Screen, n: int) -> Seq<DrawOp>
    decreases n,
{
    if n <= 0 {
        Seq::empty()
    } else {
        cells_ops(screen, n - 1) + if screen.show_result {
            result_cell_ops(screen.guess, n - 1)
        } else {
            mark_cell_ops(screen.guess, screen.marks@[n - 1], n - 1, screen.cursor as int)
        }
    }
}

/// Everything that is drawn for `screen` with `count` words remaining: the
/// count at the top, then the five cells, then the result and a hint once the
/// game is over, or two hints on the keys while it is not.
pub open spec fn render_spec(screen: Screen, count: usize) -> Seq<DrawOp> {
    seq![
        DrawOp::Clear,
        DrawOp::SetColor(Color::Black),
        DrawOp::SmallFont,
        DrawOp::Text { x: 2, y: 8, label: Label::Remaining(count) },
    ] + cells_ops(screen, 5) + if screen.show_result {
        seq![
            DrawOp::SmallFont,
            DrawOp::Text { x: 2, y: 55, label: Label::Result(screen.result) },
            DrawOp::Text { x: 2, y: 63, label: Label::RestartHint },
        ]
    } else {
        seq![
            DrawOp::SmallFont,
            DrawOp::Text { x: 2, y: 55, label: Label::MarkHint },
            DrawOp::Text { x: 2, y: 63, label: Label::ExitHint },
        ]
    }
}

/// The color in force before step `k` of `ops`: that of the last `SetColor`
/// before it (black when there is none, as after clearing).
pub open spec fn color_before(ops: Seq<DrawOp>, k: int) -> Color
    decreases k,
{
    if k <= 0 {
        Color::Black
    } else {
        match ops[k - 1] {
            DrawOp::SetColor(c) => c,
            _ => color_before(ops, k - 1),
        }
    }
}

/// `ops` sets the pixel at step `k`.
pub open spec fn is_dot(ops: Seq<DrawOp>, k: int) -> bool {
    ops[k] matches DrawOp::Dot { .. }
}

proof fn lemma_dot_ops_are_dots(dots: Seq<(i32, i32)>)
    ensures
        dot_ops(dots).len() == dots.len(),
        forall|k: int| 0 <= k < dots.len() ==> #[trigger] is_dot(dot_ops(dots), k),
{
}

proof fn lemma_color_across_dots(ops: Seq<DrawOp>, a: int, k: int)
    requires
        0 <= a <= k <= ops.len(),
        forall|j: int| a <= j < k ==> #[trigger] is_dot(ops, j),
    ensures
        color_before(ops, k) == color_before(ops, a),
    decreases k - a,
{
    if k > a {
        assert(is_dot(ops, k - 1));
        lemma_color_across_dots(ops, a, k - 1);
    }
}

/// In a cell of the marking screen the letter is drawn in a color that shows
/// on what is behind it: white on the black box of a green cell, black inside
/// the white ring of a yellow cell (whose inner box is white), black in the
/// frame of a gray cell.
pub proof fn lemma_letter_visible_in_cell(word: u32, mark: u8, i: int, cursor: int)
    requires
        0 <= i < 5,
    ensures
        forall|k: int|
            0 <= k < mark_cell_ops(word, mark, i, cursor).len() && #[trigger] is_dot(
                mark_cell_ops(word, mark, i, cursor),
                k,
            ) ==> color_before(mark_cell_ops(word, mark, i, cursor), k) == (if mark == MARK_GREEN {
                Color::White
            } else {
                Color::Black
            }),
        mark == MARK_YELLOW ==> forall|k: int|
            0 <= k < mark_cell_ops(word, mark, i, cursor).len() && (#[trigger] mark_cell_ops(
                word,
                mark,
                i,
                cursor,
            )[k] matches DrawOp::FillBox { w, .. } && w == 12) ==> color_before(
                mark_cell_ops(word, mark, i, cursor),
                k,
            ) == Color::White,
{
    let ops = mark_cell_ops(word, mark, i, cursor);
    let g = glyph_ops(word, i, 16);
    lemma_dot_ops_are_dots(
        glyph_dots_spec(cell_x(i) + 5, 20, glyph_letter(letter_of(word, i) as int)),
    );
    let p: int = if mark == MARK_GREEN {
        3
    } else if mark == MARK_YELLOW {
        5
    } else if mark == MARK_GRAY {
        2
    } else {
        0
    };
    let has_glyph = mark == MARK_GREEN || mark == MARK_YELLOW || mark == MARK_GRAY;
    assert forall|k: int| 0 <= k < ops.len() && #[trigger] is_dot(ops, k) implies color_before(ops, k)
        == (if mark == MARK_GREEN {
        Color::White
    } else {
        Color::Black
    }) by {
        assert(has_glyph && p <= k < p + g.len()) by {
            if !(has_glyph && p <= k < p + g.len()) {
                assert(!is_dot(ops, k));
            }
        }
        assert forall|j: int| p <= j < k implies #[trigger] is_dot(ops, j) by {
            assert(ops[j] == g[j - p]);
            assert(is_dot(g, j - p));
        }
        lemma_color_across_dots(ops, p, k);
        if mark == MARK_GRAY {
            assert(color_before(ops, 1) == Color::Black);
        }
    }
}

proof fn lemma_glyph_dots_x(x0: int, y0: int, l: int, n: int)
    requires
        0 <= x0 <= 1000,
        0 <= y0 <= 1000,
        0 <= n <= 35,
    ensures
        forall|k: int|
            0 <= k < glyph_dots_upto(x0, y0, l, n).len() ==> x0 <= (#[trigger] glyph_dots_upto(
                x0,
                y0,
                l,
                n,
            )[k]).0 < x0 + 5,
    decreases n,
{
    if n > 0 {
        lemma_glyph_dots_x(x0, y0, l, n - 1);
        let ids = Seq::new(n as nat, |k: int| k);
        assert(ids.drop_last() =~= Seq::new((n - 1) as nat, |k: int| k));
        assert(ids.last() == n - 1);
        let cur = glyph_dots_upto(x0, y0, l, n);
        let prev = glyph_dots_upto(x0, y0, l, n - 1);
        match glyph_dot(x0, y0, l, n - 1) {
            Some(v) => {
                assert(cur == prev + seq![v]);
                assert(x0 <= v.0 < x0 + 5);
                assert forall|k: int| 0 <= k < cur.len() implies x0 <= (#[trigger] cur[k]).0 < x0
                    + 5 by {
                    if k < prev.len() {
                        assert(cur[k] == prev[k]);
                    }
                }
            },
            None => {
                assert(cur == prev);
            },
        }
    }
}

proof fn lemma_color_prefix(a: Seq<DrawOp>, b: Seq<DrawOp>, k: int)
    requires
        0 <= k <= a.len(),
    ensures
        color_before(a + b, k) == color_before(a, k),
    decreases k,
{
    if k > 0 {
        lemma_color_prefix(a, b, k - 1);
        assert((a + b)[k - 1] == a[k - 1]);
    }
}

proof fn lemma_color_after_set(a: Seq<DrawOp>, b: Seq<DrawOp>, j: int)
    requires
        1 <= j <= b.len(),
        b[0] matches DrawOp::SetColor(_),
    ensures
        color_before(a + b, a.len() + j) == color_before(b, j),
    decreases j,
{
    assert((a + b)[a.len() + j - 1] == b[j - 1]);
    if j > 1 {
        lemma_color_after_set(a, b, j - 1);
    }
}

/// The color that the letter of a cell with mark `mark` is drawn in.
pub open spec fn letter_color(mark: u8) -> Color {
    if mark == MARK_GREEN {
        Color::White
    } else {
        Color::Black
    }
}

/// Every dot drawn by the steps `from..to` of `ops` lies in one of the five
/// cells and has the color that the mark of that cell asks for.
pub open spec fn dots_colored_by_mark(ops: Seq<DrawOp>, from: int, to: int, marks: Seq<u8>) -> bool {
    forall|k: int|
        from <= k < to && #[trigger] is_dot(ops, k) ==> {
            let x = (ops[k]->Dot_x as int);
            &&& 0 <= (x - 18) / 19 < 5
            &&& color_before(ops, k) == letter_color(marks[(x - 18) / 19])
        }
}

proof fn lemma_cell_dots_placed(word: u32, mark: u8, i: int, cursor: int)
    requires
        0 <= i < 5,
    ensures
        forall|k: int|
            0 <= k < mark_cell_ops(word, mark, i, cursor).len() && #[trigger] is_dot(
                mark_cell_ops(word, mark, i, cursor),
                k,
            ) ==> {
                let x = (mark_cell_ops(word, mark, i, cursor)[k]->Dot_x as int);
                cell_x(i) + 5 <= x < cell_x(i) + 10
            },
        mark_cell_ops(word, mark, i, cursor).len() > 0 ==> mark_cell_ops(word, mark, i, cursor)[0] matches DrawOp::SetColor(_),
{
    let ops = mark_cell_ops(word, mark, i, cursor);
    let d = glyph_dots_spec(cell_x(i) + 5, 20, glyph_letter(letter_of(word, i) as int));
    let g = glyph_ops(word, i, 16);
    lemma_glyph_dots_x(cell_x(i) + 5, 20, glyph_letter(letter_of(word, i) as int), 35);
    lemma_dot_ops_are_dots(d);
    let p: int = if mark == MARK_GREEN {
        3
    } else if mark == MARK_YELLOW {
        5
    } else if mark == MARK_GRAY {
        2
    } else {
        0
    };
    let has_glyph = mark == MARK_GREEN || mark == MARK_YELLOW || mark == MARK_GRAY;
    assert forall|k: int| 0 <= k < ops.len() && #[trigger] is_dot(ops, k) implies cell_x(i) + 5
        <= (ops[k]->Dot_x as int) < cell_x(i) + 10 by {
        assert(has_glyph && p <= k < p + g.len()) by {
            if !(has_glyph && p <= k < p + g.len()) {
                assert(!is_dot(ops, k));
            }
        }
        assert(ops[k] == g[k - p]);
        assert(g[k - p] == (DrawOp::Dot { x: d[k - p].0, y: d[k - p].1 }));
    }
}

proof fn lemma_cells_dots_colored(screen: Screen, pre: Seq<DrawOp>, n: int)
    requires
        0 <= n <= 5,
        !screen.show_result,
    ensures
        dots_colored_by_mark(
            pre + cells_ops(screen, n),
            pre.len() as int,
            (pre.len() + cells_ops(screen, n).len()) as int,
            screen.marks@,
        ),
    decreases n,
{
    if n > 0 {
        let i = n - 1;
        let prev = cells_ops(screen, i);
        let cell = mark_cell_ops(screen.guess, screen.marks@[i], i, screen.cursor as int);
        let all = pre + cells_ops(screen, n);
        let a = pre + prev;
        assert(all =~= a + cell);
        lemma_cells_dots_colored(screen, pre, i);
        lemma_letter_visible_in_cell(screen.guess, screen.marks@[i], i, screen.cursor as int);
        lemma_cell_dots_placed(screen.guess, screen.marks@[i], i, screen.cursor as int);
        assert forall|k: int|
            pre.len() <= k < pre.len() + cells_ops(screen, n).len() && #[trigger] is_dot(
                all,
                k,
            ) implies {
            let x = (all[k]->Dot_x as int);
            &&& 0 <= (x - 18) / 19 < 5
            &&& color_before(all, k) == letter_color(screen.marks@[(x - 18) / 19])
        } by {
            if k < a.len() {
                assert(all[k] == a[k]);
                assert(is_dot(a, k));
                lemma_color_prefix(a, cell, k);
            } else {
                let j = k - a.len();
                assert(all[k] == cell[j]);
                assert(is_dot(cell, j));
                let x = (cell[j]->Dot_x as int);
                assert(cell_x(i) + 5 <= x < cell_x(i) + 10);
                assert((x - 18) / 19 == i);
                assert(color_before(all, k) == color_before(cell, j)) by {
                    if j >= 1 {
                        lemma_color_after_set(a, cell, j);
                    } else {
                        assert(cell[0] matches DrawOp::SetColor(_));
                        assert(!is_dot(cell, 0));
                    }
                }
            }
        }
    }
}

/// On the marking screen every letter is drawn in a color that shows on its
/// cell: each dot lies in one of the five cells and is white when that
/// cell's mark is green, black when it is yellow or gray.
pub proof fn lemma_marked_letters_visible(screen: Screen, count: usize)
    requires
        !screen.show_result,
    ensures
        dots_colored_by_mark(
            render_spec(screen, count),
            0,
            render_spec(screen, count).len() as int,
            screen.marks@,
        ),
{
    let head = seq![
        DrawOp::Clear,
        DrawOp::SetColor(Color::Black),
        DrawOp::SmallFont,
        DrawOp::Text { x: 2, y: 8, label: Label::Remaining(count) },
    ];
    let tail = seq![
        DrawOp::SmallFont,
        DrawOp::Text { x: 2, y: 55, label: Label::MarkHint },
        DrawOp::Text { x: 2, y: 63, label: Label::ExitHint },
    ];
    let body = head + cells_ops(screen, 5);
    let ops = render_spec(screen, count);
    assert(ops =~= body + tail);
    lemma_cells_dots_colored(screen, head, 5);
    assert forall|k: int| 0 <= k < ops.len() && #[trigger] is_dot(ops, k) implies {
        let x = (ops[k]->Dot_x as int);
        &&& 0 <= (x - 18) / 19 < 5
        &&& color_before(ops, k) == letter_color(screen.marks@[(x - 18) / 19])
    } by {
        assert(4 <= k < body.len()) by {
            if k < 4 {
                assert(ops[k] == head[k]);
            } else if k >= body.len() {
                assert(ops[k] == tail[k - body.len()]);
            }
        }
        assert(ops[k] == body[k]);
        assert(is_dot(body, k));
        lemma_color_prefix(body, tail, k);
    }
}

/// Text drawn for the screen: the result screen writes, at (2, 55), the
/// screen's own result and nothing else; the marking screen writes no result.
pub proof fn lemma_result_text(screen: Screen, count: usize)
    ensures
        screen.show_result ==> exists|k: int|
            0 <= k < render_spec(screen, count).len() && #[trigger] render_spec(screen, count)[k]
                == (DrawOp::Text { x: 2, y: 55, label: Label::Result(screen.result) }),
        forall|k: int|
            0 <= k < render_spec(screen, count).len() && (#[trigger] render_spec(screen, count)[k] matches DrawOp::Text { y, label, .. } && y == 55)
                ==> render_spec(screen, count)[k] == (DrawOp::Text {
                x: 2,
                y: 55,
                label: if screen.show_result {
                    Label::Result(screen.result)
                } else {
                    Label::MarkHint
                },
            }),
        !screen.show_result ==> forall|k: int|
            0 <= k < render_spec(screen, count).len() ==> !(#[trigger] render_spec(screen, count)[k] matches DrawOp::Text { label: Label::Result(_), .. }),
{
    let ops = render_spec(screen, count);
    let cells = cells_ops(screen, 5);
    lemma_cells_no_text(screen, 5);
    let n: int = 4 + cells.len() as int;
    if screen.show_result {
        assert(ops[n + 1] == (DrawOp::Text { x: 2, y: 55, label: Label::Result(screen.result) }));
    }
    assert forall|k: int| 4 <= k < n implies !(#[trigger] ops[k] matches DrawOp::Text { .. }) by {
        assert(ops[k] == cells[k - 4]);
    }
}

/// The cells hold no text.
proof fn lemma_cells_no_text(screen: Screen, n: int)
    requires
        0 <= n,
    ensures
        forall|k: int|
            0 <= k < cells_ops(screen, n).len() ==> !(#[trigger] cells_ops(screen, n)[k] matches DrawOp::Text { .. }),
    decreases n,
{
    if n > 0 {
        lemma_cells_no_text(screen, n - 1);
        let prev = cells_ops(screen, n - 1);
        let cell = if screen.show_result {
            result_cell_ops(screen.guess, n - 1)
        } else {
            mark_cell_ops(screen.guess, screen.marks@[n - 1], n - 1, screen.cursor as int)
        };
        lemma_dot_ops_are_dots(
            glyph_dots_spec(
                cell_x(n - 1) + 5,
                (if screen.show_result { 20int } else { 16int }) + 4,
                glyph_letter(letter_of(screen.guess, n - 1) as int),
            ),
        );
        assert forall|k: int| 0 <= k < cells_ops(screen, n).len() implies !(#[trigger] cells_ops(screen, n)[k] matches DrawOp::Text { .. }) by {
            if k >= prev.len() {
                let c = cell[k - prev.len()];
                assert(cells_ops(screen, n)[k] == c);
            }
        }
    }
}

/// A framed letter of the result screen: the frame with its left edge at `x`,
/// then the dots of the glyph of letter `l` inside it.
pub open spec fn framed_letter(x: int, l: int) -> Seq<DrawOp> {
    seq![DrawOp::SetColor(Color::Black), DrawOp::Frame { x: x as i32, y: 20, w: 16, h: 16 }]
        + dot_ops(glyph_dots_spec(x + 5, 24, if l < 32 { l } else { 32 }))
}

/// The result screen spells the guess: cell `i`, framed at 18 + 19 * i,
/// holds the glyph of letter `i` of the guess, from the first letter to the
/// fifth; then come the result and the restart hint.
pub proof fn lemma_result_screen_spells_guess(screen: Screen, count: usize)
    requires
        screen.show_result,
    ensures
        render_spec(screen, count) == seq![
            DrawOp::Clear,
            DrawOp::SetColor(Color::Black),
            DrawOp::SmallFont,
            DrawOp::Text { x: 2, y: 8, label: Label::Remaining(count) },
        ] + framed_letter(18, letter_of(screen.guess, 0) as int) + framed_letter(
            37,
            letter_of(screen.guess, 1) as int,
        ) + framed_letter(56, letter_of(screen.guess, 2) as int) + framed_letter(
            75,
            letter_of(screen.guess, 3) as int,
        ) + framed_letter(94, letter_of(screen.guess, 4) as int) + seq![
            DrawOp::SmallFont,
            DrawOp::Text { x: 2, y: 55, label: Label::Result(screen.result) },
            DrawOp::Text { x: 2, y: 63, label: Label::RestartHint },
        ],
{
    reveal_with_fuel(cells_ops, 6);
    assert(cells_ops(screen, 0) == Seq::<DrawOp>::empty());
    assert(cells_ops(screen, 1) =~= framed_letter(18, letter_of(screen.guess, 0) as int));
    assert(render_spec(screen, count) =~= seq![
            DrawOp::Clear,
            DrawOp::SetColor(Color::Black),
            DrawOp::SmallFont,
            DrawOp::Text { x: 2, y: 8, label: Label::Remaining(count) },
        ] + framed_letter(18, letter_of(screen.guess, 0) as int) + framed_letter(
            37,
            letter_of(screen.guess, 1) as int,
        ) + framed_letter(56, letter_of(screen.guess, 2) as int) + framed_letter(
            75,
            letter_of(screen.guess, 3) as int,
        ) + framed_letter(94, letter_of(screen.guess, 4) as int) + seq![
            DrawOp::SmallFont,
            DrawOp::Text { x: 2, y: 55, label: Label::Result(screen.result) },
            DrawOp::Text { x: 2, y: 63, label: Label::RestartHint },
        ]);
}

/// Appends the steps that draw the glyph of `letter` at (`x`, `y`).
fn push_glyph(ops: &mut Vec<DrawOp>, x: i32, y: i32, letter: u8)
    requires
        x <= i32::MAX - 4,
        y <= i32::MAX - 6,
    ensures
        final(ops)@ == old(ops)@ + dot_ops(glyph_dots_spec(x as int, y as int, glyph_letter(letter as int))),
{
    let dots = glyph_dots(x, y, letter as usize);
    let ghost start = ops@;
    let n = dots.len();
    for k in 0..n
        invariant
            n == dots@.len(),
            ops@ == start + dot_ops(dots@.take(k as int)),
    {
        let (dx, dy) = dots[k];
        ops.push(DrawOp::Dot { x: dx, y: dy });
        assert(dots@.take(k + 1) =~= dots@.take(k as int).push(dots@[k as int]));
        assert(dot_ops(dots@.take(k + 1)) =~= dot_ops(dots@.take(k as int)).push(
            DrawOp::Dot { x: dx, y: dy },
        ));
    }
    assert(dots@.take(n as int) =~= dots@);
}

/// Appends the steps that draw cell `i` (left edge `x`, letter `li` of
/// `word`) once the game is over.
fn push_result_cell(ops: &mut Vec<DrawOp>, word: u32, i: usize, x: i32, li: u8)
    requires
        i < 5,
        x == cell_x(i as int),
        li == letter_of(word, i as int),
    ensures
        final(ops)@ == old(ops)@ + result_cell_ops(word, i as int),
{
    let cell_y: i32 = 20;
    ops.push(DrawOp::SetColor(Color::Black));
    ops.push(DrawOp::Frame { x, y: cell_y, w: 16, h: 16 });
    push_glyph(ops, x + 5, cell_y + 4, li);
    assert(final(ops)@ =~= old(ops)@ + result_cell_ops(word, i as int));
}

/// Appends the steps that draw cell `i` (left edge `x`, letter `li` of
/// `word`, mark `mark`) while marks are set.
fn push_mark_cell(ops: &mut Vec<DrawOp>, word: u32, mark: u8, i: usize, cursor: usize, x: i32, li: u8)
    requires
        i < 5,
        x == cell_x(i as int),
        li == letter_of(word, i as int),
    ensures
        final(ops)@ == old(ops)@ + mark_cell_ops(word, mark, i as int, cursor as int),
{
    let cell_y: i32 = 16;
    if mark == MARK_GREEN {
        ops.push(DrawOp::SetColor(Color::Black));
        ops.push(DrawOp::FillBox { x, y: cell_y, w: 16, h: 16 });
        ops.push(DrawOp::SetColor(Color::White));
        push_glyph(ops, x + 5, cell_y + 4, li);
        ops.push(DrawOp::SetColor(Color::Black));
    } else if mark == MARK_YELLOW {
        ops.push(DrawOp::SetColor(Color::Black));
        ops.push(DrawOp::FillBox { x, y: cell_y, w: 16, h: 16 });
        ops.push(DrawOp::SetColor(Color::White));
        ops.push(DrawOp::FillBox { x: x + 2, y: cell_y + 2, w: 12, h: 12 });
        ops.push(DrawOp::SetColor(Color::Black));
        push_glyph(ops, x + 5, cell_y + 4, li);
    } else if mark == MARK_GRAY {
        ops.push(DrawOp::SetColor(Color::Black));
        ops.push(DrawOp::Frame { x, y: cell_y, w: 16, h: 16 });
        push_glyph(ops, x + 5, cell_y + 4, li);
    }
    let ghost body = final(ops)@;
    if i == cursor {
        ops.push(DrawOp::SetColor(Color::Black));
        ops.push(DrawOp::FillBox { x, y: cell_y + 16 + 1, w: 16, h: 2 });
    }
    assert(final(ops)@ =~= old(ops)@ + mark_cell_ops(word, mark, i as int, cursor as int));
}

impl Screen {
    /// The steps that draw the screen, with `count` words remaining.
    pub fn render(&self, count: usize) -> (ops: Vec<DrawOp>)
        ensures
            ops@ == render_spec(*self, count),
    {
        let mut ops: Vec<DrawOp> = Vec::new();
        ops.push(DrawOp::Clear);
        ops.push(DrawOp::SetColor(Color::Black));
        ops.push(DrawOp::SmallFont);
        ops.push(DrawOp::Text { x: 2, y: 8, label: Label::Remaining(count) });
        let ghost header = ops@;
        let letters = unpack_word(self.guess);
        let cell_w: i32 = 16;
        let gap: i32 = 3;
        let total_w: i32 = 5 * cell_w + 4 * gap;
        let start_x: i32 = (128 - total_w) / 2;
        for i in 0..5usize
            invariant
                letters@ == letters_of(self.guess),
                cell_w == 16,
                gap == 3,
                start_x == 18,
                ops@ == header + cells_ops(*self, i as int),
        {
            let x = start_x + (i as i32) * (cell_w + gap);
            assert(x == cell_x(i as int));
            let li = letters[i];
            assert(li == letter_of(self.guess, i as int));
            let ghost before = ops@;
            if self.show_result {
                push_result_cell(&mut ops, self.guess, i, x, li);
            } else {
                push_mark_cell(&mut ops, self.guess, self.marks[i], i, self.cursor, x, li);
            }
            assert(ops@ =~= header + cells_ops(*self, i + 1));
        }
        ops.push(DrawOp::SmallFont);
        if self.show_result {
            ops.push(DrawOp::Text { x: 2, y: 55, label: Label::Result(self.result) });
            ops.push(DrawOp::Text { x: 2, y: 63, label: Label::RestartHint });
        } else {
            ops.push(DrawOp::Text { x: 2, y: 55, label: Label::MarkHint });
            ops.push(DrawOp::Text { x: 2, y: 63, label: Label::ExitHint });
        }
        assert(ops@ =~= render_spec(*self, count));
        ops
    }
}

} // verus!
