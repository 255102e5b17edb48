//! A character grid drawn over the scene: cells of 8x8 glyphs with
//! foreground and background colors, centred in the scene.

use vstd::prelude::*;
use crate::chars::{chars_of, string_from_chars};
use crate::font::{Font, Glyph, GLYPH_H, GLYPH_W, glyph_index, glyph_lit};
use crate::rgba::{byte_index, pixel_of, lemma_byte_index_bound, lemma_byte_index_injective};

verus! {

/// One character cell: glyph, RGBA foreground and RGBA background.
#[derive(Clone, Copy, Debug, PartialEq, Eq)]
pub struct Cell {
    pub glyph: char,
    pub fg: [u8; 4],
    pub bg: [u8; 4],
}

#[derive(Clone, Copy, Debug, PartialEq, Eq, Structural)]
pub enum HAlign {
    Left,
    Center,
    Right,
}

#[derive(Clone, Copy, Debug, PartialEq, Eq, Structural)]
pub enum VAlign {
    Top,
    Middle,
    Bottom,
}

/// What a text layer holds: the scene size in pixels, the grid size in
/// cells, the grid's pixel offset in the scene, and the cells, row-major.
#[verifier::ext_equal]
pub struct TextLayerView {
    pub scene_width: usize,
    pub scene_height: usize,
    pub cols: usize,
    pub rows: usize,
    pub offset_x: usize,
    pub offset_y: usize,
    pub cells: Seq<Option<Cell>>,
}

/// A grid of `cols` x `rows` optional cells covering a scene.
#[derive(Debug)]
pub struct TextLayer {
    scene_width: usize,
    scene_height: usize,
    cols: usize,
    rows: usize,
    offset_x: usize,
    offset_y: usize,
    cells: Vec<Option<Cell>>,
}

impl View for TextLayer {
    type V = TextLayerView;

    closed spec fn view(&self) -> TextLayerView {
        TextLayerView {
            scene_width: self.scene_width,
            scene_height: self.scene_height,
            cols: self.cols,
            rows: self.rows,
            offset_x: self.offset_x,
            offset_y: self.offset_y,
            cells: self.cells@,
        }
    }
}

impl Clone for TextLayer {
    /// A copy of the layer with the same cells.
    fn clone(&self) -> (r: Self)
        ensures
            r@ == self@,
    {
        proof {
            use_type_invariant(self);
        }
        let cells = self.cells.clone();
        proof {
            assert(cells@ =~= self.cells@);
        }
        TextLayer {
            scene_width: self.scene_width,
            scene_height: self.scene_height,
            cols: self.cols,
            rows: self.rows,
            offset_x: self.offset_x,
            offset_y: self.offset_y,
            cells,
        }
    }
}

impl TextLayer {
    /// The grid fills the scene with whole glyph cells, centred, one cell per
    /// grid position.
    #[verifier::type_invariant]
    spec fn wf(&self) -> bool {
        &&& self.cols == self.scene_width / 8
        &&& self.rows == self.scene_height / 8
        &&& self.offset_x == (self.scene_width - self.cols * 8) / 2
        &&& self.offset_y == (self.scene_height - self.rows * 8) / 2
        &&& self.cells@.len() == self.cols * self.rows
        &&& self.cols * self.rows <= usize::MAX
        &&& self.scene_width <= u32::MAX
        &&& self.scene_height <= u32::MAX
    }

    /// The cell at column `col`, row `row`.
    pub open spec fn cell_at(&self, col: int, row: int) -> Option<Cell> {
        self@.cells[row * self@.cols + col]
    }

    /// A layer over a `scene_width` x `scene_height` scene: as many whole 8x8
    /// cells as fit, centred (odd leftover pixels go right and down), all empty.
    pub fn new(scene_width: u32, scene_height: u32) -> (l: Self)
        requires
            (scene_width / 8) * (scene_height / 8) <= usize::MAX,
        ensures
            l@.scene_width == scene_width,
            l@.scene_height == scene_height,
            l@.cols == scene_width / 8,
            l@.rows == scene_height / 8,
            l@.offset_x == (scene_width - l@.cols * 8) / 2,
            l@.offset_y == (scene_height - l@.rows * 8) / 2,
            l@.cells == Seq::new((l@.cols * l@.rows) as nat, |i: int| None::<Cell>),
    {
        let scene_width: usize = scene_width as usize;
        let scene_height: usize = scene_height as usize;
        let cols: usize = scene_width / GLYPH_W;
        let rows: usize = scene_height / GLYPH_H;
        let used_width: usize = cols * GLYPH_W;
        let used_height: usize = rows * GLYPH_H;
        let n: usize = cols * rows;
        let mut cells: Vec<Option<Cell>> = Vec::new();
        let mut i: usize = 0;
        while i < n
            invariant
                i <= n,
                cells@ == Seq::new(i as nat, |k: int| None::<Cell>),
            decreases n - i,
        {
            cells.push(None);
            i = i + 1;
            proof {
                assert(cells@ =~= Seq::new(i as nat, |k: int| None::<Cell>));
            }
        }
        TextLayer {
            scene_width,
            scene_height,
            cols,
            rows,
            offset_x: scene_width.saturating_sub(used_width) / 2,
            offset_y: scene_height.saturating_sub(used_height) / 2,
            cells,
        }
    }

    /// (scene width, scene height) in pixels.
    pub fn scene_size(&self) -> (r: (usize, usize))
        ensures
            r.0 == self@.scene_width,
            r.1 == self@.scene_height,
    {
        (self.scene_width, self.scene_height)
    }

    /// The number of cell columns.
    pub fn cols(&self) -> (r: usize)
        ensures
            r == self@.cols,
    {
        self.cols
    }

    /// The number of cell rows.
    pub fn rows(&self) -> (r: usize)
        ensures
            r == self@.rows,
    {
        self.rows
    }

    /// The pixel offset (x, y) of the grid in the scene.
    pub fn offset(&self) -> (r: (usize, usize))
        ensures
            r.0 == self@.offset_x,
            r.1 == self@.offset_y,
    {
        (self.offset_x, self.offset_y)
    }

    /// The cells, row-major (`cols` per row).
    pub fn cells(&self) -> (r: &Vec<Option<Cell>>)
        ensures
            r@ == self@.cells,
            r@.len() == self@.cols * self@.rows,
    {
        proof {
            use_type_invariant(self);
        }
        &self.cells
    }

    /// The row-major index of (`col`, `row`), if inside the grid.
    fn index(&self, col: usize, row: usize) -> (r: Option<usize>)
        requires
            self.wf(),
        ensures
            match r {
                Some(i) => col < self.cols && row < self.rows && i == row * self.cols + col && i < self.cells@.len(),
                None => !(col < self.cols && row < self.rows),
            },
    {
        if col < self.cols && row < self.rows {
            proof {
                assert(row * self.cols + col < self.cols * self.rows && row * self.cols <= row * self.cols + col)
                    by (nonlinear_arith)
                    requires col < self.cols, row < self.rows;
            }
            Some(row * self.cols + col)
        } else {
            None
        }
    }

    fn set_cell(&mut self, col: usize, row: usize, cell: Cell)
        requires
            old(self).wf(),
        ensures
            final(self).wf(),
            final(self).cols == old(self).cols,
            final(self).rows == old(self).rows,
            final(self).scene_width == old(self).scene_width,
            final(self).scene_height == old(self).scene_height,
            final(self).offset_x == old(self).offset_x,
            final(self).offset_y == old(self).offset_y,
            final(self).cells@ == if col < old(self).cols && row < old(self).rows {
                old(self).cells@.update(row * old(self).cols + col, Some(cell))
            } else {
                old(self).cells@
            },
    {
        if let Some(index) = self.index(col, row) {
            self.cells[index] = Some(cell);
        }
    }

    /// Puts `cell` at (`col`, `row`); positions outside the grid are ignored.
    pub fn set(&mut self, col: usize, row: usize, cell: Cell)
        ensures
            final(self)@.cols == old(self)@.cols,
            final(self)@.rows == old(self)@.rows,
            final(self)@.scene_width == old(self)@.scene_width,
            final(self)@.scene_height == old(self)@.scene_height,
            final(self)@.offset_x == old(self)@.offset_x,
            final(self)@.offset_y == old(self)@.offset_y,
            col < old(self)@.cols && row < old(self)@.rows
                ==> final(self)@.cells == old(self)@.cells.update(row * old(self)@.cols + col, Some(cell)),
            !(col < old(self)@.cols && row < old(self)@.rows) ==> final(self)@.cells == old(self)@.cells,
    {
        proof {
            use_type_invariant(&*self);
        }
        self.set_cell(col, row, cell);
    }

    /// Empties (`col`, `row`); positions outside the grid are ignored.
    pub fn clear(&mut self, col: usize, row: usize)
        ensures
            final(self)@.cols == old(self)@.cols,
            final(self)@.rows == old(self)@.rows,
            final(self)@.scene_width == old(self)@.scene_width,
            final(self)@.scene_height == old(self)@.scene_height,
            final(self)@.offset_x == old(self)@.offset_x,
            final(self)@.offset_y == old(self)@.offset_y,
            col < old(self)@.cols && row < old(self)@.rows
                ==> final(self)@.cells == old(self)@.cells.update(row * old(self)@.cols + col, None),
            !(col < old(self)@.cols && row < old(self)@.rows) ==> final(self)@.cells == old(self)@.cells,
    {
        proof {
            use_type_invariant(&*self);
        }
        if let Some(index) = self.index(col, row) {
            self.cells[index] = None;
        }
    }

    /// Empties every cell.
    pub fn clear_all(&mut self)
        ensures
            final(self)@.cols == old(self)@.cols,
            final(self)@.rows == old(self)@.rows,
            final(self)@.scene_width == old(self)@.scene_width,
            final(self)@.scene_height == old(self)@.scene_height,
            final(self)@.offset_x == old(self)@.offset_x,
            final(self)@.offset_y == old(self)@.offset_y,
            final(self)@.cells == Seq::new(old(self)@.cells.len(), |i: int| None::<Cell>),
    {
        proof {
            use_type_invariant(&*self);
        }
        let n: usize = self.cells.len();
        let mut i: usize = 0;
        while i < n
            invariant
                n == self.cells@.len(),
                i <= n,
                self.wf(),
                self.cols == old(self).cols,
                self.rows == old(self).rows,
                self.scene_width == old(self).scene_width,
                self.scene_height == old(self).scene_height,
                self.offset_x == old(self).offset_x,
                self.offset_y == old(self).offset_y,
                forall|k: int| 0 <= k < i ==> self.cells@[k] is None,
            decreases n - i,
        {
            self.cells[i] = None;
            i = i + 1;
        }
        proof {
            assert(self.cells@ =~= Seq::new(n as nat, |i: int| None::<Cell>));
        }
    }
}

/// The first grid column of a `len`-character line aligned `halign` in `cols` columns.
pub open spec fn aligned_col(cols: int, len: int, halign: HAlign) -> int {
    match halign {
        HAlign::Left => 0,
        HAlign::Center => (if cols > len { cols - len } else { 0 }) / 2,
        HAlign::Right => if cols > len { cols - len } else { 0 },
    }
}

/// Alignment places a line as its name says: left-aligned text starts in
/// the first column; right-aligned text that fits ends in the last column;
/// centred text that fits leaves margins on the left and right that differ
/// by at most one column (the extra one on the right); text wider than the
/// grid starts in the first column whatever the alignment.
pub proof fn lemma_alignment(cols: int, len: int)
    requires
        0 <= cols,
        0 <= len,
    ensures
        aligned_col(cols, len, HAlign::Left) == 0,
        len <= cols ==> aligned_col(cols, len, HAlign::Right) + len == cols,
        len <= cols ==> {
            let left = aligned_col(cols, len, HAlign::Center);
            let right = cols - (left + len);
            0 <= left <= right <= left + 1
        },
        len > cols ==> aligned_col(cols, len, HAlign::Right) == 0 && aligned_col(cols, len, HAlign::Center) == 0,
{
}

/// Vertical alignment on a grid of at least one row: top is the first row,
/// bottom the last, and the middle row leaves as many rows above it as
/// below, or one more below.
pub proof fn lemma_vertical_alignment(rows: int)
    requires
        rows >= 1,
    ensures
        aligned_row(rows, VAlign::Top) == 0,
        aligned_row(rows, VAlign::Bottom) == rows - 1,
        ({
            let above = aligned_row(rows, VAlign::Middle);
            let below = rows - 1 - above;
            0 <= above <= below <= above + 1
        }),
{
}

/// The grid row of a line aligned `valign` in `rows` rows.
pub open spec fn aligned_row(rows: int, valign: VAlign) -> int {
    match valign {
        VAlign::Top => 0,
        VAlign::Middle => (if rows > 1 { rows - 1 } else { 0 }) / 2,
        VAlign::Bottom => if rows > 1 { rows - 1 } else { 0 },
    }
}

/// Whether grid position (`c`, `r`) is written by a line of `len`
/// characters starting at column `col0` of row `row0`.
pub open spec fn in_line(c: int, r: int, col0: int, row0: int, len: int) -> bool {
    r == row0 && col0 <= c < col0 + len
}

/// Writes `text` on one grid row, aligned as asked, one character per cell
/// with colors `fg` and `bg`; characters that fall outside the grid are dropped.
pub fn place_text(layer: &mut TextLayer, text: &str, halign: HAlign, valign: VAlign, fg: [u8; 4], bg: [u8; 4])
    requires
        text@.len() + old(layer)@.cols <= usize::MAX,
    ensures
        final(layer)@.cols == old(layer)@.cols,
        final(layer)@.rows == old(layer)@.rows,
        final(layer)@.scene_width == old(layer)@.scene_width,
        final(layer)@.scene_height == old(layer)@.scene_height,
        final(layer)@.offset_x == old(layer)@.offset_x,
        final(layer)@.offset_y == old(layer)@.offset_y,
        forall|c: int, r: int| 0 <= c < old(layer)@.cols && 0 <= r < old(layer)@.rows
            && in_line(c, r, aligned_col(old(layer)@.cols as int, text@.len() as int, halign),
                aligned_row(old(layer)@.rows as int, valign), text@.len() as int) ==>
            #[trigger] final(layer).cell_at(c, r) == Some(Cell {
                glyph: text@[c - aligned_col(old(layer)@.cols as int, text@.len() as int, halign)],
                fg,
                bg,
            }),
        forall|c: int, r: int| 0 <= c < old(layer)@.cols && 0 <= r < old(layer)@.rows
            && !in_line(c, r, aligned_col(old(layer)@.cols as int, text@.len() as int, halign),
                aligned_row(old(layer)@.rows as int, valign), text@.len() as int) ==>
            #[trigger] final(layer).cell_at(c, r) == old(layer).cell_at(c, r),
{
    proof {
        use_type_invariant(&*layer);
    }
    let chars = chars_of(text);
    let text_len: usize = chars.len();
    let col: usize = match halign {
        HAlign::Left => 0,
        HAlign::Center => layer.cols.saturating_sub(text_len) / 2,
        HAlign::Right => layer.cols.saturating_sub(text_len),
    };
    let row: usize = match valign {
        VAlign::Top => 0,
        VAlign::Middle => layer.rows.saturating_sub(1) / 2,
        VAlign::Bottom => layer.rows.saturating_sub(1),
    };
    let ghost cols = layer.cols as int;
    let ghost rows = layer.rows as int;
    let mut index: usize = 0;
    while index < text_len
        invariant
            chars@ == text@,
            text_len == chars@.len(),
            text_len + cols <= usize::MAX,
            col <= cols,
            index <= text_len,
            layer.wf(),
            layer.cols == cols,
            layer.rows == rows,
            layer.scene_width == old(layer).scene_width,
            layer.scene_height == old(layer).scene_height,
            layer.offset_x == old(layer).offset_x,
            layer.offset_y == old(layer).offset_y,
            forall|c: int, r: int| 0 <= c < cols && 0 <= r < rows && in_line(c, r, col as int, row as int, index as int) ==>
                #[trigger] layer.cell_at(c, r) == Some(Cell { glyph: text@[c - col], fg, bg }),
            forall|c: int, r: int| 0 <= c < cols && 0 <= r < rows && !in_line(c, r, col as int, row as int, index as int) ==>
                #[trigger] layer.cell_at(c, r) == old(layer).cell_at(c, r),
        decreases text_len - index,
    {
        let ghost before = *layer;
        let cell = Cell { glyph: chars[index], fg, bg };
        layer.set_cell(col + index, row, cell);
        proof {
            assert(before.cols == cols);
            lemma_grid_update(before.cells@, layer.cells@, cols, rows, (col + index) as int, row as int, Some(cell));
            assert forall|c: int, r: int| 0 <= c < cols && 0 <= r < rows implies
                #[trigger] layer.cell_at(c, r) == (if r == row && c == col + index { Some(cell) } else { before.cell_at(c, r) }) by {
                assert(layer.cells@[r * cols + c] == (if r == row && c == col + index { Some(cell) } else { before.cells@[r * cols + c] }));
            }
        }
        index = index + 1;
    }
}

proof fn lemma_row_major_injective(r: int, c: int, row: int, col: int, cols: int)
    requires
        0 <= c < cols,
        0 <= col < cols,
        0 <= r,
        0 <= row,
        r * cols + c == row * cols + col,
    ensures
        r == row && c == col,
{
    assert(r == row && c == col) by (nonlinear_arith)
        requires 0 <= c < cols, 0 <= col < cols, 0 <= r, 0 <= row, r * cols + c == row * cols + col;
}

proof fn lemma_grid_update<T>(
    before: Seq<T>,
    after: Seq<T>,
    cols: int,
    rows: int,
    col: int,
    row: int,
    v: T,
)
    requires
        before.len() == cols * rows,
        0 <= col,
        0 <= row,
        after == if col < cols && row < rows { before.update(row * cols + col, v) } else { before },
    ensures
        forall|c: int, r: int| 0 <= c < cols && 0 <= r < rows ==>
            #[trigger] after[r * cols + c] == (if r == row && c == col { v } else { before[r * cols + c] }),
{
    assert forall|c: int, r: int| 0 <= c < cols && 0 <= r < rows implies
        #[trigger] after[r * cols + c] == (if r == row && c == col { v } else { before[r * cols + c] }) by {
        assert(0 <= r * cols + c < cols * rows) by (nonlinear_arith) requires 0 <= c < cols, 0 <= r < rows;
        if col < cols && row < rows {
            assert(0 <= row * cols + col < cols * rows) by (nonlinear_arith) requires 0 <= col < cols, 0 <= row < rows;
            if r * cols + c == row * cols + col {
                lemma_row_major_injective(r, c, row, col, cols);
            }
            if r == row && c == col {
                assert(r * cols + c == row * cols + col);
            }
        }
    }
}

/// Unicode white space (the `White_Space` property that `char::is_whitespace` tests).
pub open spec fn is_space(c: char) -> bool {
    let v = c as u32;
    (0x9 <= v <= 0xD) || v == 0x20 || v == 0x85 || v == 0xA0 || v == 0x1680 || (0x2000 <= v <= 0x200A)
        || v == 0x2028 || v == 0x2029 || v == 0x202F || v == 0x205F || v == 0x3000
}

fn char_is_space(c: char) -> (r: bool)
    ensures
        r == is_space(c),
{
    let v: u32 = c as u32;
    (0x9 <= v && v <= 0xD) || v == 0x20 || v == 0x85 || v == 0xA0 || v == 0x1680 || (0x2000 <= v && v <= 0x200A)
        || v == 0x2028 || v == 0x2029 || v == 0x202F || v == 0x205F || v == 0x3000
}

/// The maximal runs of non-space characters of `s`, in order.
pub open spec fn words(s: Seq<char>) -> Seq<Seq<char>>
    decreases s.len(),
{
    if s.len() == 0 {
        Seq::empty()
    } else {
        let w = words(s.drop_last());
        let c = s.last();
        if is_space(c) {
            w
        } else if s.len() >= 2 && !is_space(s[s.len() - 2]) {
            w.update(w.len() - 1, w.last().push(c))
        } else {
            w.push(seq![c])
        }
    }
}

/// `w` cut into pieces of `m` characters (the last one possibly shorter).
pub open spec fn chunks(w: Seq<char>, m: int) -> Seq<Seq<char>>
    decreases w.len(),
{
    if w.len() == 0 || m <= 0 {
        Seq::empty()
    } else if w.len() <= m {
        seq![w]
    } else {
        seq![w.take(m)] + chunks(w.skip(m), m)
    }
}

/// The finished lines so far, then `current` if it is not empty.
pub open spec fn flush(lines: Seq<Seq<char>>, current: Seq<char>) -> Seq<Seq<char>> {
    if current.len() == 0 { lines } else { lines.push(current) }
}

/// One step of greedy wrapping at width `m`: a word longer than `m` closes
/// the current line and is cut into pieces of its own; a word that does not
/// fit after the current line (with one space) starts a new line; otherwise
/// it joins the current line.
pub open spec fn wrap_step(state: (Seq<Seq<char>>, Seq<char>), word: Seq<char>, m: int) -> (Seq<Seq<char>>, Seq<char>) {
    let (lines, current) = state;
    if word.len() > m {
        (flush(lines, current) + chunks(word, m), Seq::empty())
    } else if current.len() == 0 {
        (lines, word)
    } else if current.len() + 1 + word.len() > m {
        (lines.push(current), word)
    } else {
        (lines, current.push(' ') + word)
    }
}

/// Greedy wrapping of the first words: (finished lines, current line).
pub open spec fn wrap_fold(ws: Seq<Seq<char>>, m: int) -> (Seq<Seq<char>>, Seq<char>)
    decreases ws.len(),
{
    if ws.len() == 0 {
        (Seq::empty(), Seq::empty())
    } else {
        wrap_step(wrap_fold(ws.drop_last(), m), ws.last(), m)
    }
}

/// The lines `text` wraps to at `max_cols` columns.
pub open spec fn wrapped(text: Seq<char>, max_cols: int) -> Seq<Seq<char>> {
    if max_cols == 0 {
        Seq::empty()
    } else {
        let (lines, current) = wrap_fold(words(text), max_cols);
        flush(lines, current)
    }
}

/// Line-fitting invariant: every line is non-empty and at most `m` wide.
pub open spec fn lines_fit(lines: Seq<Seq<char>>, m: int) -> bool {
    forall|i: int| 0 <= i < lines.len() ==> 0 < (#[trigger] lines[i]).len() <= m
}

proof fn lemma_words_nonempty(s: Seq<char>)
    ensures
        forall|i: int| 0 <= i < words(s).len() ==> (#[trigger] words(s)[i]).len() > 0,
    decreases s.len(),
{
    if s.len() > 0 {
        lemma_words_nonempty(s.drop_last());
        let w = words(s.drop_last());
        let c = s.last();
        if !is_space(c) {
            if s.len() >= 2 && !is_space(s[s.len() - 2]) {
                lemma_words_end_in_word(s.drop_last());
                let u = w.update(w.len() - 1, w.last().push(c));
                assert forall|i: int| 0 <= i < u.len() implies (#[trigger] u[i]).len() > 0 by {
                    if i != w.len() - 1 {
                        assert(u[i] == w[i]);
                    }
                }
            } else {
                let u = w.push(seq![c]);
                assert forall|i: int| 0 <= i < u.len() implies (#[trigger] u[i]).len() > 0 by {
                    if i < w.len() {
                        assert(u[i] == w[i]);
                    }
                }
            }
        }
    }
}

/// Text ending in a non-space character has at least one word.
proof fn lemma_words_end_in_word(s: Seq<char>)
    requires
        s.len() > 0,
        !is_space(s.last()),
    ensures
        words(s).len() > 0,
    decreases s.len(),
{
    if s.len() >= 2 && !is_space(s[s.len() - 2]) {
        lemma_words_end_in_word(s.drop_last());
    }
}

proof fn lemma_chunks_fit(w: Seq<char>, m: int)
    requires
        m > 0,
    ensures
        lines_fit(chunks(w, m), m),
    decreases w.len(),
{
    if w.len() > m {
        lemma_chunks_fit(w.skip(m), m);
        let rest = chunks(w.skip(m), m);
        assert forall|i: int| 0 <= i < chunks(w, m).len() implies 0 < (#[trigger] chunks(w, m)[i]).len() <= m by {
            if i > 0 {
                assert(chunks(w, m)[i] == rest[i - 1]);
            }
        }
    }
}

proof fn lemma_wrap_fold_fit(ws: Seq<Seq<char>>, m: int)
    requires
        m > 0,
        forall|i: int| 0 <= i < ws.len() ==> (#[trigger] ws[i]).len() > 0,
    ensures
        lines_fit(wrap_fold(ws, m).0, m),
        wrap_fold(ws, m).1.len() <= m,
    decreases ws.len(),
{
    if ws.len() > 0 {
        let prev = ws.drop_last();
        assert forall|i: int| 0 <= i < prev.len() implies (#[trigger] prev[i]).len() > 0 by {
            assert(prev[i] == ws[i]);
        }
        lemma_wrap_fold_fit(prev, m);
        let (lines, current) = wrap_fold(prev, m);
        let word = ws.last();
        assert(word.len() > 0);
        if word.len() > m {
            lemma_chunks_fit(word, m);
            let head = flush(lines, current);
            let tail = chunks(word, m);
            assert forall|i: int| 0 <= i < (head + tail).len() implies 0 < (#[trigger] (head + tail)[i]).len() <= m by {
                if i >= head.len() {
                    assert((head + tail)[i] == tail[i - head.len()]);
                } else if i < lines.len() {
                    assert((head + tail)[i] == lines[i]);
                }
            }
        } else if current.len() != 0 && current.len() + 1 + word.len() > m {
            assert(lines_fit(lines.push(current), m)) by {
                assert forall|i: int| 0 <= i < lines.push(current).len() implies
                    0 < (#[trigger] lines.push(current)[i]).len() <= m by {
                    if i < lines.len() {
                        assert(lines.push(current)[i] == lines[i]);
                    }
                }
            }
        }
    }
}

/// No character of `w` is white space.
pub open spec fn no_space(w: Seq<char>) -> bool {
    forall|k: int| 0 <= k < w.len() ==> !is_space(#[trigger] w[k])
}

/// Every character of `l` is a plain space or not white space.
pub open spec fn only_plain_spaces(l: Seq<char>) -> bool {
    forall|k: int| 0 <= k < l.len() ==> (#[trigger] l[k]) == ' ' || !is_space(l[k])
}

proof fn lemma_words_no_space(s: Seq<char>)
    ensures
        forall|i: int| 0 <= i < words(s).len() ==> no_space(#[trigger] words(s)[i]),
    decreases s.len(),
{
    if s.len() > 0 {
        lemma_words_no_space(s.drop_last());
        let w = words(s.drop_last());
        let c = s.last();
        if !is_space(c) {
            if s.len() >= 2 && !is_space(s[s.len() - 2]) {
                lemma_words_end_in_word(s.drop_last());
                let u = w.update(w.len() - 1, w.last().push(c));
                assert forall|i: int| 0 <= i < u.len() implies no_space(#[trigger] u[i]) by {
                    if i != w.len() - 1 {
                        assert(u[i] == w[i]);
                    } else {
                        assert(no_space(w[i]));
                        assert forall|k: int| 0 <= k < u[i].len() implies !is_space(#[trigger] u[i][k]) by {
                            if k < w[i].len() {
                                assert(u[i][k] == w[i][k]);
                            }
                        }
                    }
                }
            } else {
                let u = w.push(seq![c]);
                assert forall|i: int| 0 <= i < u.len() implies no_space(#[trigger] u[i]) by {
                    if i < w.len() {
                        assert(u[i] == w[i]);
                    } else {
                        assert(u[i] == seq![c]);
                    }
                }
            }
        }
    }
}

proof fn lemma_chunks_no_space(w: Seq<char>, m: int)
    requires
        no_space(w),
    ensures
        forall|i: int| 0 <= i < chunks(w, m).len() ==> no_space(#[trigger] chunks(w, m)[i]),
    decreases w.len(),
{
    if w.len() > 0 && m > 0 && w.len() > m {
        assert(no_space(w.skip(m))) by {
            assert forall|k: int| 0 <= k < w.skip(m).len() implies !is_space(#[trigger] w.skip(m)[k]) by {
                assert(w.skip(m)[k] == w[k + m]);
            }
        }
        lemma_chunks_no_space(w.skip(m), m);
        let rest = chunks(w.skip(m), m);
        assert forall|i: int| 0 <= i < chunks(w, m).len() implies no_space(#[trigger] chunks(w, m)[i]) by {
            if i > 0 {
                assert(chunks(w, m)[i] == rest[i - 1]);
            } else {
                assert(chunks(w, m)[0] == w.take(m));
                assert forall|k: int| 0 <= k < w.take(m).len() implies !is_space(#[trigger] w.take(m)[k]) by {
                    assert(w.take(m)[k] == w[k]);
                }
            }
        }
    }
}

proof fn lemma_no_space_plain(w: Seq<char>)
    requires
        no_space(w),
    ensures
        only_plain_spaces(w),
{
    assert forall|k: int| 0 <= k < w.len() implies (#[trigger] w[k]) == ' ' || !is_space(w[k]) by {
        assert(!is_space(w[k]));
    }
}

proof fn lemma_wrap_fold_plain(ws: Seq<Seq<char>>, m: int)
    requires
        forall|i: int| 0 <= i < ws.len() ==> no_space(#[trigger] ws[i]),
    ensures
        forall|i: int| 0 <= i < wrap_fold(ws, m).0.len() ==> only_plain_spaces(#[trigger] wrap_fold(ws, m).0[i]),
        only_plain_spaces(wrap_fold(ws, m).1),
    decreases ws.len(),
{
    if ws.len() > 0 {
        let prev = ws.drop_last();
        assert forall|i: int| 0 <= i < prev.len() implies no_space(#[trigger] prev[i]) by {
            assert(prev[i] == ws[i]);
        }
        lemma_wrap_fold_plain(prev, m);
        let (lines, current) = wrap_fold(prev, m);
        let word = ws.last();
        assert(no_space(word));
        lemma_no_space_plain(word);
        if word.len() > m {
            lemma_chunks_no_space(word, m);
            let head = flush(lines, current);
            let tail = chunks(word, m);
            assert forall|i: int| 0 <= i < (head + tail).len() implies only_plain_spaces(#[trigger] (head + tail)[i]) by {
                if i >= head.len() {
                    assert((head + tail)[i] == tail[i - head.len()]);
                    lemma_no_space_plain(tail[i - head.len()]);
                } else if i < lines.len() {
                    assert((head + tail)[i] == lines[i]);
                } else {
                    assert((head + tail)[i] == current);
                }
            }
            assert(only_plain_spaces(Seq::<char>::empty()));
        } else if current.len() == 0 {
        } else if current.len() + 1 + word.len() > m {
            assert forall|i: int| 0 <= i < lines.push(current).len() implies
                only_plain_spaces(#[trigger] lines.push(current)[i]) by {
                if i < lines.len() {
                    assert(lines.push(current)[i] == lines[i]);
                }
            }
        } else {
            let joined = current.push(' ') + word;
            assert forall|k: int| 0 <= k < joined.len() implies (#[trigger] joined[k]) == ' ' || !is_space(joined[k]) by {
                if k < current.len() {
                    assert(joined[k] == current[k]);
                } else if k > current.len() {
                    assert(joined[k] == word[k - current.len() - 1]);
                }
            }
        }
    }
}

/// Wrapping splits the text at every white-space character: no word holds
/// one, and the only white space left in the lines is the single plain
/// space put between two words that share a line; line breaks, tabs,
/// carriage returns, form feeds and Unicode spaces never reach a line.
pub proof fn lemma_wrap_splits_at_white_space(text: Seq<char>, max_cols: int)
    ensures
        forall|i: int, k: int| 0 <= i < words(text).len() && 0 <= k < words(text)[i].len() ==> {
            let c = #[trigger] words(text)[i][k];
            c != ' ' && c != '\n' && c != '\t' && c != '\r' && c != '\u{B}' && c != '\u{C}'
                && c != '\u{85}' && c != '\u{A0}' && c != '\u{2028}' && c != '\u{3000}'
        },
        forall|i: int, k: int| 0 <= i < wrapped(text, max_cols).len() && 0 <= k < wrapped(text, max_cols)[i].len() ==> {
            let c = #[trigger] wrapped(text, max_cols)[i][k];
            c != '\n' && c != '\t' && c != '\r' && c != '\u{B}' && c != '\u{C}'
                && c != '\u{85}' && c != '\u{A0}' && c != '\u{2028}' && c != '\u{3000}'
        },
{
    lemma_words_no_space(text);
    assert forall|i: int, k: int| 0 <= i < words(text).len() && 0 <= k < words(text)[i].len() implies {
        let c = #[trigger] words(text)[i][k];
        c != ' ' && c != '\n' && c != '\t' && c != '\r' && c != '\u{B}' && c != '\u{C}'
            && c != '\u{85}' && c != '\u{A0}' && c != '\u{2028}' && c != '\u{3000}'
    } by {
        assert(no_space(words(text)[i]));
        assert(!is_space(words(text)[i][k]));
    }
    if max_cols != 0 {
        lemma_wrap_fold_plain(words(text), max_cols);
        let (lines, current) = wrap_fold(words(text), max_cols);
        assert forall|i: int, k: int| 0 <= i < wrapped(text, max_cols).len() && 0 <= k < wrapped(text, max_cols)[i].len() implies {
            let c = #[trigger] wrapped(text, max_cols)[i][k];
            c != '\n' && c != '\t' && c != '\r' && c != '\u{B}' && c != '\u{C}'
                && c != '\u{85}' && c != '\u{A0}' && c != '\u{2028}' && c != '\u{3000}'
        } by {
            let l = wrapped(text, max_cols)[i];
            if i < lines.len() {
                assert(l == lines[i]);
            } else {
                assert(l == current);
            }
            assert(only_plain_spaces(l));
            assert(l[k] == ' ' || !is_space(l[k]));
        }
    }
}

/// Every line `wrap_text` produces is non-empty and at most `max_cols`
/// characters wide.
pub proof fn lemma_wrapped_lines_fit(text: Seq<char>, max_cols: int)
    requires
        max_cols > 0,
    ensures
        lines_fit(wrapped(text, max_cols), max_cols),
{
    lemma_words_nonempty(text);
    lemma_wrap_fold_fit(words(text), max_cols);
    let (lines, current) = wrap_fold(words(text), max_cols);
    if current.len() > 0 {
        assert forall|i: int| 0 <= i < lines.push(current).len() implies
            0 < (#[trigger] lines.push(current)[i]).len() <= max_cols by {
            if i < lines.len() {
                assert(lines.push(current)[i] == lines[i]);
            }
        }
    }
}

/// The character sequences of a vector of character vectors.
pub open spec fn rows_view(v: Seq<Vec<char>>) -> Seq<Seq<char>> {
    v.map_values(|r: Vec<char>| r@)
}

/// The character sequences of a vector of strings.
pub open spec fn strings_view(v: Seq<String>) -> Seq<Seq<char>> {
    v.map_values(|r: String| r@)
}

fn split_words(text: &Vec<char>) -> (ws: Vec<Vec<char>>)
    ensures
        rows_view(ws@) == words(text@),
        forall|i: int| 0 <= i < ws@.len() ==> (#[trigger] ws@[i])@.len() > 0,
{
    let mut ws: Vec<Vec<char>> = Vec::new();
    let mut in_word: bool = false;
    let mut i: usize = 0;
    while i < text.len()
        invariant
            i <= text@.len(),
            rows_view(ws@) == words(text@.take(i as int)),
            forall|k: int| 0 <= k < ws@.len() ==> (#[trigger] ws@[k])@.len() > 0,
            in_word == (i > 0 && !is_space(text@[i - 1])),
            in_word ==> ws@.len() > 0,
        decreases text@.len() - i,
    {
        let c: char = text[i];
        let ghost prefix = text@.take(i as int);
        proof {
            assert(text@.take(i + 1).drop_last() =~= prefix);
            assert(text@.take(i + 1).last() == c);
            if i > 0 {
                assert(text@.take(i + 1)[i - 1] == text@[i - 1]);
            }
        }
        if char_is_space(c) {
            in_word = false;
        } else if in_word {
            let last: usize = ws.len() - 1;
            let mut word = ws.remove(last);
            word.push(c);
            ws.push(word);
            proof {
                assert(rows_view(ws@) =~= words(text@.take(i + 1)));
            }
        } else {
            let mut word: Vec<char> = Vec::new();
            word.push(c);
            ws.push(word);
            in_word = true;
            proof {
                assert(rows_view(ws@) =~= words(text@.take(i + 1)));
            }
        }
        i = i + 1;
    }
    proof {
        assert(text@.take(text@.len() as int) =~= text@);
    }
    ws
}

fn copy_chars(src: &Vec<char>, from: usize, to: usize) -> (r: Vec<char>)
    requires
        from <= to <= src@.len(),
    ensures
        r@ == src@.subrange(from as int, to as int),
{
    let mut r: Vec<char> = Vec::new();
    let mut i: usize = from;
    while i < to
        invariant
            from <= i <= to,
            to <= src@.len(),
            r@ == src@.subrange(from as int, i as int),
        decreases to - i,
    {
        r.push(src[i]);
        i = i + 1;
        proof {
            assert(r@ =~= src@.subrange(from as int, i as int));
        }
    }
    r
}

proof fn lemma_chunks_step(w: Seq<char>, m: int, i: int)
    requires
        m > 0,
        0 <= i < w.len(),
    ensures
        chunks(w.skip(i), m) == if w.len() - i <= m {
            seq![w.skip(i)]
        } else {
            seq![w.subrange(i, i + m)] + chunks(w.skip(i + m), m)
        },
{
    if w.len() - i > m {
        assert(w.skip(i).take(m) =~= w.subrange(i, i + m));
        assert(w.skip(i).skip(m) =~= w.skip(i + m));
    }
}

fn push_chunks(lines: &mut Vec<Vec<char>>, word: &Vec<char>, m: usize)
    requires
        m > 0,
        word@.len() > 0,
    ensures
        rows_view(final(lines)@) == rows_view(old(lines)@) + chunks(word@, m as int),
{
    let n: usize = word.len();
    let mut i: usize = 0;
    proof {
        assert(word@.skip(0) =~= word@);
        assert(rows_view(lines@) =~= rows_view(old(lines)@) + chunks(word@, m as int).take(0));
    }
    let ghost all = chunks(word@, m as int);
    while i < n
        invariant
            m > 0,
            n == word@.len(),
            i <= n,
            i < n ==> all == chunks(word@, m as int),
            rows_view(lines@) + chunks(word@.skip(i as int), m as int) == rows_view(old(lines)@) + chunks(word@, m as int),
        decreases n - i,
    {
        let end: usize = if n - i <= m { n } else { i + m };
        let piece = copy_chars(word, i, end);
        let ghost before = rows_view(lines@);
        proof {
            lemma_chunks_step(word@, m as int, i as int);
        }
        lines.push(piece);
        proof {
            assert(rows_view(lines@) =~= before.push(piece@));
            if n - i <= m {
                assert(word@.subrange(i as int, n as int) =~= word@.skip(i as int));
                assert(chunks(word@.skip(n as int), m as int) =~= Seq::<Seq<char>>::empty());
                assert(before + chunks(word@.skip(i as int), m as int) =~= before.push(piece@));
            } else {
                assert(before + chunks(word@.skip(i as int), m as int) =~= before.push(piece@) + chunks(word@.skip((i + m) as int), m as int));
            }
        }
        i = end;
    }
    proof {
        assert(word@.skip(n as int) =~= Seq::<char>::empty());
        assert(rows_view(lines@) + chunks(word@.skip(n as int), m as int) =~= rows_view(lines@));
    }
}

/// Greedily wraps the words of `text` (separated by white space) into lines
/// of at most `max_cols` characters, words on a line joined by one space; a
/// word longer than `max_cols` gets lines of its own, cut every `max_cols`
/// characters. No lines at all when `max_cols` is 0.
pub fn wrap_text(text: &str, max_cols: usize) -> (lines: Vec<String>)
    ensures
        strings_view(lines@) == wrapped(text@, max_cols as int),
{
    if max_cols == 0 {
        let v: Vec<String> = Vec::new();
        proof {
            assert(strings_view(v@) =~= Seq::<Seq<char>>::empty());
        }
        return v;
    }
    let chars = chars_of(text);
    let ws = split_words(&chars);
    let mut lines: Vec<Vec<char>> = Vec::new();
    let mut current: Vec<char> = Vec::new();
    let mut k: usize = 0;
    while k < ws.len()
        invariant
            max_cols > 0,
            k <= ws@.len(),
            forall|i: int| 0 <= i < ws@.len() ==> (#[trigger] ws@[i])@.len() > 0,
            (rows_view(lines@), current@) == wrap_fold(rows_view(ws@).take(k as int), max_cols as int),
            current@.len() <= max_cols,
        decreases ws@.len() - k,
    {
        let word = &ws[k];
        let word_width: usize = word.len();
        let ghost state = (rows_view(lines@), current@);
        proof {
            assert(rows_view(ws@).take(k + 1).drop_last() =~= rows_view(ws@).take(k as int));
            assert(rows_view(ws@).take(k + 1).last() == word@);
        }
        if word_width > max_cols {
            if current.len() > 0 {
                let mut done: Vec<char> = Vec::new();
                std::mem::swap(&mut done, &mut current);
                lines.push(done);
            }
            proof {
                assert(rows_view(lines@) =~= flush(state.0, state.1));
            }
            push_chunks(&mut lines, word, max_cols);
            proof {
                assert(current@ =~= Seq::<char>::empty());
            }
        } else if current.len() == 0 {
            current = copy_chars(word, 0, word_width);
            proof {
                assert(word@.subrange(0, word_width as int) =~= word@);
            }
        } else if current.len() >= max_cols || word_width > max_cols - 1 - current.len() {
            let mut done: Vec<char> = copy_chars(word, 0, word_width);
            std::mem::swap(&mut done, &mut current);
            lines.push(done);
            proof {
                assert(word@.subrange(0, word_width as int) =~= word@);
                assert(rows_view(lines@) =~= state.0.push(state.1));
            }
        } else {
            current.push(' ');
            let mut j: usize = 0;
            let ghost with_space = current@;
            while j < word_width
                invariant
                    j <= word_width,
                    word_width == word@.len(),
                    current@ == with_space + word@.take(j as int),
                decreases word_width - j,
            {
                current.push(word[j]);
                j = j + 1;
                proof {
                    assert(current@ =~= with_space + word@.take(j as int));
                }
            }
            proof {
                assert(word@.take(word_width as int) =~= word@);
            }
        }
        k = k + 1;
    }
    proof {
        assert(rows_view(ws@).take(ws@.len() as int) =~= rows_view(ws@));
    }
    if current.len() > 0 {
        lines.push(current);
    }
    let mut out: Vec<String> = Vec::new();
    let mut i: usize = 0;
    let ghost final_lines = rows_view(lines@);
    while i < lines.len()
        invariant
            i <= lines@.len(),
            final_lines == rows_view(lines@),
            strings_view(out@) == final_lines.take(i as int),
        decreases lines@.len() - i,
    {
        let s = string_from_chars(&lines[i]);
        proof {
            assert(final_lines[i as int] == lines@[i as int]@);
        }
        let ghost before = out@;
        out.push(s);
        proof {
            assert(strings_view(out@) =~= strings_view(before).push(s@));
            assert(final_lines.take(i + 1) =~= final_lines.take(i as int).push(final_lines[i as int]));
        }
        i = i + 1;
    }
    proof {
        assert(final_lines.take(lines@.len() as int) =~= final_lines);
    }
    out
}

/// Alpha-blends `src` over `dst`: each color channel becomes
/// (src * a + dst * (255 - a)) / 255 with a = src alpha, and the alpha
/// channel becomes dst alpha + src alpha, capped at 255.
pub open spec fn blend_spec(dst: Seq<u8>, src: Seq<u8>) -> Seq<u8> {
    Seq::new(4, |c: int| if c == 3 {
        if dst[3] + src[3] > 255 { 255u8 } else { (dst[3] + src[3]) as u8 }
    } else {
        ((src[c] * src[3] + dst[c] * (255 - src[3])) / 255) as u8
    })
}

fn blend_channel(d: u8, s: u8, a: u8) -> (r: u8)
    ensures
        r == (s * a + d * (255 - a)) / 255,
{
    proof {
        assert(s * a + d * (255 - a) <= 255 * 255) by (nonlinear_arith)
            requires s <= 255, d <= 255, a <= 255;
        assert(s * a + d * (255 - a) >= 0) by (nonlinear_arith)
            requires s >= 0, d >= 0, a <= 255;
    }
    let alpha: u32 = a as u32;
    ((s as u32 * alpha + d as u32 * (255 - alpha)) / 255) as u8
}

fn blend(dst: &mut [u8; 4], src: [u8; 4])
    ensures
        final(dst)@ == blend_spec(old(dst)@, src@),
{
    let alpha: u8 = src[3];
    let mut channel: usize = 0;
    while channel < 3
        invariant
            channel <= 3,
            dst@.len() == 4,
            alpha == src@[3],
            forall|c: int| 0 <= c < channel ==> dst@[c] == blend_spec(old(dst)@, src@)[c],
            forall|c: int| channel <= c < 4 ==> dst@[c] == old(dst)@[c],
        decreases 3 - channel,
    {
        let v: u8 = blend_channel(dst[channel], src[channel], alpha);
        dst[channel] = v;
        channel = channel + 1;
    }
    dst[3] = dst[3].saturating_add(src[3]);
    proof {
        assert(dst@ =~= blend_spec(old(dst)@, src@));
    }
}


/// Pixel `dst` under `cell`: the background is blended over it when its
/// alpha is not zero, then the foreground where the glyph is lit and the
/// foreground alpha is not zero.
pub open spec fn shade(dst: Seq<u8>, cell: Cell, lit: bool) -> Seq<u8> {
    let under = if cell.bg@[3] > 0 { blend_spec(dst, cell.bg@) } else { dst };
    if cell.fg@[3] > 0 && lit { blend_spec(under, cell.fg@) } else { under }
}

impl TextLayer {
    /// Whether scene pixel (`px`, `py`) lies inside the grid of cells.
    pub open spec fn covers(&self, px: int, py: int) -> bool {
        &&& self@.offset_x <= px < self@.offset_x + self@.cols * 8
        &&& self@.offset_y <= py < self@.offset_y + self@.rows * 8
    }

    /// Pixel (`px`, `py`) of `buf` once the layer is drawn over it with
    /// `font`: pixels under an occupied cell are shaded by it, with the glyph
    /// pixel at the same place inside the cell; every other pixel is kept.
    pub open spec fn rendered_pixel(&self, font: &Font, buf: Seq<u8>, px: int, py: int) -> Seq<u8> {
        let p = pixel_of(buf, self@.scene_width as int, px, py);
        let dx = px - self@.offset_x;
        let dy = py - self@.offset_y;
        if self.covers(px, py) {
            match self.cell_at(dx / 8, dy / 8) {
                Some(cell) => shade(p, cell, glyph_lit(font, cell.glyph, dx % 8, dy % 8)),
                None => p,
            }
        } else {
            p
        }
    }

    /// Whether pixel (`px`, `py`) comes before glyph pixel (`gx`, `gy`) of
    /// cell (`col`, `row`) in drawing order (rows, then columns, then glyph
    /// rows, then glyph columns).
    pub open spec fn drawn_before(&self, px: int, py: int, row: int, col: int, gy: int, gx: int) -> bool {
        let dx = px - self@.offset_x;
        let dy = py - self@.offset_y;
        &&& self.covers(px, py)
        &&& {
            ||| dy / 8 < row
            ||| dy / 8 == row && dx / 8 < col
            ||| dy / 8 == row && dx / 8 == col && dy % 8 < gy
            ||| dy / 8 == row && dx / 8 == col && dy % 8 == gy && dx % 8 < gx
        }
    }

    /// `buf` holds the drawn pixels up to the given point and `orig`'s
    /// pixels from there on.
    pub open spec fn drawn_up_to(&self, font: &Font, orig: Seq<u8>, buf: Seq<u8>, row: int, col: int, gy: int, gx: int) -> bool {
        &&& buf.len() == orig.len()
        &&& forall|px: int, py: int, c: int|
            0 <= px < self@.scene_width && 0 <= py < self@.scene_height && 0 <= c < 4 ==>
                #[trigger] buf[byte_index(self@.scene_width as int, px, py, c)] == if self.drawn_before(px, py, row, col, gy, gx) {
                    self.rendered_pixel(font, orig, px, py)[c]
                } else {
                    orig[byte_index(self@.scene_width as int, px, py, c)]
                }
    }
}

/// Shades the pixel at bytes `index .. index + 4` of `buf` with `cell`.
fn shade_pixel(buf: &mut [u8], index: usize, cell: Cell, lit: bool)
    requires
        index + 4 <= old(buf)@.len(),
    ensures
        final(buf)@.len() == old(buf)@.len(),
        forall|k: int| 0 <= k < old(buf)@.len() && !(index <= k < index + 4) ==> final(buf)@[k] == old(buf)@[k],
        final(buf)@.subrange(index as int, index + 4) == shade(old(buf)@.subrange(index as int, index + 4), cell, lit),
{
    let mut dst: [u8; 4] = [buf[index], buf[index + 1], buf[index + 2], buf[index + 3]];
    proof {
        assert(dst@ =~= old(buf)@.subrange(index as int, index + 4));
    }
    let ghost start = dst@;
    if cell.bg[3] > 0 {
        blend(&mut dst, cell.bg);
    }
    let ghost under = dst@;
    if cell.fg[3] > 0 && lit {
        blend(&mut dst, cell.fg);
    }
    proof {
        assert(dst@ =~= shade(start, cell, lit));
    }
    buf[index] = dst[0];
    buf[index + 1] = dst[1];
    buf[index + 2] = dst[2];
    buf[index + 3] = dst[3];
    proof {
        assert(buf@.subrange(index as int, index + 4) =~= dst@);
    }
}


/// Moving the drawing point from `a` to `b` keeps `buf` in step when every
/// pixel either keeps its place relative to the point or is left as it was
/// by the layer.
proof fn lemma_progress_equiv(
    layer: &TextLayer,
    font: &Font,
    orig: Seq<u8>,
    buf: Seq<u8>,
    a: (int, int, int, int),
    b: (int, int, int, int),
)
    requires
        layer.drawn_up_to(font, orig, buf, a.0, a.1, a.2, a.3),
        forall|px: int, py: int|
            0 <= px < layer.scene_width && 0 <= py < layer.scene_height ==> (
                #[trigger] layer.drawn_before(px, py, a.0, a.1, a.2, a.3) == layer.drawn_before(px, py, b.0, b.1, b.2, b.3)
                || layer.rendered_pixel(font, orig, px, py) == pixel_of(orig, layer.scene_width as int, px, py)),
    ensures
        layer.drawn_up_to(font, orig, buf, b.0, b.1, b.2, b.3),
{
    lemma_view_fields(layer);
    let w = layer.scene_width as int;
    assert forall|px: int, py: int, c: int|
        0 <= px < layer.scene_width && 0 <= py < layer.scene_height && 0 <= c < 4 implies
            #[trigger] buf[byte_index(w, px, py, c)] == if layer.drawn_before(px, py, b.0, b.1, b.2, b.3) {
                layer.rendered_pixel(font, orig, px, py)[c]
            } else {
                orig[byte_index(w, px, py, c)]
            } by {
        if layer.drawn_before(px, py, a.0, a.1, a.2, a.3) != layer.drawn_before(px, py, b.0, b.1, b.2, b.3) {
            assert(layer.rendered_pixel(font, orig, px, py)[c] == pixel_of(orig, w, px, py)[c]);
        }
    }
}

/// The view of a layer lists its fields.
proof fn lemma_view_fields(layer: &TextLayer)
    ensures
        layer@.scene_width == layer.scene_width,
        layer@.scene_height == layer.scene_height,
        layer@.cols == layer.cols,
        layer@.rows == layer.rows,
        layer@.offset_x == layer.offset_x,
        layer@.offset_y == layer.offset_y,
        layer@.cells == layer.cells@,
{
}

/// Splits the offset of a pixel from the grid origin into cell and place
/// inside the cell.
proof fn lemma_cell_split(d: int, cell: int, inner: int)
    requires
        0 <= inner < 8,
        d == cell * 8 + inner,
    ensures
        d / 8 == cell,
        d % 8 == inner,
{
    vstd::arithmetic::div_mod::lemma_fundamental_div_mod_converse(d, 8, cell, inner);
}

/// One glyph pixel drawn: the drawing point moves one pixel on.
proof fn lemma_draw_step(
    layer: &TextLayer,
    font: &Font,
    orig: Seq<u8>,
    before: Seq<u8>,
    after: Seq<u8>,
    row: int,
    col: int,
    gy: int,
    gx: int,
    cell: Cell,
    lit: bool,
)
    requires
        layer.wf(),
        orig.len() == layer.scene_width * layer.scene_height * 4,
        0 <= row < layer.rows,
        0 <= col < layer.cols,
        0 <= gy < 8,
        0 <= gx < 8,
        layer.cell_at(col, row) == Some(cell),
        lit == glyph_lit(font, cell.glyph, gx, gy),
        layer.drawn_up_to(font, orig, before, row, col, gy, gx),
        after.len() == before.len(),
        ({
            let index = byte_index(layer.scene_width as int, layer.offset_x + col * 8 + gx, layer.offset_y + row * 8 + gy, 0);
            &&& forall|k: int| 0 <= k < before.len() && !(index <= k < index + 4) ==> after[k] == before[k]
            &&& after.subrange(index, index + 4) == shade(before.subrange(index, index + 4), cell, lit)
        }),
    ensures
        layer.drawn_up_to(font, orig, after, row, col, gy, gx + 1),
{
    lemma_view_fields(layer);
    let w = layer.scene_width as int;
    let h = layer.scene_height as int;
    let px0 = layer.offset_x + col * 8 + gx;
    let py0 = layer.offset_y + row * 8 + gy;
    let index = byte_index(w, px0, py0, 0);
    assert(col * 8 + gx < layer.cols * 8) by (nonlinear_arith)
        requires 0 <= col < layer.cols, 0 <= gx < 8;
    assert(row * 8 + gy < layer.rows * 8) by (nonlinear_arith)
        requires 0 <= row < layer.rows, 0 <= gy < 8;
    lemma_cell_split(px0 - layer.offset_x, col, gx);
    lemma_cell_split(py0 - layer.offset_y, row, gy);
    assert(0 <= px0 < w && 0 <= py0 < h);
    lemma_byte_index_bound(w, h, px0, py0, 3);
    assert forall|c: int| 0 <= c < 4 implies #[trigger] before[index + c] == orig[byte_index(w, px0, py0, c)] by {
        lemma_byte_index_bound(w, h, px0, py0, c);
        assert(before[byte_index(w, px0, py0, c)] == orig[byte_index(w, px0, py0, c)]);
    }
    assert(before.subrange(index, index + 4) =~= pixel_of(orig, w, px0, py0));
    assert forall|px: int, py: int, c: int|
        0 <= px < layer.scene_width && 0 <= py < layer.scene_height && 0 <= c < 4 implies
            #[trigger] after[byte_index(w, px, py, c)] == if layer.drawn_before(px, py, row, col, gy, gx + 1) {
                layer.rendered_pixel(font, orig, px, py)[c]
            } else {
                orig[byte_index(w, px, py, c)]
            } by {
        lemma_byte_index_bound(w, h, px, py, c);
        lemma_byte_index_bound(w, h, px0, py0, c);
        if px == px0 && py == py0 {
            assert(after[index + c] == after.subrange(index, index + 4)[c]);
        } else {
            let k = byte_index(w, px, py, c);
            if index <= k < index + 4 {
                lemma_byte_index_bound(w, h, px0, py0, k - index);
                lemma_byte_index_injective(w, h, px, py, c, px0, py0, k - index);
            }
            let dx = px - layer.offset_x;
            let dy = py - layer.offset_y;
            if layer.covers(px, py) {
                vstd::arithmetic::div_mod::lemma_fundamental_div_mod(dx, 8);
                vstd::arithmetic::div_mod::lemma_fundamental_div_mod(dy, 8);
            }
        }
    }
}

impl TextLayer {
    /// Draws the layer over `buf`, the scene as row-major RGBA bytes (4 a
    /// pixel, `scene_width` x `scene_height` pixels): each pixel under an
    /// occupied cell gets the cell's background blended over it (when its
    /// alpha is not zero), then the foreground where the glyph is lit (when
    /// its alpha is not zero); all other pixels are left alone.
    pub fn render_to_buf(&self, buf: &mut [u8], font: &Font)
        requires
            old(buf)@.len() == self@.scene_width * self@.scene_height * 4,
        ensures
            final(buf)@.len() == old(buf)@.len(),
            forall|px: int, py: int, c: int|
                0 <= px < self@.scene_width && 0 <= py < self@.scene_height && 0 <= c < 4 ==>
                    #[trigger] final(buf)@[byte_index(self@.scene_width as int, px, py, c)]
                        == self.rendered_pixel(font, old(buf)@, px, py)[c],
    {
        proof {
            use_type_invariant(&*self);
        }
        let ghost orig = buf@;
        let ghost w = self.scene_width as int;
        let total: usize = buf.len();
        assert(self.offset_x + self.cols * 8 <= self.scene_width);
        assert(self.offset_y + self.rows * 8 <= self.scene_height);
        proof {
            lemma_progress_equiv(self, font, orig, buf@, (0, 0, 0, 0), (0, 0, 0, 0));
        }
        let mut row: usize = 0;
        while row < self.rows
            invariant
                self.wf(),
                row <= self.rows,
                orig.len() == self.scene_width * self.scene_height * 4,
                total == orig.len(),
                buf@.len() == orig.len(),
                self.drawn_up_to(font, orig, buf@, row as int, 0, 0, 0),
            decreases self.rows - row,
        {
            let mut col: usize = 0;
            while col < self.cols
                invariant
                    self.wf(),
                    row < self.rows,
                    col <= self.cols,
                    orig.len() == self.scene_width * self.scene_height * 4,
                total == orig.len(),
                    buf@.len() == orig.len(),
                    self.drawn_up_to(font, orig, buf@, row as int, col as int, 0, 0),
                decreases self.cols - col,
            {
                proof {
                    assert(row * self.cols + col < self.cols * self.rows) by (nonlinear_arith)
                        requires row < self.rows, col < self.cols;
                    assert(row * self.cols <= row * self.cols + col);
                }
                let at: usize = row * self.cols + col;
                let slot: Option<Cell> = self.cells[at];
                let visible: bool = match slot {
                    Some(cell) => !(cell.fg[3] == 0 && cell.bg[3] == 0),
                    None => false,
                };
                if visible {
                    let cell: Cell = slot.unwrap();
                    let glyph = font.glyph(cell.glyph);
                    proof {
                        assert(col * 8 + 8 <= self.cols * 8 && row * 8 + 8 <= self.rows * 8);
                    }
                    let base_x: usize = self.offset_x + col * GLYPH_W;
                    let base_y: usize = self.offset_y + row * GLYPH_H;
                    let mut gy: usize = 0;
                    while gy < GLYPH_H
                        invariant
                            self.wf(),
                            row < self.rows,
                            col < self.cols,
                            gy <= 8,
                            base_x == self.offset_x + col * 8,
                            base_y == self.offset_y + row * 8,
                            base_x + 8 <= self.scene_width,
                            base_y + 8 <= self.scene_height,
                            self.cell_at(col as int, row as int) == Some(cell),
                            match glyph_index(cell.glyph, font.glyphs().len() as int) {
                                Some(k) => glyph == Some(&font.glyphs()[k]),
                                None => glyph is None,
                            },
                            orig.len() == self.scene_width * self.scene_height * 4,
                total == orig.len(),
                            buf@.len() == orig.len(),
                            self.drawn_up_to(font, orig, buf@, row as int, col as int, gy as int, 0),
                        decreases 8 - gy,
                    {
                        let pixel_y: usize = base_y + gy;
                        let mut gx: usize = 0;
                        while gx < GLYPH_W
                            invariant
                                self.wf(),
                                row < self.rows,
                                col < self.cols,
                                gy < 8,
                                gx <= 8,
                                base_x == self.offset_x + col * 8,
                                base_x + 8 <= self.scene_width,
                                pixel_y == self.offset_y + row * 8 + gy,
                                pixel_y < self.scene_height,
                                self.cell_at(col as int, row as int) == Some(cell),
                                match glyph_index(cell.glyph, font.glyphs().len() as int) {
                                    Some(k) => glyph == Some(&font.glyphs()[k]),
                                    None => glyph is None,
                                },
                                orig.len() == self.scene_width * self.scene_height * 4,
                total == orig.len(),
                                buf@.len() == orig.len(),
                                self.drawn_up_to(font, orig, buf@, row as int, col as int, gy as int, gx as int),
                            decreases 8 - gx,
                        {
                            let pixel_x: usize = base_x + gx;
                            proof {
                                lemma_byte_index_bound(self.scene_width as int, self.scene_height as int, pixel_x as int, pixel_y as int, 3);
                                assert(pixel_y * self.scene_width <= pixel_y * self.scene_width + pixel_x);
                            }
                            let index: usize = (pixel_y * self.scene_width + pixel_x) * 4;
                            let lit: bool = match glyph {
                                Some(g) => g.pixel(gx, gy),
                                None => false,
                            };
                            let ghost before = buf@;
                            shade_pixel(buf, index, cell, lit);
                            proof {
                                lemma_draw_step(self, font, orig, before, buf@, row as int, col as int, gy as int, gx as int, cell, lit);
                            }
                            gx = gx + 1;
                        }
                        proof {
                            assert forall|px: int, py: int|
                                0 <= px < self.scene_width && 0 <= py < self.scene_height implies
                                    #[trigger] self.drawn_before(px, py, row as int, col as int, gy as int, 8)
                                        == self.drawn_before(px, py, row as int, col as int, gy + 1, 0) by {
                                if self.covers(px, py) {
                                    vstd::arithmetic::div_mod::lemma_fundamental_div_mod(px - self.offset_x, 8);
                                }
                            }
                            lemma_progress_equiv(self, font, orig, buf@, (row as int, col as int, gy as int, 8), (row as int, col as int, gy + 1, 0));
                        }
                        gy = gy + 1;
                    }
                    proof {
                        assert forall|px: int, py: int|
                            0 <= px < self.scene_width && 0 <= py < self.scene_height implies
                                #[trigger] self.drawn_before(px, py, row as int, col as int, 8, 0)
                                    == self.drawn_before(px, py, row as int, col + 1, 0, 0) by {
                            if self.covers(px, py) {
                                vstd::arithmetic::div_mod::lemma_fundamental_div_mod(py - self.offset_y, 8);
                            }
                        }
                        lemma_progress_equiv(self, font, orig, buf@, (row as int, col as int, 8, 0), (row as int, col + 1, 0, 0));
                    }
                } else {
                    proof {
                        assert forall|px: int, py: int|
                            0 <= px < self.scene_width && 0 <= py < self.scene_height implies
                                #[trigger] self.drawn_before(px, py, row as int, col as int, 0, 0)
                                    == self.drawn_before(px, py, row as int, col + 1, 0, 0)
                                || self.rendered_pixel(font, orig, px, py) == pixel_of(orig, self.scene_width as int, px, py) by {
                            if self.covers(px, py) {
                                vstd::arithmetic::div_mod::lemma_fundamental_div_mod(px - self.offset_x, 8);
                                vstd::arithmetic::div_mod::lemma_fundamental_div_mod(py - self.offset_y, 8);
                            }
                            if self.covers(px, py) && (py - self.offset_y) / 8 == row && (px - self.offset_x) / 8 == col {
                                let p = pixel_of(orig, self.scene_width as int, px, py);
                                match slot {
                                    Some(cell) => {
                                        assert(shade(p, cell, glyph_lit(font, cell.glyph, (px - self.offset_x) % 8, (py - self.offset_y) % 8)) == p);
                                    },
                                    None => {},
                                }
                            }
                        }
                        lemma_progress_equiv(self, font, orig, buf@, (row as int, col as int, 0, 0), (row as int, col + 1, 0, 0));
                    }
                }
                col = col + 1;
            }
            proof {
                assert forall|px: int, py: int|
                    0 <= px < self.scene_width && 0 <= py < self.scene_height implies
                        #[trigger] self.drawn_before(px, py, row as int, self.cols as int, 0, 0)
                            == self.drawn_before(px, py, row + 1, 0, 0, 0) by {
                    if self.covers(px, py) {
                        vstd::arithmetic::div_mod::lemma_fundamental_div_mod(px - self.offset_x, 8);
                        vstd::arithmetic::div_mod::lemma_fundamental_div_mod(py - self.offset_y, 8);
                    }
                }
                lemma_progress_equiv(self, font, orig, buf@, (row as int, self.cols as int, 0, 0), (row + 1, 0, 0, 0));
            }
            row = row + 1;
        }
        proof {
            assert forall|px: int, py: int, c: int|
                0 <= px < self.scene_width && 0 <= py < self.scene_height && 0 <= c < 4 implies
                    #[trigger] buf@[byte_index(self.scene_width as int, px, py, c)] == self.rendered_pixel(font, orig, px, py)[c] by {
                if self.covers(px, py) {
                    vstd::arithmetic::div_mod::lemma_fundamental_div_mod(py - self.offset_y, 8);
                }
            }
        }
    }
}
} // verus!
