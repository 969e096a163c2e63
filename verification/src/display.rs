use vstd::prelude::*;

use std::collections::VecDeque;

verus! {

/// Logical width of the CHIP-8 display in pixels.
pub const DISPLAY_WIDTH: usize = 64;

/// Logical height of the CHIP-8 display in pixels.
pub const DISPLAY_HEIGHT: usize = 32;

/// What the display surface is currently showing: the CHIP-8 framebuffer,
/// or a text console.
#[derive(Copy, Clone, Debug, PartialEq, Eq, Structural)]
pub enum DisplayMode {
    Chip8,
    Console,
}

/// Bit `i` (leftmost first) of one sprite row byte.
pub open spec fn sprite_bit(b: u8, i: int) -> bool {
    ((b >> ((7 - i) as u8)) & 1) == 1
}

/// Display column hit by sprite bit `i` drawn at `x`, wrapping.
pub open spec fn col_at(x: u8, i: int) -> int {
    (x as int + i) % (DISPLAY_WIDTH as int)
}

/// Display row hit by sprite row `j` drawn at `y`, wrapping.
pub open spec fn row_at(y: u8, j: int) -> int {
    (y as int + j) % (DISPLAY_HEIGHT as int)
}

/// The display and input surface a process draws on and reads keys from:
/// a 64x32 logical framebuffer, the 16-key keypad state, a queue of typed
/// text, and the text console surface. A host front end renders the
/// framebuffer and feeds key and text state in between steps.
pub struct Screen {
    /// Logical pixels, row-major: index `y * 64 + x`.
    pub buf: Vec<bool>,
    /// Whether each of the 16 keypad keys is currently held.
    pub key_down: Vec<bool>,
    /// Text bytes typed on the keyboard, waiting to be drained.
    pub typed: VecDeque<u8>,
    /// Bytes written to the text console surface.
    pub text_out: Vec<u8>,
    pub mode: DisplayMode,
}


/// Relation between a screen before (`a`) and after (`b`) drawing `sprite`
/// at `(x, y)`: every addressed pixel is XORed with its sprite bit, all
/// other pixels and all non-framebuffer state are unchanged, and `col`
/// holds exactly when some pixel went from on to off.
pub open spec fn draw_rel(a: Screen, b: Screen, sprite: Seq<u8>, x: u8, y: u8, col: bool) -> bool {
    &&& b.same_but_buf(a)
    &&& forall|j: int, i: int|
        0 <= j < sprite.len() && 0 <= i < 8 ==> b.pix(col_at(x, i), row_at(y, j)) == (a.pix(
            col_at(x, i),
            row_at(y, j),
        ) != sprite_bit(sprite[j], i))
    &&& forall|cx: int, cy: int|
        0 <= cx < DISPLAY_WIDTH && 0 <= cy < DISPLAY_HEIGHT && !(exists|j: int, i: int|
            0 <= j < sprite.len() && 0 <= i < 8 && cx == col_at(x, i) && cy == row_at(y, j))
            ==> b.pix(cx, cy) == a.pix(cx, cy)
    &&& col == (exists|j: int, i: int|
        0 <= j < sprite.len() && 0 <= i < 8 && sprite_bit(sprite[j], i) && a.pix(
            col_at(x, i),
            row_at(y, j),
        ))
}

/// The lowest-numbered held key, scanning from `i` upward.
pub open spec fn first_held_from(keys: Seq<bool>, i: int) -> Option<u8>
    decreases 16 - i,
{
    if i < 0 || i >= 16 {
        None
    } else if keys[i] {
        Some(i as u8)
    } else {
        first_held_from(keys, i + 1)
    }
}

impl Screen {
    pub open spec fn wf(self) -> bool {
        &&& self.buf@.len() == DISPLAY_WIDTH * DISPLAY_HEIGHT
        &&& self.key_down@.len() == 16
    }

    /// Pixel at logical coordinates `(x, y)`.
    pub open spec fn pix(self, x: int, y: int) -> bool {
        self.buf@[y * DISPLAY_WIDTH as int + x]
    }

    /// All fields but the framebuffer are equal.
    pub open spec fn same_but_buf(self, other: Screen) -> bool {
        &&& self.key_down@ == other.key_down@
        &&& self.typed@ == other.typed@
        &&& self.text_out@ == other.text_out@
        &&& self.mode == other.mode
    }

    /// A blank screen: all pixels off, no key held, no pending text.
    pub fn new() -> (s: Screen)
        ensures
            s.wf(),
            forall|i: int| 0 <= i < DISPLAY_WIDTH * DISPLAY_HEIGHT ==> !s.buf@[i],
            forall|k: int| 0 <= k < 16 ==> !s.key_down@[k],
            s.typed@.len() == 0,
            s.text_out@.len() == 0,
            s.mode == DisplayMode::Chip8,
    {
        let mut buf: Vec<bool> = Vec::new();
        let mut i: usize = 0;
        while i < DISPLAY_WIDTH * DISPLAY_HEIGHT
            invariant
                i == buf@.len(),
                i <= DISPLAY_WIDTH * DISPLAY_HEIGHT,
                forall|k: int| 0 <= k < i ==> !buf@[k],
            decreases DISPLAY_WIDTH * DISPLAY_HEIGHT - i,
        {
            buf.push(false);
            i = i + 1;
        }
        let mut key_down: Vec<bool> = Vec::new();
        let mut k: usize = 0;
        while k < 16
            invariant
                k == key_down@.len(),
                k <= 16,
                forall|j: int| 0 <= j < k ==> !key_down@[j],
            decreases 16 - k,
        {
            key_down.push(false);
            k = k + 1;
        }
        Screen { buf, key_down, typed: VecDeque::new(), text_out: Vec::new(), mode: DisplayMode::Chip8 }
    }

    /// Turn every pixel off.
    pub fn clear_screen(&mut self)
        requires
            old(self).wf(),
        ensures
            final(self).wf(),
            forall|i: int| 0 <= i < DISPLAY_WIDTH * DISPLAY_HEIGHT ==> !final(self).buf@[i],
            final(self).same_but_buf(*old(self)),
    {
        let mut i: usize = 0;
        while i < DISPLAY_WIDTH * DISPLAY_HEIGHT
            invariant
                self.wf(),
                i <= DISPLAY_WIDTH * DISPLAY_HEIGHT,
                forall|k: int| 0 <= k < i ==> !self.buf@[k],
                self.same_but_buf(*old(self)),
            decreases DISPLAY_WIDTH * DISPLAY_HEIGHT - i,
        {
            self.buf.set(i, false);
            i = i + 1;
        }
    }

    /// Turn on the pixel at `(x, y)`, wrapping both coordinates.
    pub fn draw_pixel(&mut self, x_pos: u32, y_pos: u32)
        requires
            old(self).wf(),
        ensures
            final(self).wf(),
            final(self).pix(x_pos as int % DISPLAY_WIDTH as int, y_pos as int % DISPLAY_HEIGHT as int),
            forall|cx: int, cy: int|
                0 <= cx < DISPLAY_WIDTH && 0 <= cy < DISPLAY_HEIGHT && !(cx == x_pos as int
                    % DISPLAY_WIDTH as int && cy == y_pos as int % DISPLAY_HEIGHT as int)
                    ==> final(self).pix(cx, cy) == old(self).pix(cx, cy),
            final(self).same_but_buf(*old(self)),
    {
        let x = (x_pos as usize) % DISPLAY_WIDTH;
        let y = (y_pos as usize) % DISPLAY_HEIGHT;
        self.buf.set(y * DISPLAY_WIDTH + x, true);
    }

    /// XOR one 8-pixel sprite row into display row `y % 32` starting at
    /// column `x % 64`; reports whether any pixel went from on to off.
    fn draw_sprite_row(&mut self, b: u8, x: u8, y: u8) -> (col: bool)
        requires
            old(self).wf(),
        ensures
            final(self).wf(),
            final(self).same_but_buf(*old(self)),
            forall|i: int|
                0 <= i < 8 ==> final(self).pix(col_at(x, i), row_at(y, 0)) == (old(self).pix(
                    col_at(x, i),
                    row_at(y, 0),
                ) != sprite_bit(b, i)),
            forall|cx: int, cy: int|
                0 <= cx < DISPLAY_WIDTH && 0 <= cy < DISPLAY_HEIGHT && !(cy == row_at(y, 0) && (exists|i: int|
                    0 <= i < 8 && cx == col_at(x, i))) ==> final(self).pix(
                    cx,
                    cy,
                ) == old(self).pix(cx, cy),
            col == (exists|i: int|
                0 <= i < 8 && sprite_bit(b, i) && old(self).pix(
                    col_at(x, i),
                    row_at(y, 0),
                )),
    {
        let cy = (y as usize) % DISPLAY_HEIGHT;
        let mut col = false;
        let mut i: usize = 0;
        while i < 8
            invariant
                self.wf(),
                i <= 8,
                cy == row_at(y, 0),
                self.same_but_buf(*old(self)),
                forall|k: int|
                    0 <= k < i ==> self.pix(col_at(x, k), cy as int) == (
                    old(self).pix(col_at(x, k), cy as int) != sprite_bit(
                        b,
                        k,
                    )),
                forall|cx: int, cyy: int|
                    0 <= cx < DISPLAY_WIDTH && 0 <= cyy < DISPLAY_HEIGHT && !(cyy == cy as int && (
                    exists|k: int|
                        0 <= k < i && cx == col_at(x, k))) ==> self.pix(
                        cx,
                        cyy,
                    ) == old(self).pix(cx, cyy),
                col == (exists|k: int|
                    0 <= k < i && sprite_bit(b, k) && old(self).pix(
                        col_at(x, k),
                        cy as int,
                    )),
            decreases 8 - i,
        {
            let cx = ((x as usize) + i) % DISPLAY_WIDTH;
            let pos = cy * DISPLAY_WIDTH + cx;
            let cur = self.buf[pos];
            let sp = ((b >> ((7 - i) as u8)) & 1) == 1;
            proof {
                assert(sp == sprite_bit(b, i as int));
                // a column only collides with itself among the eight drawn.
                assert forall|k: int|
                    0 <= k < 8 && k != i as int implies (col_at(x, k)) != (
                cx as int) by {
                    let xi = x as usize;
                    let ku = k as usize;
                    if k < i as int {
                        assert((xi + ku) % 64 != (xi + i) % 64) by (bit_vector)
                            requires
                                ku < i,
                                i < 8usize,
                                xi < 256usize,
                        ;
                    } else {
                        assert((xi + i) % 64 != (xi + ku) % 64) by (bit_vector)
                            requires
                                i < ku,
                                ku < 8usize,
                                xi < 256usize,
                        ;
                    }
                }
            }
            if cur && sp {
                col = true;
            }
            self.buf.set(pos, cur != sp);
            proof {
                assert(cx as int == col_at(x, i as int));
                assert forall|cx2: int, cyy: int|
                    0 <= cx2 < DISPLAY_WIDTH && 0 <= cyy < DISPLAY_HEIGHT && !(cyy == cy as int
                        && (exists|k: int|
                        0 <= k < i + 1 && cx2 == col_at(x, k))) implies self.pix(cx2, cyy) == old(
                    self,
                ).pix(cx2, cyy) by {
                    if cyy * (DISPLAY_WIDTH as int) + cx2 == cy as int * (DISPLAY_WIDTH as int)
                        + cx as int {
                        // the write landed on this index: then the coordinates
                        // coincide, which the exclusion above rules out.
                        assert((cyy - cy as int) * 64 == cx as int - cx2) by (nonlinear_arith)
                            requires
                                cyy * (DISPLAY_WIDTH as int) + cx2 == cy as int * (DISPLAY_WIDTH
                                    as int) + cx as int,
                                DISPLAY_WIDTH as int == 64,
                        ;
                        if cyy != cy as int {
                            assert((cyy - cy as int) * 64 >= 64 || (cyy - cy as int) * 64 <= -64)
                                by (nonlinear_arith)
                                requires
                                    cyy != cy as int,
                            ;
                        }
                        assert(cyy == cy as int && cx2 == cx as int);
                        assert(false);
                    }
                }
            }
            i = i + 1;
        }
        col
    }

    /// XOR a sprite of up to 32 rows into the framebuffer at `(x, y)`,
    /// wrapping coordinates; reports whether any pixel went from on to off.
    pub fn draw_sprite(&mut self, sprite: &Vec<u8>, x: u8, y: u8) -> (col: bool)
        requires
            old(self).wf(),
            sprite@.len() <= 32,
        ensures
            final(self).wf(),
            draw_rel(*old(self), *final(self), sprite@, x, y, col),
    {
        let mut col = false;
        let mut j: usize = 0;
        while j < sprite.len()
            invariant
                self.wf(),
                j <= sprite@.len(),
                sprite@.len() <= 32,
                self.same_but_buf(*old(self)),
                forall|jj: int, i: int|
                    0 <= jj < j && 0 <= i < 8 ==> self.pix(
                        col_at(x, i),
                        row_at(y, jj),
                    ) == (old(self).pix(
                        col_at(x, i),
                        row_at(y, jj),
                    ) != sprite_bit(sprite@[jj], i)),
                forall|cx: int, cy: int|
                    0 <= cx < DISPLAY_WIDTH && 0 <= cy < DISPLAY_HEIGHT && !(exists|jj: int, i: int|
                        0 <= jj < j && 0 <= i < 8 && cx == col_at(x, i)
                            && cy == row_at(y, jj)) ==> self.pix(cx, cy)
                        == old(self).pix(cx, cy),
                col == (exists|jj: int, i: int|
                    0 <= jj < j && 0 <= i < 8 && sprite_bit(sprite@[jj], i) && old(self).pix(
                        col_at(x, i),
                        row_at(y, jj),
                    )),
            decreases sprite@.len() - j,
        {
            proof {
                // each sprite row lands on a distinct display row.
                assert forall|jj: int|
                    0 <= jj < j implies (row_at(y, jj)) != ((y as int
                    + j as int) % DISPLAY_HEIGHT as int) by {
                    let yu = y as usize;
                    let jju = jj as usize;
                    let ju = j as usize;
                    assert((yu + jju) % 32 != (yu + ju) % 32) by (bit_vector)
                        requires
                            jju < ju,
                            ju < 32usize,
                            yu < 256usize,
                    ;
                }
            }
            let row_y = ((y as usize) + j) % 256;
            let ghost pre = *self;
            let row_col = self.draw_sprite_row(sprite[j], x, row_y as u8);
            proof {
                // the row helper wraps `y` again, so feeding it `y + j` mod 256
                // reaches row `(y + j) % 32`.
                let yu = y as usize;
                let ju = j as usize;
                assert(((yu + ju) % 256) % 32 == (yu + ju) % 32) by (bit_vector)
                    requires
                        ju < 32usize,
                        yu < 256usize,
                ;
                // before this row was drawn, its pixels still held their
                // original values, because earlier rows are distinct.
                assert forall|i: int| 0 <= i < 8 implies pre.pix(
                    col_at(x, i),
                    row_at(y, j as int),
                ) == old(self).pix(
                    col_at(x, i),
                    row_at(y, j as int),
                ) by {}
            }
            if row_col {
                col = true;
            }
            j = j + 1;
        }
        col
    }

    /// Whether keypad key `key` is currently held; keys above 0xF never are.
    pub fn is_key_down(&self, key: u8) -> (r: bool)
        requires
            self.wf(),
        ensures
            r == (key < 16 && self.key_down@[key as int]),
    {
        key < 16 && self.key_down[key as usize]
    }

    /// The lowest-numbered currently held key, if any.
    pub fn last_key(&self) -> (r: Option<u8>)
        requires
            self.wf(),
        ensures
            r == first_held_from(self.key_down@, 0),
    {
        let mut i: usize = 0;
        while i < 16
            invariant
                self.wf(),
                i <= 16,
                first_held_from(self.key_down@, 0) == first_held_from(self.key_down@, i as int),
            decreases 16 - i,
        {
            if self.key_down[i] {
                return Some(i as u8);
            }
            i = i + 1;
        }
        None
    }

    /// Record that keypad key `key` went down or up.
    pub fn set_key(&mut self, key: u8, down: bool)
        requires
            old(self).wf(),
            key < 16,
        ensures
            final(self).wf(),
            final(self).key_down@ == old(self).key_down@.update(key as int, down),
            final(self).buf@ == old(self).buf@,
            final(self).typed@ == old(self).typed@,
            final(self).text_out@ == old(self).text_out@,
            final(self).mode == old(self).mode,
    {
        self.key_down.set(key as usize, down);
    }

    /// Append text bytes typed on the keyboard.
    pub fn push_typed(&mut self, data: &[u8])
        requires
            old(self).wf(),
        ensures
            final(self).wf(),
            final(self).typed@ == old(self).typed@ + data@,
            final(self).buf@ == old(self).buf@,
            final(self).key_down@ == old(self).key_down@,
            final(self).text_out@ == old(self).text_out@,
            final(self).mode == old(self).mode,
    {
        let mut i: usize = 0;
        while i < data.len()
            invariant
                self.wf(),
                i <= data@.len(),
                self.typed@ == old(self).typed@ + data@.take(i as int),
                self.buf@ == old(self).buf@,
                self.key_down@ == old(self).key_down@,
                self.text_out@ == old(self).text_out@,
                self.mode == old(self).mode,
            decreases data@.len() - i,
        {
            self.typed.push_back(data[i]);
            proof {
                assert(old(self).typed@ + data@.take(i as int) + seq![data@[i as int]]
                    =~= old(self).typed@ + data@.take(i as int + 1));
            }
            i = i + 1;
        }
        proof {
            assert(data@.take(data@.len() as int) =~= data@);
        }
    }

    /// Take all typed text bytes, leaving the queue empty.
    pub fn drain_text_input(&mut self) -> (r: Vec<u8>)
        requires
            old(self).wf(),
        ensures
            final(self).wf(),
            r@ == old(self).typed@,
            final(self).typed@.len() == 0,
            final(self).buf@ == old(self).buf@,
            final(self).key_down@ == old(self).key_down@,
            final(self).text_out@ == old(self).text_out@,
            final(self).mode == old(self).mode,
    {
        let mut r: Vec<u8> = Vec::new();
        loop
            invariant
                self.wf(),
                r@ + self.typed@ == old(self).typed@,
                self.buf@ == old(self).buf@,
                self.key_down@ == old(self).key_down@,
                self.text_out@ == old(self).text_out@,
                self.mode == old(self).mode,
            ensures
                r@ == old(self).typed@,
                self.typed@.len() == 0,
                self.wf(),
                self.buf@ == old(self).buf@,
                self.key_down@ == old(self).key_down@,
                self.text_out@ == old(self).text_out@,
                self.mode == old(self).mode,
            decreases self.typed@.len(),
        {
            match self.typed.pop_front() {
                Some(b) => {
                    r.push(b);
                    proof {
                        assert(r@ + self.typed@ =~= old(self).typed@);
                    }
                },
                None => {
                    proof {
                        assert(r@ =~= r@ + self.typed@);
                    }
                    break ;
                },
            }
        }
        r
    }

    /// Append bytes to the text console surface.
    pub fn console_write(&mut self, data: &[u8])
        requires
            old(self).wf(),
        ensures
            final(self).wf(),
            final(self).text_out@ == old(self).text_out@ + data@,
            final(self).buf@ == old(self).buf@,
            final(self).key_down@ == old(self).key_down@,
            final(self).typed@ == old(self).typed@,
            final(self).mode == old(self).mode,
    {
        let mut i: usize = 0;
        while i < data.len()
            invariant
                self.wf(),
                i <= data@.len(),
                self.text_out@ == old(self).text_out@ + data@.take(i as int),
                self.buf@ == old(self).buf@,
                self.key_down@ == old(self).key_down@,
                self.typed@ == old(self).typed@,
                self.mode == old(self).mode,
            decreases data@.len() - i,
        {
            self.text_out.push(data[i]);
            proof {
                assert(old(self).text_out@ + data@.take(i as int) + seq![data@[i as int]]
                    =~= old(self).text_out@ + data@.take(i as int + 1));
            }
            i = i + 1;
        }
        proof {
            assert(data@.take(data@.len() as int) =~= data@);
        }
    }

    /// Remove the last byte of the text console surface, if any.
    pub fn console_backspace(&mut self)
        requires
            old(self).wf(),
        ensures
            final(self).wf(),
            final(self).text_out@ == (if old(self).text_out@.len() == 0 {
                old(self).text_out@
            } else {
                old(self).text_out@.drop_last()
            }),
            final(self).buf@ == old(self).buf@,
            final(self).key_down@ == old(self).key_down@,
            final(self).typed@ == old(self).typed@,
            final(self).mode == old(self).mode,
    {
        if self.text_out.len() > 0 {
            self.text_out.pop();
        }
    }

    pub fn set_mode(&mut self, mode: DisplayMode)
        requires
            old(self).wf(),
        ensures
            final(self).wf(),
            final(self).mode == mode,
            final(self).buf@ == old(self).buf@,
            final(self).key_down@ == old(self).key_down@,
            final(self).typed@ == old(self).typed@,
            final(self).text_out@ == old(self).text_out@,
    {
        self.mode = mode;
    }

    pub fn mode(&self) -> (r: DisplayMode)
        ensures
            r == self.mode,
    {
        self.mode
    }
}

} // verus!
