//! Character-cell frames for rendering a finished solution path.

use vstd::prelude::*;

verus! {

/// One character cell: a glyph with its foreground and background color.
#[derive(Debug, Clone, Copy, PartialEq)]
pub struct Texel {
    pub ch: char,
    pub fg: [u8; 3],
    pub bg: [u8; 3],
}

/// Decimal digits of a number, most significant first.
pub open spec fn dec_digits(v: int) -> Seq<char>
    decreases v,
{
    if v < 10 {
        seq![((48 + v) as u8) as char]
    } else {
        dec_digits(v / 10).push(((48 + v % 10) as u8) as char)
    }
}

/// Decimal rendering of a number.
pub fn digits_of(value: u32) -> (r: Vec<char>)
    ensures
        r@ == dec_digits(value as int),
        1 <= r@.len(),
    decreases value,
{
    if value < 10 {
        let mut r: Vec<char> = Vec::new();
        r.push((48 + value as u8) as char);
        proof {
            assert(r@ =~= dec_digits(value as int));
        }
        r
    } else {
        let mut r = digits_of(value / 10);
        r.push((48 + (value % 10) as u8) as char);
        proof {
            assert(dec_digits(value as int) == dec_digits(value as int / 10).push(
                ((48 + value as int % 10) as u8) as char,
            ));
        }
        r
    }
}

/// The texels of a number drawn right-aligned so that its last digit sits
/// just left of cell `base`: the cell at `idx` holds the digit the
/// alignment selects.
pub open spec fn num_cell(ds: Seq<char>, base: int, idx: int, fg: [u8; 3], bg: [u8; 3]) -> Texel {
    Texel { ch: ds[idx - (base - ds.len())], fg, bg }
}

/// One frame of cells in row-major order, sized for the animation: the
/// piles drawn with `pile_width` columns each, one separator column, four
/// rows.
pub struct Frame {
    pub data: Vec<Texel>,
    pub width: u32,
    pub pile_width: u32,
}

impl Frame {
    /// Paint one cell.
    pub fn draw(&mut self, x: u32, y: u32, ch: char, fg: [u8; 3], bg: [u8; 3])
        requires
            (y as int) * (old(self).width as int) + (x as int) < old(self).data@.len(),
            old(self).data@.len() <= u32::MAX,
        ensures
            final(self).data@.len() == old(self).data@.len(),
            final(self).data@[(y as int) * (old(self).width as int) + (x as int)] == (Texel {
                ch,
                fg,
                bg,
            }),
            forall|idx: int|
                0 <= idx < old(self).data@.len() && idx != (y as int) * (old(self).width as int)
                    + (x as int) ==> (#[trigger] final(self).data@[idx]) == old(self).data@[idx],
            final(self).width == old(self).width,
            final(self).pile_width == old(self).pile_width,
    {
        let idx = y * self.width + x;
        let ghost d0 = self.data@;
        let ghost ii = idx as int;
        self.data[idx as usize] = Texel { ch, fg, bg };
        proof {
            assert(self.data@ == d0.update(ii, (Texel { ch, fg, bg })));
            assert(d0.update(ii, (Texel { ch, fg, bg })).len() == d0.len());
            assert(d0.update(ii, (Texel { ch, fg, bg }))[ii] == (Texel { ch, fg, bg }));
            assert forall|q: int| 0 <= q < d0.len() && q != ii implies self.data@[q] == d0[q] by {
                assert(d0.update(ii, (Texel { ch, fg, bg }))[q] == d0[q]);
            }
        }
    }

    /// Paint a number right-aligned so that its last digit sits just left
    /// of column `x`.
    #[verifier::loop_isolation(false)]
    pub fn draw_num(&mut self, x: u32, y: u32, value: u32, fg: [u8; 3], bg: [u8; 3])
        requires
            dec_digits(value as int).len() <= x,
            (y as int) * (old(self).width as int) + (x as int) <= old(self).data@.len(),
            old(self).data@.len() <= u32::MAX,
        ensures
            final(self).data@.len() == old(self).data@.len(),
            final(self).width == old(self).width,
            final(self).pile_width == old(self).pile_width,
            ({
                let ds = dec_digits(value as int);
                let base = (y as int) * (old(self).width as int) + (x as int);
                &&& forall|idx: int|
                    base - ds.len() <= idx < base ==> (#[trigger] final(self).data@[idx])
                        == num_cell(ds, base, idx, fg, bg)
                &&& forall|idx: int|
                    0 <= idx < old(self).data@.len() && !(base - ds.len() <= idx < base) ==> (
                    #[trigger] final(self).data@[idx]) == old(self).data@[idx]
            }),
    {
        let ds = digits_of(value);
        let ghost data0 = self.data@;
        let ghost base = (y as int) * (self.width as int) + (x as int);
        let mut i: usize = 0;
        while i < ds.len()
            invariant
                i <= ds@.len(),
                ds@ == dec_digits(value as int),
                1 <= ds@.len() <= x,
                (y as int) * (old(self).width as int) + (x as int) <= data0.len(),
                data0.len() <= u32::MAX,
                self.width == old(self).width,
                self.pile_width == old(self).pile_width,
                self.data@.len() == data0.len(),
                data0 == old(self).data@,
                base == (y as int) * (old(self).width as int) + (x as int),
                forall|idx: int|
                    base - i <= idx < base ==> (#[trigger] self.data@[idx]) == num_cell(
                        ds@,
                        base,
                        idx,
                        fg,
                        bg,
                    ),
                forall|idx: int|
                    0 <= idx < data0.len() && !(base - i <= idx < base) ==> (
                    #[trigger] self.data@[idx]) == data0[idx],
            decreases ds@.len() - i,
        {
            // Align right: the i-th drawn digit is the i-th from the end.
            let ch = ds[ds.len() - 1 - i];
            let xx = x - (i as u32) - 1;
            let ghost dprev = self.data@;
            self.draw(xx, y, ch, fg, bg);
            proof {
                assert(xx as int == x as int - i - 1);
                assert((y as int) * (old(self).width as int) + (xx as int) == base - 1 - i);
                assert(self.data@[base - 1 - i] == (Texel { ch, fg, bg }));
            }
            i = i + 1;
        }
    }

    /// Paint one ground pile: a row of backticks with its amount below,
    /// grey when the pile is exhausted.
    #[verifier::loop_isolation(false)]
    pub fn draw_pile(&mut self, index: u32, bananas: u32)
        requires
            old(self).data@.len() == 4 * old(self).width as int,
            old(self).data@.len() <= u32::MAX,
            (index as int) * (old(self).pile_width as int + 1) + old(self).pile_width
                < old(self).width as int,
            dec_digits(bananas as int).len() <= (index as int) * (old(self).pile_width as int + 1)
                + old(self).pile_width,
        ensures
            final(self).data@.len() == old(self).data@.len(),
            final(self).width == old(self).width,
            final(self).pile_width == old(self).pile_width,
            ({
                let x0 = (index as int) * (old(self).pile_width as int + 1);
                let pw = old(self).pile_width as int;
                let wd = old(self).width as int;
                let ds = dec_digits(bananas as int);
                let fg = if bananas > 0 {
                    [0xffu8, 0xffu8, 0xffu8]
                } else {
                    [0x7fu8, 0x7fu8, 0x7fu8]
                };
                let base = 3 * wd + x0 + pw;
                &&& forall|idx: int|
                    2 * wd + x0 <= idx < 2 * wd + x0 + pw ==> (#[trigger] final(self).data@[idx])
                        == (Texel { ch: '`', fg: [0xffu8, 0xffu8, 0xffu8], bg: [0u8, 0u8, 0u8] })
                &&& forall|idx: int|
                    base - ds.len() <= idx < base ==> (#[trigger] final(self).data@[idx])
                        == num_cell(ds, base, idx, fg, [0u8, 0u8, 0u8])
                &&& forall|idx: int|
                    0 <= idx < old(self).data@.len() && !(2 * wd + x0 <= idx < 2 * wd + x0 + pw)
                        && !(base - ds.len() <= idx < base) ==> (#[trigger] final(self).data@[idx])
                        == old(self).data@[idx]
            }),
    {
        let x_0 = index * (self.pile_width + 1);
        let y_0: u32 = 2;
        let ghost data0 = self.data@;
        let ghost x0 = (index as int) * (old(self).pile_width as int + 1);
        let ghost pw = old(self).pile_width as int;
        let ghost wd = old(self).width as int;
        let mut i: u32 = 0;
        while i < self.pile_width
            invariant
                i <= pw,
                self.width == old(self).width,
                self.pile_width == old(self).pile_width,
                self.data@.len() == data0.len(),
                data0 == old(self).data@,
                data0.len() == 4 * wd,
                data0.len() <= u32::MAX,
                x0 + pw < wd,
                x_0 == x0,
                forall|idx: int|
                    2 * wd + x0 <= idx < 2 * wd + x0 + i ==> (#[trigger] self.data@[idx]) == (
                    Texel { ch: '`', fg: [0xffu8, 0xffu8, 0xffu8], bg: [0u8, 0u8, 0u8] }),
                forall|idx: int|
                    0 <= idx < data0.len() && !(2 * wd + x0 <= idx < 2 * wd + x0 + i) ==> (
                    #[trigger] self.data@[idx]) == data0[idx],
            decreases pw - i,
        {
            self.draw(x_0 + i, y_0, '`', [0xff, 0xff, 0xff], [0, 0, 0]);
            proof {
                assert((2 as int) * (old(self).width as int) + ((x_0 + i) as int) == 2 * wd + x0
                    + i);
                assert(self.data@[2 * wd + x0 + i] == (Texel {
                    ch: '`',
                    fg: [0xffu8, 0xffu8, 0xffu8],
                    bg: [0u8, 0u8, 0u8],
                }));
            }
            i = i + 1;
        }
        let fg = if bananas > 0 {
            [0xff, 0xff, 0xff]
        } else {
            [0x7f, 0x7f, 0x7f]
        };
        self.draw_num(x_0 + self.pile_width, y_0 + 1, bananas, fg, [0, 0, 0]);
    }

    /// Paint the agent: the carried amount above its marker.
    pub fn draw_cammy(&mut self, index: u32, held: u32)
        requires
            old(self).data@.len() == 4 * old(self).width as int,
            old(self).data@.len() <= u32::MAX,
            (index as int) * (old(self).pile_width as int + 1) + old(self).pile_width
                < old(self).width as int,
            dec_digits(held as int).len() <= (index as int) * (old(self).pile_width as int + 1)
                + old(self).pile_width,
        ensures
            final(self).data@.len() == old(self).data@.len(),
            final(self).width == old(self).width,
            final(self).pile_width == old(self).pile_width,
            ({
                let x0 = (index as int) * (old(self).pile_width as int + 1);
                let pw = old(self).pile_width as int;
                let wd = old(self).width as int;
                let ds = dec_digits(held as int);
                let base = x0 + pw;
                let marker = wd + x0 + pw / 2;
                &&& final(self).data@[marker] == (Texel {
                    ch: 'C',
                    fg: [0xffu8, 0xa5u8, 0u8],
                    bg: [0u8, 0u8, 0u8],
                })
                &&& forall|idx: int|
                    base - ds.len() <= idx < base ==> (#[trigger] final(self).data@[idx])
                        == num_cell(ds, base, idx, [0xffu8, 0xffu8, 0xffu8], [0u8, 0u8, 0u8])
                &&& forall|idx: int|
                    0 <= idx < old(self).data@.len() && idx != marker && !(base - ds.len() <= idx
                        < base) ==> (#[trigger] final(self).data@[idx]) == old(self).data@[idx]
            }),
    {
        let x_0 = index * (self.pile_width + 1);
        let y_0: u32 = 0;
        self.draw_num(x_0 + self.pile_width, y_0, held, [0xff, 0xff, 0xff], [0, 0, 0]);
        let ghost marker = old(self).width as int + (index as int) * (old(self).pile_width as int
            + 1) + old(self).pile_width as int / 2;
        self.draw(x_0 + self.pile_width / 2, y_0 + 1, 'C', [0xff, 0xa5, 0x00], [0, 0, 0]);
        proof {
            assert((1 as int) * (old(self).width as int) + ((x_0 + self.pile_width / 2) as int)
                == marker);
            assert(self.data@[marker] == (Texel {
                ch: 'C',
                fg: [0xffu8, 0xa5u8, 0u8],
                bg: [0u8, 0u8, 0u8],
            }));
        }
    }
}

} // verus!
