//! The frame: a grid of cells, column by column, each cell the text that is
//! printed at that place of the terminal.

use vstd::prelude::*;
use crate::{COLUMS, ROWS};

verus! {

broadcast use vstd::string::group_string_axioms;

/// Columns of cells; `frame[x][y]` is printed at column `x`, row `y`.
pub type Frame = Vec<Vec<String>>;

/// The text of a blank cell.
pub open spec fn blank_cell() -> Seq<char> {
    "\x1b[1;39;40m "@
}

/// The text of the cell at column `c`, row `r`.
pub open spec fn cell(frame: Frame, c: int, r: int) -> Seq<char> {
    frame@[c]@[r]@
}

/// Column `c`, row `r` is a cell of the frame.
pub open spec fn in_bounds(frame: Frame, c: int, r: int) -> bool {
    0 <= c < frame@.len() && 0 <= r < frame@[c]@.len()
}

/// `after` has the shape of `before`, the cells named by `writes` hold what
/// `writes` gives them and every other cell is unchanged.
pub open spec fn frame_applied(before: Frame, after: Frame, writes: Map<(int, int), Seq<char>>) -> bool {
    &&& after@.len() == before@.len()
    &&& forall|c: int| 0 <= c < before@.len() ==> (#[trigger] after@[c])@.len() == before@[c]@.len()
    &&& forall|c: int, r: int|
        #![trigger cell(after, c, r)]
        in_bounds(before, c, r) ==> cell(after, c, r) == if writes.contains_key((c, r)) {
            writes[(c, r)]
        } else {
            cell(before, c, r)
        }
}

/// Applying writes one after the other is applying their union, the later
/// ones winning.
pub proof fn lemma_frame_applied_compose(
    a: Frame,
    b: Frame,
    c: Frame,
    w1: Map<(int, int), Seq<char>>,
    w2: Map<(int, int), Seq<char>>,
)
    requires
        frame_applied(a, b, w1),
        frame_applied(b, c, w2),
    ensures
        frame_applied(a, c, w1.union_prefer_right(w2)),
{
    assert forall|x: int| 0 <= x < a@.len() implies (#[trigger] c@[x])@.len() == a@[x]@.len() by {
        assert(b@[x]@.len() == a@[x]@.len());
    }
    assert forall|x: int, y: int| #![trigger cell(c, x, y)] in_bounds(a, x, y) implies cell(c, x, y)
        == if w1.union_prefer_right(w2).contains_key((x, y)) {
        w1.union_prefer_right(w2)[(x, y)]
    } else {
        cell(a, x, y)
    } by {
        assert(b@[x]@.len() == a@[x]@.len());
        assert(in_bounds(b, x, y));
        assert(cell(b, x, y) == if w1.contains_key((x, y)) { w1[(x, y)] } else { cell(a, x, y) });
    }
}

/// Writing `text` into the cell at column `c`, row `r`.
pub fn set_cell(frame: &mut Frame, c: usize, r: usize, text: String)
    requires
        in_bounds(*old(frame), c as int, r as int),
    ensures
        frame_applied(*old(frame), *final(frame), map![(c as int, r as int) => text@]),
{
    frame[c][r] = text;
    proof {
        let w = map![(c as int, r as int) => text@];
        assert forall|x: int, y: int| #![trigger cell(*final(frame), x, y)] in_bounds(*old(frame), x, y)
            implies cell(*final(frame), x, y) == if w.contains_key((x, y)) {
            w[(x, y)]
        } else {
            cell(*old(frame), x, y)
        } by {
            if x == c {
                assert(frame@[x]@ == old(frame)@[x]@.update(r as int, text));
            }
        }
    }
}

/// The writes that paint `text` on every pixel of `pixels`, each five
/// columns to the right of its own column.
pub open spec fn pixel_writes(pixels: Seq<(u8, u8)>, text: Seq<char>) -> Map<(int, int), Seq<char>>
    decreases pixels.len(),
{
    if pixels.len() == 0 {
        Map::empty()
    } else {
        pixel_writes(pixels.drop_last(), text).insert(
            (pixels.last().0 + 5, pixels.last().1 as int),
            text,
        )
    }
}

/// Every pixel, moved five columns to the right, is a cell of the frame.
pub open spec fn pixels_fit(frame: Frame, pixels: Seq<(u8, u8)>) -> bool {
    forall|k: int|
        0 <= k < pixels.len() ==> (#[trigger] pixels[k]).0 <= 250 && in_bounds(
            frame,
            pixels[k].0 + 5,
            pixels[k].1 as int,
        )
}

/// Whether every pixel, moved five columns to the right, is a cell of the
/// frame.
pub(crate) fn pixels_fit_on(frame: &Frame, pixels: &Vec<(u8, u8)>) -> (res: bool)
    ensures
        res == pixels_fit(*frame, pixels@),
{
    let n = pixels.len();
    for k in 0..n
        invariant
            n == pixels@.len(),
            forall|j: int|
                0 <= j < k ==> (#[trigger] pixels@[j]).0 <= 250 && in_bounds(
                    *frame,
                    pixels@[j].0 + 5,
                    pixels@[j].1 as int,
                ),
    {
        let pixel = pixels[k];
        if pixel.0 > 250 {
            return false;
        }
        let c = (pixel.0 + 5) as usize;
        if c >= frame.len() || pixel.1 as usize >= frame[c].len() {
            return false;
        }
    }
    true
}

/// Paints `text` on every pixel, five columns to the right.
pub(crate) fn paint_pixels(frame: &mut Frame, pixels: &Vec<(u8, u8)>, text: &str)
    requires
        pixels_fit(*old(frame), pixels@),
    ensures
        frame_applied(*old(frame), *final(frame), pixel_writes(pixels@, text@)),
{
    let ghost f0 = *frame;
    let n = pixels.len();
    assert(frame_applied(f0, *frame, Map::<(int, int), Seq<char>>::empty()));
    assert(pixels@.take(0) =~= Seq::<(u8, u8)>::empty());
    for k in 0..n
        invariant
            n == pixels@.len(),
            pixels_fit(f0, pixels@),
            frame_applied(f0, *frame, pixel_writes(pixels@.take(k as int), text@)),
    {
        let pixel = pixels[k];
        assert(pixels@[k as int] == pixel);
        let p = pixel.0 + 5;
        let ghost fb = *frame;
        let ghost w = pixel_writes(pixels@.take(k as int), text@);
        proof {
            assert forall|c: int, r: int| #[trigger] in_bounds(fb, c, r) == in_bounds(f0, c, r) by {
                if 0 <= c < f0@.len() {
                    assert(fb@[c]@.len() == f0@[c]@.len());
                }
            }
        }
        set_cell(frame, p as usize, pixel.1 as usize, text.to_string());
        proof {
            let t = map![(p as int, pixel.1 as int) => text@];
            lemma_frame_applied_compose(f0, fb, *frame, w, t);
            assert(pixels@.take(k + 1).drop_last() =~= pixels@.take(k as int));
            assert(w.union_prefer_right(t) =~= pixel_writes(pixels@.take(k + 1), text@));
        }
    }
    assert(pixels@.take(n as int) =~= pixels@);
}

/// Columns `0..=COLUMS`; each has `ROWS + 1` blank cells where no row is
/// given, else `y` blank cells, and the first column one more.
pub fn new_frame(rows_were_start_strigs: Option<u8>) -> (res: Frame)
    requires
        rows_were_start_strigs matches Some(y) ==> y >= 1,
    ensures
        res@.len() == COLUMS + 1,
        forall|c: int|
            0 <= c <= COLUMS ==> (#[trigger] res@[c])@.len() == match rows_were_start_strigs {
                None => ROWS + 1,
                Some(y) => if c == 0 { y + 1 } else { y as int },
            },
        forall|c: int, r: int| #![trigger cell(res, c, r)] in_bounds(res, c, r) ==> cell(res, c, r) == blank_cell(),
{
    let mut cols: Vec<Vec<String>> = Vec::with_capacity(COLUMS as usize);
    let rows: u8 = match rows_were_start_strigs {
        None => ROWS,
        Some(y) => y - 1,
    };
    let mut x: u8 = 0;
    while x <= COLUMS
        invariant
            x <= COLUMS + 1,
            cols@.len() == x,
            forall|c: int| 0 <= c < x ==> (#[trigger] cols@[c])@.len() == rows + 1,
            forall|c: int, r: int| #![trigger cell(cols, c, r)] in_bounds(cols, c, r) ==> cell(cols, c, r) == blank_cell(),
        decreases COLUMS + 1 - x,
    {
        let mut col: Vec<String> = Vec::with_capacity(ROWS as usize);
        let mut y: u16 = 0;
        while y <= rows as u16
            invariant
                y <= rows as u16 + 1,
                col@.len() == y,
                forall|r: int| 0 <= r < y ==> (#[trigger] col@[r])@ == blank_cell(),
            decreases rows as u16 + 1 - y,
        {
            col.push("\x1b[1;39;40m ".to_string());
            y = y + 1;
        }
        let ghost before = cols;
        let ghost col_v = col;
        cols.push(col);
        proof {
            assert forall|c: int, r: int| #![trigger cell(cols, c, r)] in_bounds(cols, c, r) implies cell(cols, c, r) == blank_cell() by {
                if c < x {
                    assert(cols@[c] == before@[c]);
                    assert(in_bounds(before, c, r));
                    assert(cell(before, c, r) == blank_cell());
                } else {
                    assert(cols@[c] == col_v);
                    assert(col_v@[r]@ == blank_cell());
                }
            }
        }
        x = x + 1;
    }
    match rows_were_start_strigs {
        None => {
            return cols;
        },
        Some(_x) => {
            let ghost before = cols;
            cols[0].push("\x1b[1;39;40m ".to_string());
            proof {
                assert forall|c: int, r: int| #![trigger cell(cols, c, r)] in_bounds(cols, c, r) implies cell(cols, c, r) == blank_cell() by {
                    if c != 0 {
                        assert(cols@[c] == before@[c]);
                        assert(in_bounds(before, c, r));
                        assert(cell(before, c, r) == blank_cell());
                    } else if r < before@[0]@.len() {
                        assert(in_bounds(before, 0, r));
                        assert(cols@[0]@[r] == before@[0]@[r]);
                        assert(cell(before, 0, r) == blank_cell());
                    } else {
                        assert(cols@[0]@[r]@ == "\x1b[1;39;40m "@);
                    }
                }
            }
            return cols;
        },
    };
}

/// A picture that paints itself on a frame.
pub trait Draw {
    /// The frame has every cell that the picture paints.
    spec fn fits(&self, frame: Frame) -> bool;

    /// `after` is `before` with the picture painted on it.
    spec fn painted(&self, before: Frame, after: Frame) -> bool;

    /// Whether the frame has every cell that the picture paints.
    fn fits_on(&self, frame: &Frame) -> (res: bool)
        ensures
            res == self.fits(*frame),
    ;

    fn draw(&self, frame: &mut Frame)
        requires
            self.fits(*old(frame)),
        ensures
            self.painted(*old(frame), *final(frame)),
    ;
}

} // verus!
