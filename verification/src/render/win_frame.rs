//! The picture shown when every clue was guessed: the word WIN!!! drawn in
//! green blocks.

use vstd::prelude::*;
use crate::render::frame::{Draw, Frame, frame_applied, paint_pixels, pixel_writes, pixels_fit, pixels_fit_on};

verus! {

/// The pixels of the win picture, as (column, row).
pub open spec fn win_pixels() -> Seq<(u8, u8)> {
    seq![
        (1, 8), (1, 9), (1, 10), (1, 11), (1, 12), (2, 12), (3, 12), (3, 11), (3, 10),
        (4, 12), (5, 12), (5, 11), (5, 10), (5, 9), (5, 8),
        (7, 12), (7, 8), (8, 8), (8, 9), (8, 10), (8, 11), (8, 12), (9, 12), (9, 8),
        (11, 8), (11, 9), (11, 10), (11, 11), (11, 12), (12, 8), (13, 8), (14, 8), (14, 9), (14, 10),
        (14, 11), (14, 12), (16, 8), (16, 9), (16, 10), (16, 12), (18, 8), (18, 9), (18, 10), (18, 12),
        (20, 8), (20, 9), (20, 10), (20, 12),
    ]
}

/// A green block.
pub open spec fn green_block() -> Seq<char> {
    "\x1b[1;92m\u{2588}"@
}

/// The win picture.
pub struct Win {
    positions_of_pixels: Vec<(u8, u8)>,
}

impl Win {
    #[verifier::type_invariant]
    spec fn inv(&self) -> bool {
        self.positions_of_pixels@ == win_pixels()
    }

    /// The picture's pixels.
    pub closed spec fn pixels(&self) -> Seq<(u8, u8)> {
        self.positions_of_pixels@
    }

    pub fn new() -> (res: Self)
        ensures
            res.pixels() == win_pixels(),
    {
        let positions_of_pixels = vec![
            (1, 8), (1, 9), (1, 10), (1, 11), (1, 12), (2, 12), (3, 12), (3, 11), (3, 10),
            (4, 12), (5, 12), (5, 11), (5, 10), (5, 9), (5, 8),
            (7, 12), (7, 8), (8, 8), (8, 9), (8, 10), (8, 11), (8, 12), (9, 12), (9, 8),
            (11, 8), (11, 9), (11, 10), (11, 11), (11, 12), (12, 8), (13, 8), (14, 8), (14, 9), (14, 10),
            (14, 11), (14, 12), (16, 8), (16, 9), (16, 10), (16, 12), (18, 8), (18, 9), (18, 10), (18, 12),
            (20, 8), (20, 9), (20, 10), (20, 12),
        ];
        assert(positions_of_pixels@ =~= win_pixels());
        Self { positions_of_pixels }
    }
}

impl Draw for Win {
    open spec fn fits(&self, frame: Frame) -> bool {
        pixels_fit(frame, win_pixels())
    }

    open spec fn painted(&self, before: Frame, after: Frame) -> bool {
        frame_applied(before, after, pixel_writes(win_pixels(), green_block()))
    }

    fn fits_on(&self, frame: &Frame) -> (res: bool) {
        proof {
            use_type_invariant(self);
        }
        pixels_fit_on(frame, &self.positions_of_pixels)
    }

    fn draw(&self, frame: &mut Frame) {
        proof {
            use_type_invariant(self);
        }
        paint_pixels(frame, &self.positions_of_pixels, "\x1b[1;92m\u{2588}");
    }
}

} // verus!
