//! The welcome picture: the word CROSSWORD drawn in red blocks, and spelled
//! out under it.

use vstd::prelude::*;
use vstd::string::*;
use crate::render::frame::{
    Draw, Frame, frame_applied, in_bounds, lemma_frame_applied_compose, paint_pixels, pixel_writes,
    pixels_fit, pixels_fit_on, set_cell,
};
use crate::text::{all_ascii, lemma_ascii_byte_len};
use crate::COLUMS;

verus! {

broadcast use vstd::string::group_string_axioms;

/// The pixels of the welcome picture, as (column, row).
pub open spec fn welcome_pixels() -> Seq<(u8, u8)> {
    seq![
        (1, 8), (1, 9), (1, 10), (1, 11), (1, 12), (2, 8), (2, 10), (3, 8), (3, 9), (3, 11), (3, 12),
        (5, 8), (5, 9), (5, 10), (5, 11), (5, 12), (6, 12), (7, 8), (7, 9), (7, 10), (7, 11), (7, 12),
        (9, 8), (9, 9), (9, 10), (9, 12), (10, 8), (10, 10), (10, 12), (11, 8), (11, 10), (11, 11), (11, 12),
        (13, 8), (14, 8), (14, 9), (14, 10), (14, 11), (14, 12), (15, 8),
        (17, 8), (17, 9), (17, 10), (18, 10), (18, 11), (18, 12), (19, 8), (19, 9), (19, 10),
    ]
}

/// A red block.
pub open spec fn red_block() -> Seq<char> {
    "\x1b[1;91m\u{2588}"@
}

/// The line under the picture: the word centred on the frame's width.
pub open spec fn welcome_line() -> Seq<char> {
    Seq::new(10, |i: int| ' ') + "CROSSWORD"@
}

/// The welcome picture.
pub struct Welcome {
    positions_of_pixels: Vec<(u8, u8)>,
    inscription: String,
}

impl Welcome {
    #[verifier::type_invariant]
    spec fn inv(&self) -> bool {
        &&& self.positions_of_pixels@ == welcome_pixels()
        &&& self.inscription@ == "CROSSWORD"@
    }

    /// The picture's pixels.
    pub closed spec fn pixels(&self) -> Seq<(u8, u8)> {
        self.positions_of_pixels@
    }

    /// The word under the picture.
    pub closed spec fn inscription(&self) -> Seq<char> {
        self.inscription@
    }

    pub fn new() -> (res: Self)
        ensures
            res.pixels() == welcome_pixels(),
            res.inscription() == "CROSSWORD"@,
    {
        let positions_of_pixels = vec![
            (1, 8), (1, 9), (1, 10), (1, 11), (1, 12), (2, 8), (2, 10), (3, 8), (3, 9), (3, 11), (3, 12),
            (5, 8), (5, 9), (5, 10), (5, 11), (5, 12), (6, 12), (7, 8), (7, 9), (7, 10), (7, 11), (7, 12),
            (9, 8), (9, 9), (9, 10), (9, 12), (10, 8), (10, 10), (10, 12), (11, 8), (11, 10), (11, 11), (11, 12),
            (13, 8), (14, 8), (14, 9), (14, 10), (14, 11), (14, 12), (15, 8),
            (17, 8), (17, 9), (17, 10), (18, 10), (18, 11), (18, 12), (19, 8), (19, 9), (19, 10),
        ];
        assert(positions_of_pixels@ =~= welcome_pixels());
        Self { positions_of_pixels, inscription: "CROSSWORD".to_string() }
    }
}

impl Draw for Welcome {
    open spec fn fits(&self, frame: Frame) -> bool {
        pixels_fit(frame, welcome_pixels()) && in_bounds(frame, 0, 15)
    }

    open spec fn painted(&self, before: Frame, after: Frame) -> bool {
        frame_applied(before, after, pixel_writes(welcome_pixels(), red_block()).insert((0, 15), welcome_line()))
    }

    fn fits_on(&self, frame: &Frame) -> (res: bool) {
        proof {
            use_type_invariant(self);
        }
        pixels_fit_on(frame, &self.positions_of_pixels) && frame.len() > 0 && 15 < frame[0].len()
    }

    fn draw(&self, frame: &mut Frame) {
        proof {
            use_type_invariant(self);
            reveal_strlit("CROSSWORD");
            assert(all_ascii(self.inscription@));
            lemma_ascii_byte_len(self.inscription@);
        }
        let position = ((COLUMS - self.inscription.as_str().len() as u8) / 2) as u8;
        let ghost f0 = *frame;
        paint_pixels(frame, &self.positions_of_pixels, "\x1b[1;91m\u{2588}");
        let ghost f1 = *frame;
        let mut spaces = String::new();
        for j in 0..position
            invariant
                spaces@ == Seq::new(j as nat, |i: int| ' '),
        {
            spaces.append(" ");
            proof {
                reveal_strlit(" ");
            }
            assert(spaces@ =~= Seq::new((j + 1) as nat, |i: int| ' '));
        }
        let v = self.inscription.clone();
        spaces.append(v.as_str());
        proof {
            assert(position == 10);
            assert(spaces@ =~= welcome_line());
            assert forall|c: int, r: int| #[trigger] in_bounds(f1, c, r) == in_bounds(f0, c, r) by {
                if 0 <= c < f0@.len() {
                    assert(f1@[c]@.len() == f0@[c]@.len());
                }
            }
        }
        let ghost text = spaces@;
        set_cell(frame, 0, 15, spaces);
        proof {
            let w = pixel_writes(welcome_pixels(), red_block());
            let t = map![(0int, 15int) => text];
            lemma_frame_applied_compose(f0, f1, *frame, w, t);
            assert(w.union_prefer_right(t) =~= w.insert((0, 15), welcome_line()));
        }
    }
}

} // verus!
