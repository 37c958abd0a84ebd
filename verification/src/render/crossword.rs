//! The crossword: its keywords, where they stand on the board, what the
//! player typed and which clues were guessed.

use std::collections::HashSet;
use vstd::prelude::*;
use vstd::string::*;
use vstd::utf8::{encode_scalar, encode_utf8};
use crate::sqllite_conection::Question;
use crate::text::{
    all_ascii, lemma_ascii_byte_len, byte_len, str_len, char_to_string, to_uppercase, uppercase, byte_offset_of, find_char, first_index_of, fits_i8, lemma_chars_le_bytes,
    lemma_byte_len_concat, lemma_scalar_len, lemma_first_index_of, lemma_i32_as_i8, lemma_prefix_bytes_lt, lemma_u8_as_i8,
    lemma_usize_as_i8, random_in_range, wrap_i8, decimal, u64_to_string,
};
use crate::render::frame::{Frame, frame_applied, in_bounds, lemma_frame_applied_compose, set_cell};
use crate::{COLUMS, ROWS, WINDOW_SIZE_X};

verus! {

broadcast use {vstd::std_specs::hash::group_hash_axioms, vstd::string::group_string_axioms};

/// The direction in which a keyword is written: left to right, or top to
/// bottom.
#[derive(Debug, Clone, Copy, PartialEq, Eq)]
pub enum Orientation {
    Horizontally,
    Perpendicularly,
}

/// A clue placed on the board: its first cell, its length in bytes, its
/// direction and what the player has typed for it.
#[derive(Debug)]
pub struct CrosswordKeyword {
    pub question: Question,
    pub coord_start_x: u8,
    pub coord_start_y: u8,
    pub len_of_keyword: u8,
    pub orientation: Orientation,
    pub user_input: Option<String>,
}

impl Clone for CrosswordKeyword {
    fn clone(&self) -> (res: Self)
        ensures
            res == *self,
    {
        let user_input = match &self.user_input {
            Some(s) => Some(s.clone()),
            None => None,
        };
        CrosswordKeyword {
            question: self.question.clone(),
            coord_start_x: self.coord_start_x,
            coord_start_y: self.coord_start_y,
            len_of_keyword: self.len_of_keyword,
            orientation: self.orientation,
            user_input,
        }
    }
}

/// The crossword being played: its keywords, the numbers of the clues that
/// were guessed, the last answer given to the player and the two lines of
/// instructions (each with its count of non-printing bytes).
#[derive(Debug)]
pub struct Crossword {
    pub crossword_keywords: Vec<CrosswordKeyword>,
    guessed_clues: HashSet<u8>,
    response_to_user: Option<String>,
    instructions_to_user: Option<((String, u8), (String, u8))>,
}

/// The other direction.
pub open spec fn flip(o: Orientation) -> Orientation {
    match o {
        Orientation::Horizontally => Orientation::Perpendicularly,
        Orientation::Perpendicularly => Orientation::Horizontally,
    }
}

/// The board's area where keywords may stand: columns 4 to `COLUMS - 3`,
/// rows 4 to `ROWS - 20`.
pub open spec fn in_frame(x_min: int, x_max: int, y_min: int, y_max: int) -> bool {
    &&& 4 <= x_min
    &&& 4 <= y_min
    &&& x_max <= COLUMS - 3
    &&& y_max <= ROWS - 20
}

/// The keyword's cells lie in the board's area.
pub open spec fn placed_in_frame(k: CrosswordKeyword) -> bool {
    let x = k.coord_start_x as int;
    let y = k.coord_start_y as int;
    let last = k.len_of_keyword as int - 1;
    match k.orientation {
        Orientation::Horizontally => in_frame(x, x + last, y, y),
        Orientation::Perpendicularly => in_frame(x, x, y, y + last),
    }
}

/// Character `i` of `a`'s answer and character `j` of `b`'s answer exist
/// and are the same.
pub open spec fn letters_match(a: CrosswordKeyword, i: int, b: CrosswordKeyword, j: int) -> bool {
    &&& 0 <= i < a.question.answer@.len()
    &&& 0 <= j < b.question.answer@.len()
    &&& a.question.answer@[i] == b.question.answer@[j]
}

/// A horizontal keyword `h` and a vertical keyword `p` conflict when they
/// touch or cross, unless they cross on a cell where both have the same
/// letter.
pub open spec fn crossing_conflict(h: CrosswordKeyword, p: CrosswordKeyword) -> bool {
    let hx = h.coord_start_x as int;
    let hy = h.coord_start_y as int;
    let hl = h.len_of_keyword as int;
    let px = p.coord_start_x as int;
    let py = p.coord_start_y as int;
    let pl = p.len_of_keyword as int;
    &&& hx <= px + 1
    &&& px <= hx + hl
    &&& py <= hy + 1
    &&& hy <= py + pl
    &&& !(hx <= px && py <= hy && px - hx < hl && hy - py < pl && letters_match(
        h,
        px - hx,
        p,
        hy - py,
    ))
}

/// Two keywords collide when they stand in the same line and overlap or
/// touch end to end, or when they stand across each other and conflict.
pub open spec fn collides(a: CrosswordKeyword, b: CrosswordKeyword) -> bool {
    let ax = a.coord_start_x as int;
    let ay = a.coord_start_y as int;
    let al = a.len_of_keyword as int;
    let bx = b.coord_start_x as int;
    let by = b.coord_start_y as int;
    let bl = b.len_of_keyword as int;
    match (a.orientation, b.orientation) {
        (Orientation::Horizontally, Orientation::Horizontally) => ay == by && ax <= bx + bl && bx
            <= ax + al,
        (Orientation::Perpendicularly, Orientation::Perpendicularly) => ax == bx && ay <= by + bl
            && by <= ay + al,
        (Orientation::Horizontally, Orientation::Perpendicularly) => crossing_conflict(a, b),
        (Orientation::Perpendicularly, Orientation::Horizontally) => crossing_conflict(b, a),
    }
}

/// `k` collides with none of `taken`.
pub open spec fn no_collision(k: CrosswordKeyword, taken: Seq<CrosswordKeyword>) -> bool {
    forall|j: int| 0 <= j < taken.len() ==> !collides(k, #[trigger] taken[j])
}

/// Byte offset, in `q`'s answer, of the first occurrence of character `i`
/// of `cross`'s answer.
pub open spec fn offset_for(q: CrosswordKeyword, cross: CrosswordKeyword, i: int) -> Option<nat> {
    byte_offset_of(q.question.answer@, cross.question.answer@[i])
}

/// The box (first column, last column, first row, last row) that `q` gets
/// when its byte `b` is laid over character `i` of `cross`, in the `i8`
/// numbers that the placement computes with.
pub open spec fn candidate_box(q: CrosswordKeyword, cross: CrosswordKeyword, i: int, b: int) -> (
    int,
    int,
    int,
    int,
) {
    let len = wrap_i8(q.len_of_keyword as int);
    match cross.orientation {
        Orientation::Horizontally => {
            let x = wrap_i8(cross.coord_start_x as int) + wrap_i8(i);
            let y = wrap_i8(cross.coord_start_y as int) - wrap_i8(b);
            (x, x, y, y + len - 1)
        },
        Orientation::Perpendicularly => {
            let x = wrap_i8(cross.coord_start_x as int) - wrap_i8(b);
            let y = wrap_i8(cross.coord_start_y as int) + wrap_i8(i);
            (x, x + len - 1, y, y)
        },
    }
}

/// The `i8` sums of that placement stay in range.
pub open spec fn candidate_arith_ok(q: CrosswordKeyword, cross: CrosswordKeyword, i: int, b: int) -> bool {
    let len = wrap_i8(q.len_of_keyword as int);
    match cross.orientation {
        Orientation::Horizontally => {
            let x = wrap_i8(cross.coord_start_x as int) + wrap_i8(i);
            let y = wrap_i8(cross.coord_start_y as int) - wrap_i8(b);
            fits_i8(x) && fits_i8(y) && fits_i8(y + len) && fits_i8(y + len - 1)
        },
        Orientation::Perpendicularly => {
            let x = wrap_i8(cross.coord_start_x as int) - wrap_i8(b);
            let y = wrap_i8(cross.coord_start_y as int) + wrap_i8(i);
            fits_i8(x) && fits_i8(y) && fits_i8(x + len) && fits_i8(x + len - 1)
        },
    }
}

/// `q` laid across `cross` as `candidate_box` says.
pub open spec fn candidate(q: CrosswordKeyword, cross: CrosswordKeyword, i: int, b: int) -> CrosswordKeyword {
    let bx = candidate_box(q, cross, i, b);
    CrosswordKeyword {
        question: q.question,
        coord_start_x: bx.0 as u8,
        coord_start_y: bx.2 as u8,
        len_of_keyword: q.len_of_keyword,
        orientation: flip(cross.orientation),
        user_input: q.user_input,
    }
}

/// Laying `q` across character `i` of `cross` works: the character occurs
/// in `q`'s answer, the box lies in the board's area and the keyword so
/// placed collides with none of `taken`.
pub open spec fn places_at(
    q: CrosswordKeyword,
    cross: CrosswordKeyword,
    taken: Seq<CrosswordKeyword>,
    i: int,
) -> bool {
    match offset_for(q, cross, i) {
        Some(b) => {
            let bx = candidate_box(q, cross, i, b as int);
            &&& in_frame(bx.0, bx.1, bx.2, bx.3)
            &&& no_collision(candidate(q, cross, i, b as int), taken)
        },
        None => false,
    }
}

/// The placement of `q` across the first character of `cross`, from
/// character `i` on, that works.
pub open spec fn placement_from(
    q: CrosswordKeyword,
    cross: CrosswordKeyword,
    taken: Seq<CrosswordKeyword>,
    i: int,
) -> Option<CrosswordKeyword>
    decreases cross.question.answer@.len() - i,
{
    if i < 0 || i >= cross.question.answer@.len() {
        None
    } else if places_at(q, cross, taken, i) {
        Some(candidate(q, cross, i, offset_for(q, cross, i)->0 as int))
    } else {
        placement_from(q, cross, taken, i + 1)
    }
}

/// Where `q` goes across `cross`: at the first character of `cross` where
/// laying it works, or nowhere.
pub open spec fn placement(q: CrosswordKeyword, cross: CrosswordKeyword, taken: Seq<CrosswordKeyword>) -> Option<
    CrosswordKeyword,
> {
    placement_from(q, cross, taken, 0)
}

/// Trying character `i` of `cross` stays in the range of the numbers used.
pub open spec fn step_ok(q: CrosswordKeyword, cross: CrosswordKeyword, taken: Seq<CrosswordKeyword>, i: int) -> bool {
    &&& (offset_for(q, cross, i) matches Some(b) ==> candidate_arith_ok(q, cross, i, b as int))
    &&& (!places_at(q, cross, taken, i) ==> i + 1 <= i32::MAX)
}

/// Every character of `cross` that the placement tries stays in range.
pub open spec fn placement_defined(q: CrosswordKeyword, cross: CrosswordKeyword, taken: Seq<CrosswordKeyword>) -> bool {
    forall|i: int|
        #![trigger step_ok(q, cross, taken, i)]
        0 <= i < cross.question.answer@.len() && (forall|j: int|
            0 <= j < i ==> !#[trigger] places_at(q, cross, taken, j)) ==> step_ok(q, cross, taken, i)
}

/// The placement of `q` across the first of `taken`, from index `k` on,
/// where it can go.
pub open spec fn first_placement(q: CrosswordKeyword, taken: Seq<CrosswordKeyword>, k: int) -> Option<
    CrosswordKeyword,
>
    decreases taken.len() - k,
{
    if k < 0 || k >= taken.len() {
        None
    } else {
        match placement(q, taken[k], taken) {
            Some(p) => Some(p),
            None => first_placement(q, taken, k + 1),
        }
    }
}

/// Every placement that the search across `taken` tries stays in range.
pub open spec fn first_placement_defined(q: CrosswordKeyword, taken: Seq<CrosswordKeyword>) -> bool {
    forall|k: int|
        #![trigger placement_defined(q, taken[k], taken)]
        0 <= k < taken.len() && (forall|j: int|
            0 <= j < k ==> (#[trigger] placement(q, taken[j], taken)) is None) ==> placement_defined(
            q,
            taken[k],
            taken,
        )
}

/// `q` with its first cell at (`p`, `p`).
pub open spec fn at_start(q: CrosswordKeyword, p: u8) -> CrosswordKeyword {
    CrosswordKeyword { coord_start_x: p, coord_start_y: p, ..q }
}

/// The keyword that a clue becomes before it is placed: horizontal at
/// (1, 1), its length the byte length of the answer, nothing typed.
pub open spec fn new_keyword(q: Question) -> CrosswordKeyword {
    CrosswordKeyword {
        question: q,
        coord_start_x: 1,
        coord_start_y: 1,
        len_of_keyword: byte_len(q.answer@) as u8,
        orientation: Orientation::Horizontally,
        user_input: None,
    }
}

/// The keywords that the clues `qs` give, in order, when the first one
/// starts at (`start`, `start`) and each other one goes across the first
/// keyword already placed where it can go; clues that go nowhere are left
/// out.
pub open spec fn layout(qs: Seq<Question>, start: u8) -> Seq<CrosswordKeyword>
    decreases qs.len(),
{
    if qs.len() == 0 {
        Seq::empty()
    } else {
        let taken = layout(qs.drop_last(), start);
        let kw = new_keyword(qs.last());
        let pos = if qs.len() == 1 {
            Some(at_start(kw, start))
        } else {
            first_placement(kw, taken, 0)
        };
        match pos {
            Some(p) => taken.push(p),
            None => taken,
        }
    }
}

proof fn lemma_first_placement_search(q: CrosswordKeyword, taken: Seq<CrosswordKeyword>, k: int)
    requires
        0 <= k <= taken.len(),
    ensures
        first_placement(q, taken, k) is None <==> forall|j: int|
            k <= j < taken.len() ==> (#[trigger] placement(q, taken[j], taken)) is None,
        first_placement(q, taken, k) matches Some(r) ==> exists|j: int|
            k <= j < taken.len() && placement(q, taken[j], taken) == Some(r) && forall|i: int|
                k <= i < j ==> (#[trigger] placement(q, taken[i], taken)) is None,
    decreases taken.len() - k,
{
    if k < taken.len() {
        lemma_first_placement_search(q, taken, k + 1);
        if placement(q, taken[k], taken) is None {
            if let Some(r) = first_placement(q, taken, k + 1) {
                let j = choose|j: int|
                    k + 1 <= j < taken.len() && placement(q, taken[j], taken) == Some(r) && forall|i: int|
                        k + 1 <= i < j ==> (#[trigger] placement(q, taken[i], taken)) is None;
                assert forall|i: int| k <= i < j implies (#[trigger] placement(q, taken[i], taken)) is None by {
                    if i > k {
                        assert(k + 1 <= i < j);
                    }
                }
            }
        }
    }
}

/// The search for a place across the placed keywords misses no placed
/// keyword: it finds none only where no placed keyword has a place for
/// `q`, and otherwise gives the place across the first placed keyword that
/// has one.
pub proof fn law_placement_across_any_placed_keyword(q: CrosswordKeyword, taken: Seq<CrosswordKeyword>)
    ensures
        first_placement(q, taken, 0) is None <==> forall|k: int|
            0 <= k < taken.len() ==> (#[trigger] placement(q, taken[k], taken)) is None,
        first_placement(q, taken, 0) matches Some(r) ==> exists|k: int|
            0 <= k < taken.len() && placement(q, taken[k], taken) == Some(r) && forall|j: int|
                0 <= j < k ==> (#[trigger] placement(q, taken[j], taken)) is None,
{
    lemma_first_placement_search(q, taken, 0);
}

/// A clue after the first is laid out exactly when some keyword already
/// laid out has a place for it; the keywords laid out before stay as they
/// were.
pub proof fn law_placeable_clue_is_laid_out(qs: Seq<Question>, start: u8)
    requires
        qs.len() >= 2,
    ensures
        (exists|k: int|
            0 <= k < layout(qs.drop_last(), start).len() && (#[trigger] placement(
                new_keyword(qs.last()),
                layout(qs.drop_last(), start)[k],
                layout(qs.drop_last(), start),
            )) is Some) <==> layout(qs, start).len() == layout(qs.drop_last(), start).len() + 1,
        layout(qs, start).take(layout(qs.drop_last(), start).len() as int) == layout(qs.drop_last(), start),
{
    let taken = layout(qs.drop_last(), start);
    let q = new_keyword(qs.last());
    law_placement_across_any_placed_keyword(q, taken);
    assert(layout(qs, start).take(taken.len() as int) =~= taken);
}

/// The first clue is laid out across, from (`start`, `start`), as it is:
/// its clue, its answer, its answer's byte length, nothing typed.
pub proof fn law_first_clue_starts_at_the_start_cell(qs: Seq<Question>, start: u8)
    requires
        qs.len() >= 1,
    ensures
        layout(qs, start).len() >= 1,
        layout(qs, start)[0].coord_start_x == start,
        layout(qs, start)[0].coord_start_y == start,
        layout(qs, start)[0].orientation == Orientation::Horizontally,
        layout(qs, start)[0].question == qs[0],
        layout(qs, start)[0].len_of_keyword == #[verifier::truncate] (byte_len(qs[0].answer@) as u8),
        layout(qs, start)[0].user_input is None,
    decreases qs.len(),
{
    let prefix = qs.drop_last();
    if qs.len() > 1 {
        law_first_clue_starts_at_the_start_cell(prefix, start);
        assert(prefix[0] == qs[0]);
        let taken = layout(prefix, start);
        assert(taken.len() >= 1);
        assert(layout(qs, start)[0] == taken[0]);
    } else {
        assert(prefix =~= Seq::<Question>::empty());
        assert(layout(prefix, start) =~= Seq::<CrosswordKeyword>::empty());
        assert(qs.last() == qs[0]);
        assert(layout(qs, start) =~= seq![at_start(new_keyword(qs[0]), start)]);
    }
}

/// Keywords that touch collide, in either order: a vertical one that starts
/// just below, or ends just above, a horizontal one under one of its cells;
/// a horizontal one that ends just left of, or starts just right of, a
/// vertical one beside one of its cells; two in one line end to end; and a
/// horizontal and a vertical one that cross on different letters.
pub proof fn law_touching_keywords_collide(h: CrosswordKeyword, p: CrosswordKeyword)
    ensures
        ({
            let hx = h.coord_start_x as int;
            let hy = h.coord_start_y as int;
            let hl = h.len_of_keyword as int;
            let px = p.coord_start_x as int;
            let py = p.coord_start_y as int;
            let pl = p.len_of_keyword as int;
            h.orientation == Orientation::Horizontally && p.orientation == Orientation::Perpendicularly && (
            (hx <= px < hx + hl && (py == hy + 1 || py + pl == hy)) || (py <= hy < py + pl && (hx + hl == px
                || hx == px + 1)) || (hx <= px < hx + hl && py <= hy < py + pl && px - hx
                < h.question.answer@.len() && hy - py < p.question.answer@.len()
                && h.question.answer@[px - hx] != p.question.answer@[hy - py]))
        }) ==> collides(h, p) && collides(p, h),
        (h.orientation == p.orientation && h.orientation == Orientation::Horizontally && h.coord_start_y
            == p.coord_start_y && h.coord_start_x + h.len_of_keyword == p.coord_start_x) ==> collides(h, p)
            && collides(p, h),
        (h.orientation == p.orientation && h.orientation == Orientation::Perpendicularly && h.coord_start_x
            == p.coord_start_x && h.coord_start_y + h.len_of_keyword == p.coord_start_y) ==> collides(h, p)
            && collides(p, h),
{
}

/// Keywords a cell or more apart do not collide: two in one line with a
/// gap, two parallel ones in different lines, and a horizontal and a
/// vertical one whose boxes have a free cell between them or that cross on
/// a common letter.
pub proof fn law_keywords_apart_do_not_collide(h: CrosswordKeyword, p: CrosswordKeyword)
    ensures
        ({
            let hx = h.coord_start_x as int;
            let hy = h.coord_start_y as int;
            let hl = h.len_of_keyword as int;
            let px = p.coord_start_x as int;
            let py = p.coord_start_y as int;
            let pl = p.len_of_keyword as int;
            h.orientation == Orientation::Horizontally && p.orientation == Orientation::Perpendicularly && (
            px >= hx + hl + 1 || px + 1 < hx || py >= hy + 2 || py + pl + 1 <= hy || (hx <= px < hx + hl
                && py <= hy < py + pl && letters_match(h, px - hx, p, hy - py)))
        }) ==> !collides(h, p) && !collides(p, h),
        (h.orientation == p.orientation && h.orientation == Orientation::Horizontally && (h.coord_start_y
            != p.coord_start_y || h.coord_start_x + h.len_of_keyword + 1 <= p.coord_start_x)) ==> !collides(h, p)
            && !collides(p, h),
        (h.orientation == p.orientation && h.orientation == Orientation::Perpendicularly && (h.coord_start_x
            != p.coord_start_x || h.coord_start_y + h.len_of_keyword + 1 <= p.coord_start_y)) ==> !collides(
            h,
            p,
        ) && !collides(p, h),
{
}

/// `k` with the clue number `id`.
pub open spec fn with_id(k: CrosswordKeyword, id: u64) -> CrosswordKeyword {
    CrosswordKeyword { question: Question { id, ..k.question }, ..k }
}

/// The keywords numbered 1, 2, ... in their order.
pub open spec fn numbered(s: Seq<CrosswordKeyword>) -> Seq<CrosswordKeyword> {
    Seq::new(s.len(), |k: int| with_id(s[k], (k + 1) as u64))
}

/// A keyword as the layout places it: inside the board's area, its length
/// the byte length of its answer, at most 18.
pub open spec fn placed_ok(k: CrosswordKeyword) -> bool {
    &&& placed_in_frame(k)
    &&& k.len_of_keyword as nat == byte_len(k.question.answer@)
    &&& k.len_of_keyword <= 18
}

/// The keywords can be played: each lies on the board, and what was typed
/// for it is ASCII and has no more bytes than its answer.
pub open spec fn playable(kws: Seq<CrosswordKeyword>) -> bool {
    forall|k: int|
        0 <= k < kws.len() ==> {
            &&& placed_ok(#[trigger] kws[k])
            &&& all_ascii(typed(kws[k]))
            &&& byte_len(typed(kws[k])) <= byte_len(kws[k].question.answer@)
        }
}

/// A clue that the layout can take: its answer has at most 18 bytes.
pub open spec fn answer_fits(q: Question) -> bool {
    byte_len(q.answer@) <= 18
}

proof fn lemma_placement_skip(
    q: CrosswordKeyword,
    cross: CrosswordKeyword,
    taken: Seq<CrosswordKeyword>,
    i: int,
)
    requires
        0 <= i <= cross.question.answer@.len(),
        forall|j: int| 0 <= j < i ==> !#[trigger] places_at(q, cross, taken, j),
    ensures
        placement(q, cross, taken) == placement_from(q, cross, taken, i),
    decreases i,
{
    if i > 0 {
        assert(!places_at(q, cross, taken, i - 1));
        lemma_placement_skip(q, cross, taken, i - 1);
    }
}

proof fn lemma_first_placement_skip(q: CrosswordKeyword, taken: Seq<CrosswordKeyword>, k: int)
    requires
        0 <= k <= taken.len(),
        forall|j: int| 0 <= j < k ==> (#[trigger] placement(q, taken[j], taken)) is None,
    ensures
        first_placement(q, taken, 0) == first_placement(q, taken, k),
    decreases k,
{
    if k > 0 {
        assert(placement(q, taken[k - 1], taken) is None);
        lemma_first_placement_skip(q, taken, k - 1);
    }
}

/// For a small keyword laid across a keyword placed by the layout, every
/// number stays in range, and whatever placement is found lies in the
/// board's area and collides with none of `taken`.
proof fn lemma_placement_from_placed(
    q: CrosswordKeyword,
    cross: CrosswordKeyword,
    taken: Seq<CrosswordKeyword>,
    i: int,
)
    requires
        placed_ok(cross),
        q.len_of_keyword as nat == byte_len(q.question.answer@),
        q.len_of_keyword <= 18,
        0 <= i,
    ensures
        placement_from(q, cross, taken, i) matches Some(r) ==> placed_ok(r) && no_collision(r, taken)
            && r.question == q.question && r.user_input == q.user_input,
    decreases cross.question.answer@.len() - i,
{
    if i < cross.question.answer@.len() {
        if places_at(q, cross, taken, i) {
            lemma_candidate_small(q, cross, taken, i);
        } else {
            lemma_placement_from_placed(q, cross, taken, i + 1);
        }
    }
}

/// The numbers of laying `q` across character `i` of a placed keyword are
/// small, and a box in the board's area gives a placed keyword.
#[verifier::rlimit(40)]
#[verifier::spinoff_prover]
proof fn lemma_candidate_small(q: CrosswordKeyword, cross: CrosswordKeyword, taken: Seq<CrosswordKeyword>, i: int)
    requires
        placed_ok(cross),
        q.len_of_keyword as nat == byte_len(q.question.answer@),
        q.len_of_keyword <= 18,
        0 <= i < cross.question.answer@.len(),
    ensures
        offset_for(q, cross, i) matches Some(b) ==> {
            &&& b < 18
            &&& candidate_arith_ok(q, cross, i, b as int)
            &&& {
                let bx = candidate_box(q, cross, i, b as int);
                in_frame(bx.0, bx.1, bx.2, bx.3) ==> placed_ok(candidate(q, cross, i, b as int))
            }
        },
        i < 18,
{
    lemma_chars_le_bytes(cross.question.answer@);
    let c = cross.question.answer@[i];
    lemma_first_index_of(q.question.answer@, c);
    if let Some(k) = first_index_of(q.question.answer@, c) {
        lemma_prefix_bytes_lt(q.question.answer@, k as int);
        let b = offset_for(q, cross, i)->0;
        assert(wrap_i8(i) == i);
        assert(wrap_i8(b as int) == b);
        assert(wrap_i8(cross.coord_start_x as int) == cross.coord_start_x);
        assert(wrap_i8(cross.coord_start_y as int) == cross.coord_start_y);
        assert(wrap_i8(q.len_of_keyword as int) == q.len_of_keyword);
    }
}

/// The keywords of a layout lie in the board's area, have the byte length
/// of their answers, and none collides with one placed before it.
pub proof fn lemma_layout_well_placed(qs: Seq<Question>, start: u8)
    requires
        5 <= start <= 10,
        forall|k: int| 0 <= k < qs.len() ==> answer_fits(#[trigger] qs[k]),
    ensures
        layout(qs, start).len() <= qs.len(),
        qs.len() > 0 ==> layout(qs, start).len() >= 1,
        forall|k: int| 0 <= k < layout(qs, start).len() ==> placed_ok(#[trigger] layout(qs, start)[k]),
        forall|k: int| 0 <= k < layout(qs, start).len() ==> (#[trigger] layout(qs, start)[k]).user_input is None,
        forall|i: int, j: int|
            0 <= i < j < layout(qs, start).len() ==> !collides(
                #[trigger] layout(qs, start)[j],
                #[trigger] layout(qs, start)[i],
            ),
    decreases qs.len(),
{
    if qs.len() > 0 {
        let prefix = qs.drop_last();
        assert forall|k: int| 0 <= k < prefix.len() implies answer_fits(#[trigger] prefix[k]) by {
            assert(prefix[k] == qs[k]);
        }
        lemma_layout_well_placed(prefix, start);
        let taken = layout(prefix, start);
        let kw = new_keyword(qs.last());
        assert(answer_fits(qs[qs.len() - 1]));
        if qs.len() == 1 {
            assert(taken.len() == 0);
        } else {
            lemma_first_placement_placed(kw, taken, 0);
        }
        let res = layout(qs, start);
        assert forall|i: int, j: int| 0 <= i < j < res.len() implies !collides(
            #[trigger] res[j],
            #[trigger] res[i],
        ) by {
            if j == taken.len() {
                assert(res[i] == taken[i]);
            } else {
                assert(res[i] == taken[i]);
                assert(res[j] == taken[j]);
            }
        }
        assert forall|k: int| 0 <= k < res.len() implies placed_ok(#[trigger] res[k]) by {
            if k < taken.len() {
                assert(res[k] == taken[k]);
            }
        }
        assert forall|k: int| 0 <= k < res.len() implies (#[trigger] res[k]).user_input is None by {
            if k < taken.len() {
                assert(res[k] == taken[k]);
            }
        }
    }
}

proof fn lemma_first_placement_placed(q: CrosswordKeyword, taken: Seq<CrosswordKeyword>, k: int)
    requires
        forall|j: int| 0 <= j < taken.len() ==> placed_ok(#[trigger] taken[j]),
        q.len_of_keyword as nat == byte_len(q.question.answer@),
        q.len_of_keyword <= 18,
        0 <= k,
    ensures
        first_placement(q, taken, k) matches Some(r) ==> placed_ok(r) && no_collision(r, taken)
            && r.user_input == q.user_input,
        first_placement_defined(q, taken),
    decreases taken.len() - k,
{
    if k < taken.len() {
        lemma_placement_from_placed(q, taken[k], taken, 0);
        lemma_first_placement_placed(q, taken, k + 1);
    }
    assert forall|m: int|
        0 <= m < taken.len() && (forall|j: int|
            0 <= j < m ==> (#[trigger] placement(q, taken[j], taken)) is None) implies placement_defined(
        q,
        taken[m],
        taken,
    ) by {
        lemma_placement_defined(q, taken[m], taken);
    }
}

proof fn lemma_placement_defined(q: CrosswordKeyword, cross: CrosswordKeyword, taken: Seq<CrosswordKeyword>)
    requires
        placed_ok(cross),
        q.len_of_keyword as nat == byte_len(q.question.answer@),
        q.len_of_keyword <= 18,
    ensures
        placement_defined(q, cross, taken),
{
    assert forall|i: int|
        0 <= i < cross.question.answer@.len() && (forall|j: int|
            0 <= j < i ==> !#[trigger] places_at(q, cross, taken, j)) implies step_ok(
        q,
        cross,
        taken,
        i,
    ) by {
        lemma_candidate_small(q, cross, taken, i);
    }
}

/// Index of the first keyword of `kws` with clue number `id`, if any.
pub open spec fn first_with_id(kws: Seq<CrosswordKeyword>, id: u64) -> Option<nat>
    decreases kws.len(),
{
    if kws.len() == 0 {
        None
    } else if kws[0].question.id == id {
        Some(0)
    } else {
        match first_with_id(kws.drop_first(), id) {
            Some(k) => Some(k + 1),
            None => None,
        }
    }
}

/// What the player has typed for `k` (nothing where there is no input).
pub open spec fn typed(k: CrosswordKeyword) -> Seq<char> {
    match k.user_input {
        Some(s) => s@,
        None => Seq::empty(),
    }
}

/// The answer typed for `k` matches its answer, upper case against upper
/// case.
pub open spec fn input_is_correct(k: CrosswordKeyword) -> bool {
    match k.user_input {
        Some(s) => uppercase(s@) == uppercase(k.question.answer@),
        None => false,
    }
}

pub proof fn lemma_first_with_id(kws: Seq<CrosswordKeyword>, id: u64)
    ensures
        first_with_id(kws, id) matches Some(k) ==> k < kws.len() && kws[k as int].question.id == id
            && forall|j: int| 0 <= j < k ==> kws[j].question.id != id,
        first_with_id(kws, id) is None ==> forall|j: int| 0 <= j < kws.len() ==> kws[j].question.id != id,
    decreases kws.len(),
{
    if kws.len() > 0 {
        lemma_first_with_id(kws.drop_first(), id);
        if kws[0].question.id != id {
            assert forall|j: int| 1 <= j < kws.len() implies kws[j] == kws.drop_first()[j - 1] by {}
        }
    }
}

/// Where character `i` of `k` is painted: (column, row).
pub open spec fn cell_of(k: CrosswordKeyword, i: int) -> (int, int) {
    match k.orientation {
        Orientation::Horizontally => (k.coord_start_x + i, k.coord_start_y as int),
        Orientation::Perpendicularly => (k.coord_start_x as int, k.coord_start_y + i),
    }
}

/// Where the clue number of `k` is painted: two cells before its first one.
pub open spec fn number_cell(k: CrosswordKeyword) -> (int, int) {
    match k.orientation {
        Orientation::Horizontally => (k.coord_start_x - 2, k.coord_start_y as int),
        Orientation::Perpendicularly => (k.coord_start_x as int, k.coord_start_y - 2),
    }
}

/// Where the arrow of `k` is painted: the cell before its first one.
pub open spec fn arrow_cell(k: CrosswordKeyword) -> (int, int) {
    match k.orientation {
        Orientation::Horizontally => (k.coord_start_x - 1, k.coord_start_y as int),
        Orientation::Perpendicularly => (k.coord_start_x as int, k.coord_start_y - 1),
    }
}

/// The arrow that shows the direction.
pub open spec fn arrow_text(o: Orientation) -> Seq<char> {
    match o {
        Orientation::Horizontally => "\x1b[1;36;40m>"@,
        Orientation::Perpendicularly => "\x1b[1;36;40mv"@,
    }
}

/// The two directions get different arrows: `>` for a keyword across, `v`
/// for a keyword down.
pub proof fn law_arrows_show_the_direction()
    ensures
        arrow_text(Orientation::Horizontally) != arrow_text(Orientation::Perpendicularly),
        arrow_text(Orientation::Horizontally).last() == '>',
        arrow_text(Orientation::Perpendicularly).last() == 'v',
{
    reveal_strlit("\x1b[1;36;40m>");
    reveal_strlit("\x1b[1;36;40mv");
    assert(arrow_text(Orientation::Horizontally).last() != arrow_text(Orientation::Perpendicularly).last());
}

/// The clue number of `k`, in red.
pub open spec fn number_text(k: CrosswordKeyword) -> Seq<char> {
    "\x1b[1;31;40m"@ + decimal(k.question.id)
}

/// An empty square of the board.
pub open spec fn empty_square() -> Seq<char> {
    "\x1b[1;37m\u{2592}"@
}

/// How many of the typed characters are shown: the typed byte count modulo
/// 256.
pub open spec fn typed_count(k: CrosswordKeyword) -> int {
    (str_len(typed(k)) as u8) as int
}

/// What painting character `i` of `k` writes, given the cells that already
/// show a typed letter: on the first character the number and the arrow;
/// then, unless the cell shows a typed letter, the typed letter `i` if
/// there is one, else an empty square.
pub open spec fn cell_writes(lettered: Set<(int, int)>, k: CrosswordKeyword, i: int) -> Map<(int, int), Seq<char>> {
    let marks = if i == 0 {
        Map::<(int, int), Seq<char>>::empty().insert(number_cell(k), number_text(k)).insert(
            arrow_cell(k),
            arrow_text(k.orientation),
        )
    } else {
        Map::<(int, int), Seq<char>>::empty()
    };
    let c = cell_of(k, i);
    if lettered.contains(c) {
        marks
    } else if k.user_input is None {
        marks.insert(c, empty_square())
    } else if i < typed_count(k) {
        marks.insert(c, seq![typed(k)[i]])
    } else {
        marks.insert(c, empty_square())
    }
}

/// The cells that show a typed letter after painting character `i` of `k`.
pub open spec fn cell_letters(lettered: Set<(int, int)>, k: CrosswordKeyword, i: int) -> Set<(int, int)> {
    let c = cell_of(k, i);
    if !lettered.contains(c) && k.user_input is Some && i < typed_count(k) {
        lettered.insert(c)
    } else {
        lettered
    }
}

/// Painting character `i` of `k` stays in the `u8` range and inside the
/// frame, and shows only typed letters that exist.
pub open spec fn cell_defined(frame: Frame, lettered: Set<(int, int)>, k: CrosswordKeyword, i: int) -> bool {
    let c = cell_of(k, i);
    &&& match k.orientation {
        Orientation::Horizontally => k.coord_start_x >= 2 && k.coord_start_x + i <= 255,
        Orientation::Perpendicularly => k.coord_start_y >= 2 && k.coord_start_y + i <= 255,
    }
    &&& i == 0 ==> in_bounds(frame, number_cell(k).0, number_cell(k).1) && in_bounds(
        frame,
        arrow_cell(k).0,
        arrow_cell(k).1,
    )
    &&& !lettered.contains(c) ==> in_bounds(frame, c.0, c.1) && (k.user_input is Some && i
        < typed_count(k) ==> i < typed(k).len())
}

/// Painting character `i` of `k`: on the first character the clue number
/// goes two cells before it and the arrow one cell before it (to the left
/// across, above down); the character's cell, unless it already shows a
/// typed letter, shows typed letter `i` where that many were typed and an
/// empty square otherwise.
pub proof fn law_painting_a_character(lettered: Set<(int, int)>, k: CrosswordKeyword, i: int)
    ensures
        ({
            let x = k.coord_start_x as int;
            let y = k.coord_start_y as int;
            let w = cell_writes(lettered, k, i);
            let c = match k.orientation {
                Orientation::Horizontally => (x + i, y),
                Orientation::Perpendicularly => (x, y + i),
            };
            let before_1 = match k.orientation {
                Orientation::Horizontally => (x - 1, y),
                Orientation::Perpendicularly => (x, y - 1),
            };
            let before_2 = match k.orientation {
                Orientation::Horizontally => (x - 2, y),
                Orientation::Perpendicularly => (x, y - 2),
            };
            &&& i == 0 ==> w.contains_key(before_2) && w[before_2] == "\x1b[1;31;40m"@ + decimal(k.question.id)
            &&& i == 0 ==> w.contains_key(before_1) && w[before_1] == arrow_text(k.orientation)
            &&& lettered.contains(c) ==> !w.contains_key(c)
            &&& !lettered.contains(c) && k.user_input is Some && i < str_len(typed(k)) as u8 ==> w.contains_key(c)
                && w[c] == seq![typed(k)[i]]
            &&& !lettered.contains(c) && !(k.user_input is Some && i < str_len(typed(k)) as u8) ==> w.contains_key(c)
                && w[c] == "\x1b[1;37m\u{2592}"@
            &&& forall|p: (int, int)| #[trigger] w.contains_key(p) ==> p == c || (i == 0 && (p == before_1 || p
                == before_2))
        }),
{
}

/// Clearing forgets what was typed for the first keyword numbered `id` and
/// leaves every other keyword, and that keyword's place and clue, as they
/// were.
pub proof fn law_clearing_forgets_the_input(kws: Seq<CrosswordKeyword>, id: u64)
    ensures
        input_cleared(kws, id).len() == kws.len(),
        first_with_id(kws, id) matches Some(k) ==> {
            &&& input_cleared(kws, id)[k as int].user_input is None
            &&& input_cleared(kws, id)[k as int].question == kws[k as int].question
            &&& input_cleared(kws, id)[k as int].coord_start_x == kws[k as int].coord_start_x
            &&& input_cleared(kws, id)[k as int].coord_start_y == kws[k as int].coord_start_y
            &&& input_cleared(kws, id)[k as int].len_of_keyword == kws[k as int].len_of_keyword
            &&& input_cleared(kws, id)[k as int].orientation == kws[k as int].orientation
            &&& forall|j: int| 0 <= j < kws.len() && j != k ==> #[trigger] input_cleared(kws, id)[j] == kws[j]
        },
        first_with_id(kws, id) is None ==> input_cleared(kws, id) == kws,
{
    lemma_first_with_id(kws, id);
}

/// Typing into an input that already has as many bytes as the answer makes
/// it too long.
pub proof fn law_typing_past_the_answer_is_too_long(kws: Seq<CrosswordKeyword>, id: u64, c: char)
    requires
        first_with_id(kws, id) is Some,
        byte_len(typed(keyword_numbered(kws, id))) >= byte_len(keyword_numbered(kws, id).question.answer@),
        byte_len(typed(keyword_numbered(kws, id))) + 4 <= usize::MAX,
    ensures
        input_too_long(kws, id, c),
{
    let t = typed(keyword_numbered(kws, id));
    lemma_byte_len_concat(t, seq![c]);
    assert(t + seq![c] =~= t.push(c));
    lemma_scalar_len(c);
    assert(encode_utf8(seq![c]) =~= encode_scalar(c as u32)) by {
        assert(seq![c].drop_first() =~= Seq::<char>::empty());
        assert(encode_utf8(seq![c].drop_first()) =~= Seq::<u8>::empty());
        assert(seq![c][0] == c);
    }
}

/// The writes and lettered cells after painting characters `0..n` of `k`.
pub open spec fn paint_keyword(
    w: Map<(int, int), Seq<char>>,
    l: Set<(int, int)>,
    k: CrosswordKeyword,
    n: int,
) -> (Map<(int, int), Seq<char>>, Set<(int, int)>)
    decreases n,
{
    if n <= 0 {
        (w, l)
    } else {
        let st = paint_keyword(w, l, k, n - 1);
        (st.0.union_prefer_right(cell_writes(st.1, k, n - 1)), cell_letters(st.1, k, n - 1))
    }
}

/// Painting characters `0..n` of `k` is defined.
pub open spec fn keyword_defined(
    frame: Frame,
    w: Map<(int, int), Seq<char>>,
    l: Set<(int, int)>,
    k: CrosswordKeyword,
    n: int,
) -> bool
    decreases n,
{
    n <= 0 || (keyword_defined(frame, w, l, k, n - 1) && cell_defined(
        frame,
        paint_keyword(w, l, k, n - 1).1,
        k,
        n - 1,
    ))
}

/// The writes and lettered cells after painting the keywords `0..m`.
pub open spec fn paint_all(kws: Seq<CrosswordKeyword>, m: int) -> (Map<(int, int), Seq<char>>, Set<(int, int)>)
    decreases m,
{
    if m <= 0 {
        (Map::empty(), Set::empty())
    } else {
        let st = paint_all(kws, m - 1);
        paint_keyword(st.0, st.1, kws[m - 1], kws[m - 1].len_of_keyword as int)
    }
}

/// Painting the keywords `0..m` is defined.
pub open spec fn all_defined(frame: Frame, kws: Seq<CrosswordKeyword>, m: int) -> bool
    decreases m,
{
    m <= 0 || (all_defined(frame, kws, m - 1) && keyword_defined(
        frame,
        paint_all(kws, m - 1).0,
        paint_all(kws, m - 1).1,
        kws[m - 1],
        kws[m - 1].len_of_keyword as int,
    ))
}

proof fn lemma_keyword_defined_on_board(
    frame: Frame,
    w: Map<(int, int), Seq<char>>,
    l: Set<(int, int)>,
    k: CrosswordKeyword,
    n: int,
)
    requires
        frame@.len() == COLUMS + 1,
        forall|c: int| 0 <= c <= COLUMS ==> (#[trigger] frame@[c])@.len() > ROWS - 20,
        placed_ok(k),
        all_ascii(typed(k)),
        typed(k).len() < 256,
        0 <= n <= k.len_of_keyword,
    ensures
        keyword_defined(frame, w, l, k, n),
    decreases n,
{
    if n > 0 {
        lemma_keyword_defined_on_board(frame, w, l, k, n - 1);
        lemma_ascii_byte_len(typed(k));
        let c = cell_of(k, n - 1);
        assert(0 <= c.0 <= COLUMS && frame@[c.0]@.len() > ROWS - 20);
        assert(0 <= number_cell(k).0 <= COLUMS && frame@[number_cell(k).0]@.len() > ROWS - 20);
        assert(0 <= arrow_cell(k).0 <= COLUMS && frame@[arrow_cell(k).0]@.len() > ROWS - 20);
    }
}

proof fn lemma_all_defined_on_board(frame: Frame, kws: Seq<CrosswordKeyword>, m: int)
    requires
        frame@.len() == COLUMS + 1,
        forall|c: int| 0 <= c <= COLUMS ==> (#[trigger] frame@[c])@.len() > ROWS - 20,
        0 <= m <= kws.len(),
        playable(kws),
    ensures
        all_defined(frame, kws, m),
    decreases m,
{
    if m > 0 {
        lemma_all_defined_on_board(frame, kws, m - 1);
        let k = kws[m - 1];
        assert(placed_ok(k));
        lemma_chars_le_bytes(typed(k));
        lemma_keyword_defined_on_board(
            frame,
            paint_all(kws, m - 1).0,
            paint_all(kws, m - 1).1,
            k,
            k.len_of_keyword as int,
        );
    }
}

/// Playable keywords can be painted on a frame of the game's shape:
/// `COLUMS + 1` columns of at least `ROWS - 19` cells.
pub proof fn law_playable_board_can_be_painted(frame: Frame, kws: Seq<CrosswordKeyword>)
    requires
        frame@.len() == COLUMS + 1,
        forall|c: int| 0 <= c <= COLUMS ==> (#[trigger] frame@[c])@.len() > ROWS - 20,
        playable(kws),
    ensures
        all_defined(frame, kws, kws.len() as int),
{
    lemma_all_defined_on_board(frame, kws, kws.len() as int);
}

/// Typing an ASCII character that does not make the input too long keeps
/// the keywords playable.
pub proof fn law_typing_keeps_the_board_playable(
    before: Seq<CrosswordKeyword>,
    after: Seq<CrosswordKeyword>,
    id: u64,
    c: char,
)
    requires
        playable(before),
        (c as u32) < 128,
        !input_too_long(before, id, c),
        input_appended(before, after, id, c),
    ensures
        playable(after),
{
    lemma_first_with_id(before, id);
    if let Some(k) = first_with_id(before, id) {
        let t = typed(before[k as int]);
        let a = before[k as int].question.answer@;
        assert(placed_ok(before[k as int]));
        lemma_byte_len_concat(t, seq![c]);
        assert(t + seq![c] =~= t.push(c));
        assert(all_ascii(seq![c]));
        lemma_ascii_byte_len(seq![c]);
        assert(byte_len(t.push(c)) == byte_len(t) + 1);
        assert(all_ascii(t.push(c))) by {
            assert forall|i: int| 0 <= i < t.push(c).len() implies (#[trigger] t.push(c)[i] as u32) < 128 by {
                if i < t.len() {
                    assert(t.push(c)[i] == t[i]);
                }
            }
        }
        assert forall|j: int| 0 <= j < after.len() implies {
            &&& placed_ok(#[trigger] after[j])
            &&& all_ascii(typed(after[j]))
            &&& byte_len(typed(after[j])) <= byte_len(after[j].question.answer@)
        } by {
            if j != k {
                assert(after[j] == before[j]);
            }
        }
    }
}

/// Clearing what was typed for a keyword keeps the keywords playable.
pub proof fn law_clearing_keeps_the_board_playable(kws: Seq<CrosswordKeyword>, id: u64)
    requires
        playable(kws),
    ensures
        playable(input_cleared(kws, id)),
{
    let after = input_cleared(kws, id);
    lemma_first_with_id(kws, id);
    assert(after.len() == kws.len());
    assert forall|j: int| 0 <= j < after.len() implies {
        &&& placed_ok(#[trigger] after[j])
        &&& all_ascii(typed(after[j]))
        &&& byte_len(typed(after[j])) <= byte_len(after[j].question.answer@)
    } by {
        assert(placed_ok(kws[j]));
        if first_with_id(kws, id) == Some(j as nat) {
            assert(typed(after[j]) =~= Seq::<char>::empty());
        } else {
            assert(after[j] == kws[j]);
        }
    }
}

/// `n` spaces.
pub open spec fn spaces(n: int) -> Seq<char> {
    Seq::new(n as nat, |i: int| ' ')
}

/// `s` followed by spaces up to `width` bytes.
pub open spec fn padded(s: Seq<char>, width: int) -> Seq<char> {
    s + spaces(width - str_len(s))
}

/// The instruction lines, each padded to the window's width plus its
/// non-printing bytes, or an empty line.
pub open spec fn instructions_text(instr: Option<((Seq<char>, u8), (Seq<char>, u8))>) -> Seq<char> {
    match instr {
        Some(lines) => padded(lines.0.0, WINDOW_SIZE_X + lines.0.1) + padded(
            lines.1.0,
            WINDOW_SIZE_X + lines.1.1,
        ),
        None => "\n"@,
    }
}

/// The instruction lines fit: the widths stay in the `u8` range and no
/// line is longer than its width.
pub open spec fn instructions_fit(instr: Option<((Seq<char>, u8), (Seq<char>, u8))>) -> bool {
    instr matches Some(lines) ==> {
        &&& WINDOW_SIZE_X + lines.0.1 <= 255
        &&& WINDOW_SIZE_X + lines.1.1 <= 255
        &&& str_len(lines.0.0) <= WINDOW_SIZE_X + lines.0.1
        &&& str_len(lines.1.0) <= WINDOW_SIZE_X + lines.1.1
    }
}

/// One line per keyword: its number, a dot, a space and its clue.
pub open spec fn clue_lines(kws: Seq<CrosswordKeyword>) -> Seq<char>
    decreases kws.len(),
{
    if kws.len() == 0 {
        Seq::empty()
    } else {
        clue_lines(kws.drop_last()) + decimal(kws.last().question.id) + ". "@
            + kws.last().question.question@ + "\n"@
    }
}

/// The text under the board: the instructions, a blank line, the clues and
/// the answer given to the player.
pub open spec fn board_text(
    kws: Seq<CrosswordKeyword>,
    response: Option<Seq<char>>,
    instr: Option<((Seq<char>, u8), (Seq<char>, u8))>,
) -> Seq<char> {
    instructions_text(instr) + " \n\n"@ + clue_lines(kws) + match response {
        Some(r) => r + "\n"@,
        None => Seq::empty(),
    }
}

/// The text that `draw` writes after the answer `r` was given to the
/// player is the text without an answer followed by `r` and a line break:
/// it ends with them.
pub proof fn law_board_text_ends_with_the_response(
    kws: Seq<CrosswordKeyword>,
    r: Seq<char>,
    instr: Option<((Seq<char>, u8), (Seq<char>, u8))>,
)
    ensures
        board_text(kws, Some(r), instr) == board_text(kws, None, instr) + r + "\n"@,
        ({
            let t = board_text(kws, Some(r), instr);
            t.subrange(t.len() - (r.len() + 1), t.len() as int) == r + "\n"@
        }),
{
    let p = board_text(kws, None, instr);
    assert(p =~= instructions_text(instr) + " \n\n"@ + clue_lines(kws));
    assert(board_text(kws, Some(r), instr) =~= p + r + "\n"@);
    reveal_strlit("\n");
    let t = board_text(kws, Some(r), instr);
    assert(t.subrange(t.len() - (r.len() + 1), t.len() as int) =~= r + "\n"@);
}

/// The cells (as column, row) listed in `v`.
pub open spec fn lettered_view(v: Seq<(u8, u8)>) -> Set<(int, int)> {
    Set::new(|p: (int, int)| exists|j: int| 0 <= j < v.len() && v[j].0 as int == p.0 && v[j].1 as int == p.1)
}

proof fn lemma_all_defined_prefix(frame: Frame, kws: Seq<CrosswordKeyword>, m: int, k: int)
    requires
        0 <= k <= m,
        all_defined(frame, kws, m),
    ensures
        all_defined(frame, kws, k),
    decreases m - k,
{
    if k < m {
        lemma_all_defined_prefix(frame, kws, m - 1, k);
    }
}

proof fn lemma_keyword_defined_prefix(
    frame: Frame,
    w: Map<(int, int), Seq<char>>,
    l: Set<(int, int)>,
    k: CrosswordKeyword,
    n: int,
    i: int,
)
    requires
        0 <= i <= n,
        keyword_defined(frame, w, l, k, n),
    ensures
        keyword_defined(frame, w, l, k, i),
    decreases n - i,
{
    if i < n {
        lemma_keyword_defined_prefix(frame, w, l, k, n - 1, i);
    }
}

/// Listing one more cell adds it to the cells listed.
proof fn lemma_lettered_push(v: Seq<(u8, u8)>, p: (u8, u8))
    ensures
        lettered_view(v.push(p)) == lettered_view(v).insert((p.0 as int, p.1 as int)),
{
    let w = v.push(p);
    assert forall|q: (int, int)| lettered_view(w).contains(q) implies lettered_view(v).insert(
        (p.0 as int, p.1 as int),
    ).contains(q) by {
        let j = choose|j: int| 0 <= j < w.len() && w[j].0 as int == q.0 && w[j].1 as int == q.1;
        if j < v.len() {
            assert(v[j] == w[j]);
        }
    }
    assert forall|q: (int, int)| lettered_view(v).insert((p.0 as int, p.1 as int)).contains(q) implies lettered_view(
        w,
    ).contains(q) by {
        if q == (p.0 as int, p.1 as int) {
            assert(w[v.len() as int] == p);
        } else {
            let j = choose|j: int| 0 <= j < v.len() && v[j].0 as int == q.0 && v[j].1 as int == q.1;
            assert(w[j] == v[j]);
        }
    }
    assert(lettered_view(w) =~= lettered_view(v).insert((p.0 as int, p.1 as int)));
}

proof fn lemma_same_shape(a: Frame, b: Frame, w: Map<(int, int), Seq<char>>)
    requires
        frame_applied(a, b, w),
    ensures
        forall|c: int, r: int| #[trigger] in_bounds(b, c, r) == in_bounds(a, c, r),
{
    assert forall|c: int, r: int| #[trigger] in_bounds(b, c, r) == in_bounds(a, c, r) by {
        if 0 <= c < a@.len() {
            assert(b@[c]@.len() == a@[c]@.len());
        }
    }
}

/// `after` is `before` with `c` appended to what was typed for the first
/// keyword numbered `id` (unchanged where no keyword has that number).
pub open spec fn input_appended(before: Seq<CrosswordKeyword>, after: Seq<CrosswordKeyword>, id: u64, c: char) -> bool {
    match first_with_id(before, id) {
        Some(k) => {
            &&& after.len() == before.len()
            &&& forall|j: int| 0 <= j < after.len() && j != k ==> #[trigger] after[j] == before[j]
            &&& after[k as int].question == before[k as int].question
            &&& after[k as int].coord_start_x == before[k as int].coord_start_x
            &&& after[k as int].coord_start_y == before[k as int].coord_start_y
            &&& after[k as int].len_of_keyword == before[k as int].len_of_keyword
            &&& after[k as int].orientation == before[k as int].orientation
            &&& after[k as int].user_input is Some
            &&& typed(after[k as int]) == typed(before[k as int]).push(c)
        },
        None => after == before,
    }
}

/// Appending `c` for the first keyword numbered `id` makes its input longer,
/// in bytes, than its answer.
pub open spec fn input_too_long(kws: Seq<CrosswordKeyword>, id: u64, c: char) -> bool {
    match first_with_id(kws, id) {
        Some(k) => str_len(kws[k as int].question.answer@) < str_len(typed(kws[k as int]).push(c)),
        None => false,
    }
}

/// `kws` with nothing typed for the first keyword numbered `id`.
pub open spec fn input_cleared(kws: Seq<CrosswordKeyword>, id: u64) -> Seq<CrosswordKeyword> {
    match first_with_id(kws, id) {
        Some(k) => kws.update(k as int, CrosswordKeyword { user_input: None, ..kws[k as int] }),
        None => kws,
    }
}

/// What was typed for the first keyword numbered `id` is its answer.
pub open spec fn answer_is_correct(kws: Seq<CrosswordKeyword>, id: u64) -> bool {
    match first_with_id(kws, id) {
        Some(k) => input_is_correct(kws[k as int]),
        None => false,
    }
}

/// A horizontal `h` and a vertical `p` share a cell where both have the same
/// letter.
pub open spec fn cross_on_letter(h: CrosswordKeyword, p: CrosswordKeyword) -> bool {
    let hx = h.coord_start_x as int;
    let hy = h.coord_start_y as int;
    let px = p.coord_start_x as int;
    let py = p.coord_start_y as int;
    &&& hx <= px < hx + h.len_of_keyword
    &&& py <= hy < py + p.len_of_keyword
    &&& letters_match(h, px - hx, p, hy - py)
}

/// `a` and `b` run in different directions and cross on a common letter.
pub open spec fn crosses(a: CrosswordKeyword, b: CrosswordKeyword) -> bool {
    match (a.orientation, b.orientation) {
        (Orientation::Horizontally, Orientation::Perpendicularly) => cross_on_letter(a, b),
        (Orientation::Perpendicularly, Orientation::Horizontally) => cross_on_letter(b, a),
        _ => false,
    }
}

/// Keyword `j` of `s` crosses one of the keywords before it on a common
/// letter.
pub open spec fn crosses_earlier(s: Seq<CrosswordKeyword>, j: int) -> bool {
    exists|i: int| 0 <= i < j && crosses(s[j], #[trigger] s[i])
}

/// Laid across character `i` of `cross`, `q` shares a cell with it; where
/// it does not collide with `cross`, they cross on a common letter there.
#[verifier::rlimit(60)]
#[verifier::spinoff_prover]
proof fn lemma_candidate_crosses(q: CrosswordKeyword, cross: CrosswordKeyword, i: int)
    requires
        placed_ok(cross),
        q.len_of_keyword as nat == byte_len(q.question.answer@),
        q.len_of_keyword <= 18,
        0 <= i < cross.question.answer@.len(),
        offset_for(q, cross, i) is Some,
        ({
            let bx = candidate_box(q, cross, i, offset_for(q, cross, i)->0 as int);
            in_frame(bx.0, bx.1, bx.2, bx.3)
        }),
        !collides(candidate(q, cross, i, offset_for(q, cross, i)->0 as int), cross),
    ensures
        crosses(candidate(q, cross, i, offset_for(q, cross, i)->0 as int), cross),
{
    lemma_chars_le_bytes(cross.question.answer@);
    let c = cross.question.answer@[i];
    lemma_first_index_of(q.question.answer@, c);
    let k = first_index_of(q.question.answer@, c)->0;
    lemma_prefix_bytes_lt(q.question.answer@, k as int);
    let b = offset_for(q, cross, i)->0;
    assert(b < q.len_of_keyword);
    assert(i < cross.len_of_keyword);
    assert(wrap_i8(i) == i);
    assert(wrap_i8(b as int) == b);
    assert(wrap_i8(cross.coord_start_x as int) == cross.coord_start_x);
    assert(wrap_i8(cross.coord_start_y as int) == cross.coord_start_y);
    assert(wrap_i8(q.len_of_keyword as int) == q.len_of_keyword);
    let r = candidate(q, cross, i, b as int);
    match cross.orientation {
        Orientation::Horizontally => {
            assert(r.coord_start_x == cross.coord_start_x + i);
            assert(r.coord_start_y == cross.coord_start_y - b);
            assert(r.orientation == Orientation::Perpendicularly);
            assert(!crossing_conflict(cross, r));
        },
        Orientation::Perpendicularly => {
            assert(r.coord_start_x == cross.coord_start_x - b);
            assert(r.coord_start_y == cross.coord_start_y + i);
            assert(r.orientation == Orientation::Horizontally);
            assert(!crossing_conflict(r, cross));
        },
    }
}

proof fn lemma_placement_crosses(q: CrosswordKeyword, cross: CrosswordKeyword, taken: Seq<CrosswordKeyword>, i: int)
    requires
        placed_ok(cross),
        taken.contains(cross),
        q.len_of_keyword as nat == byte_len(q.question.answer@),
        q.len_of_keyword <= 18,
        0 <= i,
    ensures
        placement_from(q, cross, taken, i) matches Some(r) ==> crosses(r, cross),
    decreases cross.question.answer@.len() - i,
{
    if i < cross.question.answer@.len() {
        if places_at(q, cross, taken, i) {
            let m = choose|m: int| 0 <= m < taken.len() && taken[m] == cross;
            let b = offset_for(q, cross, i)->0;
            assert(!collides(candidate(q, cross, i, b as int), taken[m]));
            lemma_candidate_crosses(q, cross, i);
        } else {
            lemma_placement_crosses(q, cross, taken, i + 1);
        }
    }
}

proof fn lemma_first_placement_crosses(q: CrosswordKeyword, taken: Seq<CrosswordKeyword>, k: int)
    requires
        forall|j: int| 0 <= j < taken.len() ==> placed_ok(#[trigger] taken[j]),
        q.len_of_keyword as nat == byte_len(q.question.answer@),
        q.len_of_keyword <= 18,
        0 <= k,
    ensures
        first_placement(q, taken, k) matches Some(r) ==> exists|j: int|
            0 <= j < taken.len() && crosses(r, #[trigger] taken[j]),
    decreases taken.len() - k,
{
    if k < taken.len() {
        assert(taken.contains(taken[k]));
        lemma_placement_crosses(q, taken[k], taken, 0);
        lemma_first_placement_crosses(q, taken, k + 1);
    }
}

/// Every keyword of a layout after the first crosses a keyword placed
/// before it on a common letter.
pub proof fn law_layout_crosses(qs: Seq<Question>, start: u8)
    requires
        5 <= start <= 10,
        forall|k: int| 0 <= k < qs.len() ==> answer_fits(#[trigger] qs[k]),
    ensures
        forall|j: int| 1 <= j < layout(qs, start).len() ==> #[trigger] crosses_earlier(layout(qs, start), j),
    decreases qs.len(),
{
    if qs.len() > 0 {
        let prefix = qs.drop_last();
        assert forall|k: int| 0 <= k < prefix.len() implies answer_fits(#[trigger] prefix[k]) by {
            assert(prefix[k] == qs[k]);
        }
        law_layout_crosses(prefix, start);
        lemma_layout_well_placed(prefix, start);
        let taken = layout(prefix, start);
        let kw = new_keyword(qs.last());
        assert(answer_fits(qs[qs.len() - 1]));
        let res = layout(qs, start);
        if qs.len() > 1 {
            lemma_first_placement_crosses(kw, taken, 0);
        }
        assert forall|j: int| 1 <= j < res.len() implies #[trigger] crosses_earlier(res, j) by {
            if j < taken.len() {
                assert(crosses_earlier(taken, j));
                let i = choose|i: int| 0 <= i < j && crosses(taken[j], #[trigger] taken[i]);
                assert(res[i] == taken[i]);
                assert(res[j] == taken[j]);
            } else {
                assert(qs.len() > 1) by {
                    if qs.len() == 1 {
                        assert(prefix.len() == 0);
                        assert(taken.len() == 0);
                    }
                }
                let r = first_placement(kw, taken, 0)->0;
                let i = choose|i: int| 0 <= i < taken.len() && crosses(r, #[trigger] taken[i]);
                assert(res[i] == taken[i]);
            }
        }
    }
}

/// Whether two keywords collide does not depend on which one is placed
/// last.
pub proof fn law_collides_symmetric(a: CrosswordKeyword, b: CrosswordKeyword)
    ensures
        collides(a, b) == collides(b, a),
{
}

/// Clearing the input of a keyword after typing a character for it leaves
/// the keywords as clearing alone leaves them.
pub proof fn law_clear_forgets_typing(
    before: Seq<CrosswordKeyword>,
    after: Seq<CrosswordKeyword>,
    id: u64,
    c: char,
)
    requires
        input_appended(before, after, id, c),
    ensures
        input_cleared(after, id) == input_cleared(before, id),
{
    lemma_first_with_id(before, id);
    if let Some(k) = first_with_id(before, id) {
        assert forall|j: int| 0 <= j < k implies #[trigger] after[j].question.id != id by {
            assert(after[j] == before[j]);
        }
        lemma_first_with_id_at(after, id, k as int);
        assert(input_cleared(after, id) =~= input_cleared(before, id));
    }
}

/// The first keyword of `kws` numbered `id` (meaningful where there is one).
pub open spec fn keyword_numbered(kws: Seq<CrosswordKeyword>, id: u64) -> CrosswordKeyword {
    kws[first_with_id(kws, id)->0 as int]
}

/// An answer is accepted exactly when something was typed for the keyword
/// numbered `id` and, letter case aside, it is that keyword's answer.
pub proof fn law_accepted_answer_is_the_answer(kws: Seq<CrosswordKeyword>, id: u64)
    ensures
        answer_is_correct(kws, id) <==> first_with_id(kws, id) is Some && keyword_numbered(kws, id).user_input is Some
            && uppercase(typed(keyword_numbered(kws, id))) == uppercase(
            keyword_numbered(kws, id).question.answer@,
        ),
{
}

proof fn lemma_typed_prefix(states: Seq<Seq<CrosswordKeyword>>, id: u64, k: nat, answer: Seq<char>, j: int)
    requires
        0 <= j < states.len(),
        states.len() == answer.len() + 1,
        first_with_id(states[0], id) == Some(k),
        states[0][k as int].question.answer@ == answer,
        typed(states[0][k as int]) == Seq::<char>::empty(),
        forall|m: int|
            0 <= m < states.len() - 1 ==> input_appended(#[trigger] states[m], states[m + 1], id, answer[m]),
    ensures
        k < states[j].len(),
        first_with_id(states[j], id) == Some(k),
        states[j][k as int].question.answer@ == answer,
        typed(states[j][k as int]) == answer.take(j),
        j > 0 ==> states[j][k as int].user_input is Some,
    decreases j,
{
    lemma_first_with_id(states[0], id);
    if j == 0 {
        assert(answer.take(0) =~= Seq::<char>::empty());
    } else {
        lemma_typed_prefix(states, id, k, answer, j - 1);
        let before = states[j - 1];
        let after = states[j];
        assert(input_appended(before, after, id, answer[j - 1]));
        lemma_first_with_id(before, id);
        assert forall|m: int| 0 <= m < k implies #[trigger] after[m].question.id != id by {
            assert(after[m] == before[m]);
        }
        lemma_first_with_id_at(after, id, k as int);
        assert(answer.take(j - 1).push(answer[j - 1]) =~= answer.take(j));
    }
}

/// Typing the answer of the keyword numbered `id`, character by character,
/// into an empty input never makes the input too long, and what was typed is
/// then checked as correct. `states[j]` are the keywords after `j`
/// characters were typed.
pub proof fn law_typing_the_answer_is_accepted(states: Seq<Seq<CrosswordKeyword>>, id: u64)
    requires
        states.len() >= 2,
        first_with_id(states[0], id) is Some,
        typed(keyword_numbered(states[0], id)) == Seq::<char>::empty(),
        states.len() == keyword_numbered(states[0], id).question.answer@.len() + 1,
        byte_len(keyword_numbered(states[0], id).question.answer@) <= usize::MAX,
        forall|j: int|
            0 <= j < states.len() - 1 ==> input_appended(
                #[trigger] states[j],
                states[j + 1],
                id,
                keyword_numbered(states[0], id).question.answer@[j],
            ),
    ensures
        forall|j: int|
            0 <= j < states.len() - 1 ==> !input_too_long(
                #[trigger] states[j],
                id,
                keyword_numbered(states[0], id).question.answer@[j],
            ),
        answer_is_correct(states.last(), id),
{
    let k = first_with_id(states[0], id)->0;
    let answer = keyword_numbered(states[0], id).question.answer@;
    let n = states.len() - 1;
    assert forall|j: int| 0 <= j < n implies !input_too_long(#[trigger] states[j], id, answer[j]) by {
        lemma_typed_prefix(states, id, k, answer, j);
        assert(answer.take(j).push(answer[j]) =~= answer.take(j + 1));
        if j + 1 < answer.len() {
            lemma_prefix_bytes_lt(answer, j + 1);
        } else {
            assert(answer.take(j + 1) =~= answer);
        }
    }
    lemma_typed_prefix(states, id, k, answer, n);
    assert(answer.take(n) =~= answer);
}

/// The clue numbers that the steps add.
pub open spec fn added_ids(steps: Seq<Option<u8>>) -> Set<u8> {
    Set::new(|id: u8| exists|j: int| 0 <= j < steps.len() && steps[j] == Some(id))
}

proof fn lemma_guessed_sets(guessed: Seq<Set<u8>>, steps: Seq<Option<u8>>)
    requires
        guessed.len() == steps.len() + 1,
        guessed[0] == Set::<u8>::empty(),
        forall|j: int|
            0 <= j < steps.len() ==> guessed[j + 1] == match #[trigger] steps[j] {
                Some(id) => guessed[j].insert(id),
                None => guessed[j],
            },
    ensures
        guessed.last() == added_ids(steps),
    decreases steps.len(),
{
    if steps.len() == 0 {
        assert(added_ids(steps) =~= Set::<u8>::empty());
    } else {
        let g = guessed.drop_last();
        let t = steps.drop_last();
        assert forall|j: int| 0 <= j < t.len() implies g[j + 1] == match #[trigger] t[j] {
            Some(id) => g[j].insert(id),
            None => g[j],
        } by {
            assert(t[j] == steps[j]);
        }
        lemma_guessed_sets(g, t);
        let n = steps.len() - 1;
        assert(steps[n] == steps[n]);
        assert(guessed.last() =~= added_ids(steps)) by {
            assert forall|id: u8| added_ids(steps).contains(id) implies guessed.last().contains(id) by {
                let j = choose|j: int| 0 <= j < steps.len() && steps[j] == Some(id);
                if j < n {
                    assert(t[j] == steps[j]);
                    assert(added_ids(t).contains(id));
                }
            }
            assert forall|id: u8| guessed.last().contains(id) implies added_ids(steps).contains(id) by {
                if g.last().contains(id) {
                    let j = choose|j: int| 0 <= j < t.len() && t[j] == Some(id);
                    assert(steps[j] == t[j]);
                } else {
                    assert(steps[n] == Some(id));
                }
            }
        }
    }
}

/// After a new crossword and any sequence of calls, the guessed clues are
/// exactly those given to `add_guessed_keyword`: `crosswords[j]` is the
/// crossword after `j` calls, and `steps[j]` is `Some(id)` where call `j` was
/// `add_guessed_keyword(id)` and `None` where it was another method, which
/// keeps the guessed clues. So `check_keyword_was_guessed(id)` answers
/// whether `id` was added.
pub proof fn law_guessed_clues_are_those_added(crosswords: Seq<Crossword>, steps: Seq<Option<u8>>)
    requires
        crosswords.len() == steps.len() + 1,
        crosswords[0].guessed() == Set::<u8>::empty(),
        forall|j: int|
            0 <= j < steps.len() ==> crosswords[j + 1].guessed() == match #[trigger] steps[j] {
                Some(id) => crosswords[j].guessed().insert(id),
                None => crosswords[j].guessed(),
            },
    ensures
        forall|id: u8| #[trigger] crosswords.last().guessed().contains(id) == added_ids(steps).contains(id),
{
    let g = Seq::new(crosswords.len(), |j: int| crosswords[j].guessed());
    assert forall|j: int| 0 <= j < steps.len() implies g[j + 1] == match #[trigger] steps[j] {
        Some(id) => g[j].insert(id),
        None => g[j],
    } by {}
    lemma_guessed_sets(g, steps);
}

pub proof fn lemma_first_with_id_at(kws: Seq<CrosswordKeyword>, id: u64, k: int)
    requires
        0 <= k < kws.len(),
        kws[k].question.id == id,
        forall|j: int| 0 <= j < k ==> #[trigger] kws[j].question.id != id,
    ensures
        first_with_id(kws, id) == Some(k as nat),
{
    lemma_first_with_id(kws, id);
    if let Some(k2) = first_with_id(kws, id) {
        if k2 < k {
            assert(kws[k2 as int].question.id != id);
        } else if k2 > k {
            assert(kws[k].question.id != id);
        }
    } else {
        assert(kws[k].question.id != id);
    }
}

impl Crossword {
    /// The crossword's keywords: what `crossword_keywords` holds. (Closed:
    /// the struct's other fields are private, so Verus allows no open spec
    /// function to read its fields outside this module.)
    pub closed spec fn keywords(&self) -> Seq<CrosswordKeyword> {
        self.crossword_keywords@
    }

    /// The numbers of the clues that were guessed.
    pub closed spec fn guessed(&self) -> Set<u8> {
        self.guessed_clues@
    }

    /// The last answer given to the player, if any.
    pub closed spec fn response(&self) -> Option<Seq<char>> {
        match &self.response_to_user {
            Some(s) => Some(s@),
            None => None,
        }
    }

    /// The two lines of instructions, each with its count of non-printing
    /// bytes, if any.
    pub closed spec fn instructions(&self) -> Option<((Seq<char>, u8), (Seq<char>, u8))> {
        match &self.instructions_to_user {
            Some(i) => Some(((i.0.0@, i.0.1), (i.1.0@, i.1.1))),
            None => None,
        }
    }

    /// The keywords numbered 1, 2, ... in their order.
    pub fn arrange_indexes_in_order(crossword_keywords: Vec<CrosswordKeyword>) -> (res: Vec<
        CrosswordKeyword,
    >)
        requires
            crossword_keywords@.len() <= 255,
        ensures
            res@ == numbered(crossword_keywords@),
    {
        let mut i: u8 = 0;
        let mut arranged: Vec<CrosswordKeyword> = Vec::new();
        let n = crossword_keywords.len();
        for k in 0..n
            invariant
                n == crossword_keywords@.len(),
                n <= 255,
                i == k,
                arranged@ == numbered(crossword_keywords@.take(k as int)),
        {
            let mut keyword = crossword_keywords[k].clone();
            i = i + 1;
            keyword.question.id = i as u64;
            arranged.push(keyword);
            assert(arranged@ =~= numbered(crossword_keywords@.take(k + 1)));
        }
        assert(crossword_keywords@.take(n as int) =~= crossword_keywords@);
        arranged
    }

    /// Whether the box lies in the board's area.
    pub fn check_is_in_frame(x_min: i8, x_max: i8, y_min: i8, y_max: i8) -> (res: bool)
        ensures
            res == in_frame(x_min as int, x_max as int, y_min as int, y_max as int),
    {
        if x_min < 4 || y_min < 4 || x_max > (COLUMS - 3) as i8 || y_max > (ROWS - 20) as i8 {
            return false;
        } else {
            return true;
        }
    }

    /// Whether character `position_of_char_ins` of `inserted`'s answer and
    /// character `position_of_char_in_cross` of `in_crossword`'s answer exist
    /// and are the same.
    pub fn check_char_is_the_same(
        inserted: &CrosswordKeyword,
        in_crossword: &CrosswordKeyword,
        position_of_char_ins: u8,
        position_of_char_in_cross: u8,
    ) -> (res: bool)
        ensures
            res == letters_match(
                *inserted,
                position_of_char_ins as int,
                *in_crossword,
                position_of_char_in_cross as int,
            ),
    {
        let answer_ins = inserted.question.answer.as_str();
        if position_of_char_ins as usize >= answer_ins.unicode_len() {
            return false;
        }
        let answer_cross = in_crossword.question.answer.as_str();
        if position_of_char_in_cross as usize >= answer_cross.unicode_len() {
            return false;
        }
        let char_inserted = answer_ins.get_char(position_of_char_ins as usize);
        let char_in_crossword = answer_cross.get_char(position_of_char_in_cross as usize);
        char_inserted == char_in_crossword
    }

    fn check_crossing(horizontal: &CrosswordKeyword, perpendicular: &CrosswordKeyword) -> (res:
        bool)
        ensures
            res == crossing_conflict(*horizontal, *perpendicular),
    {
        let hx = horizontal.coord_start_x as u16;
        let hy = horizontal.coord_start_y as u16;
        let hl = horizontal.len_of_keyword as u16;
        let px = perpendicular.coord_start_x as u16;
        let py = perpendicular.coord_start_y as u16;
        let pl = perpendicular.len_of_keyword as u16;
        if !(hx <= px + 1 && px <= hx + hl && py <= hy + 1 && hy <= py + pl) {
            return false;
        }
        if px < hx || hy < py || px - hx >= hl || hy - py >= pl {
            return true;
        }
        let the_same_char = Crossword::check_char_is_the_same(
            horizontal,
            perpendicular,
            (px - hx) as u8,
            (hy - py) as u8,
        );
        !the_same_char
    }

    /// Whether `inserted` collides with `in_crossword`.
    pub fn check_collision(inserted: &CrosswordKeyword, in_crossword: &CrosswordKeyword) -> (res:
        bool)
        ensures
            res == collides(*inserted, *in_crossword),
    {
        let ix = inserted.coord_start_x as u16;
        let iy = inserted.coord_start_y as u16;
        let il = inserted.len_of_keyword as u16;
        let cx = in_crossword.coord_start_x as u16;
        let cy = in_crossword.coord_start_y as u16;
        let cl = in_crossword.len_of_keyword as u16;
        match inserted.orientation {
            Orientation::Horizontally => match in_crossword.orientation {
                Orientation::Horizontally => cy == iy && ix <= cx + cl && cx <= ix + il,
                Orientation::Perpendicularly => Crossword::check_crossing(inserted, in_crossword),
            },
            Orientation::Perpendicularly => match in_crossword.orientation {
                Orientation::Horizontally => Crossword::check_crossing(in_crossword, inserted),
                Orientation::Perpendicularly => cx == ix && iy <= cy + cl && cy <= iy + il,
            },
        }
    }

    /// Whether `keyword` collides with any of `questions_taken`.
    fn collides_with_any(keyword: &CrosswordKeyword, questions_taken: &Vec<CrosswordKeyword>) -> (res:
        bool)
        ensures
            res == !no_collision(*keyword, questions_taken@),
    {
        let n = questions_taken.len();
        for k in 0..n
            invariant
                n == questions_taken@.len(),
                forall|j: int| 0 <= j < k ==> !collides(*keyword, #[trigger] questions_taken@[j]),
        {
            if Crossword::check_collision(keyword, &questions_taken[k]) {
                return true;
            }
        }
        false
    }

    /// Lays `question` across `question_in_crossword` at the first character
    /// of its answer that also occurs in `question`'s answer and where the
    /// keyword lies in the board's area without colliding with any of
    /// `questions_taken`; `None` where there is no such character.
    pub fn find_position_of_keyword_by_intersect(
        question: CrosswordKeyword,
        question_in_crossword: &CrosswordKeyword,
        questions_taken: &Vec<CrosswordKeyword>,
    ) -> (res: Option<CrosswordKeyword>)
        requires
            placement_defined(question, *question_in_crossword, questions_taken@),
        ensures
            res == placement(question, *question_in_crossword, questions_taken@),
    {
        let ghost q0 = question;
        let ghost cross = *question_in_crossword;
        let ghost taken = questions_taken@;
        let mut keyword = question;
        let crossword_string = keyword.question.answer.clone();
        let crossword_string_2 = question_in_crossword.question.answer.clone();
        let n = crossword_string_2.as_str().unicode_len();
        let mut i_in_crossword: i32 = 0;
        let mut i: usize = 0;
        while i < n
            invariant
                n == cross.question.answer@.len(),
                q0 == question,
                i <= n,
                i_in_crossword == i,
                crossword_string@ == q0.question.answer@,
                crossword_string_2@ == cross.question.answer@,
                cross == *question_in_crossword,
                taken == questions_taken@,
                keyword.question == q0.question,
                keyword.len_of_keyword == q0.len_of_keyword,
                keyword.user_input == q0.user_input,
                placement_defined(q0, cross, taken),
                forall|j: int| 0 <= j < i ==> !#[trigger] places_at(q0, cross, taken, j),
            decreases n - i,
        {
            let ch = crossword_string_2.as_str().get_char(i);
            let index = find_char(crossword_string.as_str(), ch);
            proof {
                assert(step_ok(q0, cross, taken, i as int));
                lemma_i32_as_i8(i_in_crossword);
                lemma_u8_as_i8(question_in_crossword.coord_start_x);
                lemma_u8_as_i8(question_in_crossword.coord_start_y);
                lemma_u8_as_i8(keyword.len_of_keyword);
            }
            match index {
                Some(index) => {
                    proof {
                        lemma_usize_as_i8(index);
                    }
                    match question_in_crossword.orientation {
                        Orientation::Horizontally => {
                            keyword.orientation = Orientation::Perpendicularly;
                            let x_min = question_in_crossword.coord_start_x as i8
                                + i_in_crossword as i8;
                            let y_min = question_in_crossword.coord_start_y as i8 - index as i8;
                            let x_max = x_min;
                            let y_max = y_min + keyword.len_of_keyword as i8 - 1;
                            if Crossword::check_is_in_frame(x_min, x_max, y_min, y_max) {
                                keyword.coord_start_x = x_min as u8;
                                keyword.coord_start_y = y_min as u8;
                                assert(keyword == candidate(q0, cross, i as int, index as int));
                                if !Crossword::collides_with_any(&keyword, questions_taken) {
                                    proof {
                                        assert(offset_for(q0, cross, i as int) == Some(index as nat));
                                        assert(candidate_box(q0, cross, i as int, index as int) == (x_min as int, x_max as int, y_min as int, y_max as int));
                                        assert(places_at(q0, cross, taken, i as int));
                                        lemma_placement_skip(q0, cross, taken, i as int);
                                    }
                                    return Some(keyword);
                                }
                            }
                        },
                        Orientation::Perpendicularly => {
                            keyword.orientation = Orientation::Horizontally;
                            let x_min = question_in_crossword.coord_start_x as i8 - index as i8;
                            let y_min = question_in_crossword.coord_start_y as i8
                                + i_in_crossword as i8;
                            let x_max = x_min + keyword.len_of_keyword as i8 - 1;
                            let y_max = y_min;
                            if Crossword::check_is_in_frame(x_min, x_max, y_min, y_max) {
                                keyword.coord_start_x = x_min as u8;
                                keyword.coord_start_y = y_min as u8;
                                assert(keyword == candidate(q0, cross, i as int, index as int));
                                if !Crossword::collides_with_any(&keyword, questions_taken) {
                                    proof {
                                        assert(offset_for(q0, cross, i as int) == Some(index as nat));
                                        assert(candidate_box(q0, cross, i as int, index as int) == (x_min as int, x_max as int, y_min as int, y_max as int));
                                        assert(places_at(q0, cross, taken, i as int));
                                        lemma_placement_skip(q0, cross, taken, i as int);
                                    }
                                    return Some(keyword);
                                }
                            }
                        },
                    }
                },
                None => {},
            }
            assert(!places_at(q0, cross, taken, i as int));
            i_in_crossword += 1;
            i = i + 1;
        }
        proof {
            lemma_placement_skip(q0, cross, taken, n as int);
        }
        return None;
    }

    /// Where a new keyword goes: the first one at (`start`, `start`), any
    /// other one across the first of `questions_taken` where it can go.
    pub fn determine_position(
        question: CrosswordKeyword,
        first: bool,
        start: u8,
        questions_taken: &Vec<CrosswordKeyword>,
    ) -> (res: Option<CrosswordKeyword>)
        requires
            byte_len(question.question.answer@) <= 18,
            !first ==> first_placement_defined(question, questions_taken@),
        ensures
            first ==> res == Some(at_start(question, start)),
            !first ==> res == first_placement(question, questions_taken@, 0),
    {
        if first {
            let mut placed = question;
            placed.coord_start_x = start;
            placed.coord_start_y = start;
            return Some(placed);
        } else {
            let n = questions_taken.len();
            for k in 0..n
                invariant
                    n == questions_taken@.len(),
                    !first,
                    first_placement_defined(question, questions_taken@),
                    forall|j: int|
                        0 <= j < k ==> (#[trigger] placement(question, questions_taken@[j], questions_taken@)) is None,
            {
                let question_tym = Crossword::find_position_of_keyword_by_intersect(
                    question.clone(),
                    &questions_taken[k],
                    questions_taken,
                );
                match question_tym {
                    None => {},
                    Some(question_tym) => {
                        proof {
                            lemma_first_placement_skip(question, questions_taken@, k as int);
                        }
                        return Some(question_tym);
                    },
                }
            }
            proof {
                lemma_first_placement_skip(question, questions_taken@, n as int);
            }
            return None;
        }
    }

    /// The crossword that the clues give when the first keyword starts at
    /// (`start`, `start`): keywords laid out in the clues' order and
    /// numbered 1, 2, ...; nothing guessed, no answer, no instructions.
    pub fn new_with_start(questions: Vec<Question>, start: u8) -> (res: Self)
        requires
            5 <= start <= 10,
            layout(questions@, start).len() <= 255,
            forall|k: int| 0 <= k < questions@.len() ==> answer_fits(#[trigger] questions@[k]),
        ensures
            res.keywords() == numbered(layout(questions@, start)),
            res.keywords().len() <= questions@.len(),
            questions@.len() > 0 ==> res.keywords().len() >= 1,
            forall|k: int| 0 <= k < res.keywords().len() ==> placed_ok(#[trigger] res.keywords()[k]),
            forall|k: int| 0 <= k < res.keywords().len() ==> (#[trigger] res.keywords()[k]).user_input is None,
            playable(res.keywords()),
            forall|k: int| 0 <= k < res.keywords().len() ==> (#[trigger] res.keywords()[k]).question.id == k + 1,
            forall|i: int, j: int|
                0 <= i < j < res.keywords().len() ==> !collides(
                    #[trigger] res.keywords()[j],
                    #[trigger] res.keywords()[i],
                ),
            forall|j: int| 1 <= j < res.keywords().len() ==> #[trigger] crosses_earlier(res.keywords(), j),

            res.guessed() == Set::<u8>::empty(),
            res.response() is None,
            res.instructions() is None,
    {
        let mut questions_taken: Vec<CrosswordKeyword> = Vec::new();
        let mut first = true;
        let n = questions.len();
        for k in 0..n
            invariant
                n == questions@.len(),
                5 <= start <= 10,
                forall|j: int| 0 <= j < n ==> answer_fits(#[trigger] questions@[j]),
                first == (k == 0),
                questions_taken@ == layout(questions@.take(k as int), start),
                questions_taken@.len() <= k,
                forall|j: int| 0 <= j < questions_taken@.len() ==> placed_ok(#[trigger] questions_taken@[j]),
        {
            let question = questions[k].clone();
            let crossword_keyword = CrosswordKeyword {
                len_of_keyword: question.answer.as_str().len() as u8,
                question: question,
                coord_start_x: 1,
                coord_start_y: 1,
                orientation: Orientation::Horizontally,
                user_input: None,
            };
            proof {
                assert(answer_fits(questions@[k as int]));
                assert(crossword_keyword == new_keyword(questions@[k as int]));
                lemma_first_placement_placed(crossword_keyword, questions_taken@, 0);
                assert(questions@.take(k + 1).drop_last() =~= questions@.take(k as int));
                assert(questions@.take(k + 1).last() == questions@[k as int]);
            }
            let crossword_keyword = Crossword::determine_position(
                crossword_keyword,
                first,
                start,
                &questions_taken,
            );
            match crossword_keyword {
                None => {},
                Some(crossword_keyword) => {
                    questions_taken.push(crossword_keyword);
                },
            }
            first = false;
        }
        assert(questions@.take(n as int) =~= questions@);
        let questions_taken = Crossword::arrange_indexes_in_order(questions_taken);
        proof {
            lemma_layout_well_placed(questions@, start);
            let l = layout(questions@, start);
            let r = questions_taken@;
            assert forall|k: int| 0 <= k < r.len() implies placed_ok(#[trigger] r[k]) && r[k].user_input is None by {
                assert(placed_ok(l[k]));
                assert(l[k].user_input is None);
            }
            assert forall|k: int| 0 <= k < r.len() implies {
                &&& placed_ok(#[trigger] r[k])
                &&& all_ascii(typed(r[k]))
                &&& byte_len(typed(r[k])) <= byte_len(r[k].question.answer@)
            } by {
                assert(placed_ok(r[k]) && r[k].user_input is None);
                assert(typed(r[k]) =~= Seq::<char>::empty());
            }
            assert forall|i: int, j: int| 0 <= i < j < r.len() implies !collides(
                #[trigger] r[j],
                #[trigger] r[i],
            ) by {
                assert(!collides(l[j], l[i]));
            }
            law_layout_crosses(questions@, start);
            assert forall|j: int| 1 <= j < r.len() implies #[trigger] crosses_earlier(r, j) by {
                assert(crosses_earlier(l, j));
                let i = choose|i: int| 0 <= i < j && crosses(l[j], #[trigger] l[i]);
                assert(crosses(r[j], r[i]));
            }
        }
        let guessed_clues = HashSet::new();
        Self {
            crossword_keywords: questions_taken,
            response_to_user: None,
            instructions_to_user: None,
            guessed_clues: guessed_clues,
        }
    }

    /// The crossword that the clues give, laid out from a first keyword at
    /// (p, p) for a `p` drawn at random from 5 to 10.
    pub fn new(questions: Vec<Question>) -> (res: Self)
        requires
            forall|p: u8| 5 <= p <= 10 ==> (#[trigger] layout(questions@, p)).len() <= 255,
            forall|k: int| 0 <= k < questions@.len() ==> answer_fits(#[trigger] questions@[k]),
        ensures
            exists|p: u8|
                5 <= p <= 10 && res.keywords() == numbered(layout(questions@, p)),
            res.keywords().len() <= questions@.len(),
            questions@.len() > 0 ==> res.keywords().len() >= 1,
            forall|k: int| 0 <= k < res.keywords().len() ==> placed_ok(#[trigger] res.keywords()[k]),
            forall|k: int| 0 <= k < res.keywords().len() ==> (#[trigger] res.keywords()[k]).user_input is None,
            playable(res.keywords()),
            forall|k: int| 0 <= k < res.keywords().len() ==> (#[trigger] res.keywords()[k]).question.id == k + 1,
            forall|i: int, j: int|
                0 <= i < j < res.keywords().len() ==> !collides(
                    #[trigger] res.keywords()[j],
                    #[trigger] res.keywords()[i],
                ),
            forall|j: int| 1 <= j < res.keywords().len() ==> #[trigger] crosses_earlier(res.keywords(), j),

            res.guessed() == Set::<u8>::empty(),
            res.response() is None,
            res.instructions() is None,
    {
        let start = random_in_range(5, 10) as u8;
        Self::new_with_start(questions, start)
    }

    /// How many keywords the crossword has.
    pub fn keyword_count(&self) -> (res: usize)
        ensures
            res == self.keywords().len(),
    {
        self.crossword_keywords.len()
    }

    /// Whether some keyword has the clue number `id`.
    pub fn check_keyword_is_in_crossword(&self, id: usize) -> (res: bool)
        ensures
            res == exists|k: int|
                0 <= k < self.keywords().len() && #[trigger] (self.keywords()[k].question.id as usize)
                    == id,
    {
        let n = self.crossword_keywords.len();
        for k in 0..n
            invariant
                n == self.crossword_keywords@.len(),
                forall|j: int| 0 <= j < k ==> #[trigger] (self.crossword_keywords@[j].question.id as usize) != id,
        {
            if self.crossword_keywords[k].question.id as usize == id {
                return true;
            }
        }
        return false
    }

    /// Sets the answer given to the player.
    pub fn response_to_user(&mut self, message: String)
        ensures
            final(self).response() == Some(message@),
            final(self).keywords() == old(self).keywords(),
            final(self).guessed() == old(self).guessed(),
            final(self).instructions() == old(self).instructions(),
    {
        self.response_to_user = Some(message);
    }

    /// Appends `char` to what was typed for the first keyword numbered
    /// `question_id`, and says whether that input now has more bytes than
    /// the keyword's answer; `false`, with nothing changed, where no keyword
    /// has that number.
    pub fn add_user_input(&mut self, char: char, question_id: usize) -> (res: bool)
        ensures
            final(self).guessed() == old(self).guessed(),
            final(self).response() == old(self).response(),
            final(self).instructions() == old(self).instructions(),
            input_appended(old(self).keywords(), final(self).keywords(), question_id as u64, char),
            res == input_too_long(old(self).keywords(), question_id as u64, char),
    {
        proof {
            lemma_first_with_id(self.crossword_keywords@, question_id as u64);
        }
        let n = self.crossword_keywords.len();
        for k in 0..n
            invariant
                n == self.crossword_keywords@.len(),
                *self == *old(self),
                forall|j: int| 0 <= j < k ==> #[trigger] self.crossword_keywords@[j].question.id != question_id as u64,
        {
            if self.crossword_keywords[k].question.id == question_id as u64 {
                let added = char_to_string(char);
                let mut keyword = self.crossword_keywords[k].clone();
                let input = match &keyword.user_input {
                    Some(input) => {
                        let mut input = input.clone();
                        input.append(added.as_str());
                        input
                    },
                    None => added,
                };
                assert(input@ =~= typed(self.crossword_keywords@[k as int]).push(char));
                let user_input_len = input.as_str().len();
                keyword.user_input = Some(input);
                let answer_len = keyword.question.answer.as_str().len();
                self.crossword_keywords[k] = keyword;
                proof {
                    lemma_first_with_id_at(old(self).keywords(), question_id as u64, k as int);
                }
                if answer_len >= user_input_len {
                    return false;
                } else {
                    return true;
                }
            }
        }
        return false;
    }

    /// Whether appending `char` to what was typed for the first keyword
    /// numbered `question_id` would make that input longer, in bytes, than
    /// the keyword's answer.
    pub fn typing_makes_input_too_long(&self, char: char, question_id: usize) -> (res: bool)
        ensures
            res == input_too_long(self.keywords(), question_id as u64, char),
    {
        proof {
            lemma_first_with_id(self.crossword_keywords@, question_id as u64);
        }
        let n = self.crossword_keywords.len();
        for k in 0..n
            invariant
                n == self.crossword_keywords@.len(),
                forall|j: int| 0 <= j < k ==> #[trigger] self.crossword_keywords@[j].question.id != question_id as u64,
        {
            if self.crossword_keywords[k].question.id == question_id as u64 {
                let keyword = &self.crossword_keywords[k];
                let added = char_to_string(char);
                let input = match &keyword.user_input {
                    Some(input) => {
                        let mut input = input.clone();
                        input.append(added.as_str());
                        input
                    },
                    None => added,
                };
                assert(input@ =~= typed(self.crossword_keywords@[k as int]).push(char));
                proof {
                    lemma_first_with_id_at(self.keywords(), question_id as u64, k as int);
                }
                return keyword.question.answer.as_str().len() < input.as_str().len();
            }
        }
        false
    }

    /// Forgets what was typed for the first keyword numbered `question_id`.
    pub fn clear_user_input(&mut self, question_id: usize)
        ensures
            final(self).guessed() == old(self).guessed(),
            final(self).response() == old(self).response(),
            final(self).instructions() == old(self).instructions(),
            final(self).keywords() == input_cleared(old(self).keywords(), question_id as u64),
    {
        proof {
            lemma_first_with_id(self.crossword_keywords@, question_id as u64);
        }
        let n = self.crossword_keywords.len();
        for k in 0..n
            invariant
                n == self.crossword_keywords@.len(),
                *self == *old(self),
                forall|j: int| 0 <= j < k ==> #[trigger] self.crossword_keywords@[j].question.id != question_id as u64,
        {
            if self.crossword_keywords[k].question.id == question_id as u64 {
                let mut keyword = self.crossword_keywords[k].clone();
                keyword.user_input = None;
                self.crossword_keywords[k] = keyword;
                proof {
                    lemma_first_with_id_at(old(self).keywords(), question_id as u64, k as int);
                    assert(self.keywords() =~= old(self).keywords().update(
                        k as int,
                        CrosswordKeyword { user_input: None, ..old(self).keywords()[k as int] },
                    ));
                }
                return;
            }
        }
    }

    /// Sets the two lines of instructions, each with its count of
    /// non-printing bytes; each line has at most 60 printing bytes.
    pub fn set_instructions_to_user(&mut self, instructions: ((String, u8), (String, u8)))
        requires
            str_len(instructions.0.0@) <= 60 + instructions.0.1,
            str_len(instructions.1.0@) <= 60 + instructions.1.1,
        ensures
            final(self).instructions() == Some(
                ((instructions.0.0@, instructions.0.1), (instructions.1.0@, instructions.1.1)),
            ),
            final(self).keywords() == old(self).keywords(),
            final(self).guessed() == old(self).guessed(),
            final(self).response() == old(self).response(),
    {
        self.instructions_to_user = Some(instructions);
    }

    /// Whether what was typed for the first keyword numbered `id` is its
    /// answer, letter case aside; `false` where nothing was typed or no
    /// keyword has that number.
    pub fn check_user_input_is_correct(&mut self, id: usize) -> (res: bool)
        ensures
            *final(self) == *old(self),
            res == answer_is_correct(old(self).keywords(), id as u64),
    {
        proof {
            lemma_first_with_id(self.crossword_keywords@, id as u64);
        }
        let n = self.crossword_keywords.len();
        for k in 0..n
            invariant
                n == self.crossword_keywords@.len(),
                *self == *old(self),
                forall|j: int| 0 <= j < k ==> #[trigger] self.crossword_keywords@[j].question.id != id as u64,
        {
            let keyword = &self.crossword_keywords[k];
            if keyword.question.id == id as u64 {
                proof {
                    lemma_first_with_id_at(old(self).keywords(), id as u64, k as int);
                }
                match &keyword.user_input {
                    Some(user_input) => {
                        let typed_upper = to_uppercase(user_input.as_str());
                        let answer_upper = to_uppercase(keyword.question.answer.as_str());
                        if typed_upper == answer_upper {
                            return true;
                        } else {
                            return false;
                        }
                    },
                    None => {
                        return false;
                    },
                }
            }
        }
        return false;
    }

    /// Whether the clue numbered `id` was guessed.
    pub fn check_keyword_was_guessed(&self, id: u8) -> (res: bool)
        ensures
            res == self.guessed().contains(id),
    {
        let contains = self.guessed_clues.contains(&id);
        contains
    }

    /// Records that the clue numbered `id` was guessed.
    pub fn add_guessed_keyword(&mut self, id: u8)
        ensures
            final(self).guessed() == old(self).guessed().insert(id),
            final(self).keywords() == old(self).keywords(),
            final(self).response() == old(self).response(),
            final(self).instructions() == old(self).instructions(),
    {
        self.guessed_clues.insert(id);
    }

    /// Whether the clue of every keyword was guessed (clue numbers taken
    /// modulo 256).
    pub fn user_guessed_all_clues(&self) -> (res: bool)
        ensures
            res == forall|k: int|
                0 <= k < self.keywords().len() ==> self.guessed().contains(
                    #[trigger] self.keywords()[k].question.id as u8,
                ),
    {
        let n = self.crossword_keywords.len();
        for k in 0..n
            invariant
                n == self.crossword_keywords@.len(),
                forall|j: int|
                    0 <= j < k ==> self.guessed_clues@.contains(
                        #[trigger] self.crossword_keywords@[j].question.id as u8,
                    ),
        {
            if !self.guessed_clues.contains(&(self.crossword_keywords[k].question.id as u8)) {
                return false;
            }
        }
        return true;
    }

    /// Whether the cell (`col`, `row`) is listed in `positions`.
    fn contains_position(positions: &Vec<(u8, u8)>, col: u8, row: u8) -> (res: bool)
        ensures
            res == lettered_view(positions@).contains((col as int, row as int)),
    {
        let n = positions.len();
        for j in 0..n
            invariant
                n == positions@.len(),
                forall|m: int| 0 <= m < j ==> #[trigger] positions@[m] != (col, row),
        {
            if positions[j].0 == col && positions[j].1 == row {
                assert(positions@[j as int].0 as int == col as int && positions@[j as int].1 as int == row as int);
                return true;
            }
        }
        proof {
            if lettered_view(positions@).contains((col as int, row as int)) {
                let m = choose|m: int|
                    0 <= m < positions@.len() && positions@[m].0 as int == col as int && positions@[m].1 as int
                        == row as int;
                assert(positions@[m] == (col, row));
            }
        }
        false
    }

    /// `text` followed by spaces up to `lenght` bytes.
    fn complete_with_spaces(text: String, lenght: usize) -> (res: String)
        requires
            str_len(text@) <= lenght,
        ensures
            res@ == padded(text@, lenght as int),
    {
        let mut text = text;
        let ghost start = text@;
        let number_of_space = lenght - text.as_str().len();
        for j in 0..number_of_space
            invariant
                text@ == start + spaces(j as int),
        {
            text.append(" ");
            proof {
                reveal_strlit(" ");
            }
            assert(text@ =~= start + spaces(j + 1));
        }
        text
    }

    /// Paints character `i` of `key_word` (with its number and arrow on the
    /// first character); `user_input` is what was typed for it.
    fn insert_char_in_crossword(
        positions_with_leters: &mut Vec<(u8, u8)>,
        i: u8,
        frame: &mut Frame,
        key_word: &CrosswordKeyword,
        user_input: &String,
    )
        requires
            cell_defined(*old(frame), lettered_view(old(positions_with_leters)@), *key_word, i as int),
            user_input@ == typed(*key_word),
        ensures
            frame_applied(
                *old(frame),
                *final(frame),
                cell_writes(lettered_view(old(positions_with_leters)@), *key_word, i as int),
            ),
            lettered_view(final(positions_with_leters)@) == cell_letters(
                lettered_view(old(positions_with_leters)@),
                *key_word,
                i as int,
            ),
    {
        let ghost f0 = *frame;
        let ghost l0 = lettered_view(positions_with_leters@);
        let col = key_word.coord_start_x;
        let row = key_word.coord_start_y;
        let col_id: u8;
        let col_arrow: u8;
        let row_id: u8;
        let row_arrow: u8;
        let arrow: &str;
        let col_char: u8;
        let row_char: u8;
        match key_word.orientation {
            Orientation::Horizontally => {
                col_id = col - 2;
                col_arrow = col - 1;
                row_id = row;
                row_arrow = row;
                col_char = col + i;
                row_char = row;
                arrow = "\x1b[1;36;40m>";
            },
            Orientation::Perpendicularly => {
                col_id = col;
                col_arrow = col;
                row_id = row - 2;
                row_arrow = row - 1;
                col_char = col;
                row_char = row + i;
                arrow = "\x1b[1;36;40mv";
            },
        }
        let ghost marks = if i == 0 {
            Map::<(int, int), Seq<char>>::empty().insert(number_cell(*key_word), number_text(*key_word)).insert(
                arrow_cell(*key_word),
                arrow_text(key_word.orientation),
            )
        } else {
            Map::<(int, int), Seq<char>>::empty()
        };
        if i == 0 {
            let mut out = "\x1b[1;31;40m".to_string();
            out.append(u64_to_string(key_word.question.id).as_str());
            let ghost f1 = *frame;
            set_cell(frame, col_id as usize, row_id as usize, out);
            let ghost f2 = *frame;
            proof {
                lemma_same_shape(f1, f2, map![(col_id as int, row_id as int) => out@]);
            }
            set_cell(frame, col_arrow as usize, row_arrow as usize, arrow.to_string());
            proof {
                let w1 = map![(col_id as int, row_id as int) => out@];
                let w2 = map![(col_arrow as int, row_arrow as int) => arrow@];
                lemma_frame_applied_compose(f1, f2, *frame, w1, w2);
                assert(w1.union_prefer_right(w2) =~= marks);
            }
        } else {
            proof {
                assert(frame_applied(f0, *frame, marks));
            }
        }
        let ghost f3 = *frame;
        proof {
            lemma_same_shape(f0, f3, marks);
        }
        let taken = Crossword::contains_position(positions_with_leters, col_char, row_char);
        assert((col_char as int, row_char as int) == cell_of(*key_word, i as int));
        if key_word.user_input.is_none() && !taken {
            set_cell(frame, col_char as usize, row_char as usize, "\x1b[1;37m\u{2592}".to_string());
            proof {
                let w = map![(col_char as int, row_char as int) => empty_square()];
                lemma_frame_applied_compose(f0, f3, *frame, marks, w);
                assert(marks.union_prefer_right(w) =~= cell_writes(l0, *key_word, i as int));
            }
        } else {
            if !taken {
                if i < user_input.as_str().len() as u8 {
                    let ch = user_input.as_str().get_char(i as usize);
                    set_cell(frame, col_char as usize, row_char as usize, char_to_string(ch));
                    positions_with_leters.push((col_char, row_char));
                    proof {
                        let w = map![(col_char as int, row_char as int) => seq![ch]];
                        lemma_frame_applied_compose(f0, f3, *frame, marks, w);
                        assert(marks.union_prefer_right(w) =~= cell_writes(l0, *key_word, i as int));
                        lemma_lettered_push(old(positions_with_leters)@, (col_char, row_char));
                    }
                } else {
                    set_cell(frame, col_char as usize, row_char as usize, "\x1b[1;37m\u{2592}".to_string());
                    proof {
                        let w = map![(col_char as int, row_char as int) => empty_square()];
                        lemma_frame_applied_compose(f0, f3, *frame, marks, w);
                        assert(marks.union_prefer_right(w) =~= cell_writes(l0, *key_word, i as int));
                    }
                }
            } else {
                proof {
                    assert(marks =~= cell_writes(l0, *key_word, i as int));
                }
            }
        }
    }

    /// Paints the keywords on the board (each character in order, typed
    /// letters kept against later empty squares) and writes, in column 0 at
    /// row `strings_start`, the instructions, the clues and the answer given
    /// to the player.
    pub fn draw(&self, frame: &mut Frame, strings_start: u8)
        requires
            all_defined(*old(frame), self.keywords(), self.keywords().len() as int),
            instructions_fit(self.instructions()),
            in_bounds(*old(frame), 0, strings_start as int),
        ensures
            frame_applied(
                *old(frame),
                *final(frame),
                paint_all(self.keywords(), self.keywords().len() as int).0.insert(
                    (0, strings_start as int),
                    board_text(self.keywords(), self.response(), self.instructions()),
                ),
            ),
    {
        let crossword_keywords = &self.crossword_keywords;
        let mut questions_out = String::new();
        let mut positions_with_leters: Vec<(u8, u8)> = Vec::new();
        let ghost f0 = *frame;
        let ghost kws = self.crossword_keywords@;
        let n = crossword_keywords.len();
        proof {
            assert(frame_applied(f0, *frame, Map::<(int, int), Seq<char>>::empty()));
            assert(lettered_view(positions_with_leters@) =~= Set::<(int, int)>::empty());
            assert(kws.take(0) =~= Seq::<CrosswordKeyword>::empty());
        }
        for k in 0..n
            invariant
                n == kws.len(),
                kws == self.crossword_keywords@,
                kws == crossword_keywords@,
                all_defined(f0, kws, n as int),
                frame_applied(f0, *frame, paint_all(kws, k as int).0),
                lettered_view(positions_with_leters@) == paint_all(kws, k as int).1,
                questions_out@ == clue_lines(kws.take(k as int)),
        {
            let key_word = &crossword_keywords[k];
            let user_input = match &key_word.user_input {
                Some(input) => input.clone(),
                None => String::new(),
            };
            let ghost st = paint_all(kws, k as int);
            proof {
                lemma_all_defined_prefix(f0, kws, n as int, k + 1);
            }
            let len = key_word.len_of_keyword;
            for i in 0..len
                invariant
                    frame_applied(f0, *frame, paint_keyword(st.0, st.1, *key_word, i as int).0),
                    lettered_view(positions_with_leters@) == paint_keyword(st.0, st.1, *key_word, i as int).1,
                    keyword_defined(f0, st.0, st.1, *key_word, len as int),
                    len == key_word.len_of_keyword,
                    user_input@ == typed(*key_word),
            {
                let ghost fb = *frame;
                proof {
                    lemma_keyword_defined_prefix(f0, st.0, st.1, *key_word, len as int, i + 1);
                    lemma_same_shape(f0, fb, paint_keyword(st.0, st.1, *key_word, i as int).0);
                }
                Crossword::insert_char_in_crossword(&mut positions_with_leters, i, frame, key_word, &user_input);
                proof {
                    lemma_frame_applied_compose(
                        f0,
                        fb,
                        *frame,
                        paint_keyword(st.0, st.1, *key_word, i as int).0,
                        cell_writes(paint_keyword(st.0, st.1, *key_word, i as int).1, *key_word, i as int),
                    );
                }
            }
            questions_out.append(u64_to_string(key_word.question.id).as_str());
            questions_out.append(". ");
            questions_out.append(key_word.question.question.as_str());
            questions_out.append("\n");
            proof {
                assert(kws.take(k + 1).drop_last() =~= kws.take(k as int));
                assert(questions_out@ =~= clue_lines(kws.take(k + 1)));
            }
        }
        assert(kws.take(n as int) =~= kws);
        let ghost clues = questions_out@;
        match &self.response_to_user {
            Some(response) => {
                questions_out.append(response.as_str());
                questions_out.append("\n");
            },
            None => {},
        }
        let mut output = String::new();
        let instructions = match &self.instructions_to_user {
            Some(instruction) => {
                let line_1 = &instruction.0;
                let line_2 = &instruction.1;
                let mut line_1_out = Crossword::complete_with_spaces(
                    line_1.0.clone(),
                    (WINDOW_SIZE_X + line_1.1) as usize,
                );
                let line_2_out = Crossword::complete_with_spaces(
                    line_2.0.clone(),
                    (WINDOW_SIZE_X + line_2.1) as usize,
                );
                line_1_out.append(line_2_out.as_str());
                line_1_out
            },
            None => "\n".to_string(),
        };
        output.append(instructions.as_str());
        output.append(" \n\n");
        output.append(questions_out.as_str());
        proof {
            assert(output@ =~= board_text(kws, self.response(), self.instructions()));
        }
        let ghost fb = *frame;
        let ghost text = output@;
        set_cell(frame, 0, strings_start as usize, output);
        proof {
            let w = paint_all(kws, n as int).0;
            let t = map![(0int, strings_start as int) => text];
            lemma_same_shape(f0, fb, w);
            lemma_frame_applied_compose(f0, fb, *frame, w, t);
            assert(w.union_prefer_right(t) =~= w.insert((0, strings_start as int), text));
        }
    }

    /// Whether column `c`, row `r` is a cell of the frame.
    fn cell_exists(frame: &Frame, c: usize, r: usize) -> (res: bool)
        ensures
            res == in_bounds(*frame, c as int, r as int),
    {
        c < frame.len() && r < frame[c].len()
    }

    /// Whether painting character `i` of `key_word` is defined on `frame`,
    /// given the cells listed in `positions` as showing a typed letter
    /// (`typed_bytes` and `typed_chars`: the bytes and the characters typed
    /// for it); where it is, lists the cell if the painting shows a typed
    /// letter there.
    fn cell_can_be_painted(
        positions: &mut Vec<(u8, u8)>,
        i: u8,
        frame: &Frame,
        key_word: &CrosswordKeyword,
        typed_bytes: usize,
        typed_chars: usize,
    ) -> (res: bool)
        requires
            typed_bytes == str_len(typed(*key_word)),
            typed_chars == typed(*key_word).len(),
        ensures
            res == cell_defined(*frame, lettered_view(old(positions)@), *key_word, i as int),
            res ==> lettered_view(final(positions)@) == cell_letters(
                lettered_view(old(positions)@),
                *key_word,
                i as int,
            ),
    {
        let col = key_word.coord_start_x;
        let row = key_word.coord_start_y;
        let col_char: u8;
        let row_char: u8;
        match key_word.orientation {
            Orientation::Horizontally => {
                if col < 2 || col as u16 + i as u16 > 255 {
                    return false;
                }
                if i == 0 && !(Crossword::cell_exists(frame, (col - 2) as usize, row as usize)
                    && Crossword::cell_exists(frame, (col - 1) as usize, row as usize)) {
                    return false;
                }
                col_char = col + i;
                row_char = row;
            },
            Orientation::Perpendicularly => {
                if row < 2 || row as u16 + i as u16 > 255 {
                    return false;
                }
                if i == 0 && !(Crossword::cell_exists(frame, col as usize, (row - 2) as usize)
                    && Crossword::cell_exists(frame, col as usize, (row - 1) as usize)) {
                    return false;
                }
                col_char = col;
                row_char = row + i;
            },
        }
        assert((col_char as int, row_char as int) == cell_of(*key_word, i as int));
        if Crossword::contains_position(positions, col_char, row_char) {
            return true;
        }
        if !Crossword::cell_exists(frame, col_char as usize, row_char as usize) {
            return false;
        }
        if key_word.user_input.is_some() && i < typed_bytes as u8 {
            if i as usize >= typed_chars {
                return false;
            }
            proof {
                lemma_lettered_push(positions@, (col_char, row_char));
            }
            positions.push((col_char, row_char));
        }
        true
    }

    /// Whether `draw` can paint this crossword on `frame` with its text in
    /// column 0 at row `strings_start`: every cell that it paints is a cell
    /// of the frame, every typed letter that it shows exists and the
    /// instruction lines fit their width.
    pub fn can_draw(&self, frame: &Frame, strings_start: u8) -> (res: bool)
        ensures
            res == (all_defined(*frame, self.keywords(), self.keywords().len() as int)
                && instructions_fit(self.instructions()) && in_bounds(*frame, 0, strings_start as int)),
    {
        if !Crossword::cell_exists(frame, 0, strings_start as usize) {
            return false;
        }
        match &self.instructions_to_user {
            Some(instruction) => {
                let line_1 = &instruction.0;
                let line_2 = &instruction.1;
                if line_1.1 > 255 - WINDOW_SIZE_X || line_2.1 > 255 - WINDOW_SIZE_X {
                    return false;
                }
                if line_1.0.as_str().len() > (WINDOW_SIZE_X + line_1.1) as usize
                    || line_2.0.as_str().len() > (WINDOW_SIZE_X + line_2.1) as usize {
                    return false;
                }
            },
            None => {},
        }
        let crossword_keywords = &self.crossword_keywords;
        let ghost kws = self.crossword_keywords@;
        let mut positions: Vec<(u8, u8)> = Vec::new();
        let n = crossword_keywords.len();
        proof {
            assert(lettered_view(positions@) =~= Set::<(int, int)>::empty());
        }
        for k in 0..n
            invariant
                n == kws.len(),
                kws == crossword_keywords@,
                kws == self.keywords(),
                all_defined(*frame, kws, k as int),
                lettered_view(positions@) == paint_all(kws, k as int).1,
        {
            let key_word = &crossword_keywords[k];
            let (typed_bytes, typed_chars) = match &key_word.user_input {
                Some(input) => (input.as_str().len(), input.as_str().unicode_len()),
                None => (0, 0),
            };
            let ghost st = paint_all(kws, k as int);
            let len = key_word.len_of_keyword;
            for i in 0..len
                invariant
                    kws == crossword_keywords@,
                    kws == self.keywords(),
                    *key_word == kws[k as int],
                    0 <= k < n,
                    n == kws.len(),
                    all_defined(*frame, kws, k as int),
                    st == paint_all(kws, k as int),
                    len == key_word.len_of_keyword,
                    typed_bytes == str_len(typed(*key_word)),
                    typed_chars == typed(*key_word).len(),
                    keyword_defined(*frame, st.0, st.1, *key_word, i as int),
                    lettered_view(positions@) == paint_keyword(st.0, st.1, *key_word, i as int).1,
            {
                let ghost lettered = lettered_view(positions@);
                if !Crossword::cell_can_be_painted(&mut positions, i, frame, key_word, typed_bytes, typed_chars) {
                    proof {
                        assert(!cell_defined(*frame, lettered, *key_word, i as int));
                        if all_defined(*frame, kws, n as int) {
                            lemma_all_defined_prefix(*frame, kws, n as int, k + 1);
                            assert(keyword_defined(*frame, st.0, st.1, kws[k as int], len as int));
                            lemma_keyword_defined_prefix(*frame, st.0, st.1, *key_word, len as int, i + 1);
                            assert(keyword_defined(*frame, st.0, st.1, *key_word, i + 1));
                            assert(false);
                        }
                    }
                    return false;
                }
            }
        }
        true
    }
}

} // verus!
