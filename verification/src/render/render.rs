//! Which cells of a frame are printed: those that differ from the frame
//! shown last, or all of them.

use vstd::prelude::*;
use crate::render::frame::{cell, in_bounds, Frame};

verus! {

/// The frames are compared cell by cell: they have the same number of
/// columns, at least one, and first columns of the same length.
pub open spec fn compared(last: Frame, curr: Frame) -> bool {
    &&& curr@.len() == last@.len()
    &&& curr@.len() > 0
    &&& curr@[0]@.len() == last@[0]@.len()
}

/// Every column of `curr` has a counterpart in `last` at least as long, where
/// the frames are compared.
pub open spec fn comparable(last: Frame, curr: Frame) -> bool {
    compared(last, curr) ==> forall|x: int| 0 <= x < curr@.len() ==> (#[trigger] curr@[x])@.len() <= last@[x]@.len()
}

/// Cell (`x`, `y`) of `curr` is printed: where the frames are not compared,
/// where printing is forced, or where it differs from the same cell of
/// `last`.
pub open spec fn printed(last: Frame, curr: Frame, force: bool, x: int, y: int) -> bool {
    !compared(last, curr) || force || cell(curr, x, y) != cell(last, x, y)
}

/// `a` comes before `b` column by column, row by row.
pub open spec fn before(a: (usize, usize), b: (usize, usize)) -> bool {
    a.0 < b.0 || (a.0 == b.0 && a.1 < b.1)
}

/// Every cell is printed where printing is forced or the frames differ in
/// their number of columns or in the length of their first column; where
/// neither, a cell is printed exactly when it differs from the same cell of
/// the frame shown last.
pub proof fn law_what_is_printed(last: Frame, curr: Frame, force: bool, x: int, y: int)
    ensures
        force ==> printed(last, curr, force, x, y),
        curr@.len() != last@.len() ==> printed(last, curr, force, x, y),
        curr@.len() > 0 && curr@[0]@.len() != last@[0]@.len() ==> printed(last, curr, force, x, y),
        !force && curr@.len() == last@.len() && curr@.len() > 0 && curr@[0]@.len() == last@[0]@.len() ==> (
        printed(last, curr, force, x, y) <==> curr@[x]@[y]@ != last@[x]@[y]@),
{
}

/// Whether `cells_to_print` can compare the two frames.
pub fn can_compare(last: &Frame, curr: &Frame) -> (res: bool)
    ensures
        res == comparable(*last, *curr),
{
    if !(curr.len() == last.len() && curr.len() > 0 && curr[0].len() == last[0].len()) {
        return true;
    }
    let n = curr.len();
    for x in 0..n
        invariant
            n == curr@.len(),
            n == last@.len(),
            compared(*last, *curr),
            forall|j: int| 0 <= j < x ==> (#[trigger] curr@[j])@.len() <= last@[j]@.len(),
    {
        if curr[x].len() > last[x].len() {
            assert(curr@[x as int]@.len() > last@[x as int]@.len());
            return false;
        }
    }
    true
}

/// The cells of `curr` to print, column by column and row by row: all of
/// them where `force` or where the frames are not compared, else those that
/// differ from `last`.
pub fn cells_to_print(last: &Frame, curr: &Frame, force: bool) -> (res: Vec<(usize, usize)>)
    requires
        comparable(*last, *curr),
    ensures
        forall|i: int|
            0 <= i < res@.len() ==> in_bounds(*curr, (#[trigger] res@[i]).0 as int, res@[i].1 as int)
                && printed(*last, *curr, force, res@[i].0 as int, res@[i].1 as int),
        forall|x: int, y: int|
            in_bounds(*curr, x, y) && printed(*last, *curr, force, x, y) ==> exists|i: int|
                0 <= i < res@.len() && #[trigger] res@[i] == (x as usize, y as usize),
        forall|i: int, j: int| 0 <= i < j < res@.len() ==> before(#[trigger] res@[i], #[trigger] res@[j]),
{
    let mut res: Vec<(usize, usize)> = Vec::new();
    let same = curr.len() == last.len() && curr.len() > 0 && curr[0].len() == last[0].len();
    let n = curr.len();
    for x in 0..n
        invariant
            n == curr@.len(),
            same == compared(*last, *curr),
            comparable(*last, *curr),
            forall|i: int|
                0 <= i < res@.len() ==> (#[trigger] res@[i]).0 < x && in_bounds(
                    *curr,
                    res@[i].0 as int,
                    res@[i].1 as int,
                ) && printed(*last, *curr, force, res@[i].0 as int, res@[i].1 as int),
            forall|c: int, r: int|
                0 <= c < x && in_bounds(*curr, c, r) && printed(*last, *curr, force, c, r) ==> exists|i: int|
                    0 <= i < res@.len() && #[trigger] res@[i] == (c as usize, r as usize),
            forall|i: int, j: int| 0 <= i < j < res@.len() ==> before(#[trigger] res@[i], #[trigger] res@[j]),
    {
        let m = curr[x].len();
        for y in 0..m
            invariant
                n == curr@.len(),
                x < n,
                m == curr@[x as int]@.len(),
                same == compared(*last, *curr),
                comparable(*last, *curr),
                forall|i: int|
                    0 <= i < res@.len() ==> ((#[trigger] res@[i]).0 < x || (res@[i].0 == x && res@[i].1 < y))
                        && in_bounds(*curr, res@[i].0 as int, res@[i].1 as int) && printed(
                        *last,
                        *curr,
                        force,
                        res@[i].0 as int,
                        res@[i].1 as int,
                    ),
                forall|c: int, r: int|
                    (0 <= c < x || (c == x && r < y)) && in_bounds(*curr, c, r) && printed(
                        *last,
                        *curr,
                        force,
                        c,
                        r,
                    ) ==> exists|i: int| 0 <= i < res@.len() && #[trigger] res@[i] == (c as usize, r as usize),
                forall|i: int, j: int| 0 <= i < j < res@.len() ==> before(#[trigger] res@[i], #[trigger] res@[j]),
        {
            let print = if same {
                assert(curr@[x as int]@.len() <= last@[x as int]@.len());
                force || curr[x][y] != last[x][y]
            } else {
                true
            };
            if print {
                let ghost old_res = res@;
                res.push((x, y));
                proof {
                    assert forall|c: int, r: int|
                        (0 <= c < x || (c == x && r < y + 1)) && in_bounds(*curr, c, r) && printed(
                            *last,
                            *curr,
                            force,
                            c,
                            r,
                        ) implies exists|i: int| 0 <= i < res@.len() && #[trigger] res@[i] == (c as usize, r as usize) by {
                        if c == x && r == y {
                            assert(res@[old_res.len() as int] == (c as usize, r as usize));
                        } else {
                            let i = choose|i: int| 0 <= i < old_res.len() && #[trigger] old_res[i] == (c as usize, r as usize);
                            assert(res@[i] == old_res[i]);
                        }
                    }
                    assert forall|i: int, j: int| 0 <= i < j < res@.len() implies before(#[trigger] res@[i], #[trigger] res@[j]) by {
                        if j < old_res.len() {
                            assert(res@[i] == old_res[i] && res@[j] == old_res[j]);
                        } else {
                            assert(res@[i] == old_res[i]);
                        }
                    }
                    assert forall|i: int| 0 <= i < res@.len() implies ((#[trigger] res@[i]).0 < x || (res@[i].0 == x
                        && res@[i].1 < y + 1)) && in_bounds(*curr, res@[i].0 as int, res@[i].1 as int) && printed(
                        *last,
                        *curr,
                        force,
                        res@[i].0 as int,
                        res@[i].1 as int,
                    ) by {
                        if i < old_res.len() {
                            assert(res@[i] == old_res[i]);
                        }
                    }
                }
            } else {
                proof {
                    assert(!printed(*last, *curr, force, x as int, y as int));
                }
            }
        }
    }
    res
}

} // verus!
