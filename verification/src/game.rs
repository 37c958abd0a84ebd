//! The game's decisions between terminal events: what the render thread does
//! with a message, which clue a key chooses, what a key does while an answer
//! is typed, when the game is won, and how a crossword is drawn from the
//! clue store.

use vstd::prelude::*;
use vstd::string::*;
use crate::render::crossword::{
    answer_fits, answer_is_correct, input_appended, input_cleared, input_too_long, layout,
    law_clearing_keeps_the_board_playable, law_typing_keeps_the_board_playable, numbered, playable,
    Crossword,
};
use crate::render::frame::{cell, frame_applied, in_bounds, Frame};
use crate::respose_to_user_and_instructions::{Instructions, ResponseToUser};
use crate::sqllite_conection::{sort_by_id, Question, Questions};
use crate::text::{decimal, str_len, u64_to_string};

verus! {

/// What the game sends to the render thread: stop, or a frame to show (none:
/// show the current one again, in full).
pub struct Message {
    pub stop_working: bool,
    pub frame: Option<Frame>,
}

/// The frames that the render thread knows: the one shown last and the one
/// to show.
pub struct RenderState {
    pub frame_old: Frame,
    pub frame_new: Frame,
}

/// What the render thread does next.
pub enum RenderAction {
    /// Stop rendering.
    Stop,
    /// Show `frame_new`, printing the cells that differ from `previous`, or
    /// every cell where `force`; hide the cursor first where `hide_cursor`.
    Render { previous: Frame, force: bool, hide_cursor: bool },
}

/// `a` and `b` have the same shape and the same cells.
pub open spec fn same_frame(a: Frame, b: Frame) -> bool {
    frame_applied(a, b, Map::empty())
}

/// A copy of the frame.
pub fn copy_frame(frame: &Frame) -> (res: Frame)
    ensures
        same_frame(*frame, res),
{
    let mut res: Frame = Vec::new();
    let n = frame.len();
    for c in 0..n
        invariant
            n == frame@.len(),
            res@.len() == c,
            forall|x: int| 0 <= x < c ==> (#[trigger] res@[x])@.len() == frame@[x]@.len(),
            forall|x: int, y: int|
                #![trigger cell(res, x, y)]
                0 <= x < c && 0 <= y < frame@[x]@.len() ==> cell(res, x, y) == cell(*frame, x, y),
    {
        let m = frame[c].len();
        let mut column: Vec<String> = Vec::new();
        for r in 0..m
            invariant
                m == frame@[c as int]@.len(),
                c < frame@.len(),
                column@.len() == r,
                forall|y: int| 0 <= y < r ==> (#[trigger] column@[y])@ == frame@[c as int]@[y]@,
        {
            column.push(frame[c][r].clone());
        }
        let ghost before = res;
        let ghost col_v = column;
        res.push(column);
        proof {
            assert forall|x: int, y: int|
                #![trigger cell(res, x, y)]
                0 <= x < c + 1 && 0 <= y < frame@[x]@.len() implies cell(res, x, y) == cell(*frame, x, y) by {
                if x < c {
                    assert(res@[x] == before@[x]);
                    assert(cell(before, x, y) == cell(*frame, x, y));
                } else {
                    assert(res@[x] == col_v);
                    assert(col_v@[y]@ == frame@[x]@[y]@);
                }
            }
            assert forall|x: int| 0 <= x < c + 1 implies (#[trigger] res@[x])@.len() == frame@[x]@.len() by {
                if x < c {
                    assert(res@[x] == before@[x]);
                }
            }
        }
    }
    res
}

impl RenderState {
    /// Takes a message: stop; or remember the new frame and show it,
    /// comparing with the last one shown; or show the current frame again in
    /// full, with the cursor hidden.
    pub fn render_step(&mut self, message: Message) -> (res: RenderAction)
        ensures
            message.stop_working ==> res is Stop && *final(self) == *old(self),
            !message.stop_working ==> match message.frame {
                Some(f) => {
                    &&& final(self).frame_new == f
                    &&& same_frame(f, final(self).frame_old)
                    &&& res matches RenderAction::Render { previous, force, hide_cursor } && same_frame(
                        old(self).frame_old,
                        previous,
                    ) && !force && !hide_cursor
                },
                None => {
                    &&& *final(self) == *old(self)
                    &&& res matches RenderAction::Render { previous, force, hide_cursor } && same_frame(
                        old(self).frame_old,
                        previous,
                    ) && force && hide_cursor
                },
            },
    {
        if message.stop_working {
            return RenderAction::Stop;
        }
        match message.frame {
            Some(frame) => {
                self.frame_new = frame;
                let previous = copy_frame(&self.frame_old);
                self.frame_old = copy_frame(&self.frame_new);
                RenderAction::Render { previous, force: false, hide_cursor: false }
            },
            None => {
                let previous = copy_frame(&self.frame_old);
                RenderAction::Render { previous, force: true, hide_cursor: true }
            },
        }
    }
}

/// The first clue number in `i..=n` whose decimal writing starts with `c`.
pub open spec fn clue_from(c: char, i: int, n: int) -> Option<usize>
    decreases n + 1 - i,
{
    if i < 1 || i > n {
        None
    } else if decimal(i as u64)[0] == c {
        Some(i as usize)
    } else {
        clue_from(c, i + 1, n)
    }
}

/// The clue that the key chooses: the first number in `1..=n` whose
/// decimal writing starts with the key's character; none for a key that is
/// no character.
pub open spec fn chosen_clue(key: Option<char>, n: int) -> Option<usize> {
    match key {
        Some(c) => clue_from(c, 1, n),
        None => None,
    }
}

proof fn lemma_decimal_nonempty(n: u64)
    ensures
        decimal(n).len() >= 1,
    decreases n,
{
    if n >= 10 {
        lemma_decimal_nonempty(n / 10);
    }
}

/// A digit key `d` from 1 to 9 chooses the clue numbered `d`, where there is
/// one.
pub proof fn law_digit_chooses_its_clue(d: u64, n: int)
    requires
        1 <= d <= 9,
        d <= n,
    ensures
        chosen_clue(Some(crate::text::digit_char(d)), n) == Some(d as usize),
{
    lemma_digit_scan(d, 1, n);
}

proof fn lemma_digit_scan(d: u64, i: int, n: int)
    requires
        1 <= d <= 9,
        d <= n,
        1 <= i <= d,
    ensures
        clue_from(crate::text::digit_char(d), i, n) == Some(d as usize),
    decreases d - i,
{
    assert(decimal(i as u64) == seq![crate::text::digit_char(i as u64)]);
    if i < d {
        lemma_digit_scan(d, i + 1, n);
    }
}

/// The clue that a key chooses among `number_of_clues` clues.
pub fn select_clue(key: Option<char>, number_of_clues: usize) -> (res: Option<usize>)
    ensures
        res == chosen_clue(key, number_of_clues as int),
{
    match key {
        None => None,
        Some(c) => {
            let mut i: usize = 1;
            while i <= number_of_clues
                invariant
                    key == Some(c),
                    1 <= i,
                    i <= number_of_clues + 1,
                    clue_from(c, 1, number_of_clues as int) == clue_from(c, i as int, number_of_clues as int),
                decreases number_of_clues + 1 - i,
            {
                let digits = u64_to_string(i as u64);
                proof {
                    lemma_decimal_nonempty(i as u64);
                }
                if digits.as_str().get_char(0) == c {
                    return Some(i);
                }
                if i == number_of_clues {
                    assert(clue_from(c, i + 1, number_of_clues as int) == None::<usize>);
                    return None;
                }
                i = i + 1;
            }
            None
        },
    }
}

/// What the player did with a key while choosing a clue.
pub enum ClueChoice {
    /// The clue was guessed already.
    Guessed,
    /// The clue with this number is to be answered.
    Chosen(usize),
    /// No clue has the key's number.
    NoSuchClue,
}

/// The two lines of instructions as the crossword keeps them.
pub open spec fn lines(a: (String, u8), b: (String, u8)) -> Option<((Seq<char>, u8), (Seq<char>, u8))> {
    Some(((a.0@, a.1), (b.0@, b.1)))
}

/// The instruction line has at most 60 printing bytes.
pub open spec fn line_fits(l: (String, u8)) -> bool {
    str_len(l.0@) <= 60 + l.1
}

/// Takes a key pressed while choosing a clue: clears the answer shown,
/// then either says that the clue was guessed already, asks for the answer
/// to the chosen clue, or says that no clue has that number.
pub fn choose_clue(
    crossword: &mut Crossword,
    key: Option<char>,
    instructions: &Instructions,
    response_to_user: &ResponseToUser,
) -> (res: ClueChoice)
    requires
        (chosen_clue(key, old(crossword).keywords().len() as int) matches Some(i) && !old(
            crossword,
        ).guessed().contains(i as u8)) ==> line_fits(instructions.check_answer) && line_fits(
            instructions.end_game,
        ),
    ensures
        final(crossword).keywords() == old(crossword).keywords(),
        final(crossword).guessed() == old(crossword).guessed(),
        match chosen_clue(key, old(crossword).keywords().len() as int) {
            Some(i) => if old(crossword).guessed().contains(i as u8) {
                &&& res is Guessed
                &&& final(crossword).response() == Some(response_to_user.clue_was_guessed@)
                &&& final(crossword).instructions() == old(crossword).instructions()
            } else {
                &&& res == ClueChoice::Chosen(i)
                &&& final(crossword).response() == Some(response_to_user.clear@)
                &&& final(crossword).instructions() == lines(
                    instructions.check_answer,
                    instructions.end_game,
                )
            },
            None => {
                &&& res is NoSuchClue
                &&& final(crossword).response() == Some(response_to_user.not_clue_with_number@)
                &&& final(crossword).instructions() == old(crossword).instructions()
            },
        },
{
    crossword.response_to_user(response_to_user.clear.clone());
    let n = crossword.keyword_count();
    match select_clue(key, n) {
        Some(i) => {
            if crossword.check_keyword_was_guessed(i as u8) {
                crossword.response_to_user(response_to_user.clue_was_guessed.clone());
                ClueChoice::Guessed
            } else {
                crossword.set_instructions_to_user(
                    (
                        (instructions.check_answer.0.clone(), instructions.check_answer.1),
                        (instructions.end_game.0.clone(), instructions.end_game.1),
                    ),
                );
                ClueChoice::Chosen(i)
            }
        },
        None => {
            crossword.response_to_user(response_to_user.not_clue_with_number.clone());
            ClueChoice::NoSuchClue
        },
    }
}

/// A key pressed while an answer is typed.
pub enum AnswerKey {
    Char(char),
    Enter,
    Esc,
    Other,
}

/// What a key did while an answer is typed.
pub enum AnswerOutcome {
    /// A character was typed: the board is to be shown again.
    Typed,
    /// The key does nothing.
    Ignored,
    /// The answer was checked: back to choosing a clue.
    Answered,
    /// The player quits the game.
    Quit,
}

/// Takes a key pressed while the answer to clue `i` is typed: a character is
/// added to the input (which is cleared, with a warning and the answering
/// instructions, when it gets longer than the answer); Enter checks the
/// input, marks the clue guessed where it is right and clears it where it
/// is wrong; Esc quits.
pub fn handle_answer_key(
    crossword: &mut Crossword,
    key: AnswerKey,
    i: usize,
    instructions: &Instructions,
    response_to_user: &ResponseToUser,
) -> (res: AnswerOutcome)
    requires
        (key matches AnswerKey::Char(c) && input_too_long(old(crossword).keywords(), i as u64, c))
            ==> line_fits(instructions.check_answer) && line_fits(instructions.end_game),
    ensures
        match key {
            AnswerKey::Char(c) => {
                &&& res is Typed
                &&& final(crossword).guessed() == old(crossword).guessed()
                &&& if input_too_long(old(crossword).keywords(), i as u64, c) {
                    &&& final(crossword).keywords() == input_cleared(old(crossword).keywords(), i as u64)
                    &&& final(crossword).response() == Some(response_to_user.to_long_answer@)
                    &&& final(crossword).instructions() == lines(
                        instructions.check_answer,
                        instructions.end_game,
                    )
                } else {
                    &&& input_appended(old(crossword).keywords(), final(crossword).keywords(), i as u64, c)
                    &&& final(crossword).response() == old(crossword).response()
                    &&& final(crossword).instructions() == old(crossword).instructions()
                }
            },
            AnswerKey::Enter => {
                &&& res is Answered
                &&& final(crossword).instructions() == old(crossword).instructions()
                &&& if answer_is_correct(old(crossword).keywords(), i as u64) {
                    &&& final(crossword).guessed() == old(crossword).guessed().insert(i as u8)
                    &&& final(crossword).keywords() == old(crossword).keywords()
                    &&& final(crossword).response() == Some(response_to_user.correct_answer@)
                } else {
                    &&& final(crossword).guessed() == old(crossword).guessed()
                    &&& final(crossword).keywords() == input_cleared(old(crossword).keywords(), i as u64)
                    &&& final(crossword).response() == Some(response_to_user.in_correct_answer@)
                }
            },
            AnswerKey::Esc => res is Quit && *final(crossword) == *old(crossword),
            AnswerKey::Other => res is Ignored && *final(crossword) == *old(crossword),
        },
        playable(old(crossword).keywords()) && (key matches AnswerKey::Char(c) ==> (c as u32) < 128)
            ==> playable(final(crossword).keywords()),
{
    match key {
        AnswerKey::Char(ch) => {
            let ghost before = crossword.keywords();
            let to_long_user_input = crossword.add_user_input(ch, i);
            if to_long_user_input {
                let ghost mid = crossword.keywords();
                crossword.clear_user_input(i);
                proof {
                    crate::render::crossword::law_clear_forgets_typing(before, mid, i as u64, ch);
                    if playable(before) {
                        law_clearing_keeps_the_board_playable(before, i as u64);
                    }
                }
                crossword.response_to_user(response_to_user.to_long_answer.clone());
                crossword.set_instructions_to_user(
                    (
                        (instructions.check_answer.0.clone(), instructions.check_answer.1),
                        (instructions.end_game.0.clone(), instructions.end_game.1),
                    ),
                );
            } else {
                proof {
                    if playable(before) && (ch as u32) < 128 {
                        law_typing_keeps_the_board_playable(before, crossword.keywords(), i as u64, ch);
                    }
                }
            }
            AnswerOutcome::Typed
        },
        AnswerKey::Enter => {
            let input_is_correct = crossword.check_user_input_is_correct(i);
            if input_is_correct {
                crossword.add_guessed_keyword(i as u8);
                crossword.response_to_user(response_to_user.correct_answer.clone());
            } else {
                proof {
                    if playable(crossword.keywords()) {
                        law_clearing_keeps_the_board_playable(crossword.keywords(), i as u64);
                    }
                }
                crossword.clear_user_input(i);
                crossword.response_to_user(response_to_user.in_correct_answer.clone());
            }
            AnswerOutcome::Answered
        },
        AnswerKey::Esc => AnswerOutcome::Quit,
        AnswerKey::Other => AnswerOutcome::Ignored,
    }
}

/// Where every clue was guessed, says so to the player.
pub fn finish_if_won(crossword: &mut Crossword, response_to_user: &ResponseToUser) -> (res: bool)
    ensures
        res == forall|k: int|
            0 <= k < old(crossword).keywords().len() ==> old(crossword).guessed().contains(
                #[trigger] old(crossword).keywords()[k].question.id as u8,
            ),
        final(crossword).keywords() == old(crossword).keywords(),
        final(crossword).guessed() == old(crossword).guessed(),
        final(crossword).instructions() == old(crossword).instructions(),
        res ==> final(crossword).response() == Some(response_to_user.all_correct@),
        !res ==> final(crossword).response() == old(crossword).response(),
{
    if crossword.user_guessed_all_clues() {
        crossword.response_to_user(response_to_user.all_correct.clone());
        true
    } else {
        false
    }
}

/// What preparing a crossword gave.
pub enum Preparation {
    /// A crossword with at least four keywords.
    Ready(Crossword),
    /// The crossword laid out has fewer than four keywords.
    TooFewKeywords,
    /// One of the nine clues drawn has an answer longer than the board takes.
    AnswerTooLong,
}

/// The nine clues drawn: the first nine in the order of their numbers.
pub open spec fn drawn_nine(questions: Questions) -> Seq<Question> {
    sort_by_id(questions.questions@).take(9)
}

/// Whether every answer has at most 18 bytes.
fn answers_fit(questions: &Vec<Question>) -> (res: bool)
    ensures
        res == forall|k: int| 0 <= k < questions@.len() ==> answer_fits(#[trigger] questions@[k]),
{
    let n = questions.len();
    for k in 0..n
        invariant
            n == questions@.len(),
            forall|j: int| 0 <= j < k ==> answer_fits(#[trigger] questions@[j]),
    {
        if questions[k].answer.as_str().as_bytes().len() > 18 {
            assert(!answer_fits(questions@[k as int]));
            return false;
        }
    }
    true
}

/// Draws the clues' order and lays out a crossword from the first nine clues
/// in that order; keeps it where it has at least four keywords.
pub fn prepare_crossword(questions: &mut Questions) -> (res: Preparation)
    requires
        old(questions).questions@.len() <= old(questions).len,
        9 <= old(questions).questions@.len(),
    ensures
        final(questions).len == old(questions).len,
        final(questions).questions@.len() == old(questions).questions@.len(),
        forall|k: int|
            0 <= k < final(questions).questions@.len() ==> {
                &&& (#[trigger] final(questions).questions@[k]).question == old(questions).questions@[k].question
                &&& final(questions).questions@[k].answer == old(questions).questions@[k].answer
                &&& 1 <= final(questions).questions@[k].id <= final(questions).len
            },
        forall|k: int, l: int|
            0 <= k < l < final(questions).questions@.len() ==> (#[trigger] final(questions).questions@[k]).id
                != (#[trigger] final(questions).questions@[l]).id,
        (res is AnswerTooLong) == exists|k: int|
            0 <= k < 9 && !answer_fits(#[trigger] drawn_nine(*final(questions))[k]),
        !(res is AnswerTooLong) ==> exists|p: u8|
            #![trigger layout(drawn_nine(*final(questions)), p)]
            5 <= p <= 10 && {
                let kws = numbered(layout(drawn_nine(*final(questions)), p));
                match res {
                    Preparation::Ready(c) => c.keywords() == kws && kws.len() >= 4,
                    _ => kws.len() < 4,
                }
            },
        res matches Preparation::Ready(c) ==> c.guessed() == Set::<u8>::empty() && c.response() is None
            && c.instructions() is None && playable(c.keywords()),
{
    questions.draw_questions_order();
    let chosen = questions.return_questions(9);
    proof {
        crate::sqllite_conection::law_sort_by_id(questions.questions@);
    }
    let ghost chosen_v = chosen@;
    assert(chosen_v == drawn_nine(*questions));
    if !answers_fit(&chosen) {
        return Preparation::AnswerTooLong;
    }
    proof {
        assert forall|p: u8| 5 <= p <= 10 implies (#[trigger] layout(chosen_v, p)).len() <= 255 by {
            crate::render::crossword::lemma_layout_well_placed(chosen_v, p);
        }
    }
    let crossword = Crossword::new(chosen);
    let ghost p = choose|p: u8| 5 <= p <= 10 && crossword.keywords() == numbered(layout(chosen_v, p));
    assert(layout(drawn_nine(*questions), p) == layout(chosen_v, p));
    if crossword.keyword_count() < 4 {
        Preparation::TooFewKeywords
    } else {
        Preparation::Ready(crossword)
    }
}

} // verus!
