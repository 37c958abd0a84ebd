use crossword::game::{
    choose_clue, copy_frame, finish_if_won, handle_answer_key, prepare_crossword, select_clue,
    AnswerKey, AnswerOutcome, ClueChoice, Message, Preparation, RenderAction, RenderState,
};
use crossword::render::crossword::Crossword;
use crossword::render::frame::new_frame;
use crossword::respose_to_user_and_instructions::{Instructions, ResponseToUser};
use crossword::sqllite_conection::{Question, Questions};

fn clue(id: u64, question: &str, answer: &str) -> Question {
    Question { id, question: question.to_string(), answer: answer.to_string() }
}

fn two_clue_crossword() -> Crossword {
    Crossword::new_with_start(vec![clue(1, "Capital of Italy?", "ROME"), clue(2, "Red planet?", "MARS")], 5)
}

#[test]
fn typed_input_is_checked_without_letter_case() {
    let mut crossword = two_clue_crossword();
    for c in "rome".chars() {
        assert!(!crossword.add_user_input(c, 1));
    }
    assert!(crossword.check_user_input_is_correct(1));
    assert!(!crossword.check_user_input_is_correct(2));
    assert!(!crossword.check_user_input_is_correct(7));
}

#[test]
fn input_longer_than_the_answer_is_reported() {
    let mut crossword = two_clue_crossword();
    for c in "MARS".chars() {
        assert!(!crossword.add_user_input(c, 2));
    }
    assert!(crossword.add_user_input('X', 2));
    assert!(!crossword.add_user_input('X', 9));
}

#[test]
fn clearing_forgets_what_was_typed() {
    let mut crossword = two_clue_crossword();
    for c in "ROME".chars() {
        crossword.add_user_input(c, 1);
    }
    crossword.clear_user_input(1);
    assert!(!crossword.check_user_input_is_correct(1));
}

#[test]
fn guessed_clues_are_remembered() {
    let mut crossword = two_clue_crossword();
    assert!(!crossword.check_keyword_was_guessed(1));
    assert!(!crossword.user_guessed_all_clues());
    crossword.add_guessed_keyword(1);
    assert!(crossword.check_keyword_was_guessed(1));
    assert!(!crossword.user_guessed_all_clues());
    crossword.add_guessed_keyword(2);
    assert!(crossword.user_guessed_all_clues());
}

#[test]
fn keyword_numbers_are_found() {
    let crossword = two_clue_crossword();
    assert!(crossword.check_keyword_is_in_crossword(1));
    assert!(crossword.check_keyword_is_in_crossword(2));
    assert!(!crossword.check_keyword_is_in_crossword(3));
}

#[test]
fn digit_keys_choose_their_clue() {
    assert_eq!(select_clue(Some('3'), 5), Some(3));
    assert_eq!(select_clue(Some('1'), 12), Some(1));
    assert_eq!(select_clue(Some('0'), 12), None);
    assert_eq!(select_clue(Some('7'), 5), None);
    assert_eq!(select_clue(Some('a'), 5), None);
    assert_eq!(select_clue(None, 5), None);
}

#[test]
fn choosing_a_clue() {
    let instructions = Instructions::new();
    let responses = ResponseToUser::new();
    let mut crossword = two_clue_crossword();
    assert!(matches!(choose_clue(&mut crossword, Some('2'), &instructions, &responses), ClueChoice::Chosen(2)));
    assert!(matches!(choose_clue(&mut crossword, Some('5'), &instructions, &responses), ClueChoice::NoSuchClue));
    assert!(matches!(choose_clue(&mut crossword, None, &instructions, &responses), ClueChoice::NoSuchClue));
    crossword.add_guessed_keyword(2);
    assert!(matches!(choose_clue(&mut crossword, Some('2'), &instructions, &responses), ClueChoice::Guessed));
}

#[test]
fn answering_a_clue() {
    let instructions = Instructions::new();
    let responses = ResponseToUser::new();
    let mut crossword = two_clue_crossword();
    for c in "mars".chars() {
        assert!(matches!(
            handle_answer_key(&mut crossword, AnswerKey::Char(c), 2, &instructions, &responses),
            AnswerOutcome::Typed
        ));
    }
    assert!(matches!(handle_answer_key(&mut crossword, AnswerKey::Other, 2, &instructions, &responses), AnswerOutcome::Ignored));
    assert!(matches!(handle_answer_key(&mut crossword, AnswerKey::Enter, 2, &instructions, &responses), AnswerOutcome::Answered));
    assert!(crossword.check_keyword_was_guessed(2));

    handle_answer_key(&mut crossword, AnswerKey::Char('x'), 1, &instructions, &responses);
    assert!(matches!(handle_answer_key(&mut crossword, AnswerKey::Enter, 1, &instructions, &responses), AnswerOutcome::Answered));
    assert!(!crossword.check_keyword_was_guessed(1));
    assert!(matches!(handle_answer_key(&mut crossword, AnswerKey::Esc, 1, &instructions, &responses), AnswerOutcome::Quit));
}

#[test]
fn too_long_input_is_cleared() {
    let instructions = Instructions::new();
    let responses = ResponseToUser::new();
    let mut crossword = two_clue_crossword();
    for c in "ROMEX".chars() {
        handle_answer_key(&mut crossword, AnswerKey::Char(c), 1, &instructions, &responses);
    }
    for c in "ROME".chars() {
        handle_answer_key(&mut crossword, AnswerKey::Char(c), 1, &instructions, &responses);
    }
    assert!(crossword.check_user_input_is_correct(1));
}

#[test]
fn winning_is_announced() {
    let responses = ResponseToUser::new();
    let mut crossword = two_clue_crossword();
    assert!(!finish_if_won(&mut crossword, &responses));
    crossword.add_guessed_keyword(1);
    crossword.add_guessed_keyword(2);
    assert!(finish_if_won(&mut crossword, &responses));
}

#[test]
fn render_steps() {
    let mut state = RenderState { frame_old: new_frame(None), frame_new: new_frame(Some(15)) };
    let mut shown = new_frame(Some(22));
    shown[3][4] = "x".to_string();
    match state.render_step(Message { stop_working: false, frame: Some(shown.clone()) }) {
        RenderAction::Render { previous, force, hide_cursor } => {
            assert_eq!(previous, new_frame(None));
            assert!(!force && !hide_cursor);
        },
        RenderAction::Stop => panic!("no stop was asked for"),
    }
    assert_eq!(state.frame_new, shown);
    assert_eq!(state.frame_old, shown);
    match state.render_step(Message { stop_working: false, frame: None }) {
        RenderAction::Render { previous, force, hide_cursor } => {
            assert_eq!(previous, shown);
            assert!(force && hide_cursor);
        },
        RenderAction::Stop => panic!("no stop was asked for"),
    }
    assert!(matches!(state.render_step(Message { stop_working: true, frame: None }), RenderAction::Stop));
    assert_eq!(copy_frame(&shown), shown);
}

fn store(n: usize) -> Questions {
    let answers = ["ROME", "TIGER", "MARS", "LION", "NIGHT", "ICE", "GREEN", "STAR", "MOON", "RAIN"];
    let rows: Vec<(i64, String, String)> = (0..n)
        .map(|k| (k as i64 + 100, format!("clue {}", k), answers[k % answers.len()].to_lowercase()))
        .collect();
    let mut questions = Questions::new();
    questions.load_questions(rows);
    questions
}

#[test]
fn loading_uppercases_answers_and_counts_modulo_256() {
    let questions = store(3);
    assert_eq!(questions.len, 3);
    assert_eq!(questions.questions[1].answer, "TIGER");
    assert_eq!(questions.questions[1].id, 101);
    let many = store(300);
    assert_eq!(many.len, 44);
    let mut negative = Questions::new();
    negative.load_questions(vec![(-1, "q".to_string(), "a".to_string())]);
    assert_eq!(negative.questions[0].id, u64::MAX);
}

#[test]
fn drawn_order_is_a_permutation() {
    let mut questions = store(8);
    questions.draw_questions_order();
    let mut ids: Vec<u64> = questions.questions.iter().map(|q| q.id).collect();
    ids.sort();
    assert_eq!(ids, (1..=8).collect::<Vec<u64>>());
}

#[test]
fn returned_questions_are_sorted_and_stable() {
    let mut questions = Questions::new();
    questions.questions = vec![clue(3, "c", "C"), clue(1, "a1", "A"), clue(2, "b", "B"), clue(1, "a2", "A")];
    questions.len = 4;
    let first = questions.return_questions(3);
    let texts: Vec<&str> = first.iter().map(|q| q.question.as_str()).collect();
    assert_eq!(texts, vec!["a1", "a2", "b"]);
    assert_eq!(questions.return_questions(0).len(), 0);
}

#[test]
fn prepared_crossword_has_at_least_four_keywords() {
    let mut questions = store(10);
    let mut prepared = None;
    for _ in 0..50 {
        match prepare_crossword(&mut questions) {
            Preparation::Ready(c) => {
                prepared = Some(c);
                break;
            }
            Preparation::TooFewKeywords => {}
            Preparation::AnswerTooLong => panic!("every answer fits"),
        }
    }
    if let Some(c) = prepared {
        assert!(c.crossword_keywords.len() >= 4 && c.crossword_keywords.len() <= 9);
        for (k, kw) in c.crossword_keywords.iter().enumerate() {
            assert_eq!(kw.question.id, k as u64 + 1);
        }
    }
}

#[test]
fn a_drawn_answer_too_long_for_the_board_is_reported() {
    let mut questions = store(9);
    questions.questions[4].answer = "ABCDEFGHIJKLMNOPQRS".to_string();
    assert!(matches!(prepare_crossword(&mut questions), Preparation::AnswerTooLong));
}

#[test]
fn draws_take_numbers_from_those_left() {
    let mut questions = store(4);
    questions.number_by_draws(&vec![2, 0, 1, 0]);
    let ids: Vec<u64> = questions.questions.iter().map(|q| q.id).collect();
    assert_eq!(ids, vec![3, 1, 4, 2]);
    questions.number_by_draws(&vec![0, 0, 0, 0]);
    let ids: Vec<u64> = questions.questions.iter().map(|q| q.id).collect();
    assert_eq!(ids, vec![1, 2, 3, 4]);
    assert_eq!(questions.questions[0].answer, "ROME");
}

#[test]
fn fixed_texts() {
    let instructions = Instructions::new();
    assert_eq!(instructions.chose_clue.1, 14);
    assert_eq!(instructions.end_game.1, 21);
    assert_eq!(instructions.check_answer.0, "Write answer and press \x1b[1;32m'Enter' \x1b[1;37m");
    let responses = ResponseToUser::new();
    assert_eq!(responses.all_correct, "\x1b[1;92mYou Win!!!\x1b[1;37m                                               ");
    assert_eq!(responses.clear.len(), 87);
}

#[test]
fn typing_too_long_is_known_before_typing() {
    let mut crossword = two_clue_crossword();
    for c in "MAR".chars() {
        assert!(!crossword.typing_makes_input_too_long(c, 2));
        crossword.add_user_input(c, 2);
    }
    assert!(!crossword.typing_makes_input_too_long('S', 2));
    crossword.add_user_input('S', 2);
    assert!(crossword.typing_makes_input_too_long('X', 2));
    assert!(crossword.typing_makes_input_too_long('Ä', 1) == false);
    assert!(!crossword.typing_makes_input_too_long('X', 9));
}

#[test]
fn the_answer_given_ends_the_board_text() {
    let mut crossword = two_clue_crossword();
    crossword.response_to_user("first".to_string());
    crossword.response_to_user("second".to_string());
    let mut frame = new_frame(Some(22));
    crossword.draw(&mut frame, 22);
    assert!(frame[0][22].ends_with("second\n"));
    assert!(!frame[0][22].contains("first"));
}
