use crossword::render::crossword::{Crossword, CrosswordKeyword, Orientation};
use crossword::render::frame::{new_frame, Draw};
use crossword::render::render::{can_compare, cells_to_print};
use crossword::render::welcome_frame::Welcome;
use crossword::render::win_frame::Win;
use crossword::respose_to_user_and_instructions::{Instructions, ResponseToUser};
use crossword::sqllite_conection::Question;

fn clue(id: u64, question: &str, answer: &str) -> Question {
    Question { id, question: question.to_string(), answer: answer.to_string() }
}

fn keyword(answer: &str, x: u8, y: u8, orientation: Orientation) -> CrosswordKeyword {
    CrosswordKeyword {
        question: clue(1, "q", answer),
        coord_start_x: x,
        coord_start_y: y,
        len_of_keyword: answer.len() as u8,
        orientation,
        user_input: None,
    }
}

fn cells(k: &CrosswordKeyword) -> Vec<(u8, u8)> {
    (0..k.len_of_keyword)
        .map(|i| match k.orientation {
            Orientation::Horizontally => (k.coord_start_x + i, k.coord_start_y),
            Orientation::Perpendicularly => (k.coord_start_x, k.coord_start_y + i),
        })
        .collect()
}

fn letter(k: &CrosswordKeyword, cell: (u8, u8)) -> char {
    let i = match k.orientation {
        Orientation::Horizontally => cell.0 - k.coord_start_x,
        Orientation::Perpendicularly => cell.1 - k.coord_start_y,
    };
    k.question.answer.chars().nth(i as usize).unwrap()
}

fn sample_clues() -> Vec<Question> {
    vec![
        clue(1, "Capital of Italy?", "ROME"),
        clue(2, "A large feline?", "TIGER"),
        clue(3, "Red planet?", "MARS"),
        clue(4, "King of the jungle?", "LION"),
        clue(5, "Opposite of day?", "NIGHT"),
        clue(6, "Frozen water?", "ICE"),
    ]
}

#[test]
fn layout_keeps_keywords_on_the_board_apart_and_crossing() {
    let crossword = Crossword::new_with_start(sample_clues(), 5);
    let kws = &crossword.crossword_keywords;
    assert!(kws.len() >= 1);
    assert_eq!((kws[0].coord_start_x, kws[0].coord_start_y), (5, 5));
    for (k, kw) in kws.iter().enumerate() {
        assert_eq!(kw.question.id, k as u64 + 1);
        for (x, y) in cells(kw) {
            assert!(x >= 4 && x <= 27 && y >= 4 && y <= 20);
        }
    }
    for j in 0..kws.len() {
        for i in 0..j {
            assert!(!Crossword::check_collision(&kws[j], &kws[i]));
            assert!(!Crossword::check_collision(&kws[i], &kws[j]));
        }
    }
    for j in 1..kws.len() {
        let mut crosses = false;
        for i in 0..j {
            for c in cells(&kws[j]) {
                if cells(&kws[i]).contains(&c) && letter(&kws[j], c) == letter(&kws[i], c) {
                    crosses = true;
                }
            }
        }
        assert!(crosses);
    }
}

#[test]
fn layout_places_the_second_keyword_on_the_first_common_letter() {
    let clues = vec![clue(7, "a", "ROME"), clue(9, "b", "MARS")];
    let crossword = Crossword::new_with_start(clues, 5);
    let kws = &crossword.crossword_keywords;
    assert_eq!(kws.len(), 2);
    // ROME lies at (5..8, 5); the first letter of ROME in MARS is M, at index 2.
    assert!(matches!(kws[1].orientation, Orientation::Perpendicularly));
    assert_eq!((kws[1].coord_start_x, kws[1].coord_start_y), (7, 5));
    assert_eq!(kws[0].question.id, 1);
    assert_eq!(kws[1].question.id, 2);
}

#[test]
fn layout_leaves_out_a_keyword_without_common_letter() {
    let clues = vec![clue(1, "a", "ROME"), clue(2, "b", "XYZ")];
    let crossword = Crossword::new_with_start(clues, 5);
    assert_eq!(crossword.crossword_keywords.len(), 1);
}

#[test]
fn new_starts_the_first_keyword_at_a_random_diagonal_cell() {
    for _ in 0..20 {
        let crossword = Crossword::new(sample_clues());
        let first = &crossword.crossword_keywords[0];
        assert_eq!(first.coord_start_x, first.coord_start_y);
        assert!(first.coord_start_x >= 5 && first.coord_start_x <= 10);
    }
}

#[test]
fn new_with_no_clues_is_empty() {
    let crossword = Crossword::new(Vec::new());
    assert_eq!(crossword.crossword_keywords.len(), 0);
    assert!(crossword.user_guessed_all_clues());
}

#[test]
fn collision_is_symmetric() {
    let a = keyword("KAMIL", 4, 4, Orientation::Horizontally);
    for (x, y, o) in [
        (4, 4, Orientation::Perpendicularly),
        (5, 4, Orientation::Perpendicularly),
        (9, 4, Orientation::Horizontally),
        (10, 4, Orientation::Horizontally),
        (6, 6, Orientation::Perpendicularly),
    ] {
        let b = keyword("ADAM", x, y, o);
        assert_eq!(Crossword::check_collision(&a, &b), Crossword::check_collision(&b, &a));
    }
}

#[test]
fn arrange_numbers_keywords_in_order() {
    let kws = vec![
        keyword("A", 4, 4, Orientation::Horizontally),
        keyword("B", 6, 6, Orientation::Horizontally),
        keyword("C", 8, 8, Orientation::Horizontally),
    ];
    let arranged = Crossword::arrange_indexes_in_order(kws);
    let ids: Vec<u64> = arranged.iter().map(|k| k.question.id).collect();
    assert_eq!(ids, vec![1, 2, 3]);
    assert_eq!(arranged[2].question.answer, "C");
}

#[test]
fn find_position_uses_byte_offsets() {
    // 'A' is the second character of "ĄA" but starts at byte 2.
    let taken: Vec<CrosswordKeyword> = Vec::new();
    let cross = keyword("KAMIL", 5, 10, Orientation::Horizontally);
    let mut q = keyword("ĄA", 1, 1, Orientation::Horizontally);
    q.len_of_keyword = 3;
    let placed = Crossword::find_position_of_keyword_by_intersect(q, &cross, &taken).unwrap();
    assert_eq!((placed.coord_start_x, placed.coord_start_y), (6, 8));
}

#[test]
fn new_frame_shapes() {
    let full = new_frame(None);
    assert_eq!(full.len(), 31);
    assert!(full.iter().all(|c| c.len() == 41));
    let game = new_frame(Some(22));
    assert_eq!(game.len(), 31);
    assert_eq!(game[0].len(), 23);
    assert!(game[1..].iter().all(|c| c.len() == 22));
    assert!(game.iter().all(|c| c.iter().all(|s| s == "\x1b[1;39;40m ")));
}

#[test]
fn draw_paints_keywords_and_text() {
    let mut crossword = Crossword::new_with_start(vec![clue(1, "Capital of Italy?", "ROME")], 5);
    let instructions = Instructions::new();
    let responses = ResponseToUser::new();
    crossword.set_instructions_to_user((instructions.chose_clue.clone(), instructions.end_game.clone()));
    crossword.response_to_user(responses.correct_answer.clone());
    assert!(!crossword.add_user_input('r', 1));
    let mut frame = new_frame(Some(22));
    crossword.draw(&mut frame, 22);
    assert_eq!(frame[3][5], "\x1b[1;31;40m1");
    assert_eq!(frame[4][5], "\x1b[1;36;40m>");
    assert_eq!(frame[5][5], "r");
    assert_eq!(frame[6][5], "\x1b[1;37m▒");
    assert_eq!(frame[8][5], "\x1b[1;37m▒");
    assert_eq!(frame[9][5], "\x1b[1;39;40m ");
    let line_1 = format!("{:<width$}", instructions.chose_clue.0, width = 60 + 14);
    let line_2 = format!("{:<width$}", instructions.end_game.0, width = 60 + 21);
    let expected = format!(
        "{}{} \n\n1. Capital of Italy?\n{}\n",
        line_1, line_2, responses.correct_answer
    );
    assert_eq!(frame[0][22], expected);
}

#[test]
fn draw_without_instructions_starts_with_an_empty_line() {
    let crossword = Crossword::new_with_start(vec![clue(1, "Q", "ROME")], 5);
    let mut frame = new_frame(Some(22));
    crossword.draw(&mut frame, 22);
    assert_eq!(frame[0][22], "\n \n\n1. Q\n");
}

#[test]
fn welcome_paints_red_blocks_and_the_word() {
    let mut frame = new_frame(Some(15));
    Welcome::new().draw(&mut frame);
    assert_eq!(frame[6][8], "\x1b[1;91m█");
    assert_eq!(frame[24][10], "\x1b[1;91m█");
    assert_eq!(frame[7][9], "\x1b[1;39;40m ");
    assert_eq!(frame[0][15], format!("{}CROSSWORD", " ".repeat(10)));
}

#[test]
fn win_paints_green_blocks() {
    let mut frame = new_frame(Some(22));
    Win::new().draw(&mut frame);
    assert_eq!(frame[6][8], "\x1b[1;92m█");
    assert_eq!(frame[25][12], "\x1b[1;92m█");
    assert_eq!(frame[6][7], "\x1b[1;39;40m ");
}

#[test]
fn can_draw_accepts_a_laid_out_crossword_on_the_game_frame() {
    let crossword = Crossword::new_with_start(sample_clues(), 5);
    let frame = new_frame(Some(22));
    assert!(crossword.can_draw(&frame, 22));
    assert!(!crossword.can_draw(&frame, 23));
}

#[test]
fn can_draw_refuses_a_frame_too_small_for_the_board() {
    let crossword = Crossword::new_with_start(sample_clues(), 5);
    let frame = new_frame(Some(4));
    assert!(!crossword.can_draw(&frame, 3));
}

#[test]
fn can_draw_refuses_typed_letters_that_the_board_cannot_show() {
    let mut crossword = Crossword::new_with_start(vec![clue(1, "Capital of Italy?", "ROME")], 5);
    crossword.crossword_keywords[0].user_input = Some("ÄÖ".to_string());
    let frame = new_frame(Some(22));
    assert!(!crossword.can_draw(&frame, 22));
    crossword.crossword_keywords[0].user_input = Some("RO".to_string());
    assert!(crossword.can_draw(&frame, 22));
}

#[test]
fn pictures_fit_the_frames_they_are_drawn_on() {
    assert!(Welcome::new().fits_on(&new_frame(Some(15))));
    assert!(!Welcome::new().fits_on(&new_frame(Some(10))));
    assert!(Win::new().fits_on(&new_frame(Some(22))));
    assert!(!Win::new().fits_on(&new_frame(Some(10))));
}

#[test]
fn only_changed_cells_are_printed_unless_forced() {
    let last = new_frame(Some(3));
    let mut curr = new_frame(Some(3));
    curr[2][1] = "X".to_string();
    curr[0][3] = "Y".to_string();
    assert!(can_compare(&last, &curr));
    assert_eq!(cells_to_print(&last, &curr, false), vec![(0, 3), (2, 1)]);
    let all = cells_to_print(&last, &curr, true);
    assert_eq!(all.len(), 31 * 3 + 1);
    assert_eq!(all[0], (0, 0));
    assert_eq!(all[4], (1, 0));
}

#[test]
fn frames_of_another_shape_are_printed_in_full() {
    let last = new_frame(None);
    let curr = new_frame(Some(3));
    assert!(can_compare(&last, &curr));
    assert_eq!(cells_to_print(&last, &curr, false).len(), 31 * 3 + 1);
    let mut short = new_frame(Some(3));
    short[5].pop();
    assert!(!can_compare(&short, &curr));
}

#[test]
fn first_keyword_starts_at_the_start_cell() {
    let kw = keyword("ROME", 1, 1, Orientation::Horizontally);
    let placed = Crossword::determine_position(kw, true, 7, &vec![]).unwrap();
    assert_eq!((placed.coord_start_x, placed.coord_start_y), (7, 7));
    assert_eq!(placed.orientation, Orientation::Horizontally);
    let first = Crossword::new_with_start(vec![clue(1, "q", "ROME")], 7).crossword_keywords;
    let across = keyword("MARS", 1, 1, Orientation::Horizontally);
    let second = Crossword::determine_position(across, false, 7, &first).unwrap();
    assert_eq!(second.orientation, Orientation::Perpendicularly);
    assert_eq!((second.coord_start_x, second.coord_start_y), (7, 5));
}

#[test]
fn layout_crosses_on_common_letters_with_non_ascii_answers() {
    let clues = vec![
        clue(1, "a", "ŻABA"),
        clue(2, "b", "BÓBR"),
        clue(3, "c", "ŁABĘDŹ"),
        clue(4, "d", "RÓŻA"),
    ];
    let crossword = Crossword::new_with_start(clues, 5);
    let kws = &crossword.crossword_keywords;
    for j in 1..kws.len() {
        let mut crosses = false;
        for i in 0..j {
            for c in cells(&kws[j]) {
                if cells(&kws[i]).contains(&c) {
                    let a = letter_at_byte(&kws[j], c);
                    let b = letter_at_byte(&kws[i], c);
                    if a.is_some() && a == b {
                        crosses = true;
                    }
                }
            }
        }
        assert!(crosses);
    }
}

fn letter_at_byte(k: &CrosswordKeyword, cell: (u8, u8)) -> Option<char> {
    let i = match k.orientation {
        Orientation::Horizontally => cell.0 - k.coord_start_x,
        Orientation::Perpendicularly => cell.1 - k.coord_start_y,
    };
    k.question.answer.chars().nth(i as usize)
}
