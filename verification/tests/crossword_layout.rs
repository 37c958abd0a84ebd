use crossword::render::crossword::{Crossword, CrosswordKeyword, Orientation};
use crossword::sqllite_conection::{Question, Questions};

fn test_mocks(
    start_point_insert: (u8, u8),
    orientation_insert: Orientation,
    start_point_in_cross: (u8, u8),
    orientation_in_crossword: Orientation,
) -> (CrosswordKeyword, CrosswordKeyword) {
    let question1 = Question { id: 1, question: "Test question?".to_string(), answer: "kamil".to_string() };
    let question2 = Question { id: 2, question: "Test question?".to_string(), answer: "adam".to_string() };
    let crrossword_key_insert = CrosswordKeyword {
        question: question1,
        coord_start_x: start_point_insert.0,
        coord_start_y: start_point_insert.1,
        len_of_keyword: 5,
        orientation: orientation_insert,
        user_input: None,
    };
    let crrossword_key_in_crossword = CrosswordKeyword {
        question: question2,
        coord_start_x: start_point_in_cross.0,
        coord_start_y: start_point_in_cross.1,
        len_of_keyword: 4,
        orientation: orientation_in_crossword,
        user_input: None,
    };
    (crrossword_key_insert, crrossword_key_in_crossword)
}

/// Eight clues, as a store holds them, with answers in upper case.
fn store_of_eight() -> Questions {
    let rows: Vec<(i64, String, String)> = vec![
        (11, "First letters?".to_string(), "abc".to_string()),
        (12, "Capital of Italy?".to_string(), "rome".to_string()),
        (13, "Opposite of day?".to_string(), "night".to_string()),
        (14, "Frozen water?".to_string(), "ice".to_string()),
        (15, "A large feline?".to_string(), "tiger".to_string()),
        (16, "Red planet?".to_string(), "mars".to_string()),
        (17, "King of the jungle?".to_string(), "lion".to_string()),
        (18, "Color of grass?".to_string(), "green".to_string()),
    ];
    let mut questions = Questions::new();
    questions.load_questions(rows);
    questions
}

#[test]
fn test_check_is_in_frame() {
    let result = Crossword::check_is_in_frame(4, 27, 4, 20);
    assert!(result);

    let result = Crossword::check_is_in_frame(-1, 5, 4, 9);
    assert!(!result);
}

#[test]
fn test_new_crossword() {
    let mut questions = store_of_eight();
    questions.draw_questions_order();
    let vec_questions = questions.return_questions(7);
    assert_eq!(vec_questions.len(), 7);
    let crossword = Crossword::new(vec_questions);
    println!("{:?}", crossword.crossword_keywords);
    println!("keywords: {:?}", crossword.crossword_keywords.len());
    assert!(true);
}

#[test]
fn test_find_position_of_keyword_by_intersect() {
    let positions_taken: Vec<CrosswordKeyword> = Vec::new();
    let mocks = test_mocks((5, 5), Orientation::Horizontally, (4, 4), Orientation::Horizontally);
    let result = Crossword::find_position_of_keyword_by_intersect(mocks.1, &mocks.0, &positions_taken);
    let result = result.unwrap();
    let result_orientation = match result.orientation {
        Orientation::Perpendicularly => true,
        Orientation::Horizontally => false,
    };
    assert!(result_orientation);
    assert_eq!(result.coord_start_x, 6);
    assert_eq!(result.coord_start_y, 5);

    let positions_taken: Vec<CrosswordKeyword> = Vec::new();
    let mocks = test_mocks((5, 5), Orientation::Perpendicularly, (4, 4), Orientation::Perpendicularly);
    let result = Crossword::find_position_of_keyword_by_intersect(mocks.1, &mocks.0, &positions_taken);
    let result = result.unwrap();
    let result_orientation = match result.orientation {
        Orientation::Horizontally => true,
        Orientation::Perpendicularly => false,
    };
    assert!(result_orientation);
    assert_eq!(result.coord_start_x, 5);
    assert_eq!(result.coord_start_y, 6);

    let question_to_negative_test_case =
        Question { id: 1, question: "Test question?".to_string(), answer: "XXXXXX".to_string() };
    let crrossword_key_insert = CrosswordKeyword {
        question: question_to_negative_test_case,
        coord_start_x: 1,
        coord_start_y: 1,
        len_of_keyword: 5,
        orientation: Orientation::Horizontally,
        user_input: None,
    };
    let positions_taken: Vec<CrosswordKeyword> = Vec::new();
    let mocks = test_mocks((5, 5), Orientation::Horizontally, (4, 4), Orientation::Horizontally);
    let result = Crossword::find_position_of_keyword_by_intersect(mocks.1, &crrossword_key_insert, &positions_taken);
    let result = match result {
        Some(_result) => false,
        None => true,
    };
    assert!(result);
}

#[test]
fn test_check_collision_no_collision() {
    let tuple_keywords = test_mocks((4, 5), Orientation::Horizontally, (4, 6), Orientation::Horizontally);
    let result = Crossword::check_collision(&tuple_keywords.1, &tuple_keywords.0);
    assert!(!result);

    let tuple_keywords = test_mocks((4, 4), Orientation::Horizontally, (10, 4), Orientation::Horizontally);
    let result = Crossword::check_collision(&tuple_keywords.1, &tuple_keywords.0);
    assert!(!result);

    let tuple_keywords = test_mocks((4, 4), Orientation::Perpendicularly, (5, 4), Orientation::Perpendicularly);
    let result = Crossword::check_collision(&tuple_keywords.1, &tuple_keywords.0);
    assert!(!result);

    let tuple_keywords = test_mocks((4, 4), Orientation::Perpendicularly, (4, 10), Orientation::Perpendicularly);
    let result = Crossword::check_collision(&tuple_keywords.1, &tuple_keywords.0);
    assert!(!result);

    let tuple_keywords = test_mocks((4, 4), Orientation::Horizontally, (6, 6), Orientation::Perpendicularly);
    let result = Crossword::check_collision(&tuple_keywords.1, &tuple_keywords.0);
    assert!(!result);

    let tuple_keywords = test_mocks((4, 4), Orientation::Perpendicularly, (6, 4), Orientation::Horizontally);
    let result = Crossword::check_collision(&tuple_keywords.1, &tuple_keywords.0);
    assert!(!result);

    let tuple_keywords = test_mocks((4, 4), Orientation::Horizontally, (5, 4), Orientation::Perpendicularly);
    let result = Crossword::check_collision(&tuple_keywords.1, &tuple_keywords.0);
    assert!(!result);

    let tuple_keywords = test_mocks((8, 8), Orientation::Horizontally, (4, 4), Orientation::Perpendicularly);
    let result = Crossword::check_collision(&tuple_keywords.1, &tuple_keywords.0);
    assert!(!result);
}

#[test]
fn test_check_collision_collision() {
    let tuple_keywords = test_mocks((4, 5), Orientation::Horizontally, (4, 5), Orientation::Horizontally);
    let result = Crossword::check_collision(&tuple_keywords.1, &tuple_keywords.0);
    assert!(result);

    let tuple_keywords = test_mocks((4, 4), Orientation::Horizontally, (9, 4), Orientation::Horizontally);
    let result = Crossword::check_collision(&tuple_keywords.1, &tuple_keywords.0);
    assert!(result);

    let tuple_keywords = test_mocks((4, 5), Orientation::Perpendicularly, (4, 5), Orientation::Perpendicularly);
    let result = Crossword::check_collision(&tuple_keywords.1, &tuple_keywords.0);
    assert!(result);

    let tuple_keywords = test_mocks((4, 4), Orientation::Perpendicularly, (4, 9), Orientation::Perpendicularly);
    let result = Crossword::check_collision(&tuple_keywords.1, &tuple_keywords.0);
    assert!(result);

    let tuple_keywords = test_mocks((4, 4), Orientation::Horizontally, (4, 4), Orientation::Perpendicularly);
    let result = Crossword::check_collision(&tuple_keywords.1, &tuple_keywords.0);
    assert!(result);

    let tuple_keywords = test_mocks((4, 4), Orientation::Perpendicularly, (4, 4), Orientation::Horizontally);
    let result = Crossword::check_collision(&tuple_keywords.1, &tuple_keywords.0);
    assert!(result);
}

#[test]
fn test_check_char() {
    let tuple_keywords = test_mocks((4, 5), Orientation::Horizontally, (4, 5), Orientation::Horizontally);
    let result = Crossword::check_char_is_the_same(&tuple_keywords.0, &tuple_keywords.1, 1, 2);
    assert!(result);
    let result = Crossword::check_char_is_the_same(&tuple_keywords.0, &tuple_keywords.1, 2, 2);
    assert!(!result);
}

#[test]
fn test_correct_len() {
    let actual_len = 0;
    let mut questions = Questions::new();
    assert_eq!(questions.len, actual_len);
    let actual_len = 8;
    questions = store_of_eight();
    assert_eq!(questions.len, actual_len);
}

#[test]
fn draw_question_order() {
    let mut question = store_of_eight();
    let previous_questions = question.clone();
    question.draw_questions_order();
    let mut questions_vec = Vec::new();
    for item in question.questions {
        questions_vec.push(item.id);
    }
    let mut questions_vec_pre = Vec::new();
    for item in previous_questions.questions {
        questions_vec_pre.push(item.id);
    }
    let mut correct = true;
    for item in &questions_vec {
        if *item < 1 {
            correct = false;
        }
    }
    assert_ne!(questions_vec_pre, questions_vec);
    assert!(correct);
    println!("pre: {:?}", questions_vec_pre);
    println!("draw: {:?}", questions_vec);
}

#[test]
fn test_o_vec() {
    let mut questions = store_of_eight();
    questions.draw_questions_order();
    let vec_questions = questions.return_questions(7);
    assert_eq!(vec_questions.len(), 7);
    println!("{:?}", vec_questions)
}
