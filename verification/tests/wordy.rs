use katas::wordy::{answer, solve, try_answer, Token};

fn token(text: &str) -> Token {
    Token { text: text.chars().collect(), number: text.parse::<i32>().ok() }
}

#[test]
fn just_a_number() {
    assert_eq!(answer("What is 5?"), Some(5));
}

#[test]
fn addition() {
    assert_eq!(answer("What is 1 plus 1?"), Some(2));
    assert_eq!(answer("What is 53 plus 2?"), Some(55));
    assert_eq!(answer("What is -1 plus -10?"), Some(-11));
    assert_eq!(answer("What is 123 plus 45678?"), Some(45801));
}

#[test]
fn subtraction() {
    assert_eq!(answer("What is 4 minus -12?"), Some(16));
}

#[test]
fn multiplication() {
    assert_eq!(answer("What is -3 multiplied by 25?"), Some(-75));
}

#[test]
fn division() {
    assert_eq!(answer("What is 33 divided by -3?"), Some(-11));
    assert_eq!(answer("What is -7 divided by 2?"), Some(-3));
}

#[test]
fn operations_are_applied_from_left_to_right() {
    assert_eq!(answer("What is 1 plus 1 plus 1?"), Some(3));
    assert_eq!(answer("What is 1 plus 5 minus -2?"), Some(8));
    assert_eq!(answer("What is 20 minus 4 minus 13?"), Some(3));
    assert_eq!(answer("What is 17 minus 6 plus 3?"), Some(14));
    assert_eq!(answer("What is 2 multiplied by -2 multiplied by 3?"), Some(-12));
    assert_eq!(answer("What is -3 plus 7 multiplied by -2?"), Some(-8));
    assert_eq!(answer("What is -12 divided by 2 divided by -3?"), Some(2));
}

#[test]
fn powers() {
    assert_eq!(answer("What is 2 raised to the 5th power?"), Some(32));
    assert_eq!(answer("What is 7 raised to the 0th power?"), Some(1));
    assert_eq!(answer("What is -1 raised to the 1st power?"), Some(-1));
    assert_eq!(answer("What is 1 plus 2 raised to the 3rd power?"), Some(27));
}

#[test]
fn what_follows_a_power_is_not_read() {
    assert_eq!(answer("What is 2 raised to the 2nd power plus 100?"), Some(4));
    assert_eq!(answer("What is 2 raised to the 3rd?"), Some(8));
}

#[test]
fn questions_that_are_not_understood() {
    assert_eq!(answer("What is 52 cubed?"), None);
    assert_eq!(answer("Who is the President of the United States?"), None);
    assert_eq!(answer("What is 1 plus?"), None);
    assert_eq!(answer("What is 1 plus plus 2?"), None);
    assert_eq!(answer("What is 1 2 plus?"), None);
    assert_eq!(answer("What is plus 1 2?"), None);
    assert_eq!(answer("What is 3 multiplied 4?"), None);
    assert_eq!(answer("What is 3 divided by?"), None);
    assert_eq!(answer("What is?"), None);
    assert_eq!(answer("What is 5"), None);
    assert_eq!(answer("what is 5?"), None);
    assert_eq!(answer(" What is 5?"), None);
    assert_eq!(answer("What is 5?\n"), None);
    assert_eq!(answer("What is 5\n?"), None);
}

#[test]
fn the_question_mark_that_counts_is_the_last() {
    assert_eq!(answer("What is 5 ?"), Some(5));
    assert_eq!(answer("What is 5??"), None);
}

#[test]
fn questions_that_cannot_be_computed() {
    assert_eq!(try_answer("What is ?"), None);
    assert_eq!(try_answer("What is    ?"), None);
    assert_eq!(try_answer("What is 2147483647 plus 1?"), None);
    assert_eq!(try_answer("What is -2147483648 minus 1?"), None);
    assert_eq!(try_answer("What is 65536 multiplied by 65536?"), None);
    assert_eq!(try_answer("What is 1 divided by 0?"), None);
    assert_eq!(try_answer("What is -2147483648 divided by -1?"), None);
    assert_eq!(try_answer("What is 2 raised by 3?"), None);
    assert_eq!(try_answer("What is 2 raised to a power?"), None);
    assert_eq!(try_answer("What is 2 raised to the nth power?"), None);
    assert_eq!(try_answer("What is 70000 raised to the 2nd power?"), None);
    assert_eq!(try_answer("What is -1 raised to the 2nd power?"), None);
}

#[test]
fn try_answer_answers_what_answer_does() {
    assert_eq!(try_answer("What is 4 plus 5?"), Some(Some(9)));
    assert_eq!(try_answer("What is 4 and 5?"), Some(None));
    assert_eq!(try_answer("How much is 4 plus 5?"), Some(None));
    assert_eq!(try_answer("What is 65536 raised to the 1st power?"), Some(Some(65536)));
    assert_eq!(try_answer("What is 65535 multiplied by 32768?"), Some(Some(2147450880)));
}

#[test]
fn solving_words_that_were_read_elsewhere() {
    let words = vec![token("6"), token("divided"), token("by"), token("4")];
    assert_eq!(solve(&words), Some(Some(1)));
    assert_eq!(solve(&vec![token("6"), token("by")]), Some(None));
    assert_eq!(solve(&Vec::new()), None);
    assert_eq!(solve(&vec![token("3"), token("raised"), token("to"), token("the"), token("4")]), Some(Some(81)));
}
