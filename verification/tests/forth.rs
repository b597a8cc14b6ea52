use katas::forth::{Error, Forth, Word};

fn word(raw: &str) -> Word {
    Word {
        raw: raw.chars().collect(),
        text: raw.to_lowercase().chars().collect(),
        number: raw.parse::<i32>().ok(),
    }
}

#[test]
fn no_input_no_stack() {
    assert_eq!(Vec::<i32>::new(), Forth::new().stack());
}

#[test]
fn numbers_just_get_pushed_onto_the_stack() {
    let mut f = Forth::new();
    assert!(f.eval("1 2 3 4 5").is_ok());
    assert_eq!(vec![1, 2, 3, 4, 5], f.stack());
}

#[test]
fn negative_numbers_are_numbers() {
    let mut f = Forth::new();
    assert!(f.eval("-1 -2 -3").is_ok());
    assert_eq!(vec![-1, -2, -3], f.stack());
}

#[test]
fn any_white_space_separates_words() {
    let mut f = Forth::new();
    assert!(f.eval("  1\t2\n3   ").is_ok());
    assert_eq!(vec![1, 2, 3], f.stack());
}

#[test]
fn can_add_two_numbers() {
    let mut f = Forth::new();
    assert!(f.eval("1 2 +").is_ok());
    assert_eq!(vec![3], f.stack());
}

#[test]
fn addition_error() {
    let mut f = Forth::new();
    assert_eq!(Err(Error::StackUnderflow), f.eval("1 +"));
    assert_eq!(vec![1], f.stack());
    assert_eq!(Err(Error::StackUnderflow), Forth::new().eval("+"));
}

#[test]
fn can_subtract_two_numbers() {
    let mut f = Forth::new();
    assert!(f.eval("3 4 -").is_ok());
    assert_eq!(vec![-1], f.stack());
}

#[test]
fn subtraction_error() {
    assert_eq!(Err(Error::StackUnderflow), Forth::new().eval("1 -"));
    assert_eq!(Err(Error::StackUnderflow), Forth::new().eval("-"));
}

#[test]
fn can_multiply_two_numbers() {
    let mut f = Forth::new();
    assert!(f.eval("2 4 *").is_ok());
    assert_eq!(vec![8], f.stack());
}

#[test]
fn multiplication_error() {
    assert_eq!(Err(Error::StackUnderflow), Forth::new().eval("1 *"));
    assert_eq!(Err(Error::StackUnderflow), Forth::new().eval("*"));
}

#[test]
fn can_divide_two_numbers() {
    let mut f = Forth::new();
    assert!(f.eval("12 3 /").is_ok());
    assert_eq!(vec![4], f.stack());
}

#[test]
fn performs_integer_division() {
    let mut f = Forth::new();
    assert!(f.eval("8 3 /").is_ok());
    assert_eq!(vec![2], f.stack());
}

#[test]
fn division_rounds_towards_zero() {
    let mut f = Forth::new();
    assert!(f.eval("-7 2 / 7 -2 / -7 -2 /").is_ok());
    assert_eq!(vec![-3, -3, 3], f.stack());
}

#[test]
fn division_error() {
    assert_eq!(Err(Error::StackUnderflow), Forth::new().eval("1 /"));
    assert_eq!(Err(Error::StackUnderflow), Forth::new().eval("/"));
}

#[test]
fn errors_if_dividing_by_zero() {
    let mut f = Forth::new();
    assert_eq!(Err(Error::DivisionByZero), f.eval("4 0 /"));
    assert_eq!(vec![4, 0], f.stack());
}

#[test]
fn addition_and_subtraction() {
    let mut f = Forth::new();
    assert!(f.eval("1 2 + 4 -").is_ok());
    assert_eq!(vec![-1], f.stack());
}

#[test]
fn multiplication_and_division() {
    let mut f = Forth::new();
    assert!(f.eval("2 4 * 3 /").is_ok());
    assert_eq!(vec![2], f.stack());
}

#[test]
fn dup() {
    let mut f = Forth::new();
    assert!(f.eval("1 dup").is_ok());
    assert_eq!(vec![1, 1], f.stack());
    assert!(f.eval("2 dup").is_ok());
    assert_eq!(vec![1, 1, 2, 2], f.stack());
    assert_eq!(Err(Error::StackUnderflow), Forth::new().eval("dup"));
}

#[test]
fn drop() {
    let mut f = Forth::new();
    assert!(f.eval("1 drop").is_ok());
    assert_eq!(Vec::<i32>::new(), f.stack());
    assert!(f.eval("1 2 drop").is_ok());
    assert_eq!(vec![1], f.stack());
    assert_eq!(Err(Error::StackUnderflow), Forth::new().eval("drop"));
}

#[test]
fn swap() {
    let mut f = Forth::new();
    assert!(f.eval("1 2 swap").is_ok());
    assert_eq!(vec![2, 1], f.stack());
    assert!(f.eval("3 swap").is_ok());
    assert_eq!(vec![2, 3, 1], f.stack());
    assert_eq!(Err(Error::StackUnderflow), Forth::new().eval("1 swap"));
    assert_eq!(Err(Error::StackUnderflow), Forth::new().eval("swap"));
}

#[test]
fn over() {
    let mut f = Forth::new();
    assert!(f.eval("1 2 over").is_ok());
    assert_eq!(vec![1, 2, 1], f.stack());
    assert!(f.eval("3 over").is_ok());
    assert_eq!(vec![1, 2, 1, 3, 1], f.stack());
    assert_eq!(Err(Error::StackUnderflow), Forth::new().eval("1 over"));
    assert_eq!(Err(Error::StackUnderflow), Forth::new().eval("over"));
}

#[test]
fn words_are_read_without_regard_to_case() {
    let mut f = Forth::new();
    assert!(f.eval("1 DUP Dup dup").is_ok());
    assert_eq!(vec![1, 1, 1, 1], f.stack());
    assert!(f.eval("SWAP 3 Over DROP").is_ok());
    assert_eq!(vec![1, 1, 1, 1, 3], f.stack());
}

#[test]
fn an_evaluation_stops_at_the_first_error() {
    let mut f = Forth::new();
    assert_eq!(Err(Error::StackUnderflow), f.eval("1 2 + + 5 6"));
    assert_eq!(vec![3], f.stack());
}

#[test]
fn a_definition_must_end_with_a_semicolon() {
    let mut f = Forth::new();
    assert!(f.eval("7").is_ok());
    assert_eq!(Err(Error::InvalidWord), f.eval(": foo 1"));
    assert_eq!(Err(Error::InvalidWord), f.eval(":"));
    assert_eq!(vec![7], f.stack());
}

#[test]
fn a_definition_evaluates_its_body() {
    let mut f = Forth::new();
    assert_eq!(Ok(()), f.eval(": three 1 2 + ;"));
    assert_eq!(vec![3], f.stack());
    assert_eq!(Err(Error::StackUnderflow), f.eval(": bad drop drop ;"));
    assert_eq!(Vec::<i32>::new(), f.stack());
    assert_eq!(Ok(()), f.eval(": nothing ;"));
}

#[test]
fn evaluating_words_one_by_one() {
    let mut f = Forth::new();
    let words = vec![word("4"), word("DUP"), word("*")];
    assert!(f.can_eval_words(&words));
    assert_eq!(Ok(()), f.eval_words(&words));
    assert_eq!(vec![16], f.stack());
    assert!(!f.can_eval_words(&vec![word("5"), word("frobnicate")]));
    assert!(f.can_eval_words(&vec![word("drop"), word("drop"), word("frobnicate")]));
}

#[test]
fn try_eval_refuses_what_cannot_be_applied() {
    let mut f = Forth::new();
    assert_eq!(Some(Ok(())), f.try_eval("1 2"));
    assert_eq!(None, f.try_eval("3 foo"));
    assert_eq!(None, f.try_eval("2147483647 1 +"));
    assert_eq!(None, f.try_eval("-2147483648 1 -"));
    assert_eq!(None, f.try_eval("65536 65536 *"));
    assert_eq!(None, f.try_eval("-2147483648 -1 /"));
    assert_eq!(None, f.try_eval(": ;"));
    assert_eq!(None, f.try_eval(": x y ;"));
    assert_eq!(vec![1, 2], f.stack());
    assert_eq!(Some(Err(Error::DivisionByZero)), f.try_eval("0 / foo"));
    assert_eq!(Some(Err(Error::InvalidWord)), f.try_eval(": foo"));
    assert_eq!(Some(Ok(())), f.try_eval("2147483646 1 +"));
    assert_eq!(vec![1, 2, 0, 2147483647], f.stack());
}
