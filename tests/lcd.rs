use tdd_kata::lcd::{Digit, Display, DisplayError, VecDigit};

#[test]
fn display_without_input_shows_nothing() {
    let display = Display::new();
    assert_eq!(display.output(), Ok(VecDigit::new(vec![])));
}

#[test]
fn display_shows_each_digit() {
    let mut display = Display::new();
    display.input("1234567890");
    assert_eq!(
        display.output(),
        Ok(VecDigit::new(vec![
            Digit::One,
            Digit::Two,
            Digit::Three,
            Digit::Four,
            Digit::Five,
            Digit::Six,
            Digit::Seven,
            Digit::Eight,
            Digit::Nine,
            Digit::Zero
        ]))
    );
}

#[test]
fn display_rejects_a_non_digit() {
    let mut display = Display::new();
    display.input("12a4");
    assert_eq!(display.output(), Err(DisplayError));
}

#[test]
fn later_input_replaces_earlier() {
    let mut display = Display::new();
    display.input("x");
    display.input("7");
    assert_eq!(display.output(), Ok(VecDigit::new(vec![Digit::Seven])));
}

#[test]
fn digits_from_text() {
    assert_eq!(VecDigit::from_str(""), Ok(VecDigit::new(vec![])));
    assert_eq!(VecDigit::from_str("09"), Ok(VecDigit::new(vec![Digit::Zero, Digit::Nine])));
    assert_eq!(VecDigit::from_str("9/"), Err(DisplayError));
    assert_eq!(Digit::from('5'), Digit::Five);
}
