use cos::calc::{BinOp, CalcError, Calculator, Const, Key, UnOp};
use cos::config::keyboard_layout;
use cos::display::display_number;
use cos::input::{read_joystick_direction, Dir, InputState};
use cos::num::{Num, NumError};

const F: u8 = 6;
const W: u8 = 8;

fn from_int(n: i64) -> Num {
    Num::from_int(n, F, W)
}

#[test]
fn test_calculator_digit_entry_and_add() {
    let mut calc = Calculator::new(F, W);
    assert_eq!(calc.handle_input(Key::Num(1)), Ok(None));
    assert_eq!(calc.handle_input(Key::Num(2)), Ok(None));
    assert_eq!(calc.handle_input(Key::BinOp(BinOp::Add)), Ok(None));
    assert_eq!(calc.handle_input(Key::Num(3)), Ok(None));
    assert_eq!(calc.handle_input(Key::Result), Ok(Some(from_int(15))));
}

#[test]
fn test_calculator_fractional_entry() {
    let mut calc = Calculator::new(F, W);
    assert_eq!(calc.handle_input(Key::Num(1)), Ok(None));
    assert_eq!(calc.handle_input(Key::Dot), Ok(None));
    assert_eq!(calc.handle_input(Key::Num(5)), Ok(None));
    // 1.5 entered; add 2.25 and read the result
    assert_eq!(calc.handle_input(Key::BinOp(BinOp::Add)), Ok(None));
    assert_eq!(calc.handle_input(Key::Num(2)), Ok(None));
    assert_eq!(calc.handle_input(Key::Dot), Ok(None));
    assert_eq!(calc.handle_input(Key::Num(2)), Ok(None));
    assert_eq!(calc.handle_input(Key::Num(5)), Ok(None));
    let r = calc.handle_input(Key::Result).unwrap().unwrap();
    assert_eq!(r.raw(), 3_750_000);
}

#[test]
fn test_calculator_delete_and_clear() {
    let mut calc = Calculator::new(F, W);
    assert_eq!(calc.handle_input(Key::Num(4)), Ok(None));
    assert_eq!(calc.handle_input(Key::Num(2)), Ok(None));
    // Integer-mode delete is a fixed-point division by ten: 42 becomes 4.2
    assert_eq!(calc.handle_input(Key::Delete), Ok(None));
    assert_eq!(calc.handle_input(Key::BinOp(BinOp::Mul)), Ok(None));
    assert_eq!(calc.handle_input(Key::Num(2)), Ok(None));
    let r = calc.handle_input(Key::Result).unwrap().unwrap();
    assert_eq!(r.raw(), 8_400_000);

    // Clear wipes the entry operand
    let mut calc2 = Calculator::new(F, W);
    assert_eq!(calc2.handle_input(Key::Num(7)), Ok(None));
    assert_eq!(calc2.handle_input(Key::Clear), Ok(None));
    assert_eq!(calc2.handle_input(Key::BinOp(BinOp::Add)), Ok(None));
    assert_eq!(calc2.handle_input(Key::Num(5)), Ok(None));
    assert_eq!(calc2.handle_input(Key::Result), Ok(Some(from_int(5))));
}

#[test]
fn test_calculator_delete_fractional_digit() {
    let mut calc = Calculator::new(F, W);
    assert_eq!(calc.handle_input(Key::Num(1)), Ok(None));
    assert_eq!(calc.handle_input(Key::Dot), Ok(None));
    assert_eq!(calc.handle_input(Key::Num(5)), Ok(None));
    // 1.5 entered; deleting the fractional digit leaves 1
    assert_eq!(calc.handle_input(Key::Delete), Ok(None));
    assert_eq!(calc.handle_input(Key::BinOp(BinOp::Add)), Ok(None));
    assert_eq!(calc.handle_input(Key::Num(1)), Ok(None));
    assert_eq!(calc.handle_input(Key::Result), Ok(Some(from_int(2))));
}

#[test]
fn test_calculator_unary_and_constants() {
    let mut calc = Calculator::new(F, W);
    assert_eq!(calc.handle_input(Key::Num(4)), Ok(None));
    assert_eq!(
        calc.handle_input(Key::UnOp(UnOp::Sqrt)),
        Ok(Some(from_int(2)))
    );

    let mut calc2 = Calculator::new(F, W);
    assert_eq!(calc2.handle_input(Key::Const(Const::Pi)), Ok(None));
    assert_eq!(
        calc2.handle_input(Key::UnOp(UnOp::Cos)),
        Ok(Some(Num::one(F, W).neg()))
    );

    let mut calc3 = Calculator::new(F, W);
    assert_eq!(calc3.handle_input(Key::Num(3)), Ok(None));
    assert_eq!(
        calc3.handle_input(Key::UnOp(UnOp::Pow3)),
        Ok(Some(from_int(27)))
    );
    assert_eq!(
        calc3.handle_input(Key::UnOp(UnOp::Neg)),
        Ok(Some(from_int(-27)))
    );
}

#[test]
fn test_calculator_errors() {
    // A result with no pending operator
    let mut calc = Calculator::new(F, W);
    assert_eq!(calc.handle_input(Key::Result), Err(CalcError::Calc));
    assert_eq!(calc.calc(), Err(CalcError::Calc));

    // Division by zero surfaces through the calculator
    let mut calc2 = Calculator::new(F, W);
    assert_eq!(calc2.handle_input(Key::Num(1)), Ok(None));
    assert_eq!(calc2.handle_input(Key::BinOp(BinOp::Div)), Ok(None));
    assert_eq!(
        calc2.handle_input(Key::Result),
        Err(CalcError::Num(NumError::DivisionByZero))
    );

    // Factorial domain errors surface too
    let mut calc3 = Calculator::new(F, W);
    assert_eq!(calc3.handle_input(Key::Num(0)), Ok(None));
    assert_eq!(calc3.handle_input(Key::BinOp(BinOp::Sub)), Ok(None));
    assert_eq!(calc3.handle_input(Key::Num(1)), Ok(None));
    assert_eq!(calc3.handle_input(Key::Result), Ok(Some(from_int(-1))));
    assert_eq!(
        calc3.handle_input(Key::UnOp(UnOp::Factorial)),
        Err(CalcError::Num(NumError::NegativeOrNonIntegerFactorial))
    );

    // Reset returns everything to zero
    let mut calc4 = Calculator::new(F, W);
    assert_eq!(calc4.handle_input(Key::Num(9)), Ok(None));
    assert_eq!(calc4.handle_input(Key::Reset), Ok(None));
    assert_eq!(calc4.handle_input(Key::BinOp(BinOp::Add)), Ok(None));
    assert_eq!(calc4.handle_input(Key::Num(3)), Ok(None));
    assert_eq!(calc4.handle_input(Key::Result), Ok(Some(from_int(3))));
}

#[test]
fn test_keyboard_layout() {
    let layout = keyboard_layout();
    assert_eq!(layout[0][0], Key::UnOp(UnOp::Sin));
    assert_eq!(layout[1][3], Key::Const(Const::Pi));
    assert_eq!(layout[2][2], Key::Num(7));
    assert_eq!(layout[3][3], Key::Num(5));
    assert_eq!(layout[4][5], Key::BinOp(BinOp::Add));
    assert_eq!(layout[5][4], Key::Result);
    assert_eq!(layout[6][1], Key::UnOp(UnOp::Factorial));
    assert_eq!(layout[6][6], Key::Blank);
}

#[test]
fn test_input_state() {
    let mut input = InputState::new();

    // A change of direction reports an event; repeating it does not.
    assert!(input.update(Dir::Left, false));
    assert!(!input.update(Dir::Left, false));
    assert!(!input.update(Dir::Center, false));

    // A fresh press reports once until released.
    assert!(input.update(Dir::Center, true));
    assert!(!input.update(Dir::Center, true));
    assert!(!input.update(Dir::Center, false));
    assert!(input.update(Dir::Center, true));

    // The default cell holds the key the pad wires at (2, 3), reading
    // rows from the bottom.
    assert_eq!(input.key(), Key::Num(4));

    // Movement saturates at the pad's edges.
    input.update_position(Dir::Left);
    input.update_position(Dir::Left);
    input.update_position(Dir::Left);
    input.update_position(Dir::Down);
    input.update_position(Dir::Down);
    input.update_position(Dir::Down);
    input.update_position(Dir::Down);
    assert_eq!(input.key(), Key::Blank);
    input.reset_position();
    assert_eq!(input.key(), Key::Num(4));
}

#[test]
fn test_read_joystick_direction() {
    assert_eq!(read_joystick_direction(512, 512), Dir::Center);
    assert_eq!(read_joystick_direction(1000, 512), Dir::Right);
    assert_eq!(read_joystick_direction(0, 512), Dir::Left);
    assert_eq!(read_joystick_direction(512, 1000), Dir::Down);
    assert_eq!(read_joystick_direction(512, 0), Dir::Up);
    assert_eq!(read_joystick_direction(712, 712), Dir::Center);
    assert_eq!(read_joystick_direction(713, 0), Dir::Right);
}

#[test]
fn test_display_number_codes() {
    // 123.45 at six fractional digits: most significant digits first,
    // with the code ten marking the decimal point.
    let v = Num::from_raw(123_450_000, F, W);
    assert_eq!(display_number(v).unwrap(), vec![1, 2, 3, 10, 4, 5]);

    // A whole value has no mark and no fraction codes.
    assert_eq!(display_number(from_int(5)).unwrap(), vec![5]);

    // Zero and negative raw values yield no codes.
    assert_eq!(display_number(Num::zero(F, W)).unwrap(), Vec::<u8>::new());
    assert_eq!(display_number(from_int(-3)).unwrap(), Vec::<u8>::new());

    // At two fractional digits a whole number still reads plainly.
    assert_eq!(
        display_number(Num::from_int(12, 2, 4)).unwrap(),
        vec![1, 2]
    );

    // A value needing more than nineteen codes is reported.
    let wide = Num::from_raw(i64::MAX, F, W);
    assert!(display_number(wide).is_err());
}
