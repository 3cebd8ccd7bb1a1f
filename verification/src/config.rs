use vstd::prelude::*;
use crate::calc::{BinOp, Const, Key, UnOp};

verus! {

/// The number of visible fractional digits the firmware build uses.
pub const FRACTION_COUNT: u8 = 2;

/// The pad position the cursor returns to after every press.
pub fn default_pos() -> (p: (u8, u8))
    ensures
        p.0 == 2 && p.1 == 3,
{
    (2, 3)
}

/// The pad's rows, top to bottom, as the firmware wires them.
pub open spec fn layout_spec() -> Seq<Seq<Key>> {
    seq![
        seq![
            Key::UnOp(UnOp::Sin),
            Key::Blank,
            Key::Const(Const::Phi),
            Key::Const(Const::Tau),
            Key::Const(Const::Sqrt2),
            Key::Blank,
            Key::Blank,
        ],
        seq![
            Key::UnOp(UnOp::Cos),
            Key::Blank,
            Key::Const(Const::EGamma),
            Key::Const(Const::Pi),
            Key::Const(Const::E),
            Key::Blank,
            Key::Blank,
        ],
        seq![
            Key::UnOp(UnOp::Tan),
            Key::UnOp(UnOp::Sqrt),
            Key::Num(7),
            Key::Num(8),
            Key::Num(9),
            Key::BinOp(BinOp::Div),
            Key::Blank,
        ],
        seq![
            Key::Blank,
            Key::UnOp(UnOp::Neg),
            Key::Num(4),
            Key::Num(5),
            Key::Num(6),
            Key::BinOp(BinOp::Mul),
            Key::Blank,
        ],
        seq![
            Key::Blank,
            Key::UnOp(UnOp::Pow2),
            Key::Num(1),
            Key::Num(2),
            Key::Num(3),
            Key::BinOp(BinOp::Add),
            Key::Blank,
        ],
        seq![
            Key::Blank,
            Key::UnOp(UnOp::Pow3),
            Key::Dot,
            Key::Num(0),
            Key::Result,
            Key::BinOp(BinOp::Sub),
            Key::Blank,
        ],
        seq![
            Key::Blank,
            Key::UnOp(UnOp::Factorial),
            Key::Clear,
            Key::Delete,
            Key::Reset,
            Key::Blank,
            Key::Blank,
        ],
    ]
}

/// The keyboard table, row by row.
pub fn keyboard_layout() -> (r: [[Key; 7]; 7])
    ensures
        r@.len() == 7,
        forall|i: int| 0 <= i < 7 ==> #[trigger] r@[i]@ =~= layout_spec()[i],
{
    let r: [[Key; 7]; 7] = [
        [
            Key::UnOp(UnOp::Sin),
            Key::Blank,
            Key::Const(Const::Phi),
            Key::Const(Const::Tau),
            Key::Const(Const::Sqrt2),
            Key::Blank,
            Key::Blank,
        ],
        [
            Key::UnOp(UnOp::Cos),
            Key::Blank,
            Key::Const(Const::EGamma),
            Key::Const(Const::Pi),
            Key::Const(Const::E),
            Key::Blank,
            Key::Blank,
        ],
        [
            Key::UnOp(UnOp::Tan),
            Key::UnOp(UnOp::Sqrt),
            Key::Num(7),
            Key::Num(8),
            Key::Num(9),
            Key::BinOp(BinOp::Div),
            Key::Blank,
        ],
        [
            Key::Blank,
            Key::UnOp(UnOp::Neg),
            Key::Num(4),
            Key::Num(5),
            Key::Num(6),
            Key::BinOp(BinOp::Mul),
            Key::Blank,
        ],
        [
            Key::Blank,
            Key::UnOp(UnOp::Pow2),
            Key::Num(1),
            Key::Num(2),
            Key::Num(3),
            Key::BinOp(BinOp::Add),
            Key::Blank,
        ],
        [
            Key::Blank,
            Key::UnOp(UnOp::Pow3),
            Key::Dot,
            Key::Num(0),
            Key::Result,
            Key::BinOp(BinOp::Sub),
            Key::Blank,
        ],
        [
            Key::Blank,
            Key::UnOp(UnOp::Factorial),
            Key::Clear,
            Key::Delete,
            Key::Reset,
            Key::Blank,
            Key::Blank,
        ],
    ];
    proof {
        assert(r@[0]@ =~= layout_spec()[0]);
        assert(r@[1]@ =~= layout_spec()[1]);
        assert(r@[2]@ =~= layout_spec()[2]);
        assert(r@[3]@ =~= layout_spec()[3]);
        assert(r@[4]@ =~= layout_spec()[4]);
        assert(r@[5]@ =~= layout_spec()[5]);
        assert(r@[6]@ =~= layout_spec()[6]);
    }
    r
}

} // verus!
