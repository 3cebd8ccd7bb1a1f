pub mod calc;
pub mod config;
pub mod display;
pub mod input;
pub mod laws;
pub mod ln;
pub mod num;
pub mod series;
pub mod sqrt;

pub use calc::BinOp;
pub use calc::CalcError;
pub use calc::Calculator;
pub use calc::Const;
pub use calc::Key;
pub use calc::Op;
pub use calc::UnOp;
pub use num::Num;
pub use num::NumError;
