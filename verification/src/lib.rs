pub mod address;
pub mod eval;
pub mod formula;
pub mod grid;
pub mod parser;
pub mod text;

pub use address::CellRef;
pub use eval::EvalError;
pub use grid::Grid;
pub use parser::{parse, BinOp, Expr};
