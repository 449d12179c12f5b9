//! Arithmetic expressions over `i32`: a flat token list is annotated with
//! priorities (distance from the root of the expression tree), the tree is
//! built by splitting at the lowest priority, and the tree is evaluated.

pub mod expr;
pub mod lexer;
pub mod old_calc;
pub mod token;
pub mod tree;
pub mod utils;

pub use expr::{evaluate, CalcError, ExprBinary, ExprUnary, Number, Op, Value};
pub use lexer::{build_token_list, try_build_token_list};
pub use token::{calculate_priority, check_operands, Token, TokenInfo};
pub use tree::{build_expr_tree, build_tree};
