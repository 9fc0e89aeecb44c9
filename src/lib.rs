pub mod ast;
pub mod blocks;
pub mod collection;
pub mod derivation;
pub mod layout;
pub mod parser;
pub mod policy;

pub use ast::{Ast, AstNodeType, Bnf, Expr, Expr0, Name, RemainExpr, RemainStmt};
pub use blocks::read_bnfs;
pub use collection::{Collection, GrammarError, STEP_LIMIT};
pub use parser::{parse, parse_bnf, Expected, ParseError, ParseResult};
pub use policy::BranchPolicy;
