pub mod diagnostics;
pub mod interpreter;
pub mod laws;
pub mod scan_model;
pub mod scanner;
pub mod token;

pub use diagnostics::LexError;
pub use diagnostics::LexErrorKind;
pub use interpreter::Interpreter;
pub use scanner::Scanner;
pub use token::Token;
pub use token::TokenType;
