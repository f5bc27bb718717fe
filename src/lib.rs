pub mod changelist;
pub mod data;
pub mod error;
pub mod lexer;
pub mod ninja;
pub mod parser;
pub mod source;

pub use changelist::{generate_new_file, Change, ChangeList, CommitError, NewFile, PatchError};
pub use data::{Binding, Data, Edge, EdgeKey, Node, Rule, RuleKey};
pub use error::{ErrorKind, ParseError};
pub use lexer::{Lexer, Location, SourceId, Token, TokenKind, L};
pub use ninja::{Ninja, Progress, Session};
pub use source::{Source, SourceManager};
