//! An e-graph whose e-classes live in variable contexts, with binders,
//! alpha-equivalence, and Miller-pattern matching, and a small language of
//! S-expression scripts over it.
#![allow(unused_imports)]

pub mod bits;
pub mod seqs;
pub mod lift;
pub mod lift_laws;
pub mod text;
pub mod debruijn;
pub mod id;
pub mod memo;
pub mod unionfind;
pub mod egraph;
pub mod terms;
pub mod term;
pub mod occurrence;
pub mod matching;
pub mod clock;
pub mod rebuild;
pub mod keeping;
pub mod holds;
pub mod instantiate;
pub mod run;
pub mod extract;
pub mod dump;
pub mod lexer;
pub mod atom_laws;
pub mod parser;
pub mod frontend;
pub mod read_pattern;
pub mod read_term;
pub mod script;
pub mod script_laws;

pub use debruijn::{DeBruijnIndex, DeBruijnLevel};
pub use lift::Lift;
pub use id::Id;
pub use egraph::EGraph;
pub use terms::{Pattern, Rewrite};
pub use term::{NamedTerm, Term, TermCtx};
pub use matching::Subst;
pub use run::RunStats;
pub use extract::Head;
pub use parser::{Syntax, SyntaxKind, parse_forms};
pub use read_pattern::{syntax_pattern, syntax_match_pattern};
pub use read_term::add_syntax_term;
pub use script::{run_command, run_script, terminal_error};
