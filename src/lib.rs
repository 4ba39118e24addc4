//! Parsing and inspection of Dockerfiles: a byte-span-addressable syntax
//! tree, build-stage resolution, variable substitution in image references
//! and span-based rewriting of the unedited text.

pub mod dockerfile;
pub mod error;
pub mod image;
pub mod instructions;
pub mod lexer;
pub mod literal;
pub mod parser;
pub mod splicer;
pub mod stage;
pub mod substitution;
pub mod text;
pub mod util;

pub use dockerfile::{Dockerfile, Instruction};
pub use error::Error;
pub use image::ImageRef;
pub use instructions::{
    ArgInstruction, CmdInstruction, CopyFlag, CopyInstruction, EntrypointInstruction, EnvInstruction,
    EnvVar, FromFlag, FromInstruction, Label, LabelInstruction, MiscInstruction, RunInstruction,
};
pub use literal::clean_escaped_breaks;
pub use splicer::{Span, Splicer};
pub use stage::{Stage, StageParent, Stages};
pub use substitution::substitute;
pub use util::{
    BreakableString, BreakableStringComponent, ShellOrExecExpr, SpannedComment, SpannedString,
    StringArray,
};
