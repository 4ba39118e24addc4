use vstd::prelude::*;

use crate::image::ImageRef;
use crate::splicer::Span;
use crate::util::{BreakableString, ShellOrExecExpr, SpannedString, StringArray};

verus! {

/// An `ARG` instruction.
#[derive(Debug, Clone, PartialEq, Eq)]
pub struct ArgInstruction {
    pub span: Span,
    /// The argument's name.
    pub name: SpannedString,
    /// Its default value, if any.
    pub value: Option<SpannedString>,
}

/// A `--name=value` flag of a `COPY` instruction.
#[derive(Debug, Clone, PartialEq, Eq)]
pub struct CopyFlag {
    pub span: Span,
    pub name: SpannedString,
    pub value: SpannedString,
}

/// A `COPY` instruction: one or more sources and a destination.
#[derive(Debug, Clone, PartialEq, Eq)]
pub struct CopyInstruction {
    pub span: Span,
    pub flags: Vec<CopyFlag>,
    pub sources: Vec<SpannedString>,
    pub destination: SpannedString,
}

/// One `key=value` pair of an `ENV` instruction.
#[derive(Debug, Clone, PartialEq, Eq)]
pub struct EnvVar {
    pub span: Span,
    pub key: SpannedString,
    pub value: BreakableString,
}

impl EnvVar {
    pub fn new(span: Span, key: SpannedString, value: BreakableString) -> (r: EnvVar)
        ensures
            r == (EnvVar { span, key, value }),
    {
        EnvVar { span, key, value }
    }
}

/// An `ENV` instruction.
#[derive(Debug, Clone, PartialEq, Eq)]
pub struct EnvInstruction {
    pub span: Span,
    pub vars: Vec<EnvVar>,
}

/// A `--name=value` flag of a `FROM` instruction.
#[derive(Debug, Clone, PartialEq, Eq)]
pub struct FromFlag {
    pub span: Span,
    pub name: SpannedString,
    pub value: SpannedString,
}

/// A `FROM` instruction.
#[derive(Debug, Clone, PartialEq, Eq)]
pub struct FromInstruction {
    pub span: Span,
    pub flags: Vec<FromFlag>,
    pub image: SpannedString,
    pub image_parsed: ImageRef,
    /// The position of this instruction among the `FROM`s of its file.
    pub index: usize,
    pub alias: Option<SpannedString>,
}

/// One label of a `LABEL` instruction.
#[derive(Debug, Clone, PartialEq, Eq)]
pub struct Label {
    pub span: Span,
    pub name: SpannedString,
    pub value: SpannedString,
}

impl Label {
    pub fn new(span: Span, name: SpannedString, value: SpannedString) -> (r: Label)
        ensures
            r == (Label { span, name, value }),
    {
        Label { span, name, value }
    }
}

/// A `LABEL` instruction, which may set many labels.
#[derive(Debug, Clone, PartialEq, Eq)]
pub struct LabelInstruction {
    pub span: Span,
    pub labels: Vec<Label>,
}

/// An instruction without a structure of its own, such as `EXPOSE` or
/// `WORKDIR`: its keyword and its arguments.
#[derive(Debug, Clone, PartialEq, Eq)]
pub struct MiscInstruction {
    pub span: Span,
    pub instruction: SpannedString,
    pub arguments: BreakableString,
}

/// A `CMD` instruction, in shell form or exec form.
#[derive(Debug, Clone, PartialEq, Eq)]
pub struct CmdInstruction {
    pub span: Span,
    pub expr: ShellOrExecExpr,
}

impl CmdInstruction {
    /// The shell-form string, if this is one.
    pub fn into_shell(self) -> (r: Option<BreakableString>)
        ensures
            r == match self.expr {
                ShellOrExecExpr::Shell(s) => Some(s),
                _ => None,
            },
    {
        self.expr.into_shell()
    }

    /// The shell-form string, if this is one.
    pub fn as_shell(&self) -> (r: Option<&BreakableString>)
        ensures
            r == match &self.expr {
                ShellOrExecExpr::Shell(s) => Some(s),
                _ => None,
            },
    {
        self.expr.as_shell()
    }

    /// The exec-form array, if this is one.
    pub fn into_exec(self) -> (r: Option<StringArray>)
        ensures
            r == match self.expr {
                ShellOrExecExpr::Exec(s) => Some(s),
                _ => None,
            },
    {
        self.expr.into_exec()
    }

    /// The exec-form array, if this is one.
    pub fn as_exec(&self) -> (r: Option<&StringArray>)
        ensures
            r == match &self.expr {
                ShellOrExecExpr::Exec(s) => Some(s),
                _ => None,
            },
    {
        self.expr.as_exec()
    }
}

/// A `ENTRYPOINT` instruction, in shell form or exec form.
#[derive(Debug, Clone, PartialEq, Eq)]
pub struct EntrypointInstruction {
    pub span: Span,
    pub expr: ShellOrExecExpr,
}

impl EntrypointInstruction {
    /// The shell-form string, if this is one.
    pub fn into_shell(self) -> (r: Option<BreakableString>)
        ensures
            r == match self.expr {
                ShellOrExecExpr::Shell(s) => Some(s),
                _ => None,
            },
    {
        self.expr.into_shell()
    }

    /// The shell-form string, if this is one.
    pub fn as_shell(&self) -> (r: Option<&BreakableString>)
        ensures
            r == match &self.expr {
                ShellOrExecExpr::Shell(s) => Some(s),
                _ => None,
            },
    {
        self.expr.as_shell()
    }

    /// The exec-form array, if this is one.
    pub fn into_exec(self) -> (r: Option<StringArray>)
        ensures
            r == match self.expr {
                ShellOrExecExpr::Exec(s) => Some(s),
                _ => None,
            },
    {
        self.expr.into_exec()
    }

    /// The exec-form array, if this is one.
    pub fn as_exec(&self) -> (r: Option<&StringArray>)
        ensures
            r == match &self.expr {
                ShellOrExecExpr::Exec(s) => Some(s),
                _ => None,
            },
    {
        self.expr.as_exec()
    }
}

/// A `RUN` instruction, in shell form or exec form.
#[derive(Debug, Clone, PartialEq, Eq)]
pub struct RunInstruction {
    pub span: Span,
    pub expr: ShellOrExecExpr,
}

impl RunInstruction {
    /// The shell-form string, if this is one.
    pub fn into_shell(self) -> (r: Option<BreakableString>)
        ensures
            r == match self.expr {
                ShellOrExecExpr::Shell(s) => Some(s),
                _ => None,
            },
    {
        self.expr.into_shell()
    }

    /// The shell-form string, if this is one.
    pub fn as_shell(&self) -> (r: Option<&BreakableString>)
        ensures
            r == match &self.expr {
                ShellOrExecExpr::Shell(s) => Some(s),
                _ => None,
            },
    {
        self.expr.as_shell()
    }

    /// The exec-form array, if this is one.
    pub fn into_exec(self) -> (r: Option<StringArray>)
        ensures
            r == match self.expr {
                ShellOrExecExpr::Exec(s) => Some(s),
                _ => None,
            },
    {
        self.expr.into_exec()
    }

    /// The exec-form array, if this is one.
    pub fn as_exec(&self) -> (r: Option<&StringArray>)
        ensures
            r == match &self.expr {
                ShellOrExecExpr::Exec(s) => Some(s),
                _ => None,
            },
    {
        self.expr.as_exec()
    }
}

} // verus!
