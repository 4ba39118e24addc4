use vstd::prelude::*;
use vstd::string::*;

use crate::splicer::Span;
use crate::text::{utf8, push_text};

verus! {

/// A string with the byte span it was read from.
#[derive(Debug, Clone, PartialEq, Eq)]
pub struct SpannedString {
    pub span: Span,
    /// The decoded text.
    pub content: String,
}

impl SpannedString {
    /// An equal copy.
    pub fn duplicate(&self) -> (r: SpannedString)
        ensures
            r == *self,
    {
        SpannedString { span: self.span, content: self.content.clone() }
    }
}

/// A comment with the byte span it was read from.
#[derive(Debug, Clone, PartialEq, Eq)]
pub struct SpannedComment {
    pub span: Span,
    pub content: String,
}

/// A piece of a breakable string.
#[derive(Debug, Clone, PartialEq, Eq)]
pub enum BreakableStringComponent {
    String(SpannedString),
    Comment(SpannedComment),
}

/// A string that may be broken across lines by line continuations and mixed
/// with comments. As the builder runs it, continuations and comments are
/// dropped: what remains is the concatenation of its `String` components.
#[derive(Debug, Clone, PartialEq, Eq)]
pub struct BreakableString {
    pub span: Span,
    pub components: Vec<BreakableStringComponent>,
}

/// The text of a breakable string as interpreted at build time: its string
/// components, in order.
pub open spec fn breakable_text(c: Seq<BreakableStringComponent>) -> Seq<u8>
    decreases c.len(),
{
    if c.len() == 0 {
        Seq::empty()
    } else {
        breakable_text(c.drop_last()) + match c.last() {
            BreakableStringComponent::String(s) => utf8(s.content@),
            BreakableStringComponent::Comment(_) => Seq::empty(),
        }
    }
}

impl BreakableString {
    pub fn new(span: Span) -> (r: BreakableString)
        ensures
            r.span == span,
            r.components@.len() == 0,
    {
        BreakableString { span, components: Vec::new() }
    }

    pub fn add(self, c: BreakableStringComponent) -> (r: BreakableString)
        ensures
            r.span == self.span,
            r.components@ == self.components@.push(c),
    {
        let mut s = self;
        s.components.push(c);
        s
    }

    pub fn add_string(self, span: Span, content: &str) -> (r: BreakableString)
        ensures
            r.span == self.span,
            r.components@ == self.components@.push(
                BreakableStringComponent::String(SpannedString { span, content: r.components@.last()->String_0.content }),
            ),
            r.components@.last()->String_0.content@ == content@,
    {
        self.add(BreakableStringComponent::String(SpannedString { span, content: content.to_owned() }))
    }

    pub fn add_comment(self, span: Span, content: &str) -> (r: BreakableString)
        ensures
            r.span == self.span,
            r.components@ == self.components@.push(
                BreakableStringComponent::Comment(SpannedComment { span, content: r.components@.last()->Comment_0.content }),
            ),
            r.components@.last()->Comment_0.content@ == content@,
    {
        self.add(BreakableStringComponent::Comment(SpannedComment { span, content: content.to_owned() }))
    }

    pub fn iter_components(&self) -> (r: &[BreakableStringComponent])
        ensures
            r@ == self.components@,
    {
        self.components.as_slice()
    }

    /// The string as interpreted at build time: on one line, with
    /// continuations and comments removed.
    pub fn to_string(&self) -> (r: String)
        ensures
            utf8(r@) == breakable_text(self.components@),
    {
        let mut out = String::new();
        let mut i: usize = 0;
        proof {
            assert(utf8(out@) =~= Seq::<u8>::empty());
        }
        while i < self.components.len()
            invariant
                i <= self.components@.len(),
                utf8(out@) == breakable_text(self.components@.subrange(0, i as int)),
            decreases self.components@.len() - i,
        {
            match &self.components[i] {
                BreakableStringComponent::String(s) => {
                    push_text(&mut out, s.content.as_str());
                },
                BreakableStringComponent::Comment(_) => {},
            }
            proof {
                assert(self.components@.subrange(0, i + 1).drop_last() =~= self.components@.subrange(0, i as int));
            }
            i = i + 1;
        }
        proof {
            assert(self.components@.subrange(0, i as int) =~= self.components@);
        }
        out
    }
}

/// An exec-form string array, such as `["executable", "param1"]`.
#[derive(Debug, Clone, PartialEq, Eq)]
pub struct StringArray {
    pub span: Span,
    pub elements: Vec<SpannedString>,
}

impl StringArray {
    pub fn as_str_vec(&self) -> (r: Vec<&str>)
        ensures
            r@.len() == self.elements@.len(),
            forall|i: int| 0 <= i < r@.len() ==> (#[trigger] r@[i])@ == self.elements@[i].content@,
    {
        let mut out: Vec<&str> = Vec::new();
        let mut i: usize = 0;
        while i < self.elements.len()
            invariant
                i <= self.elements@.len(),
                out@.len() == i,
                forall|j: int| 0 <= j < i ==> (#[trigger] out@[j])@ == self.elements@[j].content@,
            decreases self.elements@.len() - i,
        {
            out.push(self.elements[i].content.as_str());
            i = i + 1;
        }
        out
    }
}

/// A string that may be broken across lines, or an array of strings.
#[derive(Debug, Clone, PartialEq, Eq)]
pub enum ShellOrExecExpr {
    Shell(BreakableString),
    Exec(StringArray),
}

impl ShellOrExecExpr {
    pub fn into_shell(self) -> (r: Option<BreakableString>)
        ensures
            r == match self {
                ShellOrExecExpr::Shell(s) => Some(s),
                _ => None,
            },
    {
        match self {
            ShellOrExecExpr::Shell(s) => Some(s),
            _ => None,
        }
    }

    pub fn as_shell(&self) -> (r: Option<&BreakableString>)
        ensures
            r == match self {
                ShellOrExecExpr::Shell(s) => Some(s),
                _ => None,
            },
    {
        match self {
            ShellOrExecExpr::Shell(s) => Some(s),
            _ => None,
        }
    }

    pub fn into_exec(self) -> (r: Option<StringArray>)
        ensures
            r == match self {
                ShellOrExecExpr::Exec(s) => Some(s),
                _ => None,
            },
    {
        match self {
            ShellOrExecExpr::Exec(s) => Some(s),
            _ => None,
        }
    }

    pub fn as_exec(&self) -> (r: Option<&StringArray>)
        ensures
            r == match self {
                ShellOrExecExpr::Exec(s) => Some(s),
                _ => None,
            },
    {
        match self {
            ShellOrExecExpr::Exec(s) => Some(s),
            _ => None,
        }
    }
}

} // verus!
