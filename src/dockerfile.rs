use vstd::prelude::*;
use vstd::string::*;

use crate::instructions::{
    ArgInstruction, CmdInstruction, CopyInstruction, EntrypointInstruction, EnvInstruction,
    FromInstruction, LabelInstruction, MiscInstruction, RunInstruction,
};
use crate::error::Error;
use crate::lexer::{
    skip_blanks, line_end, instruction_end, blanks_end, line_end_of, instruction_end_of, lemma_blanks_end,
    lemma_line_end, lemma_instruction_end,
};
use crate::parser::{
    build_instruction, error_fits, field_fits, starts_label, instruction_ok, is_label_at, letters_end, shape_ok,
};
use crate::splicer::{Span, Splicer};
use crate::text::{utf8, ascii_cut};

verus! {

/// A single Dockerfile instruction.
#[derive(Debug, Clone, PartialEq, Eq)]
pub enum Instruction {
    From(FromInstruction),
    Arg(ArgInstruction),
    Label(LabelInstruction),
    Run(RunInstruction),
    Entrypoint(EntrypointInstruction),
    Cmd(CmdInstruction),
    Copy(CopyInstruction),
    Env(EnvInstruction),
    Misc(MiscInstruction),
}

impl Instruction {
    /// The FromInstruction, if this is one.
    pub fn into_from(self) -> (r: Option<FromInstruction>)
        ensures
            r == match self {
                Instruction::From(x) => Some(x),
                _ => None,
            },
    {
        match self {
            Instruction::From(x) => Some(x),
            _ => None,
        }
    }

    /// The FromInstruction, if this is one.
    pub fn as_from(&self) -> (r: Option<&FromInstruction>)
        ensures
            r == match self {
                Instruction::From(x) => Some(x),
                _ => None,
            },
    {
        match self {
            Instruction::From(x) => Some(x),
            _ => None,
        }
    }

    /// The ArgInstruction, if this is one.
    pub fn into_arg(self) -> (r: Option<ArgInstruction>)
        ensures
            r == match self {
                Instruction::Arg(x) => Some(x),
                _ => None,
            },
    {
        match self {
            Instruction::Arg(x) => Some(x),
            _ => None,
        }
    }

    /// The ArgInstruction, if this is one.
    pub fn as_arg(&self) -> (r: Option<&ArgInstruction>)
        ensures
            r == match self {
                Instruction::Arg(x) => Some(x),
                _ => None,
            },
    {
        match self {
            Instruction::Arg(x) => Some(x),
            _ => None,
        }
    }

    /// The LabelInstruction, if this is one.
    pub fn into_label(self) -> (r: Option<LabelInstruction>)
        ensures
            r == match self {
                Instruction::Label(x) => Some(x),
                _ => None,
            },
    {
        match self {
            Instruction::Label(x) => Some(x),
            _ => None,
        }
    }

    /// The LabelInstruction, if this is one.
    pub fn as_label(&self) -> (r: Option<&LabelInstruction>)
        ensures
            r == match self {
                Instruction::Label(x) => Some(x),
                _ => None,
            },
    {
        match self {
            Instruction::Label(x) => Some(x),
            _ => None,
        }
    }

    /// The RunInstruction, if this is one.
    pub fn into_run(self) -> (r: Option<RunInstruction>)
        ensures
            r == match self {
                Instruction::Run(x) => Some(x),
                _ => None,
            },
    {
        match self {
            Instruction::Run(x) => Some(x),
            _ => None,
        }
    }

    /// The RunInstruction, if this is one.
    pub fn as_run(&self) -> (r: Option<&RunInstruction>)
        ensures
            r == match self {
                Instruction::Run(x) => Some(x),
                _ => None,
            },
    {
        match self {
            Instruction::Run(x) => Some(x),
            _ => None,
        }
    }

    /// The EntrypointInstruction, if this is one.
    pub fn into_entrypoint(self) -> (r: Option<EntrypointInstruction>)
        ensures
            r == match self {
                Instruction::Entrypoint(x) => Some(x),
                _ => None,
            },
    {
        match self {
            Instruction::Entrypoint(x) => Some(x),
            _ => None,
        }
    }

    /// The EntrypointInstruction, if this is one.
    pub fn as_entrypoint(&self) -> (r: Option<&EntrypointInstruction>)
        ensures
            r == match self {
                Instruction::Entrypoint(x) => Some(x),
                _ => None,
            },
    {
        match self {
            Instruction::Entrypoint(x) => Some(x),
            _ => None,
        }
    }

    /// The CmdInstruction, if this is one.
    pub fn into_cmd(self) -> (r: Option<CmdInstruction>)
        ensures
            r == match self {
                Instruction::Cmd(x) => Some(x),
                _ => None,
            },
    {
        match self {
            Instruction::Cmd(x) => Some(x),
            _ => None,
        }
    }

    /// The CmdInstruction, if this is one.
    pub fn as_cmd(&self) -> (r: Option<&CmdInstruction>)
        ensures
            r == match self {
                Instruction::Cmd(x) => Some(x),
                _ => None,
            },
    {
        match self {
            Instruction::Cmd(x) => Some(x),
            _ => None,
        }
    }

    /// The CopyInstruction, if this is one.
    pub fn into_copy(self) -> (r: Option<CopyInstruction>)
        ensures
            r == match self {
                Instruction::Copy(x) => Some(x),
                _ => None,
            },
    {
        match self {
            Instruction::Copy(x) => Some(x),
            _ => None,
        }
    }

    /// The CopyInstruction, if this is one.
    pub fn as_copy(&self) -> (r: Option<&CopyInstruction>)
        ensures
            r == match self {
                Instruction::Copy(x) => Some(x),
                _ => None,
            },
    {
        match self {
            Instruction::Copy(x) => Some(x),
            _ => None,
        }
    }

    /// The EnvInstruction, if this is one.
    pub fn into_env(self) -> (r: Option<EnvInstruction>)
        ensures
            r == match self {
                Instruction::Env(x) => Some(x),
                _ => None,
            },
    {
        match self {
            Instruction::Env(x) => Some(x),
            _ => None,
        }
    }

    /// The EnvInstruction, if this is one.
    pub fn as_env(&self) -> (r: Option<&EnvInstruction>)
        ensures
            r == match self {
                Instruction::Env(x) => Some(x),
                _ => None,
            },
    {
        match self {
            Instruction::Env(x) => Some(x),
            _ => None,
        }
    }

    /// The MiscInstruction, if this is one.
    pub fn into_misc(self) -> (r: Option<MiscInstruction>)
        ensures
            r == match self {
                Instruction::Misc(x) => Some(x),
                _ => None,
            },
    {
        match self {
            Instruction::Misc(x) => Some(x),
            _ => None,
        }
    }

    /// The MiscInstruction, if this is one.
    pub fn as_misc(&self) -> (r: Option<&MiscInstruction>)
        ensures
            r == match self {
                Instruction::Misc(x) => Some(x),
                _ => None,
            },
    {
        match self {
            Instruction::Misc(x) => Some(x),
            _ => None,
        }
    }

    /// The span of the whole instruction.
    pub open spec fn spec_span(&self) -> Span {
        match self {
            Instruction::From(x) => x.span,
            Instruction::Arg(x) => x.span,
            Instruction::Label(x) => x.span,
            Instruction::Run(x) => x.span,
            Instruction::Entrypoint(x) => x.span,
            Instruction::Cmd(x) => x.span,
            Instruction::Copy(x) => x.span,
            Instruction::Env(x) => x.span,
            Instruction::Misc(x) => x.span,
        }
    }

    /// The span of the whole instruction.
    pub fn span(&self) -> (r: Span)
        ensures
            r == self.spec_span(),
    {
        match self {
            Instruction::From(x) => x.span,
            Instruction::Arg(x) => x.span,
            Instruction::Label(x) => x.span,
            Instruction::Run(x) => x.span,
            Instruction::Entrypoint(x) => x.span,
            Instruction::Cmd(x) => x.span,
            Instruction::Copy(x) => x.span,
            Instruction::Env(x) => x.span,
            Instruction::Misc(x) => x.span,
        }
    }
}

impl From<FromInstruction> for Instruction {
    fn from(x: FromInstruction) -> Instruction {
        Instruction::From(x)
    }
}

impl vstd::std_specs::convert::FromSpecImpl<FromInstruction> for Instruction {
    open spec fn obeys_from_spec() -> bool {
        true
    }

    open spec fn from_spec(x: FromInstruction) -> Instruction {
        Instruction::From(x)
    }
}

impl From<ArgInstruction> for Instruction {
    fn from(x: ArgInstruction) -> Instruction {
        Instruction::Arg(x)
    }
}

impl vstd::std_specs::convert::FromSpecImpl<ArgInstruction> for Instruction {
    open spec fn obeys_from_spec() -> bool {
        true
    }

    open spec fn from_spec(x: ArgInstruction) -> Instruction {
        Instruction::Arg(x)
    }
}

impl From<LabelInstruction> for Instruction {
    fn from(x: LabelInstruction) -> Instruction {
        Instruction::Label(x)
    }
}

impl vstd::std_specs::convert::FromSpecImpl<LabelInstruction> for Instruction {
    open spec fn obeys_from_spec() -> bool {
        true
    }

    open spec fn from_spec(x: LabelInstruction) -> Instruction {
        Instruction::Label(x)
    }
}

impl From<RunInstruction> for Instruction {
    fn from(x: RunInstruction) -> Instruction {
        Instruction::Run(x)
    }
}

impl vstd::std_specs::convert::FromSpecImpl<RunInstruction> for Instruction {
    open spec fn obeys_from_spec() -> bool {
        true
    }

    open spec fn from_spec(x: RunInstruction) -> Instruction {
        Instruction::Run(x)
    }
}

impl From<EntrypointInstruction> for Instruction {
    fn from(x: EntrypointInstruction) -> Instruction {
        Instruction::Entrypoint(x)
    }
}

impl vstd::std_specs::convert::FromSpecImpl<EntrypointInstruction> for Instruction {
    open spec fn obeys_from_spec() -> bool {
        true
    }

    open spec fn from_spec(x: EntrypointInstruction) -> Instruction {
        Instruction::Entrypoint(x)
    }
}

impl From<CmdInstruction> for Instruction {
    fn from(x: CmdInstruction) -> Instruction {
        Instruction::Cmd(x)
    }
}

impl vstd::std_specs::convert::FromSpecImpl<CmdInstruction> for Instruction {
    open spec fn obeys_from_spec() -> bool {
        true
    }

    open spec fn from_spec(x: CmdInstruction) -> Instruction {
        Instruction::Cmd(x)
    }
}

impl From<CopyInstruction> for Instruction {
    fn from(x: CopyInstruction) -> Instruction {
        Instruction::Copy(x)
    }
}

impl vstd::std_specs::convert::FromSpecImpl<CopyInstruction> for Instruction {
    open spec fn obeys_from_spec() -> bool {
        true
    }

    open spec fn from_spec(x: CopyInstruction) -> Instruction {
        Instruction::Copy(x)
    }
}

impl From<EnvInstruction> for Instruction {
    fn from(x: EnvInstruction) -> Instruction {
        Instruction::Env(x)
    }
}

impl vstd::std_specs::convert::FromSpecImpl<EnvInstruction> for Instruction {
    open spec fn obeys_from_spec() -> bool {
        true
    }

    open spec fn from_spec(x: EnvInstruction) -> Instruction {
        Instruction::Env(x)
    }
}

impl From<MiscInstruction> for Instruction {
    fn from(x: MiscInstruction) -> Instruction {
        Instruction::Misc(x)
    }
}

impl vstd::std_specs::convert::FromSpecImpl<MiscInstruction> for Instruction {
    open spec fn obeys_from_spec() -> bool {
        true
    }

    open spec fn from_spec(x: MiscInstruction) -> Instruction {
        Instruction::Misc(x)
    }
}

/// The number of `FROM` instructions in `ins`.
pub open spec fn from_count(ins: Seq<Instruction>) -> nat
    decreases ins.len(),
{
    if ins.len() == 0 {
        0
    } else {
        from_count(ins.drop_last()) + if ins.last() is From { 1nat } else { 0nat }
    }
}

/// The `ARG` instructions of `ins` that come before its first `FROM`, in
/// order.
pub open spec fn global_args_of(ins: Seq<Instruction>) -> Seq<ArgInstruction>
    decreases ins.len(),
{
    if ins.len() == 0 {
        Seq::empty()
    } else {
        let g = global_args_of(ins.drop_last());
        if from_count(ins.drop_last()) == 0 && ins.last() is Arg {
            g.push(ins.last()->Arg_0)
        } else {
            g
        }
    }
}

/// Each `FROM` of `ins` carries as index the number of `FROM`s before it.
pub open spec fn from_indices_ok(ins: Seq<Instruction>) -> bool {
    forall|i: int|
        0 <= i < ins.len() && (#[trigger] ins[i]) is From ==> ins[i]->From_0.index == from_count(
            ins.subrange(0, i),
        )
}

/// Each instruction's span lies in a text of `len` bytes, after the span
/// of the instruction before it.
pub open spec fn spans_ordered(ins: Seq<Instruction>, len: int) -> bool {
    &&& forall|i: int| 0 <= i < ins.len() ==> (#[trigger] ins[i]).spec_span().start <= ins[i].spec_span().end <= len
    &&& forall|i: int| #![trigger ins[i - 1], ins[i]] 0 < i < ins.len() ==> ins[i - 1].spec_span().end <= ins[i].spec_span().start
}

impl ArgInstruction {
    /// An equal copy.
    pub fn duplicate(&self) -> (r: ArgInstruction)
        ensures
            r == *self,
    {
        let value = match &self.value {
            Some(v) => Some(v.duplicate()),
            None => None,
        };
        ArgInstruction { span: self.span, name: self.name.duplicate(), value }
    }
}

/// A parsed Dockerfile.
#[derive(Debug, Clone, PartialEq, Eq)]
pub struct Dockerfile {
    /// The text it was parsed from.
    pub content: String,
    /// The `ARG` instructions before the first `FROM`, in order.
    pub global_args: Vec<ArgInstruction>,
    /// All instructions, in order, the global arguments included.
    pub instructions: Vec<Instruction>,
}

proof fn lemma_from_count_le(ins: Seq<Instruction>)
    ensures
        from_count(ins) <= ins.len(),
    decreases ins.len(),
{
    if ins.len() > 0 {
        lemma_from_count_le(ins.drop_last());
    }
}

/// The extents of the instructions from `i` on, as (start, end): blank
/// lines and comment lines between them are skipped.
pub open spec fn extents_of(b: Seq<u8>, i: int) -> Seq<(int, int)>
    decreases b.len() - i,
    via extents_decreases
{
    if i < 0 || i >= b.len() {
        Seq::empty()
    } else {
        let t = blanks_end(b, i, b.len() as int);
        if t >= b.len() {
            Seq::empty()
        } else if b[t] == 10u8 {
            extents_of(b, t + 1)
        } else if b[t] == 35u8 {
            let e = line_end_of(b, t, b.len() as int);
            if e < b.len() {
                extents_of(b, e + 1)
            } else {
                Seq::empty()
            }
        } else {
            let q = instruction_end_of(b, t, is_label_at(b, t));
            seq![(t, q)] + extents_of(b, q)
        }
    }
}

#[via_fn]
proof fn extents_decreases(b: Seq<u8>, i: int) {
    if 0 <= i < b.len() {
        lemma_blanks_end(b, i, b.len() as int);
        let t = blanks_end(b, i, b.len() as int);
        if t < b.len() {
            lemma_line_end(b, t, b.len() as int);
            lemma_instruction_end(b, t, is_label_at(b, t));
        }
    }
}

/// The `i`th extent is the first whose instruction does not build.
pub open spec fn first_failure(b: Seq<u8>, i: int) -> bool {
    let e = extents_of(b, 0);
    &&& 0 <= i < e.len()
    &&& !instruction_ok(b, e[i].0, e[i].1)
    &&& forall|j: int| 0 <= j < i ==> instruction_ok(b, (#[trigger] e[j]).0, e[j].1)
}

/// Every instruction of the text builds.
pub open spec fn dockerfile_ok(b: Seq<u8>) -> bool {
    forall|i: int| 0 <= i < extents_of(b, 0).len() ==> instruction_ok(b, (#[trigger] extents_of(b, 0)[i]).0, extents_of(b, 0)[i].1)
}

/// One instruction per extent of the text, each starting there, of the
/// kind its keyword names and holding what its arguments give.
pub open spec fn instructions_match(ins: Seq<Instruction>, b: Seq<u8>) -> bool {
    let e = extents_of(b, 0);
    &&& ins.len() == e.len()
    &&& forall|i: int| 0 <= i < ins.len() ==> (#[trigger] ins[i]).spec_span().start == e[i].0
        && shape_ok(ins[i], b, e[i].0, letters_end(b, e[i].0, e[i].1), e[i].1)
}

/// Parses the text of a Dockerfile: one instruction after another, with
/// blank lines and comment lines between them. `FROM`s are numbered from 0
/// in order, and the `ARG`s before the first `FROM` are collected as global
/// arguments.
fn parse_dockerfile(input: &str) -> (r: Result<Dockerfile, Error>)
    ensures
        r matches Err(e) ==> exists|i: int| first_failure(input.spec_bytes(), i) && error_fits(
            e,
            input.spec_bytes(),
            extents_of(input.spec_bytes(), 0)[i].0,
            extents_of(input.spec_bytes(), 0)[i].1,
        ),
        r is Ok <==> dockerfile_ok(input.spec_bytes()),
        r matches Ok(d) ==> {
            &&& d.content@ == input@
            &&& spans_ordered(d.instructions@, input.spec_bytes().len() as int)
            &&& forall|i: int| 0 <= i < d.instructions@.len() ==> field_fits(#[trigger] d.instructions@[i], input.spec_bytes())
            &&& from_indices_ok(d.instructions@)
            &&& d.global_args@ == global_args_of(d.instructions@)
            &&& instructions_match(d.instructions@, input.spec_bytes())
        },
{
    let b = input.as_bytes();
    let n = b.len();
    let mut instructions: Vec<Instruction> = Vec::new();
    let mut global_args: Vec<ArgInstruction> = Vec::new();
    let mut from_index: usize = 0;
    let mut i: usize = 0;
    let ghost all = extents_of(b@, 0);
    let ghost done = Seq::<(int, int)>::empty();
    proof {
        assert(done + extents_of(b@, 0) =~= all);
    }
    loop
        invariant
            b@ == input.spec_bytes(),
            n == b@.len(),
            i <= n,
            all == extents_of(b@, 0),
            done + extents_of(b@, i as int) == all,
            done.len() == instructions@.len(),
            forall|j: int| 0 <= j < done.len() ==> instruction_ok(b@, (#[trigger] done[j]).0, done[j].1),
            forall|j: int| 0 <= j < instructions@.len() ==> (#[trigger] instructions@[j]).spec_span().start == done[j].0
                && shape_ok(instructions@[j], b@, done[j].0, letters_end(b@, done[j].0, done[j].1), done[j].1),
            ascii_cut(b@, i as int),
            instructions@.len() <= i,
            forall|j: int| 0 <= j < instructions@.len() ==> (#[trigger] instructions@[j]).spec_span().start <= instructions@[j].spec_span().end <= i,
            forall|j: int| #![trigger instructions@[j - 1], instructions@[j]] 0 < j < instructions@.len() ==> instructions@[j - 1].spec_span().end <= instructions@[j].spec_span().start,
            forall|j: int| 0 <= j < instructions@.len() ==> field_fits(#[trigger] instructions@[j], b@),
            from_indices_ok(instructions@),
            from_index == from_count(instructions@),
            global_args@ == global_args_of(instructions@),
        decreases n - i,
    {
        let t = skip_blanks(b, i, n);
        if t >= n {
            proof {
                assert(extents_of(b@, i as int) =~= Seq::<(int, int)>::empty());
                assert(done =~= all);
            }
            return Ok(Dockerfile { content: input.to_owned(), global_args, instructions });
        }
        if b[t] == 10u8 {
            proof {
                assert(extents_of(b@, i as int) == extents_of(b@, t + 1));
            }
            i = t + 1;
        } else if b[t] == 35u8 {
            let e = line_end(b, t, n);
            proof {
                if e < n {
                    assert(extents_of(b@, i as int) == extents_of(b@, e + 1));
                } else {
                    assert(extents_of(b@, i as int) =~= Seq::<(int, int)>::empty());
                    assert(extents_of(b@, e as int) =~= Seq::<(int, int)>::empty());
                }
            }
            i = e;
            if e < n {
                i = e + 1;
            }
        } else {
            let label = starts_label(b, t);
            let q = instruction_end(b, t, label);
            proof {
                lemma_instruction_end(b@, t as int, label);
                assert(extents_of(b@, i as int) == seq![(t as int, q as int)] + extents_of(b@, q as int));
                assert(all[done.len() as int] == (t as int, q as int));
            }
            let ins = match build_instruction(input, b, t, q) {
                Ok(x) => x,
                Err(e) => {
                    proof {
                        let at = done.len() as int;
                        assert forall|j: int| 0 <= j < at implies instruction_ok(b@, (#[trigger] all[j]).0, all[j].1) by {
                            assert(all[j] == done[j]);
                        }
                        assert(first_failure(b@, at));
                    }
                    return Err(e);
                },
            };
            let ghost before = instructions@;
            proof {
                lemma_from_count_le(before);
            }
            let ins = match ins {
                Instruction::From(f) => {
                    let mut f = f;
                    f.index = from_index;
                    from_index = from_index + 1;
                    Instruction::From(f)
                },
                Instruction::Arg(a) => {
                    if from_index == 0 {
                        global_args.push(a.duplicate());
                    }
                    Instruction::Arg(a)
                },
                other => other,
            };
            instructions.push(ins);
            proof {
                let old_done = done;
                done = done.push((t as int, q as int));
                assert(done + extents_of(b@, q as int) =~= old_done + extents_of(b@, i as int));
                assert(instructions@.drop_last() =~= before);
                assert forall|j: int| 0 <= j < instructions@.len() && (#[trigger] instructions@[j]) is From implies instructions@[j]->From_0.index == from_count(instructions@.subrange(0, j)) by {
                    if j < before.len() {
                        assert(instructions@.subrange(0, j) =~= before.subrange(0, j));
                    } else {
                        assert(instructions@.subrange(0, j) =~= before);
                    }
                }
            }
            i = q;
        }
    }
}

impl Dockerfile {
    /// Parses a Dockerfile from its text.
    pub fn parse(input: &str) -> (r: Result<Dockerfile, Error>)
        ensures
            r matches Err(e) ==> exists|i: int| first_failure(input.spec_bytes(), i) && error_fits(
                e,
                input.spec_bytes(),
                extents_of(input.spec_bytes(), 0)[i].0,
                extents_of(input.spec_bytes(), 0)[i].1,
            ),
            r is Ok <==> dockerfile_ok(input.spec_bytes()),
            r matches Ok(d) ==> {
                &&& d.content@ == input@
                &&& spans_ordered(d.instructions@, input.spec_bytes().len() as int)
                &&& forall|i: int| 0 <= i < d.instructions@.len() ==> field_fits(#[trigger] d.instructions@[i], input.spec_bytes())
                &&& from_indices_ok(d.instructions@)
                &&& d.global_args@ == global_args_of(d.instructions@)
                &&& instructions_match(d.instructions@, input.spec_bytes())
            },
    {
        parse_dockerfile(input)
    }

    /// A splicer over a copy of this file's text.
    pub fn splicer(&self) -> (r: Splicer)
        ensures
            r.content@ == self.content@,
            r.log() == Seq::<crate::splicer::SpliceOffset>::empty(),
    {
        Splicer::from_str(self.content.as_str())
    }

    /// The first global argument (an `ARG` before the first `FROM`) named
    /// `name`.
    pub fn get_global_arg(&self, name: &str) -> (r: Option<&ArgInstruction>)
        ensures
            match r {
                Some(a) => exists|i: int|
                    0 <= i < self.global_args@.len() && self.global_args@[i] == *a && a.name.content@ == name@
                        && forall|j: int| 0 <= j < i ==> (#[trigger] self.global_args@[j]).name.content@ != name@,
                None => forall|i: int| 0 <= i < self.global_args@.len() ==> (#[trigger] self.global_args@[i]).name.content@ != name@,
            },
    {
        let key = name.to_owned();
        let mut i: usize = 0;
        while i < self.global_args.len()
            invariant
                key@ == name@,
                i <= self.global_args@.len(),
                forall|j: int| 0 <= j < i ==> (#[trigger] self.global_args@[j]).name.content@ != name@,
            decreases self.global_args@.len() - i,
        {
            if self.global_args[i].name.content == key {
                return Some(&self.global_args[i]);
            }
            i = i + 1;
        }
        None
    }
}

} // verus!
