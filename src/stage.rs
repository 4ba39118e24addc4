use vstd::prelude::*;
use vstd::string::*;

use crate::dockerfile::{Dockerfile, Instruction, from_count};
use crate::image::ImageRef;
use crate::instructions::FromInstruction;
use crate::parser::lower_byte;
use crate::text::{utf8, lemma_utf8_injective};

verus! {

/// Each byte in ASCII lower case.
pub open spec fn ascii_lower(b: Seq<u8>) -> Seq<u8> {
    b.map_values(|c: u8| lower_byte(c))
}

/// Relies on `str::to_ascii_lowercase`: ASCII letters `A`..`Z` become
/// `a`..`z`, and every other character is kept.
#[verifier::external_body]
fn lowercase(s: &str) -> (r: String)
    ensures
        utf8(r@) == ascii_lower(s.spec_bytes()),
{
    s.to_ascii_lowercase()
}

/// The bytes of `scratch`.
pub open spec fn scratch() -> Seq<u8> {
    seq![115u8, 99u8, 114u8, 97u8, 116u8, 99u8, 104u8]
}

/// The parent image of a build stage.
#[derive(Debug, Clone, Copy, PartialEq, Eq)]
pub enum StageParent<'a> {
    /// An image built elsewhere, possibly from a remote registry.
    Image(&'a ImageRef),
    /// The index of an earlier stage of the same file.
    Stage(usize),
    /// The empty image.
    Scratch,
}

/// A build stage: a `FROM` instruction and the instructions after it, up
/// to the next `FROM`. Stages are equal when their indices are.
#[derive(Debug)]
pub struct Stage<'a> {
    pub index: usize,
    /// The stage's alias in lower case, if it has one.
    pub name: Option<String>,
    pub instructions: Vec<&'a Instruction>,
    /// The image this stage starts from.
    pub parent: StageParent<'a>,
    /// The image at the end of the chain of parents: never a stage.
    pub root: StageParent<'a>,
}

impl<'a> PartialEq for Stage<'a> {
    fn eq(&self, other: &Stage<'a>) -> bool {
        self.index == other.index
    }
}

impl<'a> vstd::std_specs::cmp::PartialEqSpecImpl for Stage<'a> {
    open spec fn obeys_eq_spec() -> bool {
        true
    }

    open spec fn eq_spec(&self, other: &Stage<'a>) -> bool {
        self.index == other.index
    }
}

/// The stages of a multi-stage build, in order.
#[derive(Debug)]
pub struct Stages<'a> {
    pub stages: Vec<Stage<'a>>,
}

/// The names of stages, as bytes.
pub open spec fn stage_name(s: Stage) -> Option<Seq<u8>> {
    match s.name {
        Some(n) => Some(utf8(n@)),
        None => None,
    }
}

/// `i` is the first stage named `n`.
pub open spec fn first_named(st: Seq<Stage>, n: Seq<u8>, i: int) -> bool {
    &&& 0 <= i < st.len()
    &&& stage_name(st[i]) == Some(n)
    &&& forall|j: int| 0 <= j < i ==> stage_name(#[trigger] st[j]) != Some(n)
}

/// The parent of a stage whose image, in lower case, is `img`, given the
/// stages before it: scratch, else the first earlier stage of that name,
/// else the image itself.
pub open spec fn parent_ok<'a>(p: StageParent<'a>, before: Seq<Stage<'a>>, img: Seq<u8>, image: &'a ImageRef) -> bool {
    if img == scratch() {
        p == StageParent::<'a>::Scratch
    } else if exists|i: int| first_named(before, img, i) {
        p matches StageParent::Stage(i) && first_named(before, img, i as int)
    } else {
        p == StageParent::<'a>::Image(image)
    }
}

/// The root of a stage: the root of its parent stage, or its parent.
pub open spec fn root_ok<'a>(s: Stage<'a>, before: Seq<Stage<'a>>) -> bool {
    match s.parent {
        StageParent::Stage(i) => 0 <= i < before.len() && s.root == before[i as int].root,
        _ => s.root == s.parent,
    }
}

/// The instructions of all stages, one stage after another.
pub open spec fn stage_instructions<'a>(st: Seq<Stage<'a>>) -> Seq<Instruction>
    decreases st.len(),
{
    if st.len() == 0 {
        Seq::empty()
    } else {
        stage_instructions(st.drop_last()) + deref_all(st.last().instructions@)
    }
}

/// The instructions that a list of references points to.
pub open spec fn deref_all<'a>(s: Seq<&'a Instruction>) -> Seq<Instruction> {
    s.map_values(|r: &'a Instruction| *r)
}

/// How many instructions come before the first `FROM`.
pub open spec fn leading_count(ins: Seq<Instruction>) -> nat
    decreases ins.len(),
{
    if ins.len() == 0 {
        0
    } else if from_count(ins.drop_last()) == 0 && !(ins.last() is From) {
        leading_count(ins.drop_last()) + 1
    } else {
        leading_count(ins.drop_last())
    }
}

/// A stage as built from the stages before it.
pub open spec fn stage_ok<'a>(s: Stage<'a>, before: Seq<Stage<'a>>) -> bool {
    &&& s.index == before.len()
    &&& s.instructions@.len() >= 1
    &&& s.instructions@[0] is From
    &&& forall|t: int| 1 <= t < s.instructions@.len() ==> !((#[trigger] s.instructions@[t]) is From)
    &&& stage_name(s) == match s.instructions@[0]->From_0.alias {
        Some(a) => Some(ascii_lower(utf8(a.content@))),
        None => None,
    }
    &&& parent_ok(s.parent, before, ascii_lower(utf8(s.instructions@[0]->From_0.image.content@)), &s.instructions@[0]->From_0.image_parsed)
    &&& root_ok(s, before)
    &&& !(s.root is Stage)
}

/// Whether `a` and `w` hold the same bytes.
fn same_bytes(a: &[u8], w: &[u8]) -> (r: bool)
    ensures
        r == (a@ == w@),
{
    if a.len() != w.len() {
        return false;
    }
    let mut i: usize = 0;
    while i < a.len()
        invariant
            a@.len() == w@.len(),
            i <= a@.len(),
            forall|k: int| 0 <= k < i ==> a@[k] == w@[k],
        decreases a@.len() - i,
    {
        if a[i] != w[i] {
            return false;
        }
        i = i + 1;
    }
    assert(a@ =~= w@);
    true
}

/// The first stage of `st` named `name`.
fn find_named<'a>(st: &Vec<Stage<'a>>, name: &String) -> (r: Option<usize>)
    ensures
        match r {
            Some(i) => first_named(st@, utf8(name@), i as int),
            None => forall|i: int| 0 <= i < st@.len() ==> stage_name(#[trigger] st@[i]) != Some(utf8(name@)),
        },
{
    let mut i: usize = 0;
    while i < st.len()
        invariant
            i <= st@.len(),
            forall|j: int| 0 <= j < i ==> stage_name(#[trigger] st@[j]) != Some(utf8(name@)),
        decreases st@.len() - i,
    {
        let found = match &st[i].name {
            Some(n) => *n == *name,
            None => false,
        };
        if found {
            return Some(i);
        }
        proof {
            match st@[i as int].name {
                Some(n) => {
                    if utf8(n@) == utf8(name@) {
                        lemma_utf8_injective(n@, name@);
                    }
                },
                None => {},
            }
        }
        i = i + 1;
    }
    None
}

/// Starts the stage of the `FROM` instruction `ins`, after the stages
/// `before`.
fn start_stage<'a>(ins: &'a Instruction, from: &'a FromInstruction, before: &Vec<Stage<'a>>) -> (r: Stage<'a>)
    requires
        *ins == Instruction::From(*from),
        forall|j: int| 0 <= j < before@.len() ==> !((#[trigger] before@[j]).root is Stage),
    ensures
        stage_ok(r, before@),
        r.instructions@ == seq![ins],
{
    let image_name = lowercase(from.image.content.as_str());
    let scratch_word: [u8; 7] = [115u8, 99u8, 114u8, 97u8, 116u8, 99u8, 104u8];
    let parent = if same_bytes(image_name.as_str().as_bytes(), &scratch_word) {
        StageParent::Scratch
    } else {
        match find_named(before, &image_name) {
            Some(i) => StageParent::Stage(i),
            None => StageParent::Image(&from.image_parsed),
        }
    };
    let root = match parent {
        StageParent::Stage(i) => before[i].root,
        _ => parent,
    };
    let name = match &from.alias {
        Some(a) => Some(lowercase(a.content.as_str())),
        None => None,
    };
    let mut instructions: Vec<&'a Instruction> = Vec::new();
    instructions.push(ins);
    let r = Stage { index: before.len(), name, instructions, parent, root };
    proof {
        assert(r.instructions@[0] == ins);
    }
    r
}

/// The stages built so far, the one still open included.
pub open spec fn with_open<'a>(done: Seq<Stage<'a>>, open: Option<Stage<'a>>) -> Seq<Stage<'a>> {
    match open {
        Some(c) => done.push(c),
        None => done,
    }
}

proof fn lemma_leading_count_le(ins: Seq<Instruction>)
    ensures
        leading_count(ins) <= ins.len(),
    decreases ins.len(),
{
    if ins.len() > 0 {
        lemma_leading_count_le(ins.drop_last());
    }
}

proof fn lemma_stage_instructions_push<'a>(st: Seq<Stage<'a>>, s: Stage<'a>)
    ensures
        stage_instructions(st.push(s)) == stage_instructions(st) + deref_all(s.instructions@),
{
    assert(st.push(s).drop_last() =~= st);
}

impl<'a> Stages<'a> {
    /// Splits a Dockerfile into its build stages: each `FROM` opens a stage
    /// that runs to the next one, and instructions before the first `FROM`
    /// belong to none.
    pub fn new(dockerfile: &'a Dockerfile) -> (r: Stages<'a>)
        ensures
            r.stages@.len() == from_count(dockerfile.instructions@),
            forall|j: int| 0 <= j < r.stages@.len() ==> stage_ok(#[trigger] r.stages@[j], r.stages@.subrange(0, j)),
            stage_instructions(r.stages@) == dockerfile.instructions@.subrange(
                leading_count(dockerfile.instructions@) as int,
                dockerfile.instructions@.len() as int,
            ),
    {
        let ghost ins = dockerfile.instructions@;
        let mut stages: Vec<Stage<'a>> = Vec::new();
        let mut open: Option<Stage<'a>> = None;
        let mut i: usize = 0;
        proof {
            assert(ins.subrange(0, 0) =~= Seq::<Instruction>::empty());
            assert(stage_instructions(stages@) =~= ins.subrange(0, 0));
        }
        while i < dockerfile.instructions.len()
            invariant
                ins == dockerfile.instructions@,
                i <= ins.len(),
                forall|j: int| 0 <= j < stages@.len() ==> stage_ok(#[trigger] stages@[j], stages@.subrange(0, j)),
                open matches Some(c) ==> stage_ok(c, stages@),
                open is None ==> stages@.len() == 0 && from_count(ins.subrange(0, i as int)) == 0
                    && leading_count(ins.subrange(0, i as int)) == i,
                with_open(stages@, open).len() == from_count(ins.subrange(0, i as int)),
                stage_instructions(with_open(stages@, open)) == ins.subrange(
                    leading_count(ins.subrange(0, i as int)) as int,
                    i as int,
                ),
            decreases ins.len() - i,
        {
            let item: &'a Instruction = &dockerfile.instructions[i];
            let ghost pre = ins.subrange(0, i as int);
            let ghost next = ins.subrange(0, i + 1);
            let ghost old_all = with_open(stages@, open);
            proof {
                assert(next.drop_last() =~= pre);
                assert(next.last() == *item);
                lemma_leading_count_le(pre);
                if (*item) is From || from_count(pre) > 0 {
                    assert(leading_count(next) == leading_count(pre));
                }
            }
            match item {
                Instruction::From(f) => {
                    let taken = open;
                    open = None;
                    match taken {
                        Some(c) => {
                            let ghost before = stages@;
                            stages.push(c);
                            proof {
                                assert(stages@.subrange(0, before.len() as int) =~= before);
                                assert forall|j: int| 0 <= j < stages@.len() implies stage_ok(#[trigger] stages@[j], stages@.subrange(0, j)) by {
                                    if j < before.len() {
                                        assert(stages@.subrange(0, j) =~= before.subrange(0, j));
                                    }
                                }
                            }
                        },
                        None => {},
                    }
                    proof {
                        assert(stages@ == old_all);
                    }
                    let st = start_stage(item, f, &stages);
                    open = Some(st);
                    proof {
                        lemma_stage_instructions_push(stages@, st);
                        assert(ins.subrange(leading_count(next) as int, i + 1) =~= ins.subrange(
                            leading_count(pre) as int,
                            i as int,
                        ).push(*item));
                        assert(deref_all(st.instructions@) =~= seq![*item]);
                    }
                },
                _ => {
                    let taken = open;
                    open = None;
                    match taken {
                        Some(c) => {
                            let mut c = c;
                            let ghost before = c;
                            c.instructions.push(item);
                            proof {
                                lemma_stage_instructions_push(stages@, before);
                                lemma_stage_instructions_push(stages@, c);
                                assert(ins.subrange(leading_count(next) as int, i + 1) =~= ins.subrange(
                                    leading_count(pre) as int,
                                    i as int,
                                ).push(*item));
                                assert(deref_all(c.instructions@) =~= deref_all(before.instructions@).push(*item));
                            }
                            open = Some(c);
                        },
                        None => {
                            proof {
                                assert(ins.subrange(leading_count(next) as int, i + 1) =~= Seq::<Instruction>::empty());
                            }
                        },
                    }
                },
            }
            i = i + 1;
        }
        let ghost last_all = with_open(stages@, open);
        match open {
            Some(c) => {
                let ghost before = stages@;
                stages.push(c);
                proof {
                    assert forall|j: int| 0 <= j < stages@.len() implies stage_ok(#[trigger] stages@[j], stages@.subrange(0, j)) by {
                        if j < before.len() {
                            assert(stages@.subrange(0, j) =~= before.subrange(0, j));
                        } else {
                            assert(stages@.subrange(0, j) =~= before);
                        }
                    }
                }
            },
            None => {},
        }
        proof {
            assert(ins.subrange(0, ins.len() as int) =~= ins);
        }
        Stages { stages }
    }
}

/// A decimal digit.
pub open spec fn is_digit(c: u8) -> bool {
    48 <= c <= 57
}

/// The value of a run of decimal digits.
pub open spec fn digits_value(d: Seq<u8>) -> nat
    decreases d.len(),
{
    if d.len() == 0 {
        0
    } else {
        digits_value(d.drop_last()) * 10 + (d.last() - 48) as nat
    }
}

/// The index that a text spells: an optional `+`, then one or more decimal
/// digits, of a value that fits `usize`.
pub open spec fn index_of_text(b: Seq<u8>) -> Option<nat> {
    let d = unsigned_part(b);
    if d.len() > 0 && all_digits(d) && digits_value(d) <= usize::MAX {
        Some(digits_value(d))
    } else {
        None
    }
}

/// A text without its leading `+`, if it has one.
pub open spec fn unsigned_part(b: Seq<u8>) -> Seq<u8> {
    if b.len() > 0 && b[0] == 43u8 {
        b.drop_first()
    } else {
        b
    }
}

/// Every byte is a decimal digit.
pub open spec fn all_digits(d: Seq<u8>) -> bool {
    forall|i: int| 0 <= i < d.len() ==> is_digit(#[trigger] d[i])
}

proof fn lemma_digits_grow(d: Seq<u8>, k: int)
    requires
        0 <= k <= d.len(),
        all_digits(d),
    ensures
        digits_value(d.subrange(0, k)) <= digits_value(d),
    decreases d.len() - k,
{
    if k < d.len() {
        lemma_digits_grow(d, k + 1);
        let s = d.subrange(0, k + 1);
        assert(s.drop_last() =~= d.subrange(0, k));
        assert(digits_value(s) == digits_value(d.subrange(0, k)) * 10 + (s.last() - 48) as nat);
    } else {
        assert(d.subrange(0, k) =~= d);
    }
}

/// Reads a stage index written in decimal.
fn parse_index(s: &str) -> (r: Option<usize>)
    ensures
        match r {
            Some(v) => index_of_text(s.spec_bytes()) == Some(v as nat),
            None => index_of_text(s.spec_bytes()) is None,
        },
{
    let b = s.as_bytes();
    let n = b.len();
    let start: usize = if n > 0 && b[0] == 43u8 { 1 } else { 0 };
    let ghost d = b@.subrange(start as int, n as int);
    proof {
        if start == 1 {
            assert(d =~= b@.drop_first());
        } else {
            assert(d =~= b@);
        }
    }
    if start == n {
        return None;
    }
    let mut v: usize = 0;
    let mut i: usize = start;
    proof {
        assert(d.subrange(0, 0) =~= Seq::<u8>::empty());
    }
    while i < n
        invariant
            b@ == s.spec_bytes(),
            n == b@.len(),
            start <= i <= n,
            d == b@.subrange(start as int, n as int),
            d == unsigned_part(b@),
            forall|k: int| start <= k < i ==> is_digit(#[trigger] b@[k]),
            v as nat == digits_value(d.subrange(0, i - start)),
        decreases n - i,
    {
        let c = b[i];
        if c < 48u8 || c > 57u8 {
            proof {
                assert(d[i - start] == b@[i as int]);
                assert(!is_digit(d[i - start]));
                assert(!all_digits(d));
                assert(index_of_text(b@) is None);
            }
            return None;
        }
        let digit = (c - 48u8) as usize;
        proof {
            let t = d.subrange(0, i - start + 1);
            assert(t.drop_last() =~= d.subrange(0, i - start));
            assert(t.last() == c);
            assert(digits_value(t) == v * 10 + digit);
        }
        if v > (usize::MAX - digit) / 10 {
            proof {
                assert(v * 10 + digit > usize::MAX) by (nonlinear_arith)
                    requires
                        v > (usize::MAX - digit) / 10,
                        digit <= 9,
                ;
                if all_digits(d) {
                    lemma_digits_grow(d, i - start + 1);
                    assert(digits_value(d) > usize::MAX);
                }
                assert(index_of_text(b@) is None);
            }
            return None;
        }
        proof {
            assert(v * 10 + digit <= usize::MAX) by (nonlinear_arith)
                requires
                    v <= (usize::MAX - digit) / 10,
                    digit <= 9,
            ;
        }
        v = v * 10 + digit;
        i = i + 1;
    }
    proof {
        assert(d.subrange(0, n - start) =~= d);
        assert forall|k: int| 0 <= k < d.len() implies is_digit(#[trigger] d[k]) by {
            assert(d[k] == b@[start + k]);
        }
        assert(all_digits(d));
    }
    Some(v)
}

impl<'a> Stage<'a> {
    /// The position, within this stage, of the first `ARG` that defines
    /// `name`: only instructions after it see the argument.
    pub fn arg_index(&self, name: &str) -> (r: Option<usize>)
        ensures
            match r {
                Some(i) => i < self.instructions@.len() && self.instructions@[i as int] is Arg
                    && self.instructions@[i as int]->Arg_0.name.content@ == name@ && forall|j: int|
                    0 <= j < i ==> !((#[trigger] self.instructions@[j]) is Arg
                        && self.instructions@[j]->Arg_0.name.content@ == name@),
                None => forall|j: int|
                    0 <= j < self.instructions@.len() ==> !((#[trigger] self.instructions@[j]) is Arg
                        && self.instructions@[j]->Arg_0.name.content@ == name@),
            },
    {
        let key = name.to_owned();
        let mut i: usize = 0;
        while i < self.instructions.len()
            invariant
                key@ == name@,
                i <= self.instructions@.len(),
                forall|j: int|
                    0 <= j < i ==> !((#[trigger] self.instructions@[j]) is Arg
                        && self.instructions@[j]->Arg_0.name.content@ == name@),
            decreases self.instructions@.len() - i,
        {
            match self.instructions[i] {
                Instruction::Arg(a) => {
                    if a.name.content == key {
                        return Some(i);
                    }
                },
                _ => {},
            }
            i = i + 1;
        }
        None
    }
}

impl<'a> Stages<'a> {
    /// The first stage whose alias is `name`, in any case.
    pub fn get_by_name(&self, name: &str) -> (r: Option<&Stage<'a>>)
        ensures
            match r {
                Some(s) => exists|i: int| first_named(self.stages@, ascii_lower(name.spec_bytes()), i) && *s == self.stages@[i],
                None => forall|i: int|
                    0 <= i < self.stages@.len() ==> stage_name(#[trigger] self.stages@[i]) != Some(ascii_lower(name.spec_bytes())),
            },
    {
        let lower = lowercase(name);
        match find_named(&self.stages, &lower) {
            Some(i) => Some(&self.stages[i]),
            None => None,
        }
    }

    /// The stage that `key` refers to: by index where it reads as one,
    /// else by name.
    pub fn get(&self, key: &str) -> (r: Option<&Stage<'a>>)
        ensures
            match index_of_text(key.spec_bytes()) {
                Some(i) => match r {
                    Some(s) => i < self.stages@.len() && *s == self.stages@[i as int],
                    None => i >= self.stages@.len(),
                },
                None => match r {
                    Some(s) => exists|i: int| first_named(self.stages@, ascii_lower(key.spec_bytes()), i) && *s == self.stages@[i],
                    None => forall|i: int|
                        0 <= i < self.stages@.len() ==> stage_name(#[trigger] self.stages@[i]) != Some(ascii_lower(key.spec_bytes())),
                },
            },
    {
        match parse_index(key) {
            Some(i) => {
                if i < self.stages.len() {
                    Some(&self.stages[i])
                } else {
                    None
                }
            },
            None => self.get_by_name(key),
        }
    }

    /// The stages, in order.
    pub fn iter(&self) -> (r: &[Stage<'a>])
        ensures
            r@ == self.stages@,
    {
        self.stages.as_slice()
    }
}

impl Dockerfile {
    /// The build stages of this file.
    pub fn stages(&self) -> (r: Stages<'_>)
        ensures
            r.stages@.len() == from_count(self.instructions@),
            forall|j: int| 0 <= j < r.stages@.len() ==> stage_ok(#[trigger] r.stages@[j], r.stages@.subrange(0, j)),
            stage_instructions(r.stages@) == self.instructions@.subrange(
                leading_count(self.instructions@) as int,
                self.instructions@.len() as int,
            ),
    {
        Stages::new(self)
    }

    /// The build stages of this file, in order.
    pub fn iter_stages(&self) -> (r: Vec<Stage<'_>>)
        ensures
            r@.len() == from_count(self.instructions@),
            forall|j: int| 0 <= j < r@.len() ==> stage_ok(#[trigger] r@[j], r@.subrange(0, j)),
            stage_instructions(r@) == self.instructions@.subrange(
                leading_count(self.instructions@) as int,
                self.instructions@.len() as int,
            ),
    {
        Stages::new(self).stages
    }
}

} // verus!
