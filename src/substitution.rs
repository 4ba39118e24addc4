use vstd::prelude::*;
use vstd::string::*;

use crate::dockerfile::Dockerfile;
use crate::image::{ImageRef, ImageRefModel, image_ref_model, image_ref_text};
use crate::instructions::ArgInstruction;
use crate::splicer::{Span, Splicer, SpliceOffset, splice_model};
use crate::text::{utf8, ascii_cut, ascii_substring, lemma_utf8_injective};

verus! {

/// A byte that may stand in a variable name: an ASCII letter, digit or `_`.
pub open spec fn is_name_byte(c: u8) -> bool {
    (48 <= c <= 57) || (65 <= c <= 90) || (97 <= c <= 122) || c == 95
}

/// The end of the run of name bytes that starts at `i`.
pub open spec fn name_end(b: Seq<u8>, i: int) -> int
    decreases b.len() - i,
{
    if 0 <= i < b.len() && is_name_byte(b[i]) {
        name_end(b, i + 1)
    } else {
        i
    }
}

/// The variable reference that starts at `i`, if one does: `$name` with the
/// longest run of name bytes, or else `${name}`. Gives the end of the
/// reference and the range of its name.
pub open spec fn reference_at(b: Seq<u8>, i: int) -> Option<(int, int, int)> {
    if 0 <= i && i + 1 < b.len() && b[i] == 36u8 {
        if is_name_byte(b[i + 1]) {
            Some((name_end(b, i + 1), i + 1, name_end(b, i + 1)))
        } else if b[i + 1] == 123u8 && i + 2 < b.len() && is_name_byte(b[i + 2]) {
            let e = name_end(b, i + 2);
            if e < b.len() && b[e] == 125u8 {
                Some((e + 1, i + 2, e))
            } else {
                None
            }
        } else {
            None
        }
    } else {
        None
    }
}

/// The variable references of `b` from `i` on, left to right and without
/// overlap, each as (start, end, name start, name end).
pub open spec fn references_from(b: Seq<u8>, i: int) -> Seq<(int, int, int, int)>
    decreases b.len() - i,
    via references_from_decreases
{
    if i < 0 || i >= b.len() {
        Seq::empty()
    } else {
        match reference_at(b, i) {
            Some(m) => seq![(i, m.0, m.1, m.2)] + references_from(b, m.0),
            None => references_from(b, i + 1),
        }
    }
}

proof fn lemma_name_end_bounds(b: Seq<u8>, i: int)
    requires
        0 <= i <= b.len(),
    ensures
        i <= name_end(b, i) <= b.len(),
        forall|k: int| i <= k < name_end(b, i) ==> is_name_byte(b[k]),
    decreases b.len() - i,
{
    if i < b.len() && is_name_byte(b[i]) {
        lemma_name_end_bounds(b, i + 1);
    }
}

#[via_fn]
proof fn references_from_decreases(b: Seq<u8>, i: int) {
    if 0 <= i < b.len() {
        if i + 1 < b.len() {
            lemma_name_end_bounds(b, i + 1);
        }
        if i + 2 < b.len() {
            lemma_name_end_bounds(b, i + 2);
        }
    }
}

/// Each reference lies in `b` after `i`, its name is a non-empty run of name
/// bytes between ASCII bytes, and the references come in order.
proof fn lemma_references_shape(b: Seq<u8>, i: int)
    requires
        0 <= i,
    ensures
        forall|j: int|
            0 <= j < references_from(b, i).len() ==> {
                let m = #[trigger] references_from(b, i)[j];
                &&& i <= m.0 < m.2 < m.3 <= m.1 <= b.len()
                &&& ascii_cut(b, m.2)
                &&& ascii_cut(b, m.3)
                &&& forall|k: int| m.2 <= k < m.3 ==> is_name_byte(#[trigger] b[k])
            },
    decreases b.len() - i,
{
    if i < b.len() {
        if i + 1 < b.len() {
            lemma_name_end_bounds(b, i + 1);
            lemma_name_end_bounds(b, i + 2);
        }
        if i + 2 < b.len() {
            lemma_name_end_bounds(b, i + 3);
        }
        match reference_at(b, i) {
            Some(m) => {
                assert(i < m.1 < m.2 <= m.0 <= b.len());
                assert(is_name_byte(b[m.2 - 1]));
                lemma_references_shape(b, m.0);
                let r = references_from(b, i);
                assert(r == seq![(i, m.0, m.1, m.2)] + references_from(b, m.0));
                assert forall|j: int| 0 <= j < r.len() implies {
                    let x = #[trigger] r[j];
                    &&& i <= x.0 < x.2 < x.3 <= x.1 <= b.len()
                    &&& ascii_cut(b, x.2)
                    &&& ascii_cut(b, x.3)
                    &&& forall|k: int| x.2 <= k < x.3 ==> is_name_byte(#[trigger] b[k])
                } by {
                    if j > 0 {
                        assert(r[j] == references_from(b, m.0)[j - 1]);
                    }
                }
            },
            None => {
                lemma_references_shape(b, i + 1);
                assert(references_from(b, i) == references_from(b, i + 1));
            },
        }
    }
}

/// Relies on regex's `Regex::captures_iter` with the pattern
/// `\$(?:([A-Za-z0-9_]+)|\{([A-Za-z0-9_]+)\})`: its successive leftmost-first,
/// non-overlapping matches, each with the byte range of the whole match and
/// of the name group that took part in it.
#[verifier::external_body]
fn variable_references(s: &str) -> (r: Vec<(usize, usize, usize, usize)>)
    ensures
        r@.len() == references_from(s.spec_bytes(), 0).len(),
        forall|j: int|
            0 <= j < r@.len() ==> ((#[trigger] r@[j]).0 as int, r@[j].1 as int, r@[j].2 as int, r@[j].3 as int)
                == references_from(s.spec_bytes(), 0)[j],
{
    let re = regex::Regex::new(r"\$(?:([A-Za-z0-9_]+)|\{([A-Za-z0-9_]+)\})").unwrap();
    re.captures_iter(s).map(|c| {
        let whole = c.get(0).unwrap();
        let name = c.get(1).or_else(|| c.get(2)).unwrap();
        (whole.start(), whole.end(), name.start(), name.end())
    }).collect()
}

/// The value of the last binding of `name` in `vars`.
pub open spec fn lookup(vars: Seq<(Seq<u8>, Seq<u8>)>, name: Seq<u8>) -> Option<Seq<u8>>
    decreases vars.len(),
{
    if vars.len() == 0 {
        None
    } else if vars.last().0 == name {
        Some(vars.last().1)
    } else {
        lookup(vars.drop_last(), name)
    }
}

/// The bindings as bytes.
pub open spec fn vars_model(vars: Seq<(String, String)>) -> Seq<(Seq<u8>, Seq<u8>)> {
    vars.map_values(|p: (String, String)| (utf8(p.0@), utf8(p.1@)))
}

/// The names held in a list, as bytes.
pub open spec fn names_set(v: Seq<String>) -> Set<Seq<u8>> {
    Set::new(|n: Seq<u8>| exists|i: int| 0 <= i < v.len() && utf8(v[i]@) == n)
}

/// Substitution of the first `k` references of `s`, as the splicer's buffer,
/// its log and the names used; `None` once one of them cannot be resolved.
pub open spec fn substitute_prefix(
    s: Seq<u8>,
    k: int,
    vars: Seq<(Seq<u8>, Seq<u8>)>,
    depth: nat,
) -> Option<(Seq<u8>, Seq<SpliceOffset>, Set<Seq<u8>>)>
    decreases depth, 0int, k,
{
    if k <= 0 {
        Some((s, Seq::empty(), Set::empty()))
    } else {
        match substitute_prefix(s, k - 1, vars, depth) {
            None => None,
            Some(acc) => {
                let refs = references_from(s, 0);
                if depth == 0 || k > refs.len() {
                    None
                } else {
                    let m = refs[k - 1];
                    let name = s.subrange(m.2, m.3);
                    match lookup(vars, name) {
                        None => None,
                        Some(v) => match substitute_spec(v, vars, (depth - 1) as nat) {
                            None => None,
                            Some(inner) => {
                                let span = Span { start: m.0 as usize, end: m.1 as usize };
                                let next = splice_model(acc.0, acc.1, span, inner.0);
                                Some((next.0, next.1, acc.2.union(inner.1).insert(name)))
                            },
                        },
                    }
                }
            },
        }
    }
}

/// Every `$name` or `${name}` of `s` replaced, left to right, by the value of
/// `name` with its own references replaced at one less depth, together with
/// the names used. `None` where a name has no value or a reference is met at
/// depth 0.
pub open spec fn substitute_spec(
    s: Seq<u8>,
    vars: Seq<(Seq<u8>, Seq<u8>)>,
    depth: nat,
) -> Option<(Seq<u8>, Set<Seq<u8>>)>
    decreases depth, 1int, 0int,
{
    match substitute_prefix(s, references_from(s, 0).len() as int, vars, depth) {
        Some(r) => Some((r.0, r.2)),
        None => None,
    }
}

/// The index of the last binding whose name has the bytes `name`.
fn find_binding(vars: &Vec<(String, String)>, name: &String) -> (r: Option<usize>)
    ensures
        match r {
            Some(i) => i < vars@.len() && lookup(vars_model(vars@), utf8(name@)) == Some(
                utf8(vars@[i as int].1@),
            ),
            None => lookup(vars_model(vars@), utf8(name@)) == None::<Seq<u8>>,
        },
{
    let ghost vm = vars_model(vars@);
    let mut i = vars.len();
    proof {
        assert(vm.subrange(0, i as int) =~= vm);
    }
    while i > 0
        invariant
            i <= vars@.len(),
            vm == vars_model(vars@),
            lookup(vm, utf8(name@)) == lookup(vm.subrange(0, i as int), utf8(name@)),
        decreases i,
    {
        let ghost pre = vm.subrange(0, i as int);
        assert(pre.last() == (utf8(vars@[i - 1].0@), utf8(vars@[i - 1].1@)));
        assert(pre.drop_last() =~= vm.subrange(0, i - 1));
        if vars[i - 1].0 == *name {
            return Some(i - 1);
        }
        proof {
            if utf8(vars@[i - 1].0@) == utf8(name@) {
                lemma_utf8_injective(vars@[i - 1].0@, name@);
            }
        }
        i = i - 1;
    }
    None
}

proof fn lemma_names_push(v: Seq<String>, x: String)
    ensures
        names_set(v.push(x)) == names_set(v).insert(utf8(x@)),
{
    assert forall|n: Seq<u8>| names_set(v.push(x)).contains(n) <==> names_set(v).insert(utf8(x@)).contains(n) by {
        if names_set(v.push(x)).contains(n) {
            let i = choose|i: int| 0 <= i < v.push(x).len() && utf8(v.push(x)[i]@) == n;
            if i < v.len() {
                assert(names_set(v).contains(n));
            }
        }
        if names_set(v).contains(n) {
            let i = choose|i: int| 0 <= i < v.len() && utf8(v[i]@) == n;
            assert(v.push(x)[i] == v[i]);
        }
        if n == utf8(x@) {
            assert(v.push(x)[v.len() as int] == x);
        }
    }
    assert(names_set(v.push(x)) =~= names_set(v).insert(utf8(x@)));
}

/// Adds every name of `from` to `to`.
fn add_names(to: &mut Vec<String>, from: Vec<String>)
    ensures
        names_set(final(to)@) == names_set(old(to)@).union(names_set(from@)),
{
    let mut i: usize = 0;
    while i < from.len()
        invariant
            i <= from@.len(),
            names_set(to@) == names_set(old(to)@).union(names_set(from@.subrange(0, i as int))),
        decreases from@.len() - i,
    {
        let ghost before = to@;
        to.push(from[i].clone());
        proof {
            lemma_names_push(before, from@[i as int]);
            assert(from@.subrange(0, i + 1) =~= from@.subrange(0, i as int).push(from@[i as int]));
            lemma_names_push(from@.subrange(0, i as int), from@[i as int]);
            assert(names_set(to@) =~= names_set(old(to)@).union(names_set(from@.subrange(0, i + 1))));
        }
        i = i + 1;
    }
    proof {
        assert(from@.subrange(0, from@.len() as int) =~= from@);
    }
}

/// Once a reference cannot be resolved, no longer prefix can be.
proof fn lemma_prefix_none(
    s: Seq<u8>,
    k: int,
    k2: int,
    vars: Seq<(Seq<u8>, Seq<u8>)>,
    depth: nat,
)
    requires
        0 <= k <= k2,
        substitute_prefix(s, k, vars, depth) is None,
    ensures
        substitute_prefix(s, k2, vars, depth) is None,
    decreases k2 - k,
{
    if k2 > k {
        lemma_prefix_none(s, k, k2 - 1, vars, depth);
    }
}

/// Substitutes the references of `s`; on success also gives the names used.
fn substitute_inner(s: &str, vars: &Vec<(String, String)>, depth: u8) -> (r: Option<(String, Vec<String>)>)
    ensures
        match substitute_spec(s.spec_bytes(), vars_model(vars@), depth as nat) {
            Some(m) => r is Some && utf8((r->0).0@) == m.0 && names_set((r->0).1@) == m.1,
            None => r is None,
        },
    decreases depth,
{
    let ghost b = s.spec_bytes();
    let ghost vm = vars_model(vars@);
    let refs = variable_references(s);
    proof {
        lemma_references_shape(b, 0);
    }
    let mut splicer = Splicer::from_str(s);
    let mut used: Vec<String> = Vec::new();
    let mut k: usize = 0;
    proof {
        assert(names_set(used@) =~= Set::<Seq<u8>>::empty());
    }
    while k < refs.len()
        invariant
            b == s.spec_bytes(),
            vm == vars_model(vars@),
            k <= refs@.len(),
            refs@.len() == references_from(b, 0).len(),
            forall|j: int|
                0 <= j < refs@.len() ==> ((#[trigger] refs@[j]).0 as int, refs@[j].1 as int, refs@[j].2 as int, refs@[j].3 as int)
                    == references_from(b, 0)[j],
            forall|j: int|
                0 <= j < references_from(b, 0).len() ==> {
                    let m = #[trigger] references_from(b, 0)[j];
                    &&& 0 <= m.0 < m.2 < m.3 <= m.1 <= b.len()
                    &&& ascii_cut(b, m.2)
                    &&& ascii_cut(b, m.3)
                    &&& forall|q: int| m.2 <= q < m.3 ==> is_name_byte(#[trigger] b[q])
                },
            substitute_prefix(b, k as int, vm, depth as nat) == Some(
                (splicer.bytes(), splicer.log(), names_set(used@)),
            ),
        decreases refs@.len() - k,
    {
        let ghost total = references_from(b, 0).len() as int;
        if depth == 0 {
            proof {
                lemma_prefix_none(b, k + 1, total, vm, depth as nat);
            }
            return None;
        }
        let (start, end, name_start, name_end) = refs[k];
        let ghost m = references_from(b, 0)[k as int];
        let name = ascii_substring(s, name_start, name_end);
        let found = find_binding(vars, &name);
        let idx = match found {
            Some(i) => i,
            None => {
                proof {
                    lemma_prefix_none(b, k + 1, total, vm, depth as nat);
                }
                return None;
            },
        };
        let inner = substitute_inner(vars[idx].1.as_str(), vars, depth - 1);
        let (value, inner_used) = match inner {
            Some(p) => p,
            None => {
                proof {
                    lemma_prefix_none(b, k + 1, total, vm, depth as nat);
                }
                return None;
            },
        };
        let ghost acc = (splicer.bytes(), splicer.log(), names_set(used@));
        splicer.splice(&Span { start, end }, value.as_str());
        add_names(&mut used, inner_used);
        let ghost before_name = used@;
        used.push(name);
        proof {
            lemma_names_push(before_name, name);
        }
        k = k + 1;
    }
    Some((splicer.content, used))
}

/// Replaces every `$name` and `${name}` of `s` by the value of `name` in
/// `vars` (the last binding of a name counts), itself substituted at one
/// less depth, and adds the names used to `used_vars`. Gives `None`, and
/// leaves `used_vars` as it was, where a name has no binding or a reference
/// is met at depth 0; so references that refer to each other in a cycle
/// always end in `None`.
pub fn substitute(
    s: &str,
    vars: &Vec<(String, String)>,
    used_vars: &mut Vec<String>,
    max_recursion_depth: u8,
) -> (r: Option<String>)
    ensures
        match substitute_spec(s.spec_bytes(), vars_model(vars@), max_recursion_depth as nat) {
            Some(m) => r is Some && utf8(r->0@) == m.0 && names_set(final(used_vars)@) == names_set(
                old(used_vars)@,
            ).union(m.1),
            None => r is None && final(used_vars)@ == old(used_vars)@,
        },
{
    match substitute_inner(s, vars, max_recursion_depth) {
        Some((out, names)) => {
            add_names(used_vars, names);
            Some(out)
        },
        None => None,
    }
}

/// The global arguments that have a value, as name and value bytes, in
/// order.
pub open spec fn global_vars(args: Seq<ArgInstruction>) -> Seq<(Seq<u8>, Seq<u8>)>
    decreases args.len(),
{
    if args.len() == 0 {
        Seq::empty()
    } else {
        let rest = global_vars(args.drop_last());
        match args.last().value {
            Some(v) => rest.push((utf8(args.last().name.content@), utf8(v.content@))),
            None => rest,
        }
    }
}

/// The bindings that the global arguments of `dockerfile` give.
fn global_bindings(dockerfile: &Dockerfile) -> (r: Vec<(String, String)>)
    ensures
        vars_model(r@) == global_vars(dockerfile.global_args@),
{
    let args = &dockerfile.global_args;
    let mut out: Vec<(String, String)> = Vec::new();
    let mut i: usize = 0;
    proof {
        assert(vars_model(out@) =~= global_vars(args@.subrange(0, 0)));
    }
    while i < args.len()
        invariant
            i <= args@.len(),
            vars_model(out@) == global_vars(args@.subrange(0, i as int)),
        decreases args@.len() - i,
    {
        let a = &args[i];
        let ghost before = out@;
        match &a.value {
            Some(v) => {
                out.push((a.name.content.clone(), v.content.clone()));
            },
            None => {},
        }
        proof {
            let pre = args@.subrange(0, i + 1);
            assert(pre.drop_last() =~= args@.subrange(0, i as int));
            assert(pre.last() == *a);
            assert(vars_model(out@) =~= global_vars(pre));
        }
        i = i + 1;
    }
    proof {
        assert(args@.subrange(0, args@.len() as int) =~= args@);
    }
    out
}

impl ImageRef {
    /// This reference with the global arguments of `dockerfile` substituted
    /// into its text (to a depth of 16), parsed again, together with the
    /// names used. `None` where a variable is unknown or the references
    /// nest too deep.
    pub fn resolve_vars_with_context(&self, dockerfile: &Dockerfile) -> (r: Option<(ImageRef, Vec<String>)>)
        ensures
            match substitute_spec(image_ref_text(self@), global_vars(dockerfile.global_args@), 16) {
                Some(m) => r is Some && (r->0).0@ == image_ref_model(m.0) && names_set((r->0).1@) == m.1,
                None => r is None,
            },
    {
        let vars = global_bindings(dockerfile);
        let text = self.to_string();
        let mut used: Vec<String> = Vec::new();
        proof {
            assert(names_set(used@) =~= Set::<Seq<u8>>::empty());
        }
        match substitute(text.as_str(), &vars, &mut used, 16) {
            Some(s) => {
                proof {
                    assert(names_set(used@) =~= Set::<Seq<u8>>::empty().union(names_set(used@)));
                }
                Some((ImageRef::parse(s.as_str()), used))
            },
            None => None,
        }
    }

    /// This reference with the global arguments of `dockerfile`
    /// substituted, as `resolve_vars_with_context` gives it.
    pub fn resolve_vars(&self, dockerfile: &Dockerfile) -> (r: Option<ImageRef>)
        ensures
            match substitute_spec(image_ref_text(self@), global_vars(dockerfile.global_args@), 16) {
                Some(m) => r is Some && r->0@ == image_ref_model(m.0),
                None => r is None,
            },
    {
        match self.resolve_vars_with_context(dockerfile) {
            Some((image, _used)) => Some(image),
            None => None,
        }
    }
}

} // verus!
