use vstd::prelude::*;
use vstd::string::*;

use crate::dockerfile::Instruction;
use crate::error::Error;
use crate::image::{ImageRef, image_ref_model};
use crate::instructions::{
    ArgInstruction, CmdInstruction, CopyFlag, CopyInstruction, EntrypointInstruction, EnvInstruction,
    EnvVar, FromFlag, FromInstruction, Label, LabelInstruction, MiscInstruction, RunInstruction,
};
use crate::lexer::{
    blank, quote, is_blank, is_quote, scan_ok, continuation_at, line_end, skip_blanks, skip_gap,
    quote_end, words, words_ok, instruction_end, gap_end, quote_end_of, words_of, int_pairs,
    lemma_quote_close, continuation_of, blanks_end, line_end_of, lemma_blanks_end, lemma_line_end,
    lemma_continuation, lemma_gap_end,
};
use crate::literal::{fits, raw_fits, plain, literal, literal_value};
use crate::splicer::Span;
use crate::text::{utf8, ascii_cut};
use crate::util::{
    BreakableString, BreakableStringComponent, ShellOrExecExpr, SpannedComment, SpannedString,
    StringArray,
};

verus! {

fn generic(m: &str) -> (r: Error)
    ensures
        r is GenericParseError,
{
    Error::GenericParseError { message: m.to_owned() }
}

fn syntax(position: usize, m: &str) -> (r: Error)
    ensures
        r matches Error::ParseError { position: at, .. } && at == position,
{
    Error::ParseError { position, message: m.to_owned() }
}

/// An ASCII hexadecimal digit, of either case.
pub open spec fn is_hex_digit(c: u8) -> bool {
    (48 <= c <= 57) || (65 <= c <= 70) || (97 <= c <= 102)
}

/// The bytes of `sha256:`.
pub open spec fn sha256_prefix() -> Seq<u8> {
    seq![115u8, 104u8, 97u8, 50u8, 53u8, 54u8, 58u8]
}

/// A digest of the form `sha256:` and exactly 64 hexadecimal digits.
pub open spec fn valid_digest(d: Seq<u8>) -> bool {
    &&& d.len() == 71
    &&& d.subrange(0, 7) == sha256_prefix()
    &&& forall|i: int| 7 <= i < 71 ==> is_hex_digit(#[trigger] d[i])
}

/// Whether `h` is a valid image digest.
pub fn check_digest(h: &str) -> (r: bool)
    ensures
        r == valid_digest(h.spec_bytes()),
{
    let d = h.as_bytes();
    if d.len() != 71 {
        return false;
    }
    let prefix: [u8; 7] = [115u8, 104u8, 97u8, 50u8, 53u8, 54u8, 58u8];
    let mut i: usize = 0;
    while i < 7
        invariant
            i <= 7,
            d@.len() == 71,
            d@ == h.spec_bytes(),
            prefix@ == sha256_prefix(),
            forall|k: int| 0 <= k < i ==> d@[k] == prefix@[k],
        decreases 7 - i,
    {
        if d[i] != prefix[i] {
            assert(d@.subrange(0, 7)[i as int] != sha256_prefix()[i as int]);
            assert(d@.subrange(0, 7) != sha256_prefix());
            return false;
        }
        i = i + 1;
    }
    assert(d@.subrange(0, 7) =~= sha256_prefix());
    while i < 71
        invariant
            7 <= i <= 71,
            d@.len() == 71,
            d@ == h.spec_bytes(),
            d@.subrange(0, 7) == sha256_prefix(),
            forall|k: int| 7 <= k < i ==> is_hex_digit(#[trigger] d@[k]),
        decreases 71 - i,
    {
        let c = d[i];
        if !((48u8 <= c && c <= 57u8) || (65u8 <= c && c <= 70u8) || (97u8 <= c && c <= 102u8)) {
            assert(!is_hex_digit(d@[i as int]));
            return false;
        }
        i = i + 1;
    }
    true
}

/// The ASCII lower case of a byte.
pub open spec fn lower_byte(c: u8) -> u8 {
    if 65 <= c <= 90 {
        (c + 32) as u8
    } else {
        c
    }
}

/// `b[s..e]` spells `w` (given in lower case), in any case.
pub open spec fn spells_word(b: Seq<u8>, s: int, e: int, w: Seq<u8>) -> bool {
    e - s == w.len() && forall|k: int| 0 <= k < w.len() ==> lower_byte(b[s + k]) == w[k]
}

/// `b[s..e]` spells `word` (given in lower case), in any case.
fn spells(b: &[u8], s: usize, e: usize, word: &[u8]) -> (r: bool)
    requires
        s <= e <= b@.len(),
    ensures
        r == spells_word(b@, s as int, e as int, word@),
{
    if e - s != word.len() {
        return false;
    }
    let mut i: usize = 0;
    while i < word.len()
        invariant
            e - s == word@.len(),
            s <= e <= b@.len(),
            i <= word@.len(),
            forall|k: int| 0 <= k < i ==> lower_byte(b@[s + k]) == word@[k],
        decreases word@.len() - i,
    {
        let c = b[s + i];
        let l = if 65u8 <= c && c <= 90u8 { c + 32 } else { c };
        if l != word[i] {
            return false;
        }
        i = i + 1;
    }
    true
}

/// The first `=` of `b[j..e]` outside quotes.
pub open spec fn equals_of(b: Seq<u8>, j: int, e: int) -> Option<int>
    decreases e - j,
    via equals_decreases
{
    if j < 0 || j >= e {
        None
    } else if is_quote(b[j]) {
        equals_of(b, quote_end_of(b, j, e), e)
    } else if b[j] == 61u8 {
        Some(j)
    } else {
        equals_of(b, j + 1, e)
    }
}

#[via_fn]
proof fn equals_decreases(b: Seq<u8>, j: int, e: int) {
    if 0 <= j < e {
        lemma_quote_close(b, b[j], j + 1, e);
    }
}

/// The first `=` of `b[s..e]` outside quotes.
fn find_equals(b: &[u8], s: usize, e: usize) -> (r: Option<usize>)
    requires
        scan_ok(b@, s as int, e as int),
    ensures
        r matches Some(j) ==> s <= j < e && b@[j as int] == 61u8 && equals_of(b@, s as int, e as int) == Some(j as int),
        r is None ==> equals_of(b@, s as int, e as int) is None,
{
    let mut j = s;
    while j < e
        invariant
            scan_ok(b@, j as int, e as int),
            s <= j,
            equals_of(b@, j as int, e as int) == equals_of(b@, s as int, e as int),
        decreases e - j,
    {
        if quote(b[j]) {
            j = quote_end(b, j, e);
        } else if b[j] == 61u8 {
            return Some(j);
        } else {
            j = j + 1;
        }
    }
    None
}

/// The literal at `s..e` decodes.
pub open spec fn literal_ok(b: Seq<u8>, s: int, e: int) -> bool {
    literal_value(b, s, e) is Some
}

/// The span of a word.
pub open spec fn span_of(w: (int, int)) -> Span {
    Span { start: w.0 as usize, end: w.1 as usize }
}

/// `x` is read from `b[s..e]`: its span, and the literal's value, or empty
/// where the range is.
pub open spec fn part_is(x: SpannedString, b: Seq<u8>, s: int, e: int) -> bool {
    &&& x.span == span_of((s, e))
    &&& if s < e {
        Some(x.content@) == literal_value(b, s, e)
    } else {
        utf8(x.content@) == Seq::<u8>::empty()
    }
}

/// A flag read from the word `w`: its span is the word, its name lies
/// between `--` and the first `=`, its value after that `=`.
pub open spec fn flag_is(span: Span, name: SpannedString, value: SpannedString, b: Seq<u8>, w: (int, int)) -> bool {
    &&& span == span_of(w)
    &&& match equals_of(b, w.0 + 2, w.1) {
        Some(j) => part_is(name, b, w.0 + 2, j) && part_is(value, b, j + 1, w.1),
        None => false,
    }
}

/// A word that starts with `--`.
pub open spec fn flag_word(b: Seq<u8>, w: (int, int)) -> bool {
    w.1 - w.0 >= 2 && b[w.0] == 45u8 && b[w.0 + 1] == 45u8
}

/// A flag word with a `=`, whose name and value decode.
pub open spec fn flag_ok(b: Seq<u8>, w: (int, int)) -> bool {
    match equals_of(b, w.0 + 2, w.1) {
        Some(j) => (w.0 + 2 < j ==> literal_ok(b, w.0 + 2, j)) && (j + 1 < w.1 ==> literal_ok(b, j + 1, w.1)),
        None => false,
    }
}

/// The number of flag words at the front of `w`, counting from `i`.
pub open spec fn leading_flag_count(b: Seq<u8>, w: Seq<(int, int)>, i: int) -> int
    decreases w.len() - i,
{
    if 0 <= i < w.len() && flag_word(b, w[i]) {
        leading_flag_count(b, w, i + 1)
    } else {
        i
    }
}

proof fn lemma_leading_flag_count(b: Seq<u8>, w: Seq<(int, int)>, i: int)
    requires
        0 <= i <= w.len(),
    ensures
        i <= leading_flag_count(b, w, i) <= w.len(),
    decreases w.len() - i,
{
    if i < w.len() && flag_word(b, w[i]) {
        lemma_leading_flag_count(b, w, i + 1);
    }
}

/// The first `n` words are good flags.
pub open spec fn flags_ok(b: Seq<u8>, w: Seq<(int, int)>, n: int) -> bool {
    forall|i: int| 0 <= i < n ==> flag_ok(b, #[trigger] w[i])
}

/// A word that starts with `--`.
fn is_flag(b: &[u8], w: (usize, usize)) -> (r: bool)
    requires
        w.0 <= w.1 <= b@.len(),
    ensures
        r == flag_word(b@, (w.0 as int, w.1 as int)),
{
    w.1 - w.0 >= 2 && b[w.0] == 45u8 && b[w.0 + 1] == 45u8
}

/// The span, name and value of a `--name=value` flag.
fn flag_parts(input: &str, b: &[u8], w: (usize, usize)) -> (r: Result<(Span, SpannedString, SpannedString), Error>)
    requires
        b@ == input.spec_bytes(),
        w.0 + 2 <= w.1 <= b@.len(),
        b@[w.0 as int] == 45u8,
        b@[w.0 + 1] == 45u8,
        ascii_cut(b@, w.1 as int),
    ensures
        r is Ok <==> flag_ok(b@, (w.0 as int, w.1 as int)),
        r matches Ok(x) ==> x.0 == (Span { start: w.0, end: w.1 }) && flag_fits(x.0, x.1, x.2, b@)
            && flag_is(x.0, x.1, x.2, b@, (w.0 as int, w.1 as int)),
{
    let (s, e) = w;
    match find_equals(b, s + 2, e) {
        Some(j) => {
            let name = if s + 2 < j {
                match literal(input, b, s + 2, j) {
                    Ok(n) => n,
                    Err(err) => {
                        return Err(err);
                    },
                }
            } else {
                plain(input, j, j)
            };
            let value = if j + 1 < e {
                match literal(input, b, j + 1, e) {
                    Ok(v) => v,
                    Err(err) => {
                        return Err(err);
                    },
                }
            } else {
                plain(input, e, e)
            };
            Ok((Span { start: s, end: e }, name, value))
        },
        None => Err(generic("flags require a value")),
    }
}

/// The `--name=value` flags at the front of `ws`, and the index of the
/// first word after them.
fn leading_flags(input: &str, b: &[u8], ws: &Vec<(usize, usize)>, k: usize, q: usize) -> (r: Result<(Vec<(Span, SpannedString, SpannedString)>, usize), Error>)
    requires
        b@ == input.spec_bytes(),
        scan_ok(b@, k as int, q as int),
        words_ok(ws@, b@, k as int, q as int),
    ensures
        r is Ok <==> flags_ok(b@, int_pairs(ws@), leading_flag_count(b@, int_pairs(ws@), 0)),
        r matches Ok(x) ==> {
            &&& x.1 == leading_flag_count(b@, int_pairs(ws@), 0)
            &&& x.0@.len() == x.1
            &&& forall|j: int| 0 <= j < x.0@.len() ==> (#[trigger] x.0@[j]).0 == span_of(int_pairs(ws@)[j])
                && flag_fits(x.0@[j].0, x.0@[j].1, x.0@[j].2, b@)
                && flag_is(x.0@[j].0, x.0@[j].1, x.0@[j].2, b@, int_pairs(ws@)[j])
        },
{
    let ghost w = int_pairs(ws@);
    let mut flags: Vec<(Span, SpannedString, SpannedString)> = Vec::new();
    let mut i: usize = 0;
    proof {
        lemma_leading_flag_count(b@, w, 0);
    }
    while i < ws.len() && is_flag(b, ws[i])
        invariant
            b@ == input.spec_bytes(),
            w == int_pairs(ws@),
            i <= ws@.len(),
            flags@.len() == i,
            words_ok(ws@, b@, k as int, q as int),
            scan_ok(b@, k as int, q as int),
            leading_flag_count(b@, w, 0) == leading_flag_count(b@, w, i as int),
            forall|j: int| 0 <= j < i ==> flag_ok(b@, #[trigger] w[j]),
            forall|j: int| 0 <= j < flags@.len() ==> (#[trigger] flags@[j]).0 == span_of(w[j])
                && flag_fits(flags@[j].0, flags@[j].1, flags@[j].2, b@)
                && flag_is(flags@[j].0, flags@[j].1, flags@[j].2, b@, w[j]),
        decreases ws@.len() - i,
    {
        match flag_parts(input, b, ws[i]) {
            Ok(f) => flags.push(f),
            Err(e) => {
                proof {
                    lemma_leading_flag_count(b@, w, i + 1);
                }
                return Err(e);
            },
        }
        i = i + 1;
    }
    Ok((flags, i))
}

/// A flag's span lies in `text`, starts with `--`, and holds its name and
/// its value.
pub open spec fn flag_fits(span: Span, name: SpannedString, value: SpannedString, text: Seq<u8>) -> bool {
    &&& span.start + 2 <= span.end <= text.len()
    &&& text[span.start as int] == 45u8 && text[span.start + 1] == 45u8
    &&& span.start <= name.span.start && value.span.end <= span.end
    &&& fits(name, text) && fits(value, text)
}

/// All spanned strings of `v` fit `text`.
pub open spec fn all_fit(v: Seq<SpannedString>, text: Seq<u8>) -> bool {
    forall|i: int| 0 <= i < v.len() ==> fits(#[trigger] v[i], text)
}

/// Splits the paths of a `COPY` into its sources and its destination, the
/// last path. At least two paths are required.
pub fn split_paths(paths: Vec<SpannedString>) -> (r: Result<(Vec<SpannedString>, SpannedString), Error>)
    ensures
        paths@.len() < 2 <==> r is Err,
        r matches Ok(x) ==> x.0@ == paths@.drop_last() && x.1 == paths@.last(),
        r matches Err(e) ==> e is GenericParseError,
{
    if paths.len() < 2 {
        return Err(generic("copy requires at least one source and a destination"));
    }
    let mut sources = paths;
    let destination = sources.pop().unwrap();
    Ok((sources, destination))
}

/// The bytes of `as`.
pub open spec fn as_kw() -> Seq<u8> {
    seq![97u8, 115u8]
}

/// An image, and `as` and an alias, start at word `i`, and nothing else
/// follows.
pub open spec fn image_alias_ok(b: Seq<u8>, w: Seq<(int, int)>, i: int) -> bool {
    &&& 0 <= i < w.len()
    &&& literal_ok(b, w[i].0, w[i].1)
    &&& (w.len() == i + 1 || (w.len() == i + 3 && spells_word(b, w[i + 1].0, w[i + 1].1, as_kw())
        && literal_ok(b, w[i + 2].0, w[i + 2].1)))
}

/// An image reference that carries no digest, or a valid one.
pub open spec fn digest_ok(image: Seq<char>) -> bool {
    match image_ref_model(utf8(image)).3 {
        Some(h) => valid_digest(h),
        None => true,
    }
}

/// The image of a `FROM`, at word `i`, and its alias, with the end of the
/// last word read. Only `as` and an alias may follow the image.
fn from_image_alias(input: &str, b: &[u8], ws: &Vec<(usize, usize)>, i: usize, k: usize, q: usize) -> (r: Result<(SpannedString, Option<SpannedString>, usize), Error>)
    requires
        b@ == input.spec_bytes(),
        scan_ok(b@, k as int, q as int),
        words_ok(ws@, b@, k as int, q as int),
        i <= ws@.len(),
    ensures
        r is Ok <==> image_alias_ok(b@, int_pairs(ws@), i as int),
        i >= ws@.len() ==> (r matches Err(e) && e is GenericParseError),
        i < ws@.len() && !literal_ok(b@, int_pairs(ws@)[i as int].0, int_pairs(ws@)[i as int].1) ==> (r matches Err(e)
            && e is UnescapeError),
        r matches Ok(x) ==> {
            let w = int_pairs(ws@);
            &&& k <= x.2 <= q
            &&& x.2 == w.last().1
            &&& fits(x.0, b@)
            &&& x.0.span == span_of(w[i as int]) && Some(x.0.content@) == literal_value(b@, w[i as int].0, w[i as int].1)
            &&& (x.1 is Some <==> w.len() == i + 3)
            &&& (x.1 matches Some(a) ==> fits(a, b@) && a.span == span_of(w[i + 2])
                && Some(a.content@) == literal_value(b@, w[i + 2].0, w[i + 2].1))
        },
{
    if i >= ws.len() {
        return Err(generic("missing from image"));
    }
    let w = ws[i];
    let image = match literal(input, b, w.0, w.1) {
        Ok(x) => x,
        Err(e) => {
            return Err(e);
        },
    };
    if i + 1 >= ws.len() {
        return Ok((image, None, w.1));
    }
    let kw = ws[i + 1];
    let as_word: [u8; 2] = [97u8, 115u8];
    proof {
        assert(as_word@ == as_kw());
    }
    if ws.len() - i != 3 || !spells(b, kw.0, kw.1, &as_word) {
        return Err(syntax(kw.0, "expected 'as' and an alias after the image"));
    }
    let aw = ws[i + 2];
    match literal(input, b, aw.0, aw.1) {
        Ok(a) => Ok((image, Some(a), aw.1)),
        Err(e) => Err(e),
    }
}

/// The `FROM` arguments at `k..q` build an instruction: good leading flags,
/// an image, optionally `as` and an alias, and a digest that is absent or
/// valid.
pub open spec fn from_ok(b: Seq<u8>, k: int, q: int) -> bool {
    let w = words_of(b, k, q);
    let n = leading_flag_count(b, w, 0);
    &&& flags_ok(b, w, n)
    &&& image_alias_ok(b, w, n)
    &&& digest_ok(literal_value(b, w[n].0, w[n].1)->0)
}

/// What a `FROM` holds: its flags are the leading flag words, then its
/// image and its alias, read from the words that follow.
pub open spec fn from_shape(x: FromInstruction, b: Seq<u8>, k: int, q: int) -> bool {
    let w = words_of(b, k, q);
    let n = leading_flag_count(b, w, 0);
    &&& x.flags@.len() == n
    &&& forall|i: int| 0 <= i < n ==> flag_is((#[trigger] x.flags@[i]).span, x.flags@[i].name, x.flags@[i].value, b, w[i])
    &&& x.image.span == span_of(w[n]) && Some(x.image.content@) == literal_value(b, w[n].0, w[n].1)
    &&& (x.alias is Some <==> w.len() == n + 3)
    &&& (x.alias matches Some(a) ==> a.span == span_of(w[n + 2]) && Some(a.content@) == literal_value(b, w[n + 2].0, w[n + 2].1))
    &&& x.image_parsed@ == image_ref_model(utf8(x.image.content@))
    &&& x.span.end == w.last().1
}

/// The `FROM` instruction whose arguments span `k..q`.
fn build_from(input: &str, b: &[u8], p: usize, k: usize, q: usize) -> (r: Result<FromInstruction, Error>)
    requires
        b@ == input.spec_bytes(),
        p <= k,
        scan_ok(b@, k as int, q as int),
        ascii_cut(b@, k as int),
    ensures
        r is Ok <==> from_ok(b@, k as int, q as int),
        ({
            let w = words_of(b@, k as int, q as int);
            let n = leading_flag_count(b@, w, 0);
            &&& flags_ok(b@, w, n) && n >= w.len() ==> (r matches Err(e) && e is GenericParseError)
            &&& flags_ok(b@, w, n) && n < w.len() && !literal_ok(b@, w[n].0, w[n].1) ==> (r matches Err(e) && e is UnescapeError)
            &&& flags_ok(b@, w, n) && image_alias_ok(b@, w, n) && !digest_ok(literal_value(b@, w[n].0, w[n].1)->0)
                ==> (r matches Err(e) && e is GenericParseError)
        }),
        r matches Ok(x) ==> {
            &&& x.span.start == p && k <= x.span.end <= q
            &&& fits(x.image, b@)
            &&& (x.alias matches Some(a) ==> fits(a, b@))
            &&& forall|i: int| 0 <= i < x.flags@.len() ==> flag_fits((#[trigger] x.flags@[i]).span, x.flags@[i].name, x.flags@[i].value, b@)
            &&& from_shape(x, b@, k as int, q as int)
            &&& (x.image_parsed.hash matches Some(h) ==> valid_digest(utf8(h@)))
        },
{
    let ws = words(b, k, q);
    let ghost w = int_pairs(ws@);
    let (parts, i) = match leading_flags(input, b, &ws, k, q) {
        Ok(x) => x,
        Err(e) => {
            return Err(e);
        },
    };
    proof {
        lemma_leading_flag_count(b@, w, 0);
    }
    let mut flags: Vec<FromFlag> = Vec::new();
    let mut j: usize = 0;
    while j < parts.len()
        invariant
            j <= parts@.len(),
            flags@.len() == j,
            parts@.len() == i,
            i <= ws@.len(),
            w == int_pairs(ws@),
            words_ok(ws@, b@, k as int, q as int),
            forall|t: int| 0 <= t < parts@.len() ==> (#[trigger] parts@[t]).0 == span_of(w[t])
                && flag_fits(parts@[t].0, parts@[t].1, parts@[t].2, b@)
                && flag_is(parts@[t].0, parts@[t].1, parts@[t].2, b@, w[t]),
            forall|t: int| 0 <= t < flags@.len() ==> flag_fits((#[trigger] flags@[t]).span, flags@[t].name, flags@[t].value, b@)
                && flags@[t].span == span_of(w[t]) && flag_is(flags@[t].span, flags@[t].name, flags@[t].value, b@, w[t]),
        decreases parts@.len() - j,
    {
        let part = &parts[j];
        flags.push(FromFlag { span: part.0, name: part.1.duplicate(), value: part.2.duplicate() });
        j = j + 1;
    }
    let (image, alias, end) = match from_image_alias(input, b, &ws, i, k, q) {
        Ok(x) => x,
        Err(e) => {
            return Err(e);
        },
    };
    let image_parsed = ImageRef::parse(image.content.as_str());
    match &image_parsed.hash {
        Some(h) => {
            if !check_digest(h.as_str()) {
                return Err(generic("image reference digest is invalid"));
            }
        },
        None => {},
    }
    Ok(FromInstruction { span: Span { start: p, end }, flags, image, image_parsed, index: 0, alias })
}

/// The `ARG` arguments at `k..q` build an instruction: a single word, a
/// name that decodes and, after a `=`, a value that decodes; a quoted value
/// must end the word.
pub open spec fn arg_ok(b: Seq<u8>, k: int, q: int) -> bool {
    let ws = words_of(b, k, q);
    ws.len() == 1 && {
        let w = ws[0];
        match equals_of(b, w.0, w.1) {
            Some(j) => j > w.0 && literal_ok(b, w.0, j) && !(j + 1 < w.1 && is_quote(b[j + 1])
                && quote_end_of(b, j + 1, w.1) != w.1) && (j + 1 < w.1 ==> literal_ok(b, j + 1, w.1)),
            None => literal_ok(b, w.0, w.1),
        }
    }
}

/// What an `ARG` holds: its name before the `=`, and a value exactly where
/// the word has a `=`.
pub open spec fn arg_shape(x: ArgInstruction, b: Seq<u8>, k: int, q: int) -> bool {
    let w = words_of(b, k, q)[0];
    &&& x.span.end == w.1
    &&& (x.value is Some <==> equals_of(b, w.0, w.1) is Some)
    &&& match equals_of(b, w.0, w.1) {
        Some(j) => part_is(x.name, b, w.0, j) && (x.value matches Some(v) && part_is(v, b, j + 1, w.1)),
        None => part_is(x.name, b, w.0, w.1),
    }
}

/// The `ARG` instruction whose arguments span `k..q`: a name, and an
/// optional `=value`, quoted or not.
fn build_arg(input: &str, b: &[u8], p: usize, k: usize, q: usize) -> (r: Result<ArgInstruction, Error>)
    requires
        b@ == input.spec_bytes(),
        p <= k,
        scan_ok(b@, k as int, q as int),
        ascii_cut(b@, k as int),
    ensures
        r is Ok <==> arg_ok(b@, k as int, q as int),
        words_of(b@, k as int, q as int).len() == 0 ==> (r matches Err(e) && e is GenericParseError),
        r matches Ok(x) ==> {
            &&& x.span.start == p && k <= x.span.end <= q
            &&& fits(x.name, b@)
            &&& (x.value matches Some(v) ==> fits(v, b@))
            &&& arg_shape(x, b@, k as int, q as int)
        },
{
    let ws = words(b, k, q);
    if ws.len() == 0 {
        return Err(generic("arg name is required"));
    }
    if ws.len() > 1 {
        return Err(syntax(ws[1].0, "expected a single argument"));
    }
    let w = ws[0];
    match find_equals(b, w.0, w.1) {
        Some(j) => {
            if j == w.0 {
                return Err(generic("arg name is required"));
            }
            let name = match literal(input, b, w.0, j) {
                Ok(n) => n,
                Err(e) => {
                    return Err(e);
                },
            };
            if j + 1 < w.1 && quote(b[j + 1]) && quote_end(b, j + 1, w.1) != w.1 {
                return Err(syntax(j + 1, "unexpected text after a quoted value"));
            }
            let value = if j + 1 < w.1 {
                match literal(input, b, j + 1, w.1) {
                    Ok(v) => v,
                    Err(e) => {
                        return Err(e);
                    },
                }
            } else {
                plain(input, w.1, w.1)
            };
            Ok(ArgInstruction { span: Span { start: p, end: w.1 }, name, value: Some(value) })
        },
        None => match literal(input, b, w.0, w.1) {
            Ok(name) => Ok(ArgInstruction { span: Span { start: p, end: w.1 }, name, value: None }),
            Err(e) => Err(e),
        },
    }
}

/// The `COPY` arguments at `k..q` build an instruction: good leading flags,
/// then at least two path words, each of which decodes.
pub open spec fn copy_ok(b: Seq<u8>, k: int, q: int) -> bool {
    let w = words_of(b, k, q);
    let n = leading_flag_count(b, w, 0);
    &&& flags_ok(b, w, n)
    &&& forall|i: int| n <= i < w.len() ==> literal_ok(b, (#[trigger] w[i]).0, w[i].1)
    &&& w.len() - n >= 2
}

/// What a `COPY` holds: its flags are the leading flag words; the other
/// words, decoded, are its sources and, last, its destination.
pub open spec fn copy_shape(x: CopyInstruction, b: Seq<u8>, k: int, q: int) -> bool {
    let w = words_of(b, k, q);
    let n = leading_flag_count(b, w, 0);
    &&& x.flags@.len() == n
    &&& forall|i: int| 0 <= i < n ==> flag_is((#[trigger] x.flags@[i]).span, x.flags@[i].name, x.flags@[i].value, b, w[i])
    &&& x.sources@.len() == w.len() - n - 1
    &&& forall|i: int| 0 <= i < x.sources@.len() ==> (#[trigger] x.sources@[i]).span == span_of(w[n + i])
        && Some(x.sources@[i].content@) == literal_value(b, w[n + i].0, w[n + i].1)
    &&& x.destination.span == span_of(w.last()) && Some(x.destination.content@) == literal_value(b, w.last().0, w.last().1)
    &&& x.span.end == w.last().1
}

/// The `COPY` instruction whose arguments span `k..q`: flags, then at least
/// two paths.
fn build_copy(input: &str, b: &[u8], p: usize, k: usize, q: usize) -> (r: Result<CopyInstruction, Error>)
    requires
        b@ == input.spec_bytes(),
        p <= k,
        scan_ok(b@, k as int, q as int),
        ascii_cut(b@, k as int),
    ensures
        r is Ok <==> copy_ok(b@, k as int, q as int),
        ({
            let w = words_of(b@, k as int, q as int);
            let n = leading_flag_count(b@, w, 0);
            &&& flags_ok(b@, w, n) && (forall|i: int| n <= i < w.len() ==> literal_ok(b@, (#[trigger] w[i]).0, w[i].1))
                && w.len() - n < 2 ==> (r matches Err(e) && e is GenericParseError)
            &&& flags_ok(b@, w, n) && !(forall|i: int| n <= i < w.len() ==> literal_ok(b@, (#[trigger] w[i]).0, w[i].1))
                ==> (r matches Err(e) && e is UnescapeError)
        }),
        r matches Ok(x) ==> {
            &&& x.span.start == p && k <= x.span.end <= q
            &&& all_fit(x.sources@, b@)
            &&& fits(x.destination, b@)
            &&& forall|i: int| 0 <= i < x.flags@.len() ==> flag_fits((#[trigger] x.flags@[i]).span, x.flags@[i].name, x.flags@[i].value, b@)
            &&& copy_shape(x, b@, k as int, q as int)
        },
{
    let ws = words(b, k, q);
    let ghost w = int_pairs(ws@);
    let (parts, i) = match leading_flags(input, b, &ws, k, q) {
        Ok(x) => x,
        Err(e) => {
            return Err(e);
        },
    };
    proof {
        lemma_leading_flag_count(b@, w, 0);
    }
    let mut flags: Vec<CopyFlag> = Vec::new();
    let mut j: usize = 0;
    while j < parts.len()
        invariant
            j <= parts@.len(),
            flags@.len() == j,
            parts@.len() == i,
            i <= ws@.len(),
            w == int_pairs(ws@),
            words_ok(ws@, b@, k as int, q as int),
            forall|t: int| 0 <= t < parts@.len() ==> (#[trigger] parts@[t]).0 == span_of(w[t])
                && flag_fits(parts@[t].0, parts@[t].1, parts@[t].2, b@)
                && flag_is(parts@[t].0, parts@[t].1, parts@[t].2, b@, w[t]),
            forall|t: int| 0 <= t < flags@.len() ==> flag_fits((#[trigger] flags@[t]).span, flags@[t].name, flags@[t].value, b@)
                && flags@[t].span == span_of(w[t]) && flag_is(flags@[t].span, flags@[t].name, flags@[t].value, b@, w[t]),
        decreases parts@.len() - j,
    {
        let part = &parts[j];
        flags.push(CopyFlag { span: part.0, name: part.1.duplicate(), value: part.2.duplicate() });
        j = j + 1;
    }
    let mut paths: Vec<SpannedString> = Vec::new();
    let mut j: usize = i;
    while j < ws.len()
        invariant
            b@ == input.spec_bytes(),
            scan_ok(b@, k as int, q as int),
            words_ok(ws@, b@, k as int, q as int),
            w == int_pairs(ws@),
            w == words_of(b@, k as int, q as int),
            i <= j <= ws@.len(),
            i == leading_flag_count(b@, w, 0),
            paths@.len() == j - i,
            forall|t: int| i <= t < j ==> literal_ok(b@, (#[trigger] w[t]).0, w[t].1),
            forall|t: int| 0 <= t < paths@.len() ==> (#[trigger] paths@[t]).span == span_of(w[i + t])
                && Some(paths@[t].content@) == literal_value(b@, w[i + t].0, w[i + t].1),
            all_fit(paths@, b@),
        decreases ws@.len() - j,
    {
        let wj = ws[j];
        match literal(input, b, wj.0, wj.1) {
            Ok(x) => paths.push(x),
            Err(e) => {
                proof {
                    assert(w[j as int] == (wj.0 as int, wj.1 as int));
                    assert(!literal_ok(b@, w[j as int].0, w[j as int].1));
                }
                return Err(e);
            },
        }
        j = j + 1;
    }
    let end = if ws.len() > 0 { ws[ws.len() - 1].1 } else { k };
    let ghost all = paths@;
    match split_paths(paths) {
        Ok((sources, destination)) => {
            proof {
                assert(all[all.len() - 1] == destination);
                assert forall|t: int| 0 <= t < sources@.len() implies (#[trigger] sources@[t]).span == span_of(w[i + t])
                    && Some(sources@[t].content@) == literal_value(b@, w[i + t].0, w[i + t].1) by {
                    assert(sources@[t] == all[t]);
                }
            }
            Ok(CopyInstruction { span: Span { start: p, end }, flags, sources, destination })
        },
        Err(e) => Err(e),
    }
}

/// A `name=value` word whose name is not empty and whose parts decode.
pub open spec fn label_pair_ok(b: Seq<u8>, w: (int, int)) -> bool {
    match equals_of(b, w.0, w.1) {
        Some(j) => j > w.0 && literal_ok(b, w.0, j) && (j + 1 < w.1 ==> literal_ok(b, j + 1, w.1)),
        None => false,
    }
}

/// A label read from the word `w`: its name before the first `=`, its
/// value after it.
pub open spec fn label_is(x: Label, b: Seq<u8>, w: (int, int)) -> bool {
    &&& x.span == span_of(w)
    &&& match equals_of(b, w.0, w.1) {
        Some(j) => part_is(x.name, b, w.0, j) && part_is(x.value, b, j + 1, w.1),
        None => false,
    }
}

/// A `name=value` label.
fn label_pair(input: &str, b: &[u8], w: (usize, usize), k: usize, q: usize) -> (r: Result<Label, Error>)
    requires
        b@ == input.spec_bytes(),
        scan_ok(b@, k as int, q as int),
        k <= w.0 < w.1 <= q,
        ascii_cut(b@, w.0 as int),
        ascii_cut(b@, w.1 as int),
    ensures
        r is Ok <==> label_pair_ok(b@, (w.0 as int, w.1 as int)),
        r matches Ok(x) ==> x.span == (Span { start: w.0, end: w.1 }) && fits(x.name, b@) && fits(x.value, b@)
            && label_is(x, b@, (w.0 as int, w.1 as int)),
{
    match find_equals(b, w.0, w.1) {
        None => Err(generic("label value is required")),
        Some(j) => {
            if j == w.0 {
                return Err(generic("label name is required"));
            }
            let name = match literal(input, b, w.0, j) {
                Ok(x) => x,
                Err(e) => {
                    return Err(e);
                },
            };
            let value = if j + 1 < w.1 {
                match literal(input, b, j + 1, w.1) {
                    Ok(x) => x,
                    Err(e) => {
                        return Err(e);
                    },
                }
            } else {
                plain(input, w.1, w.1)
            };
            Ok(Label { span: Span { start: w.0, end: w.1 }, name, value })
        },
    }
}

/// The `LABEL` arguments at `k..q` build an instruction: `name=value`
/// words, where the first word has a `=`; else exactly a name and a value.
pub open spec fn label_ok(b: Seq<u8>, k: int, q: int) -> bool {
    let w = words_of(b, k, q);
    w.len() > 0 && if equals_of(b, w[0].0, w[0].1) is Some {
        forall|i: int| 0 <= i < w.len() ==> label_pair_ok(b, #[trigger] w[i])
    } else {
        w.len() == 2 && literal_ok(b, w[0].0, w[0].1) && literal_ok(b, w[1].0, w[1].1)
    }
}

/// What a `LABEL` holds: one label per word in the pair form, one in the
/// single form.
pub open spec fn label_shape(x: LabelInstruction, b: Seq<u8>, k: int, q: int) -> bool {
    let w = words_of(b, k, q);
    &&& x.span.end == w.last().1
    &&& if equals_of(b, w[0].0, w[0].1) is Some {
        x.labels@.len() == w.len() && forall|i: int| 0 <= i < w.len() ==> label_is(#[trigger] x.labels@[i], b, w[i])
    } else {
        &&& x.labels@.len() == 1
        &&& x.labels@[0].span == span_of((k, w[1].1))
        &&& part_is(x.labels@[0].name, b, w[0].0, w[0].1)
        &&& part_is(x.labels@[0].value, b, w[1].0, w[1].1)
    }
}

/// The `LABEL` instruction whose arguments span `k..q`: `name=value` pairs,
/// or a single name and value.
fn build_label(input: &str, b: &[u8], p: usize, k: usize, q: usize) -> (r: Result<LabelInstruction, Error>)
    requires
        b@ == input.spec_bytes(),
        p <= k,
        scan_ok(b@, k as int, q as int),
        ascii_cut(b@, k as int),
    ensures
        r is Ok <==> label_ok(b@, k as int, q as int),
        words_of(b@, k as int, q as int).len() == 0 ==> (r matches Err(e) && e is GenericParseError),
        r matches Ok(x) ==> {
            &&& x.span.start == p && k <= x.span.end <= q
            &&& forall|i: int| 0 <= i < x.labels@.len() ==> fits((#[trigger] x.labels@[i]).name, b@) && fits(x.labels@[i].value, b@)
            &&& label_shape(x, b@, k as int, q as int)
        },
{
    let ws = words(b, k, q);
    let ghost w = int_pairs(ws@);
    if ws.len() == 0 {
        return Err(generic("label name is required"));
    }
    let first = ws[0];
    let last = ws[ws.len() - 1];
    let mut labels: Vec<Label> = Vec::new();
    if find_equals(b, first.0, first.1).is_some() {
        let mut j: usize = 0;
        while j < ws.len()
            invariant
                b@ == input.spec_bytes(),
                scan_ok(b@, k as int, q as int),
                words_ok(ws@, b@, k as int, q as int),
                w == int_pairs(ws@),
                w == words_of(b@, k as int, q as int),
                j <= ws@.len(),
                ws@.len() > 0,
                equals_of(b@, w[0].0, w[0].1) is Some,
                labels@.len() == j,
                forall|t: int| 0 <= t < j ==> label_pair_ok(b@, #[trigger] w[t]),
                forall|i: int| 0 <= i < labels@.len() ==> fits((#[trigger] labels@[i]).name, b@) && fits(labels@[i].value, b@)
                    && label_is(labels@[i], b@, w[i]),
            decreases ws@.len() - j,
        {
            match label_pair(input, b, ws[j], k, q) {
                Ok(l) => labels.push(l),
                Err(e) => {
                    proof {
                        assert(w[j as int] == (ws@[j as int].0 as int, ws@[j as int].1 as int));
                        assert(!label_pair_ok(b@, w[j as int]));
                    }
                    return Err(e);
                },
            }
            j = j + 1;
        }
    } else if ws.len() == 2 {
        let name = match literal(input, b, first.0, first.1) {
            Ok(x) => x,
            Err(e) => {
                return Err(e);
            },
        };
        let value = match literal(input, b, last.0, last.1) {
            Ok(x) => x,
            Err(e) => {
                return Err(e);
            },
        };
        labels.push(Label { span: Span { start: k, end: last.1 }, name, value });
    } else {
        return Err(generic("label value is required"));
    }
    Ok(LabelInstruction { span: Span { start: p, end: last.1 }, labels })
}

/// A breakable string with a single string component.
fn single_string(x: SpannedString) -> (r: BreakableString)
    ensures
        r.span == x.span,
        r.components@ == seq![BreakableStringComponent::String(x)],
{
    let span = x.span;
    let mut components: Vec<BreakableStringComponent> = Vec::new();
    components.push(BreakableStringComponent::String(x));
    BreakableString { span, components }
}

/// A value of one string piece read from `b[s..e]`: decoded where it is
/// quoted, else the text itself.
pub open spec fn env_value_is(v: BreakableString, b: Seq<u8>, s: int, e: int) -> bool {
    &&& v.span == span_of((s, e))
    &&& v.components@.len() == 1
    &&& v.components@[0] is String
    &&& v.components@[0]->String_0.span == span_of((s, e))
    &&& if s < e && is_quote(b[s]) {
        Some(v.components@[0]->String_0.content@) == literal_value(b, s, e)
    } else {
        utf8(v.components@[0]->String_0.content@) == b.subrange(s, e)
    }
}

/// The value of an `ENV` pair at `s..e`: quoted or as it stands.
fn env_value(input: &str, b: &[u8], s: usize, e: usize) -> (r: Result<BreakableString, Error>)
    requires
        b@ == input.spec_bytes(),
        s <= e <= b@.len(),
        ascii_cut(b@, s as int),
        ascii_cut(b@, e as int),
    ensures
        r is Ok <==> (s < e && is_quote(b@[s as int]) ==> literal_ok(b@, s as int, e as int)),
        r matches Ok(x) ==> x.span == (Span { start: s, end: e }) && breakable_fits(x, b@)
            && env_value_is(x, b@, s as int, e as int),
{
    if s < e && quote(b[s]) {
        match literal(input, b, s, e) {
            Ok(x) => Ok(single_string(x)),
            Err(err) => Err(err),
        }
    } else {
        Ok(single_string(plain(input, s, e)))
    }
}

/// A `key=value` word whose key is not empty and decodes, and whose quoted
/// value decodes.
pub open spec fn env_pair_ok(b: Seq<u8>, w: (int, int)) -> bool {
    match equals_of(b, w.0, w.1) {
        Some(j) => j > w.0 && literal_ok(b, w.0, j) && (j + 1 < w.1 && is_quote(b[j + 1]) ==> literal_ok(
            b,
            j + 1,
            w.1,
        )),
        None => false,
    }
}

/// A variable read from the word `w`: its key before the first `=`, its
/// value after it.
pub open spec fn env_var_is(x: EnvVar, b: Seq<u8>, w: (int, int)) -> bool {
    &&& x.span == span_of(w)
    &&& match equals_of(b, w.0, w.1) {
        Some(j) => part_is(x.key, b, w.0, j) && env_value_is(x.value, b, j + 1, w.1),
        None => false,
    }
}

/// A `key=value` pair of an `ENV` instruction.
fn env_pair(input: &str, b: &[u8], w: (usize, usize), k: usize, q: usize) -> (r: Result<EnvVar, Error>)
    requires
        b@ == input.spec_bytes(),
        scan_ok(b@, k as int, q as int),
        k <= w.0 < w.1 <= q,
        ascii_cut(b@, w.0 as int),
        ascii_cut(b@, w.1 as int),
    ensures
        r is Ok <==> env_pair_ok(b@, (w.0 as int, w.1 as int)),
        r matches Ok(x) ==> x.span == (Span { start: w.0, end: w.1 }) && fits(x.key, b@) && breakable_fits(x.value, b@)
            && env_var_is(x, b@, (w.0 as int, w.1 as int)),
{
    match find_equals(b, w.0, w.1) {
        None => Err(generic("env pair requires a value")),
        Some(j) => {
            if j == w.0 {
                return Err(generic("env pair requires a key"));
            }
            let key = match literal(input, b, w.0, j) {
                Ok(x) => x,
                Err(e) => {
                    return Err(e);
                },
            };
            match env_value(input, b, j + 1, w.1) {
                Ok(value) => Ok(EnvVar { span: Span { start: w.0, end: w.1 }, key, value }),
                Err(e) => Err(e),
            }
        },
    }
}

/// The `ENV` arguments at `k..q` build an instruction: `key=value` words,
/// where the first word has a `=`; else a key that decodes and a value of
/// one or more words, which decodes where it is one quoted word.
pub open spec fn env_ok(b: Seq<u8>, k: int, q: int) -> bool {
    let w = words_of(b, k, q);
    w.len() > 0 && if equals_of(b, w[0].0, w[0].1) is Some {
        forall|i: int| 0 <= i < w.len() ==> env_pair_ok(b, #[trigger] w[i])
    } else {
        literal_ok(b, w[0].0, w[0].1) && w.len() >= 2 && (w.len() == 2 && is_quote(b[w[1].0]) ==> literal_ok(
            b,
            w[1].0,
            w[1].1,
        ))
    }
}

/// What an `ENV` holds: one variable per word in the pair form, one in the
/// single form.
pub open spec fn env_shape(x: EnvInstruction, b: Seq<u8>, k: int, q: int) -> bool {
    let w = words_of(b, k, q);
    if equals_of(b, w[0].0, w[0].1) is Some {
        &&& x.span.end == w.last().1
        &&& x.vars@.len() == w.len()
        &&& forall|i: int| 0 <= i < w.len() ==> env_var_is(#[trigger] x.vars@[i], b, w[i])
    } else {
        &&& x.vars@.len() == 1
        &&& part_is(x.vars@[0].key, b, w[0].0, w[0].1)
        &&& x.vars@[0].span == span_of((w[0].0, x.vars@[0].value.span.end as int))
        &&& x.span.end == x.vars@[0].value.span.end
        &&& if w.len() == 2 && is_quote(b[w[1].0]) {
            env_value_is(x.vars@[0].value, b, w[1].0, w[1].1)
        } else {
            breakable_is(x.vars@[0].value, b, w[1].0, q)
        }
    }
}

/// The `ENV` instruction whose arguments span `k..q`: `key=value` pairs, or
/// a key and the rest of the instruction as its value. In that single form
/// the pieces after a line continuation keep their leading blanks.
fn build_env(input: &str, b: &[u8], p: usize, k: usize, q: usize) -> (r: Result<EnvInstruction, Error>)
    requires
        b@ == input.spec_bytes(),
        p <= k,
        scan_ok(b@, k as int, q as int),
        ascii_cut(b@, k as int),
    ensures
        r is Ok <==> env_ok(b@, k as int, q as int),
        words_of(b@, k as int, q as int).len() == 0 ==> (r matches Err(e) && e is GenericParseError),
        r matches Ok(x) ==> {
            &&& x.span.start == p && k <= x.span.end <= q
            &&& forall|i: int| 0 <= i < x.vars@.len() ==> fits((#[trigger] x.vars@[i]).key, b@) && breakable_fits(x.vars@[i].value, b@)
            &&& env_shape(x, b@, k as int, q as int)
        },
{
    let ws = words(b, k, q);
    let ghost w = int_pairs(ws@);
    if ws.len() == 0 {
        return Err(generic("env pair requires a key"));
    }
    let first = ws[0];
    let mut vars: Vec<EnvVar> = Vec::new();
    if find_equals(b, first.0, first.1).is_some() {
        let mut j: usize = 0;
        while j < ws.len()
            invariant
                b@ == input.spec_bytes(),
                scan_ok(b@, k as int, q as int),
                words_ok(ws@, b@, k as int, q as int),
                w == int_pairs(ws@),
                w == words_of(b@, k as int, q as int),
                j <= ws@.len(),
                ws@.len() > 0,
                equals_of(b@, w[0].0, w[0].1) is Some,
                vars@.len() == j,
                forall|t: int| 0 <= t < j ==> env_pair_ok(b@, #[trigger] w[t]),
                forall|i: int| 0 <= i < vars@.len() ==> fits((#[trigger] vars@[i]).key, b@) && breakable_fits(vars@[i].value, b@)
                    && env_var_is(vars@[i], b@, w[i]),
            decreases ws@.len() - j,
        {
            match env_pair(input, b, ws[j], k, q) {
                Ok(v) => vars.push(v),
                Err(e) => {
                    proof {
                        assert(w[j as int] == (ws@[j as int].0 as int, ws@[j as int].1 as int));
                        assert(!env_pair_ok(b@, w[j as int]));
                    }
                    return Err(e);
                },
            }
            j = j + 1;
        }
        let last = ws[ws.len() - 1];
        Ok(EnvInstruction { span: Span { start: p, end: last.1 }, vars })
    } else {
        let key = match literal(input, b, first.0, first.1) {
            Ok(x) => x,
            Err(e) => {
                return Err(e);
            },
        };
        if ws.len() < 2 {
            return Err(generic("env pair requires a value"));
        }
        let second = ws[1];
        let value = if ws.len() == 2 && quote(b[second.0]) {
            match env_value(input, b, second.0, second.1) {
                Ok(v) => v,
                Err(e) => {
                    return Err(e);
                },
            }
        } else {
            breakable(input, b, second.0, q)
        };
        let end = value.span.end;
        vars.push(EnvVar { span: Span { start: first.0, end }, key, value });
        Ok(EnvInstruction { span: Span { start: p, end }, vars })
    }
}

/// The comment lines, and the blank lines, that follow a line continuation
/// at `j`: the comments' ranges (`#` to the end of the line), and where the
/// text resumes.
pub open spec fn comment_lines(b: Seq<u8>, j: int, q: int) -> (Seq<(int, int)>, int)
    decreases q - j,
    via comment_lines_decreases
{
    if j < 0 || j >= q {
        (Seq::empty(), j)
    } else {
        let t = blanks_end(b, j, q);
        if t < q && b[t] == 10u8 {
            comment_lines(b, t + 1, q)
        } else if t < q && b[t] == 35u8 {
            let le = line_end_of(b, t, q);
            if le < q {
                let r = comment_lines(b, le + 1, q);
                (seq![(t, le)] + r.0, r.1)
            } else {
                (seq![(t, le)], q)
            }
        } else {
            (Seq::empty(), j)
        }
    }
}

#[via_fn]
proof fn comment_lines_decreases(b: Seq<u8>, j: int, q: int) {
    if 0 <= j < q {
        lemma_blanks_end(b, j, q);
        let t = blanks_end(b, j, q);
        if t < q {
            lemma_line_end(b, t, q);
        }
    }
}

proof fn lemma_comment_lines(b: Seq<u8>, j: int, q: int)
    requires
        0 <= j <= q,
    ensures
        j <= comment_lines(b, j, q).1 <= q,
    decreases q - j,
{
    if j < q {
        lemma_blanks_end(b, j, q);
        let t = blanks_end(b, j, q);
        if t < q && b[t] == 10u8 {
            lemma_comment_lines(b, t + 1, q);
        } else if t < q && b[t] == 35u8 {
            lemma_line_end(b, t, q);
            let le = line_end_of(b, t, q);
            if le < q {
                lemma_comment_lines(b, le + 1, q);
            }
        }
    }
}

/// `e` with the blanks before it, down to `seg`, taken off.
pub open spec fn trim_end(b: Seq<u8>, seg: int, e: int) -> int
    decreases e - seg,
{
    if e > seg && is_blank(b[e - 1]) {
        trim_end(b, seg, e - 1)
    } else {
        e
    }
}

/// Comment ranges as pieces of a breakable string.
pub open spec fn comment_pieces(c: Seq<(int, int)>) -> Seq<(bool, int, int)> {
    c.map_values(|x: (int, int)| (true, x.0, x.1))
}

/// The pieces of shell-form text, from a piece that starts at `seg` and a
/// scan at `i`: (is a comment, start, end). String pieces run between line
/// continuations, comment lines after a continuation are comments, blank
/// lines there are dropped, and the last piece loses its trailing blanks.
pub open spec fn pieces_of(b: Seq<u8>, seg: int, i: int, q: int) -> Seq<(bool, int, int)>
    decreases q - i,
    via pieces_decreases
{
    if i < 0 || i >= q {
        let e = trim_end(b, seg, q);
        if e > seg {
            seq![(false, seg, e)]
        } else {
            Seq::empty()
        }
    } else if b[i] == 92u8 && continuation_of(b, i, q) is Some {
        let c = comment_lines(b, continuation_of(b, i, q)->0, q);
        let head = if i > seg {
            seq![(false, seg, i)]
        } else {
            Seq::<(bool, int, int)>::empty()
        };
        head + comment_pieces(c.0) + pieces_of(b, c.1, c.1, q)
    } else {
        pieces_of(b, seg, i + 1, q)
    }
}

#[via_fn]
proof fn pieces_decreases(b: Seq<u8>, seg: int, i: int, q: int) {
    if 0 <= i < q {
        lemma_continuation(b, i, q);
        if let Some(k) = continuation_of(b, i, q) {
            lemma_comment_lines(b, k, q);
        }
    }
}

/// A component read as the piece `p` of `b`.
pub open spec fn piece_is(c: BreakableStringComponent, b: Seq<u8>, p: (bool, int, int)) -> bool {
    if p.0 {
        c is Comment && c->Comment_0.span == span_of((p.1, p.2)) && utf8(c->Comment_0.content@) == b.subrange(p.1, p.2)
    } else {
        c is String && c->String_0.span == span_of((p.1, p.2)) && utf8(c->String_0.content@) == b.subrange(p.1, p.2)
    }
}

/// The shell-form text at `s..q`, as its pieces; its span runs from `s` to
/// the end of its last piece.
pub open spec fn breakable_is(x: BreakableString, b: Seq<u8>, s: int, q: int) -> bool {
    let p = pieces_of(b, s, s, q);
    &&& x.components@.len() == p.len()
    &&& forall|i: int| 0 <= i < p.len() ==> piece_is(#[trigger] x.components@[i], b, p[i])
    &&& x.span == span_of((s, if p.len() > 0 { p.last().2 } else { s }))
}

/// The shell-form text at `s..q`: string pieces between line continuations,
/// with the comment lines after continuations as comments. The last piece
/// loses its trailing blanks.
fn breakable(input: &str, b: &[u8], s: usize, q: usize) -> (r: BreakableString)
    requires
        b@ == input.spec_bytes(),
        scan_ok(b@, s as int, q as int),
        ascii_cut(b@, s as int),
    ensures
        r.span.start == s,
        s <= r.span.end <= q,
        breakable_fits(r, b@),
        breakable_is(r, b@, s as int, q as int),
{
    let ghost all = pieces_of(b@, s as int, s as int, q as int);
    let ghost acc = Seq::<(bool, int, int)>::empty();
    let mut components: Vec<BreakableStringComponent> = Vec::new();
    let mut seg = s;
    let mut i = s;
    let mut last_end = s;
    proof {
        assert(acc + all =~= all);
    }
    while i < q
        invariant
            b@ == input.spec_bytes(),
            scan_ok(b@, s as int, q as int),
            s <= seg <= i <= q,
            s <= last_end <= seg,
            ascii_cut(b@, seg as int),
            forall|t: int| 0 <= t < components@.len() ==> component_fits(#[trigger] components@[t], b@),
            all == pieces_of(b@, s as int, s as int, q as int),
            acc + pieces_of(b@, seg as int, i as int, q as int) == all,
            components@.len() == acc.len(),
            forall|t: int| 0 <= t < acc.len() ==> piece_is(#[trigger] components@[t], b@, acc[t]),
            last_end == if acc.len() > 0 { acc.last().2 } else { s as int },
            forall|t: int| 0 <= t < acc.len() ==> (#[trigger] acc[t]).2 <= seg,
        decreases q - i,
    {
        if b[i] == 92u8 {
            match continuation_at(b, i, q) {
                Some(k) => {
                    let ghost c = comment_lines(b@, k as int, q as int);
                    let ghost before = acc;
                    proof {
                        assert(pieces_of(b@, seg as int, i as int, q as int) == (if i > seg {
                            seq![(false, seg as int, i as int)]
                        } else {
                            Seq::<(bool, int, int)>::empty()
                        }) + comment_pieces(c.0) + pieces_of(b@, c.1, c.1, q as int));
                    }
                    if i > seg {
                        components.push(BreakableStringComponent::String(plain(input, seg, i)));
                        last_end = i;
                        proof {
                            acc = acc.push((false, seg as int, i as int));
                        }
                    }
                    let ghost head_acc = acc;
                    let ghost cacc = Seq::<(int, int)>::empty();
                    let mut j = k;
                    proof {
                        assert(cacc + c.0 =~= c.0);
                        assert(head_acc + comment_pieces(cacc) =~= head_acc);
                        lemma_continuation(b@, i as int, q as int);
                    }
                    loop
                        invariant
                            b@ == input.spec_bytes(),
                            scan_ok(b@, s as int, q as int),
                            s <= last_end <= j,
                            k <= j <= q,
                            s <= i < k,
                            ascii_cut(b@, j as int),
                            forall|t: int| 0 <= t < components@.len() ==> component_fits(#[trigger] components@[t], b@),
                            c == comment_lines(b@, k as int, q as int),
                            cacc + comment_lines(b@, j as int, q as int).0 == c.0,
                            comment_lines(b@, j as int, q as int).1 == c.1,
                            acc == head_acc + comment_pieces(cacc),
                            components@.len() == acc.len(),
                            forall|t: int| 0 <= t < acc.len() ==> piece_is(#[trigger] components@[t], b@, acc[t]),
                            last_end == if acc.len() > 0 { acc.last().2 } else { s as int },
                            forall|t: int| 0 <= t < acc.len() ==> (#[trigger] acc[t]).2 <= j,
                        ensures
                            comment_lines(b@, j as int, q as int).0 == Seq::<(int, int)>::empty(),
                            comment_lines(b@, j as int, q as int).1 == j,
                        decreases q - j,
                    {
                        if j >= q {
                            break;
                        }
                        let t = skip_blanks(b, j, q);
                        if t < q && b[t] == 10u8 {
                            j = t + 1;
                        } else if t < q && b[t] == 35u8 {
                            let le = line_end(b, t, q);
                            let cm = plain(input, t, le);
                            components.push(
                                BreakableStringComponent::Comment(SpannedComment { span: cm.span, content: cm.content }),
                            );
                            last_end = le;
                            proof {
                                let old_cacc = cacc;
                                cacc = cacc.push((t as int, le as int));
                                acc = acc.push((true, t as int, le as int));
                                assert(comment_pieces(cacc) =~= comment_pieces(old_cacc).push((true, t as int, le as int)));
                                if le < q {
                                    assert(cacc + comment_lines(b@, le + 1, q as int).0 =~= old_cacc + comment_lines(b@, j as int, q as int).0);
                                } else {
                                    assert(comment_lines(b@, q as int, q as int).0 =~= Seq::<(int, int)>::empty());
                                    assert(cacc + comment_lines(b@, q as int, q as int).0 =~= old_cacc + comment_lines(b@, j as int, q as int).0);
                                }
                            }
                            if le < q {
                                j = le + 1;
                            } else {
                                j = q;
                                break;
                            }
                        } else {
                            break;
                        }
                    }
                    proof {
                        assert(cacc =~= c.0);
                        assert(acc + pieces_of(b@, j as int, j as int, q as int) =~= before + pieces_of(b@, seg as int, i as int, q as int));
                    }
                    seg = j;
                    i = j;
                },
                None => {
                    i = i + 1;
                },
            }
        } else {
            i = i + 1;
        }
    }
    let mut e = q;
    while e > seg && blank(b[e - 1])
        invariant
            b@ == input.spec_bytes(),
            seg <= e <= q,
            q <= b@.len(),
            ascii_cut(b@, e as int),
            forall|t: int| 0 <= t < components@.len() ==> component_fits(#[trigger] components@[t], b@),
            trim_end(b@, seg as int, e as int) == trim_end(b@, seg as int, q as int),
        decreases e - seg,
    {
        e = e - 1;
    }
    let ghost before = acc;
    if e > seg {
        components.push(BreakableStringComponent::String(plain(input, seg, e)));
        last_end = e;
        proof {
            acc = acc.push((false, seg as int, e as int));
        }
    }
    proof {
        assert(acc =~= all);
    }
    BreakableString { span: Span { start: s, end: last_end }, components }
}

/// The items of an exec-form array from `i` on: double-quoted strings that
/// decode, separated by commas; the ranges of the items and the position
/// after the closing bracket, or `None` where the text is no such array.
pub open spec fn array_items(b: Seq<u8>, i: int, q: int) -> Option<(Seq<(int, int)>, int)>
    decreases q - i,
    via array_items_decreases
{
    if i < 0 || i >= q || b[i] != 34u8 {
        None
    } else {
        let e = quote_end_of(b, i, q);
        if !literal_ok(b, i, e) {
            None
        } else {
            let t = gap_end(b, e, q);
            if t < q && b[t] == 44u8 {
                match array_items(b, gap_end(b, t + 1, q), q) {
                    Some(r) => Some((seq![(i, e)] + r.0, r.1)),
                    None => None,
                }
            } else if t < q && b[t] == 93u8 {
                Some((seq![(i, e)], t + 1))
            } else {
                None
            }
        }
    }
}

#[via_fn]
proof fn array_items_decreases(b: Seq<u8>, i: int, q: int) {
    if 0 <= i < q {
        lemma_quote_close(b, b[i], i + 1, q);
        let e = quote_end_of(b, i, q);
        lemma_gap_end(b, e, q);
        let t = gap_end(b, e, q);
        if t < q {
            lemma_gap_end(b, t + 1, q);
        }
    }
}

proof fn lemma_array_items(b: Seq<u8>, i: int, q: int)
    requires
        0 <= i <= q,
    ensures
        array_items(b, i, q) matches Some(r) ==> i < r.1 <= q,
    decreases q - i,
{
    if i < q && b[i] == 34u8 {
        lemma_quote_close(b, b[i], i + 1, q);
        let e = quote_end_of(b, i, q);
        lemma_gap_end(b, e, q);
        let t = gap_end(b, e, q);
        if t < q {
            lemma_gap_end(b, t + 1, q);
            lemma_array_items(b, gap_end(b, t + 1, q), q);
        }
    }
}

/// The exec-form array that opens with the `[` at `s`.
pub open spec fn array_of(b: Seq<u8>, s: int, q: int) -> Option<(Seq<(int, int)>, int)> {
    let i = gap_end(b, s + 1, q);
    if i < q && b[i] == 93u8 {
        Some((Seq::empty(), i + 1))
    } else {
        array_items(b, i, q)
    }
}

/// An array read from `b` as `array_of` gives it.
pub open spec fn array_is(x: StringArray, b: Seq<u8>, s: int, q: int) -> bool {
    match array_of(b, s, q) {
        Some(a) => {
            &&& x.span == span_of((s, a.1))
            &&& x.elements@.len() == a.0.len()
            &&& forall|i: int| 0 <= i < a.0.len() ==> (#[trigger] x.elements@[i]).span == span_of(a.0[i])
                && Some(x.elements@[i].content@) == literal_value(b, a.0[i].0, a.0[i].1)
        },
        None => false,
    }
}

/// Items read so far, put in front of what the rest of the array gives.
pub open spec fn after_items(done: Seq<(int, int)>, rest: Option<(Seq<(int, int)>, int)>) -> Option<(Seq<(int, int)>, int)> {
    match rest {
        Some(r) => Some((done + r.0, r.1)),
        None => None,
    }
}

/// The exec-form array that opens at `s`: double-quoted strings separated
/// by commas, inside brackets.
fn string_array(input: &str, b: &[u8], s: usize, q: usize) -> (r: Result<StringArray, Error>)
    requires
        b@ == input.spec_bytes(),
        scan_ok(b@, s as int, q as int),
        s < q,
        b@[s as int] == 91u8,
    ensures
        r is Ok <==> array_of(b@, s as int, q as int) is Some,
        r matches Ok(x) ==> x.span.start == s && s < x.span.end <= q && all_fit(x.elements@, b@)
            && ascii_cut(b@, x.span.end as int) && array_is(x, b@, s as int, q as int),
{
    let mut elements: Vec<SpannedString> = Vec::new();
    let ghost done = Seq::<(int, int)>::empty();
    let mut i = skip_gap(b, s + 1, q);
    if i < q && b[i] == 93u8 {
        return Ok(StringArray { span: Span { start: s, end: i + 1 }, elements });
    }
    proof {
        assert(after_items(done, array_items(b@, i as int, q as int)) =~= array_of(b@, s as int, q as int)) by {
            match array_items(b@, i as int, q as int) {
                Some(r) => {
                    assert(done + r.0 =~= r.0);
                },
                None => {},
            }
        }
    }
    loop
        invariant
            b@ == input.spec_bytes(),
            scan_ok(b@, i as int, q as int),
            s < i,
            ascii_cut(b@, i as int),
            all_fit(elements@, b@),
            after_items(done, array_items(b@, i as int, q as int)) == array_of(b@, s as int, q as int),
            elements@.len() == done.len(),
            forall|t: int| 0 <= t < done.len() ==> (#[trigger] elements@[t]).span == span_of(done[t])
                && Some(elements@[t].content@) == literal_value(b@, done[t].0, done[t].1),
        decreases q - i,
    {
        if i >= q || b[i] != 34u8 {
            return Err(syntax(i, "expected a quoted string"));
        }
        let e = quote_end(b, i, q);
        match literal(input, b, i, e) {
            Ok(x) => elements.push(x),
            Err(err) => {
                return Err(err);
            },
        }
        let ghost old_done = done;
        proof {
            done = done.push((i as int, e as int));
        }
        let t = skip_gap(b, e, q);
        if t < q && b[t] == 44u8 {
            let ni = skip_gap(b, t + 1, q);
            proof {
                match array_items(b@, ni as int, q as int) {
                    Some(r) => {
                        assert(done + r.0 =~= old_done + (seq![(i as int, e as int)] + r.0));
                    },
                    None => {},
                }
            }
            i = ni;
        } else if t < q && b[t] == 93u8 {
            proof {
                assert(done =~= old_done + seq![(i as int, e as int)]);
            }
            return Ok(StringArray { span: Span { start: s, end: t + 1 }, elements });
        } else {
            return Err(syntax(t, "expected ',' or ']'"));
        }
    }
}

/// The span that an expression covers.
pub open spec fn expr_span(x: ShellOrExecExpr) -> Span {
    match x {
        ShellOrExecExpr::Shell(s) => s.span,
        ShellOrExecExpr::Exec(a) => a.span,
    }
}

/// The arguments at `k..q` read as an exec-form array where one stands
/// there alone, else as shell-form text.
pub open spec fn expr_is(x: ShellOrExecExpr, b: Seq<u8>, k: int, q: int) -> bool {
    let j = gap_end(b, k, q);
    if b[j] == 91u8 && array_of(b, j, q) is Some && gap_end(b, (array_of(b, j, q)->0).1, q) >= q {
        x is Exec && array_is(x->Exec_0, b, j, q)
    } else {
        x is Shell && breakable_is(x->Shell_0, b, j, q)
    }
}

/// The arguments of `RUN`, `CMD` or `ENTRYPOINT` at `k..q`: an exec-form
/// array where one stands alone there, else shell-form text.
fn shell_or_exec(input: &str, b: &[u8], k: usize, q: usize) -> (r: Result<ShellOrExecExpr, Error>)
    requires
        b@ == input.spec_bytes(),
        scan_ok(b@, k as int, q as int),
        ascii_cut(b@, k as int),
    ensures
        r is Ok <==> gap_end(b@, k as int, q as int) < q,
        r matches Err(e) ==> e is GenericParseError,
        r matches Ok(x) ==> k <= expr_span(x).start <= expr_span(x).end <= q && expr_fits(x, b@)
            && expr_is(x, b@, k as int, q as int),
{
    let j = skip_gap(b, k, q);
    if j >= q {
        return Err(generic("instruction requires arguments"));
    }
    proof {
        lemma_gap_end(b@, j as int + 1, q as int);
        lemma_array_items(b@, gap_end(b@, j as int + 1, q as int), q as int);
    }
    if b[j] == 91u8 {
        match string_array(input, b, j, q) {
            Ok(arr) => {
                if skip_gap(b, arr.span.end, q) >= q {
                    return Ok(ShellOrExecExpr::Exec(arr));
                }
            },
            Err(_) => {},
        }
    }
    Ok(ShellOrExecExpr::Shell(breakable(input, b, j, q)))
}

/// A piece of a breakable string read from `text`: a string that is the
/// text it spans (or, for a quoted value, its decoding), or a comment whose
/// content is the text it spans.
pub open spec fn component_fits(c: BreakableStringComponent, text: Seq<u8>) -> bool {
    match c {
        BreakableStringComponent::String(s) => raw_fits(s, text) || fits(s, text),
        BreakableStringComponent::Comment(m) => m.span.start <= m.span.end <= text.len() && utf8(m.content@)
            == text.subrange(m.span.start as int, m.span.end as int),
    }
}

/// Every piece of a breakable string fits `text`.
pub open spec fn breakable_fits(x: BreakableString, text: Seq<u8>) -> bool {
    forall|i: int| 0 <= i < x.components@.len() ==> component_fits(#[trigger] x.components@[i], text)
}

/// Every string of a shell-form or exec-form expression fits `text`.
pub open spec fn expr_fits(x: ShellOrExecExpr, text: Seq<u8>) -> bool {
    match x {
        ShellOrExecExpr::Shell(s) => breakable_fits(s, text),
        ShellOrExecExpr::Exec(a) => all_fit(a.elements@, text),
    }
}

/// Every spanned string of an instruction fits the text it was read from.
pub open spec fn field_fits(x: Instruction, text: Seq<u8>) -> bool {
    match x {
        Instruction::From(f) => fits(f.image, text) && (f.alias matches Some(a) ==> fits(a, text)) && forall|i: int|
            0 <= i < f.flags@.len() ==> flag_fits((#[trigger] f.flags@[i]).span, f.flags@[i].name, f.flags@[i].value, text),
        Instruction::Arg(a) => fits(a.name, text) && (a.value matches Some(v) ==> fits(v, text)),
        Instruction::Copy(c) => all_fit(c.sources@, text) && fits(c.destination, text) && forall|i: int|
            0 <= i < c.flags@.len() ==> flag_fits((#[trigger] c.flags@[i]).span, c.flags@[i].name, c.flags@[i].value, text),
        Instruction::Label(l) => forall|i: int|
            0 <= i < l.labels@.len() ==> fits((#[trigger] l.labels@[i]).name, text) && fits(l.labels@[i].value, text),
        Instruction::Env(e) => forall|i: int|
            0 <= i < e.vars@.len() ==> fits((#[trigger] e.vars@[i]).key, text) && breakable_fits(e.vars@[i].value, text),
        Instruction::Misc(m) => fits(m.instruction, text) && breakable_fits(m.arguments, text),
        Instruction::Run(r) => expr_fits(r.expr, text),
        Instruction::Cmd(c) => expr_fits(c.expr, text),
        Instruction::Entrypoint(e) => expr_fits(e.expr, text),
    }
}

/// An ASCII letter.
pub open spec fn is_letter(c: u8) -> bool {
    (65 <= c <= 90) || (97 <= c <= 122)
}

/// The end of the run of letters that starts at `p`: an instruction's
/// keyword.
pub open spec fn letters_end(b: Seq<u8>, p: int, q: int) -> int
    decreases q - p,
{
    if 0 <= p < q && is_letter(b[p]) {
        letters_end(b, p + 1, q)
    } else {
        p
    }
}

/// The bytes of the keyword `from`.
pub open spec fn from_kw() -> Seq<u8> {
    seq![102u8, 114u8, 111u8, 109u8]
}

/// The bytes of the keyword `arg`.
pub open spec fn arg_kw() -> Seq<u8> {
    seq![97u8, 114u8, 103u8]
}

/// The bytes of the keyword `label`.
pub open spec fn label_kw() -> Seq<u8> {
    seq![108u8, 97u8, 98u8, 101u8, 108u8]
}

/// The bytes of the keyword `run`.
pub open spec fn run_kw() -> Seq<u8> {
    seq![114u8, 117u8, 110u8]
}

/// The bytes of the keyword `entrypoint`.
pub open spec fn entrypoint_kw() -> Seq<u8> {
    seq![101u8, 110u8, 116u8, 114u8, 121u8, 112u8, 111u8, 105u8, 110u8, 116u8]
}

/// The bytes of the keyword `cmd`.
pub open spec fn cmd_kw() -> Seq<u8> {
    seq![99u8, 109u8, 100u8]
}

/// The bytes of the keyword `copy`.
pub open spec fn copy_kw() -> Seq<u8> {
    seq![99u8, 111u8, 112u8, 121u8]
}

/// The bytes of the keyword `env`.
pub open spec fn env_kw() -> Seq<u8> {
    seq![101u8, 110u8, 118u8]
}

/// The arguments at `k..q` build the instruction that the keyword at
/// `p..k` names; an unknown keyword needs some argument.
pub open spec fn keyword_ok(b: Seq<u8>, p: int, k: int, q: int) -> bool {
    if spells_word(b, p, k, from_kw()) {
        from_ok(b, k, q)
    } else if spells_word(b, p, k, arg_kw()) {
        arg_ok(b, k, q)
    } else if spells_word(b, p, k, label_kw()) {
        label_ok(b, k, q)
    } else if spells_word(b, p, k, copy_kw()) {
        copy_ok(b, k, q)
    } else if spells_word(b, p, k, env_kw()) {
        env_ok(b, k, q)
    } else {
        gap_end(b, k, q) < q
    }
}

/// The instruction is of the kind its keyword names, and holds what its
/// arguments give.
pub open spec fn shape_ok(x: Instruction, b: Seq<u8>, p: int, k: int, q: int) -> bool {
    if spells_word(b, p, k, from_kw()) {
        x is From && from_shape(x->From_0, b, k, q)
    } else if spells_word(b, p, k, arg_kw()) {
        x is Arg && arg_shape(x->Arg_0, b, k, q)
    } else if spells_word(b, p, k, label_kw()) {
        x is Label && label_shape(x->Label_0, b, k, q)
    } else if spells_word(b, p, k, copy_kw()) {
        x is Copy && copy_shape(x->Copy_0, b, k, q)
    } else if spells_word(b, p, k, env_kw()) {
        x is Env && env_shape(x->Env_0, b, k, q)
    } else if spells_word(b, p, k, run_kw()) {
        x is Run && expr_is(x->Run_0.expr, b, k, q) && x->Run_0.span.end == expr_span(x->Run_0.expr).end
    } else if spells_word(b, p, k, cmd_kw()) {
        x is Cmd && expr_is(x->Cmd_0.expr, b, k, q) && x->Cmd_0.span.end == expr_span(x->Cmd_0.expr).end
    } else if spells_word(b, p, k, entrypoint_kw()) {
        x is Entrypoint && expr_is(x->Entrypoint_0.expr, b, k, q) && x->Entrypoint_0.span.end == expr_span(
            x->Entrypoint_0.expr,
        ).end
    } else {
        &&& x is Misc
        &&& part_is(x->Misc_0.instruction, b, p, k)
        &&& breakable_is(x->Misc_0.arguments, b, gap_end(b, k, q), q)
        &&& x->Misc_0.span.end == x->Misc_0.arguments.span.end
    }
}

/// The text at `p..q` is an instruction: a keyword of letters, then blanks
/// or a line continuation, then the arguments its keyword asks for.
pub open spec fn instruction_ok(b: Seq<u8>, p: int, q: int) -> bool {
    let k = letters_end(b, p, q);
    &&& k > p
    &&& (k < q ==> is_blank(b[k]) || continuation_of(b, k, q) is Some)
    &&& keyword_ok(b, p, k, q)
}

/// The instruction at `p` is a `LABEL`, whose quoted literals may run
/// across lines.
pub open spec fn is_label_at(b: Seq<u8>, p: int) -> bool {
    spells_word(b, p, letters_end(b, p, b.len() as int), label_kw())
}

/// A keyword that is followed by blanks, a line continuation or the end.
pub open spec fn keyword_sep_ok(b: Seq<u8>, p: int, k: int, q: int) -> bool {
    k > p && (k < q ==> is_blank(b[k]) || continuation_of(b, k, q) is Some)
}

/// All words from the `n`th on decode.
pub open spec fn words_decode(b: Seq<u8>, w: Seq<(int, int)>, n: int) -> bool {
    forall|i: int| n <= i < w.len() ==> literal_ok(b, (#[trigger] w[i]).0, w[i].1)
}

/// The instruction with keyword `b[p..k]` lacks a required part: `FROM`
/// without an image, `ARG`, `LABEL` or `ENV` without a word, `COPY` with
/// fewer than two paths, any other without arguments.
pub open spec fn missing_part(b: Seq<u8>, p: int, k: int, q: int) -> bool {
    let w = words_of(b, k, q);
    let n = leading_flag_count(b, w, 0);
    if spells_word(b, p, k, from_kw()) {
        flags_ok(b, w, n) && n >= w.len()
    } else if spells_word(b, p, k, arg_kw()) || spells_word(b, p, k, label_kw()) {
        w.len() == 0
    } else if spells_word(b, p, k, copy_kw()) {
        flags_ok(b, w, n) && words_decode(b, w, n) && w.len() - n < 2
    } else if spells_word(b, p, k, env_kw()) {
        w.len() == 0
    } else {
        gap_end(b, k, q) >= q
    }
}

/// A `FROM` whose image carries a digest that is not valid.
pub open spec fn invalid_digest(b: Seq<u8>, p: int, k: int, q: int) -> bool {
    let w = words_of(b, k, q);
    let n = leading_flag_count(b, w, 0);
    spells_word(b, p, k, from_kw()) && flags_ok(b, w, n) && image_alias_ok(b, w, n) && !digest_ok(
        literal_value(b, w[n].0, w[n].1)->0,
    )
}

/// A `FROM` image, or a `COPY` path, that does not decode.
pub open spec fn undecodable(b: Seq<u8>, p: int, k: int, q: int) -> bool {
    let w = words_of(b, k, q);
    let n = leading_flag_count(b, w, 0);
    if spells_word(b, p, k, from_kw()) {
        flags_ok(b, w, n) && n < w.len() && !literal_ok(b, w[n].0, w[n].1)
    } else if spells_word(b, p, k, arg_kw()) || spells_word(b, p, k, label_kw()) {
        false
    } else {
        spells_word(b, p, k, copy_kw()) && flags_ok(b, w, n) && !words_decode(b, w, n)
    }
}

/// The error that an instruction at `p..q` gives: a syntax error at `p`
/// where no keyword starts there, an error on the instruction where a part
/// is missing or a digest is invalid, an unescape error where an image or
/// path does not decode.
pub open spec fn error_fits(e: Error, b: Seq<u8>, p: int, q: int) -> bool {
    let k = letters_end(b, p, q);
    &&& (k == p ==> (e matches Error::ParseError { position, .. } && position == p))
    &&& (keyword_sep_ok(b, p, k, q) && (missing_part(b, p, k, q) || invalid_digest(b, p, k, q)) ==> e is GenericParseError)
    &&& (keyword_sep_ok(b, p, k, q) && undecodable(b, p, k, q) ==> e is UnescapeError)
}

/// The instruction whose keyword is `b[p..k]` and whose arguments span
/// `k..q`, by its keyword; keywords are read in any case.
fn build_by_keyword(input: &str, b: &[u8], p: usize, k: usize, q: usize) -> (r: Result<Instruction, Error>)
    requires
        b@ == input.spec_bytes(),
        p < k,
        !is_quote(b@[p as int]),
        scan_ok(b@, k as int, q as int),
        ascii_cut(b@, k as int),
        ascii_cut(b@, p as int),
    ensures
        r is Ok <==> keyword_ok(b@, p as int, k as int, q as int),
        missing_part(b@, p as int, k as int, q as int) || invalid_digest(b@, p as int, k as int, q as int) ==> (r matches Err(
            e,
        ) && e is GenericParseError),
        undecodable(b@, p as int, k as int, q as int) ==> (r matches Err(e) && e is UnescapeError),
        r matches Ok(x) ==> x.spec_span().start == p && p <= x.spec_span().end <= q && field_fits(x, b@)
            && shape_ok(x, b@, p as int, k as int, q as int),
{
    let from_word: [u8; 4] = [102u8, 114u8, 111u8, 109u8];
    let arg_word: [u8; 3] = [97u8, 114u8, 103u8];
    let label_word: [u8; 5] = [108u8, 97u8, 98u8, 101u8, 108u8];
    let run_word: [u8; 3] = [114u8, 117u8, 110u8];
    let entrypoint_word: [u8; 10] = [101u8, 110u8, 116u8, 114u8, 121u8, 112u8, 111u8, 105u8, 110u8, 116u8];
    let cmd_word: [u8; 3] = [99u8, 109u8, 100u8];
    let copy_word: [u8; 4] = [99u8, 111u8, 112u8, 121u8];
    let env_word: [u8; 3] = [101u8, 110u8, 118u8];
    if spells(b, p, k, &from_word) {
        match build_from(input, b, p, k, q) {
            Ok(x) => Ok(Instruction::From(x)),
            Err(e) => Err(e),
        }
    } else if spells(b, p, k, &arg_word) {
        match build_arg(input, b, p, k, q) {
            Ok(x) => Ok(Instruction::Arg(x)),
            Err(e) => Err(e),
        }
    } else if spells(b, p, k, &label_word) {
        match build_label(input, b, p, k, q) {
            Ok(x) => Ok(Instruction::Label(x)),
            Err(e) => Err(e),
        }
    } else if spells(b, p, k, &copy_word) {
        match build_copy(input, b, p, k, q) {
            Ok(x) => Ok(Instruction::Copy(x)),
            Err(e) => Err(e),
        }
    } else if spells(b, p, k, &env_word) {
        match build_env(input, b, p, k, q) {
            Ok(x) => Ok(Instruction::Env(x)),
            Err(e) => Err(e),
        }
    } else if spells(b, p, k, &run_word) || spells(b, p, k, &cmd_word) || spells(b, p, k, &entrypoint_word) {
        let expr = match shell_or_exec(input, b, k, q) {
            Ok(x) => x,
            Err(e) => {
                return Err(e);
            },
        };
        let end = match &expr {
            ShellOrExecExpr::Shell(s) => s.span.end,
            ShellOrExecExpr::Exec(a) => a.span.end,
        };
        let span = Span { start: p, end };
        if spells(b, p, k, &run_word) {
            Ok(Instruction::Run(RunInstruction { span, expr }))
        } else if spells(b, p, k, &cmd_word) {
            Ok(Instruction::Cmd(CmdInstruction { span, expr }))
        } else {
            Ok(Instruction::Entrypoint(EntrypointInstruction { span, expr }))
        }
    } else {
        let instruction = plain(input, p, k);
        proof {
            vstd::utf8::encode_utf8_decode_utf8(instruction.content@);
        }
        let j = skip_gap(b, k, q);
        if j >= q {
            return Err(generic("generic instructions require arguments"));
        }
        let arguments = breakable(input, b, j, q);
        let end = arguments.span.end;
        Ok(Instruction::Misc(MiscInstruction { span: Span { start: p, end }, instruction, arguments }))
    }
}

/// Whether the instruction at `p` is a `LABEL`, whose quoted literals may
/// run across lines.
pub fn starts_label(b: &[u8], p: usize) -> (r: bool)
    requires
        p <= b@.len(),
    ensures
        r == is_label_at(b@, p as int),
{
    let n = b.len();
    let mut k = p;
    while k < n && ((65u8 <= b[k] && b[k] <= 90u8) || (97u8 <= b[k] && b[k] <= 122u8))
        invariant
            p <= k <= n,
            n == b@.len(),
            letters_end(b@, k as int, n as int) == letters_end(b@, p as int, n as int),
        decreases n - k,
    {
        k = k + 1;
    }
    let label_word: [u8; 5] = [108u8, 97u8, 98u8, 101u8, 108u8];
    spells(b, p, k, &label_word)
}

/// The instruction at `p..q`: a keyword of ASCII letters, then its
/// arguments after blanks or a line continuation.
pub fn build_instruction(input: &str, b: &[u8], p: usize, q: usize) -> (r: Result<Instruction, Error>)
    requires
        b@ == input.spec_bytes(),
        scan_ok(b@, p as int, q as int),
        ascii_cut(b@, p as int),
    ensures
        r is Ok <==> instruction_ok(b@, p as int, q as int),
        r matches Err(e) ==> error_fits(e, b@, p as int, q as int),
        r matches Ok(x) ==> x.spec_span().start == p && p <= x.spec_span().end <= q && field_fits(x, b@)
            && shape_ok(x, b@, p as int, letters_end(b@, p as int, q as int), q as int),
{
    let mut k = p;
    while k < q && ((65u8 <= b[k] && b[k] <= 90u8) || (97u8 <= b[k] && b[k] <= 122u8))
        invariant
            p <= k <= q <= b@.len(),
            k > p ==> b@[k - 1] < 128,
            k > p ==> !is_quote(b@[p as int]),
            letters_end(b@, k as int, q as int) == letters_end(b@, p as int, q as int),
        decreases q - k,
    {
        k = k + 1;
    }
    if k == p {
        return Err(syntax(p, "expected an instruction"));
    }
    if k < q && !blank(b[k]) && continuation_at(b, k, q).is_none() {
        return Err(syntax(k, "expected blanks after the instruction keyword"));
    }
    build_by_keyword(input, b, p, k, q)
}

} // verus!
