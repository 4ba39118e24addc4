use vstd::prelude::*;
use vstd::string::*;
use vstd::utf8::{decode_utf8, encode_utf8_decode_utf8};

use crate::error::Error;
use crate::lexer::is_quote;
use crate::splicer::Span;
use crate::text::{utf8, ascii_cut, ascii_substring, push_text};
use crate::util::SpannedString;

verus! {

/// What enquote's `unquote` makes of a quoted literal.
pub uninterp spec fn unquoted(s: Seq<char>) -> Option<Seq<char>>;

/// Relies on `enquote::unquote`: strips the surrounding quotes and decodes
/// the escapes, or fails; either way the outcome depends on the literal
/// alone. It fails on fewer than two characters, on a first character that
/// is no quote, and on a last character unlike the first. Its error is kept
/// as its message.
#[verifier::external_body]
fn unquote_text(s: &str) -> (r: Result<String, String>)
    ensures
        match unquoted(s@) {
            Some(t) => r matches Ok(x) && x@ == t,
            None => r is Err,
        },
        s@.len() < 2 ==> r is Err,
        s@.len() >= 2 && !(s@[0] == '"' || s@[0] == '\'' || s@[0] == '`') ==> r is Err,
        s@.len() >= 2 && s@.last() != s@[0] ==> r is Err,
{
    enquote::unquote(s).map_err(|e| e.to_string())
}

/// A span that lies within `text`, and a string whose content is exactly
/// the text it spans.
pub open spec fn raw_fits(s: SpannedString, text: Seq<u8>) -> bool {
    &&& s.span.start <= s.span.end <= text.len()
    &&& utf8(s.content@) == text.subrange(s.span.start as int, s.span.end as int)
}

/// What a quoted literal decodes to: escaped line breaks are removed, then
/// the quotes and escapes are undone.
pub open spec fn quoted_content(literal: Seq<u8>) -> Option<Seq<char>> {
    unquoted(decode_utf8(without_breaks(literal)))
}

/// A span that lies within `text`, and a string read from it: the decoded
/// literal where the span starts with a quote, else the text it spans.
pub open spec fn fits(s: SpannedString, text: Seq<u8>) -> bool {
    &&& s.span.start <= s.span.end <= text.len()
    &&& if s.span.start < s.span.end && is_quote(text[s.span.start as int]) {
        quoted_content(text.subrange(s.span.start as int, s.span.end as int)) == Some(s.content@)
    } else {
        utf8(s.content@) == text.subrange(s.span.start as int, s.span.end as int)
    }
}

/// The bytes `s..e` of the text as a spanned string.
pub fn plain(input: &str, s: usize, e: usize) -> (r: SpannedString)
    requires
        s <= e <= input.spec_bytes().len(),
        ascii_cut(input.spec_bytes(), s as int),
        ascii_cut(input.spec_bytes(), e as int),
    ensures
        r.span == (Span { start: s, end: e }),
        raw_fits(r, input.spec_bytes()),
        (s < e ==> !is_quote(input.spec_bytes()[s as int])) ==> fits(r, input.spec_bytes()),
{
    SpannedString { span: Span { start: s, end: e }, content: ascii_substring(input, s, e) }
}

/// What the literal at `s..e` reads as: a quoted one decoded, anything
/// else as it stands; `None` where a quoted one does not decode.
pub open spec fn literal_value(b: Seq<u8>, s: int, e: int) -> Option<Seq<char>> {
    if is_quote(b[s]) {
        quoted_content(b.subrange(s, e))
    } else {
        Some(decode_utf8(b.subrange(s, e)))
    }
}

/// The literal at `s..e`: a quoted one is decoded, anything else taken as
/// it stands.
pub fn literal(input: &str, b: &[u8], s: usize, e: usize) -> (r: Result<SpannedString, Error>)
    requires
        b@ == input.spec_bytes(),
        s < e <= b@.len(),
        ascii_cut(b@, s as int),
        ascii_cut(b@, e as int),
    ensures
        match literal_value(b@, s as int, e as int) {
            Some(c) => r matches Ok(x) && x.span == (Span { start: s, end: e }) && x.content@ == c,
            None => r matches Err(err) && err is UnescapeError,
        },
        r matches Ok(x) ==> fits(x, b@),
        !is_quote(b@[s as int]) ==> (r matches Ok(x) && utf8(x.content@) == b@.subrange(s as int, e as int)),
{
    let raw = ascii_substring(input, s, e);
    proof {
        encode_utf8_decode_utf8(raw@);
    }
    if b[s] == 34u8 || b[s] == 39u8 || b[s] == 96u8 {
        let cleaned = clean_escaped_breaks(raw.as_str());
        proof {
            encode_utf8_decode_utf8(cleaned@);
        }
        match unquote_text(cleaned.as_str()) {
            Ok(t) => Ok(SpannedString { span: Span { start: s, end: e }, content: t }),
            Err(m) => Err(Error::UnescapeError { message: m }),
        }
    } else {
        Ok(SpannedString { span: Span { start: s, end: e }, content: raw })
    }
}

/// `b` with every backslash-newline pair taken out, left to right.
pub open spec fn without_breaks(b: Seq<u8>) -> Seq<u8>
    decreases b.len(),
{
    if b.len() < 2 {
        b
    } else if b[0] == 92u8 && b[1] == 10u8 {
        without_breaks(b.subrange(2, b.len() as int))
    } else {
        seq![b[0]] + without_breaks(b.drop_first())
    }
}

/// Removes escaped line breaks (a backslash right before a newline).
pub fn clean_escaped_breaks(s: &str) -> (r: String)
    ensures
        utf8(r@) == without_breaks(s.spec_bytes()),
{
    let b = s.as_bytes();
    let n = b.len();
    let ghost sb = b@;
    let mut out = String::new();
    let mut seg: usize = 0;
    let mut i: usize = 0;
    proof {
        assert(utf8(out@) =~= Seq::<u8>::empty());
        assert(sb.subrange(0, n as int) =~= sb);
        assert(sb.subrange(0, 0) =~= Seq::<u8>::empty());
    }
    while i < n
        invariant
            n == sb.len(),
            sb == s.spec_bytes(),
            b@ == sb,
            seg <= i <= n,
            ascii_cut(sb, seg as int),
            utf8(out@) + without_breaks(sb.subrange(seg as int, n as int)) == without_breaks(sb),
            without_breaks(sb.subrange(seg as int, n as int)) == sb.subrange(seg as int, i as int)
                + without_breaks(sb.subrange(i as int, n as int)),
        decreases n - i,
    {
        let ghost rest = sb.subrange(i as int, n as int);
        if i + 1 < n && b[i] == 92u8 && b[i + 1] == 10u8 {
            let piece = ascii_substring(s, seg, i);
            let ghost before = utf8(out@);
            push_text(&mut out, piece.as_str());
            proof {
                assert(rest.subrange(2, rest.len() as int) =~= sb.subrange(i + 2, n as int));
                assert(without_breaks(rest) == without_breaks(sb.subrange(i + 2, n as int)));
                assert(sb.subrange(i + 2, i + 2) =~= Seq::<u8>::empty());
                assert(without_breaks(sb.subrange(i + 2, n as int)) == sb.subrange(i + 2, i + 2)
                    + without_breaks(sb.subrange(i + 2, n as int)));
                assert(utf8(out@) + without_breaks(sb.subrange(i + 2, n as int)) =~= before
                    + without_breaks(sb.subrange(seg as int, n as int)));
            }
            i = i + 2;
            seg = i;
        } else {
            proof {
                assert(rest.drop_first() =~= sb.subrange(i + 1, n as int));
                if rest.len() >= 2 {
                    assert(without_breaks(rest) == seq![rest[0]] + without_breaks(rest.drop_first()));
                } else {
                    assert(sb.subrange(i + 1, n as int) =~= Seq::<u8>::empty());
                    assert(without_breaks(rest) == rest);
                    assert(without_breaks(sb.subrange(i + 1, n as int)) =~= Seq::<u8>::empty());
                }
                assert(sb.subrange(seg as int, i + 1) =~= sb.subrange(seg as int, i as int) + seq![sb[i as int]]);
            }
            i = i + 1;
        }
    }
    let piece = ascii_substring(s, seg, n);
    push_text(&mut out, piece.as_str());
    proof {
        assert(sb.subrange(n as int, n as int) =~= Seq::<u8>::empty());
    }
    out
}

} // verus!
