use vstd::prelude::*;
use vstd::string::*;

use crate::text::{utf8, ascii_cut, ascii_substring, push_text, lemma_utf8_ascii_char};

verus! {

/// `i` is the first position of byte `c` in `b`.
pub open spec fn is_first(b: Seq<u8>, c: u8, i: int) -> bool {
    &&& 0 <= i < b.len()
    &&& b[i] == c
    &&& forall|k: int| 0 <= k < i ==> b[k] != c
}

/// The first position of byte `c` in `b`, if any.
pub open spec fn first_index(b: Seq<u8>, c: u8) -> Option<int> {
    if exists|i: int| is_first(b, c, i) {
        Some(choose|i: int| is_first(b, c, i))
    } else {
        None
    }
}

/// `b` holds byte `c`.
pub open spec fn has_byte(b: Seq<u8>, c: u8) -> bool {
    exists|i: int| 0 <= i < b.len() && b[i] == c
}

/// The bytes of `localhost`.
pub open spec fn localhost() -> Seq<u8> {
    seq![108u8, 111u8, 99u8, 97u8, 108u8, 104u8, 111u8, 115u8, 116u8]
}

/// The part of a reference before its first `/` names a registry host: it is
/// `localhost`, or holds a `.` or a `:`.
pub open spec fn is_registry_spec(t: Seq<u8>) -> bool {
    t == localhost() || has_byte(t, 46u8) || has_byte(t, 58u8)
}

/// The registry of a reference, if it names one, and the rest of it.
pub open spec fn split_registry(b: Seq<u8>) -> (Option<Seq<u8>>, Seq<u8>) {
    match first_index(b, 47u8) {
        Some(i) => if is_registry_spec(b.subrange(0, i)) {
            (Some(b.subrange(0, i)), b.subrange(i + 1, b.len() as int))
        } else {
            (None, b)
        },
        None => (None, b),
    }
}

/// An image reference as plain bytes: registry, image, tag and hash.
pub type ImageRefModel = (Option<Seq<u8>>, Seq<u8>, Option<Seq<u8>>, Option<Seq<u8>>);

/// What an image reference parses to: after the registry, a hash follows the
/// first `@`; without one, a tag follows the first `:`.
pub open spec fn image_ref_model(b: Seq<u8>) -> ImageRefModel {
    let (registry, rest) = split_registry(b);
    match first_index(rest, 64u8) {
        Some(j) => (registry, rest.subrange(0, j), None, Some(rest.subrange(j + 1, rest.len() as int))),
        None => match first_index(rest, 58u8) {
            Some(k) => (registry, rest.subrange(0, k), Some(rest.subrange(k + 1, rest.len() as int)), None),
            None => (registry, rest, None, None),
        },
    }
}

/// The text of an image reference: `registry/`, the image, then `:tag` or,
/// without a tag, `@hash`.
pub open spec fn image_ref_text(m: ImageRefModel) -> Seq<u8> {
    let reg = match m.0 {
        Some(r) => r.push(47u8),
        None => Seq::<u8>::empty(),
    };
    let suffix = match m.2 {
        Some(t) => seq![58u8] + t,
        None => match m.3 {
            Some(h) => seq![64u8] + h,
            None => Seq::<u8>::empty(),
        },
    };
    reg + m.1 + suffix
}

/// The parts of a reference, printed again, give back the very text they
/// were parsed from; so printing a parsed reference and parsing it again
/// gives an equal reference.
pub proof fn lemma_image_ref_round_trip(b: Seq<u8>)
    ensures
        image_ref_text(image_ref_model(b)) == b,
        image_ref_model(image_ref_text(image_ref_model(b))) == image_ref_model(b),
{
    let (reg, rest) = split_registry(b);
    let reg_text = match reg {
        Some(r) => r.push(47u8),
        None => Seq::<u8>::empty(),
    };
    assert(reg_text + rest =~= b) by {
        match first_index(b, 47u8) {
            Some(i) => {
                if is_registry_spec(b.subrange(0, i)) {
                    assert(is_first(b, 47u8, i));
                    assert(b =~= b.subrange(0, i).push(47u8) + b.subrange(i + 1, b.len() as int));
                }
            },
            None => {},
        }
    }
    let m = image_ref_model(b);
    match first_index(rest, 64u8) {
        Some(j) => {
            assert(is_first(rest, 64u8, j));
            assert(rest =~= rest.subrange(0, j) + (seq![64u8] + rest.subrange(j + 1, rest.len() as int)));
        },
        None => match first_index(rest, 58u8) {
            Some(k) => {
                assert(is_first(rest, 58u8, k));
                assert(rest =~= rest.subrange(0, k) + (seq![58u8] + rest.subrange(k + 1, rest.len() as int)));
            },
            None => {
                assert(rest =~= rest + Seq::<u8>::empty());
            },
        },
    }
    assert(image_ref_text(m) =~= reg_text + rest);
}

/// The bytes of an optional string.
pub open spec fn opt_bytes(o: Option<String>) -> Option<Seq<u8>> {
    match o {
        Some(s) => Some(utf8(s@)),
        None => None,
    }
}

/// A parsed docker image reference.
#[derive(Debug, Clone, PartialEq, Eq)]
pub struct ImageRef {
    /// An optional registry, generally Docker Hub if unset.
    pub registry: Option<String>,
    /// An image string, possibly including a user or organization name.
    pub image: String,
    /// An optional tag (after the colon), generally `latest` if unset.
    pub tag: Option<String>,
    /// An optional digest (after the `@`). Never set together with `tag`.
    pub hash: Option<String>,
}

impl View for ImageRef {
    type V = ImageRefModel;

    open spec fn view(&self) -> ImageRefModel {
        (opt_bytes(self.registry), utf8(self.image@), opt_bytes(self.tag), opt_bytes(self.hash))
    }
}

/// The first position of byte `c` in `b` at or after `from`.
pub fn find_byte(b: &[u8], from: usize, c: u8) -> (r: Option<usize>)
    requires
        from <= b@.len(),
    ensures
        match r {
            Some(i) => from <= i < b@.len() && b@[i as int] == c && forall|k: int|
                from <= k < i ==> b@[k] != c,
            None => forall|k: int| from <= k < b@.len() ==> b@[k] != c,
        },
{
    let mut i = from;
    while i < b.len()
        invariant
            from <= i <= b@.len(),
            forall|k: int| from <= k < i ==> b@[k] != c,
        decreases b@.len() - i,
    {
        if b[i] == c {
            return Some(i);
        }
        i = i + 1;
    }
    None
}

/// The first position of `c` within `b[from..]`, relative to `from`.
proof fn lemma_first_in_suffix(b: Seq<u8>, from: int, c: u8, r: Option<usize>)
    requires
        0 <= from <= b.len(),
        match r {
            Some(i) => from <= i < b.len() && b[i as int] == c && forall|k: int|
                from <= k < i ==> b[k] != c,
            None => forall|k: int| from <= k < b.len() ==> b[k] != c,
        },
    ensures
        first_index(b.subrange(from, b.len() as int), c) == match r {
            Some(i) => Some(i - from),
            None => None::<int>,
        },
{
    let t = b.subrange(from, b.len() as int);
    match r {
        Some(i) => {
            assert(is_first(t, c, i - from));
            let j = choose|j: int| is_first(t, c, j);
            assert(j == i - from) by {
                if j < i - from {
                    assert(t[j] == b[from + j]);
                }
                if j > i - from {
                    assert(t[i - from] == c);
                }
            }
        },
        None => {
            assert forall|j: int| !is_first(t, c, j) by {
                if 0 <= j < t.len() {
                    assert(t[j] == b[from + j]);
                }
            }
        },
    }
}

/// `b[from..to]` holds byte `c`.
fn contains_byte(b: &[u8], from: usize, to: usize, c: u8) -> (r: bool)
    requires
        from <= to <= b@.len(),
    ensures
        r == has_byte(b@.subrange(from as int, to as int), c),
{
    let mut i = from;
    while i < to
        invariant
            from <= i <= to <= b@.len(),
            forall|k: int| from <= k < i ==> b@[k] != c,
        decreases to - i,
    {
        if b[i] == c {
            assert(b@.subrange(from as int, to as int)[i - from] == c);
            return true;
        }
        i = i + 1;
    }
    assert forall|k: int| 0 <= k < to - from implies b@.subrange(from as int, to as int)[k] != c by {
        assert(b@.subrange(from as int, to as int)[k] == b@[from + k]);
    }
    false
}

/// `b[..to]` names a registry host rather than an organization on the
/// default registry.
fn is_registry(b: &[u8], to: usize) -> (r: bool)
    requires
        to <= b@.len(),
    ensures
        r == is_registry_spec(b@.subrange(0, to as int)),
{
    let t = Ghost(b@.subrange(0, to as int));
    let mut local = to == 9;
    if local {
        let word: [u8; 9] = [108u8, 111u8, 99u8, 97u8, 108u8, 104u8, 111u8, 115u8, 116u8];
        let mut i: usize = 0;
        while i < 9
            invariant
                to == 9,
                i <= 9,
                to <= b@.len(),
                t@ == b@.subrange(0, to as int),
                word@ == localhost(),
                local == forall|k: int| 0 <= k < i ==> b@[k] == word@[k],
            decreases 9 - i,
        {
            if b[i] != word[i] {
                local = false;
            }
            i = i + 1;
        }
        assert(local == (t@ =~= localhost()));
    } else {
        assert(t@.len() != localhost().len());
    }
    local || contains_byte(b, 0, to, 46u8) || contains_byte(b, 0, to, 58u8)
}

impl ImageRef {
    /// Parses an image reference. This never fails: a malformed reference
    /// gives a value that may make little sense.
    pub fn parse(s: &str) -> (r: ImageRef)
        ensures
            r@ == image_ref_model(s.spec_bytes()),
    {
        let (registry, rest) = Self::parse_registry(s);
        let (image, tag, hash) = Self::parse_rest(s, rest);
        ImageRef { registry, image, tag, hash }
    }

    /// The registry of a reference, if it names one, and where the rest of
    /// it starts.
    fn parse_registry(s: &str) -> (r: (Option<String>, usize))
        ensures
            r.1 <= s.spec_bytes().len(),
            ascii_cut(s.spec_bytes(), r.1 as int),
            opt_bytes(r.0) == split_registry(s.spec_bytes()).0,
            s.spec_bytes().subrange(r.1 as int, s.spec_bytes().len() as int) == split_registry(
                s.spec_bytes(),
            ).1,
    {
        let b = s.as_bytes();
        let ghost sb = b@;
        let _n = b.len();
        let slash = find_byte(b, 0, 47u8);
        proof {
            lemma_first_in_suffix(sb, 0, 47u8, slash);
            assert(sb.subrange(0, sb.len() as int) =~= sb);
        }
        match slash {
            Some(i) => {
                if is_registry(b, i) {
                    (Some(ascii_substring(s, 0, i)), i + 1)
                } else {
                    (None, 0)
                }
            },
            None => (None, 0),
        }
    }

    /// Image, tag and hash of the part of a reference after its registry.
    fn parse_rest(s: &str, rest: usize) -> (r: (String, Option<String>, Option<String>))
        requires
            rest <= s.spec_bytes().len(),
            ascii_cut(s.spec_bytes(), rest as int),
        ensures
            ({
                let m = image_ref_model(s.spec_bytes());
                let restb = s.spec_bytes().subrange(rest as int, s.spec_bytes().len() as int);
                let reg = split_registry(s.spec_bytes()).0;
                restb == split_registry(s.spec_bytes()).1 ==> (utf8(r.0@), opt_bytes(r.1), opt_bytes(r.2)) == (m.1, m.2, m.3)
            }),
    {
        let b = s.as_bytes();
        let ghost sb = b@;
        let n = b.len();
        let ghost restb = sb.subrange(rest as int, sb.len() as int);
        let at = find_byte(b, rest, 64u8);
        proof {
            lemma_first_in_suffix(sb, rest as int, 64u8, at);
        }
        match at {
            Some(j) => {
                let image = ascii_substring(s, rest, j);
                let hash = ascii_substring(s, j + 1, n);
                proof {
                    assert(utf8(image@) =~= restb.subrange(0, j - rest));
                    assert(utf8(hash@) =~= restb.subrange(j - rest + 1, restb.len() as int));
                }
                (image, None, Some(hash))
            },
            None => {
                let colon = find_byte(b, rest, 58u8);
                proof {
                    lemma_first_in_suffix(sb, rest as int, 58u8, colon);
                }
                match colon {
                    Some(k) => {
                        let image = ascii_substring(s, rest, k);
                        let tag = ascii_substring(s, k + 1, n);
                        proof {
                            assert(utf8(image@) =~= restb.subrange(0, k - rest));
                            assert(utf8(tag@) =~= restb.subrange(k - rest + 1, restb.len() as int));
                        }
                        (image, Some(tag), None)
                    },
                    None => {
                        let image = ascii_substring(s, rest, n);
                        (image, None, None)
                    },
                }
            },
        }
    }

    /// The reference as text: `registry/`, the image, then `:tag` or, without
    /// a tag, `@hash`. A parsed reference prints as the text it was parsed
    /// from.
    pub fn to_string(&self) -> (r: String)
        ensures
            utf8(r@) == image_ref_text(self@),
    {
        let mut out = String::new();
        proof {
            reveal_strlit("/");
            reveal_strlit(":");
            reveal_strlit("@");
            lemma_utf8_ascii_char('/');
            lemma_utf8_ascii_char(':');
            lemma_utf8_ascii_char('@');
            assert("/"@ =~= seq!['/']);
            assert("/".spec_bytes() == seq![47u8]);
            assert(":"@ =~= seq![':']);
            assert(":".spec_bytes() == seq![58u8]);
            assert("@"@ =~= seq!['@']);
            assert("@".spec_bytes() == seq![64u8]);
            assert(utf8(out@) =~= Seq::<u8>::empty());
        }
        let ghost m = self@;
        let ghost reg = match m.0 {
            Some(r) => r.push(47u8),
            None => Seq::<u8>::empty(),
        };
        match &self.registry {
            Some(reg) => {
                push_text(&mut out, reg.as_str());
                push_text(&mut out, "/");
            },
            None => {},
        }
        proof {
            assert(utf8(out@) =~= reg);
        }
        push_text(&mut out, self.image.as_str());
        let ghost mid = utf8(out@);
        match &self.tag {
            Some(t) => {
                push_text(&mut out, ":");
                push_text(&mut out, t.as_str());
                assert(utf8(out@) =~= mid + (seq![58u8] + utf8(t@)));
            },
            None => match &self.hash {
                Some(h) => {
                    push_text(&mut out, "@");
                    push_text(&mut out, h.as_str());
                    assert(utf8(out@) =~= mid + (seq![64u8] + utf8(h@)));
                },
                None => {},
            },
        }
        proof {
            assert(utf8(out@) =~= image_ref_text(self@));
        }
        out
    }
}

} // verus!
