use vstd::prelude::*;

use crate::text::ascii_cut;

verus! {

/// Space, tab or carriage return: blanks within a line.
pub open spec fn is_blank(c: u8) -> bool {
    c == 32u8 || c == 9u8 || c == 13u8
}

/// A byte that opens a quoted literal: `"`, `'` or a backtick.
pub open spec fn is_quote(c: u8) -> bool {
    c == 34u8 || c == 39u8 || c == 96u8
}

/// A scan position within `lo..=hi` of `b`, where `hi` can be cut safely.
pub open spec fn scan_ok(b: Seq<u8>, lo: int, hi: int) -> bool {
    0 <= lo <= hi <= b.len() && ascii_cut(b, hi)
}

/// The end of the blanks that start at `i`.
pub open spec fn blanks_end(b: Seq<u8>, i: int, hi: int) -> int
    decreases hi - i,
{
    if 0 <= i < hi && is_blank(b[i]) {
        blanks_end(b, i + 1, hi)
    } else {
        i
    }
}

/// The end of the line that starts at `i`: its newline, or `hi`.
pub open spec fn line_end_of(b: Seq<u8>, i: int, hi: int) -> int
    decreases hi - i,
{
    if 0 <= i < hi && b[i] != 10u8 {
        line_end_of(b, i + 1, hi)
    } else {
        i
    }
}

/// A line continuation at `i`: a backslash, blanks and a newline; the
/// position after the newline.
pub open spec fn continuation_of(b: Seq<u8>, i: int, hi: int) -> Option<int> {
    if 0 <= i < hi && b[i] == 92u8 {
        let j = blanks_end(b, i + 1, hi);
        if j < hi && b[j] == 10u8 {
            Some(j + 1)
        } else {
            None
        }
    } else {
        None
    }
}

/// Past the blank lines and comment lines that start at `j`.
pub open spec fn after_comments(b: Seq<u8>, j: int, hi: int) -> int
    decreases hi - j,
    via after_comments_decreases
{
    if j < 0 || j >= hi {
        j
    } else {
        let t = blanks_end(b, j, hi);
        if t < hi && b[t] == 10u8 {
            after_comments(b, t + 1, hi)
        } else if t < hi && b[t] == 35u8 {
            let e = line_end_of(b, t, hi);
            if e < hi {
                after_comments(b, e + 1, hi)
            } else {
                hi
            }
        } else {
            j
        }
    }
}

/// The end of the gap that starts at `i`: blanks, and line continuations
/// with the blank and comment lines after them.
pub open spec fn gap_end(b: Seq<u8>, i: int, hi: int) -> int
    decreases hi - i,
    via gap_end_decreases
{
    if i < 0 || i >= hi {
        i
    } else if is_blank(b[i]) {
        gap_end(b, i + 1, hi)
    } else {
        match continuation_of(b, i, hi) {
            Some(k) => gap_end(b, after_comments(b, k, hi), hi),
            None => i,
        }
    }
}

/// Past the closing quote `q` of a literal, scanning from `j`.
pub open spec fn quote_close(b: Seq<u8>, q: u8, j: int, hi: int) -> int
    decreases hi - j,
{
    if j < 0 || j >= hi {
        hi
    } else if b[j] == 92u8 && j + 1 < hi {
        quote_close(b, q, j + 2, hi)
    } else if b[j] == q {
        j + 1
    } else {
        quote_close(b, q, j + 1, hi)
    }
}

/// The end of the quoted literal that opens at `i`.
pub open spec fn quote_end_of(b: Seq<u8>, i: int, hi: int) -> int {
    quote_close(b, b[i], i + 1, hi)
}

/// The end of the word that starts at `j`.
pub open spec fn word_end_of(b: Seq<u8>, j: int, hi: int) -> int
    decreases hi - j,
    via word_end_decreases
{
    if j < 0 || j >= hi || is_blank(b[j]) || b[j] == 10u8 || continuation_of(b, j, hi) is Some {
        j
    } else if is_quote(b[j]) {
        word_end_of(b, quote_end_of(b, j, hi), hi)
    } else {
        word_end_of(b, j + 1, hi)
    }
}

/// The end of the instruction that starts at `j`.
pub open spec fn instruction_end_of(b: Seq<u8>, j: int, quoted_lines: bool) -> int
    decreases b.len() - j,
    via instruction_end_decreases
{
    if j < 0 || j >= b.len() || b[j] == 10u8 {
        j
    } else if quoted_lines && is_quote(b[j]) {
        instruction_end_of(b, quote_end_of(b, j, b.len() as int), quoted_lines)
    } else {
        match continuation_of(b, j, b.len() as int) {
            Some(k) => instruction_end_of(b, after_comments(b, k, b.len() as int), quoted_lines),
            None => instruction_end_of(b, j + 1, quoted_lines),
        }
    }
}

/// The words of `b[j..hi]`, in order.
pub open spec fn words_of(b: Seq<u8>, j: int, hi: int) -> Seq<(int, int)>
    decreases hi - j,
    via words_decreases
{
    if j < 0 || j > hi {
        Seq::empty()
    } else {
        let s = gap_end(b, j, hi);
        if s >= hi {
            Seq::empty()
        } else {
            let e = word_end_of(b, s, hi);
            if e == s {
                Seq::empty()
            } else {
                seq![(s, e)] + words_of(b, e, hi)
            }
        }
    }
}

/// Word ranges as plain integers.
pub open spec fn int_pairs(v: Seq<(usize, usize)>) -> Seq<(int, int)> {
    v.map_values(|w: (usize, usize)| (w.0 as int, w.1 as int))
}

pub proof fn lemma_blanks_end(b: Seq<u8>, i: int, hi: int)
    requires
        0 <= i <= hi,
    ensures
        i <= blanks_end(b, i, hi) <= hi,
    decreases hi - i,
{
    if i < hi && is_blank(b[i]) {
        lemma_blanks_end(b, i + 1, hi);
    }
}

pub proof fn lemma_line_end(b: Seq<u8>, i: int, hi: int)
    requires
        0 <= i <= hi,
    ensures
        i <= line_end_of(b, i, hi) <= hi,
    decreases hi - i,
{
    if i < hi && b[i] != 10u8 {
        lemma_line_end(b, i + 1, hi);
    }
}

#[via_fn]
proof fn after_comments_decreases(b: Seq<u8>, j: int, hi: int) {
    if 0 <= j < hi {
        lemma_blanks_end(b, j, hi);
        let t = blanks_end(b, j, hi);
        if t < hi {
            lemma_line_end(b, t, hi);
        }
    }
}

pub proof fn lemma_after_comments(b: Seq<u8>, j: int, hi: int)
    requires
        0 <= j <= hi,
    ensures
        j <= after_comments(b, j, hi) <= hi,
    decreases hi - j,
{
    if j < hi {
        lemma_blanks_end(b, j, hi);
        let t = blanks_end(b, j, hi);
        if t < hi && b[t] == 10u8 {
            lemma_after_comments(b, t + 1, hi);
        } else if t < hi && b[t] == 35u8 {
            lemma_line_end(b, t, hi);
            let e = line_end_of(b, t, hi);
            if e < hi {
                lemma_after_comments(b, e + 1, hi);
            }
        }
    }
}

pub proof fn lemma_continuation(b: Seq<u8>, i: int, hi: int)
    requires
        0 <= i < hi,
    ensures
        continuation_of(b, i, hi) matches Some(k) ==> i + 2 <= k <= hi,
{
    if b[i] == 92u8 {
        lemma_blanks_end(b, i + 1, hi);
    }
}

#[via_fn]
proof fn gap_end_decreases(b: Seq<u8>, i: int, hi: int) {
    if 0 <= i < hi {
        lemma_continuation(b, i, hi);
        if let Some(k) = continuation_of(b, i, hi) {
            lemma_after_comments(b, k, hi);
        }
    }
}

pub proof fn lemma_gap_end(b: Seq<u8>, i: int, hi: int)
    requires
        0 <= i <= hi,
    ensures
        i <= gap_end(b, i, hi) <= hi,
    decreases hi - i,
{
    if i < hi {
        if is_blank(b[i]) {
            lemma_gap_end(b, i + 1, hi);
        } else {
            lemma_continuation(b, i, hi);
            if let Some(k) = continuation_of(b, i, hi) {
                lemma_after_comments(b, k, hi);
                lemma_gap_end(b, after_comments(b, k, hi), hi);
            }
        }
    }
}

pub proof fn lemma_quote_close(b: Seq<u8>, q: u8, j: int, hi: int)
    requires
        0 <= j <= hi,
    ensures
        j <= quote_close(b, q, j, hi) <= hi,
    decreases hi - j,
{
    if j < hi {
        if b[j] == 92u8 && j + 1 < hi {
            lemma_quote_close(b, q, j + 2, hi);
        } else if b[j] != q {
            lemma_quote_close(b, q, j + 1, hi);
        }
    }
}

#[via_fn]
proof fn word_end_decreases(b: Seq<u8>, j: int, hi: int) {
    if 0 <= j < hi {
        lemma_quote_close(b, b[j], j + 1, hi);
    }
}

pub proof fn lemma_word_end(b: Seq<u8>, j: int, hi: int)
    requires
        0 <= j <= hi,
    ensures
        j <= word_end_of(b, j, hi) <= hi,
    decreases hi - j,
{
    if j < hi && !is_blank(b[j]) && b[j] != 10u8 && continuation_of(b, j, hi) is None {
        if is_quote(b[j]) {
            lemma_quote_close(b, b[j], j + 1, hi);
            lemma_word_end(b, quote_end_of(b, j, hi), hi);
        } else {
            lemma_word_end(b, j + 1, hi);
        }
    }
}

#[via_fn]
proof fn instruction_end_decreases(b: Seq<u8>, j: int, quoted_lines: bool) {
    if 0 <= j < b.len() {
        lemma_quote_close(b, b[j], j + 1, b.len() as int);
        lemma_continuation(b, j, b.len() as int);
        if let Some(k) = continuation_of(b, j, b.len() as int) {
            lemma_after_comments(b, k, b.len() as int);
        }
    }
}

pub proof fn lemma_instruction_end(b: Seq<u8>, j: int, quoted_lines: bool)
    requires
        0 <= j <= b.len(),
    ensures
        j <= instruction_end_of(b, j, quoted_lines) <= b.len(),
        j < b.len() && b[j] != 10u8 ==> j < instruction_end_of(b, j, quoted_lines),
    decreases b.len() - j,
{
    if j < b.len() && b[j] != 10u8 {
        lemma_quote_close(b, b[j], j + 1, b.len() as int);
        lemma_continuation(b, j, b.len() as int);
        if let Some(k) = continuation_of(b, j, b.len() as int) {
            lemma_after_comments(b, k, b.len() as int);
        }
        if quoted_lines && is_quote(b[j]) {
            lemma_instruction_end(b, quote_end_of(b, j, b.len() as int), quoted_lines);
        } else {
            match continuation_of(b, j, b.len() as int) {
                Some(k) => lemma_instruction_end(b, after_comments(b, k, b.len() as int), quoted_lines),
                None => lemma_instruction_end(b, j + 1, quoted_lines),
            }
        }
    }
}

#[via_fn]
proof fn words_decreases(b: Seq<u8>, j: int, hi: int) {
    if 0 <= j <= hi {
        lemma_gap_end(b, j, hi);
        lemma_word_end(b, gap_end(b, j, hi), hi);
    }
}

pub fn blank(c: u8) -> (r: bool)
    ensures
        r == is_blank(c),
{
    c == 32u8 || c == 9u8 || c == 13u8
}

pub fn quote(c: u8) -> (r: bool)
    ensures
        r == is_quote(c),
{
    c == 34u8 || c == 39u8 || c == 96u8
}

/// A line continuation at `i`: a backslash, blanks, then a newline before
/// `hi`. Gives the position after the newline.
pub fn continuation_at(b: &[u8], i: usize, hi: usize) -> (r: Option<usize>)
    requires
        i < hi <= b@.len(),
    ensures
        match r {
            Some(k) => i + 2 <= k <= hi && b@[k - 1] == 10u8 && b@[i as int] == 92u8,
            None => true,
        },
        r matches Some(k) ==> continuation_of(b@, i as int, hi as int) == Some(k as int),
        r is None ==> continuation_of(b@, i as int, hi as int) is None,
{
    if b[i] != 92u8 {
        return None;
    }
    let mut j = i + 1;
    while j < hi && blank(b[j])
        invariant
            i < j <= hi <= b@.len(),
            blanks_end(b@, j as int, hi as int) == blanks_end(b@, i + 1, hi as int),
        decreases hi - j,
    {
        j = j + 1;
    }
    if j < hi && b[j] == 10u8 {
        Some(j + 1)
    } else {
        None
    }
}

/// The end of the line that starts at `i`: its newline, or `hi`.
pub fn line_end(b: &[u8], i: usize, hi: usize) -> (r: usize)
    requires
        scan_ok(b@, i as int, hi as int),
    ensures
        i <= r <= hi,
        r == hi || b@[r as int] == 10u8,
        forall|k: int| i <= k < r ==> b@[k] != 10u8,
        ascii_cut(b@, r as int),
        r == line_end_of(b@, i as int, hi as int),
{
    let mut j = i;
    while j < hi && b[j] != 10u8
        invariant
            i <= j <= hi <= b@.len(),
            line_end_of(b@, j as int, hi as int) == line_end_of(b@, i as int, hi as int),
            forall|k: int| i <= k < j ==> b@[k] != 10u8,
        decreases hi - j,
    {
        j = j + 1;
    }
    j
}

/// Skips the blanks that start at `i`.
pub fn skip_blanks(b: &[u8], i: usize, hi: usize) -> (r: usize)
    requires
        scan_ok(b@, i as int, hi as int),
        ascii_cut(b@, i as int),
    ensures
        i <= r <= hi,
        r == hi || !is_blank(b@[r as int]),
        ascii_cut(b@, r as int),
        r == blanks_end(b@, i as int, hi as int),
{
    let mut j = i;
    while j < hi && blank(b[j])
        invariant
            i <= j <= hi <= b@.len(),
            ascii_cut(b@, j as int),
            blanks_end(b@, j as int, hi as int) == blanks_end(b@, i as int, hi as int),
        decreases hi - j,
    {
        j = j + 1;
    }
    j
}

/// Skips the blank lines and whole comment lines (blanks, then `#`) that
/// follow a line continuation at `i`.
pub fn skip_comment_lines(b: &[u8], i: usize, hi: usize) -> (r: usize)
    requires
        scan_ok(b@, i as int, hi as int),
        ascii_cut(b@, i as int),
    ensures
        i <= r <= hi,
        ascii_cut(b@, r as int),
        r == after_comments(b@, i as int, hi as int),
{
    let mut j = i;
    loop
        invariant
            scan_ok(b@, j as int, hi as int),
            ascii_cut(b@, j as int),
            i <= j,
            after_comments(b@, j as int, hi as int) == after_comments(b@, i as int, hi as int),
        decreases hi - j,
    {
        if j >= hi {
            return j;
        }
        let t = skip_blanks(b, j, hi);
        if t < hi && b[t] == 10u8 {
            j = t + 1;
        } else if t < hi && b[t] == 35u8 {
            let e = line_end(b, t, hi);
            if e < hi {
                j = e + 1;
            } else {
                return hi;
            }
        } else {
            return j;
        }
    }
}

/// Skips the gap that starts at `i`: blanks, and line continuations with
/// the comment lines after them.
pub fn skip_gap(b: &[u8], i: usize, hi: usize) -> (r: usize)
    requires
        scan_ok(b@, i as int, hi as int),
        ascii_cut(b@, i as int),
    ensures
        i <= r <= hi,
        ascii_cut(b@, r as int),
        r == gap_end(b@, i as int, hi as int),
{
    let mut j = i;
    loop
        invariant
            scan_ok(b@, j as int, hi as int),
            ascii_cut(b@, j as int),
            i <= j,
            gap_end(b@, j as int, hi as int) == gap_end(b@, i as int, hi as int),
        decreases hi - j,
    {
        if j >= hi {
            return j;
        }
        if blank(b[j]) {
            j = j + 1;
        } else {
            match continuation_at(b, j, hi) {
                Some(k) => {
                    j = skip_comment_lines(b, k, hi);
                },
                None => {
                    return j;
                },
            }
        }
    }
}

/// The end of the quoted literal that opens at `i`: just past its closing
/// quote, a backslash escaping the byte after it; `hi` where it never
/// closes.
pub fn quote_end(b: &[u8], i: usize, hi: usize) -> (r: usize)
    requires
        scan_ok(b@, i as int, hi as int),
        i < hi,
        is_quote(b@[i as int]),
    ensures
        i < r <= hi,
        ascii_cut(b@, r as int),
        r < hi ==> b@[r - 1] == b@[i as int],
        r == quote_end_of(b@, i as int, hi as int),
{
    let q = b[i];
    let mut j = i + 1;
    while j < hi
        invariant
            i < j <= hi <= b@.len(),
            q == b@[i as int],
            is_quote(q),
            quote_close(b@, q, j as int, hi as int) == quote_end_of(b@, i as int, hi as int),
        decreases hi - j,
    {
        if b[j] == 92u8 && j + 1 < hi {
            j = j + 2;
        } else if b[j] == q {
            return j + 1;
        } else {
            j = j + 1;
        }
    }
    hi
}

/// The end of the word that starts at `i`: it runs to the next blank,
/// newline or line continuation outside quotes, or to `hi`.
pub fn word_end(b: &[u8], i: usize, hi: usize) -> (r: usize)
    requires
        scan_ok(b@, i as int, hi as int),
    ensures
        i <= r <= hi,
        ascii_cut(b@, r as int),
        r == word_end_of(b@, i as int, hi as int),
{
    let mut j = i;
    loop
        invariant
            scan_ok(b@, j as int, hi as int),
            i <= j,
            word_end_of(b@, j as int, hi as int) == word_end_of(b@, i as int, hi as int),
        decreases hi - j,
    {
        if j >= hi || blank(b[j]) || b[j] == 10u8 {
            return j;
        }
        if continuation_at(b, j, hi).is_some() {
            return j;
        }
        if quote(b[j]) {
            j = quote_end(b, j, hi);
        } else {
            j = j + 1;
        }
    }
}

/// The end of the instruction that starts at `i`: the first newline that
/// does not end a line continuation, or the end of the text. Where
/// `quoted_lines` holds, a quoted literal may also run across newlines.
pub fn instruction_end(b: &[u8], i: usize, quoted_lines: bool) -> (r: usize)
    requires
        i <= b@.len(),
    ensures
        i <= r <= b@.len(),
        r == b@.len() || b@[r as int] == 10u8,
        ascii_cut(b@, r as int),
        r == instruction_end_of(b@, i as int, quoted_lines),
{
    let n = b.len();
    let mut j = i;
    loop
        invariant
            i <= j <= n,
            n == b@.len(),
            instruction_end_of(b@, j as int, quoted_lines) == instruction_end_of(b@, i as int, quoted_lines),
        decreases n - j,
    {
        if j >= n || b[j] == 10u8 {
            return j;
        }
        if quoted_lines && quote(b[j]) {
            proof {
                assert(ascii_cut(b@, n as int));
            }
            j = quote_end(b, j, n);
            continue;
        }
        match continuation_at(b, j, n) {
            Some(k) => {
                proof {
                    assert(ascii_cut(b@, k as int));
                }
                j = skip_comment_lines(b, k, n);
            },
            None => {
                j = j + 1;
            },
        }
    }
}

/// Word ranges as `words` gives them: ordered, within `k..q`, each cut
/// safely.
pub open spec fn words_ok(ws: Seq<(usize, usize)>, b: Seq<u8>, k: int, q: int) -> bool {
    &&& forall|j: int|
        0 <= j < ws.len() ==> {
            let w = #[trigger] ws[j];
            &&& k <= w.0 < w.1 <= q
            &&& ascii_cut(b, w.0 as int)
            &&& ascii_cut(b, w.1 as int)
        }
    &&& forall|j: int| #![trigger ws[j - 1], ws[j]] 0 < j < ws.len() ==> ws[j - 1].1 <= ws[j].0
}

/// The words of `b[i..hi]`, each as its byte range, in order.
pub fn words(b: &[u8], i: usize, hi: usize) -> (r: Vec<(usize, usize)>)
    requires
        scan_ok(b@, i as int, hi as int),
        ascii_cut(b@, i as int),
    ensures
        words_ok(r@, b@, i as int, hi as int),
        int_pairs(r@) == words_of(b@, i as int, hi as int),
{
    let mut out: Vec<(usize, usize)> = Vec::new();
    let mut j = i;
    proof {
        assert(int_pairs(out@) + words_of(b@, j as int, hi as int) =~= words_of(b@, i as int, hi as int));
    }
    loop
        invariant
            scan_ok(b@, j as int, hi as int),
            ascii_cut(b@, j as int),
            i <= j,
            forall|k: int|
                0 <= k < out@.len() ==> {
                    let w = #[trigger] out@[k];
                    &&& i <= w.0 < w.1 <= j
                    &&& ascii_cut(b@, w.0 as int)
                    &&& ascii_cut(b@, w.1 as int)
                },
            forall|k: int| #![trigger out@[k - 1], out@[k]] 0 < k < out@.len() ==> out@[k - 1].1 <= out@[k].0,
            int_pairs(out@) + words_of(b@, j as int, hi as int) == words_of(b@, i as int, hi as int),
        decreases hi - j,
    {
        let s = skip_gap(b, j, hi);
        if s >= hi {
            proof {
                assert(int_pairs(out@) + words_of(b@, j as int, hi as int) =~= int_pairs(out@));
            }
            return out;
        }
        let e = word_end(b, s, hi);
        if e == s {
            proof {
                assert(int_pairs(out@) + words_of(b@, j as int, hi as int) =~= int_pairs(out@));
            }
            return out;
        }
        let ghost before = out@;
        out.push((s, e));
        proof {
            assert(int_pairs(out@) =~= int_pairs(before).push((s as int, e as int)));
            assert(words_of(b@, j as int, hi as int) == seq![(s as int, e as int)] + words_of(b@, e as int, hi as int));
            assert(int_pairs(out@) + words_of(b@, e as int, hi as int) =~= int_pairs(before) + words_of(b@, j as int, hi as int));
        }
        j = e;
    }
}

} // verus!
