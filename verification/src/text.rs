//! Character-level text helpers shared by the line scanners: trimming,
//! prefix/suffix stripping, `split_inclusive('\n')`/`lines()` segmentation,
//! ASCII case folding and UTF-8 byte widths, all over `Seq<char>` models.

use vstd::prelude::*;
use vstd::utf8::*;

verus! {

/// Unicode `White_Space`, the property `char::is_whitespace` and `str::trim`
/// are defined by.
pub open spec fn is_ws(c: char) -> bool {
    ||| ('\u{9}' <= c && c <= '\u{d}')
    ||| c == ' '
    ||| c == '\u{85}'
    ||| c == '\u{a0}'
    ||| c == '\u{1680}'
    ||| ('\u{2000}' <= c && c <= '\u{200a}')
    ||| c == '\u{2028}'
    ||| c == '\u{2029}'
    ||| c == '\u{202f}'
    ||| c == '\u{205f}'
    ||| c == '\u{3000}'
}

/// `char::is_whitespace`.
pub fn is_whitespace(c: char) -> (r: bool)
    ensures
        r == is_ws(c),
{
    ('\u{9}' <= c && c <= '\u{d}') || c == ' ' || c == '\u{85}' || c == '\u{a0}' || c
        == '\u{1680}' || ('\u{2000}' <= c && c <= '\u{200a}') || c == '\u{2028}' || c
        == '\u{2029}' || c == '\u{202f}' || c == '\u{205f}' || c == '\u{3000}'
}

/// Index of the first non-whitespace character at or after `i`
/// (`s.len()` if there is none).
pub open spec fn first_non_ws(s: Seq<char>, i: int) -> int
    decreases s.len() - i,
{
    if i < 0 || i >= s.len() {
        s.len() as int
    } else if is_ws(s[i]) {
        first_non_ws(s, i + 1)
    } else {
        i
    }
}

/// One past the last non-whitespace character before `j` (`0` if there is
/// none).
pub open spec fn last_non_ws(s: Seq<char>, j: int) -> int
    decreases j,
{
    if j <= 0 || j > s.len() {
        0
    } else if is_ws(s[j - 1]) {
        last_non_ws(s, j - 1)
    } else {
        j
    }
}

/// `str::trim_start`.
pub open spec fn trim_start(s: Seq<char>) -> Seq<char> {
    s.subrange(first_non_ws(s, 0), s.len() as int)
}

/// `str::trim_end`.
pub open spec fn trim_end(s: Seq<char>) -> Seq<char> {
    s.subrange(0, last_non_ws(s, s.len() as int))
}

/// `str::trim`.
pub open spec fn trim(s: Seq<char>) -> Seq<char> {
    trim_start(trim_end(s))
}

pub proof fn lemma_first_non_ws_bounds(s: Seq<char>, i: int)
    requires
        0 <= i <= s.len(),
    ensures
        i <= first_non_ws(s, i) <= s.len(),
        forall|k: int| i <= k < first_non_ws(s, i) ==> is_ws(#[trigger] s[k]),
        first_non_ws(s, i) < s.len() ==> !is_ws(s[first_non_ws(s, i)]),
    decreases s.len() - i,
{
    if i < s.len() && is_ws(s[i]) {
        lemma_first_non_ws_bounds(s, i + 1);
    }
}

pub proof fn lemma_last_non_ws_bounds(s: Seq<char>, j: int)
    requires
        0 <= j <= s.len(),
    ensures
        0 <= last_non_ws(s, j) <= j,
        forall|k: int| last_non_ws(s, j) <= k < j ==> is_ws(#[trigger] s[k]),
        last_non_ws(s, j) > 0 ==> !is_ws(s[last_non_ws(s, j) - 1]),
    decreases j,
{
    if j > 0 && is_ws(s[j - 1]) {
        lemma_last_non_ws_bounds(s, j - 1);
    }
}

/// `str::trim_start`, as a sub-slice.
pub fn trim_start_slice(s: &[char]) -> (r: &[char])
    ensures
        r@ == trim_start(s@),
{
    let mut i: usize = 0;
    while i < s.len() && is_whitespace(s[i])
        invariant
            0 <= i <= s@.len(),
            first_non_ws(s@, 0) == first_non_ws(s@, i as int),
        decreases s.len() - i,
    {
        i = i + 1;
    }
    proof {
        lemma_first_non_ws_bounds(s@, i as int);
    }
    &s[i..s.len()]
}

/// `str::trim_end`, as a sub-slice.
pub fn trim_end_slice(s: &[char]) -> (r: &[char])
    ensures
        r@ == trim_end(s@),
{
    let mut j: usize = s.len();
    while j > 0 && is_whitespace(s[j - 1])
        invariant
            0 <= j <= s@.len(),
            last_non_ws(s@, s@.len() as int) == last_non_ws(s@, j as int),
        decreases j,
    {
        j = j - 1;
    }
    proof {
        lemma_last_non_ws_bounds(s@, j as int);
    }
    &s[0..j]
}

/// `str::trim`, as a sub-slice.
pub fn trim_slice(s: &[char]) -> (r: &[char])
    ensures
        r@ == trim(s@),
{
    let e = trim_end_slice(s);
    trim_start_slice(e)
}

/// `p` is a prefix of `s`.
pub open spec fn has_prefix(s: Seq<char>, p: Seq<char>) -> bool {
    p.len() <= s.len() && s.subrange(0, p.len() as int) == p
}

/// `p` is a suffix of `s`.
pub open spec fn has_suffix(s: Seq<char>, p: Seq<char>) -> bool {
    p.len() <= s.len() && s.subrange(s.len() - p.len(), s.len() as int) == p
}

/// `str::strip_prefix`.
pub open spec fn strip_prefix(s: Seq<char>, p: Seq<char>) -> Option<Seq<char>> {
    if has_prefix(s, p) {
        Some(s.subrange(p.len() as int, s.len() as int))
    } else {
        None
    }
}

/// `str::strip_suffix`.
pub open spec fn strip_suffix(s: Seq<char>, p: Seq<char>) -> Option<Seq<char>> {
    if has_suffix(s, p) {
        Some(s.subrange(0, s.len() - p.len()))
    } else {
        None
    }
}

/// Whether `a[a_lo..a_lo + n] == b[b_lo..b_lo + n]`.
pub fn slices_match(a: &[char], a_lo: usize, b: &[char], b_lo: usize, n: usize) -> (r: bool)
    requires
        a_lo + n <= a@.len(),
        b_lo + n <= b@.len(),
    ensures
        r == (a@.subrange(a_lo as int, a_lo + n) == b@.subrange(b_lo as int, b_lo + n)),
{
    let ghost sa = a@.subrange(a_lo as int, a_lo + n);
    let ghost sb = b@.subrange(b_lo as int, b_lo + n);
    let alen = a.len();
    let blen = b.len();
    let mut k: usize = 0;
    while k < n
        invariant
            k <= n,
            alen == a@.len(),
            blen == b@.len(),
            a_lo + n <= a@.len(),
            b_lo + n <= b@.len(),
            sa == a@.subrange(a_lo as int, a_lo + n),
            sb == b@.subrange(b_lo as int, b_lo + n),
            forall|t: int| 0 <= t < k ==> #[trigger] sa[t] == sb[t],
        decreases n - k,
    {
        if a[a_lo + k] != b[b_lo + k] {
            proof {
                assert(sa[k as int] != sb[k as int]);
            }
            return false;
        }
        k = k + 1;
    }
    assert(sa =~= sb);
    true
}

/// Whether two character slices are equal.
pub fn chars_eq(a: &[char], b: &[char]) -> (r: bool)
    ensures
        r == (a@ == b@),
{
    if a.len() != b.len() {
        return false;
    }
    let r = slices_match(a, 0, b, 0, a.len());
    assert(a@.subrange(0, a@.len() as int) =~= a@);
    assert(b@.subrange(0, b@.len() as int) =~= b@);
    r
}

/// `str::starts_with`.
pub fn starts_with(s: &[char], p: &[char]) -> (r: bool)
    ensures
        r == has_prefix(s@, p@),
{
    if p.len() > s.len() {
        return false;
    }
    let r = slices_match(s, 0, p, 0, p.len());
    assert(p@.subrange(0, p@.len() as int) =~= p@);
    r
}

/// `str::ends_with`.
pub fn ends_with(s: &[char], p: &[char]) -> (r: bool)
    ensures
        r == has_suffix(s@, p@),
{
    if p.len() > s.len() {
        return false;
    }
    let r = slices_match(s, s.len() - p.len(), p, 0, p.len());
    assert(p@.subrange(0, p@.len() as int) =~= p@);
    r
}

/// `str::strip_prefix`, as a sub-slice.
pub fn strip_prefix_slice<'a>(s: &'a [char], p: &[char]) -> (r: Option<&'a [char]>)
    ensures
        r matches Some(rest) ==> strip_prefix(s@, p@) == Some(rest@),
        r is None ==> strip_prefix(s@, p@) is None,
{
    if starts_with(s, p) {
        Some(&s[p.len()..s.len()])
    } else {
        None
    }
}

/// `str::strip_suffix`, as a sub-slice.
pub fn strip_suffix_slice<'a>(s: &'a [char], p: &[char]) -> (r: Option<&'a [char]>)
    ensures
        r matches Some(rest) ==> strip_suffix(s@, p@) == Some(rest@),
        r is None ==> strip_suffix(s@, p@) is None,
{
    if ends_with(s, p) {
        Some(&s[0..s.len() - p.len()])
    } else {
        None
    }
}

/// The characters of `s`, in order.
pub fn chars_of(s: &str) -> (r: Vec<char>)
    ensures
        r@ == s@,
{
    let mut out: Vec<char> = Vec::new();
    let mut it = s.chars();
    for c in iter: it
        invariant
            out@ == iter.seq().take(iter.index() as int),
    {
        out.push(c);
    }
    out
}

/// `String::push`: appends `c`.
#[verifier::external_body]
fn string_push(s: &mut String, c: char)
    ensures
        final(s)@ == old(s)@.push(c),
{
    s.push(c);
}

/// A `String` holding exactly the characters `cs`.
pub fn string_from_chars(cs: &[char]) -> (r: String)
    ensures
        r@ == cs@,
{
    let mut s = String::new();
    let mut i: usize = 0;
    while i < cs.len()
        invariant
            i <= cs@.len(),
            s@ == cs@.take(i as int),
        decreases cs.len() - i,
    {
        string_push(&mut s, cs[i]);
        assert(cs@.take(i as int).push(cs@[i as int]) =~= cs@.take(i + 1));
        i = i + 1;
    }
    assert(cs@.take(i as int) =~= cs@);
    s
}

/// Whether two strings are equal: their UTF-8 bytes agree, and UTF-8
/// encodes each text by exactly one byte sequence.
pub(crate) fn str_eq(a: &str, b: &str) -> (r: bool)
    ensures
        r == (a@ == b@),
{
    let x = a.as_bytes();
    let y = b.as_bytes();
    proof {
        encode_utf8_decode_utf8(a@);
        encode_utf8_decode_utf8(b@);
    }
    if x.len() != y.len() {
        return false;
    }
    let mut i: usize = 0;
    while i < x.len()
        invariant
            i <= x@.len(),
            x@.len() == y@.len(),
            x@ == encode_utf8(a@),
            y@ == encode_utf8(b@),
            forall|j: int| 0 <= j < i ==> x@[j] == y@[j],
        decreases x.len() - i,
    {
        if x[i] != y[i] {
            assert(x@ != y@) by {
                assert(x@[i as int] != y@[i as int]);
            }
            return false;
        }
        i = i + 1;
    }
    assert(x@ =~= y@);
    true
}

/// ASCII lower-casing of one character (`char::to_ascii_lowercase`).
pub open spec fn ascii_lower(c: char) -> char {
    if 'A' <= c && c <= 'Z' {
        ((c as u32) + 32) as char
    } else {
        c
    }
}

/// `str::eq_ignore_ascii_case`.
pub open spec fn eq_ignore_ascii_case(a: Seq<char>, b: Seq<char>) -> bool {
    a.len() == b.len() && forall|i: int| 0 <= i < a.len() ==> ascii_lower(a[i]) == ascii_lower(
        b[i],
    )
}

/// `char::to_ascii_lowercase`.
pub fn to_ascii_lower(c: char) -> (r: char)
    ensures
        r == ascii_lower(c),
{
    if 'A' <= c && c <= 'Z' {
        let u: u32 = (c as u32) + 32;
        proof {
            assert(0x61 <= u <= 0x7a);
        }
        char_from_ascii(u)
    } else {
        c
    }
}

/// The character with the given ASCII code.
fn char_from_ascii(u: u32) -> (r: char)
    requires
        u < 0x80,
    ensures
        r == u as char,
        r as u32 == u,
{
    let b: u8 = u as u8;
    b as char
}

/// `str::eq_ignore_ascii_case`.
pub fn chars_eq_ignore_ascii_case(a: &[char], b: &[char]) -> (r: bool)
    ensures
        r == eq_ignore_ascii_case(a@, b@),
{
    if a.len() != b.len() {
        return false;
    }
    let mut i: usize = 0;
    while i < a.len()
        invariant
            a@.len() == b@.len(),
            i <= a@.len(),
            forall|k: int| 0 <= k < i ==> ascii_lower(a@[k]) == ascii_lower(b@[k]),
        decreases a.len() - i,
    {
        if to_ascii_lower(a[i]) != to_ascii_lower(b[i]) {
            return false;
        }
        i = i + 1;
    }
    true
}

/// Index just past the first `'\n'` at or after `i`, or `s.len()` when
/// there is none: the end of one `split_inclusive('\n')` segment.
pub open spec fn seg_end(s: Seq<char>, i: int) -> int
    decreases s.len() - i,
{
    if i < 0 || i >= s.len() {
        s.len() as int
    } else if s[i] == '\n' {
        i + 1
    } else {
        seg_end(s, i + 1)
    }
}

pub proof fn lemma_seg_end(s: Seq<char>, i: int)
    requires
        0 <= i < s.len(),
    ensures
        i < seg_end(s, i) <= s.len(),
        forall|k: int| i <= k < seg_end(s, i) - 1 ==> #[trigger] s[k] != '\n',
        seg_end(s, i) < s.len() ==> s[seg_end(s, i) - 1] == '\n',
    decreases s.len() - i,
{
    if s[i] != '\n' {
        if i + 1 < s.len() {
            lemma_seg_end(s, i + 1);
        } else {
            assert(seg_end(s, i + 1) == s.len());
        }
    }
}

/// Start positions of the `split_inclusive('\n')` segments of `s` that
/// begin at or after `i` (with `i` itself the start of a segment).
pub open spec fn seg_starts(s: Seq<char>, i: int) -> Seq<int>
    decreases s.len() - i,
{
    if i < 0 || i >= s.len() {
        Seq::empty()
    } else {
        proof {
            lemma_seg_end(s, i);
        }
        seq![i] + seg_starts(s, seg_end(s, i))
    }
}

/// `seg_end`, computed.
pub fn segment_end(s: &[char], i: usize) -> (r: usize)
    requires
        i < s@.len(),
    ensures
        r == seg_end(s@, i as int),
        i < r <= s@.len(),
{
    proof {
        lemma_seg_end(s@, i as int);
    }
    let mut k = i;
    while k < s.len() && s[k] != '\n'
        invariant
            i <= k <= s@.len(),
            seg_end(s@, i as int) == seg_end(s@, k as int),
        decreases s.len() - k,
    {
        k = k + 1;
    }
    if k < s.len() {
        k + 1
    } else {
        k
    }
}

/// The content of the segment `s[a..e]` with its `'\n'` (if any) removed —
/// `line.strip_suffix('\n').unwrap_or(line)`.
pub open spec fn no_newline_end(s: Seq<char>, a: int, e: int) -> int {
    if e > a && s[e - 1] == '\n' {
        e - 1
    } else {
        e
    }
}

/// The end of the `lines()` item for the segment `s[a..e]`: a trailing
/// `"\n"` or `"\r\n"` is dropped.
pub open spec fn line_end(s: Seq<char>, a: int, e: int) -> int {
    if e > a && s[e - 1] == '\n' {
        if e - 1 > a && s[e - 2] == '\r' {
            e - 2
        } else {
            e - 1
        }
    } else {
        e
    }
}

/// The `lines()` items of `s` from segment start `i` on.
pub open spec fn lines_from(s: Seq<char>, i: int) -> Seq<Seq<char>>
    decreases s.len() - i,
{
    if i < 0 || i >= s.len() {
        Seq::empty()
    } else {
        proof {
            lemma_seg_end(s, i);
        }
        let e = seg_end(s, i);
        seq![s.subrange(i, line_end(s, i, e))] + lines_from(s, e)
    }
}

/// `str::lines`.
pub open spec fn lines(s: Seq<char>) -> Seq<Seq<char>> {
    lines_from(s, 0)
}

pub proof fn lemma_lines_from_len(s: Seq<char>, i: int)
    requires
        0 <= i <= s.len(),
    ensures
        lines_from(s, i).len() == seg_starts(s, i).len(),
    decreases s.len() - i,
{
    if i < s.len() {
        lemma_seg_end(s, i);
        lemma_lines_from_len(s, seg_end(s, i));
    }
}

/// The lines of `s` (`str::lines`), as character vectors.
pub fn split_lines(s: &[char]) -> (r: Vec<Vec<char>>)
    ensures
        r@.len() == lines(s@).len(),
        forall|k: int| 0 <= k < r@.len() ==> #[trigger] r@[k]@ == lines(s@)[k],
{
    let mut out: Vec<Vec<char>> = Vec::new();
    let mut pos: usize = 0;
    while pos < s.len()
        invariant
            pos <= s@.len(),
            out@.len() + lines_from(s@, pos as int).len() == lines(s@).len(),
            forall|k: int| 0 <= k < out@.len() ==> #[trigger] out@[k]@ == lines(s@)[k],
            forall|k: int|
                0 <= k < lines_from(s@, pos as int).len() ==> #[trigger] lines_from(
                    s@,
                    pos as int,
                )[k] == lines(s@)[out@.len() + k],
        decreases s.len() - pos,
    {
        let e = segment_end(s, pos);
        let mut le = e;
        if le > pos && s[le - 1] == '\n' {
            le = le - 1;
            if le > pos && s[le - 1] == '\r' {
                le = le - 1;
            }
        }
        let line = vstd::slice::slice_to_vec(&s[pos..le]);
        proof {
            let rest = lines_from(s@, pos as int);
            assert(rest == seq![s@.subrange(pos as int, le as int)] + lines_from(s@, e as int));
            assert(rest[0] == lines(s@)[out@.len() as int]);
            assert forall|k: int| 0 <= k < lines_from(s@, e as int).len() implies #[trigger] lines_from(
                s@,
                e as int,
            )[k] == lines(s@)[out@.len() + 1 + k] by {
                assert(rest[k + 1] == lines_from(s@, e as int)[k]);
            }
        }
        out.push(line);
        pos = e;
    }
    out
}

/// Number of UTF-8 bytes in the encoding of `c`.
pub open spec fn utf8_width(c: char) -> nat {
    encode_scalar(c as u32).len()
}

/// Number of UTF-8 bytes in the encoding of `s`.
pub open spec fn byte_len(s: Seq<char>) -> nat {
    encode_utf8(s).len()
}

pub proof fn lemma_byte_len_empty()
    ensures
        byte_len(Seq::<char>::empty()) == 0,
{
    assert(encode_utf8(Seq::<char>::empty()) =~= Seq::<u8>::empty());
}

pub proof fn lemma_byte_len_push(s: Seq<char>, c: char)
    ensures
        byte_len(s.push(c)) == byte_len(s) + utf8_width(c),
    decreases s.len(),
{
    if s.len() == 0 {
        assert(s.push(c).drop_first() =~= Seq::<char>::empty());
        assert(encode_utf8(Seq::<char>::empty()) =~= Seq::<u8>::empty());
    } else {
        lemma_byte_len_push(s.drop_first(), c);
        assert(s.push(c).drop_first() =~= s.drop_first().push(c));
    }
}

pub proof fn lemma_byte_len_take(s: Seq<char>, k: int)
    requires
        0 <= k < s.len(),
    ensures
        byte_len(s.take(k + 1)) == byte_len(s.take(k)) + utf8_width(s[k]),
{
    assert(s.take(k + 1) =~= s.take(k).push(s[k]));
    lemma_byte_len_push(s.take(k), s[k]);
}

pub proof fn lemma_byte_len_subrange(s: Seq<char>, a: int, b: int)
    requires
        0 <= a <= b <= s.len(),
    ensures
        byte_len(s.take(b)) == byte_len(s.take(a)) + byte_len(s.subrange(a, b)),
    decreases b - a,
{
    if a == b {
        assert(s.subrange(a, b) =~= Seq::<char>::empty());
        assert(encode_utf8(Seq::<char>::empty()) =~= Seq::<u8>::empty());
    } else {
        lemma_byte_len_subrange(s, a, b - 1);
        lemma_byte_len_take(s, b - 1);
        assert(s.subrange(a, b) =~= s.subrange(a, b - 1).push(s[b - 1]));
        lemma_byte_len_push(s.subrange(a, b - 1), s[b - 1]);
    }
}

pub proof fn lemma_byte_len_take_mono(s: Seq<char>, a: int, b: int)
    requires
        0 <= a <= b <= s.len(),
    ensures
        byte_len(s.take(a)) <= byte_len(s.take(b)),
{
    lemma_byte_len_subrange(s, a, b);
}

/// `char::len_utf8`.
pub fn char_width(c: char) -> (r: usize)
    ensures
        r == utf8_width(c),
        1 <= r <= 4,
{
    let u = c as u32;
    proof {
        char_is_scalar(c);
    }
    if u < 0x80 {
        1
    } else if u < 0x800 {
        2
    } else if u < 0x10000 {
        3
    } else {
        4
    }
}

/// `str::len`: the number of UTF-8 bytes of `s` (which always fits in a
/// `usize`, since the bytes are in memory).
pub fn utf8_len(s: &str) -> (r: usize)
    ensures
        r == byte_len(s@),
{
    s.as_bytes().len()
}

/// The UTF-8 byte length of `s[a..b]`.
pub fn bytes_between(s: &[char], a: usize, b: usize) -> (r: usize)
    requires
        a <= b <= s@.len(),
        byte_len(s@) <= usize::MAX,
    ensures
        r == byte_len(s@.subrange(a as int, b as int)),
        byte_len(s@.take(b as int)) == byte_len(s@.take(a as int)) + r,
{
    proof {
        lemma_byte_len_subrange(s@, a as int, b as int);
        lemma_byte_len_take_mono(s@, b as int, s@.len() as int);
        assert(s@.take(s@.len() as int) =~= s@);
    }
    let mut total: usize = 0;
    let mut k: usize = a;
    while k < b
        invariant
            a <= k <= b <= s@.len(),
            byte_len(s@.take(b as int)) <= usize::MAX,
            total == byte_len(s@.subrange(a as int, k as int)),
            byte_len(s@.take(k as int)) == byte_len(s@.take(a as int)) + total,
        decreases b - k,
    {
        proof {
            lemma_byte_len_subrange(s@, a as int, k + 1);
            lemma_byte_len_subrange(s@, a as int, k as int);
            lemma_byte_len_take(s@, k as int);
            lemma_byte_len_take_mono(s@, k + 1, b as int);
        }
        total = total + char_width(s[k]);
        k = k + 1;
    }
    total
}

/// Index of the first `c` in `s` at or after `i` (`s.len()` if none).
pub open spec fn first_index(s: Seq<char>, c: char, i: int) -> int
    decreases s.len() - i,
{
    if i < 0 || i >= s.len() {
        s.len() as int
    } else if s[i] == c {
        i
    } else {
        first_index(s, c, i + 1)
    }
}

pub proof fn lemma_first_index(s: Seq<char>, c: char, i: int)
    requires
        0 <= i <= s.len(),
    ensures
        i <= first_index(s, c, i) <= s.len(),
        forall|k: int| i <= k < first_index(s, c, i) ==> #[trigger] s[k] != c,
        first_index(s, c, i) < s.len() ==> s[first_index(s, c, i)] == c,
    decreases s.len() - i,
{
    if i < s.len() && s[i] != c {
        lemma_first_index(s, c, i + 1);
    }
}

/// `first_index`, computed.
pub fn find_char(s: &[char], c: char, i: usize) -> (r: usize)
    requires
        i <= s@.len(),
    ensures
        r == first_index(s@, c, i as int),
        i <= r <= s@.len(),
{
    proof {
        lemma_first_index(s@, c, i as int);
    }
    let mut k = i;
    while k < s.len() && s[k] != c
        invariant
            i <= k <= s@.len(),
            first_index(s@, c, i as int) == first_index(s@, c, k as int),
        decreases s.len() - k,
    {
        k = k + 1;
    }
    k
}

/// What `char::is_alphanumeric` returns for `c` (Unicode `Alphabetic` or
/// `Numeric`).
pub uninterp spec fn unicode_alphanumeric(c: char) -> bool;

/// An ASCII letter or digit.
pub open spec fn ascii_alnum(c: char) -> bool {
    ('a' <= c && c <= 'z') || ('A' <= c && c <= 'Z') || ('0' <= c && c <= '9')
}

/// `char::is_alphanumeric`. Its result is named, not stated; the contract
/// adds only the ASCII cases its documentation fixes: ASCII letters and
/// digits are alphanumeric, other ASCII characters are not.
#[verifier::external_body]
pub(crate) fn is_alphanumeric(c: char) -> (r: bool)
    ensures
        r == unicode_alphanumeric(c),
        ascii_alnum(c) ==> r,
        (c as u32) < 0x80 && !ascii_alnum(c) ==> !r,
{
    c.is_alphanumeric()
}

/// A character of an identifier (`is_alphanumeric() || c == '_'`).
pub open spec fn is_ident_char(c: char) -> bool {
    unicode_alphanumeric(c) || c == '_'
}

/// Index of the first non-identifier character at or after `i`.
pub open spec fn ident_end(s: Seq<char>, i: int) -> int
    decreases s.len() - i,
{
    if i < 0 || i >= s.len() {
        s.len() as int
    } else if is_ident_char(s[i]) {
        ident_end(s, i + 1)
    } else {
        i
    }
}

pub proof fn lemma_ident_end(s: Seq<char>, i: int)
    requires
        0 <= i <= s.len(),
    ensures
        i <= ident_end(s, i) <= s.len(),
        forall|k: int| i <= k < ident_end(s, i) ==> is_ident_char(#[trigger] s[k]),
        ident_end(s, i) < s.len() ==> !is_ident_char(s[ident_end(s, i)]),
    decreases s.len() - i,
{
    if i < s.len() && is_ident_char(s[i]) {
        lemma_ident_end(s, i + 1);
    }
}

/// `ident_end(s, 0)`, computed.
pub fn ident_len(s: &[char]) -> (r: usize)
    ensures
        r == ident_end(s@, 0),
        r <= s@.len(),
{
    proof {
        lemma_ident_end(s@, 0);
    }
    let mut k: usize = 0;
    while k < s.len() && (is_alphanumeric(s[k]) || s[k] == '_')
        invariant
            k <= s@.len(),
            ident_end(s@, 0) == ident_end(s@, k as int),
        decreases s.len() - k,
    {
        k = k + 1;
    }
    k
}

/// The leading identifier of `s` after leading whitespace, if any.
pub open spec fn spec_first_ident(s: Seq<char>) -> Option<Seq<char>> {
    let t = trim_start(s);
    let end = ident_end(t, 0);
    if end == 0 {
        None
    } else {
        Some(t.take(end))
    }
}

/// The leading identifier of `s`, after leading whitespace.
pub fn first_ident(s: &[char]) -> (r: Option<&[char]>)
    ensures
        match r {
            Some(n) => spec_first_ident(s@) == Some(n@),
            None => spec_first_ident(s@) is None,
        },
{
    let t = trim_start_slice(s);
    let end = ident_len(t);
    if end == 0 {
        None
    } else {
        Some(&t[0..end])
    }
}

/// Index of the first `a` immediately followed by `b` at or after `i`
/// (`s.len()` if there is none).
pub open spec fn find_pair(s: Seq<char>, a: char, b: char, i: int) -> int
    decreases s.len() - i,
{
    if i < 0 || i + 1 >= s.len() {
        s.len() as int
    } else if s[i] == a && s[i + 1] == b {
        i
    } else {
        find_pair(s, a, b, i + 1)
    }
}

/// `find_pair(s, a, b, 0)`, computed.
pub fn find_pair_exec(s: &[char], a: char, b: char) -> (r: usize)
    ensures
        r == find_pair(s@, a, b, 0),
        r <= s@.len(),
{
    let mut k: usize = 0;
    while k < s.len() && k + 1 < s.len()
        invariant
            k <= s@.len(),
            find_pair(s@, a, b, 0) == find_pair(s@, a, b, k as int),
        decreases s.len() - k,
    {
        if s[k] == a && s[k + 1] == b {
            return k;
        }
        k = k + 1;
    }
    s.len()
}

/// `std::str::from_utf8`: the text `bytes` encode, when they are valid
/// UTF-8.
#[verifier::external_body]
pub(crate) fn decode_utf8(bytes: &[u8]) -> (r: Option<&str>)
    ensures
        r is Some <==> valid_utf8(bytes@),
        r matches Some(s) ==> encode_utf8(s@) == bytes@,
{
    std::str::from_utf8(bytes).ok()
}

/// The UTF-8 encoding of `s.push(c)` extends that of `s` by `c`'s.
pub proof fn lemma_encode_push(s: Seq<char>, c: char)
    ensures
        encode_utf8(s.push(c)) == encode_utf8(s) + encode_scalar(c as u32),
    decreases s.len(),
{
    if s.len() == 0 {
        assert(s.push(c).drop_first() =~= Seq::<char>::empty());
        assert(encode_utf8(Seq::<char>::empty()) =~= Seq::<u8>::empty());
        assert(encode_utf8(s) =~= Seq::<u8>::empty());
        assert(encode_utf8(s.push(c)) =~= encode_scalar(c as u32) + Seq::<u8>::empty());
    } else {
        lemma_encode_push(s.drop_first(), c);
        assert(s.push(c).drop_first() =~= s.drop_first().push(c));
        assert(encode_utf8(s.push(c)) =~= encode_scalar(s[0] as u32) + (encode_utf8(s.drop_first())
            + encode_scalar(c as u32)));
    }
}

/// The bytes characters stand for: each its UTF-8 encoding, except that a
/// character marked with a byte stands for that raw byte.
pub open spec fn raw_bytes(cs: Seq<char>, marks: Seq<Option<u8>>) -> Seq<u8>
    decreases cs.len(),
{
    if cs.len() == 0 {
        Seq::empty()
    } else {
        raw_bytes(cs.drop_last(), marks.take(cs.len() - 1)) + match marks[cs.len() - 1] {
            Some(b) => seq![b],
            None => encode_scalar(cs.last() as u32),
        }
    }
}

/// No character of `marks[a..b]` is marked.
pub open spec fn unmarked(marks: Seq<Option<u8>>, a: int, b: int) -> bool {
    forall|k: int| a <= k < b ==> (#[trigger] marks[k]) is None
}

/// Marked characters are one-byte characters, so character offsets keep
/// their byte offsets.
pub open spec fn marks_ok(cs: Seq<char>, marks: Seq<Option<u8>>) -> bool {
    &&& marks.len() == cs.len()
    &&& forall|k: int| 0 <= k < cs.len() && (#[trigger] marks[k]) is Some ==> utf8_width(cs[k]) == 1
}

proof fn lemma_raw_bytes_push(cs: Seq<char>, marks: Seq<Option<u8>>, c: char, m: Option<u8>)
    requires
        marks.len() == cs.len(),
    ensures
        raw_bytes(cs.push(c), marks.push(m)) == raw_bytes(cs, marks) + match m {
            Some(b) => seq![b],
            None => encode_scalar(c as u32),
        },
{
    assert(cs.push(c).drop_last() =~= cs);
    assert(marks.push(m).take(cs.len() as int) =~= marks);
}

/// The raw bytes of marked characters are as many as their UTF-8 bytes.
pub proof fn lemma_raw_bytes_len(cs: Seq<char>, marks: Seq<Option<u8>>)
    requires
        marks_ok(cs, marks),
    ensures
        raw_bytes(cs, marks).len() == byte_len(cs),
{
    lemma_raw_bytes_take(cs, marks, cs.len() as int, cs.len() as int);
    assert(cs.take(cs.len() as int) =~= cs);
    assert(marks.take(cs.len() as int) =~= marks);
}

/// On a prefix, the raw bytes are as long as the UTF-8 encoding and are a
/// prefix of the whole's raw bytes; over an unmarked stretch they are the
/// stretch's UTF-8 encoding.
proof fn lemma_raw_bytes_take(cs: Seq<char>, marks: Seq<Option<u8>>, a: int, b: int)
    requires
        marks_ok(cs, marks),
        0 <= a <= b <= cs.len(),
    ensures
        raw_bytes(cs.take(b), marks.take(b)).len() == byte_len(cs.take(b)),
        unmarked(marks, a, b) ==> raw_bytes(cs.take(b), marks.take(b)) == raw_bytes(cs.take(a), marks.take(a))
            + encode_utf8(cs.subrange(a, b)),
    decreases b,
{
    if b == 0 {
        assert(cs.take(0) =~= Seq::<char>::empty());
        lemma_byte_len_empty();
        assert(cs.subrange(a, b) =~= Seq::<char>::empty());
        assert(encode_utf8(Seq::<char>::empty()) =~= Seq::<u8>::empty());
        assert(raw_bytes(cs.take(a), marks.take(a)) + encode_utf8(cs.subrange(a, b)) =~= raw_bytes(cs.take(a), marks.take(a)));
    } else {
        let k = b - 1;
        if a < b {
            lemma_raw_bytes_take(cs, marks, a, k);
        } else {
            lemma_raw_bytes_take(cs, marks, k, k);
        }
        assert(cs.take(b) =~= cs.take(k).push(cs[k]));
        assert(marks.take(b) =~= marks.take(k).push(marks[k]));
        lemma_raw_bytes_push(cs.take(k), marks.take(k), cs[k], marks[k]);
        lemma_byte_len_take(cs, k);
        if a < b {
            if unmarked(marks, a, b) {
                assert(marks[k] is None);
                assert(unmarked(marks, a, k));
                assert(cs.subrange(a, b) =~= cs.subrange(a, k).push(cs[k]));
                lemma_encode_push(cs.subrange(a, k), cs[k]);
            }
        } else {
            assert(cs.subrange(a, b) =~= Seq::<char>::empty());
            assert(encode_utf8(Seq::<char>::empty()) =~= Seq::<u8>::empty());
            assert(raw_bytes(cs.take(b), marks.take(b)) + encode_utf8(cs.subrange(a, b)) =~= raw_bytes(cs.take(b), marks.take(b)));
        }
    }
}

/// Over an unmarked stretch `a..b`, the characters' UTF-8 encoding is
/// exactly the raw bytes at the stretch's byte offsets.
pub proof fn lemma_raw_bytes_subrange(cs: Seq<char>, marks: Seq<Option<u8>>, a: int, b: int)
    requires
        marks_ok(cs, marks),
        0 <= a <= b <= cs.len(),
        unmarked(marks, a, b),
    ensures
        byte_len(cs.take(a)) <= byte_len(cs.take(b)) <= raw_bytes(cs, marks).len(),
        encode_utf8(cs.subrange(a, b)) == raw_bytes(cs, marks).subrange(
            byte_len(cs.take(a)) as int,
            byte_len(cs.take(b)) as int,
        ),
{
    lemma_raw_bytes_take(cs, marks, a, b);
    lemma_raw_bytes_take(cs, marks, a, a);
    lemma_raw_bytes_prefix(cs, marks, b, cs.len() as int);
    assert(cs.take(cs.len() as int) =~= cs);
    assert(marks.take(cs.len() as int) =~= marks);
    let whole = raw_bytes(cs, marks);
    let pb = raw_bytes(cs.take(b), marks.take(b));
    let pa = raw_bytes(cs.take(a), marks.take(a));
    assert(pb == pa + encode_utf8(cs.subrange(a, b)));
    assert(whole.subrange(0, pb.len() as int) == pb);
    assert forall|x: int| 0 <= x < pb.len() implies whole[x] == pb[x] by {
        assert(whole.subrange(0, pb.len() as int)[x] == whole[x]);
    }
    assert forall|x: int| 0 <= x < encode_utf8(cs.subrange(a, b)).len() implies whole.subrange(
        pa.len() as int,
        pb.len() as int,
    )[x] == encode_utf8(cs.subrange(a, b))[x] by {
        assert(pb[pa.len() + x] == encode_utf8(cs.subrange(a, b))[x]);
    }
    assert(whole.subrange(pa.len() as int, pb.len() as int) =~= encode_utf8(cs.subrange(a, b)));
}

proof fn lemma_raw_bytes_prefix(cs: Seq<char>, marks: Seq<Option<u8>>, a: int, b: int)
    requires
        marks_ok(cs, marks),
        0 <= a <= b <= cs.len(),
    ensures
        raw_bytes(cs.take(a), marks.take(a)).len() <= raw_bytes(cs.take(b), marks.take(b)).len(),
        raw_bytes(cs.take(b), marks.take(b)).subrange(0, raw_bytes(cs.take(a), marks.take(a)).len() as int)
            == raw_bytes(cs.take(a), marks.take(a)),
    decreases b - a,
{
    if a < b {
        lemma_raw_bytes_prefix(cs, marks, a, b - 1);
        let k = b - 1;
        assert(cs.take(b) =~= cs.take(k).push(cs[k]));
        assert(marks.take(b) =~= marks.take(k).push(marks[k]));
        lemma_raw_bytes_push(cs.take(k), marks.take(k), cs[k], marks[k]);
        let pk = raw_bytes(cs.take(k), marks.take(k));
        let pa = raw_bytes(cs.take(a), marks.take(a));
        assert(raw_bytes(cs.take(b), marks.take(b)).subrange(0, pa.len() as int) =~= pk.subrange(0, pa.len() as int));
    } else {
        let pa = raw_bytes(cs.take(a), marks.take(a));
        assert(pa.subrange(0, pa.len() as int) =~= pa);
    }
}

/// The UTF-8 encoding of a stretch of characters is the stretch of the
/// whole encoding at its byte offsets.
pub proof fn lemma_encode_subrange(cs: Seq<char>, a: int, b: int)
    requires
        0 <= a <= b <= cs.len(),
    ensures
        encode_utf8(cs.subrange(a, b)) == encode_utf8(cs).subrange(
            byte_len(cs.take(a)) as int,
            byte_len(cs.take(b)) as int,
        ),
{
    let marks = Seq::new(cs.len(), |k: int| None::<u8>);
    lemma_raw_bytes_none(cs, marks);
    lemma_raw_bytes_subrange(cs, marks, a, b);
}

pub proof fn lemma_raw_bytes_none(cs: Seq<char>, marks: Seq<Option<u8>>)
    requires
        marks.len() == cs.len(),
        forall|k: int| 0 <= k < marks.len() ==> (#[trigger] marks[k]) is None,
    ensures
        marks_ok(cs, marks),
        raw_bytes(cs, marks) == encode_utf8(cs),
    decreases cs.len(),
{
    if cs.len() == 0 {
        assert(encode_utf8(cs) =~= Seq::<u8>::empty());
    } else {
        let k = cs.len() - 1;
        lemma_raw_bytes_none(cs.drop_last(), marks.take(k));
        assert(cs =~= cs.drop_last().push(cs[k]));
        lemma_encode_push(cs.drop_last(), cs[k]);
    }
}

/// Marked characters stand only where the bytes do not begin with a valid
/// UTF-8 encoding of a scalar.
pub open spec fn marks_at_invalid(cs: Seq<char>, marks: Seq<Option<u8>>, bytes: Seq<u8>) -> bool {
    forall|k: int|
        0 <= k < cs.len() && (#[trigger] marks[k]) is Some ==> !valid_first_scalar(
            bytes.subrange(byte_len(cs.take(k)) as int, bytes.len() as int),
        )
}

/// Two byte sequences that agree on the first scalar of one agree on it
/// as a whole.
proof fn lemma_first_scalar_agree(x: Seq<u8>, y: Seq<u8>)
    requires
        valid_first_scalar(x),
        length_of_first_scalar(x) <= y.len(),
        forall|i: int| 0 <= i < length_of_first_scalar(x) ==> x[i] == y[i],
    ensures
        valid_first_scalar(y),
        length_of_first_scalar(y) == length_of_first_scalar(x),
{
    assert(x[0] == y[0]);
    if length_of_first_scalar(x) >= 2 {
        assert(x[1] == y[1]);
    }
    if length_of_first_scalar(x) >= 3 {
        assert(x[2] == y[2]);
    }
    if length_of_first_scalar(x) >= 4 {
        assert(x[3] == y[3]);
    }
}

/// Exactly one scalar's bytes are valid UTF-8.
proof fn lemma_one_scalar_valid(w: Seq<u8>)
    requires
        valid_first_scalar(w),
        length_of_first_scalar(w) == w.len(),
    ensures
        valid_utf8(w),
{
    assert(pop_first_scalar(w) =~= Seq::<u8>::empty());
    reveal_with_fuel(valid_utf8, 2);
}

/// A scalar's first byte is a leading byte of its width.
proof fn lemma_valid_first_scalar_len(w: Seq<u8>)
    requires
        valid_first_scalar(w),
    ensures
        1 <= length_of_first_scalar(w) <= 4,
        length_of_first_scalar(w) <= w.len(),
        !is_continuation_byte(w[0]),
{
}

/// The bytes of a scalar's encoding after its first are continuation bytes.
proof fn lemma_encode_scalar_tail(c: char, j: int)
    requires
        1 <= j < encode_scalar(c as u32).len(),
    ensures
        is_continuation_byte(encode_scalar(c as u32)[j]),
{
    let s = c as u32;
    assert(forall|v: u32| 0x80 <= #[trigger] (0x80 | (v & 0x3F) as u8) <= 0xbf) by (bit_vector);
    assert(forall|v: u32| 0x80 <= #[trigger] (0x80 | ((v >> 6) & 0x3F) as u8) <= 0xbf) by (bit_vector);
    assert(forall|v: u32| 0x80 <= #[trigger] (0x80 | ((v >> 12) & 0x3F) as u8) <= 0xbf) by (bit_vector);
    assert(0x80 <= last_continuation_byte(s) <= 0xbf);
    assert(0x80 <= second_last_continuation_byte(s) <= 0xbf);
    assert(0x80 <= third_last_continuation_byte(s) <= 0xbf);
}

/// One character's encoding is its scalar's.
proof fn lemma_encode_one(c: char)
    ensures
        encode_utf8(seq![c]) == encode_scalar(c as u32),
        encode_scalar(c as u32).len() >= 1,
        valid_first_scalar(encode_scalar(c as u32)),
        length_of_first_scalar(encode_scalar(c as u32)) == encode_scalar(c as u32).len(),
{
    assert(seq![c].drop_first() =~= Seq::<char>::empty());
    assert(encode_utf8(Seq::<char>::empty()) =~= Seq::<u8>::empty());
    assert(encode_utf8(seq![c]) =~= encode_scalar(c as u32));
    encode_utf8_first_scalar(seq![c]);
}

/// The byte span `sb..eb` runs from a character boundary to a character
/// boundary over characters that stand for no invalid bytes.
pub open spec fn char_aligned(cs: Seq<char>, marks: Seq<Option<u8>>, sb: int, eb: int) -> bool {
    exists|a: int, b: int|
        0 <= a <= b <= cs.len() && #[trigger] byte_len(cs.take(a)) == sb && #[trigger] byte_len(cs.take(b)) == eb
            && unmarked(marks, a, b)
}

proof fn lemma_locate_char(cs: Seq<char>, p: int, k: int)
    requires
        0 <= p,
        0 <= k <= cs.len(),
        byte_len(cs.take(k)) > p,
    ensures
        exists|a: int| 0 <= a < k && byte_len(cs.take(a)) <= p < #[trigger] byte_len(cs.take(a + 1)),
    decreases k,
{
    if k == 0 {
        assert(cs.take(0) =~= Seq::<char>::empty());
        lemma_byte_len_empty();
    } else if byte_len(cs.take(k - 1)) <= p {
        assert(byte_len(cs.take((k - 1) + 1)) > p);
    } else {
        lemma_locate_char(cs, p, k - 1);
    }
}

/// Character `a`'s bytes in the raw bytes.
proof fn lemma_char_bytes(cs: Seq<char>, marks: Seq<Option<u8>>, a: int)
    requires
        marks_ok(cs, marks),
        0 <= a < cs.len(),
        marks[a] is None,
    ensures
        byte_len(cs.take(a + 1)) == byte_len(cs.take(a)) + encode_scalar(cs[a] as u32).len(),
        byte_len(cs.take(a + 1)) <= raw_bytes(cs, marks).len(),
        raw_bytes(cs, marks).subrange(byte_len(cs.take(a)) as int, byte_len(cs.take(a + 1)) as int) == encode_scalar(
            cs[a] as u32,
        ),
{
    lemma_raw_bytes_subrange(cs, marks, a, a + 1);
    assert(cs.subrange(a, a + 1) =~= seq![cs[a]]);
    lemma_encode_one(cs[a]);
    lemma_byte_len_take(cs, a);
}

/// A valid span from a character boundary ends on one, over characters that
/// stand for no invalid bytes.
#[verifier::spinoff_prover]
#[verifier::rlimit(40)]
proof fn lemma_valid_span_end(cs: Seq<char>, marks: Seq<Option<u8>>, a: int, e: int)
    requires
        marks_ok(cs, marks),
        marks_at_invalid(cs, marks, raw_bytes(cs, marks)),
        0 <= a <= cs.len(),
        byte_len(cs.take(a)) < e <= raw_bytes(cs, marks).len(),
        valid_utf8(raw_bytes(cs, marks).subrange(byte_len(cs.take(a)) as int, e)),
    ensures
        exists|b: int| a < b <= cs.len() && #[trigger] byte_len(cs.take(b)) == e && unmarked(marks, a, b),
    decreases e - byte_len(cs.take(a)),
{
    let bytes = raw_bytes(cs, marks);
    let p = byte_len(cs.take(a)) as int;
    let sub = bytes.subrange(p, e);
    let tail = bytes.subrange(p, bytes.len() as int);
    lemma_raw_bytes_len(cs, marks);
    assert(cs.take(cs.len() as int) =~= cs);
    assert(a < cs.len());
    assert(valid_first_scalar(sub));
    lemma_valid_first_scalar_len(sub);
    lemma_first_scalar_agree(sub, tail);
    if marks[a] is Some {
        assert(!valid_first_scalar(tail));
    } else {
        lemma_char_bytes(cs, marks, a);
        let enc = encode_scalar(cs[a] as u32);
        lemma_encode_one(cs[a]);
        lemma_first_scalar_agree(enc, tail);
        let p2 = byte_len(cs.take(a + 1)) as int;
        assert(p2 <= e);
        if p2 == e {
            assert(unmarked(marks, a, a + 1));
        } else {
            assert(pop_first_scalar(sub) =~= bytes.subrange(p2, e));
            lemma_valid_span_end(cs, marks, a + 1, e);
            let b = choose|b: int| a + 1 < b <= cs.len() && #[trigger] byte_len(cs.take(b)) == e && unmarked(marks, a + 1, b);
            assert(unmarked(marks, a, b));
        }
    }
}

/// A nonempty byte span of characters and the invalid bytes they stand for
/// is valid UTF-8 exactly when it runs between character boundaries over
/// characters that stand for no invalid bytes.
#[verifier::spinoff_prover]
#[verifier::rlimit(40)]
pub proof fn lemma_valid_span_aligned(cs: Seq<char>, marks: Seq<Option<u8>>, sb: int, eb: int)
    requires
        marks_ok(cs, marks),
        marks_at_invalid(cs, marks, raw_bytes(cs, marks)),
        0 <= sb < eb <= raw_bytes(cs, marks).len(),
    ensures
        valid_utf8(raw_bytes(cs, marks).subrange(sb, eb)) <==> char_aligned(cs, marks, sb, eb),
{
    let bytes = raw_bytes(cs, marks);
    lemma_raw_bytes_len(cs, marks);
    assert(cs.take(cs.len() as int) =~= cs);
    if char_aligned(cs, marks, sb, eb) {
        let (a, b) = choose|a: int, b: int|
            0 <= a <= b <= cs.len() && #[trigger] byte_len(cs.take(a)) == sb && #[trigger] byte_len(cs.take(b)) == eb
                && unmarked(marks, a, b);
        lemma_raw_bytes_subrange(cs, marks, a, b);
        encode_utf8_valid_utf8(cs.subrange(a, b));
    }
    if valid_utf8(bytes.subrange(sb, eb)) {
        let sub = bytes.subrange(sb, eb);
        lemma_locate_char(cs, sb, cs.len() as int);
        let a = choose|a: int| 0 <= a < cs.len() && byte_len(cs.take(a)) <= sb < #[trigger] byte_len(cs.take(a + 1));
        if byte_len(cs.take(a)) < sb {
            lemma_byte_len_take(cs, a);
            if marks[a] is Some {
                assert(utf8_width(cs[a]) == 1);
            }
            lemma_char_bytes(cs, marks, a);
            let q = byte_len(cs.take(a)) as int;
            lemma_encode_scalar_tail(cs[a], sb - q);
            assert(sub[0] == bytes[sb]);
            assert(bytes.subrange(q, byte_len(cs.take(a + 1)) as int)[sb - q] == bytes[sb]);
            assert(valid_first_scalar(sub));
            assert(false);
        }
        lemma_valid_span_end(cs, marks, a, eb);
        let b = choose|b: int| a < b <= cs.len() && #[trigger] byte_len(cs.take(b)) == eb && unmarked(marks, a, b);
        assert(byte_len(cs.take(a)) == sb);
        assert(char_aligned(cs, marks, sb, eb));
    }
}

/// Characters for arbitrary bytes: each valid UTF-8 scalar decoded, and one
/// U+001A for each byte where none begins, marked with the byte it stands
/// for.
pub fn decode_marked(bytes: &[u8]) -> (r: (Vec<char>, Vec<Option<u8>>))
    ensures
        marks_ok(r.0@, r.1@),
        raw_bytes(r.0@, r.1@) == bytes@,
        marks_at_invalid(r.0@, r.1@, bytes@),
{
    let mut cs: Vec<char> = Vec::new();
    let mut ms: Vec<Option<u8>> = Vec::new();
    let mut x: usize = 0;
    assert(bytes@.take(0) =~= Seq::<u8>::empty());
    while x < bytes.len()
        invariant
            x <= bytes@.len(),
            marks_ok(cs@, ms@),
            raw_bytes(cs@, ms@) == bytes@.take(x as int),
            marks_at_invalid(cs@, ms@, bytes@),
        decreases bytes.len() - x,
    {
        proof {
            lemma_raw_bytes_len(cs@, ms@);
        }
        let ghost rest = bytes@.subrange(x as int, bytes@.len() as int);
        let mut k: usize = 1;
        let mut found: Option<char> = None;
        while k <= 4 && k <= bytes.len() - x && found.is_none()
            invariant
                x < bytes@.len(),
                1 <= k <= 5,
                rest == bytes@.subrange(x as int, bytes@.len() as int),
                found is None ==> forall|j: int|
                    1 <= j < k && j <= rest.len() ==> !valid_utf8(#[trigger] rest.take(j)),
                found matches Some(c) ==> k >= 2 && k - 1 <= rest.len() && encode_scalar(c as u32) == rest.take(k - 1),
            decreases 5 - k,
        {
            let w = &bytes[x..x + k];
            assert(w@ =~= rest.take(k as int));
            match decode_utf8(w) {
                Some(s) => {
                    let v = chars_of(s);
                    proof {
                        let ws = rest.take(k as int);
                        lemma_valid_first_scalar_len(ws);
                        let l = length_of_first_scalar(ws);
                        if l < k {
                            lemma_first_scalar_agree(ws, ws.take(l));
                            lemma_one_scalar_valid(ws.take(l));
                            assert(ws.take(l) =~= rest.take(l));
                            assert(false);
                        }
                        assert(v@.len() >= 1) by {
                            if v@.len() == 0 {
                                assert(encode_utf8(v@) =~= Seq::<u8>::empty());
                            }
                        }
                        encode_utf8_first_scalar(v@);
                        char_is_scalar(v@[0]);
                        assert(encode_utf8(v@) == encode_scalar(v@[0] as u32) + encode_utf8(v@.drop_first()));
                        lemma_encode_one(v@[0]);
                        assert(encode_utf8(v@.drop_first()).len() == 0);
                        assert(encode_utf8(v@) =~= encode_scalar(v@[0] as u32) + encode_utf8(v@.drop_first()));
                        assert(encode_scalar(v@[0] as u32) =~= ws);
                    }
                    found = Some(v[0]);
                },
                None => {},
            }
            k = k + 1;
        }
        match found {
            Some(c) => {
                let ghost n = (k - 1) as int;
                proof {
                    lemma_raw_bytes_push(cs@, ms@, c, None);
                    assert(bytes@.take(x + n) =~= bytes@.take(x as int) + rest.take(n));
                    lemma_byte_len_push(cs@, c);
                }
                let ghost c0 = cs@;
                let ghost m0 = ms@;
                cs.push(c);
                ms.push(None);
                proof {
                    assert forall|j: int| 0 <= j < cs@.len() && (#[trigger] ms@[j]) is Some implies !valid_first_scalar(
                        bytes@.subrange(byte_len(cs@.take(j)) as int, bytes@.len() as int),
                    ) by {
                        assert(j < c0.len());
                        assert(cs@.take(j) =~= c0.take(j));
                        assert(m0[j] is Some);
                    }
                }
                x = x + (k - 1);
            },
            None => {
                proof {
                    if valid_first_scalar(rest) {
                        lemma_valid_first_scalar_len(rest);
                        let l = length_of_first_scalar(rest);
                        lemma_first_scalar_agree(rest, rest.take(l));
                        lemma_one_scalar_valid(rest.take(l));
                        assert(false);
                    }
                    lemma_raw_bytes_push(cs@, ms@, '\u{1A}', Some(bytes@[x as int]));
                    assert(bytes@.take(x + 1) =~= bytes@.take(x as int).push(bytes@[x as int]));
                }
                let ghost c0 = cs@;
                let ghost m0 = ms@;
                cs.push('\u{1A}');
                ms.push(Some(bytes[x]));
                proof {
                    assert(cs@.take(c0.len() as int) =~= c0);
                    assert forall|j: int| 0 <= j < cs@.len() && (#[trigger] ms@[j]) is Some implies !valid_first_scalar(
                        bytes@.subrange(byte_len(cs@.take(j)) as int, bytes@.len() as int),
                    ) by {
                        if j < c0.len() {
                            assert(cs@.take(j) =~= c0.take(j));
                            assert(m0[j] is Some);
                        }
                    }
                }
                x = x + 1;
            },
        }
    }
    assert(bytes@.take(x as int) =~= bytes@);
    (cs, ms)
}

/// Segment ends in `s` are those in `p + s`, shifted by `p`.
pub proof fn lemma_seg_end_shift(p: Seq<char>, s: Seq<char>, i: int)
    requires
        0 <= i <= s.len(),
    ensures
        seg_end(p + s, p.len() + i) == p.len() + seg_end(s, i),
    decreases s.len() - i,
{
    let t = p + s;
    if i < s.len() {
        assert(t[p.len() + i] == s[i]);
        if s[i] != '\n' {
            lemma_seg_end_shift(p, s, i + 1);
        }
    }
}

/// The lines of `s` from segment start `i` are those of `p + s` from
/// `p.len() + i`.
pub proof fn lemma_lines_from_shift(p: Seq<char>, s: Seq<char>, i: int)
    requires
        0 <= i <= s.len(),
    ensures
        lines_from(p + s, p.len() + i) == lines_from(s, i),
    decreases s.len() - i,
{
    let t = p + s;
    let pl = p.len() as int;
    if i < s.len() {
        lemma_seg_end(s, i);
        lemma_seg_end_shift(p, s, i);
        let e = seg_end(s, i);
        lemma_lines_from_shift(p, s, e);
        if e > i {
            assert(t[pl + e - 1] == s[e - 1]);
            if e - 1 > i {
                assert(t[pl + e - 2] == s[e - 2]);
            }
        }
        assert(line_end(t, pl + i, pl + e) == pl + line_end(s, i, e));
        assert(t.subrange(pl + i, pl + line_end(s, i, e)) =~= s.subrange(i, line_end(s, i, e)));
    }
}

proof fn lemma_seg_end_first_line(l0: Seq<char>, t: Seq<char>, i: int)
    requires
        0 <= i <= l0.len(),
        l0.len() < t.len(),
        forall|k: int| 0 <= k < l0.len() ==> #[trigger] t[k] == l0[k] && l0[k] != '\n',
        t[l0.len() as int] == '\n',
    ensures
        seg_end(t, i) == l0.len() + 1,
    decreases l0.len() - i,
{
    if i < l0.len() {
        lemma_seg_end_first_line(l0, t, i + 1);
    }
}

/// A leading line `l0` (no line break in it, not ending in `'\r'`) adds
/// one line before the lines of `s`.
pub proof fn lemma_lines_leading(l0: Seq<char>, s: Seq<char>)
    requires
        forall|k: int| 0 <= k < l0.len() ==> #[trigger] l0[k] != '\n',
        l0.len() == 0 || l0.last() != '\r',
    ensures
        lines(l0.push('\n') + s) == seq![l0] + lines(s),
{
    let p = l0.push('\n');
    let t = p + s;
    assert forall|k: int| 0 <= k < l0.len() implies #[trigger] t[k] == l0[k] && l0[k] != '\n' by {
        assert(t[k] == p[k]);
    }
    assert(t[l0.len() as int] == '\n');
    lemma_seg_end_first_line(l0, t, 0);
    lemma_lines_from_shift(p, s, 0);
    assert(line_end(t, 0, p.len() as int) == l0.len());
    assert(t.subrange(0, l0.len() as int) =~= l0);
    assert(lines_from(t, 0) == seq![t.subrange(0, line_end(t, 0, seg_end(t, 0)))] + lines_from(t, seg_end(t, 0)));
}

/// `s` has no more lines from `i` on than characters.
pub proof fn lemma_lines_len_bound(s: Seq<char>, i: int)
    requires
        0 <= i <= s.len(),
    ensures
        lines_from(s, i).len() <= s.len() - i,
    decreases s.len() - i,
{
    if i < s.len() {
        lemma_seg_end(s, i);
        lemma_lines_len_bound(s, seg_end(s, i));
    }
}

proof fn lemma_seg_end_in_prefix(a: Seq<char>, b: Seq<char>, i: int)
    requires
        0 <= i < a.len(),
        a.last() == '\n',
    ensures
        seg_end(a + b, i) == seg_end(a, i),
    decreases a.len() - i,
{
    assert((a + b)[i] == a[i]);
    if a[i] != '\n' {
        assert(i + 1 < a.len());
        lemma_seg_end_in_prefix(a, b, i + 1);
    }
}

proof fn lemma_lines_from_prefix(a: Seq<char>, b: Seq<char>, i: int)
    requires
        0 <= i <= a.len(),
        a.len() > 0,
        a.last() == '\n',
    ensures
        lines_from(a + b, i) == lines_from(a, i) + lines(b),
    decreases a.len() - i,
{
    let t = a + b;
    if i == a.len() {
        lemma_lines_from_shift(a, b, 0);
        assert(lines_from(a, i) =~= Seq::<Seq<char>>::empty());
        assert(lines_from(t, i) =~= lines_from(a, i) + lines(b));
    } else {
        lemma_seg_end(a, i);
        lemma_seg_end_in_prefix(a, b, i);
        let e = seg_end(a, i);
        lemma_lines_from_prefix(a, b, e);
        assert(t[e - 1] == a[e - 1]);
        if e - 1 > i {
            assert(t[e - 2] == a[e - 2]);
        }
        assert(line_end(t, i, e) == line_end(a, i, e));
        assert(t.subrange(i, line_end(a, i, e)) =~= a.subrange(i, line_end(a, i, e)));
        assert(lines_from(t, i) =~= lines_from(a, i) + lines(b));
    }
}

/// Text that ends with a line break splits its lines from those of what
/// follows.
pub proof fn lemma_lines_concat(a: Seq<char>, b: Seq<char>)
    requires
        a.len() > 0,
        a.last() == '\n',
    ensures
        lines(a + b) == lines(a) + lines(b),
{
    lemma_lines_from_prefix(a, b, 0);
}

} // verus!
