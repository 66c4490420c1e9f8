//! Character-level string utilities with exact specifications.
//!
//! Strings are specified through their `Seq<char>` views. The order used for
//! sorted string collections is the byte-wise order of the UTF-8 encodings,
//! which is the order `str` itself implements.

use vstd::prelude::*;
use vstd::utf8::encode_utf8;
use vstd::utf8::encode_utf8_decode_utf8;

verus! {

/// The texts of a sequence of strings.
pub open spec fn texts(v: Seq<String>) -> Seq<Seq<char>> {
    v.map_values(|s: String| s@)
}

// ---------------------------------------------------------------------------
// Whitespace and trimming
// ---------------------------------------------------------------------------

/// The Unicode `White_Space` property, which `str::trim` and
/// `char::is_whitespace` use.
pub open spec fn is_white_space(c: char) -> bool {
    let u = c as u32;
    ||| 0x09 <= u <= 0x0D
    ||| u == 0x20
    ||| u == 0x85
    ||| u == 0xA0
    ||| u == 0x1680
    ||| 0x2000 <= u <= 0x200A
    ||| u == 0x2028
    ||| u == 0x2029
    ||| u == 0x202F
    ||| u == 0x205F
    ||| u == 0x3000
}

/// Decides [`is_white_space`].
pub fn char_is_white_space(c: char) -> (b: bool)
    ensures
        b == is_white_space(c),
{
    let u = c as u32;
    (0x09 <= u && u <= 0x0D) || u == 0x20 || u == 0x85 || u == 0xA0 || u == 0x1680 || (0x2000
        <= u && u <= 0x200A) || u == 0x2028 || u == 0x2029 || u == 0x202F || u == 0x205F || u
        == 0x3000
}

/// The index of the first character at or after `i` that is not whitespace
/// (or `s.len()` when there is none).
pub open spec fn skip_white_space_from(s: Seq<char>, i: int) -> int
    decreases s.len() - i,
{
    if 0 <= i < s.len() && is_white_space(s[i]) {
        skip_white_space_from(s, i + 1)
    } else {
        i
    }
}

/// Going backwards from `j`, the end of the text once trailing whitespace
/// above `lo` is dropped.
pub open spec fn drop_white_space_before(s: Seq<char>, lo: int, j: int) -> int
    decreases j - lo,
{
    if lo < j <= s.len() && is_white_space(s[j - 1]) {
        drop_white_space_before(s, lo, j - 1)
    } else {
        j
    }
}

/// Start of the trimmed text.
pub open spec fn trim_start(s: Seq<char>) -> int {
    skip_white_space_from(s, 0)
}

/// End (exclusive) of the trimmed text.
pub open spec fn trim_end(s: Seq<char>) -> int {
    drop_white_space_before(s, trim_start(s), s.len() as int)
}

/// `s` with leading and trailing Unicode whitespace removed.
pub open spec fn trimmed(s: Seq<char>) -> Seq<char> {
    s.subrange(trim_start(s), trim_end(s))
}

proof fn lemma_skip_white_space_from(s: Seq<char>, i: int)
    requires
        0 <= i <= s.len(),
    ensures
        i <= skip_white_space_from(s, i) <= s.len(),
        forall|k: int| i <= k < skip_white_space_from(s, i) ==> is_white_space(#[trigger] s[k]),
        skip_white_space_from(s, i) < s.len() ==> !is_white_space(s[skip_white_space_from(s, i)]),
    decreases s.len() - i,
{
    if i < s.len() && is_white_space(s[i]) {
        lemma_skip_white_space_from(s, i + 1);
    }
}

proof fn lemma_drop_white_space_before(s: Seq<char>, lo: int, j: int)
    requires
        0 <= lo <= j <= s.len(),
    ensures
        lo <= drop_white_space_before(s, lo, j) <= j,
        forall|k: int| drop_white_space_before(s, lo, j) <= k < j ==> is_white_space(#[trigger] s[k]),
        lo < drop_white_space_before(s, lo, j) ==> !is_white_space(
            s[drop_white_space_before(s, lo, j) - 1],
        ),
    decreases j - lo,
{
    if lo < j && is_white_space(s[j - 1]) {
        lemma_drop_white_space_before(s, lo, j - 1);
    }
}

/// The bounds of the trimmed text lie inside `s`, and what was cut off is
/// whitespace.
pub proof fn lemma_trim_bounds(s: Seq<char>)
    ensures
        0 <= trim_start(s) <= trim_end(s) <= s.len(),
        forall|k: int| 0 <= k < trim_start(s) ==> is_white_space(#[trigger] s[k]),
        forall|k: int| trim_end(s) <= k < s.len() ==> is_white_space(#[trigger] s[k]),
        trim_start(s) < trim_end(s) ==> !is_white_space(s[trim_start(s)]) && !is_white_space(
            s[trim_end(s) - 1],
        ),
{
    lemma_skip_white_space_from(s, 0);
    lemma_drop_white_space_before(s, trim_start(s), s.len() as int);
}

/// Trimmed text neither starts nor ends with whitespace, and trimming it
/// again changes nothing.
pub proof fn lemma_trimmed_is_trimmed(s: Seq<char>)
    ensures
        trimmed(s).len() > 0 ==> !is_white_space(trimmed(s)[0]) && !is_white_space(
            trimmed(s)[trimmed(s).len() - 1],
        ),
        trimmed(trimmed(s)) == trimmed(s),
{
    lemma_trim_bounds(s);
    let t = trimmed(s);
    lemma_trim_bounds(t);
    if t.len() > 0 {
        assert(!is_white_space(t[0]));
        assert(trim_start(t) == 0);
        assert(!is_white_space(t[t.len() - 1]));
        assert(trim_end(t) == t.len());
    } else {
        assert(trim_start(t) == 0);
    }
    assert(trimmed(t) =~= t);
}

// ---------------------------------------------------------------------------
// Building strings
// ---------------------------------------------------------------------------

/// `String::push`: appends one character to the string.
#[verifier::external_body]
fn push_char(s: &mut String, c: char)
    ensures
        final(s)@ == old(s)@.push(c),
{
    s.push(c);
}

/// The characters of `s`, in order.
pub fn chars_of(s: &str) -> (out: Vec<char>)
    ensures
        out@ == s@,
{
    let mut out: Vec<char> = Vec::new();
    for c in it: s.chars()
        invariant
            out@ == it.seq().take(it.index() as int),
    {
        out.push(c);
    }
    out
}

/// Appends the characters of `s` to `out`.
pub fn append_text(out: &mut String, s: &str)
    ensures
        final(out)@ == old(out)@ + s@,
{
    let cs = chars_of(s);
    let mut i: usize = 0;
    while i < cs.len()
        invariant
            i <= cs.len(),
            cs@ == s@,
            out@ == old(out)@ + s@.take(i as int),
        decreases cs.len() - i,
    {
        push_char(out, cs[i]);
        assert(s@.take(i + 1) =~= s@.take(i as int).push(s@[i as int]));
        assert(old(out)@ + s@.take(i + 1) =~= (old(out)@ + s@.take(i as int)).push(s@[i as int]));
        i = i + 1;
    }
    assert(s@.take(cs.len() as int) =~= s@);
}

/// The string made of `v[lo..hi]`.
pub fn string_from_chars(v: &Vec<char>, lo: usize, hi: usize) -> (out: String)
    requires
        lo <= hi <= v.len(),
    ensures
        out@ == v@.subrange(lo as int, hi as int),
{
    let mut out = String::new();
    let mut i = lo;
    while i < hi
        invariant
            lo <= i <= hi <= v.len(),
            out@ == v@.subrange(lo as int, i as int),
        decreases hi - i,
    {
        push_char(&mut out, v[i]);
        assert(v@.subrange(lo as int, i + 1) =~= v@.subrange(lo as int, i as int).push(v@[i as int]));
        i = i + 1;
    }
    out
}

/// `str::trim`: `s` without leading and trailing whitespace.
pub fn trim(s: &str) -> (out: String)
    ensures
        out@ == trimmed(s@),
{
    let v = chars_of(s);
    let n = v.len();
    let mut start: usize = 0;
    while start < n && char_is_white_space(v[start])
        invariant
            start <= n == v@.len(),
            v@ == s@,
            skip_white_space_from(s@, start as int) == skip_white_space_from(s@, 0),
        decreases n - start,
    {
        start = start + 1;
    }
    let mut end: usize = n;
    while end > start && char_is_white_space(v[end - 1])
        invariant
            start <= end <= n == v@.len(),
            v@ == s@,
            skip_white_space_from(s@, 0) == start,
            drop_white_space_before(s@, start as int, end as int) == drop_white_space_before(
                s@,
                start as int,
                n as int,
            ),
        decreases end - start,
    {
        end = end - 1;
    }
    string_from_chars(&v, start, end)
}

// ---------------------------------------------------------------------------
// ASCII case and substrings
// ---------------------------------------------------------------------------

/// `char::to_ascii_lowercase`: `A`..=`Z` become `a`..=`z`, everything else
/// stays.
pub open spec fn ascii_lower(c: char) -> char {
    if 'A' <= c <= 'Z' {
        ((c as u32) + 32) as char
    } else {
        c
    }
}

/// Decides [`ascii_lower`].
pub fn char_to_ascii_lowercase(c: char) -> (out: char)
    ensures
        out == ascii_lower(c),
{
    if 'A' <= c && c <= 'Z' {
        let b = c as u8;
        (b + 32) as char
    } else {
        c
    }
}

/// `str::eq_ignore_ascii_case`: equal once ASCII letters are lowercased.
pub open spec fn eq_ignoring_ascii_case(a: Seq<char>, b: Seq<char>) -> bool {
    a.map_values(|c: char| ascii_lower(c)) == b.map_values(|c: char| ascii_lower(c))
}

/// Decides [`eq_ignoring_ascii_case`].
pub fn str_eq_ignore_ascii_case(a: &str, b: &str) -> (out: bool)
    ensures
        out == eq_ignoring_ascii_case(a@, b@),
{
    let va = chars_of(a);
    let vb = chars_of(b);
    if va.len() != vb.len() {
        assert(a@.map_values(|c: char| ascii_lower(c)).len() != b@.map_values(
            |c: char| ascii_lower(c),
        ).len());
        return false;
    }
    let mut i: usize = 0;
    while i < va.len()
        invariant
            va@ == a@,
            vb@ == b@,
            va.len() == vb.len(),
            i <= va.len(),
            forall|k: int| 0 <= k < i ==> ascii_lower(#[trigger] va@[k]) == ascii_lower(vb@[k]),
        decreases va.len() - i,
    {
        if char_to_ascii_lowercase(va[i]) != char_to_ascii_lowercase(vb[i]) {
            assert(a@.map_values(|c: char| ascii_lower(c))[i as int] != b@.map_values(
                |c: char| ascii_lower(c),
            )[i as int]);
            return false;
        }
        i = i + 1;
    }
    assert(a@.map_values(|c: char| ascii_lower(c)) =~= b@.map_values(|c: char| ascii_lower(c)));
    true
}

/// `str::to_ascii_lowercase`.
pub fn str_to_ascii_lowercase(s: &str) -> (out: String)
    ensures
        out@ == s@.map_values(|c: char| ascii_lower(c)),
{
    let v = chars_of(s);
    let mut out = String::new();
    let mut i: usize = 0;
    while i < v.len()
        invariant
            v@ == s@,
            i <= v.len(),
            out@ == s@.take(i as int).map_values(|c: char| ascii_lower(c)),
        decreases v.len() - i,
    {
        let c = char_to_ascii_lowercase(v[i]);
        push_char(&mut out, c);
        assert(s@.take(i + 1).map_values(|c: char| ascii_lower(c)) =~= s@.take(i as int).map_values(
            |c: char| ascii_lower(c),
        ).push(c));
        i = i + 1;
    }
    assert(s@.take(v.len() as int) =~= s@);
    out
}

/// `needle` occurs in `hay` at position `i`.
pub open spec fn occurs_at(hay: Seq<char>, needle: Seq<char>, i: int) -> bool {
    0 <= i && i + needle.len() <= hay.len() && hay.subrange(i, i + needle.len()) == needle
}

/// `str::contains` with a string pattern: `needle` is a contiguous part of
/// `hay`.
pub open spec fn contains_text(hay: Seq<char>, needle: Seq<char>) -> bool {
    exists|i: int| occurs_at(hay, needle, i)
}

/// Decides [`contains_text`].
pub fn str_contains(hay: &str, needle: &str) -> (out: bool)
    ensures
        out == contains_text(hay@, needle@),
{
    let h = chars_of(hay);
    let n = chars_of(needle);
    if n.len() > h.len() {
        return false;
    }
    let last = h.len() - n.len();
    let mut i: usize = 0;
    while i <= last
        invariant
            h@ == hay@,
            n@ == needle@,
            last == h.len() - n.len(),
            i <= last + 1,
            forall|k: int| 0 <= k < i ==> !occurs_at(hay@, needle@, k),
        decreases last + 1 - i,
    {
        let mut j: usize = 0;
        while j < n.len() && h[i + j] == n[j]
            invariant
                h@ == hay@,
                n@ == needle@,
                i <= last,
                last == h.len() - n.len(),
                j <= n.len(),
                forall|k: int| 0 <= k < j ==> h@[i + k] == #[trigger] n@[k],
            decreases n.len() - j,
        {
            j = j + 1;
        }
        if j == n.len() {
            assert(hay@.subrange(i as int, i + needle@.len()) =~= needle@);
            assert(occurs_at(hay@, needle@, i as int));
            return true;
        }
        assert(hay@.subrange(i as int, i + needle@.len())[j as int] != needle@[j as int]);
        i = i + 1;
    }
    assert forall|k: int| !occurs_at(hay@, needle@, k) by {
        if 0 <= k < i {
        }
    }
    false
}

// ---------------------------------------------------------------------------
// Unicode lowercase
// ---------------------------------------------------------------------------

/// What `str::to_lowercase` returns for a text: its Unicode lowercase
/// mapping.
pub uninterp spec fn unicode_lowercase(s: Seq<char>) -> Seq<char>;

/// `str::to_lowercase`: the Unicode lowercase mapping of `s`. The mapping
/// itself (Unicode's case tables) is not written out: the result is named
/// [`unicode_lowercase`].
#[verifier::external_body]
pub(crate) fn to_lowercase(s: &str) -> (out: String)
    ensures
        out@ == unicode_lowercase(s@),
{
    s.to_lowercase()
}

// ---------------------------------------------------------------------------
// Order of texts
// ---------------------------------------------------------------------------

/// Lexicographic order of byte sequences, compared from index `i` on.
pub open spec fn bytes_lt_from(a: Seq<u8>, b: Seq<u8>, i: int) -> bool
    decreases a.len() - i,
{
    if i >= a.len() {
        i < b.len()
    } else if i >= b.len() {
        false
    } else if a[i] != b[i] {
        a[i] < b[i]
    } else {
        bytes_lt_from(a, b, i + 1)
    }
}

/// Lexicographic order of byte sequences.
pub open spec fn bytes_lt(a: Seq<u8>, b: Seq<u8>) -> bool {
    bytes_lt_from(a, b, 0)
}

/// The order of `str`: byte-wise on the UTF-8 encodings.
pub open spec fn text_lt(a: Seq<char>, b: Seq<char>) -> bool {
    bytes_lt(encode_utf8(a), encode_utf8(b))
}

proof fn lemma_bytes_lt_from_irreflexive(a: Seq<u8>, i: int)
    requires
        0 <= i,
    ensures
        !bytes_lt_from(a, a, i),
    decreases a.len() - i,
{
    if i < a.len() {
        lemma_bytes_lt_from_irreflexive(a, i + 1);
    }
}

proof fn lemma_bytes_lt_from_transitive(a: Seq<u8>, b: Seq<u8>, c: Seq<u8>, i: int)
    requires
        0 <= i,
        bytes_lt_from(a, b, i),
        bytes_lt_from(b, c, i),
    ensures
        bytes_lt_from(a, c, i),
    decreases b.len() - i,
{
    if i < a.len() && i < b.len() && i < c.len() && a[i] == b[i] && b[i] == c[i] {
        lemma_bytes_lt_from_transitive(a, b, c, i + 1);
    }
}

/// No text is ordered before itself.
pub proof fn lemma_text_lt_irreflexive(a: Seq<char>)
    ensures
        !text_lt(a, a),
{
    lemma_bytes_lt_from_irreflexive(encode_utf8(a), 0);
}

/// The order of texts is transitive.
pub proof fn lemma_text_lt_transitive(a: Seq<char>, b: Seq<char>, c: Seq<char>)
    requires
        text_lt(a, b),
        text_lt(b, c),
    ensures
        text_lt(a, c),
{
    lemma_bytes_lt_from_transitive(encode_utf8(a), encode_utf8(b), encode_utf8(c), 0);
}

/// The three outcomes of comparing two texts.
#[derive(Clone, Copy, Debug, PartialEq, Eq, Structural)]
pub enum TextOrder {
    Less,
    Equal,
    Greater,
}

/// Compares two texts in the order of `str`.
pub fn compare_text(a: &str, b: &str) -> (out: TextOrder)
    ensures
        out == TextOrder::Less <==> text_lt(a@, b@),
        out == TextOrder::Equal <==> a@ == b@,
        out == TextOrder::Greater <==> text_lt(b@, a@),
{
    let x = a.as_bytes();
    let y = b.as_bytes();
    let ghost ea = encode_utf8(a@);
    let ghost eb = encode_utf8(b@);
    assert(x@ == ea);
    assert(y@ == eb);
    let mut i: usize = 0;
    while i < x.len() && i < y.len() && x[i] == y[i]
        invariant
            x@ == ea,
            y@ == eb,
            i <= x.len(),
            i <= y.len(),
            forall|k: int| 0 <= k < i ==> ea[k] == eb[k],
            bytes_lt_from(ea, eb, 0) == bytes_lt_from(ea, eb, i as int),
            bytes_lt_from(eb, ea, 0) == bytes_lt_from(eb, ea, i as int),
        decreases x.len() - i,
    {
        i = i + 1;
    }
    proof {
        lemma_bytes_lt_from_irreflexive(ea, 0);
        lemma_bytes_lt_from_irreflexive(eb, 0);
        encode_utf8_decode_utf8(a@);
        encode_utf8_decode_utf8(b@);
    }
    if i < x.len() && i < y.len() {
        if x[i] < y[i] {
            proof {
                if a@ == b@ {
                    assert(ea == eb);
                }
            }
            TextOrder::Less
        } else {
            proof {
                if a@ == b@ {
                    assert(ea == eb);
                }
            }
            TextOrder::Greater
        }
    } else if i < y.len() {
        proof {
            if a@ == b@ {
                assert(ea == eb);
            }
        }
        TextOrder::Less
    } else if i < x.len() {
        proof {
            if a@ == b@ {
                assert(ea == eb);
            }
        }
        TextOrder::Greater
    } else {
        assert(ea =~= eb);
        TextOrder::Equal
    }
}

} // verus!
