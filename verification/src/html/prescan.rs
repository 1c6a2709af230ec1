//! The `<meta>` prescan: a bounded, byte-level scan of an HTML document's first 1024 bytes
//! that looks for `<meta charset>` or `<meta http-equiv="Content-Type" content="...">`
//! before any tokenizing happens (WHATWG HTML, "prescan a byte stream to determine its
//! encoding", with its "get an attribute" and "extract a character encoding from a meta
//! element" sub-algorithms).
//!
//! The algorithm is stated step by step as spec functions over the byte sequence, and every
//! executable function is proved to compute exactly its spec function. An encoding is
//! represented by its canonical `encoding_rs` name.
use vstd::prelude::*;

use crate::html::label::{encoding_for_label, encoding_name_for_label, names_itself, utf8_name, windows_1252_name};
use crate::strutil::same_str;

verus! {

// ---------------------------------------------------------------------------------------
// Byte classes and positions
// ---------------------------------------------------------------------------------------

/// HTML "ASCII whitespace": tab, LF, FF, CR, space.
pub open spec fn ws(b: u8) -> bool {
    b == 0x09 || b == 0x0A || b == 0x0C || b == 0x0D || b == 0x20
}

/// ASCII whitespace or `/`.
pub open spec fn ws_or_slash(b: u8) -> bool {
    ws(b) || b == 0x2F
}

/// ASCII whitespace as a predicate value.
pub open spec fn ws_pred() -> spec_fn(u8) -> bool {
    |b: u8| ws(b)
}

/// ASCII whitespace or `/` as a predicate value.
pub open spec fn ws_or_slash_pred() -> spec_fn(u8) -> bool {
    |b: u8| ws_or_slash(b)
}

/// The prescan's byte-level lowercasing: `A`..=`Z` become `a`..=`z`, nothing else changes.
pub open spec fn lower(b: u8) -> u8 {
    if 0x41 <= b <= 0x5A {
        (b + 0x20) as u8
    } else {
        b
    }
}

/// The byte at `p`, or `None` outside `b`.
pub open spec fn byte_at(b: Seq<u8>, p: int) -> Option<u8> {
    if 0 <= p < b.len() {
        Some(b[p])
    } else {
        None
    }
}

/// The first position at or after `p` whose byte does not satisfy `pred` (or the end).
/// A position at or past the end is returned unchanged.
pub open spec fn skip_from(b: Seq<u8>, p: int, pred: spec_fn(u8) -> bool) -> int
    decreases b.len() - p,
{
    if 0 <= p < b.len() && pred(b[p]) {
        skip_from(b, p + 1, pred)
    } else {
        p
    }
}

/// Whether `b` holds `needle` starting at position `p`.
pub open spec fn holds_at(b: Seq<u8>, p: int, needle: Seq<u8>) -> bool {
    forall|i: int| 0 <= i < needle.len() ==> byte_at(b, p + i) == Some(#[trigger] needle[i])
}

/// The first position at or after `i` where `needle` (non-empty) occurs in `h`.
pub open spec fn first_match(h: Seq<u8>, i: int, needle: Seq<u8>) -> Option<int>
    decreases h.len() - i,
{
    if i < 0 || i >= h.len() || i + needle.len() > h.len() {
        None
    } else if h.subrange(i, i + needle.len()) == needle {
        Some(i)
    } else {
        first_match(h, i + 1, needle)
    }
}

/// Where `needle` first occurs in `h` at or after `from`: an empty needle is found at
/// `from` (clamped to the end), a start past the end finds nothing.
pub open spec fn find_spec(h: Seq<u8>, from: int, needle: Seq<u8>) -> Option<int> {
    if needle.len() == 0 {
        Some(if from < h.len() { from } else { h.len() as int })
    } else if from > h.len() {
        None
    } else {
        first_match(h, from, needle)
    }
}

pub proof fn lemma_skip_from_bounds(b: Seq<u8>, p: int, pred: spec_fn(u8) -> bool)
    requires
        0 <= p,
    ensures
        skip_from(b, p, pred) >= p,
        p <= b.len() ==> skip_from(b, p, pred) <= b.len(),
        p > b.len() ==> skip_from(b, p, pred) == p,
        skip_from(b, p, pred) < b.len() ==> !pred(b[skip_from(b, p, pred)]),
    decreases b.len() - p,
{
    if 0 <= p < b.len() && pred(b[p]) {
        lemma_skip_from_bounds(b, p + 1, pred);
    }
}

proof fn lemma_first_match_bounds(h: Seq<u8>, i: int, needle: Seq<u8>)
    ensures
        first_match(h, i, needle) matches Some(j) ==> i <= j && j + needle.len() <= h.len()
            && h.subrange(j, j + needle.len()) == needle,
    decreases h.len() - i,
{
    if !(i < 0 || i >= h.len() || i + needle.len() > h.len()) && h.subrange(i, i + needle.len()) != needle {
        lemma_first_match_bounds(h, i + 1, needle);
    }
}

// ---------------------------------------------------------------------------------------
// Executable byte helpers
// ---------------------------------------------------------------------------------------

/// Whether `b` is HTML ASCII whitespace.
pub fn is_ascii_ws(b: u8) -> (r: bool)
    ensures
        r == ws(b),
{
    b == 0x09 || b == 0x0A || b == 0x0C || b == 0x0D || b == 0x20
}

/// Whether `b` is ASCII whitespace or `/`.
pub fn is_ws_or_slash(b: u8) -> (r: bool)
    ensures
        r == ws_or_slash(b),
{
    is_ascii_ws(b) || b == 0x2F
}

/// Lowercases an ASCII uppercase letter; every other byte is unchanged.
pub fn ascii_lower(b: u8) -> (r: u8)
    ensures
        r == lower(b),
{
    if 0x41 <= b && b <= 0x5A {
        b + 0x20
    } else {
        b
    }
}

/// The byte at `pos`, or `None` past the end.
pub fn byte(bytes: &[u8], pos: usize) -> (r: Option<u8>)
    ensures
        r == byte_at(bytes@, pos as int),
{
    if pos < bytes.len() {
        Some(bytes[pos])
    } else {
        None
    }
}

/// The byte at `pos + offset`, or `None` past the end (an overflowing sum is past the end).
pub fn at(bytes: &[u8], pos: usize, offset: usize) -> (r: Option<u8>)
    ensures
        r == byte_at(bytes@, pos + offset),
{
    if offset < bytes.len() && pos < bytes.len() - offset {
        Some(bytes[pos + offset])
    } else {
        None
    }
}

/// Advances `*pos` past every byte satisfying `pred`, stopping at the first byte that does
/// not, or at the end.
pub fn skip_while(
    bytes: &[u8],
    pos: &mut usize,
    pred: impl Fn(u8) -> bool,
    Ghost(spec_pred): Ghost<spec_fn(u8) -> bool>,
)
    requires
        forall|x: u8| call_requires(pred, (x,)),
        forall|x: u8, r: bool| call_ensures(pred, (x,), r) ==> r == spec_pred(x),
    ensures
        *final(pos) == skip_from(bytes@, *old(pos) as int, spec_pred),
{
    let ghost start = *pos as int;
    let mut p: usize = *pos;
    while p < bytes.len()
        invariant
            forall|x: u8| call_requires(pred, (x,)),
            forall|x: u8, r: bool| call_ensures(pred, (x,), r) ==> r == spec_pred(x),
            skip_from(bytes@, p as int, spec_pred) == skip_from(bytes@, start, spec_pred),
        ensures
            p == skip_from(bytes@, start, spec_pred),
        decreases bytes.len() - p,
    {
        if pred(bytes[p]) {
            p = p + 1;
        } else {
            break;
        }
    }
    *pos = p;
}

/// Whether two byte strings are equal.
pub fn eq_bytes(a: &[u8], b: &[u8]) -> (r: bool)
    ensures
        r == (a@ == b@),
{
    if a.len() != b.len() {
        return false;
    }
    let mut i: usize = 0;
    while i < a.len()
        invariant
            a.len() == b.len(),
            i <= a.len(),
            forall|k: int| 0 <= k < i ==> a@[k] == b@[k],
        decreases a.len() - i,
    {
        if a[i] != b[i] {
            return false;
        }
        i += 1;
    }
    proof {
        assert(a@ =~= b@);
    }
    true
}

/// Whether `bytes` holds `needle` (case-sensitively) starting at `pos`.
pub fn starts_with_at(bytes: &[u8], pos: usize, needle: &[u8]) -> (r: bool)
    ensures
        r == holds_at(bytes@, pos as int, needle@),
{
    let mut i: usize = 0;
    while i < needle.len()
        invariant
            i <= needle.len(),
            forall|k: int| 0 <= k < i ==> byte_at(bytes@, pos + k) == Some(#[trigger] needle@[k]),
        decreases needle.len() - i,
    {
        if at(bytes, pos, i) != Some(needle[i]) {
            return false;
        }
        i += 1;
    }
    true
}

proof fn lemma_holds_at_subrange(h: Seq<u8>, i: int, needle: Seq<u8>)
    requires
        0 <= i,
        i + needle.len() <= h.len(),
    ensures
        holds_at(h, i, needle) == (h.subrange(i, i + needle.len()) == needle),
{
    if holds_at(h, i, needle) {
        assert(h.subrange(i, i + needle.len()) =~= needle);
    }
    if h.subrange(i, i + needle.len()) == needle {
        assert forall|k: int| 0 <= k < needle.len() implies byte_at(h, i + k) == Some(
            #[trigger] needle[k],
        ) by {
            assert(h.subrange(i, i + needle.len())[k] == h[i + k]);
        }
    }
}

/// The first position at or after `from` where `needle` occurs in `haystack`.
pub fn find_subslice(haystack: &[u8], from: usize, needle: &[u8]) -> (r: Option<usize>)
    ensures
        match r {
            Some(i) => find_spec(haystack@, from as int, needle@) == Some(i as int),
            None => find_spec(haystack@, from as int, needle@) is None,
        },
{
    if needle.len() == 0 {
        return Some(if from < haystack.len() { from } else { haystack.len() });
    }
    if from > haystack.len() {
        return None;
    }
    let mut i = from;
    while i <= haystack.len() && needle.len() <= haystack.len() - i
        invariant
            from <= i,
            needle.len() > 0,
            first_match(haystack@, i as int, needle@) == first_match(
                haystack@,
                from as int,
                needle@,
            ),
        decreases haystack.len() - i,
    {
        proof {
            lemma_holds_at_subrange(haystack@, i as int, needle@);
        }
        if starts_with_at(haystack, i, needle) {
            return Some(i);
        }
        i += 1;
    }
    None
}


// ---------------------------------------------------------------------------------------
// "Get an attribute"
// ---------------------------------------------------------------------------------------

/// The outcome of "get an attribute", as values.
pub enum AttrSpec {
    /// An attribute: its lowercased name and value.
    Found(Seq<u8>, Seq<u8>),
    /// No attribute: the position is at `>`.
    Absent,
    /// The bytes ran out partway: the whole prescan aborts.
    Eof,
}

/// Steps 9-12 ("value"), in the quoted case: reading up to the matching `quote`.
pub open spec fn quoted_value(b: Seq<u8>, p: int, quote: u8, name: Seq<u8>, value: Seq<u8>) -> (
    AttrSpec,
    int,
)
    decreases b.len() - p,
{
    if !(0 <= p < b.len()) {
        (AttrSpec::Eof, p)
    } else if b[p] == quote {
        (AttrSpec::Found(name, value), p + 1)
    } else {
        quoted_value(b, p + 1, quote, name, value.push(lower(b[p])))
    }
}

/// Steps 9-12 ("value"), in the unquoted case: reading up to whitespace or `>`.
pub open spec fn unquoted_value(b: Seq<u8>, p: int, name: Seq<u8>, value: Seq<u8>) -> (
    AttrSpec,
    int,
)
    decreases b.len() - p,
{
    if !(0 <= p < b.len()) {
        (AttrSpec::Eof, p)
    } else if ws(b[p]) || b[p] == 0x3E {
        (AttrSpec::Found(name, value), p)
    } else {
        unquoted_value(b, p + 1, name, value.push(lower(b[p])))
    }
}

/// Steps 9-12 ("value"): everything after a confirmed `=`.
pub open spec fn value_spec(b: Seq<u8>, p: int, name: Seq<u8>) -> (AttrSpec, int) {
    let q = skip_from(b, p, ws_pred());
    if !(0 <= q < b.len()) {
        (AttrSpec::Eof, q)
    } else if b[q] == 0x22 || b[q] == 0x27 {
        quoted_value(b, q + 1, b[q], name, Seq::empty())
    } else if b[q] == 0x3E {
        (AttrSpec::Found(name, Seq::empty()), q)
    } else {
        unquoted_value(b, q, name, Seq::empty())
    }
}

/// Steps 6-8 ("spaces"): whitespace followed the name; look for `=`.
pub open spec fn after_name_spec(b: Seq<u8>, p: int, name: Seq<u8>) -> (AttrSpec, int) {
    let q = skip_from(b, p, ws_pred());
    if !(0 <= q < b.len()) {
        (AttrSpec::Eof, q)
    } else if b[q] == 0x3D {
        value_spec(b, q + 1, name)
    } else {
        (AttrSpec::Found(name, Seq::empty()), q)
    }
}

/// Steps 3-5: the name, byte by byte.
pub open spec fn name_spec(b: Seq<u8>, p: int, name: Seq<u8>) -> (AttrSpec, int)
    decreases b.len() - p,
{
    if !(0 <= p < b.len()) {
        (AttrSpec::Eof, p)
    } else if b[p] == 0x3D && name.len() > 0 {
        value_spec(b, p + 1, name)
    } else if ws(b[p]) {
        after_name_spec(b, p, name)
    } else if b[p] == 0x2F || b[p] == 0x3E {
        (AttrSpec::Found(name, Seq::empty()), p)
    } else {
        name_spec(b, p + 1, name.push(lower(b[p])))
    }
}

/// "Get an attribute" from position `p`: the attribute sniffed and the position after it.
/// Names and values are ASCII-lowercased as they are read.
pub open spec fn get_attribute_spec(b: Seq<u8>, p: int) -> (AttrSpec, int) {
    let q = skip_from(b, p, ws_or_slash_pred());
    if !(0 <= q < b.len()) {
        (AttrSpec::Eof, q)
    } else if b[q] == 0x3E {
        (AttrSpec::Absent, q)
    } else {
        name_spec(b, q, Seq::empty())
    }
}

/// The outcome of one call to "get an attribute".
pub enum Attr {
    /// An attribute was sniffed (its value may be empty).
    Found(Vec<u8>, Vec<u8>),
    /// No attribute here: the position is at `>`.
    Absent,
    /// Ran out of bytes partway through a name or value: the whole prescan aborts.
    Eof,
}

/// `a` carries the outcome `s`.
pub open spec fn attr_is(a: Attr, s: AttrSpec) -> bool {
    match a {
        Attr::Found(n, v) => s == AttrSpec::Found(n@, v@),
        Attr::Absent => s is Absent,
        Attr::Eof => s is Eof,
    }
}

/// The position after "get an attribute" is never before where it started, and an
/// attribute that was found was at least one byte long.
pub proof fn lemma_get_attribute_advances(b: Seq<u8>, p: int)
    requires
        0 <= p,
    ensures
        get_attribute_spec(b, p).1 >= p,
        get_attribute_spec(b, p).0 is Found ==> get_attribute_spec(b, p).1 > p,
        p <= b.len() ==> get_attribute_spec(b, p).1 <= b.len(),
        p > b.len() ==> get_attribute_spec(b, p).1 == p,
{
    let q = skip_from(b, p, ws_or_slash_pred());
    lemma_skip_from_bounds(b, p, ws_or_slash_pred());
    if 0 <= q < b.len() && b[q] != 0x3E {
        assert(!ws_or_slash(b[q]));
        lemma_name_advances(b, q, Seq::empty());
    }
}

proof fn lemma_quoted_advances(b: Seq<u8>, p: int, quote: u8, name: Seq<u8>, value: Seq<u8>)
    requires
        0 <= p,
    ensures
        quoted_value(b, p, quote, name, value).1 >= p,
        p <= b.len() ==> quoted_value(b, p, quote, name, value).1 <= b.len(),
        p > b.len() ==> quoted_value(b, p, quote, name, value).1 == p,
    decreases b.len() - p,
{
    if 0 <= p < b.len() && b[p] != quote {
        lemma_quoted_advances(b, p + 1, quote, name, value.push(lower(b[p])));
    }
}

proof fn lemma_unquoted_advances(b: Seq<u8>, p: int, name: Seq<u8>, value: Seq<u8>)
    requires
        0 <= p,
    ensures
        unquoted_value(b, p, name, value).1 >= p,
        p <= b.len() ==> unquoted_value(b, p, name, value).1 <= b.len(),
        p > b.len() ==> unquoted_value(b, p, name, value).1 == p,
    decreases b.len() - p,
{
    if 0 <= p < b.len() && !(ws(b[p]) || b[p] == 0x3E) {
        lemma_unquoted_advances(b, p + 1, name, value.push(lower(b[p])));
    }
}

proof fn lemma_value_advances(b: Seq<u8>, p: int, name: Seq<u8>)
    requires
        0 <= p,
    ensures
        value_spec(b, p, name).1 >= p,
        p <= b.len() ==> value_spec(b, p, name).1 <= b.len(),
        p > b.len() ==> value_spec(b, p, name).1 == p,
{
    let q = skip_from(b, p, ws_pred());
    lemma_skip_from_bounds(b, p, ws_pred());
    if 0 <= q < b.len() {
        if b[q] == 0x22 || b[q] == 0x27 {
            lemma_quoted_advances(b, q + 1, b[q], name, Seq::empty());
        } else if b[q] != 0x3E {
            lemma_unquoted_advances(b, q, name, Seq::empty());
        }
    }
}

proof fn lemma_name_advances(b: Seq<u8>, p: int, name: Seq<u8>)
    requires
        0 <= p,
        0 <= p < b.len() && name.len() == 0 ==> !ws_or_slash(b[p]) && b[p] != 0x3E,
    ensures
        name_spec(b, p, name).1 >= p,
        name_spec(b, p, name).0 is Found && name.len() == 0 ==> name_spec(b, p, name).1 > p,
        p <= b.len() ==> name_spec(b, p, name).1 <= b.len(),
        p > b.len() ==> name_spec(b, p, name).1 == p,
    decreases b.len() - p,
{
    if 0 <= p < b.len() {
        if b[p] == 0x3D && name.len() > 0 {
            lemma_value_advances(b, p + 1, name);
        } else if ws(b[p]) {
            let q = skip_from(b, p, ws_pred());
            lemma_skip_from_bounds(b, p, ws_pred());
            if 0 <= q < b.len() && b[q] == 0x3D {
                lemma_value_advances(b, q + 1, name);
            }
        } else if b[p] == 0x2F || b[p] == 0x3E {
        } else {
            lemma_name_advances(b, p + 1, name.push(lower(b[p])));
        }
    }
}

/// Steps 9-12 ("value"): everything after a confirmed `=`.
fn read_attribute_value(bytes: &[u8], pos: &mut usize, name: Vec<u8>) -> (a: Attr)
    ensures
        attr_is(a, value_spec(bytes@, *old(pos) as int, name@).0),
        *final(pos) == value_spec(bytes@, *old(pos) as int, name@).1,
{
    let ghost p0 = *pos as int;
    proof {
        assert(bytes@.len() == bytes.len());
    }
    skip_while(bytes, pos, is_ascii_ws, Ghost(ws_pred()));
    let mut p: usize = *pos;
    let ghost q = p as int;
    let first = match byte(bytes, p) {
        None => {
            return Attr::Eof;
        },
        Some(b) => b,
    };
    if first == 0x3E {
        return Attr::Found(name, Vec::new());
    }
    let quoted = first == 0x22 || first == 0x27;
    if quoted {
        p = p + 1;
    }
    let mut value: Vec<u8> = Vec::new();
    let mut found = false;
    loop
        invariant_except_break
            !found,
            quoted ==> quoted_value(bytes@, p as int, first, name@, value@) == value_spec(
                bytes@,
                p0,
                name@,
            ),
            !quoted ==> unquoted_value(bytes@, p as int, name@, value@) == value_spec(
                bytes@,
                p0,
                name@,
            ),
        invariant
            p <= bytes.len(),
        ensures
            p <= bytes.len(),
            found ==> value_spec(bytes@, p0, name@) == (AttrSpec::Found(name@, value@), p as int),
            !found ==> value_spec(bytes@, p0, name@) == (AttrSpec::Eof, p as int),
        decreases bytes.len() - p,
    {
        if p >= bytes.len() {
            break;
        }
        let b = bytes[p];
        if quoted && b == first {
            assert(quoted_value(bytes@, p as int, first, name@, value@) == (
                AttrSpec::Found(name@, value@),
                p + 1,
            ));
            p = p + 1;
            found = true;
            break;
        }
        if !quoted && (is_ascii_ws(b) || b == 0x3E) {
            found = true;
            break;
        }
        value.push(ascii_lower(b));
        p = p + 1;
    }
    *pos = p;
    if found {
        Attr::Found(name, value)
    } else {
        Attr::Eof
    }
}

/// Steps 6-8 ("spaces"): whitespace was seen right after the name ended; look for `=`.
fn after_name_whitespace(bytes: &[u8], pos: &mut usize, name: Vec<u8>) -> (a: Attr)
    ensures
        attr_is(a, after_name_spec(bytes@, *old(pos) as int, name@).0),
        *final(pos) == after_name_spec(bytes@, *old(pos) as int, name@).1,
{
    proof {
        assert(bytes@.len() == bytes.len());
    }
    skip_while(bytes, pos, is_ascii_ws, Ghost(ws_pred()));
    match byte(bytes, *pos) {
        None => Attr::Eof,
        Some(b) => {
            if b == 0x3D {
                *pos = *pos + 1;
                read_attribute_value(bytes, pos, name)
            } else {
                Attr::Found(name, Vec::new())
            }
        },
    }
}

/// "Get an attribute": sniffs one attribute starting at `*pos`, leaving `*pos` at the byte
/// that ended it (typically unconsumed: `/`, `>`, or the start of the next attribute).
fn get_attribute(bytes: &[u8], pos: &mut usize) -> (a: Attr)
    ensures
        attr_is(a, get_attribute_spec(bytes@, *old(pos) as int).0),
        *final(pos) == get_attribute_spec(bytes@, *old(pos) as int).1,
{
    let ghost p0 = *pos as int;
    skip_while(bytes, pos, is_ws_or_slash, Ghost(ws_or_slash_pred()));
    let mut p: usize = *pos;
    let ghost q = p as int;
    match byte(bytes, p) {
        None => {
            return Attr::Eof;
        },
        Some(b) => {
            if b == 0x3E {
                return Attr::Absent;
            }
        },
    }
    let mut name: Vec<u8> = Vec::new();
    // 0: out of bytes; 1: `=` after a non-empty name; 2: whitespace; 3: `/` or `>`.
    let mut stop: u8 = 0;
    loop
        invariant_except_break
            stop == 0,
        invariant
            p <= bytes.len(),
            name_spec(bytes@, p as int, name@) == get_attribute_spec(bytes@, p0),
        ensures
            p <= bytes.len(),
            name_spec(bytes@, p as int, name@) == get_attribute_spec(bytes@, p0),
            stop == 0 ==> p == bytes.len(),
            stop == 1 ==> p < bytes.len() && bytes@[p as int] == 0x3D && name@.len() > 0,
            stop == 2 ==> p < bytes.len() && ws(bytes@[p as int]) && !(bytes@[p as int] == 0x3D
                && name@.len() > 0),
            stop == 3 ==> p < bytes.len() && (bytes@[p as int] == 0x2F || bytes@[p as int]
                == 0x3E) && !ws(bytes@[p as int]) && !(bytes@[p as int] == 0x3D && name@.len()
                > 0),
            stop <= 3,
        decreases bytes.len() - p,
    {
        if p >= bytes.len() {
            break;
        }
        let b = bytes[p];
        if b == 0x3D && name.len() > 0 {
            stop = 1;
            break;
        }
        if is_ascii_ws(b) {
            stop = 2;
            break;
        }
        if b == 0x2F || b == 0x3E {
            stop = 3;
            break;
        }
        name.push(ascii_lower(b));
        p = p + 1;
    }
    *pos = p;
    if stop == 0 {
        Attr::Eof
    } else if stop == 1 {
        *pos = p + 1;
        read_attribute_value(bytes, pos, name)
    } else if stop == 2 {
        after_name_whitespace(bytes, pos, name)
    } else {
        Attr::Found(name, Vec::new())
    }
}

// ---------------------------------------------------------------------------------------
// "Extract a character encoding from a meta element"
// ---------------------------------------------------------------------------------------

/// The word `charset`, in ASCII.
pub open spec fn charset_word() -> Seq<u8> {
    seq![0x63u8, 0x68u8, 0x61u8, 0x72u8, 0x73u8, 0x65u8, 0x74u8]
}

/// The word `content`, in ASCII.
pub open spec fn content_word() -> Seq<u8> {
    seq![0x63u8, 0x6Fu8, 0x6Eu8, 0x74u8, 0x65u8, 0x6Eu8, 0x74u8]
}

/// The word `http-equiv`, in ASCII.
pub open spec fn http_equiv_word() -> Seq<u8> {
    seq![0x68u8, 0x74u8, 0x74u8, 0x70u8, 0x2Du8, 0x65u8, 0x71u8, 0x75u8, 0x69u8, 0x76u8]
}

/// The word `content-type`, in ASCII.
pub open spec fn content_type_word() -> Seq<u8> {
    seq![0x63u8, 0x6Fu8, 0x6Eu8, 0x74u8, 0x65u8, 0x6Eu8, 0x74u8, 0x2Du8, 0x74u8, 0x79u8, 0x70u8, 0x65u8]
}

/// Bytes other than `quote`, as a predicate value.
pub open spec fn not_quote_pred(quote: u8) -> spec_fn(u8) -> bool {
    |b: u8| b != quote
}

/// Bytes that continue an unquoted label: neither whitespace nor `;`.
pub open spec fn label_byte_pred() -> spec_fn(u8) -> bool {
    |b: u8| !(ws(b) || b == 0x3B)
}

/// The position just past the `=` of the first `charset` (at or after `from`) that is
/// followed, after optional whitespace, by `=`.
pub open spec fn charset_value_start(c: Seq<u8>, from: int) -> Option<int>
    decreases c.len() - from,
{
    match find_spec(c, from, charset_word()) {
        None => None,
        Some(f) => {
            let p = skip_from(c, f + 7, ws_pred());
            if byte_at(c, p) == Some(0x3Du8) {
                Some(p + 1)
            } else if from < p <= c.len() {
                charset_value_start(c, p)
            } else {
                None
            }
        },
    }
}

/// The encoding label that a (lowercased) `content` attribute value names after its
/// `charset=`: quoted up to the matching quote (an unmatched quote names nothing), or
/// unquoted up to whitespace, `;` or the end.
pub open spec fn meta_content_label(c: Seq<u8>) -> Option<Seq<u8>> {
    match charset_value_start(c, 0) {
        None => None,
        Some(v) => {
            let p = skip_from(c, v, ws_pred());
            if !(0 <= p < c.len()) {
                None
            } else if c[p] == 0x22 || c[p] == 0x27 {
                let e = skip_from(c, p + 1, not_quote_pred(c[p]));
                if e < c.len() {
                    Some(c.subrange(p + 1, e))
                } else {
                    None
                }
            } else {
                Some(c.subrange(p, skip_from(c, p, label_byte_pred())))
            }
        },
    }
}

/// The encoding that a `content` attribute value's `charset=` names, by its canonical name.
pub open spec fn meta_content_encoding(c: Seq<u8>) -> Option<Seq<char>> {
    match meta_content_label(c) {
        None => None,
        Some(label) => encoding_for_label(label),
    }
}

proof fn lemma_find_spec_bounds(h: Seq<u8>, from: int, needle: Seq<u8>)
    requires
        needle.len() > 0,
    ensures
        find_spec(h, from, needle) matches Some(j) ==> from <= j && j + needle.len() <= h.len()
            && h.subrange(j, j + needle.len()) == needle,
{
    lemma_first_match_bounds(h, from, needle);
}

fn word_charset() -> (r: Vec<u8>)
    ensures
        r@ == charset_word(),
{
    let r = vec![0x63u8, 0x68u8, 0x61u8, 0x72u8, 0x73u8, 0x65u8, 0x74u8];
    proof {
        assert(r@ =~= charset_word());
    }
    r
}

fn word_content() -> (r: Vec<u8>)
    ensures
        r@ == content_word(),
{
    let r = vec![0x63u8, 0x6Fu8, 0x6Eu8, 0x74u8, 0x65u8, 0x6Eu8, 0x74u8];
    proof {
        assert(r@ =~= content_word());
    }
    r
}

fn word_http_equiv() -> (r: Vec<u8>)
    ensures
        r@ == http_equiv_word(),
{
    let r = vec![0x68u8, 0x74u8, 0x74u8, 0x70u8, 0x2Du8, 0x65u8, 0x71u8, 0x75u8, 0x69u8, 0x76u8];
    proof {
        assert(r@ =~= http_equiv_word());
    }
    r
}

fn word_content_type() -> (r: Vec<u8>)
    ensures
        r@ == content_type_word(),
{
    let r = vec![0x63u8, 0x6Fu8, 0x6Eu8, 0x74u8, 0x65u8, 0x6Eu8, 0x74u8, 0x2Du8, 0x74u8, 0x79u8, 0x70u8, 0x65u8];
    proof {
        assert(r@ =~= content_type_word());
    }
    r
}

/// Whether `b` continues an unquoted encoding label.
fn is_label_byte(b: u8) -> (r: bool)
    ensures
        r == !(ws(b) || b == 0x3B),
{
    !(is_ascii_ws(b) || b == 0x3B)
}

/// "Extract a character encoding from a meta element", run on an already-lowercased
/// `content` value: the encoding named after `charset=`, by its canonical name.
pub fn extract_encoding_from_meta_content(content: &[u8]) -> (r: Option<String>)
    ensures
        match r {
            Some(name) => meta_content_encoding(content@) == Some(name@),
            None => meta_content_encoding(content@) is None,
        },
        r matches Some(name) ==> names_itself(name@),
{
    let charset = word_charset();
    let mut search_from: usize = 0;
    let mut value_start: usize = 0;
    let mut found = false;
    proof {
        assert(content@.len() == content.len());
    }
    while search_from <= content.len()
        invariant_except_break
            !found,
        invariant
            charset@ == charset_word(),
            search_from <= content.len() || found,
            charset_value_start(content@, search_from as int) == charset_value_start(content@, 0),
        ensures
            found ==> charset_value_start(content@, 0) == Some(value_start as int),
            !found ==> charset_value_start(content@, 0) is None,
        decreases content.len() + 1 - search_from,
    {
        proof {
            lemma_find_spec_bounds(content@, search_from as int, charset_word());
        }
        let f = match find_subslice(content, search_from, charset.as_slice()) {
            None => {
                break;
            },
            Some(f) => f,
        };
        let mut p: usize = f + 7;
        proof {
            lemma_skip_from_bounds(content@, p as int, ws_pred());
        }
        skip_while(content, &mut p, is_ascii_ws, Ghost(ws_pred()));
        if byte(content, p) == Some(0x3Du8) {
            value_start = p + 1;
            found = true;
            break;
        }
        search_from = p;
    }
    if !found {
        return None;
    }
    let mut p: usize = value_start;
    proof {
        lemma_skip_from_bounds(content@, p as int, ws_pred());
    }
    skip_while(content, &mut p, is_ascii_ws, Ghost(ws_pred()));
    let first = match byte(content, p) {
        None => {
            return None;
        },
        Some(b) => b,
    };
    let label: &[u8] = if first == 0x22 || first == 0x27 {
        let start = p + 1;
        let mut end = start;
        proof {
            lemma_skip_from_bounds(content@, end as int, not_quote_pred(first));
        }
        skip_while(
            content,
            &mut end,
            (move |b: u8| -> (r: bool)
                ensures
                    r == (b != first),
                { b != first }),
            Ghost(not_quote_pred(first)),
        );
        if end >= content.len() {
            return None;
        }
        vstd::slice::slice_subrange(content, start, end)
    } else {
        let start = p;
        let mut end = start;
        proof {
            lemma_skip_from_bounds(content@, end as int, label_byte_pred());
        }
        skip_while(
            content,
            &mut end,
            is_label_byte,
            Ghost(label_byte_pred()),
        );
        vstd::slice::slice_subrange(content, start, end)
    };
    encoding_name_for_label(label)
}

// ---------------------------------------------------------------------------------------
// The `meta` attribute loop
// ---------------------------------------------------------------------------------------

/// What the `meta` attribute loop decided, as values.
pub enum TagSpec {
    /// No encoding from this tag; the main scan resumes at this position.
    Continue(int),
    /// The tag named this encoding.
    Found(Seq<char>),
    /// The bytes ran out partway through the tag: the whole prescan aborts.
    Eof,
}

/// "If charset is a UTF-16 encoding, then set charset to UTF-8. If charset is
/// x-user-defined, then set charset to windows-1252."
pub open spec fn normalize_spec(e: Seq<char>) -> Seq<char> {
    if e == "UTF-16BE"@ || e == "UTF-16LE"@ {
        "UTF-8"@
    } else if e == "x-user-defined"@ {
        "windows-1252"@
    } else {
        e
    }
}

/// The decision at the end of a `meta` tag's attributes (`p` is where the loop stopped):
/// no pragma need was set, or the pragma is needed and missing, or no encoding resolved:
/// continue; otherwise the (normalized) encoding.
pub open spec fn meta_decide(
    p: int,
    got_pragma: bool,
    need_pragma: Option<bool>,
    charset: Option<Option<Seq<char>>>,
) -> TagSpec {
    if need_pragma is None || (need_pragma == Some(true) && !got_pragma) {
        TagSpec::Continue(p)
    } else {
        match charset {
            Some(Some(e)) => TagSpec::Found(normalize_spec(e)),
            _ => TagSpec::Continue(p),
        }
    }
}

/// The `meta` attribute loop from position `p`, with the loop's state: the names seen so
/// far (only the first occurrence of a name counts), whether an `http-equiv` of
/// `content-type` was seen, whether a pragma is needed (`None` = not yet decided), and the
/// charset (`None` = null, `Some(None)` = failure, `Some(Some(e))` = an encoding).
pub open spec fn meta_loop(
    b: Seq<u8>,
    p: int,
    seen: Seq<Seq<u8>>,
    got_pragma: bool,
    need_pragma: Option<bool>,
    charset: Option<Option<Seq<char>>>,
) -> TagSpec
    decreases b.len() - p,
{
    let (a, q) = get_attribute_spec(b, p);
    match a {
        AttrSpec::Eof => TagSpec::Eof,
        AttrSpec::Absent => meta_decide(q, got_pragma, need_pragma, charset),
        AttrSpec::Found(name, value) => {
            if !(p < q <= b.len()) {
                TagSpec::Eof
            } else if seen.contains(name) {
                meta_loop(b, q, seen, got_pragma, need_pragma, charset)
            } else if name == http_equiv_word() {
                meta_loop(
                    b,
                    q,
                    seen.push(name),
                    got_pragma || value == content_type_word(),
                    need_pragma,
                    charset,
                )
            } else if name == content_word() {
                if charset is None && meta_content_encoding(value) is Some {
                    meta_loop(
                        b,
                        q,
                        seen.push(name),
                        got_pragma,
                        Some(true),
                        Some(meta_content_encoding(value)),
                    )
                } else {
                    meta_loop(b, q, seen.push(name), got_pragma, need_pragma, charset)
                }
            } else if name == charset_word() {
                meta_loop(
                    b,
                    q,
                    seen.push(name),
                    got_pragma,
                    Some(false),
                    Some(encoding_for_label(value)),
                )
            } else {
                meta_loop(b, q, seen.push(name), got_pragma, need_pragma, charset)
            }
        },
    }
}

/// The `meta` attribute loop of a tag whose attributes start at `p`.
pub open spec fn scan_meta_spec(b: Seq<u8>, p: int) -> TagSpec {
    meta_loop(b, p, Seq::empty(), false, None, None)
}

/// What scanning one `<meta ...>` tag's attributes decided.
pub enum TagOutcome {
    /// No encoding from this tag; resume the main scan from this position.
    Continue(usize),
    /// The tag named this encoding (by its canonical name).
    Found(String),
    /// Ran out of bytes partway through the tag: abort the whole prescan.
    Eof,
}

/// `t` carries the decision `s`.
pub open spec fn tag_is(t: TagOutcome, s: TagSpec) -> bool {
    match t {
        TagOutcome::Continue(p) => s == TagSpec::Continue(p as int),
        TagOutcome::Found(e) => s == TagSpec::Found(e@),
        TagOutcome::Eof => s is Eof,
    }
}

/// The charset state's value.
pub open spec fn charset_view(c: Option<Option<String>>) -> Option<Option<Seq<char>>> {
    match c {
        None => None,
        Some(None) => Some(None),
        Some(Some(e)) => Some(Some(e@)),
    }
}

/// The byte strings' values, in order.
pub open spec fn byte_views(v: Seq<Vec<u8>>) -> Seq<Seq<u8>> {
    v.map_values(|x: Vec<u8>| x@)
}

/// Whether `name` is among `seen`.
fn contains_name(seen: &Vec<Vec<u8>>, name: &Vec<u8>) -> (r: bool)
    ensures
        r == byte_views(seen@).contains(name@),
{
    let mut i: usize = 0;
    while i < seen.len()
        invariant
            i <= seen.len(),
            forall|k: int| 0 <= k < i ==> seen@[k]@ != name@,
        decreases seen.len() - i,
    {
        if eq_bytes(seen[i].as_slice(), name.as_slice()) {
            proof {
                assert(byte_views(seen@)[i as int] == name@);
            }
            return true;
        }
        i += 1;
    }
    proof {
        if byte_views(seen@).contains(name@) {
            let k = choose|k: int| 0 <= k < byte_views(seen@).len() && byte_views(seen@)[k] == name@;
            assert(seen@[k]@ == name@);
        }
    }
    false
}

/// Applies the prescan's encoding substitutions (UTF-16 to UTF-8, x-user-defined to
/// windows-1252) to the encoding a `meta` tag resolved.
pub fn normalize_prescanned_encoding(encoding: String) -> (r: String)
    ensures
        r@ == normalize_spec(encoding@),
        names_itself(encoding@) ==> names_itself(r@),
{
    if same_str(encoding.as_str(), "UTF-16BE") || same_str(encoding.as_str(), "UTF-16LE") {
        utf8_name()
    } else if same_str(encoding.as_str(), "x-user-defined") {
        windows_1252_name()
    } else {
        encoding
    }
}

/// The `meta`-tag body of the prescan: gets the tag's attributes one by one from `pos`
/// (just past `<meta` and a tag-space byte) and decides whether they name an encoding.
pub fn scan_meta_attributes(bytes: &[u8], pos: usize) -> (t: TagOutcome)
    ensures
        tag_is(t, scan_meta_spec(bytes@, pos as int)),
        t matches TagOutcome::Found(name) ==> names_itself(name@),
{
    let http_equiv = word_http_equiv();
    let content_type = word_content_type();
    let content = word_content();
    let charset_name = word_charset();
    let mut p = pos;
    let mut seen_names: Vec<Vec<u8>> = Vec::new();
    let mut got_pragma = false;
    let mut need_pragma: Option<bool> = None;
    let mut charset: Option<Option<String>> = None;
    proof {
        assert(byte_views(seen_names@) =~= Seq::<Seq<u8>>::empty());
    }
    loop
        invariant
            http_equiv@ == http_equiv_word(),
            content_type@ == content_type_word(),
            content@ == content_word(),
            charset_name@ == charset_word(),
            meta_loop(
                bytes@,
                p as int,
                byte_views(seen_names@),
                got_pragma,
                need_pragma,
                charset_view(charset),
            ) == scan_meta_spec(bytes@, pos as int),
            charset matches Some(Some(e)) ==> names_itself(e@),
        decreases bytes.len() - p,
    {
        let ghost cs = charset_view(charset);
        let ghost p_before = p as int;
        proof {
            lemma_get_attribute_advances(bytes@, p as int);
            assert(bytes@.len() == bytes.len());
        }
        let (name, value) = match get_attribute(bytes, &mut p) {
            Attr::Eof => {
                return TagOutcome::Eof;
            },
            Attr::Absent => {
                let ghost decided = meta_decide(p as int, got_pragma, need_pragma, cs);
                let done = match need_pragma {
                    None => true,
                    Some(need) => need && !got_pragma,
                };
                if done {
                    return TagOutcome::Continue(p);
                }
                return match charset {
                    Some(Some(enc)) => TagOutcome::Found(normalize_prescanned_encoding(enc)),
                    _ => TagOutcome::Continue(p),
                };
            },
            Attr::Found(name, value) => (name, value),
        };
        if contains_name(&seen_names, &name) {
            continue;
        }
        let ghost seen_before = byte_views(seen_names@);
        seen_names.push(vstd::slice::slice_to_vec(name.as_slice()));
        proof {
            assert(byte_views(seen_names@) =~= seen_before.push(name@));
        }
        if eq_bytes(name.as_slice(), http_equiv.as_slice()) {
            if eq_bytes(value.as_slice(), content_type.as_slice()) {
                got_pragma = true;
            }
        } else if eq_bytes(name.as_slice(), content.as_slice()) {
            if charset.is_none() {
                match extract_encoding_from_meta_content(value.as_slice()) {
                    Some(enc) => {
                        charset = Some(Some(enc));
                        need_pragma = Some(true);
                    },
                    None => {},
                }
            }
        } else if eq_bytes(name.as_slice(), charset_name.as_slice()) {
            charset = Some(encoding_name_for_label(value.as_slice()));
            need_pragma = Some(false);
        }
    }
}

// ---------------------------------------------------------------------------------------
// Tags, comments and the main loop
// ---------------------------------------------------------------------------------------

/// An ASCII letter.
pub open spec fn alpha(b: u8) -> bool {
    (0x41 <= b <= 0x5A) || (0x61 <= b <= 0x7A)
}

/// `b` at `p` is the ASCII letter `upper` or `upper`'s lowercase form.
pub open spec fn letter_at(b: Seq<u8>, p: int, upper: u8) -> bool {
    byte_at(b, p) == Some(upper) || byte_at(b, p) == Some((upper + 0x20) as u8)
}

/// `<meta` (case-insensitive) at `pos`, followed by whitespace or `/`: the position just
/// past that byte, where the attributes start. (`<meta>` is not a `meta` tag here.)
pub open spec fn meta_start_spec(b: Seq<u8>, pos: int) -> Option<int> {
    if byte_at(b, pos) == Some(0x3Cu8) && letter_at(b, pos + 1, 0x4D) && letter_at(b, pos + 2, 0x45)
        && letter_at(b, pos + 3, 0x54) && letter_at(b, pos + 4, 0x41) && pos + 5 < b.len()
        && ws_or_slash(b[pos + 5]) {
        Some(pos + 6)
    } else {
        None
    }
}

/// `<`, optionally `/`, then an ASCII letter at `pos`: the position of that letter.
pub open spec fn generic_start_spec(b: Seq<u8>, pos: int) -> Option<int> {
    if byte_at(b, pos) != Some(0x3Cu8) {
        None
    } else {
        let p = if byte_at(b, pos + 1) == Some(0x2Fu8) {
            pos + 2
        } else {
            pos + 1
        };
        if 0 <= p < b.len() && alpha(b[p]) {
            Some(p)
        } else {
            None
        }
    }
}

/// Bytes that continue a tag name: neither whitespace nor `>`.
pub open spec fn tag_name_byte_pred() -> spec_fn(u8) -> bool {
    |b: u8| !(ws(b) || b == 0x3E)
}

/// Bytes other than `>`.
pub open spec fn not_gt_pred() -> spec_fn(u8) -> bool {
    |b: u8| b != 0x3E
}

/// Getting and discarding attributes from `p` until one is absent (`Some` of where that
/// happened) or the bytes run out (`None`).
pub open spec fn skip_attributes_spec(b: Seq<u8>, p: int) -> Option<int>
    decreases b.len() - p,
{
    let (a, q) = get_attribute_spec(b, p);
    match a {
        AttrSpec::Eof => None,
        AttrSpec::Absent => Some(q),
        AttrSpec::Found(_, _) => {
            if p < q <= b.len() {
                skip_attributes_spec(b, q)
            } else {
                None
            }
        },
    }
}

/// Skipping a whole non-`meta` tag at `pos`: past its name to whitespace or `>`, then its
/// attributes; the position of the byte that ended the last attribute (normally `>`).
pub open spec fn skip_generic_spec(b: Seq<u8>, pos: int) -> Option<int> {
    match generic_start_spec(b, pos) {
        None => None,
        Some(n) => {
            let p = skip_from(b, n, tag_name_byte_pred());
            if p < b.len() {
                skip_attributes_spec(b, p)
            } else {
                None
            }
        },
    }
}

/// The end of a comment whose `<!--` is at `pos`: the first `>` at or after `pos + 4` that
/// is preceded by `--`.
pub open spec fn comment_end_from(b: Seq<u8>, p: int) -> Option<int>
    decreases b.len() - p,
{
    if !(0 <= p < b.len()) {
        None
    } else if b[p] == 0x3E && byte_at(b, p - 1) == Some(0x2Du8) && byte_at(b, p - 2) == Some(
        0x2Du8,
    ) {
        Some(p)
    } else {
        comment_end_from(b, p + 1)
    }
}

/// `<!`, `</` or `<?` at `pos`.
pub open spec fn bang_slash_or_question_spec(b: Seq<u8>, pos: int) -> bool {
    byte_at(b, pos) == Some(0x3Cu8) && (byte_at(b, pos + 1) == Some(0x21u8) || byte_at(b, pos + 1)
        == Some(0x2Fu8) || byte_at(b, pos + 1) == Some(0x3Fu8))
}

/// The first `>` at or after `pos + 2`.
pub open spec fn gt_after_spec(b: Seq<u8>, pos: int) -> Option<int> {
    let p = skip_from(b, pos + 2, not_gt_pred());
    if p < b.len() {
        Some(p)
    } else {
        None
    }
}

/// One step of the main loop at `pos`.
pub enum StepSpec {
    /// The structure at `pos` ended at this position; the scan resumes one byte later.
    Next(int),
    /// The scan ends with this result.
    Stop(Option<Seq<char>>),
}

/// The `<!--` that opens a comment, in ASCII.
pub open spec fn comment_open() -> Seq<u8> {
    seq![0x3Cu8, 0x21u8, 0x2Du8, 0x2Du8]
}

/// What the main loop does at `pos` of the window `w`.
pub open spec fn prescan_step(w: Seq<u8>, pos: int) -> StepSpec {
    if holds_at(w, pos, comment_open()) {
        match comment_end_from(w, pos + 4) {
            None => StepSpec::Stop(None),
            Some(q) => StepSpec::Next(q),
        }
    } else if meta_start_spec(w, pos) is Some {
        match scan_meta_spec(w, meta_start_spec(w, pos)->0) {
            TagSpec::Found(e) => StepSpec::Stop(Some(e)),
            TagSpec::Continue(q) => StepSpec::Next(q),
            TagSpec::Eof => StepSpec::Stop(None),
        }
    } else if generic_start_spec(w, pos) is Some {
        match skip_generic_spec(w, pos) {
            None => StepSpec::Stop(None),
            Some(q) => StepSpec::Next(q),
        }
    } else if bang_slash_or_question_spec(w, pos) {
        match gt_after_spec(w, pos) {
            None => StepSpec::Stop(None),
            Some(q) => StepSpec::Next(q),
        }
    } else {
        StepSpec::Next(pos)
    }
}

/// The main loop from `pos`: each step ends at a position at or after `pos`, and the scan
/// resumes one byte after it.
pub open spec fn prescan_from(w: Seq<u8>, pos: int) -> Option<Seq<char>>
    decreases w.len() - pos,
{
    if !(0 <= pos < w.len()) {
        None
    } else {
        match prescan_step(w, pos) {
            StepSpec::Stop(r) => r,
            StepSpec::Next(q) => {
                if pos <= q && q + 1 < w.len() {
                    prescan_from(w, q + 1)
                } else {
                    None
                }
            },
        }
    }
}

/// The number of bytes the prescan looks at.
pub const PRESCAN_LIMIT_BYTES: usize = 1024;

/// The prescan of a document's bytes: the main loop over the first 1024 of them.
pub open spec fn prescan_spec(bytes: Seq<u8>) -> Option<Seq<char>> {
    let limit = if bytes.len() < 1024 {
        bytes.len() as int
    } else {
        1024
    };
    prescan_from(bytes.take(limit), 0)
}

/// Whatever follows the first 1024 bytes of a document never changes what the prescan
/// finds: the scan only ever looks at that window.
pub proof fn lemma_prescan_ignores_bytes_past_window(window: Seq<u8>, tail: Seq<u8>)
    requires
        window.len() >= 1024,
    ensures
        prescan_spec(window + tail) == prescan_spec(window),
{
    assert((window + tail).take(1024) =~= window.take(1024));
}

/// `<meta` (case-insensitive) followed by whitespace or `/` at `pos`: the position just
/// past that byte, ready for the attribute loop.
pub fn match_meta_start(bytes: &[u8], pos: usize) -> (r: Option<usize>)
    ensures
        match r {
            Some(p) => meta_start_spec(bytes@, pos as int) == Some(p as int),
            None => meta_start_spec(bytes@, pos as int) is None,
        },
{
    proof {
        assert(bytes@.len() == bytes.len());
    }
    if at(bytes, pos, 0) != Some(0x3Cu8) {
        return None;
    }
    let m = at(bytes, pos, 1);
    if !(m == Some(0x4Du8) || m == Some(0x6Du8)) {
        return None;
    }
    let e = at(bytes, pos, 2);
    if !(e == Some(0x45u8) || e == Some(0x65u8)) {
        return None;
    }
    let t = at(bytes, pos, 3);
    if !(t == Some(0x54u8) || t == Some(0x74u8)) {
        return None;
    }
    let a = at(bytes, pos, 4);
    if !(a == Some(0x41u8) || a == Some(0x61u8)) {
        return None;
    }
    match at(bytes, pos, 5) {
        None => None,
        Some(tag_space) => {
            if is_ws_or_slash(tag_space) {
                Some(pos + 6)
            } else {
                None
            }
        },
    }
}

/// `<`, optionally `/`, then an ASCII letter at `pos` (an opening or closing tag that is
/// not specifically recognized): the position of that first name byte.
pub fn generic_tag_name_start(bytes: &[u8], pos: usize) -> (r: Option<usize>)
    ensures
        match r {
            Some(p) => generic_start_spec(bytes@, pos as int) == Some(p as int),
            None => generic_start_spec(bytes@, pos as int) is None,
        },
{
    proof {
        assert(bytes@.len() == bytes.len());
    }
    if at(bytes, pos, 0) != Some(0x3Cu8) {
        return None;
    }
    let mut p = pos + 1;
    if at(bytes, p, 0) == Some(0x2Fu8) {
        p = p + 1;
    }
    match byte(bytes, p) {
        Some(b) => {
            if (0x41 <= b && b <= 0x5A) || (0x61 <= b && b <= 0x7A) {
                Some(p)
            } else {
                None
            }
        },
        None => None,
    }
}

/// Whether `b` continues a tag name.
fn is_tag_name_byte(b: u8) -> (r: bool)
    ensures
        r == !(ws(b) || b == 0x3E),
{
    !(is_ascii_ws(b) || b == 0x3E)
}

/// Skips an entire non-`meta` tag at `pos`: its name, then its attributes, discarded.
/// Returns the position of the byte that ended the last attribute (normally `>`).
pub fn skip_generic_tag(bytes: &[u8], pos: usize) -> (r: Option<usize>)
    ensures
        match r {
            Some(p) => skip_generic_spec(bytes@, pos as int) == Some(p as int),
            None => skip_generic_spec(bytes@, pos as int) is None,
        },
{
    let name_start = match generic_tag_name_start(bytes, pos) {
        None => {
            return None;
        },
        Some(n) => n,
    };
    let mut p = name_start;
    skip_while(bytes, &mut p, is_tag_name_byte, Ghost(tag_name_byte_pred()));
    if p >= bytes.len() {
        return None;
    }
    loop
        invariant
            p <= bytes.len(),
            skip_attributes_spec(bytes@, p as int) == skip_generic_spec(bytes@, pos as int),
        decreases bytes.len() - p,
    {
        proof {
            lemma_get_attribute_advances(bytes@, p as int);
        }
        match get_attribute(bytes, &mut p) {
            Attr::Eof => {
                return None;
            },
            Attr::Absent => {
                return Some(p);
            },
            Attr::Found(_, _) => {},
        }
    }
}

/// The end of a comment whose `<!--` starts at `pos`: the position of the `>` of the first
/// `-->`, or `None` if the bytes end first.
pub fn skip_comment(bytes: &[u8], pos: usize) -> (r: Option<usize>)
    ensures
        match r {
            Some(p) => comment_end_from(bytes@, pos + 4) == Some(p as int),
            None => comment_end_from(bytes@, pos + 4) is None,
        },
{
    if pos >= bytes.len() || bytes.len() - pos < 4 {
        return None;
    }
    let mut p = pos + 4;
    while p < bytes.len()
        invariant
            4 <= p,
            comment_end_from(bytes@, p as int) == comment_end_from(bytes@, pos + 4),
        decreases bytes.len() - p,
    {
        if bytes[p] == 0x3E && bytes[p - 1] == 0x2D && bytes[p - 2] == 0x2D {
            return Some(p);
        }
        p = p + 1;
    }
    None
}

/// `<!`, `</` or `<?` at `pos`.
pub fn starts_with_bang_slash_or_question(bytes: &[u8], pos: usize) -> (r: bool)
    ensures
        r == bang_slash_or_question_spec(bytes@, pos as int),
{
    let next = at(bytes, pos, 1);
    at(bytes, pos, 0) == Some(0x3Cu8) && (next == Some(0x21u8) || next == Some(0x2Fu8) || next
        == Some(0x3Fu8))
}

/// Whether `b` is not `>`.
fn is_not_gt(b: u8) -> (r: bool)
    ensures
        r == (b != 0x3E),
{
    b != 0x3E
}

/// The first `>` at or after `pos + 2`.
pub fn skip_to_gt(bytes: &[u8], pos: usize) -> (r: Option<usize>)
    ensures
        match r {
            Some(p) => gt_after_spec(bytes@, pos as int) == Some(p as int),
            None => gt_after_spec(bytes@, pos as int) is None,
        },
{
    if pos >= bytes.len() || bytes.len() - pos < 2 {
        proof {
            lemma_skip_from_bounds(bytes@, pos + 2, not_gt_pred());
        }
        return None;
    }
    let mut p = pos + 2;
    skip_while(bytes, &mut p, is_not_gt, Ghost(not_gt_pred()));
    if p < bytes.len() {
        Some(p)
    } else {
        None
    }
}

proof fn lemma_comment_end_bounds(b: Seq<u8>, p: int)
    ensures
        comment_end_from(b, p) matches Some(q) ==> p <= q < b.len(),
    decreases b.len() - p,
{
    if 0 <= p < b.len() && !(b[p] == 0x3E && byte_at(b, p - 1) == Some(0x2Du8) && byte_at(b, p - 2)
        == Some(0x2Du8)) {
        lemma_comment_end_bounds(b, p + 1);
    }
}

proof fn lemma_meta_loop_bounds(
    b: Seq<u8>,
    p: int,
    seen: Seq<Seq<u8>>,
    got_pragma: bool,
    need_pragma: Option<bool>,
    charset: Option<Option<Seq<char>>>,
)
    requires
        0 <= p <= b.len(),
    ensures
        meta_loop(b, p, seen, got_pragma, need_pragma, charset) matches TagSpec::Continue(q) ==> p
            <= q <= b.len(),
    decreases b.len() - p,
{
    lemma_get_attribute_advances(b, p);
    let (a, q) = get_attribute_spec(b, p);
    match a {
        AttrSpec::Found(name, value) => {
            if p < q <= b.len() {
                let seen2 = seen.push(name);
                lemma_meta_loop_bounds(b, q, seen, got_pragma, need_pragma, charset);
                lemma_meta_loop_bounds(
                    b,
                    q,
                    seen2,
                    got_pragma || value == content_type_word(),
                    need_pragma,
                    charset,
                );
                lemma_meta_loop_bounds(
                    b,
                    q,
                    seen2,
                    got_pragma,
                    Some(true),
                    Some(meta_content_encoding(value)),
                );
                lemma_meta_loop_bounds(b, q, seen2, got_pragma, need_pragma, charset);
                lemma_meta_loop_bounds(
                    b,
                    q,
                    seen2,
                    got_pragma,
                    Some(false),
                    Some(encoding_for_label(value)),
                );
            }
        },
        _ => {},
    }
}

proof fn lemma_skip_attributes_bounds(b: Seq<u8>, p: int)
    requires
        0 <= p <= b.len(),
    ensures
        skip_attributes_spec(b, p) matches Some(q) ==> p <= q <= b.len(),
    decreases b.len() - p,
{
    lemma_get_attribute_advances(b, p);
    let (a, q) = get_attribute_spec(b, p);
    if a is Found && p < q <= b.len() {
        lemma_skip_attributes_bounds(b, q);
    }
}

/// Every step of the main loop that does not end the scan ends at or after where it began,
/// and within the window: the position only ever moves forward, so the scan terminates.
pub proof fn lemma_prescan_step_advances(w: Seq<u8>, pos: int)
    requires
        0 <= pos < w.len(),
    ensures
        prescan_step(w, pos) matches StepSpec::Next(q) ==> pos <= q <= w.len(),
{
    lemma_comment_end_bounds(w, pos + 4);
    if meta_start_spec(w, pos) is Some {
        lemma_meta_loop_bounds(w, pos + 6, Seq::empty(), false, None, None);
    }
    if generic_start_spec(w, pos) is Some {
        let n = generic_start_spec(w, pos)->0;
        lemma_skip_from_bounds(w, n, tag_name_byte_pred());
        let p = skip_from(w, n, tag_name_byte_pred());
        if p < w.len() {
            lemma_skip_attributes_bounds(w, p);
        }
    }
    lemma_skip_from_bounds(w, pos + 2, not_gt_pred());
}

fn word_comment_open() -> (r: Vec<u8>)
    ensures
        r@ == comment_open(),
{
    let r = vec![0x3Cu8, 0x21u8, 0x2Du8, 0x2Du8];
    proof {
        assert(r@ =~= comment_open());
    }
    r
}

/// Scans (at most) the first 1024 bytes of `bytes` for a `<meta charset>` or
/// `<meta http-equiv="Content-Type" content="...charset=...">` declaration: the encoding it
/// names, by canonical name. Never reads past the 1024-byte window.
pub fn prescan_meta_charset(bytes: &[u8]) -> (r: Option<String>)
    ensures
        match r {
            Some(e) => prescan_spec(bytes@) == Some(e@),
            None => prescan_spec(bytes@) is None,
        },
        r matches Some(e) ==> names_itself(e@),
{
    let limit = if bytes.len() < PRESCAN_LIMIT_BYTES {
        bytes.len()
    } else {
        PRESCAN_LIMIT_BYTES
    };
    let window = vstd::slice::slice_subrange(bytes, 0, limit);
    let comment = word_comment_open();
    proof {
        assert(window@ =~= bytes@.take(limit as int));
    }
    let mut pos: usize = 0;
    while pos < window.len()
        invariant
            window@ == bytes@.take(limit as int),
            window@.len() <= 1024,
            comment@ == comment_open(),
            prescan_from(window@, pos as int) == prescan_spec(bytes@),
        decreases window.len() - pos,
    {
        proof {
            lemma_prescan_step_advances(window@, pos as int);
        }
        let next_pos = if starts_with_at(window, pos, comment.as_slice()) {
            match skip_comment(window, pos) {
                None => {
                    return None;
                },
                Some(q) => q,
            }
        } else if let Some(after_tag_space) = match_meta_start(window, pos) {
            match scan_meta_attributes(window, after_tag_space) {
                TagOutcome::Found(enc) => {
                    return Some(enc);
                },
                TagOutcome::Continue(q) => q,
                TagOutcome::Eof => {
                    return None;
                },
            }
        } else if generic_tag_name_start(window, pos).is_some() {
            match skip_generic_tag(window, pos) {
                None => {
                    return None;
                },
                Some(q) => q,
            }
        } else if starts_with_bang_slash_or_question(window, pos) {
            match skip_to_gt(window, pos) {
                None => {
                    return None;
                },
                Some(q) => q,
            }
        } else {
            pos
        };
        if next_pos + 1 >= window.len() {
            return None;
        }
        pos = next_pos + 1;
    }
    None
}

/// `b` from `p` on and `c` from `q` on hold the same bytes.
spec fn same_tail(b: Seq<u8>, p: int, c: Seq<u8>, q: int) -> bool {
    &&& 0 <= p <= b.len() && 0 <= q <= c.len()
    &&& b.subrange(p, b.len() as int) == c.subrange(q, c.len() as int)
}

proof fn lemma_same_tail_len(b: Seq<u8>, p: int, c: Seq<u8>, q: int)
    requires
        same_tail(b, p, c, q),
    ensures
        b.len() - p == c.len() - q,
{
    assert(b.subrange(p, b.len() as int).len() == c.subrange(q, c.len() as int).len());
}

proof fn lemma_same_tail_step(b: Seq<u8>, p: int, c: Seq<u8>, q: int)
    requires
        same_tail(b, p, c, q),
        p < b.len(),
    ensures
        same_tail(b, p + 1, c, q + 1),
        b[p] == c[q],
{
    let tb = b.subrange(p, b.len() as int);
    let tc = c.subrange(q, c.len() as int);
    assert(tb.len() == tc.len());
    assert(tb[0] == b[p] && tc[0] == c[q]);
    assert(b.subrange(p + 1, b.len() as int) =~= tb.drop_first());
    assert(c.subrange(q + 1, c.len() as int) =~= tc.drop_first());
}

proof fn lemma_skip_tail(b: Seq<u8>, p: int, c: Seq<u8>, q: int, pred: spec_fn(u8) -> bool)
    requires
        same_tail(b, p, c, q),
    ensures
        skip_from(b, p, pred) - p == skip_from(c, q, pred) - q,
        same_tail(b, skip_from(b, p, pred), c, skip_from(c, q, pred)),
    decreases b.len() - p,
{
    lemma_same_tail_len(b, p, c, q);
    if p < b.len() {
        lemma_same_tail_step(b, p, c, q);
        if pred(b[p]) {
            lemma_skip_tail(b, p + 1, c, q + 1, pred);
        }
    }
}

proof fn lemma_quoted_tail(b: Seq<u8>, p: int, c: Seq<u8>, q: int, quote: u8, name: Seq<u8>, value: Seq<u8>)
    requires
        same_tail(b, p, c, q),
    ensures
        quoted_value(b, p, quote, name, value).0 == quoted_value(c, q, quote, name, value).0,
    decreases b.len() - p,
{
    lemma_same_tail_len(b, p, c, q);
    if p < b.len() {
        lemma_same_tail_step(b, p, c, q);
        lemma_quoted_tail(b, p + 1, c, q + 1, quote, name, value.push(lower(b[p])));
    }
}

proof fn lemma_unquoted_tail(b: Seq<u8>, p: int, c: Seq<u8>, q: int, name: Seq<u8>, value: Seq<u8>)
    requires
        same_tail(b, p, c, q),
    ensures
        unquoted_value(b, p, name, value).0 == unquoted_value(c, q, name, value).0,
    decreases b.len() - p,
{
    lemma_same_tail_len(b, p, c, q);
    if p < b.len() {
        lemma_same_tail_step(b, p, c, q);
        lemma_unquoted_tail(b, p + 1, c, q + 1, name, value.push(lower(b[p])));
    }
}

/// Reading a value depends only on the bytes from where it starts.
proof fn lemma_value_tail(b: Seq<u8>, p: int, c: Seq<u8>, q: int, name: Seq<u8>)
    requires
        same_tail(b, p, c, q),
    ensures
        value_spec(b, p, name).0 == value_spec(c, q, name).0,
{
    lemma_skip_tail(b, p, c, q, ws_pred());
    let qb = skip_from(b, p, ws_pred());
    let qc = skip_from(c, q, ws_pred());
    lemma_same_tail_len(b, qb, c, qc);
    if qb < b.len() {
        lemma_same_tail_step(b, qb, c, qc);
        lemma_quoted_tail(b, qb + 1, c, qc + 1, b[qb], name, Seq::empty());
        lemma_unquoted_tail(b, qb, c, qc, name, Seq::empty());
    }
}

proof fn lemma_skip_ws_run(b: Seq<u8>, p: int, k: int)
    requires
        0 <= p,
        0 <= k,
        p + k <= b.len(),
        forall|j: int| p <= j < p + k ==> ws(#[trigger] b[j]),
    ensures
        skip_from(b, p, ws_pred()) == skip_from(b, p + k, ws_pred()),
    decreases k,
{
    if k > 0 {
        assert(ws(b[p]));
        lemma_skip_ws_run(b, p + 1, k - 1);
    }
}

/// The attribute name `n` followed by whitespace `s1`, `=`, whitespace `s2` and the rest
/// `r`, against `n`, `=` and `r`.
spec fn spaced_attr(n: Seq<u8>, s1: Seq<u8>, s2: Seq<u8>, r: Seq<u8>) -> Seq<u8> {
    n + s1 + seq![0x3Du8] + s2 + r
}

spec fn tight_attr(n: Seq<u8>, r: Seq<u8>) -> Seq<u8> {
    n + seq![0x3Du8] + r
}

/// A byte that can stand in an attribute name anywhere: not whitespace, `/`, `>` or `=`.
pub open spec fn name_byte(b: u8) -> bool {
    !ws_or_slash(b) && b != 0x3E && b != 0x3D
}

proof fn lemma_name_spaced(n: Seq<u8>, s1: Seq<u8>, s2: Seq<u8>, r: Seq<u8>, i: int, acc: Seq<u8>)
    requires
        n.len() > 0,
        0 <= i <= n.len(),
        acc.len() == i,
        forall|j: int| 0 <= j < n.len() ==> name_byte(#[trigger] n[j]),
        forall|j: int| 0 <= j < s1.len() ==> ws(#[trigger] s1[j]),
        forall|j: int| 0 <= j < s2.len() ==> ws(#[trigger] s2[j]),
    ensures
        name_spec(spaced_attr(n, s1, s2, r), i, acc).0 == name_spec(tight_attr(n, r), i, acc).0,
    decreases n.len() - i,
{
    let b1 = spaced_attr(n, s1, s2, r);
    let b2 = tight_attr(n, r);
    let nl = n.len() as int;
    let e1 = nl + s1.len();
    assert(b1.len() == nl + s1.len() + 1 + s2.len() + r.len());
    assert(b2.len() == nl + 1 + r.len());
    if i < nl {
        assert(b1[i] == n[i] && b2[i] == n[i]);
        assert(name_byte(n[i]));
        lemma_name_spaced(n, s1, s2, r, i + 1, acc.push(lower(n[i])));
    } else {
        assert(b2[nl] == 0x3D);
        assert(b1[e1] == 0x3D);
        assert forall|j: int| nl <= j < e1 implies ws(#[trigger] b1[j]) by {
            assert(b1[j] == s1[j - nl]);
        }
        lemma_skip_ws_run(b1, nl, s1.len() as int);
        let p1 = e1 + 1;
        assert forall|j: int| p1 <= j < p1 + s2.len() implies ws(#[trigger] b1[j]) by {
            assert(b1[j] == s2[j - p1]);
        }
        lemma_skip_ws_run(b1, p1, s2.len() as int);
        let t1 = p1 + s2.len();
        assert(b1.subrange(t1, b1.len() as int) =~= r);
        assert(b2.subrange(nl + 1, b2.len() as int) =~= r);
        lemma_value_tail(b1, t1, b2, nl + 1, acc);
        assert(value_spec(b1, p1, acc) == value_spec(b1, t1, acc));
        if s1.len() > 0 {
            assert(b1[nl] == s1[0]);
            assert(ws(b1[nl]));
            assert(skip_from(b1, e1, ws_pred()) == e1);
        }
    }
}

/// "Get an attribute" ignores whitespace around `=`: a name `n` (of bytes that can stand in
/// a name), whitespace `s1`, `=`, whitespace `s2` and the rest `r` give the same attribute,
/// name and value, as `n`, `=` and `r`.
pub proof fn lemma_attribute_ignores_spaces_around_equals(n: Seq<u8>, s1: Seq<u8>, s2: Seq<u8>, r: Seq<u8>)
    requires
        n.len() > 0,
        forall|j: int| 0 <= j < n.len() ==> name_byte(#[trigger] n[j]),
        forall|j: int| 0 <= j < s1.len() ==> ws(#[trigger] s1[j]),
        forall|j: int| 0 <= j < s2.len() ==> ws(#[trigger] s2[j]),
    ensures
        get_attribute_spec(n + s1 + seq![0x3Du8] + s2 + r, 0).0 == get_attribute_spec(n + seq![0x3Du8] + r, 0).0,
{
    let b1 = spaced_attr(n, s1, s2, r);
    let b2 = tight_attr(n, r);
    assert(b1[0] == n[0] && b2[0] == n[0]);
    assert(name_byte(n[0]));
    assert(skip_from(b1, 0, ws_or_slash_pred()) == 0);
    assert(skip_from(b2, 0, ws_or_slash_pred()) == 0);
    lemma_name_spaced(n, s1, s2, r, 0, Seq::empty());
}

} // verus!
