use vstd::prelude::*;
use vstd::slice::slice_to_vec;
use vstd::utf8::{decode_utf8, valid_utf8};

verus! {

/// The classes of bytes that the grammar reads runs of.
#[derive(Clone, Copy, Debug, PartialEq, Eq, Structural)]
pub enum ByteClass {
    /// An ASCII digit.
    Digit,
    /// A space.
    Space,
    /// Any byte but a space or a newline.
    Word,
    /// Any byte but a newline.
    LineContent,
    /// Any byte but a colon or a newline.
    NameByte,
}

/// The newline byte `\n`. A `\r` ends a line only together with the `\n`
/// after it.
pub open spec fn is_newline(b: u8) -> bool {
    b == 10
}

pub open spec fn in_class(c: ByteClass, b: u8) -> bool {
    match c {
        ByteClass::Digit => 48 <= b <= 57,
        ByteClass::Space => b == 32,
        ByteClass::Word => b != 32 && !is_newline(b),
        ByteClass::LineContent => !is_newline(b),
        ByteClass::NameByte => b != 58 && !is_newline(b),
    }
}

/// The end of the longest run of bytes of class `c` that starts at `i`.
pub open spec fn scan_end(s: Seq<u8>, i: int, c: ByteClass) -> int
    decreases s.len() - i,
{
    if 0 <= i < s.len() && in_class(c, s[i]) {
        scan_end(s, i + 1, c)
    } else {
        i
    }
}

/// The run found by `scan_end` is a run of class `c`, and it cannot be extended.
pub proof fn lemma_scan_end(s: Seq<u8>, i: int, c: ByteClass)
    requires
        0 <= i <= s.len(),
    ensures
        i <= scan_end(s, i, c) <= s.len(),
        forall|k: int| i <= k < scan_end(s, i, c) ==> in_class(c, #[trigger] s[k]),
        scan_end(s, i, c) < s.len() ==> !in_class(c, s[scan_end(s, i, c)]),
    decreases s.len() - i,
{
    if i < s.len() && in_class(c, s[i]) {
        lemma_scan_end(s, i + 1, c);
    }
}

/// A run of class `c` from `i` to `e` that cannot be extended is the one `scan_end` finds.
pub proof fn lemma_scan_end_is(s: Seq<u8>, i: int, e: int, c: ByteClass)
    requires
        0 <= i <= e <= s.len(),
        forall|k: int| i <= k < e ==> in_class(c, #[trigger] s[k]),
        e < s.len() ==> !in_class(c, s[e]),
    ensures
        scan_end(s, i, c) == e,
    decreases e - i,
{
    if i < e {
        lemma_scan_end_is(s, i + 1, e, c);
    }
}

/// Scanning `a + b` from inside `b` finds what scanning `b` finds, moved by `a`.
pub proof fn lemma_scan_end_shift(a: Seq<u8>, b: Seq<u8>, i: int, c: ByteClass)
    requires
        0 <= i <= b.len(),
    ensures
        scan_end(a + b, a.len() + i, c) == a.len() + scan_end(b, i, c),
    decreases b.len() - i,
{
    if i < b.len() {
        assert((a + b)[a.len() + i] == b[i]);
        if in_class(c, b[i]) {
            lemma_scan_end_shift(a, b, i + 1, c);
        }
    }
}

/// A literal stands in `a + b` inside `b` exactly where it stands in `b`.
pub proof fn lemma_has_bytes_at_shift(a: Seq<u8>, b: Seq<u8>, i: int, lit: Seq<u8>)
    requires
        0 <= i,
    ensures
        has_bytes_at(a + b, a.len() + i, lit) == has_bytes_at(b, i, lit),
{
    if has_bytes_at(b, i, lit) {
        assert((a + b).subrange(a.len() + i, a.len() + i + lit.len()) =~= b.subrange(
            i,
            i + lit.len(),
        ));
    }
    if has_bytes_at(a + b, a.len() + i, lit) {
        assert((a + b).subrange(a.len() + i, a.len() + i + lit.len()) =~= b.subrange(
            i,
            i + lit.len(),
        ));
    }
}

pub fn byte_in_class(c: ByteClass, b: u8) -> (r: bool)
    ensures
        r == in_class(c, b),
{
    match c {
        ByteClass::Digit => 48 <= b && b <= 57,
        ByteClass::Space => b == 32,
        ByteClass::Word => b != 32 && b != 10,
        ByteClass::LineContent => b != 10,
        ByteClass::NameByte => b != 58 && b != 10,
    }
}

/// Finds the end of the run of bytes of class `c` that starts at `i`.
pub fn scan(s: &[u8], i: usize, c: ByteClass) -> (e: usize)
    requires
        i <= s@.len(),
    ensures
        e == scan_end(s@, i as int, c),
        i <= e <= s@.len(),
{
    proof {
        lemma_scan_end(s@, i as int, c);
    }
    let mut j: usize = i;
    while j < s.len() && byte_in_class(c, s[j])
        invariant
            i <= j <= s@.len(),
            scan_end(s@, j as int, c) == scan_end(s@, i as int, c),
        decreases s@.len() - j,
    {
        j = j + 1;
    }
    j
}

/// Where the content of the first line of `s` ends: before its `\n`, or
/// before the `\r` of its `\r\n`. A `\r` that no `\n` follows is content.
pub open spec fn line_content_end(s: Seq<u8>) -> int {
    let e = scan_end(s, 0, ByteClass::LineContent);
    if 0 < e < s.len() && s[e - 1] == 13 {
        e - 1
    } else {
        e
    }
}

/// Finds where the content of the first line of `s` ends; see `line_content_end`.
pub fn find_line_content_end(s: &[u8]) -> (r: usize)
    ensures
        r == line_content_end(s@),
        r <= s@.len(),
{
    let e = scan(s, 0, ByteClass::LineContent);
    if 0 < e && e < s.len() && s[e - 1] == 13 {
        e - 1
    } else {
        e
    }
}

/// The number that a sequence of ASCII digits writes in decimal.
pub open spec fn digits_value(d: Seq<u8>) -> nat
    decreases d.len(),
{
    if d.len() == 0 {
        0
    } else {
        digits_value(d.drop_last()) * 10 + (d.last() - 48) as nat
    }
}

/// Above this bound numbers are only known to be large.
pub const NUMBER_CAP: u32 = 1_000_000;

/// `v` itself up to `NUMBER_CAP`, and one more than `NUMBER_CAP` above it.
pub open spec fn capped(v: nat) -> nat {
    if v <= NUMBER_CAP {
        v
    } else {
        NUMBER_CAP as nat + 1
    }
}

/// Reads the run of digits at `i`: its value (capped) and its end.
pub fn read_number(s: &[u8], i: usize) -> (r: (u32, usize))
    requires
        i <= s@.len(),
    ensures
        r.1 == scan_end(s@, i as int, ByteClass::Digit),
        r.0 as nat == capped(digits_value(s@.subrange(i as int, r.1 as int))),
{
    let e = scan(s, i, ByteClass::Digit);
    proof {
        lemma_scan_end(s@, i as int, ByteClass::Digit);
    }
    let mut v: u32 = 0;
    let mut j: usize = i;
    assert(s@.subrange(i as int, i as int) =~= Seq::<u8>::empty());
    while j < e
        invariant
            i <= j <= e <= s@.len(),
            e == scan_end(s@, i as int, ByteClass::Digit),
            forall|k: int| i <= k < e ==> in_class(ByteClass::Digit, #[trigger] s@[k]),
            v as nat == capped(digits_value(s@.subrange(i as int, j as int))),
        decreases e - j,
    {
        let ghost before = s@.subrange(i as int, j as int);
        let d = s[j];
        assert(in_class(ByteClass::Digit, s@[j as int]));
        assert(s@.subrange(i as int, j + 1).drop_last() =~= before);
        if v <= NUMBER_CAP {
            let w = v * 10 + (d - 48) as u32;
            v = if w <= NUMBER_CAP { w } else { NUMBER_CAP + 1 };
        }
        j = j + 1;
    }
    (v, e)
}

/// The bytes of `s` from `i` on.
pub fn rest_from<'a>(s: &'a [u8], i: usize) -> (r: &'a [u8])
    requires
        i <= s@.len(),
    ensures
        r@ == s@.skip(i as int),
{
    let r = &s[i..s.len()];
    assert(r@ =~= s@.skip(i as int));
    r
}

/// `lit` stands in `s` at `i`.
pub open spec fn has_bytes_at(s: Seq<u8>, i: int, lit: Seq<u8>) -> bool {
    0 <= i && i + lit.len() <= s.len() && s.subrange(i, i + lit.len()) == lit
}

/// Whether `lit` stands in `s` at `i`.
pub fn bytes_at(s: &[u8], i: usize, lit: &[u8]) -> (r: bool)
    ensures
        r == has_bytes_at(s@, i as int, lit@),
{
    let n = s.len();
    if i > n || lit.len() > n - i {
        return false;
    }
    let mut k: usize = 0;
    while k < lit.len()
        invariant
            n == s@.len(),
            i + lit@.len() <= n,
            k <= lit@.len(),
            forall|m: int| 0 <= m < k ==> s@[i + m] == lit@[m],
        decreases lit@.len() - k,
    {
        if s[i + k] != lit[k] {
            assert(s@.subrange(i as int, i + lit@.len())[k as int] != lit@[k as int]);
            return false;
        }
        k = k + 1;
    }
    assert(s@.subrange(i as int, i + lit@.len()) =~= lit@);
    true
}

/// The bytes of the mark U+200E (left-to-right mark) in UTF-8.
pub open spec fn marker() -> Seq<u8> {
    seq![0xE2u8, 0x80, 0x8E]
}

/// The bytes of `document omitted`.
pub open spec fn document_tag() -> Seq<u8> {
    seq![100u8, 111, 99, 117, 109, 101, 110, 116, 32, 111, 109, 105, 116, 116, 101, 100]
}

/// The bytes of `image omitted`.
pub open spec fn image_tag() -> Seq<u8> {
    seq![105u8, 109, 97, 103, 101, 32, 111, 109, 105, 116, 116, 101, 100]
}

/// The bytes of `Location: `.
pub open spec fn location_tag() -> Seq<u8> {
    seq![76u8, 111, 99, 97, 116, 105, 111, 110, 58, 32]
}

pub fn marker_bytes() -> (r: Vec<u8>)
    ensures
        r@ == marker(),
{
    let v: Vec<u8> = vec![0xE2, 0x80, 0x8E];
    assert(v@ =~= marker());
    v
}

pub fn document_tag_bytes() -> (r: Vec<u8>)
    ensures
        r@ == document_tag(),
{
    let v: Vec<u8> = vec![100, 111, 99, 117, 109, 101, 110, 116, 32, 111, 109, 105, 116, 116, 101, 100];
    assert(v@ =~= document_tag());
    v
}

pub fn image_tag_bytes() -> (r: Vec<u8>)
    ensures
        r@ == image_tag(),
{
    let v: Vec<u8> = vec![105, 109, 97, 103, 101, 32, 111, 109, 105, 116, 116, 101, 100];
    assert(v@ =~= image_tag());
    v
}

pub fn location_tag_bytes() -> (r: Vec<u8>)
    ensures
        r@ == location_tag(),
{
    let v: Vec<u8> = vec![76, 111, 99, 97, 116, 105, 111, 110, 58, 32];
    assert(v@ =~= location_tag());
    v
}

/// The characters that `b` encodes in UTF-8, if it is valid UTF-8.
pub open spec fn decoded(b: Seq<u8>) -> Option<Seq<char>> {
    if valid_utf8(b) {
        Some(decode_utf8(b))
    } else {
        None
    }
}

/// Relies on `String::from_utf8`: it succeeds exactly on valid UTF-8, and the
/// string then holds the characters that the bytes encode.
#[verifier::external_body]
fn string_from_utf8(bytes: Vec<u8>) -> (r: Option<String>)
    ensures
        r.is_some() == valid_utf8(bytes@),
        r matches Some(s) ==> s@ == decode_utf8(bytes@),
{
    String::from_utf8(bytes).ok()
}

/// Decodes the bytes of `s` from `a` to `b` as a string.
pub fn decode_span(s: &[u8], a: usize, b: usize) -> (r: Option<String>)
    requires
        a <= b <= s@.len(),
    ensures
        match decoded(s@.subrange(a as int, b as int)) {
            Some(c) => r matches Some(t) && t@ == c,
            None => r is None,
        },
{
    let v = slice_to_vec(&s[a..b]);
    string_from_utf8(v)
}

} // verus!
