//! Laws of the parser, proved over the spec functions that the parsing
//! functions' contracts use.

use crate::bytes::{
    decoded, digits_value, document_tag, has_bytes_at, image_tag, in_class, is_newline,
    line_content_end,
    lemma_has_bytes_at_shift, lemma_scan_end, lemma_scan_end_is, lemma_scan_end_shift, location_tag, marker,
    scan_end, ByteClass,
};
use crate::chat::{assemble, spec_chat};
use crate::chat_participant::spec_participant_at;
use crate::error::{error_at, ParseError, ParseErrorKind};
use crate::message::{
    continued, entry_start, line_break_len, spec_entry_in_line, spec_line, EntryModel, LineModel,
};
use crate::message_type::{classify, lemma_classify_shift, spec_message_type_at, Payload, PayloadKind};
use crate::timestamp::{
    fields_valid, model_of_fields, number_before, spec_timestamp_at, timestamp_token,
    TimestampModel,
};
use vstd::prelude::*;
use vstd::utf8::{decode_utf8, decode_utf8_encode_utf8, encode_utf8, valid_utf8};

verus! {

/// A line `<filename><spaces><marker>document omitted` is an omitted document,
/// named by the file name.
pub proof fn law_document_line(name: Seq<u8>, spaces: Seq<u8>)
    requires
        forall|k: int| 0 <= k < name.len() ==> in_class(ByteClass::Word, #[trigger] name[k]),
        spaces.len() > 0,
        forall|k: int| 0 <= k < spaces.len() ==> #[trigger] spaces[k] == 32,
    ensures
        classify(name + spaces + marker() + document_tag(), 0) == (
            PayloadKind::Document,
            0int,
            name.len() as int,
            (name + spaces + marker() + document_tag()).len() as int,
        ),
        valid_utf8(name) ==> spec_message_type_at(name + spaces + marker() + document_tag(), 0)
            == Ok::<(Payload, int), ParseError>(
            (
                Payload::Document(decode_utf8(name)),
                (name + spaces + marker() + document_tag()).len() as int,
            ),
        ),
{
    let t = name + spaces + marker() + document_tag();
    let n = name.len() as int;
    let m = spaces.len() as int;
    assert(t[n] == 32);
    assert forall|k: int| 0 <= k < n implies in_class(ByteClass::Word, #[trigger] t[k]) by {
        assert(t[k] == name[k]);
    }
    lemma_scan_end_is(t, 0, n, ByteClass::Word);
    assert forall|k: int| n <= k < n + m implies in_class(ByteClass::Space, #[trigger] t[k]) by {
        assert(t[k] == spaces[k - n]);
    }
    assert(t[n + m] == 0xE2);
    lemma_scan_end_is(t, n, n + m, ByteClass::Space);
    assert(t.subrange(n + m, n + m + 3) =~= marker());
    assert(t.subrange(n + m + 3, n + m + 19) =~= document_tag());
    assert(t.subrange(0, n) =~= name);
}

/// A line `<spaces><marker>image omitted` is an omitted image.
pub proof fn law_image_line(spaces: Seq<u8>)
    requires
        forall|k: int| 0 <= k < spaces.len() ==> #[trigger] spaces[k] == 32,
    ensures
        spec_message_type_at(spaces + marker() + image_tag(), 0) == Ok::<(Payload, int), ParseError>(
            (Payload::Image, (spaces + marker() + image_tag()).len() as int),
        ),
{
    let t = spaces + marker() + image_tag();
    let m = spaces.len() as int;
    assert forall|k: int| 0 <= k < m implies in_class(ByteClass::Space, #[trigger] t[k]) by {
        assert(t[k] == spaces[k]);
    }
    assert(t[m] == 0xE2);
    lemma_scan_end_is(t, 0, m, ByteClass::Space);
    if m == 0 {
        assert forall|k: int| 0 <= k < 8 implies in_class(ByteClass::Word, #[trigger] t[k]) by {}
        assert(t[8] == 32);
        lemma_scan_end_is(t, 0, 8, ByteClass::Word);
        assert(t[9] == 111);
        lemma_scan_end_is(t, 9, 9, ByteClass::Space);
        assert(scan_end(t, 8, ByteClass::Space) == 9);
        assert(!has_bytes_at(t, 9, marker()));
    } else {
        assert(t[0] == 32);
        lemma_scan_end_is(t, 0, 0, ByteClass::Word);
    }
    assert(t.subrange(m, m + 3) =~= marker());
    assert(t.subrange(m + 3, m + 16) =~= image_tag());
}

/// A line `<spaces><marker>Location: <description>` is a shared location with
/// that description. The document form is tried first, so this holds unless
/// there are no spaces and the description, after its own spaces, is
/// exactly `<marker>document omitted`: then the line is a document named
/// `<marker>Location:`.
pub proof fn law_location_line(spaces: Seq<u8>, desc: Seq<u8>)
    requires
        forall|k: int| 0 <= k < spaces.len() ==> #[trigger] spaces[k] == 32,
        spaces.len() > 0 || !(has_bytes_at(
            desc,
            scan_end(desc, 0, ByteClass::Space),
            marker() + document_tag(),
        ) && scan_end(desc, 0, ByteClass::Space) + 19 == desc.len()),
    ensures
        classify(spaces + marker() + location_tag() + desc, 0) == (
            PayloadKind::Location,
            spaces.len() + 13int,
            (spaces + marker() + location_tag() + desc).len() as int,
            (spaces + marker() + location_tag() + desc).len() as int,
        ),
        valid_utf8(desc) ==> spec_message_type_at(spaces + marker() + location_tag() + desc, 0)
            == Ok::<(Payload, int), ParseError>(
            (
                Payload::Location(decode_utf8(desc)),
                (spaces + marker() + location_tag() + desc).len() as int,
            ),
        ),
{
    let t = spaces + marker() + location_tag() + desc;
    let m = spaces.len() as int;
    assert forall|k: int| 0 <= k < m implies in_class(ByteClass::Space, #[trigger] t[k]) by {
        assert(t[k] == spaces[k]);
    }
    assert(t[m] == 0xE2);
    lemma_scan_end_is(t, 0, m, ByteClass::Space);
    assert(t[m + 3] == 76);
    if m + 19 <= t.len() {
        assert(t.subrange(m + 3, m + 19)[0] != document_tag()[0]);
    }
    if m + 16 <= t.len() {
        assert(t.subrange(m + 3, m + 16)[0] != image_tag()[0]);
    }
    if m == 0 {
        assert forall|k: int| 0 <= k < 12 implies in_class(ByteClass::Word, #[trigger] t[k]) by {}
        assert(t[12] == 32);
        lemma_scan_end_is(t, 0, 12, ByteClass::Word);
        let head = marker() + location_tag();
        assert(t =~= head + desc);
        lemma_scan_end_shift(head, desc, 0, ByteClass::Space);
        let x = scan_end(t, 12, ByteClass::Space);
        assert(x == 13 + scan_end(desc, 0, ByteClass::Space));
        if has_bytes_at(t, x, marker()) && has_bytes_at(t, x + 3, document_tag()) && x + 19
            == t.len() {
            assert(t.subrange(x, x + 19) =~= marker() + document_tag());
            lemma_has_bytes_at_shift(head, desc, x - 13, marker() + document_tag());
        }
    } else {
        assert(t[0] == 32);
        lemma_scan_end_is(t, 0, 0, ByteClass::Word);
    }
    assert(t.subrange(m, m + 3) =~= marker());
    assert(t.subrange(m + 3, m + 13) =~= location_tag());
    assert(t.subrange(m + 13, t.len() as int) =~= desc);
}

/// An empty payload is valid and is an empty text.
pub proof fn law_empty_payload_is_empty_text()
    ensures
        spec_message_type_at(Seq::empty(), 0) == Ok::<(Payload, int), ParseError>(
            (Payload::Text(Seq::empty()), 0),
        ),
{
    let t = Seq::<u8>::empty();
    assert(t.subrange(0, 0) =~= t);
    assert(valid_utf8(t));
    assert(decode_utf8(t) =~= Seq::<char>::empty());
}

/// Classifying the text of a text payload again gives the same text: the
/// characters, written back as UTF-8, read as the same plain text.
pub proof fn law_text_reclassifies_as_itself(t: Seq<u8>, text: Seq<char>, end: int)
    requires
        spec_message_type_at(t, 0) == Ok::<(Payload, int), ParseError>((Payload::Text(text), end)),
    ensures
        spec_message_type_at(encode_utf8(text), 0) == Ok::<(Payload, int), ParseError>(
            (Payload::Text(text), encode_utf8(text).len() as int),
        ),
{
    let (k, a, b, e) = classify(t, 0);
    assert(k == PayloadKind::Text);
    assert(t.subrange(0, t.len() as int) =~= t);
    assert(decoded(t) == Some(text));
    decode_utf8_encode_utf8(t);
}

/// The payload parser reads the content of the first line; reading that
/// content again gives the same payload, whatever its kind.
pub proof fn law_reclassify_consumed_line(s: Seq<u8>)
    ensures
        ({
            let line = s.take(line_content_end(s));
            &&& line_content_end(line) == line.len()
            &&& line.take(line_content_end(line)) == line
            &&& spec_message_type_at(line.take(line_content_end(line)), 0)
                == spec_message_type_at(line, 0)
        }),
{
    let line = s.take(line_content_end(s));
    lemma_scan_end(s, 0, ByteClass::LineContent);
    assert forall|k: int| 0 <= k < line.len() implies in_class(
        ByteClass::LineContent,
        #[trigger] line[k],
    ) by {
        assert(line[k] == s[k]);
    }
    lemma_scan_end_is(line, 0, line.len() as int, ByteClass::LineContent);
    assert(line.take(line.len() as int) =~= line);
}

/// `l` holds no newline.
pub open spec fn is_one_line(l: Seq<u8>) -> bool {
    forall|k: int| 0 <= k < l.len() ==> !is_newline(#[trigger] l[k])
}

/// `l` ends with a `\r`, which a following `\n` would turn into part of the
/// line's terminator.
pub open spec fn ends_with_cr(l: Seq<u8>) -> bool {
    l.len() > 0 && l.last() == 13
}

/// The entry that a line's reading gives, if it gives one.
pub open spec fn entry_of(r: Result<(LineModel, int), ParseError>) -> Option<EntryModel> {
    match r {
        Ok((LineModel::Entry(e), _)) => Some(e),
        _ => None,
    }
}

/// What the line `l` gives when `\n` and more follow it: the whole line is
/// read, with the `\n`.
pub proof fn lemma_line_then_break(l: Seq<u8>, rest: Seq<u8>)
    requires
        is_one_line(l),
        !ends_with_cr(l),
    ensures
        spec_line(l + seq![10u8] + rest) == match spec_entry_in_line(l) {
            Err(e) => Err(e),
            Ok((out, _)) => Ok((out, l.len() + 1int)),
        },
{
    let s = l + seq![10u8] + rest;
    let n = l.len() as int;
    assert forall|k: int| 0 <= k < n implies in_class(ByteClass::LineContent, #[trigger] s[k]) by {
        assert(s[k] == l[k]);
    }
    assert(s[n] == 10);
    lemma_scan_end_is(s, 0, n, ByteClass::LineContent);
    if n > 0 {
        assert(s[n - 1] == l.last());
    }
    assert(line_content_end(s) == n);
    assert(s.take(n) =~= l);
    assert(line_break_len(s, n) == 1);
}

/// What the line `l` gives when it is the last line, without a terminator.
pub proof fn lemma_last_line(l: Seq<u8>)
    requires
        is_one_line(l),
    ensures
        spec_line(l) == match spec_entry_in_line(l) {
            Err(e) => Err(e),
            Ok((out, _)) => Ok((out, l.len() as int)),
        },
{
    lemma_scan_end_is(l, 0, l.len() as int, ByteClass::LineContent);
    assert(line_content_end(l) == l.len());
    assert(l.take(l.len() as int) =~= l);
    assert(line_break_len(l, l.len() as int) == 0);
}

/// A line that parses alone to one entry gives that entry.
pub proof fn lemma_single_line_chat(l: Seq<u8>, e: EntryModel)
    requires
        is_one_line(l),
        spec_chat(l) == Ok::<Seq<EntryModel>, ParseError>(seq![e]),
    ensures
        entry_of(spec_entry_in_line(l)) == Some(e),
        l.len() > 0,
{
    lemma_last_line(l);
    if l.len() == 0 {
        assert(spec_chat(l) == Ok::<Seq<EntryModel>, ParseError>(Seq::empty()));
        assert(Seq::<EntryModel>::empty().len() == 0);
    } else {
        assert(l.skip(0) =~= l);
        match spec_entry_in_line(l) {
            Err(_) => {},
            Ok((out, _)) => {
                match out {
                    LineModel::Entry(m) => {
                        assert(assemble(l, l.len() as int, Seq::empty().push(m)) == Ok::<
                            Seq<EntryModel>,
                            ParseError,
                        >(Seq::empty().push(m)));
                        assert(Seq::<EntryModel>::empty().push(m)[0] == m);
                        assert(seq![e][0] == e);
                    },
                    LineModel::Continuation(_) => {},
                }
            },
        }
    }
}

/// A line with no timestamp at its start is, when it is valid UTF-8, the
/// continuation of the text before it.
pub proof fn lemma_untimed_line(f: Seq<u8>)
    requires
        spec_timestamp_at(f, entry_start(f)) is None,
        valid_utf8(f),
    ensures
        spec_entry_in_line(f) == Ok::<(LineModel, int), ParseError>(
            (LineModel::Continuation(decode_utf8(f)), f.len() as int),
        ),
{
    reveal(spec_entry_in_line);
}

/// Reading a first line, followed by `\n` and more, that gives an entry.
proof fn lemma_first_entry_read(l1: Seq<u8>, rest: Seq<u8>, e1: EntryModel)
    requires
        is_one_line(l1),
        !ends_with_cr(l1),
        entry_of(spec_entry_in_line(l1)) == Some(e1),
    ensures
        assemble(l1 + seq![10u8] + rest, 0, Seq::empty()) == assemble(
            l1 + seq![10u8] + rest,
            l1.len() + 1int,
            seq![e1],
        ),
{
    let s = l1 + seq![10u8] + rest;
    lemma_line_then_break(l1, rest);
    assert(s.skip(0) =~= s);
    assert(Seq::<EntryModel>::empty().push(e1) =~= seq![e1]);
}

/// Reading a last line, from `p` to the end of `s`, that gives an entry.
proof fn lemma_last_entry_read(s: Seq<u8>, p: int, l2: Seq<u8>, acc: Seq<EntryModel>, e2: EntryModel)
    requires
        0 <= p < s.len(),
        s.skip(p) == l2,
        is_one_line(l2),
        entry_of(spec_entry_in_line(l2)) == Some(e2),
    ensures
        assemble(s, p, acc) == Ok::<Seq<EntryModel>, ParseError>(acc.push(e2)),
{
    lemma_last_line(l2);
    assert(s.len() == p + l2.len());
    assert(assemble(s, s.len() as int, acc.push(e2)) == Ok::<Seq<EntryModel>, ParseError>(
        acc.push(e2),
    ));
    assert(assemble(s, p, acc) == assemble(s, s.len() as int, acc.push(e2)));
}

/// Two lines that each parse alone to one entry parse, joined by `\n`, to
/// those two entries in their order: the first line does not read into the
/// second. (A `\r` that ends the first line would become part of its
/// terminator, so the first line does not end with one.)
pub proof fn law_two_lines_two_entries(l1: Seq<u8>, l2: Seq<u8>, e1: EntryModel, e2: EntryModel)
    requires
        is_one_line(l1),
        !ends_with_cr(l1),
        is_one_line(l2),
        spec_chat(l1) == Ok::<Seq<EntryModel>, ParseError>(seq![e1]),
        spec_chat(l2) == Ok::<Seq<EntryModel>, ParseError>(seq![e2]),
    ensures
        spec_chat(l1 + seq![10u8] + l2) == Ok::<Seq<EntryModel>, ParseError>(seq![e1, e2]),
{
    let s = l1 + seq![10u8] + l2;
    let p = l1.len() + 1int;
    lemma_single_line_chat(l1, e1);
    lemma_single_line_chat(l2, e2);
    lemma_first_entry_read(l1, l2, e1);
    assert(s.skip(p) =~= l2);
    lemma_last_entry_read(s, p, l2, seq![e1], e2);
    assert(seq![e1].push(e2) =~= seq![e1, e2]);
}

/// A line that parses alone to one text entry, followed by `\n` and a
/// non-empty line without a timestamp, parses to one entry whose text is the
/// first text, `\n`, and the second line.
pub proof fn law_continuation_joins_text(
    l1: Seq<u8>,
    f: Seq<u8>,
    e1: EntryModel,
    text: Seq<char>,
)
    requires
        is_one_line(l1),
        !ends_with_cr(l1),
        spec_chat(l1) == Ok::<Seq<EntryModel>, ParseError>(seq![e1]),
        e1.message == Payload::Text(text),
        is_one_line(f),
        f.len() > 0,
        spec_timestamp_at(f, entry_start(f)) is None,
        valid_utf8(f),
    ensures
        spec_chat(l1 + seq![10u8] + f) == Ok::<Seq<EntryModel>, ParseError>(
            seq![EntryModel { message: Payload::Text(text + seq!['\n'] + decode_utf8(f)), ..e1 }],
        ),
{
    let s = l1 + seq![10u8] + f;
    let p = l1.len() + 1int;
    lemma_single_line_chat(l1, e1);
    lemma_untimed_line(f);
    lemma_first_entry_read(l1, f, e1);
    assert(s.skip(p) =~= f);
    lemma_last_line(f);
    let joined = continued(e1, decode_utf8(f));
    assert(seq![e1].update(0, joined) =~= seq![joined]);
    assert(assemble(s, s.len() as int, seq![joined]) == Ok::<Seq<EntryModel>, ParseError>(
        seq![joined],
    ));
    assert(assemble(s, p, seq![e1]) == assemble(s, s.len() as int, seq![joined]));
}

/// A non-empty line without a timestamp right after a line that parses to an
/// image or a document is a structural error, reported where it starts.
/// (Invalid UTF-8 in that line is reported as an encoding error instead.)
pub proof fn law_continuation_after_media_fails(
    l1: Seq<u8>,
    f: Seq<u8>,
    e1: EntryModel,
)
    requires
        is_one_line(l1),
        !ends_with_cr(l1),
        spec_chat(l1) == Ok::<Seq<EntryModel>, ParseError>(seq![e1]),
        e1.message is Image || e1.message is Document,
        is_one_line(f),
        f.len() > 0,
        spec_timestamp_at(f, entry_start(f)) is None,
        valid_utf8(f),
    ensures
        spec_chat(l1 + seq![10u8] + f) == Err::<Seq<EntryModel>, ParseError>(
            error_at(ParseErrorKind::StructuralContinuation, l1.len() + 1int),
        ),
{
    let s = l1 + seq![10u8] + f;
    let p = l1.len() + 1int;
    lemma_single_line_chat(l1, e1);
    lemma_untimed_line(f);
    lemma_first_entry_read(l1, f, e1);
    assert(s.skip(p) =~= f);
    lemma_last_line(f);
}

/// A non-empty run of ASCII digits.
pub open spec fn is_digits(d: Seq<u8>) -> bool {
    d.len() > 0 && forall|k: int| 0 <= k < d.len() ==> in_class(ByteClass::Digit, #[trigger] d[k])
}

/// The digits `d` at `i`, followed by the byte `sep`, read as one number.
pub proof fn lemma_number_before(s: Seq<u8>, i: int, d: Seq<u8>, sep: u8)
    requires
        0 <= i,
        i + d.len() < s.len(),
        s.subrange(i, i + d.len()) == d,
        s[i + d.len()] == sep,
        is_digits(d),
        !in_class(ByteClass::Digit, sep),
    ensures
        number_before(s, i, sep) == Some((digits_value(d), i + d.len() + 1)),
{
    assert forall|k: int| i <= k < i + d.len() implies in_class(
        ByteClass::Digit,
        #[trigger] s[k],
    ) by {
        assert(s[k] == s.subrange(i, i + d.len())[k - i]);
    }
    lemma_scan_end_is(s, i, i + d.len(), ByteClass::Digit);
}

/// The bytes of a timestamp token `[d.mo.y, h:mi:se]` with these digit runs.
pub open spec fn timestamp_bytes(
    d: Seq<u8>,
    mo: Seq<u8>,
    y: Seq<u8>,
    h: Seq<u8>,
    mi: Seq<u8>,
    se: Seq<u8>,
) -> Seq<u8> {
    seq![91u8] + d + seq![46u8] + mo + seq![46u8] + y + seq![44u8, 32u8] + h + seq![58u8] + mi
        + seq![58u8] + se + seq![93u8]
}

/// The numbers that the digit runs of a timestamp token write, in the order
/// of the token.
pub open spec fn token_numbers(
    d: Seq<u8>,
    mo: Seq<u8>,
    y: Seq<u8>,
    h: Seq<u8>,
    mi: Seq<u8>,
    se: Seq<u8>,
) -> Seq<nat> {
    seq![
        digits_value(d),
        digits_value(mo),
        digits_value(y),
        digits_value(h),
        digits_value(mi),
        digits_value(se),
    ]
}

/// A timestamp token with digit runs in each place reads as its six numbers.
#[verifier::rlimit(100)]
pub proof fn lemma_timestamp_token(
    d: Seq<u8>,
    mo: Seq<u8>,
    y: Seq<u8>,
    h: Seq<u8>,
    mi: Seq<u8>,
    se: Seq<u8>,
    rest: Seq<u8>,
)
    requires
        is_digits(d),
        is_digits(mo),
        is_digits(y),
        is_digits(h),
        is_digits(mi),
        is_digits(se),
    ensures
        timestamp_token(timestamp_bytes(d, mo, y, h, mi, se) + rest, 0) == Some(
            (token_numbers(d, mo, y, h, mi, se), timestamp_bytes(d, mo, y, h, mi, se).len() as int),
        ),
{
    let s = timestamp_bytes(d, mo, y, h, mi, se) + rest;
    let a = 1 + d.len() as int;
    let b = a + 1 + mo.len() as int;
    let c = b + 1 + y.len() as int;
    let e = c + 2 + h.len() as int;
    let f = e + 1 + mi.len() as int;
    let g = f + 1 + se.len() as int;
    assert(number_before(s, 1, 46) == Some((digits_value(d), a + 1))) by {
        assert(s.subrange(1, a) =~= d);
        lemma_number_before(s, 1, d, 46);
    }
    assert(number_before(s, a + 1, 46) == Some((digits_value(mo), b + 1))) by {
        assert(s.subrange(a + 1, b) =~= mo);
        lemma_number_before(s, a + 1, mo, 46);
    }
    assert(number_before(s, b + 1, 44) == Some((digits_value(y), c + 1))) by {
        assert(s.subrange(b + 1, c) =~= y);
        lemma_number_before(s, b + 1, y, 44);
    }
    assert(number_before(s, c + 2, 58) == Some((digits_value(h), e + 1))) by {
        assert(s.subrange(c + 2, e) =~= h);
        lemma_number_before(s, c + 2, h, 58);
    }
    assert(number_before(s, e + 1, 58) == Some((digits_value(mi), f + 1))) by {
        assert(s.subrange(e + 1, f) =~= mi);
        lemma_number_before(s, e + 1, mi, 58);
    }
    assert(number_before(s, f + 1, 93) == Some((digits_value(se), g + 1))) by {
        assert(s.subrange(f + 1, g) =~= se);
        lemma_number_before(s, f + 1, se, 93);
    }
    assert(s[c + 1] == 32);
}

/// The timestamp at the start of a line that opens with a token.
proof fn lemma_line_timestamp(
    d: Seq<u8>,
    mo: Seq<u8>,
    y: Seq<u8>,
    h: Seq<u8>,
    mi: Seq<u8>,
    se: Seq<u8>,
    rest: Seq<u8>,
)
    requires
        is_digits(d),
        is_digits(mo),
        is_digits(y),
        is_digits(h),
        is_digits(mi),
        is_digits(se),
        fields_valid(token_numbers(d, mo, y, h, mi, se)),
    ensures
        ({
            let l = timestamp_bytes(d, mo, y, h, mi, se) + rest;
            spec_timestamp_at(l, entry_start(l)) == Some(
                (
                    model_of_fields(token_numbers(d, mo, y, h, mi, se)),
                    timestamp_bytes(d, mo, y, h, mi, se).len() as int,
                ),
            )
        }),
{
    let l = timestamp_bytes(d, mo, y, h, mi, se) + rest;
    lemma_timestamp_token(d, mo, y, h, mi, se, rest);
    assert(l[0] == 91);
    assert(l.subrange(0, 3)[0] != marker()[0]);
}

/// The spaces and the sender after a token `tb`.
proof fn lemma_line_sender(tb: Seq<u8>, name: Seq<u8>, text: Seq<u8>)
    requires
        name.len() > 0,
        name[0] != 32,
        forall|k: int| 0 <= k < name.len() ==> in_class(ByteClass::NameByte, #[trigger] name[k]),
        valid_utf8(name),
    ensures
        ({
            let l = tb + (seq![32u8] + name + seq![58u8, 32u8] + text);
            let n = tb.len() + 1int;
            let c = n + name.len();
            &&& scan_end(l, tb.len() as int, ByteClass::Space) == n
            &&& spec_participant_at(l, n) == Ok::<(Seq<char>, int), ParseError>(
                (decode_utf8(name), c),
            )
            &&& l[c + 1] == 32
        }),
{
    let l = tb + (seq![32u8] + name + seq![58u8, 32u8] + text);
    let t = tb.len() as int;
    let n = t + 1;
    let c = n + name.len() as int;
    assert(l[t] == 32);
    assert(l[n] == name[0]);
    lemma_scan_end_is(l, t, n, ByteClass::Space);
    assert forall|k: int| n <= k < c implies in_class(ByteClass::NameByte, #[trigger] l[k]) by {
        assert(l[k] == name[k - n]);
    }
    assert(l[c] == 58);
    lemma_scan_end_is(l, n, c, ByteClass::NameByte);
    assert(l.subrange(n, c) =~= name);
    assert(l[c + 1] == 32);
}

/// A payload after `head` that reads as plain text on its own.
proof fn lemma_line_payload(head: Seq<u8>, text: Seq<u8>)
    requires
        valid_utf8(text),
        classify(text, 0).0 == PayloadKind::Text,
    ensures
        spec_message_type_at(head + text, head.len() as int) == Ok::<(Payload, int), ParseError>(
            (Payload::Text(decode_utf8(text)), (head + text).len() as int),
        ),
{
    let l = head + text;
    lemma_classify_shift(head, text);
    assert(l.subrange(head.len() as int, l.len() as int) =~= text);
}

/// A line of a token, a sender and a text, none with a newline, is one line.
proof fn lemma_line_is_one_line(tb: Seq<u8>, name: Seq<u8>, text: Seq<u8>)
    requires
        is_one_line(tb),
        forall|k: int| 0 <= k < name.len() ==> in_class(ByteClass::NameByte, #[trigger] name[k]),
        is_one_line(text),
    ensures
        is_one_line(tb + seq![32u8] + name + seq![58u8, 32u8] + text),
{
    let l = tb + seq![32u8] + name + seq![58u8, 32u8] + text;
    let n = tb.len() + 1int;
    let c = n + name.len();
    assert forall|k: int| 0 <= k < l.len() implies !is_newline(#[trigger] l[k]) by {
        if k < tb.len() {
            assert(l[k] == tb[k]);
        } else if k >= n && k < c {
            assert(l[k] == name[k - n]);
        } else if k >= c + 2 {
            assert(l[k] == text[k - c - 2]);
        }
    }
}

/// A line whose timestamp, spaces, sender, `": "` and payload read as
/// given is one entry of them.
proof fn lemma_entry_from_parts(
    l: Seq<u8>,
    stamp: TimestampModel,
    t: int,
    n: int,
    c: int,
    sender: Seq<char>,
    message: Payload,
)
    requires
        spec_timestamp_at(l, entry_start(l)) == Some((stamp, t)),
        scan_end(l, t, ByteClass::Space) == n,
        n > t,
        spec_participant_at(l, n) == Ok::<(Seq<char>, int), ParseError>((sender, c)),
        c + 1 < l.len(),
        l[c + 1] == 32,
        spec_message_type_at(l, c + 2) == Ok::<(Payload, int), ParseError>(
            (message, l.len() as int),
        ),
    ensures
        spec_entry_in_line(l) == Ok::<(LineModel, int), ParseError>(
            (
                LineModel::Entry(EntryModel { timestamp: stamp, sender, message }),
                l.len() as int,
            ),
        ),
{
    reveal(spec_entry_in_line);
}

/// A timestamp token holds no newline.
proof fn lemma_timestamp_bytes_one_line(
    d: Seq<u8>,
    mo: Seq<u8>,
    y: Seq<u8>,
    h: Seq<u8>,
    mi: Seq<u8>,
    se: Seq<u8>,
)
    requires
        is_digits(d),
        is_digits(mo),
        is_digits(y),
        is_digits(h),
        is_digits(mi),
        is_digits(se),
    ensures
        is_one_line(timestamp_bytes(d, mo, y, h, mi, se)),
{
    let parts = seq![91u8] + d + seq![46u8] + mo + seq![46u8] + y + seq![44u8, 32u8] + h + seq![
        58u8,
    ] + mi + seq![58u8] + se + seq![93u8];
    assert forall|k: int| 0 <= k < parts.len() implies in_class(
        ByteClass::LineContent,
        #[trigger] parts[k],
    ) by {
        lemma_digit_runs_are_line_content(d);
        lemma_digit_runs_are_line_content(mo);
        lemma_digit_runs_are_line_content(y);
        lemma_digit_runs_are_line_content(h);
        lemma_digit_runs_are_line_content(mi);
        lemma_digit_runs_are_line_content(se);
    }
}

/// Digits are no newlines.
proof fn lemma_digit_runs_are_line_content(d: Seq<u8>)
    requires
        is_digits(d),
    ensures
        forall|k: int| 0 <= k < d.len() ==> in_class(ByteClass::LineContent, #[trigger] d[k]),
{
    assert forall|k: int| 0 <= k < d.len() implies in_class(ByteClass::LineContent, #[trigger] d[k]) by {
        assert(in_class(ByteClass::Digit, d[k]));
    }
}

/// A well-formed single line `[dd.mm.yy, H:M:S] name: text` gives exactly one
/// entry: the timestamp of its numbers, the sender `name` and the text `text`.
/// The name is taken verbatim after the spaces that follow the timestamp, so
/// it does not start with a space and holds no colon; the text, which may be
/// empty, reads as plain text (it is not one of the marked forms).
#[verifier::rlimit(30)]
pub proof fn law_single_line_text(
    d: Seq<u8>,
    mo: Seq<u8>,
    y: Seq<u8>,
    h: Seq<u8>,
    mi: Seq<u8>,
    se: Seq<u8>,
    name: Seq<u8>,
    text: Seq<u8>,
)
    requires
        is_digits(d),
        is_digits(mo),
        is_digits(y),
        is_digits(h),
        is_digits(mi),
        is_digits(se),
        fields_valid(token_numbers(d, mo, y, h, mi, se)),
        name.len() > 0,
        name[0] != 32,
        forall|k: int| 0 <= k < name.len() ==> in_class(ByteClass::NameByte, #[trigger] name[k]),
        valid_utf8(name),
        is_one_line(text),
        valid_utf8(text),
        classify(text, 0).0 == PayloadKind::Text,
    ensures
        spec_chat(
            timestamp_bytes(d, mo, y, h, mi, se) + seq![32u8] + name + seq![58u8, 32u8] + text,
        ) == Ok::<Seq<EntryModel>, ParseError>(
            seq![
                EntryModel {
                    timestamp: model_of_fields(token_numbers(d, mo, y, h, mi, se)),
                    sender: decode_utf8(name),
                    message: Payload::Text(decode_utf8(text)),
                },
            ],
        ),
{
    let tb = timestamp_bytes(d, mo, y, h, mi, se);
    let head = tb + seq![32u8] + name + seq![58u8, 32u8];
    let l = head + text;
    let stamp = model_of_fields(token_numbers(d, mo, y, h, mi, se));
    let entry = EntryModel {
        timestamp: stamp,
        sender: decode_utf8(name),
        message: Payload::Text(decode_utf8(text)),
    };
    let t = tb.len() as int;
    let n = t + 1;
    let c = n + name.len() as int;
    lemma_line_timestamp(d, mo, y, h, mi, se, seq![32u8] + name + seq![58u8, 32u8] + text);
    assert(l =~= tb + (seq![32u8] + name + seq![58u8, 32u8] + text));
    lemma_line_sender(tb, name, text);
    lemma_line_payload(head, text);
    lemma_entry_from_parts(l, stamp, t, n, c, decode_utf8(name), Payload::Text(decode_utf8(text)));
    lemma_timestamp_bytes_one_line(d, mo, y, h, mi, se);
    lemma_line_is_one_line(tb, name, text);
    assert(l.skip(0) =~= l);
    lemma_last_entry_read(l, 0, l, Seq::empty(), entry);
    assert(Seq::<EntryModel>::empty().push(entry) =~= seq![entry]);
}

/// An entry as parsing makes it: a named sender and a real instant.
pub open spec fn entry_well_formed(e: EntryModel) -> bool {
    e.sender.len() > 0 && e.timestamp.is_valid()
}

/// Valid UTF-8 that is not empty decodes to characters that are not empty.
proof fn lemma_decode_not_empty(b: Seq<u8>)
    requires
        valid_utf8(b),
        b.len() > 0,
    ensures
        decode_utf8(b).len() > 0,
{
}

/// A line that gives an entry gives a well-formed one.
proof fn lemma_line_entry_well_formed(s: Seq<u8>, m: EntryModel, k: int)
    requires
        spec_line(s) == Ok::<(LineModel, int), ParseError>((LineModel::Entry(m), k)),
    ensures
        entry_well_formed(m),
{
    reveal(spec_entry_in_line);
    let t = s.take(line_content_end(s));
    let stamp = spec_timestamp_at(t, entry_start(t));
    if let Some((ts, j)) = stamp {
        let n = scan_end(t, j, ByteClass::Space);
        if let Some(e) = crate::chat_participant::name_end(t, n) {
            if valid_utf8(t.subrange(n, e)) {
                lemma_decode_not_empty(t.subrange(n, e));
            }
        }
    }
}

/// Every entry of a parsed chat has a non-empty sender and a real timestamp;
/// joining continuation lines changes neither.
pub proof fn law_parsed_entries_are_well_formed(s: Seq<u8>, entries: Seq<EntryModel>)
    requires
        spec_chat(s) == Ok::<Seq<EntryModel>, ParseError>(entries),
    ensures
        forall|i: int| 0 <= i < entries.len() ==> entry_well_formed(#[trigger] entries[i]),
{
    lemma_assemble_well_formed(s, 0, Seq::empty(), entries);
}

proof fn lemma_assemble_well_formed(
    s: Seq<u8>,
    pos: int,
    acc: Seq<EntryModel>,
    entries: Seq<EntryModel>,
)
    requires
        forall|i: int| 0 <= i < acc.len() ==> entry_well_formed(#[trigger] acc[i]),
        assemble(s, pos, acc) == Ok::<Seq<EntryModel>, ParseError>(entries),
    ensures
        forall|i: int| 0 <= i < entries.len() ==> entry_well_formed(#[trigger] entries[i]),
    decreases
            if pos < s.len() {
                s.len() - pos
            } else {
                0
            },
{
    if 0 <= pos < s.len() {
        match spec_line(s.skip(pos)) {
            Err(e) => {},
            Ok((out, k)) => {
                if k > 0 {
                    match out {
                        LineModel::Entry(m) => {
                            lemma_line_entry_well_formed(s.skip(pos), m, k);
                            let next = acc.push(m);
                            assert forall|i: int| 0 <= i < next.len() implies entry_well_formed(
                                #[trigger] next[i],
                            ) by {
                                if i < acc.len() {
                                    assert(next[i] == acc[i]);
                                }
                            }
                            lemma_assemble_well_formed(s, pos + k, next, entries);
                        },
                        LineModel::Continuation(c) => {
                            if acc.len() > 0 && acc.last().message is Text {
                                let next = acc.update(acc.len() - 1, continued(acc.last(), c));
                                assert forall|i: int| 0 <= i < next.len() implies entry_well_formed(
                                    #[trigger] next[i],
                                ) by {
                                    if i < acc.len() - 1 {
                                        assert(next[i] == acc[i]);
                                    } else {
                                        assert(entry_well_formed(acc[acc.len() - 1]));
                                    }
                                }
                                lemma_assemble_well_formed(s, pos + k, next, entries);
                            }
                        },
                    }
                }
            },
        }
    } else {
        assert(acc == entries);
    }
}

} // verus!
