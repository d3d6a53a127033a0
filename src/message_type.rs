use crate::bytes::{
    bytes_at, decode_span, find_line_content_end, line_content_end, decoded, document_tag, document_tag_bytes, has_bytes_at, image_tag,
    image_tag_bytes, lemma_has_bytes_at_shift, lemma_scan_end, lemma_scan_end_shift,
    location_tag, location_tag_bytes, marker, marker_bytes, rest_from, scan, scan_end, ByteClass,
};
use crate::error::{error_at, ParseError, ParseErrorKind};
use vstd::prelude::*;

verus! {

/// The variants of a message, without their payloads.
#[derive(Clone, Copy, Debug, PartialEq, Eq, Structural)]
pub enum PayloadKind {
    Text,
    Image,
    Document,
    InternalMessage,
    Location,
}

/// A message's content, as characters.
pub enum Payload {
    Text(Seq<char>),
    Image,
    Document(Seq<char>),
    InternalMessage(Seq<char>),
    Location(Seq<char>),
}

/// What a message holds.
#[derive(Debug, PartialEq, Eq, PartialOrd, Ord, Clone, Hash)]
pub enum MessageType {
    /// Plain text.
    Text(String),
    /// An image that the export left out.
    Image,
    /// A document that the export left out, by file name.
    Document(String),
    /// A notice of the chat service itself, such as a changed number.
    InternalMessage(String),
    /// A shared location, by its description.
    Location(String),
}

impl View for MessageType {
    type V = Payload;

    open spec fn view(&self) -> Payload {
        match self {
            MessageType::Text(s) => Payload::Text(s@),
            MessageType::Image => Payload::Image,
            MessageType::Document(s) => Payload::Document(s@),
            MessageType::InternalMessage(s) => Payload::InternalMessage(s@),
            MessageType::Location(s) => Payload::Location(s@),
        }
    }
}

/// The payload of kind `k` whose text is `c`.
pub open spec fn payload_of(k: PayloadKind, c: Seq<char>) -> Payload {
    match k {
        PayloadKind::Text => Payload::Text(c),
        PayloadKind::Image => Payload::Image,
        PayloadKind::Document => Payload::Document(c),
        PayloadKind::InternalMessage => Payload::InternalMessage(c),
        PayloadKind::Location => Payload::Location(c),
    }
}

/// How the payload at `i` of the line `t` reads: its kind, the span of its
/// text, and where it ends (always the end of the line). The first of these
/// that matches decides: a document (a word, spaces, the marker,
/// `document omitted`, the end of the line), an image (spaces, the marker,
/// `image omitted`, the end of the line), a location (spaces, the marker,
/// `Location: `, a description), a notice (spaces, the marker, the rest of the
/// line), and plain text (the rest of the line).
pub open spec fn classify(t: Seq<u8>, i: int) -> (PayloadKind, int, int, int) {
    let word = scan_end(t, i, ByteClass::Word);
    let after_word = scan_end(t, word, ByteClass::Space);
    let lead = scan_end(t, i, ByteClass::Space);
    if has_bytes_at(t, after_word, marker()) && has_bytes_at(t, after_word + 3, document_tag())
        && after_word + 19 == t.len() {
        (PayloadKind::Document, i, word, after_word + 19)
    } else if has_bytes_at(t, lead, marker()) && has_bytes_at(t, lead + 3, image_tag()) && lead + 16
        == t.len() {
        (PayloadKind::Image, lead + 16, lead + 16, lead + 16)
    } else if has_bytes_at(t, lead, marker()) && has_bytes_at(t, lead + 3, location_tag()) {
        (PayloadKind::Location, lead + 13, t.len() as int, t.len() as int)
    } else if has_bytes_at(t, lead, marker()) {
        (PayloadKind::InternalMessage, lead + 3, t.len() as int, t.len() as int)
    } else {
        (PayloadKind::Text, i, t.len() as int, t.len() as int)
    }
}

/// The payload at `i` of the line `t` and where it ends.
pub open spec fn spec_message_type_at(t: Seq<u8>, i: int) -> Result<(Payload, int), ParseError> {
    let (k, a, b, e) = classify(t, i);
    if k == PayloadKind::Image {
        Ok((Payload::Image, e))
    } else {
        match decoded(t.subrange(a, b)) {
            None => Err(error_at(ParseErrorKind::Encoding, a)),
            Some(c) => Ok((payload_of(k, c), e)),
        }
    }
}

/// Classifying inside `a + b` where `b` starts finds what classifying `b`
/// finds, moved by `a`.
pub proof fn lemma_classify_shift(a: Seq<u8>, b: Seq<u8>)
    ensures
        classify(a + b, a.len() as int).0 == classify(b, 0).0,
        classify(a + b, a.len() as int).1 == a.len() + classify(b, 0).1,
        classify(a + b, a.len() as int).2 == a.len() + classify(b, 0).2,
        classify(a + b, a.len() as int).3 == a.len() + classify(b, 0).3,
{
    let n = a.len() as int;
    lemma_scan_end(b, 0, ByteClass::Word);
    lemma_scan_end(b, 0, ByteClass::Space);
    let word = scan_end(b, 0, ByteClass::Word);
    lemma_scan_end(b, word, ByteClass::Space);
    let after_word = scan_end(b, word, ByteClass::Space);
    let lead = scan_end(b, 0, ByteClass::Space);
    lemma_scan_end_shift(a, b, 0, ByteClass::Word);
    lemma_scan_end_shift(a, b, 0, ByteClass::Space);
    lemma_scan_end_shift(a, b, word, ByteClass::Space);
    lemma_has_bytes_at_shift(a, b, after_word, marker());
    lemma_has_bytes_at_shift(a, b, after_word + 3, document_tag());
    lemma_has_bytes_at_shift(a, b, lead, marker());
    lemma_has_bytes_at_shift(a, b, lead + 3, image_tag());
    lemma_has_bytes_at_shift(a, b, lead + 3, location_tag());
}

/// Decides the kind of the payload at `i` of the line `t`; see `classify`.
pub fn classify_at(t: &[u8], i: usize) -> (r: (PayloadKind, usize, usize, usize))
    requires
        i <= t@.len(),
    ensures
        r.0 == classify(t@, i as int).0,
        r.1 == classify(t@, i as int).1,
        r.2 == classify(t@, i as int).2,
        r.3 == classify(t@, i as int).3,
        i <= r.1 <= r.2 <= r.3 == t@.len(),
{
    let n = t.len();
    assert(marker().len() == 3 && document_tag().len() == 16 && image_tag().len() == 13
        && location_tag().len() == 10);
    let word = scan(t, i, ByteClass::Word);
    let after_word = scan(t, word, ByteClass::Space);
    let lead = scan(t, i, ByteClass::Space);
    let mark = marker_bytes();
    let document = document_tag_bytes();
    if bytes_at(t, after_word, mark.as_slice()) && bytes_at(t, after_word + 3, document.as_slice())
        && after_word + 19 == n {
        return (PayloadKind::Document, i, word, after_word + 19);
    }
    if bytes_at(t, lead, mark.as_slice()) {
        let image = image_tag_bytes();
        if bytes_at(t, lead + 3, image.as_slice()) && lead + 16 == n {
            return (PayloadKind::Image, lead + 16, lead + 16, lead + 16);
        }
        let location = location_tag_bytes();
        if bytes_at(t, lead + 3, location.as_slice()) {
            return (PayloadKind::Location, lead + 13, n, n);
        }
        return (PayloadKind::InternalMessage, lead + 3, n, n);
    }
    (PayloadKind::Text, i, n, n)
}

impl MessageType {
    /// Reads the payload at `i` of the line `t`; see `spec_message_type_at`.
    pub fn parse_at(t: &[u8], i: usize) -> (r: Result<(MessageType, usize), ParseError>)
        requires
            i <= t@.len(),
        ensures
            match spec_message_type_at(t@, i as int) {
                Err(e) => r == Err::<(MessageType, usize), ParseError>(e) && e.offset <= t@.len(),
                Ok((p, e)) => r matches Ok((m, k)) && m@ == p && k == e && k <= t@.len(),
            },
    {
        let (kind, a, b, e) = classify_at(t, i);
        if kind == PayloadKind::Image {
            return Ok((MessageType::Image, e));
        }
        let text = match decode_span(t, a, b) {
            Some(text) => text,
            None => return Err(ParseError { kind: ParseErrorKind::Encoding, offset: a }),
        };
        let m = match kind {
            PayloadKind::Text => MessageType::Text(text),
            PayloadKind::Document => MessageType::Document(text),
            PayloadKind::InternalMessage => MessageType::InternalMessage(text),
            _ => MessageType::Location(text),
        };
        Ok((m, e))
    }

    /// Reads the payload that fills the first line of `input`; returns the
    /// bytes from the line's terminator (`\n` or `\r\n`) on, and the payload.
    pub fn parse(input: &[u8]) -> (r: Result<(&[u8], MessageType), ParseError>)
        ensures
            match spec_message_type_at(input@.take(line_content_end(input@)), 0) {
                Err(e) => r == Err::<(&[u8], MessageType), ParseError>(e),
                Ok((p, _)) => r matches Ok((rest, m)) && m@ == p && rest@ == input@.skip(
                    line_content_end(input@),
                ),
            },
    {
        let end = find_line_content_end(input);
        let line = &input[0..end];
        assert(line@ =~= input@.take(end as int));
        match MessageType::parse_at(line, 0) {
            Ok((m, _)) => Ok((rest_from(input, end), m)),
            Err(e) => Err(e),
        }
    }
}

} // verus!
