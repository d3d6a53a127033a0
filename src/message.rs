use crate::bytes::{
    bytes_at, decode_span, decoded, find_line_content_end, line_content_end, has_bytes_at, marker, marker_bytes, rest_from, scan, scan_end,
    ByteClass,
};
use crate::chat_participant::{spec_participant_at, ChatParticipant};
use crate::error::{error_at, ParseError, ParseErrorKind};
use crate::message_type::{spec_message_type_at, MessageType, Payload};
use crate::timestamp::{spec_timestamp_at, Timestamp, TimestampModel};
use vstd::prelude::*;

verus! {

/// One entry of a chat: when, from whom, and what.
pub struct EntryModel {
    pub timestamp: TimestampModel,
    pub sender: Seq<char>,
    pub message: Payload,
}

/// What one line of an export gives.
pub enum LineModel {
    Entry(EntryModel),
    Continuation(Seq<char>),
}

/// Where the entry proper starts in the line `t`: after a leading marker, if
/// there is one.
pub open spec fn entry_start(t: Seq<u8>) -> int {
    if has_bytes_at(t, 0, marker()) {
        3
    } else {
        0
    }
}

/// What the line `t` (without its line break) gives, and how much of it is
/// read. A line that does not start with a timestamp token followed by a
/// space is, whole and verbatim, the continuation of the text before it.
/// After the timestamp and its spaces come the sender, `": "` and the payload.
#[verifier::opaque]
pub open spec fn spec_entry_in_line(t: Seq<u8>) -> Result<(LineModel, int), ParseError> {
    match spec_timestamp_at(t, entry_start(t)) {
        Some((stamp, j)) => if scan_end(t, j, ByteClass::Space) > j {
            entry_after_timestamp(t, stamp, scan_end(t, j, ByteClass::Space))
        } else {
            continuation_line(t)
        },
        None => continuation_line(t),
    }
}

/// The line `t` as the continuation of the text before it.
pub open spec fn continuation_line(t: Seq<u8>) -> Result<(LineModel, int), ParseError> {
    match decoded(t) {
        None => Err(error_at(ParseErrorKind::Encoding, 0)),
        Some(c) => Ok((LineModel::Continuation(c), t.len() as int)),
    }
}

/// The entry of the line `t` sent at `stamp`, whose sender starts at `n`.
pub open spec fn entry_after_timestamp(t: Seq<u8>, stamp: TimestampModel, n: int) -> Result<
    (LineModel, int),
    ParseError,
> {
    match spec_participant_at(t, n) {
        Err(e) => Err(
            if e.kind == ParseErrorKind::MalformedParticipant {
                error_at(ParseErrorKind::MalformedEntry, n)
            } else {
                e
            },
        ),
        Ok((name, c)) => if !(c + 1 < t.len() && t[c + 1] == 32) {
            Err(error_at(ParseErrorKind::MalformedEntry, n))
        } else {
            match spec_message_type_at(t, c + 2) {
                Err(e) => Err(e),
                Ok((p, e)) => Ok(
                    (LineModel::Entry(EntryModel { timestamp: stamp, sender: name, message: p }), e),
                ),
            }
        },
    }
}

/// The length of the line break (`\n` or `\r\n`) at `i`, or 0.
pub open spec fn line_break_len(s: Seq<u8>, i: int) -> int {
    if 0 <= i < s.len() && s[i] == 10 {
        1
    } else if 0 <= i && i + 1 < s.len() && s[i] == 13 && s[i + 1] == 10 {
        2
    } else {
        0
    }
}

/// What the first line of `s` gives, and how many bytes of `s` it takes: the
/// whole line with its terminator.
pub open spec fn spec_line(s: Seq<u8>) -> Result<(LineModel, int), ParseError> {
    let le = line_content_end(s);
    match spec_entry_in_line(s.take(le)) {
        Err(e) => Err(e),
        Ok((out, _)) => Ok((out, le + line_break_len(s, le))),
    }
}

/// The entry `m` with `more` added to its text on a new line.
pub open spec fn continued(m: EntryModel, more: Seq<char>) -> EntryModel {
    EntryModel {
        message: match m.message {
            Payload::Text(t) => Payload::Text(t + seq!['\n'] + more),
            other => other,
        },
        ..m
    }
}

/// One message of a chat.
#[derive(Debug, PartialEq, Eq, PartialOrd, Ord, Clone, Hash)]
pub struct Message {
    timestamp: Timestamp,
    sender: ChatParticipant,
    message_type: MessageType,
}

impl View for Message {
    type V = EntryModel;

    closed spec fn view(&self) -> EntryModel {
        EntryModel {
            timestamp: self.timestamp@,
            sender: self.sender@,
            message: self.message_type@,
        }
    }
}

/// What one line of an export gives: a new message, or more text for the
/// message before it.
#[derive(Debug, PartialEq, Eq, Clone)]
pub enum Line {
    Entry(Message),
    Continuation(String),
}

impl View for Line {
    type V = LineModel;

    open spec fn view(&self) -> LineModel {
        match self {
            Line::Entry(m) => LineModel::Entry(m@),
            Line::Continuation(s) => LineModel::Continuation(s@),
        }
    }
}

impl Message {
    /// Reads the line `t` (without its line break); see `spec_entry_in_line`.
    pub fn parse_in_line(t: &[u8]) -> (r: Result<(Line, usize), ParseError>)
        ensures
            match spec_entry_in_line(t@) {
                Err(e) => r == Err::<(Line, usize), ParseError>(e) && e.offset <= t@.len(),
                Ok((out, k)) => r matches Ok((l, j)) && l@ == out && j == k && j <= t@.len(),
            },
    {
        reveal(spec_entry_in_line);
        let mark = marker_bytes();
        let start: usize = if bytes_at(t, 0, mark.as_slice()) {
            3
        } else {
            0
        };
        assert(start == entry_start(t@));
        if let Some((timestamp, j)) = Timestamp::parse_at(t, start) {
            let n = scan(t, j, ByteClass::Space);
            if n > j {
                let (sender, c) = match ChatParticipant::parse_at(t, n) {
                    Ok(x) => x,
                    Err(e) => {
                        if e.kind == ParseErrorKind::MalformedParticipant {
                            return Err(ParseError { kind: ParseErrorKind::MalformedEntry, offset: n });
                        }
                        return Err(e);
                    },
                };
                if !(c + 1 < t.len() && t[c + 1] == 32) {
                    return Err(ParseError { kind: ParseErrorKind::MalformedEntry, offset: n });
                }
                let (message_type, e) = match MessageType::parse_at(t, c + 2) {
                    Ok(x) => x,
                    Err(e) => return Err(e),
                };
                return Ok((Line::Entry(Message { timestamp, sender, message_type }), e));
            }
        }
        match decode_span(t, 0, t.len()) {
            Some(text) => {
                assert(t@.subrange(0, t@.len() as int) =~= t@);
                Ok((Line::Continuation(text), t.len()))
            },
            None => {
                assert(t@.subrange(0, t@.len() as int) =~= t@);
                Err(ParseError { kind: ParseErrorKind::Encoding, offset: 0 })
            },
        }
    }

    /// Reads the first line of `input`: a message, or a line without a
    /// timestamp that continues the text before it. Returns the bytes after
    /// the line and its terminator, and what the line gave.
    pub fn parse(input: &[u8]) -> (r: Result<(&[u8], Line), ParseError>)
        ensures
            match spec_line(input@) {
                Err(e) => r == Err::<(&[u8], Line), ParseError>(e) && e.offset <= input@.len(),
                Ok((out, k)) => r matches Ok((rest, l)) && l@ == out && rest@ == input@.skip(k)
                    && 0 <= k <= input@.len(),
            },
    {
        let end = find_line_content_end(input);
        let line = &input[0..end];
        assert(line@ =~= input@.take(end as int));
        let out = match Message::parse_in_line(line) {
            Ok((out, _)) => out,
            Err(e) => return Err(e),
        };
        let read = if end < input.len() && input[end] == 10 {
            end + 1
        } else if input.len() - end >= 2 && input[end] == 13 && input[end + 1] == 10 {
            end + 2
        } else {
            end
        };
        Ok((rest_from(input, read), out))
    }

    /// Adds `more` on a new line to the text of a text message; leaves any
    /// other message as it is and says whether it was a text.
    pub fn continue_text(&mut self, more: &str) -> (r: bool)
        ensures
            r == (old(self)@.message is Text),
            final(self)@ == continued(old(self)@, more@),
    {
        match &mut self.message_type {
            MessageType::Text(text) => {
                proof {
                    reveal_strlit("\n");
                    assert("\n"@ =~= seq!['\n']);
                }
                text.append("\n");
                text.append(more);
                true
            },
            _ => false,
        }
    }

    /// When the message was sent.
    pub fn timestamp(&self) -> (r: &Timestamp)
        ensures
            r@ == self@.timestamp,
    {
        &self.timestamp
    }

    /// Who sent the message.
    pub fn sender(&self) -> (r: &ChatParticipant)
        ensures
            r@ == self@.sender,
    {
        &self.sender
    }

    /// What the message holds.
    pub fn message_type(&self) -> (r: &MessageType)
        ensures
            r@ == self@.message,
    {
        &self.message_type
    }
}

} // verus!
