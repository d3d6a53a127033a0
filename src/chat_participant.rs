use crate::bytes::{decode_span, decoded, rest_from, scan, scan_end, ByteClass};
use crate::error::{error_at, ParseError, ParseErrorKind};
use vstd::prelude::*;

verus! {

/// The end of a sender's name that starts at `i`: the first `:` before any
/// newline, where the name is not empty.
pub open spec fn name_end(s: Seq<u8>, i: int) -> Option<int> {
    let e = scan_end(s, i, ByteClass::NameByte);
    if i < e && e < s.len() && s[e] == 58 {
        Some(e)
    } else {
        None
    }
}

/// What reading a name at `i` gives: the name and where its `:` stands.
pub open spec fn spec_participant_at(s: Seq<u8>, i: int) -> Result<(Seq<char>, int), ParseError> {
    match name_end(s, i) {
        None => Err(error_at(ParseErrorKind::MalformedParticipant, i)),
        Some(e) => match decoded(s.subrange(i, e)) {
            None => Err(error_at(ParseErrorKind::Encoding, i)),
            Some(name) => Ok((name, e)),
        },
    }
}

/// The sender of a message, by display name, taken verbatim.
#[derive(Debug, PartialEq, Eq, PartialOrd, Ord, Clone, Hash)]
pub struct ChatParticipant {
    name: String,
}

impl View for ChatParticipant {
    type V = Seq<char>;

    closed spec fn view(&self) -> Seq<char> {
        self.name@
    }
}

impl ChatParticipant {
    /// Reads the name at `i`; see `spec_participant_at`.
    pub fn parse_at(s: &[u8], i: usize) -> (r: Result<(ChatParticipant, usize), ParseError>)
        requires
            i <= s@.len(),
        ensures
            match spec_participant_at(s@, i as int) {
                Err(e) => r == Err::<(ChatParticipant, usize), ParseError>(e),
                Ok((name, e)) => r matches Ok((p, k)) && p@ == name && k == e && k < s@.len(),
            },
    {
        let e = scan(s, i, ByteClass::NameByte);
        if !(i < e && e < s.len() && s[e] == 58) {
            return Err(ParseError { kind: ParseErrorKind::MalformedParticipant, offset: i });
        }
        match decode_span(s, i, e) {
            None => Err(ParseError { kind: ParseErrorKind::Encoding, offset: i }),
            Some(name) => Ok((ChatParticipant { name }, e)),
        }
    }

    /// Reads a name at the start of `input`, up to the first `:` of its line;
    /// returns the bytes from that `:` on and the participant.
    pub fn parse(input: &[u8]) -> (r: Result<(&[u8], ChatParticipant), ParseError>)
        ensures
            match spec_participant_at(input@, 0) {
                Err(e) => r == Err::<(&[u8], ChatParticipant), ParseError>(e),
                Ok((name, e)) => r matches Ok((rest, p)) && p@ == name && rest@ == input@.skip(
                    e,
                ),
            },
    {
        match ChatParticipant::parse_at(input, 0) {
            Ok((p, e)) => Ok((rest_from(input, e), p)),
            Err(e) => Err(e),
        }
    }

    /// The participant with the display name `name`.
    pub fn from_name(name: String) -> (r: ChatParticipant)
        ensures
            r@ == name@,
    {
        ChatParticipant { name }
    }

    /// The display name.
    pub fn name(&self) -> (r: &str)
        ensures
            r@ == self@,
    {
        self.name.as_str()
    }
}

} // verus!
