use crate::bytes::rest_from;
use crate::error::{error_at, shifted, ParseError, ParseErrorKind};
use crate::message::{continued, spec_line, EntryModel, Line, LineModel, Message};
use vstd::prelude::*;

verus! {

/// The entries of `s` read from `pos` on, after the entries `acc`: each
/// line's entry is added, and each continuation joins the text of the entry
/// just before it. A continuation with no text entry before it, and a line
/// that reads nothing, are errors.
pub open spec fn assemble(s: Seq<u8>, pos: int, acc: Seq<EntryModel>) -> Result<
    Seq<EntryModel>,
    ParseError,
>
    decreases if pos < s.len() { s.len() - pos } else { 0 },
{
    if pos < 0 || pos >= s.len() {
        Ok(acc)
    } else {
        match spec_line(s.skip(pos)) {
            Err(e) => Err(shifted(e, pos)),
            Ok((out, k)) => if k <= 0 {
                Err(error_at(ParseErrorKind::TrailingInput, pos))
            } else {
                match out {
                    LineModel::Entry(m) => assemble(s, pos + k, acc.push(m)),
                    LineModel::Continuation(c) => if acc.len() > 0 && acc.last().message is Text {
                        assemble(s, pos + k, acc.update(acc.len() - 1, continued(acc.last(), c)))
                    } else {
                        Err(error_at(ParseErrorKind::StructuralContinuation, pos))
                    },
                }
            },
        }
    }
}

/// The entries of a whole export `s`.
pub open spec fn spec_chat(s: Seq<u8>) -> Result<Seq<EntryModel>, ParseError> {
    assemble(s, 0, Seq::empty())
}

pub open spec fn models(ms: Seq<Message>) -> Seq<EntryModel> {
    ms.map_values(|m: Message| m@)
}

/// A whole chat: its messages in the order of the export.
#[derive(Debug)]
pub struct Chat {
    messages: Vec<Message>,
}

impl View for Chat {
    type V = Seq<EntryModel>;

    closed spec fn view(&self) -> Seq<EntryModel> {
        models(self.messages@)
    }
}

impl Chat {
    /// Parses a whole export; see `spec_chat`.
    pub fn parse(input: &[u8]) -> (r: Result<Chat, ParseError>)
        ensures
            match spec_chat(input@) {
                Ok(es) => r matches Ok(c) && c@ == es,
                Err(e) => r matches Err(f) && f == e,
            },
    {
        let n = input.len();
        let mut messages: Vec<Message> = Vec::new();
        let mut pos: usize = 0;
        assert(models(messages@) =~= Seq::<EntryModel>::empty());
        while pos < n
            invariant
                n == input@.len(),
                pos <= n,
                spec_chat(input@) == assemble(input@, pos as int, models(messages@)),
            decreases n - pos,
        {
            let rest = rest_from(input, pos);
            let (after, out) = match Message::parse(rest) {
                Ok(x) => x,
                Err(e) => {
                    return Err(ParseError { kind: e.kind, offset: pos + e.offset });
                },
            };
            let k = rest.len() - after.len();
            if k == 0 {
                return Err(ParseError { kind: ParseErrorKind::TrailingInput, offset: pos });
            }
            let ghost before = models(messages@);
            match out {
                Line::Entry(m) => {
                    messages.push(m);
                    assert(models(messages@) =~= before.push(m@));
                },
                Line::Continuation(text) => {
                    let last = messages.pop();
                    match last {
                        None => {
                            return Err(
                                ParseError {
                                    kind: ParseErrorKind::StructuralContinuation,
                                    offset: pos,
                                },
                            );
                        },
                        Some(mut m) => {
                            assert(before.last() == m@);
                            if !m.continue_text(text.as_str()) {
                                return Err(
                                    ParseError {
                                        kind: ParseErrorKind::StructuralContinuation,
                                        offset: pos,
                                    },
                                );
                            }
                            messages.push(m);
                            assert(models(messages@) =~= before.update(
                                before.len() - 1,
                                continued(before.last(), text@),
                            ));
                        },
                    }
                },
            }
            pos = pos + k;
        }
        Ok(Chat { messages })
    }

    /// The messages, in the order of the export.
    pub fn messages(&self) -> (r: &[Message])
        ensures
            models(r@) == self@,
    {
        self.messages.as_slice()
    }
}

} // verus!
