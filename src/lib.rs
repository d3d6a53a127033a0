//! A parser for plain-text chat exports: each line holds a bracketed
//! timestamp, a sender and a message, and lines without a timestamp continue
//! the text of the message before them.

pub mod bytes;
pub mod error;
pub mod timestamp;
pub mod chat_participant;
pub mod message_type;
pub mod message;
pub mod chat;
pub mod laws;

pub use chat::Chat;
pub use chat_participant::ChatParticipant;
pub use error::{ParseError, ParseErrorKind};
pub use message::{Line, Message};
pub use message_type::MessageType;
pub use timestamp::Timestamp;
