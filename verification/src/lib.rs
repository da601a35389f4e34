//! Parser for tagged IRC-style chat lines: extracts the chat payload after
//! the `PRIVMSG` command keyword and decodes the `@badges=` tag field into
//! typed badge records.

pub mod badge;
pub mod parser;
pub mod text;
