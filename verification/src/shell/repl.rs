//! What the shell does with a typed line.

use vstd::prelude::*;
use vstd::string::*;
use vstd::utf8::valid_utf8;
use crate::proc::usermem::text_of;
use super::parse::{line_stages, parse_line, ParseError, Pipeline};

verus! {

/// What a line leads to.
pub enum ReplAction<'a> {
    Run(Pipeline<'a>),
    /// Nothing was typed.
    Prompt,
    /// The line is no text.
    NotText,
    /// Say what is wrong with it.
    Complain(ParseError),
}

/// Decide what to do with a line.
pub fn repl<'a>(line: &'a [u8]) -> (r: ReplAction<'a>)
    ensures
        if !valid_utf8(line@) {
            r is NotText
        } else {
            match line_stages(line@) {
                Ok(stages) => r matches ReplAction::Run(p) && p.wf() && p@ == stages,
                Err(ParseError::Empty) => r is Prompt,
                Err(e) => r matches ReplAction::Complain(e1) && e1 == e,
            }
        },
{
    let text: &'a str = match text_of(line) {
        Some(text) => text,
        None => return ReplAction::NotText,
    };
    match parse_line(text) {
        Ok(p) => ReplAction::Run(p),
        Err(ParseError::Empty) => ReplAction::Prompt,
        Err(e) => ReplAction::Complain(e),
    }
}

} // verus!
