//! The text of log records.

use vstd::prelude::*;
use crate::text::append_bytes;

verus! {

/// How serious a log record is.
#[derive(Debug, Clone, Copy, PartialEq, Eq)]
pub enum LogLevel {
    Error,
    Warn,
    Info,
    Debug,
    Trace,
}

/// `ROOT`, the module name used when a record has none.
pub open spec fn root_module() -> Seq<u8> {
    seq![82u8, 79u8, 79u8, 84u8]
}

/// The text of a record: errors and warnings carry a tag and the module
/// (`[ERROR] module: message`, `[WARN] module: message`); other records are
/// the message alone.
pub open spec fn log_line_spec(level: LogLevel, module: Option<Seq<u8>>, message: Seq<u8>) -> Seq<u8> {
    let m = match module {
        Some(m) => m,
        None => root_module(),
    };
    match level {
        LogLevel::Error => seq![91u8, 69u8, 82u8, 82u8, 79u8, 82u8, 93u8, 32u8] + m + seq![58u8, 32u8] + message,
        LogLevel::Warn => seq![91u8, 87u8, 65u8, 82u8, 78u8, 93u8, 32u8] + m + seq![58u8, 32u8] + message,
        _ => message,
    }
}

pub open spec fn slice_option_view(o: Option<&[u8]>) -> Option<Seq<u8>> {
    match o {
        Some(s) => Some(s@),
        None => None,
    }
}

/// The text of a log record.
pub fn format_log_line(level: LogLevel, module: Option<&[u8]>, message: &[u8]) -> (r: Vec<u8>)
    ensures
        r@ == log_line_spec(level, slice_option_view(module), message@),
{
    let mut out: Vec<u8> = Vec::new();
    match level {
        LogLevel::Error => {
            append_bytes(&mut out, &[91u8, 69u8, 82u8, 82u8, 79u8, 82u8, 93u8, 32u8]);
        },
        LogLevel::Warn => {
            append_bytes(&mut out, &[91u8, 87u8, 65u8, 82u8, 78u8, 93u8, 32u8]);
        },
        _ => {
            append_bytes(&mut out, message);
            assert(out@ =~= message@);
            return out;
        },
    }
    match module {
        Some(m) => append_bytes(&mut out, m),
        None => append_bytes(&mut out, &[82u8, 79u8, 79u8, 84u8]),
    }
    append_bytes(&mut out, &[58u8, 32u8]);
    append_bytes(&mut out, message);
    proof {
        let m = match slice_option_view(module) {
            Some(m) => m,
            None => root_module(),
        };
        match level {
            LogLevel::Error => {
                assert(out@ =~= log_line_spec(level, slice_option_view(module), message@));
            },
            LogLevel::Warn => {
                assert(out@ =~= log_line_spec(level, slice_option_view(module), message@));
            },
            _ => {},
        }
    }
    out
}

} // verus!
