//! The library's error type.
use vstd::prelude::*;
use crate::text::{
    append_chars, chars_of, decimal, decimal_exec, string_of,
};

verus! {

/// What went wrong, with the path of the file concerned where one is known.
#[derive(Debug)]
pub enum Error {
    Io { message: String, path: Option<String> },
    Parse { line: usize, message: String, path: Option<String> },
    Wad { message: String, path: Option<String> },
    Hash(String),
    BinConversion { message: String, path: Option<String> },
    InvalidInput(String),
}

pub type Result<T> = core::result::Result<T, Error>;

pub open spec fn opt_str(p: Option<String>) -> Option<Seq<char>> {
    match p {
        Some(s) => Some(s@),
        None => None,
    }
}

/// ` <word> '<path>'` where a path is known, nothing otherwise.
pub open spec fn path_note(word: Seq<char>, p: Option<Seq<char>>) -> Seq<char> {
    match p {
        Some(s) => seq![' '] + word + " '"@ + s + "'"@,
        None => Seq::empty(),
    }
}

impl Error {
    /// The human-readable text of the error.
    pub open spec fn text(&self) -> Seq<char> {
        match self {
            Error::Io { message, path } => "IO error"@ + path_note("at"@, opt_str(*path)) + ": "@
                + message@,
            Error::Parse { line, message, path } => "Parse error"@ + path_note(
                "in file"@,
                opt_str(*path),
            ) + " at line "@ + decimal(*line as nat) + ": "@ + message@,
            Error::Wad { message, path } => "WAD error"@ + path_note("in file"@, opt_str(*path))
                + ": "@ + message@,
            Error::Hash(m) => "Hash error: "@ + m@,
            Error::BinConversion { message, path } => "Bin conversion error"@ + path_note(
                "in file"@,
                opt_str(*path),
            ) + ": "@ + message@,
            Error::InvalidInput(m) => "Invalid input: "@ + m@,
        }
    }

    /// An I/O failure on the file at `path`.
    pub fn io_with_path(message: &str, path: &str) -> (r: Error)
        ensures
            r is Io,
            r->Io_message@ == message@,
            r->Io_path matches Some(p) && p@ == path@,
    {
        Error::Io { message: string_of(&chars_of(message)), path: Some(string_of(&chars_of(path))) }
    }

    /// A malformed line `line` of the file at `path`.
    pub fn parse_with_path(line: usize, message: &str, path: &str) -> (r: Error)
        ensures
            r is Parse,
            r->Parse_line == line,
            r->Parse_message@ == message@,
            r->Parse_path matches Some(p) && p@ == path@,
    {
        Error::Parse {
            line,
            message: string_of(&chars_of(message)),
            path: Some(string_of(&chars_of(path))),
        }
    }

    /// A malformed or unreadable archive at `path`.
    pub fn wad_with_path(message: &str, path: &str) -> (r: Error)
        ensures
            r is Wad,
            r->Wad_message@ == message@,
            r->Wad_path matches Some(p) && p@ == path@,
    {
        Error::Wad { message: string_of(&chars_of(message)), path: Some(string_of(&chars_of(path))) }
    }

    /// A BIN file at `path` that could not be read or written.
    pub fn bin_conversion_with_path(message: &str, path: &str) -> (r: Error)
        ensures
            r is BinConversion,
            r->BinConversion_message@ == message@,
            r->BinConversion_path matches Some(p) && p@ == path@,
    {
        Error::BinConversion {
            message: string_of(&chars_of(message)),
            path: Some(string_of(&chars_of(path))),
        }
    }

    /// The human-readable text of the error.
    pub fn to_string(&self) -> (r: String)
        ensures
            r@ == self.text(),
    {
        let mut r: Vec<char>;
        match self {
            Error::Io { message, path } => {
                r = chars_of("IO error");
                push_path_note(&mut r, "at", path);
                append_chars(&mut r, &chars_of(": "));
                append_chars(&mut r, &chars_of(message));
            },
            Error::Parse { line, message, path } => {
                r = chars_of("Parse error");
                push_path_note(&mut r, "in file", path);
                append_chars(&mut r, &chars_of(" at line "));
                append_chars(&mut r, &decimal_exec(*line as u64));
                append_chars(&mut r, &chars_of(": "));
                append_chars(&mut r, &chars_of(message));
            },
            Error::Wad { message, path } => {
                r = chars_of("WAD error");
                push_path_note(&mut r, "in file", path);
                append_chars(&mut r, &chars_of(": "));
                append_chars(&mut r, &chars_of(message));
            },
            Error::Hash(m) => {
                r = chars_of("Hash error: ");
                append_chars(&mut r, &chars_of(m));
            },
            Error::BinConversion { message, path } => {
                r = chars_of("Bin conversion error");
                push_path_note(&mut r, "in file", path);
                append_chars(&mut r, &chars_of(": "));
                append_chars(&mut r, &chars_of(message));
            },
            Error::InvalidInput(m) => {
                r = chars_of("Invalid input: ");
                append_chars(&mut r, &chars_of(m));
            },
        }
        string_of(&r)
    }
}

fn push_path_note(r: &mut Vec<char>, word: &str, path: &Option<String>)
    ensures
        final(r)@ == old(r)@ + path_note(word@, opt_str(*path)),
{
    match path {
        Some(p) => {
            r.push(' ');
            append_chars(r, &chars_of(word));
            append_chars(r, &chars_of(" '"));
            append_chars(r, &chars_of(p));
            append_chars(r, &chars_of("'"));
            assert(final(r)@ =~= old(r)@ + path_note(word@, opt_str(*path)));
        },
        None => {
            assert(r@ =~= old(r)@ + path_note(word@, opt_str(*path)));
        },
    }
}

} // verus!
