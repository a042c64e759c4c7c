//! Reading and writing WebVTT subtitle documents.
//!
//! The grammar lives in `grammar` as spec functions over the input bytes,
//! `parsing` holds the executable parser proved equal to it, `writer` renders a
//! document back to text, and `laws` states what holds across the two.
use vstd::prelude::*;

pub mod grammar;
pub mod laws;
pub mod parsing;
pub mod writer;

pub use parsing::parse_from_slice;

verus! {

/// A start or end time of a cue.
#[derive(Debug, PartialEq, Eq, Structural, Clone, Copy)]
pub struct Time {
    pub hours: u8,
    pub minutes: u8,
    pub seconds: u8,
    pub milliseconds: u16,
}

impl View for Time {
    type V = Time;

    open spec fn view(&self) -> Time {
        *self
    }
}

/// A cue with its metadata.
#[derive(Debug)]
pub struct Subtitle {
    pub start: Time,
    pub end: Time,
    pub text: String,
    pub note: Option<String>,
    pub positioning: Option<String>,
}

/// The mathematical value of a [`Subtitle`]: its strings as character sequences.
pub ghost struct SubtitleModel {
    pub start: Time,
    pub end: Time,
    pub text: Seq<char>,
    pub note: Option<Seq<char>>,
    pub positioning: Option<Seq<char>>,
}

pub open spec fn opt_view(o: Option<String>) -> Option<Seq<char>> {
    match o {
        Some(s) => Some(s@),
        None => None,
    }
}

impl View for Subtitle {
    type V = SubtitleModel;

    open spec fn view(&self) -> SubtitleModel {
        SubtitleModel {
            start: self.start,
            end: self.end,
            text: self.text@,
            note: opt_view(self.note),
            positioning: opt_view(self.positioning),
        }
    }
}

/// A subtitle document.
#[derive(Debug)]
pub struct Vtt {
    pub subtitles: Vec<Subtitle>,
    pub language: Option<String>,
    pub kind: Option<String>,
    pub style: Option<String>,
}

/// The mathematical value of a [`Vtt`].
pub ghost struct VttModel {
    pub subtitles: Seq<SubtitleModel>,
    pub language: Option<Seq<char>>,
    pub kind: Option<Seq<char>>,
    pub style: Option<Seq<char>>,
}

impl View for Vtt {
    type V = VttModel;

    open spec fn view(&self) -> VttModel {
        VttModel {
            subtitles: self.subtitles@.map_values(|c: Subtitle| c@),
            language: opt_view(self.language),
            kind: opt_view(self.kind),
            style: opt_view(self.style),
        }
    }
}

/// How many more bytes a parse would have needed to decide.
#[derive(Debug, PartialEq, Eq, Structural, Clone, Copy)]
pub enum Needed {
    Unknown,
    Size(usize),
}

/// The rule of the document grammar at which a parse failed.
#[derive(Debug, PartialEq, Eq, Structural, Clone, Copy)]
pub enum ErrorKind {
    /// The magic token at the start is missing.
    Tag,
    /// A line terminator was expected.
    CrLf,
    /// Not even one cue could be read.
    Many1,
}

#[verifier::external_type_specification]
#[verifier::external_body]
pub struct ExIoError(std::io::Error);

/// Errors that can be raised by reading or parsing a document.
#[derive(Debug)]
pub enum Error {
    ParsingError(ErrorKind),
    ParsingIncomplete(Needed),
    IO(std::io::Error),
}

impl From<std::io::Error> for Error {
    fn from(error: std::io::Error) -> Error {
        Error::IO(error)
    }
}

impl vstd::std_specs::convert::FromSpecImpl<std::io::Error> for Error {
    open spec fn obeys_from_spec() -> bool {
        true
    }

    open spec fn from_spec(v: std::io::Error) -> Error {
        Error::IO(v)
    }
}

} // verus!
