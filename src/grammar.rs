//! The document grammar, stated as spec functions over the input bytes.
//!
//! Every rule reads the input `s` from a position `p` and yields a
//! [`Parsed`]: the position after what it recognized and the value, or that
//! more input is needed to decide, or that the rule does not match.
use vstd::prelude::*;
use vstd::utf8::*;

use crate::{ErrorKind, Needed, SubtitleModel, Time, VttModel};

verus! {

/// The outcome of one grammar rule.
pub enum Parsed<T> {
    /// The rule matched; the position after the match and the value read.
    Done(usize, T),
    /// The input ended before the rule could decide.
    Incomplete(Needed),
    /// The rule does not match here.
    Fail,
}

impl<T: View> View for Parsed<T> {
    type V = Parsed<T::V>;

    open spec fn view(&self) -> Parsed<T::V> {
        match self {
            Parsed::Done(q, v) => Parsed::Done(*q, v@),
            Parsed::Incomplete(n) => Parsed::Incomplete(*n),
            Parsed::Fail => Parsed::Fail,
        }
    }
}

impl<T> Parsed<T> {
    /// The same outcome for a rule that stopped here, with another value type.
    pub open spec fn halt<U>(self) -> Parsed<U> {
        match self {
            Parsed::Incomplete(n) => Parsed::Incomplete(n),
            _ => Parsed::Fail,
        }
    }
}

/// How much input is needed: everything up to `p + k`.
pub open spec fn needed_at(p: int, k: int) -> Needed {
    if p + k <= usize::MAX {
        Needed::Size((p + k) as usize)
    } else {
        Needed::Unknown
    }
}

pub open spec fn is_digit(b: u8) -> bool {
    48 <= b <= 57
}

pub open spec fn is_space(b: u8) -> bool {
    b == 32 || b == 9
}

/// The end of the run of decimal digits that starts at `p`.
pub open spec fn digit_end(s: Seq<u8>, p: int) -> int
    decreases s.len() - p,
{
    if 0 <= p < s.len() && is_digit(s[p]) {
        digit_end(s, p + 1)
    } else {
        p
    }
}

/// The end of the run of spaces and tabs that starts at `p`.
pub open spec fn space_end(s: Seq<u8>, p: int) -> int
    decreases s.len() - p,
{
    if 0 <= p < s.len() && is_space(s[p]) {
        space_end(s, p + 1)
    } else {
        p
    }
}

/// The value of a string of decimal digits.
pub open spec fn decimal(d: Seq<u8>) -> nat
    decreases d.len(),
{
    if d.len() == 0 {
        0
    } else {
        decimal(d.drop_last()) * 10 + (d.last() - 48) as nat
    }
}

/// The first index `i >= p` at which `t` occurs in `s`.
pub open spec fn find_from(s: Seq<u8>, p: int, t: Seq<u8>) -> Option<int>
    decreases s.len() - p,
{
    if p < 0 || t.len() == 0 || p + t.len() > s.len() {
        None
    } else if s.subrange(p, p + t.len()) == t {
        Some(p)
    } else {
        find_from(s, p + 1, t)
    }
}

/// What [`find_from`] finds is an occurrence of `t`, the first from `p` on.
pub proof fn lemma_find_from(s: Seq<u8>, p: int, t: Seq<u8>)
    ensures
        find_from(s, p, t) matches Some(i) ==> {
            &&& p <= i
            &&& i + t.len() <= s.len()
            &&& s.subrange(i, i + t.len()) == t
            &&& forall|j: int| p <= j < i ==> #[trigger] s.subrange(j, j + t.len()) != t
        },
        find_from(s, p, t) is None && 0 <= p && t.len() > 0 ==> forall|j: int|
            p <= j && j + t.len() <= s.len() ==> #[trigger] s.subrange(j, j + t.len()) != t,
    decreases s.len() - p,
{
    if p < 0 || t.len() == 0 || p + t.len() > s.len() {
    } else if s.subrange(p, p + t.len()) == t {
    } else {
        lemma_find_from(s, p + 1, t);
    }
}

/// A literal: matches when the input starts with `t`.
pub open spec fn tag(s: Seq<u8>, p: usize, t: Seq<u8>) -> Parsed<()> {
    if s.len() - p >= t.len() {
        if s.subrange(p as int, p + t.len()) == t {
            Parsed::Done((p + t.len()) as usize, ())
        } else {
            Parsed::Fail
        }
    } else if s.subrange(p as int, s.len() as int) == t.subrange(0, s.len() - p) {
        Parsed::Incomplete(needed_at(p as int, t.len() as int))
    } else {
        Parsed::Fail
    }
}

/// A line terminator: `\n` or `\r\n`.
pub open spec fn eol(s: Seq<u8>, p: usize) -> Parsed<()> {
    if p >= s.len() {
        Parsed::Incomplete(needed_at(p as int, 1))
    } else if s[p as int] == 10 {
        Parsed::Done((p + 1) as usize, ())
    } else if s[p as int] != 13 {
        Parsed::Fail
    } else if p + 1 >= s.len() {
        Parsed::Incomplete(needed_at(p as int, 2))
    } else if s[p + 1] == 10 {
        Parsed::Done((p + 2) as usize, ())
    } else {
        Parsed::Fail
    }
}

/// A run of spaces ends past its start, and not past the input.
pub proof fn lemma_space_end(s: Seq<u8>, p: int)
    requires
        0 <= p < s.len(),
        is_space(s[p]),
    ensures
        p < space_end(s, p) <= s.len(),
    decreases s.len() - p,
{
    if p + 1 < s.len() && is_space(s[p + 1]) {
        lemma_space_end(s, p + 1);
    } else {
        assert(space_end(s, p + 1) == p + 1);
    }
}

/// One or more spaces or tabs.
pub open spec fn spaces(s: Seq<u8>, p: usize) -> Parsed<()> {
    if p >= s.len() {
        Parsed::Incomplete(Needed::Unknown)
    } else if !is_space(s[p as int]) {
        Parsed::Fail
    } else {
        Parsed::Done(space_end(s, p as int) as usize, ())
    }
}

/// One or more decimal digits whose value is at most `max`.
pub open spec fn number(s: Seq<u8>, p: usize, max: nat) -> Parsed<nat> {
    if p >= s.len() {
        Parsed::Incomplete(Needed::Unknown)
    } else if !is_digit(s[p as int]) {
        Parsed::Fail
    } else {
        let e = digit_end(s, p as int);
        let v = decimal(s.subrange(p as int, e));
        if v <= max {
            Parsed::Done(e as usize, v)
        } else {
            Parsed::Fail
        }
    }
}

/// The text up to the first occurrence of `t`, which must be well-formed UTF-8.
/// With `consume` the match of `t` is passed over, else it is left.
pub open spec fn text_until(s: Seq<u8>, p: usize, t: Seq<u8>, consume: bool) -> Parsed<Seq<char>> {
    if t.len() > s.len() - p {
        Parsed::Incomplete(needed_at(p as int, t.len() as int))
    } else {
        match find_from(s, p as int, t) {
            None => Parsed::Fail,
            Some(i) => {
                let b = s.subrange(p as int, i);
                if !valid_utf8(b) {
                    Parsed::Fail
                } else if consume {
                    Parsed::Done((i + t.len()) as usize, decode_utf8(b))
                } else {
                    Parsed::Done(i as usize, decode_utf8(b))
                }
            },
        }
    }
}

pub open spec fn newline() -> Seq<u8> {
    seq![10u8]
}

pub open spec fn blank_line() -> Seq<u8> {
    seq![10u8, 10u8]
}

pub open spec fn style_end() -> Seq<u8> {
    seq![35u8, 35u8, 10u8]
}

/// The rest of the line, not including its terminator.
pub open spec fn line(s: Seq<u8>, p: usize) -> Parsed<Seq<char>> {
    text_until(s, p, newline(), false)
}

/// A block of text up to and including a blank line. Input that ends before
/// any blank line is a truncated block: more input is needed.
pub open spec fn block(s: Seq<u8>, p: usize) -> Parsed<Seq<char>> {
    if blank_line().len() <= s.len() - p && find_from(s, p as int, blank_line()) is None {
        Parsed::Incomplete(Needed::Unknown)
    } else {
        text_until(s, p, blank_line(), true)
    }
}

pub open spec fn colon() -> Seq<u8> {
    seq![58u8]
}

pub open spec fn dot() -> Seq<u8> {
    seq![46u8]
}

/// ` --> `
pub open spec fn arrow() -> Seq<u8> {
    seq![32u8, 45u8, 45u8, 62u8, 32u8]
}

/// `NOTE`
pub open spec fn note_tag() -> Seq<u8> {
    seq![78u8, 79u8, 84u8, 69u8]
}

/// `WEBVTT`, the magic token that opens every document.
pub open spec fn magic() -> Seq<u8> {
    seq![87u8, 69u8, 66u8, 86u8, 84u8, 84u8]
}

/// `Kind: `
pub open spec fn kind_tag() -> Seq<u8> {
    seq![75u8, 105u8, 110u8, 100u8, 58u8, 32u8]
}

/// `Language: `
pub open spec fn language_tag() -> Seq<u8> {
    seq![76u8, 97u8, 110u8, 103u8, 117u8, 97u8, 103u8, 101u8, 58u8, 32u8]
}

/// `Style:`
pub open spec fn style_tag() -> Seq<u8> {
    seq![83u8, 116u8, 121u8, 108u8, 101u8, 58u8]
}

/// An optional rule: a rule that does not match yields `None` and reads nothing.
pub open spec fn optional<T>(r: Parsed<T>, p: usize) -> Parsed<Option<T>> {
    match r {
        Parsed::Done(q, v) => Parsed::Done(q, Some(v)),
        Parsed::Incomplete(n) => Parsed::Incomplete(n),
        Parsed::Fail => Parsed::Done(p, None),
    }
}

pub open spec fn u8_field(s: Seq<u8>, p: usize) -> Parsed<u8> {
    match number(s, p, 255) {
        Parsed::Done(q, v) => Parsed::Done(q, v as u8),
        r => r.halt(),
    }
}

pub open spec fn u16_field(s: Seq<u8>, p: usize) -> Parsed<u16> {
    match number(s, p, 65535) {
        Parsed::Done(q, v) => Parsed::Done(q, v as u16),
        r => r.halt(),
    }
}

/// `MM:SS.mmm`, with the hours given.
pub open spec fn time_tail(s: Seq<u8>, p: usize, hours: u8) -> Parsed<Time> {
    match u8_field(s, p) {
        Parsed::Done(pos1, minutes) => match tag(s, pos1, colon()) {
            Parsed::Done(pos2, _) => match u8_field(s, pos2) {
                Parsed::Done(pos3, seconds) => match tag(s, pos3, dot()) {
                    Parsed::Done(pos4, _) => match u16_field(s, pos4) {
                        Parsed::Done(pos5, milliseconds) => Parsed::Done(
                            pos5,
                            Time { hours, minutes, seconds, milliseconds },
                        ),
                        r => r.halt(),
                    },
                    r => r.halt(),
                },
                r => r.halt(),
            },
            r => r.halt(),
        },
        r => r.halt(),
    }
}

/// `HH:MM:SS.mmm`
pub open spec fn time_with_hours(s: Seq<u8>, p: usize) -> Parsed<Time> {
    match u8_field(s, p) {
        Parsed::Done(pos1, hours) => match tag(s, pos1, colon()) {
            Parsed::Done(pos2, _) => time_tail(s, pos2, hours),
            r => r.halt(),
        },
        r => r.halt(),
    }
}

/// A timestamp: the form with hours first, else `MM:SS.mmm` with no hours.
pub open spec fn time(s: Seq<u8>, p: usize) -> Parsed<Time> {
    match time_with_hours(s, p) {
        Parsed::Fail => time_tail(s, p, 0),
        r => r,
    }
}

/// `NOTE`, a line terminator or spaces, then a block.
pub open spec fn note(s: Seq<u8>, p: usize) -> Parsed<Seq<char>> {
    match tag(s, p, note_tag()) {
        Parsed::Done(pos1, _) => {
            let sep = match eol(s, pos1) {
                Parsed::Fail => spaces(s, pos1),
                r => r,
            };
            match sep {
                Parsed::Done(pos2, _) => block(s, pos2),
                r => r.halt(),
            }
        },
        r => r.halt(),
    }
}

/// Spaces, then the rest of the line.
pub open spec fn positioning(s: Seq<u8>, p: usize) -> Parsed<Seq<char>> {
    match spaces(s, p) {
        Parsed::Done(pos1, _) => line(s, pos1),
        r => r.halt(),
    }
}

/// One cue: an optional note, the time range, optional positioning, a line
/// terminator and the payload block.
pub open spec fn cue(s: Seq<u8>, p: usize) -> Parsed<SubtitleModel> {
    match optional(note(s, p), p) {
        Parsed::Done(pos1, note) => match time(s, pos1) {
            Parsed::Done(pos2, start) => match tag(s, pos2, arrow()) {
                Parsed::Done(pos3, _) => match time(s, pos3) {
                    Parsed::Done(pos4, end) => match optional(positioning(s, pos4), pos4) {
                        Parsed::Done(pos5, positioning) => match eol(s, pos5) {
                            Parsed::Done(pos6, _) => match block(s, pos6) {
                                Parsed::Done(pos7, text) => Parsed::Done(
                                    pos7,
                                    SubtitleModel { start, end, text, note, positioning },
                                ),
                                r => r.halt(),
                            },
                            r => r.halt(),
                        },
                        r => r.halt(),
                    },
                    r => r.halt(),
                },
                r => r.halt(),
            },
            r => r.halt(),
        },
        r => r.halt(),
    }
}

/// The cues from `q` on, after those in `acc`: reading stops at the end of the
/// input, or at the first position where no cue matches or none advances.
pub open spec fn more_cues(s: Seq<u8>, q: usize, acc: Seq<SubtitleModel>) -> Parsed<
    Seq<SubtitleModel>,
>
    decreases s.len() - q,
{
    if q >= s.len() {
        Parsed::Done(q, acc)
    } else {
        match cue(s, q) {
            Parsed::Done(q2, c) => if q < q2 <= s.len() {
                more_cues(s, q2, acc.push(c))
            } else {
                Parsed::Done(q, acc)
            },
            Parsed::Incomplete(n) => Parsed::Incomplete(n),
            Parsed::Fail => Parsed::Done(q, acc),
        }
    }
}

/// One or more cues.
pub open spec fn cues(s: Seq<u8>, p: usize) -> Parsed<Seq<SubtitleModel>> {
    match cue(s, p) {
        Parsed::Done(pos1, c) => more_cues(s, pos1, seq![c]),
        r => r.halt(),
    }
}

/// Reading more cues keeps those already read.
pub proof fn lemma_more_cues_keeps(s: Seq<u8>, q: usize, acc: Seq<SubtitleModel>)
    ensures
        more_cues(s, q, acc) matches Parsed::Done(_, res) ==> res.len() >= acc.len(),
    decreases s.len() - q,
{
    if q < s.len() {
        if let Parsed::Done(q2, c) = cue(s, q) {
            if q < q2 <= s.len() {
                lemma_more_cues_keeps(s, q2, acc.push(c));
            }
        }
    }
}

/// A sequence of cues that was read holds at least one.
pub proof fn lemma_cues_nonempty(s: Seq<u8>, p: usize)
    ensures
        cues(s, p) matches Parsed::Done(_, res) ==> res.len() >= 1,
{
    if let Parsed::Done(pos1, c) = cue(s, p) {
        lemma_more_cues_keeps(s, pos1, seq![c]);
    }
}

/// A header field: the literal `t`, the rest of the line, a line terminator.
pub open spec fn header_field(s: Seq<u8>, p: usize, t: Seq<u8>) -> Parsed<Seq<char>> {
    match tag(s, p, t) {
        Parsed::Done(pos1, _) => match line(s, pos1) {
            Parsed::Done(pos2, v) => match eol(s, pos2) {
                Parsed::Done(pos3, _) => Parsed::Done(pos3, v),
                r => r.halt(),
            },
            r => r.halt(),
        },
        r => r.halt(),
    }
}

/// `Style:`, a line terminator, and text up to and including `##\n`.
pub open spec fn style(s: Seq<u8>, p: usize) -> Parsed<Seq<char>> {
    match tag(s, p, style_tag()) {
        Parsed::Done(pos1, _) => match eol(s, pos1) {
            Parsed::Done(pos2, _) => text_until(s, pos2, style_end(), true),
            r => r.halt(),
        },
        r => r.halt(),
    }
}

/// What reading a whole document gives.
pub ghost enum Outcome {
    Read(VttModel),
    Invalid(ErrorKind),
    Incomplete(Needed),
}

pub open spec fn stopped<T>(r: Parsed<T>, k: ErrorKind) -> Outcome {
    match r {
        Parsed::Incomplete(n) => Outcome::Incomplete(n),
        _ => Outcome::Invalid(k),
    }
}

/// A document: the magic token and a line terminator, the optional `Kind`,
/// `Language` and style fields in that order, a line terminator, and one or
/// more cues. Input after the last cue that was read is left unread.
pub open spec fn document(s: Seq<u8>) -> Outcome {
    match tag(s, 0, magic()) {
        Parsed::Done(pos1, _) => match eol(s, pos1) {
            Parsed::Done(pos2, _) => match optional(header_field(s, pos2, kind_tag()), pos2) {
                Parsed::Done(pos3, kind) => match optional(
                    header_field(s, pos3, language_tag()),
                    pos3,
                ) {
                    Parsed::Done(pos4, language) => match optional(style(s, pos4), pos4) {
                        Parsed::Done(pos5, style) => match eol(s, pos5) {
                            Parsed::Done(pos6, _) => match cues(s, pos6) {
                                Parsed::Done(_, subtitles) => Outcome::Read(
                                    VttModel { subtitles, language, kind, style },
                                ),
                                r => stopped(r, ErrorKind::Many1),
                            },
                            r => stopped(r, ErrorKind::CrLf),
                        },
                        r => stopped(r, ErrorKind::Many1),
                    },
                    r => stopped(r, ErrorKind::Many1),
                },
                r => stopped(r, ErrorKind::Many1),
            },
            r => stopped(r, ErrorKind::CrLf),
        },
        r => stopped(r, ErrorKind::Tag),
    }
}

} // verus!
