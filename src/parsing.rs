//! The parser: one executable function per rule of `grammar`, each proved to
//! give what its rule gives.
use vstd::prelude::*;
use vstd::slice::{slice_subrange, slice_to_vec};
use vstd::utf8::*;

use crate::grammar::{
    arrow, blank_line, block, colon, cue, cues, decimal, digit_end, document, dot, eol, find_from,
    header_field, kind_tag, language_tag, lemma_cues_nonempty, lemma_find_from, lemma_space_end,
    magic, more_cues, needed_at, newline, note, note_tag, number, optional, positioning, space_end,
    spaces, stopped, style, style_end, style_tag, tag, text_until, time, time_tail, time_with_hours,
    u16_field, u8_field, Outcome, Parsed,
};
use crate::{opt_view, Error, ErrorKind, Needed, Subtitle, SubtitleModel, Time, Vtt};

verus! {

/// Relies on `String::from_utf8`: it succeeds exactly on well-formed UTF-8,
/// and the string then holds those very bytes.
#[verifier::external_body]
pub(crate) fn utf8_string(bytes: Vec<u8>) -> (r: Option<String>)
    ensures
        r is Some <==> valid_utf8(bytes@),
        r matches Some(t) ==> encode_utf8(t@) == bytes@,
{
    String::from_utf8(bytes).ok()
}

fn needed(p: usize, k: usize) -> (n: Needed)
    ensures
        n == needed_at(p as int, k as int),
{
    if p <= usize::MAX - k {
        Needed::Size(p + k)
    } else {
        Needed::Unknown
    }
}

/// Whether `t` occurs in `s` at `i`.
fn occurs_at(s: &[u8], i: usize, t: &[u8]) -> (b: bool)
    requires
        i + t@.len() <= s@.len(),
    ensures
        b == (s@.subrange(i as int, i + t@.len()) == t@),
{
    let _ = s.len();
    let mut j: usize = 0;
    while j < t.len()
        invariant
            s@.len() <= usize::MAX,
            i + t@.len() <= s@.len(),
            j <= t@.len(),
            forall|k: int| 0 <= k < j ==> s@[i + k] == t@[k],
        decreases t@.len() - j,
    {
        if s[i + j] != t[j] {
            assert(s@.subrange(i as int, i + t@.len())[j as int] != t@[j as int]);
            return false;
        }
        j = j + 1;
    }
    assert(s@.subrange(i as int, i + t@.len()) =~= t@);
    true
}

pub fn tag_at(s: &[u8], p: usize, t: &[u8]) -> (r: Parsed<()>)
    requires
        p <= s@.len(),
    ensures
        r@ == tag(s@, p, t@),
        r matches Parsed::Done(q, _) ==> q == p + t@.len() && q <= s@.len(),
{
    let avail = s.len() - p;
    if avail >= t.len() {
        if occurs_at(s, p, t) {
            Parsed::Done(p + t.len(), ())
        } else {
            Parsed::Fail
        }
    } else {
        let mut j: usize = 0;
        while j < avail
            invariant
                s@.len() <= usize::MAX,
                p + avail == s@.len(),
                avail < t@.len(),
                j <= avail,
                forall|k: int| 0 <= k < j ==> s@[p + k] == t@[k],
            decreases avail - j,
        {
            if s[p + j] != t[j] {
                assert(s@.subrange(p as int, s@.len() as int)[j as int] != t@.subrange(
                    0,
                    avail as int,
                )[j as int]);
                return Parsed::Fail;
            }
            j = j + 1;
        }
        assert(s@.subrange(p as int, s@.len() as int) =~= t@.subrange(0, avail as int));
        Parsed::Incomplete(needed(p, t.len()))
    }
}

pub fn eol_at(s: &[u8], p: usize) -> (r: Parsed<()>)
    requires
        p <= s@.len(),
    ensures
        r@ == eol(s@, p),
        r matches Parsed::Done(q, _) ==> p < q <= s@.len(),
{
    if p >= s.len() {
        Parsed::Incomplete(needed(p, 1))
    } else if s[p] == 10 {
        Parsed::Done(p + 1, ())
    } else if s[p] != 13 {
        Parsed::Fail
    } else if p + 1 >= s.len() {
        Parsed::Incomplete(needed(p, 2))
    } else if s[p + 1] == 10 {
        Parsed::Done(p + 2, ())
    } else {
        Parsed::Fail
    }
}

pub fn spaces_at(s: &[u8], p: usize) -> (r: Parsed<()>)
    requires
        p <= s@.len(),
    ensures
        r@ == spaces(s@, p),
        r matches Parsed::Done(q, _) ==> p < q <= s@.len(),
{
    if p >= s.len() {
        return Parsed::Incomplete(Needed::Unknown);
    }
    if !(s[p] == 32 || s[p] == 9) {
        return Parsed::Fail;
    }
    let mut i: usize = p;
    while i < s.len() && (s[i] == 32 || s[i] == 9)
        invariant
            p <= i <= s@.len(),
            space_end(s@, p as int) == space_end(s@, i as int),
        decreases s@.len() - i,
    {
        i = i + 1;
    }
    Parsed::Done(i, ())
}

/// Decimal digits at `p` whose value is at most `max`.
pub fn number_at(s: &[u8], p: usize, max: u32) -> (r: Parsed<u32>)
    requires
        p <= s@.len(),
        max <= 65535,
    ensures
        r@ == match number(s@, p, max as nat) {
            Parsed::Done(q, v) => Parsed::Done(q, v as u32),
            o => o.halt(),
        },
        r matches Parsed::Done(q, v) ==> v <= max && p < q <= s@.len(),
{
    if p >= s.len() {
        return Parsed::Incomplete(Needed::Unknown);
    }
    if !(48 <= s[p] && s[p] <= 57) {
        return Parsed::Fail;
    }
    let mut i: usize = p;
    let mut acc: u32 = 0;
    while i < s.len() && 48 <= s[i] && s[i] <= 57
        invariant
            p <= i <= s@.len(),
            max <= 65535,
            digit_end(s@, p as int) == digit_end(s@, i as int),
            acc as nat == if decimal(s@.subrange(p as int, i as int)) <= max {
                decimal(s@.subrange(p as int, i as int))
            } else {
                (max + 1) as nat
            },
        decreases s@.len() - i,
    {
        let ghost before = s@.subrange(p as int, i as int);
        assert(s@.subrange(p as int, i + 1).drop_last() =~= before);
        let d = (s[i] - 48) as u32;
        if acc > max {
            acc = max + 1;
        } else if acc * 10 + d > max {
            acc = max + 1;
        } else {
            acc = acc * 10 + d;
        }
        i = i + 1;
    }
    if acc <= max {
        Parsed::Done(i, acc)
    } else {
        Parsed::Fail
    }
}

/// The first index at or after `p` at which `t` occurs in `s`.
fn find_at(s: &[u8], p: usize, t: &[u8]) -> (r: Option<usize>)
    requires
        p <= s@.len(),
        t@.len() > 0,
    ensures
        match r {
            Some(i) => find_from(s@, p as int, t@) == Some(i as int),
            None => find_from(s@, p as int, t@) is None,
        },
{
    let mut i: usize = p;
    while i <= s.len() && t.len() <= s.len() - i
        invariant
            p <= i,
            t@.len() > 0,
            find_from(s@, p as int, t@) == find_from(s@, i as int, t@),
        decreases s@.len() + 1 - i,
    {
        if occurs_at(s, i, t) {
            return Some(i);
        }
        i = i + 1;
    }
    None
}

/// The text up to the first occurrence of `t`; with `consume`, `t` is passed over.
pub fn text_until_at(s: &[u8], p: usize, t: &[u8], consume: bool) -> (r: Parsed<String>)
    requires
        p <= s@.len(),
        t@.len() > 0,
    ensures
        r@ == text_until(s@, p, t@, consume),
        r matches Parsed::Done(q, _) ==> p <= q <= s@.len(),
        consume ==> (r matches Parsed::Done(q, _) ==> q >= p + t@.len() && s@.subrange(
            q - t@.len(),
            q as int,
        ) == t@),
{
    if t.len() > s.len() - p {
        return Parsed::Incomplete(needed(p, t.len()));
    }
    match find_at(s, p, t) {
        None => Parsed::Fail,
        Some(i) => {
            proof {
                lemma_find_from(s@, p as int, t@);
            }
            let bytes = slice_to_vec(slice_subrange(s, p, i));
            match utf8_string(bytes) {
                None => Parsed::Fail,
                Some(text) => {
                    proof {
                        encode_utf8_decode_utf8(text@);
                    }
                    if consume {
                        Parsed::Done(i + t.len(), text)
                    } else {
                        Parsed::Done(i, text)
                    }
                },
            }
        },
    }
}

fn colon_bytes() -> (r: &'static [u8])
    ensures
        r@ == colon(),
{
    &[58u8]
}

fn dot_bytes() -> (r: &'static [u8])
    ensures
        r@ == dot(),
{
    &[46u8]
}

fn note_tag_bytes() -> (r: &'static [u8])
    ensures
        r@ == note_tag(),
{
    &[78u8, 79, 84, 69]
}

fn arrow_bytes() -> (r: &'static [u8])
    ensures
        r@ == arrow(),
{
    &[32u8, 45, 45, 62, 32]
}

fn blank_line_bytes() -> (r: &'static [u8])
    ensures
        r@ == blank_line(),
{
    &[10u8, 10]
}

fn newline_bytes() -> (r: &'static [u8])
    ensures
        r@ == newline(),
{
    &[10u8]
}

fn magic_bytes() -> (r: &'static [u8])
    ensures
        r@ == magic(),
{
    &[87u8, 69, 66, 86, 84, 84]
}

fn kind_tag_bytes() -> (r: &'static [u8])
    ensures
        r@ == kind_tag(),
{
    &[75u8, 105, 110, 100, 58, 32]
}

fn language_tag_bytes() -> (r: &'static [u8])
    ensures
        r@ == language_tag(),
{
    &[76u8, 97, 110, 103, 117, 97, 103, 101, 58, 32]
}

fn style_tag_bytes() -> (r: &'static [u8])
    ensures
        r@ == style_tag(),
{
    &[83u8, 116, 121, 108, 101, 58]
}

fn style_end_bytes() -> (r: &'static [u8])
    ensures
        r@ == style_end(),
{
    &[35u8, 35, 10]
}

/// The outcome of a rule that stopped, for a rule of another value type.
fn halt<A: View, B: View>(r: Parsed<A>) -> (o: Parsed<B>)
    ensures
        o@ == r@.halt::<B::V>(),
{
    match r {
        Parsed::Incomplete(n) => Parsed::Incomplete(n),
        _ => Parsed::Fail,
    }
}

/// The outcome of an optional text, its value seen through the view of its string.
spec fn optional_text_view(o: Parsed<Option<String>>) -> Parsed<Option<Seq<char>>> {
    match o {
        Parsed::Done(q, v) => Parsed::Done(q, opt_view(v)),
        Parsed::Incomplete(n) => Parsed::Incomplete(n),
        Parsed::Fail => Parsed::Fail,
    }
}

fn optional_at(r: Parsed<String>, p: usize) -> (o: Parsed<Option<String>>)
    ensures
        optional_text_view(o) == optional(r@, p),
{
    match r {
        Parsed::Done(q, v) => Parsed::Done(q, Some(v)),
        Parsed::Incomplete(n) => Parsed::Incomplete(n),
        Parsed::Fail => Parsed::Done(p, None),
    }
}

fn u8_field_at(s: &[u8], p: usize) -> (r: Parsed<u8>)
    requires
        p <= s@.len(),
    ensures
        r@ == u8_field(s@, p),
        r matches Parsed::Done(q, _) ==> p < q <= s@.len(),
{
    match number_at(s, p, 255) {
        Parsed::Done(q, v) => Parsed::Done(q, v as u8),
        r => halt(r),
    }
}

fn u16_field_at(s: &[u8], p: usize) -> (r: Parsed<u16>)
    requires
        p <= s@.len(),
    ensures
        r@ == u16_field(s@, p),
        r matches Parsed::Done(q, _) ==> p < q <= s@.len(),
{
    match number_at(s, p, 65535) {
        Parsed::Done(q, v) => Parsed::Done(q, v as u16),
        r => halt(r),
    }
}

fn time_tail_at(s: &[u8], p: usize, hours: u8) -> (r: Parsed<Time>)
    requires
        p <= s@.len(),
    ensures
        r@ == time_tail(s@, p, hours),
        r matches Parsed::Done(q, _) ==> p < q <= s@.len(),
{
    let pos1 = match u8_field_at(s, p) {
        Parsed::Done(q, v) => (q, v),
        r => return halt(r),
    };
    let pos2 = match tag_at(s, pos1.0, colon_bytes()) {
        Parsed::Done(q, _) => q,
        r => return halt(r),
    };
    let pos3 = match u8_field_at(s, pos2) {
        Parsed::Done(q, v) => (q, v),
        r => return halt(r),
    };
    let pos4 = match tag_at(s, pos3.0, dot_bytes()) {
        Parsed::Done(q, _) => q,
        r => return halt(r),
    };
    match u16_field_at(s, pos4) {
        Parsed::Done(q, milliseconds) => Parsed::Done(
            q,
            Time { hours, minutes: pos1.1, seconds: pos3.1, milliseconds },
        ),
        r => halt(r),
    }
}

fn time_with_hours_at(s: &[u8], p: usize) -> (r: Parsed<Time>)
    requires
        p <= s@.len(),
    ensures
        r@ == time_with_hours(s@, p),
        r matches Parsed::Done(q, _) ==> p < q <= s@.len(),
{
    let pos1 = match u8_field_at(s, p) {
        Parsed::Done(q, v) => (q, v),
        r => return halt(r),
    };
    match tag_at(s, pos1.0, colon_bytes()) {
        Parsed::Done(q, _) => time_tail_at(s, q, pos1.1),
        r => halt(r),
    }
}

/// Reads a timestamp at `p`: `HH:MM:SS.mmm`, else `MM:SS.mmm` with no hours.
pub fn time_at(s: &[u8], p: usize) -> (r: Parsed<Time>)
    requires
        p <= s@.len(),
    ensures
        r@ == time(s@, p),
        r matches Parsed::Done(q, _) ==> p < q <= s@.len(),
{
    match time_with_hours_at(s, p) {
        Parsed::Fail => time_tail_at(s, p, 0),
        r => r,
    }
}

/// Reads a block of text up to and including a blank line.
fn block_at(s: &[u8], p: usize) -> (r: Parsed<String>)
    requires
        p <= s@.len(),
    ensures
        r@ == block(s@, p),
        r matches Parsed::Done(q, _) ==> q >= p + 2 && q <= s@.len() && s@.subrange(
            q - 2,
            q as int,
        ) == blank_line(),
{
    let t = blank_line_bytes();
    if t.len() <= s.len() - p {
        if find_at(s, p, t).is_none() {
            return Parsed::Incomplete(Needed::Unknown);
        }
    }
    text_until_at(s, p, t, true)
}

fn note_at(s: &[u8], p: usize) -> (r: Parsed<String>)
    requires
        p <= s@.len(),
    ensures
        r@ == note(s@, p),
        r matches Parsed::Done(q, _) ==> p <= q <= s@.len(),
{
    let pos1 = match tag_at(s, p, note_tag_bytes()) {
        Parsed::Done(q, _) => q,
        r => return halt(r),
    };
    let pos2 = match eol_at(s, pos1) {
        Parsed::Done(q, _) => q,
        Parsed::Fail => match spaces_at(s, pos1) {
            Parsed::Done(q, _) => {
                proof {
                    lemma_space_end(s@, pos1 as int);
                }
                q
            },
            r => return halt(r),
        },
        r => return halt(r),
    };
    block_at(s, pos2)
}

fn positioning_at(s: &[u8], p: usize) -> (r: Parsed<String>)
    requires
        p <= s@.len(),
    ensures
        r@ == positioning(s@, p),
        r matches Parsed::Done(q, _) ==> p <= q <= s@.len(),
{
    match spaces_at(s, p) {
        Parsed::Done(pos1, _) => {
            proof {
                lemma_space_end(s@, p as int);
            }
            text_until_at(s, pos1, newline_bytes(), false)
        },
        r => halt(r),
    }
}

/// Reads one cue at `p`.
pub fn cue_at(s: &[u8], p: usize) -> (r: Parsed<Subtitle>)
    requires
        p <= s@.len(),
    ensures
        r@ == cue(s@, p),
        r matches Parsed::Done(q, _) ==> p < q <= s@.len(),
        r matches Parsed::Done(q, _) ==> q >= p + 2 && s@.subrange(q - 2, q as int)
            == blank_line(),
{
    let n = match optional_at(note_at(s, p), p) {
        Parsed::Done(q, v) => (q, v),
        r => return halt(r),
    };
    let t1 = match time_at(s, n.0) {
        Parsed::Done(q, v) => (q, v),
        r => return halt(r),
    };
    let pos3 = match tag_at(s, t1.0, arrow_bytes()) {
        Parsed::Done(q, _) => q,
        r => return halt(r),
    };
    let t2 = match time_at(s, pos3) {
        Parsed::Done(q, v) => (q, v),
        r => return halt(r),
    };
    let pos = match optional_at(positioning_at(s, t2.0), t2.0) {
        Parsed::Done(q, v) => (q, v),
        r => return halt(r),
    };
    let pos6 = match eol_at(s, pos.0) {
        Parsed::Done(q, _) => q,
        r => return halt(r),
    };
    match block_at(s, pos6) {
        Parsed::Done(q, text) => Parsed::Done(
            q,
            Subtitle { start: t1.1, end: t2.1, text, note: n.1, positioning: pos.1 },
        ),
        r => halt(r),
    }
}

/// The cues as their views.
pub open spec fn cues_view(v: Vec<Subtitle>) -> Seq<SubtitleModel> {
    v@.map_values(|c: Subtitle| c@)
}

/// Reads one or more cues at `p`.
fn cues_at(s: &[u8], p: usize) -> (r: Parsed<Vec<Subtitle>>)
    requires
        p <= s@.len(),
    ensures
        match (r, cues(s@, p)) {
            (Parsed::Done(q, v), Parsed::Done(q2, w)) => q == q2 && cues_view(v) == w,
            (Parsed::Incomplete(n), Parsed::Incomplete(n2)) => n == n2,
            (Parsed::Fail, Parsed::Fail) => true,
            _ => false,
        },
        r is Done ==> exists|i: int|
            p <= i && i + 2 <= s@.len() && #[trigger] s@.subrange(i, i + 2) == blank_line(),
{
    let (mut q, first) = match cue_at(s, p) {
        Parsed::Done(q, c) => (q, c),
        r => return halt(r),
    };
    let ghost w: int = q - 2;
    let ghost first_model = first@;
    let mut acc: Vec<Subtitle> = Vec::new();
    acc.push(first);
    proof {
        assert(cues_view(acc) =~= seq![first_model]);
    }
    loop
        invariant
            q <= s@.len(),
            cues(s@, p) == more_cues(s@, q, cues_view(acc)),
            p <= w && w + 2 <= s@.len() && s@.subrange(w, w + 2) == blank_line(),
        decreases s@.len() - q,
    {
        if q >= s.len() {
            return Parsed::Done(q, acc);
        }
        match cue_at(s, q) {
            Parsed::Done(q2, c) => {
                let ghost before = cues_view(acc);
                let ghost cm = c@;
                acc.push(c);
                proof {
                    assert(cues_view(acc) =~= before.push(cm));
                }
                q = q2;
            },
            Parsed::Incomplete(n) => return Parsed::Incomplete(n),
            Parsed::Fail => return Parsed::Done(q, acc),
        }
    }
}

fn header_field_at(s: &[u8], p: usize, t: &[u8]) -> (r: Parsed<String>)
    requires
        p <= s@.len(),
    ensures
        r@ == header_field(s@, p, t@),
        r matches Parsed::Done(q, _) ==> p <= q <= s@.len(),
{
    let pos1 = match tag_at(s, p, t) {
        Parsed::Done(q, _) => q,
        r => return halt(r),
    };
    let (pos2, v) = match text_until_at(s, pos1, newline_bytes(), false) {
        Parsed::Done(q, v) => (q, v),
        r => return halt(r),
    };
    match eol_at(s, pos2) {
        Parsed::Done(q, _) => Parsed::Done(q, v),
        r => halt(r),
    }
}

fn style_at(s: &[u8], p: usize) -> (r: Parsed<String>)
    requires
        p <= s@.len(),
    ensures
        r@ == style(s@, p),
        r matches Parsed::Done(q, _) ==> p <= q <= s@.len(),
{
    let pos1 = match tag_at(s, p, style_tag_bytes()) {
        Parsed::Done(q, _) => q,
        r => return halt(r),
    };
    match eol_at(s, pos1) {
        Parsed::Done(q, _) => text_until_at(s, q, style_end_bytes(), true),
        r => halt(r),
    }
}

/// Whether a parse result is what the grammar gives for a whole document.
pub open spec fn reads_as(r: Result<Vtt, Error>, o: Outcome) -> bool {
    match o {
        Outcome::Read(m) => r matches Ok(v) && v@ == m,
        Outcome::Invalid(k) => r matches Err(Error::ParsingError(k2)) && k2 == k,
        Outcome::Incomplete(n) => r matches Err(Error::ParsingIncomplete(n2)) && n2 == n,
    }
}

fn stopped_at<T: View>(r: Parsed<T>, k: ErrorKind) -> (e: Error)
    ensures
        reads_as(Err(e), stopped(r@, k)),
{
    match r {
        Parsed::Incomplete(n) => Error::ParsingIncomplete(n),
        _ => Error::ParsingError(k),
    }
}

/// Parses a whole document held in memory.
#[verifier::rlimit(100)]
pub fn parse_from_slice(slice: &[u8]) -> (r: Result<Vtt, Error>)
    ensures
        reads_as(r, document(slice@)),
        r matches Ok(v) ==> v.subtitles@.len() >= 1,
        r is Ok ==> exists|i: int|
            7 <= i && i + 2 <= slice@.len() && #[trigger] slice@.subrange(i, i + 2)
                == blank_line(),
{
    let s = slice;
    let pos1 = match tag_at(s, 0, magic_bytes()) {
        Parsed::Done(q, _) => q,
        r => return Err(stopped_at(r, ErrorKind::Tag)),
    };
    let pos2 = match eol_at(s, pos1) {
        Parsed::Done(q, _) => q,
        r => return Err(stopped_at(r, ErrorKind::CrLf)),
    };
    let (pos3, kind) = match optional_at(header_field_at(s, pos2, kind_tag_bytes()), pos2) {
        Parsed::Done(q, v) => (q, v),
        r => return Err(stopped_at(r, ErrorKind::Many1)),
    };
    let (pos4, language) = match optional_at(header_field_at(s, pos3, language_tag_bytes()), pos3) {
        Parsed::Done(q, v) => (q, v),
        r => return Err(stopped_at(r, ErrorKind::Many1)),
    };
    let (pos5, style) = match optional_at(style_at(s, pos4), pos4) {
        Parsed::Done(q, v) => (q, v),
        r => return Err(stopped_at(r, ErrorKind::Many1)),
    };
    let pos6 = match eol_at(s, pos5) {
        Parsed::Done(q, _) => q,
        r => return Err(stopped_at(r, ErrorKind::CrLf)),
    };
    match cues_at(s, pos6) {
        Parsed::Done(_, subtitles) => {
            proof {
                lemma_cues_nonempty(s@, pos6);
            }
            Ok(Vtt { subtitles, language, kind, style })
        },
        r => Err(stopped_at(r, ErrorKind::Many1)),
    }
}

} // verus!
