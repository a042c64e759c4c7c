//! Rendering a document back to text.
//!
//! The style block is not written, and timestamps are always written with
//! their hours, zero-padded, so only the typed fields other than the style
//! come back when the text is read again.
use vstd::prelude::*;
use vstd::utf8::*;

use crate::grammar::{arrow, blank_line, colon, dot, kind_tag, language_tag, magic, newline, note_tag};
use crate::parsing::utf8_string;
use crate::{opt_view, Subtitle, SubtitleModel, Time, Vtt, VttModel};

verus! {

/// The decimal digits of `n`, most significant first.
pub open spec fn digits_of(n: nat) -> Seq<u8>
    decreases n,
{
    if n < 10 {
        seq![(48 + n) as u8]
    } else {
        digits_of(n / 10).push((48 + n % 10) as u8)
    }
}

/// `n` in decimal, padded with leading zeros to at least `width` digits.
pub open spec fn padded(n: nat, width: nat) -> Seq<u8> {
    let d = digits_of(n);
    let z = if width > d.len() {
        (width - d.len()) as nat
    } else {
        0
    };
    Seq::new(z, |i: int| 48u8) + d
}

/// `HH:MM:SS.mmm`
pub open spec fn time_text(t: Time) -> Seq<u8> {
    padded(t.hours as nat, 2) + colon() + padded(t.minutes as nat, 2) + colon() + padded(
        t.seconds as nat,
        2,
    ) + dot() + padded(t.milliseconds as nat, 3)
}

pub open spec fn space() -> Seq<u8> {
    seq![32u8]
}

/// A cue as text: `NOTE <note>` and a blank line if there is a note, the time
/// range, a space and the positioning if there is one, a line terminator, the
/// payload, and a line terminator.
pub open spec fn cue_text(c: SubtitleModel) -> Seq<u8> {
    note_text(c.note) + time_text(c.start) + arrow() + time_text(c.end) + positioning_text(
        c.positioning,
    ) + encode_utf8(c.text) + newline()
}

/// A cue as it stands in a document: its text and a line terminator that
/// separates it from the next cue.
pub open spec fn cue_entry(c: SubtitleModel) -> Seq<u8> {
    cue_text(c) + newline()
}

pub open spec fn note_text(note: Option<Seq<char>>) -> Seq<u8> {
    match note {
        Some(n) => note_tag() + space() + encode_utf8(n) + blank_line(),
        None => Seq::empty(),
    }
}

/// The end of the timing line: a space and the positioning if there is one,
/// and a line terminator.
pub open spec fn positioning_text(pos: Option<Seq<char>>) -> Seq<u8> {
    match pos {
        Some(x) => space() + encode_utf8(x) + newline(),
        None => newline(),
    }
}

pub open spec fn cues_text(cs: Seq<SubtitleModel>) -> Seq<u8>
    decreases cs.len(),
{
    if cs.len() == 0 {
        Seq::empty()
    } else {
        cues_text(cs.drop_last()) + cue_entry(cs.last())
    }
}

pub open spec fn field_text(tag: Seq<u8>, v: Option<Seq<char>>) -> Seq<u8> {
    match v {
        Some(x) => tag + encode_utf8(x) + newline(),
        None => Seq::empty(),
    }
}

/// A document as text: the magic token, the `Kind` and `Language` lines of
/// those that are present, a blank line, and the cues in order.
pub open spec fn document_text(m: VttModel) -> Seq<u8> {
    magic() + newline() + field_text(kind_tag(), m.kind) + field_text(language_tag(), m.language)
        + newline() + cues_text(m.subtitles)
}

fn push_all(out: &mut Vec<u8>, b: &[u8])
    ensures
        final(out)@ == old(out)@ + b@,
{
    let mut i: usize = 0;
    while i < b.len()
        invariant
            i <= b@.len(),
            out@ == old(out)@ + b@.subrange(0, i as int),
        decreases b@.len() - i,
    {
        out.push(b[i]);
        i = i + 1;
        assert(b@.subrange(0, i as int) =~= b@.subrange(0, i - 1).push(b@[i - 1]));
    }
    assert(b@.subrange(0, i as int) =~= b@);
}

fn push_str(out: &mut Vec<u8>, s: &String)
    ensures
        final(out)@ == old(out)@ + encode_utf8(s@),
{
    push_all(out, s.as_str().as_bytes());
}

/// How many digits `n` has, for the numbers that padding can reach.
pub proof fn lemma_digits_len(n: nat)
    ensures
        digits_of(n).len() >= 1,
        n < 10 ==> digits_of(n).len() == 1,
        10 <= n < 100 ==> digits_of(n).len() == 2,
        n >= 10 ==> digits_of(n).len() >= 2,
        n >= 100 ==> digits_of(n).len() >= 3,
    decreases n,
{
    if n >= 10 {
        lemma_digits_len(n / 10);
    }
}

fn push_digits(out: &mut Vec<u8>, n: u32)
    ensures
        final(out)@ == old(out)@ + digits_of(n as nat),
    decreases n,
{
    if n >= 10 {
        push_digits(out, n / 10);
    }
    out.push((48 + n % 10) as u8);
    proof {
        if n >= 10 {
            assert(digits_of(n as nat) == digits_of((n / 10) as nat).push((48 + n % 10) as u8));
        }
    }
    assert(final(out)@ =~= old(out)@ + digits_of(n as nat));
}

fn push_padded(out: &mut Vec<u8>, n: u32, width: usize)
    requires
        2 <= width <= 3,
    ensures
        final(out)@ == old(out)@ + padded(n as nat, width as nat),
{
    proof {
        lemma_digits_len(n as nat);
    }
    let zeros: usize = if n < 10 {
        width - 1
    } else if n < 100 {
        width - 2
    } else {
        0
    };
    let ghost start = out@;
    let mut k: usize = 0;
    while k < zeros
        invariant
            k <= zeros,
            out@ == start + Seq::new(k as nat, |i: int| 48u8),
        decreases zeros - k,
    {
        out.push(48u8);
        k = k + 1;
        assert(out@ =~= start + Seq::new(k as nat, |i: int| 48u8));
    }
    push_digits(out, n);
    proof {
        let d = digits_of(n as nat);
        let z: nat = if width > d.len() {
            (width - d.len()) as nat
        } else {
            0
        };
        assert(z == zeros);
        assert(out@ =~= old(out)@ + padded(n as nat, width as nat));
    }
}

fn push_time(out: &mut Vec<u8>, t: Time)
    ensures
        final(out)@ == old(out)@ + time_text(t),
{
    push_padded(out, t.hours as u32, 2);
    push_all(out, &[58u8]);
    push_padded(out, t.minutes as u32, 2);
    push_all(out, &[58u8]);
    push_padded(out, t.seconds as u32, 2);
    push_all(out, &[46u8]);
    push_padded(out, t.milliseconds as u32, 3);
    assert(final(out)@ =~= old(out)@ + time_text(t));
}

fn push_note(out: &mut Vec<u8>, note: &Option<String>)
    ensures
        final(out)@ == old(out)@ + note_text(opt_view(*note)),
{
    match note {
        Some(n) => {
            push_all(out, &[78u8, 79, 84, 69, 32]);
            push_str(out, n);
            push_all(out, &[10u8, 10]);
        },
        None => {},
    }
    assert(final(out)@ =~= old(out)@ + note_text(opt_view(*note)));
}

fn push_positioning(out: &mut Vec<u8>, pos: &Option<String>)
    ensures
        final(out)@ == old(out)@ + positioning_text(opt_view(*pos)),
{
    match pos {
        Some(x) => {
            push_all(out, &[32u8]);
            push_str(out, x);
            push_all(out, &[10u8]);
        },
        None => {
            push_all(out, &[10u8]);
        },
    }
    assert(final(out)@ =~= old(out)@ + positioning_text(opt_view(*pos)));
}

fn push_field(out: &mut Vec<u8>, tag: &[u8], v: &Option<String>)
    ensures
        final(out)@ == old(out)@ + field_text(tag@, opt_view(*v)),
{
    match v {
        Some(x) => {
            push_all(out, tag);
            push_str(out, x);
            push_all(out, &[10u8]);
        },
        None => {},
    }
    assert(final(out)@ =~= old(out)@ + field_text(tag@, opt_view(*v)));
}

/// Bytes below 128 are well-formed UTF-8.
proof fn lemma_ascii_valid(b: Seq<u8>)
    requires
        forall|i: int| 0 <= i < b.len() ==> #[trigger] b[i] < 128,
    ensures
        valid_utf8(b),
{
    assert(b.subrange(0, 0) =~= Seq::<u8>::empty());
    partial_valid_utf8_extend_ascii_block(b, 0, b.len() as int);
    assert(b.subrange(0, b.len() as int) =~= b);
}

proof fn lemma_padded_valid(n: nat, w: nat)
    ensures
        valid_utf8(padded(n, w)),
{
    lemma_digits_ascii(n);
    let d = digits_of(n);
    let z: nat = if w > d.len() {
        (w - d.len()) as nat
    } else {
        0
    };
    assert forall|i: int| 0 <= i < padded(n, w).len() implies #[trigger] padded(n, w)[i] < 128 by {
        if i >= z {
            assert(padded(n, w)[i] == d[i - z]);
        }
    }
    lemma_ascii_valid(padded(n, w));
}

proof fn lemma_digits_ascii(n: nat)
    ensures
        forall|i: int| 0 <= i < digits_of(n).len() ==> #[trigger] digits_of(n)[i] < 128,
    decreases n,
{
    if n >= 10 {
        lemma_digits_ascii(n / 10);
        let d = digits_of(n);
        assert forall|i: int| 0 <= i < d.len() implies #[trigger] d[i] < 128 by {
            if i < d.len() - 1 {
                assert(d[i] == digits_of(n / 10)[i]);
            }
        }
    }
}

proof fn lemma_literals_valid()
    ensures
        valid_utf8(colon()),
        valid_utf8(dot()),
        valid_utf8(space()),
        valid_utf8(newline()),
        valid_utf8(blank_line()),
        valid_utf8(arrow()),
        valid_utf8(note_tag()),
        valid_utf8(magic()),
        valid_utf8(kind_tag()),
        valid_utf8(language_tag()),
{
    lemma_ascii_valid(colon());
    lemma_ascii_valid(dot());
    lemma_ascii_valid(space());
    lemma_ascii_valid(newline());
    lemma_ascii_valid(blank_line());
    lemma_ascii_valid(arrow());
    lemma_ascii_valid(note_tag());
    lemma_ascii_valid(magic());
    lemma_ascii_valid(kind_tag());
    lemma_ascii_valid(language_tag());
}

proof fn lemma_time_valid(t: Time)
    ensures
        valid_utf8(time_text(t)),
{
    lemma_literals_valid();
    let h = padded(t.hours as nat, 2);
    let m = padded(t.minutes as nat, 2);
    let sec = padded(t.seconds as nat, 2);
    let ms = padded(t.milliseconds as nat, 3);
    lemma_padded_valid(t.hours as nat, 2);
    lemma_padded_valid(t.minutes as nat, 2);
    lemma_padded_valid(t.seconds as nat, 2);
    lemma_padded_valid(t.milliseconds as nat, 3);
    valid_utf8_concat(h, colon());
    valid_utf8_concat(h + colon(), m);
    valid_utf8_concat(h + colon() + m, colon());
    valid_utf8_concat(h + colon() + m + colon(), sec);
    valid_utf8_concat(h + colon() + m + colon() + sec, dot());
    valid_utf8_concat(h + colon() + m + colon() + sec + dot(), ms);
}

proof fn lemma_text_valid(b: Seq<u8>, x: Seq<char>, e: Seq<u8>)
    requires
        valid_utf8(b),
        valid_utf8(e),
    ensures
        valid_utf8(b + encode_utf8(x) + e),
{
    encode_utf8_valid_utf8(x);
    valid_utf8_concat(b, encode_utf8(x));
    valid_utf8_concat(b + encode_utf8(x), e);
}

proof fn lemma_cue_valid(c: SubtitleModel)
    ensures
        valid_utf8(cue_text(c)),
{
    lemma_literals_valid();
    lemma_time_valid(c.start);
    lemma_time_valid(c.end);
    let n = note_text(c.note);
    let ps = positioning_text(c.positioning);
    match c.note {
        Some(x) => {
            valid_utf8_concat(note_tag(), space());
            lemma_text_valid(note_tag() + space(), x, blank_line());
        },
        None => {},
    }
    match c.positioning {
        Some(x) => lemma_text_valid(space(), x, newline()),
        None => {},
    }
    valid_utf8_concat(n, time_text(c.start));
    valid_utf8_concat(n + time_text(c.start), arrow());
    valid_utf8_concat(n + time_text(c.start) + arrow(), time_text(c.end));
    valid_utf8_concat(n + time_text(c.start) + arrow() + time_text(c.end), ps);
    lemma_text_valid(
        n + time_text(c.start) + arrow() + time_text(c.end) + ps,
        c.text,
        newline(),
    );
}

proof fn lemma_cues_valid(cs: Seq<SubtitleModel>)
    ensures
        valid_utf8(cues_text(cs)),
    decreases cs.len(),
{
    if cs.len() > 0 {
        lemma_cues_valid(cs.drop_last());
        lemma_cue_valid(cs.last());
        lemma_literals_valid();
        valid_utf8_concat(cue_text(cs.last()), newline());
        valid_utf8_concat(cues_text(cs.drop_last()), cue_entry(cs.last()));
    }
}

proof fn lemma_field_valid(t: Seq<u8>, v: Option<Seq<char>>)
    requires
        valid_utf8(t),
    ensures
        valid_utf8(field_text(t, v)),
{
    lemma_literals_valid();
    match v {
        Some(x) => lemma_text_valid(t, x, newline()),
        None => {},
    }
}

/// The text of every document is well-formed UTF-8.
pub proof fn lemma_document_valid(m: VttModel)
    ensures
        valid_utf8(document_text(m)),
{
    lemma_literals_valid();
    lemma_cues_valid(m.subtitles);
    let fk = field_text(kind_tag(), m.kind);
    let fl = field_text(language_tag(), m.language);
    lemma_field_valid(kind_tag(), m.kind);
    lemma_field_valid(language_tag(), m.language);
    valid_utf8_concat(magic(), newline());
    valid_utf8_concat(magic() + newline(), fk);
    valid_utf8_concat(magic() + newline() + fk, fl);
    valid_utf8_concat(magic() + newline() + fk + fl, newline());
    valid_utf8_concat(magic() + newline() + fk + fl + newline(), cues_text(m.subtitles));
}

impl Subtitle {
    /// Appends this cue as text.
    pub fn write_to(&self, out: &mut Vec<u8>)
        ensures
            final(out)@ == old(out)@ + cue_text(self@),
    {
        push_note(out, &self.note);
        push_time(out, self.start);
        push_all(out, &[32u8, 45, 45, 62, 32]);
        push_time(out, self.end);
        push_positioning(out, &self.positioning);
        push_str(out, &self.text);
        push_all(out, &[10u8]);
        assert(final(out)@ =~= old(out)@ + cue_text(self@));
    }
}

impl Vtt {
    /// The document as text. The style block is left out.
    pub fn to_bytes(&self) -> (r: Vec<u8>)
        ensures
            r@ == document_text(self@),
    {
        let mut out: Vec<u8> = Vec::new();
        push_all(&mut out, &[87u8, 69, 66, 86, 84, 84, 10]);
        push_field(&mut out, &[75u8, 105, 110, 100, 58, 32], &self.kind);
        push_field(&mut out, &[76u8, 97, 110, 103, 117, 97, 103, 101, 58, 32], &self.language);
        push_all(&mut out, &[10u8]);
        let ghost head = out@;
        assert(head =~= magic() + newline() + field_text(kind_tag(), self@.kind) + field_text(
            language_tag(),
            self@.language,
        ) + newline());
        let mut i: usize = 0;
        while i < self.subtitles.len()
            invariant
                i <= self@.subtitles.len(),
                self@.subtitles.len() == self.subtitles@.len(),
                out@ == head + cues_text(self@.subtitles.subrange(0, i as int)),
            decreases self.subtitles@.len() - i,
        {
            let ghost before = out@;
            self.subtitles[i].write_to(&mut out);
            push_all(&mut out, &[10u8]);
            assert(self@.subtitles[i as int] == self.subtitles@[i as int]@);
            assert(out@ =~= before + cue_entry(self@.subtitles[i as int]));
            i = i + 1;
            assert(self@.subtitles.subrange(0, i as int).drop_last() =~= self@.subtitles.subrange(
                0,
                i - 1,
            ));
            assert(out@ =~= head + cues_text(self@.subtitles.subrange(0, i as int)));
        }
        assert(self@.subtitles.subrange(0, i as int) =~= self@.subtitles);
        out
    }

    /// The document as a string. The style block is left out.
    pub fn to_string(&self) -> (r: String)
        ensures
            encode_utf8(r@) == document_text(self@),
            r@ == decode_utf8(document_text(self@)),
    {
        let bytes = self.to_bytes();
        proof {
            lemma_document_valid(self@);
        }
        match utf8_string(bytes) {
            Some(text) => {
                proof {
                    encode_utf8_decode_utf8(text@);
                }
                text
            },
            None => String::new(),
        }
    }
}

impl Time {
    /// Appends this time as `HH:MM:SS.mmm`, each field zero-padded.
    pub fn write_to(&self, out: &mut Vec<u8>)
        ensures
            final(out)@ == old(out)@ + time_text(*self),
    {
        push_time(out, *self);
    }
}

} // verus!
