//! What holds across the parser and the writer.
use vstd::prelude::*;
use vstd::utf8::*;

use crate::grammar::{
    arrow, blank_line, colon, cue, cues, decimal, digit_end, document, dot, eol, find_from,
    header_field, is_digit, is_space, kind_tag, language_tag, lemma_find_from, line, magic,
    more_cues, newline,
    note, note_tag, number, optional, positioning, space_end, style, style_tag, tag, time,
    time_with_hours, u8_field, Outcome, Parsed,
};
use crate::writer::{
    cue_entry, cues_text, digits_of, document_text, field_text, lemma_digits_len, note_text,
    padded, positioning_text, space, time_text,
};
use crate::{SubtitleModel, Time, VttModel};

verus! {

/// `x` stands in `s` at `p`.
pub open spec fn at(s: Seq<u8>, p: int, x: Seq<u8>) -> bool {
    0 <= p && p + x.len() <= s.len() && s.subrange(p, p + x.len()) == x
}

proof fn lemma_at_split(s: Seq<u8>, p: int, x: Seq<u8>, y: Seq<u8>)
    requires
        at(s, p, x + y),
    ensures
        at(s, p, x),
        at(s, p + x.len(), y),
{
    let w = s.subrange(p, p + x.len() + y.len());
    assert(w == x + y);
    assert forall|i: int| 0 <= i < x.len() implies s.subrange(p, p + x.len())[i] == x[i] by {
        assert(w[i] == s[p + i]);
        assert((x + y)[i] == x[i]);
    }
    assert(s.subrange(p, p + x.len()) =~= x);
    assert forall|i: int| 0 <= i < y.len() implies s.subrange(p + x.len(), p + x.len() + y.len())[i]
        == y[i] by {
        assert(w[x.len() + i] == s[p + x.len() + i]);
        assert((x + y)[x.len() + i] == y[i]);
    }
    assert(s.subrange(p + x.len(), p + x.len() + y.len()) =~= y);
}

proof fn lemma_at_index(s: Seq<u8>, p: int, x: Seq<u8>, i: int)
    requires
        at(s, p, x),
        0 <= i < x.len(),
    ensures
        s[p + i] == x[i],
{
    assert(s.subrange(p, p + x.len())[i] == s[p + i]);
}

proof fn lemma_tag_matches(s: Seq<u8>, p: usize, t: Seq<u8>)
    requires
        at(s, p as int, t),
        s.len() <= usize::MAX,
    ensures
        tag(s, p, t) == Parsed::Done((p + t.len()) as usize, ()),
{
}

proof fn lemma_tag_mismatch(s: Seq<u8>, p: usize, t: Seq<u8>)
    requires
        p < s.len(),
        t.len() >= 1,
        s[p as int] != t[0],
    ensures
        tag(s, p, t) is Fail,
{
    if s.len() - p >= t.len() {
        assert(s.subrange(p as int, p + t.len())[0] != t[0]);
    } else {
        assert(s.subrange(p as int, s.len() as int)[0] != t.subrange(0, s.len() - p)[0]);
    }
}

proof fn lemma_find(s: Seq<u8>, p: int, i: int, t: Seq<u8>)
    requires
        0 <= p <= i,
        t.len() >= 1,
        at(s, i, t),
        forall|j: int| p <= j < i ==> !at(s, j, t),
    ensures
        find_from(s, p, t) == Some(i),
    decreases i - p,
{
    if p < i {
        assert(!at(s, p, t));
        lemma_find(s, p + 1, i, t);
    }
}

/// Every line feed in `b` is followed by a byte other than a line feed: `b`
/// followed by a blank line holds no earlier blank line.
pub open spec fn no_blank_line(b: Seq<u8>) -> bool {
    forall|j: int| 0 <= j < b.len() && #[trigger] b[j] == 10 ==> j + 1 < b.len() && b[j + 1] != 10
}

/// `b` holds no line feed.
pub open spec fn no_line_feed(b: Seq<u8>) -> bool {
    forall|j: int| 0 <= j < b.len() ==> #[trigger] b[j] != 10
}

proof fn lemma_line_at(s: Seq<u8>, p: usize, x: Seq<char>)
    requires
        at(s, p as int, encode_utf8(x) + newline()),
        no_line_feed(encode_utf8(x)),
        s.len() <= usize::MAX,
    ensures
        line(s, p) == Parsed::Done((p + encode_utf8(x).len()) as usize, x),
{
    let b = encode_utf8(x);
    lemma_at_split(s, p as int, b, newline());
    assert forall|j: int| p <= j < p + b.len() implies !at(s, j, newline()) by {
        lemma_at_index(s, p as int, b + newline(), j - p);
        assert(s.subrange(j, j + 1)[0] == s[j]);
    }
    lemma_find(s, p as int, p + b.len(), newline());
    assert(s.subrange(p as int, p + b.len()) == b);
    encode_utf8_valid_utf8(x);
    encode_utf8_decode_utf8(x);
}

proof fn lemma_block_at(s: Seq<u8>, p: usize, x: Seq<char>)
    requires
        at(s, p as int, encode_utf8(x) + blank_line()),
        no_blank_line(encode_utf8(x)),
        s.len() <= usize::MAX,
    ensures
        crate::grammar::block(s, p) == Parsed::Done((p + encode_utf8(x).len() + 2) as usize, x),
{
    let b = encode_utf8(x);
    lemma_at_split(s, p as int, b, blank_line());
    assert forall|j: int| p <= j < p + b.len() implies !at(s, j, blank_line()) by {
        lemma_at_index(s, p as int, b + blank_line(), j - p);
        lemma_at_index(s, p as int, b + blank_line(), j - p + 1);
        if at(s, j, blank_line()) {
            assert(s.subrange(j, j + 2)[0] == s[j]);
            assert(s.subrange(j, j + 2)[1] == s[j + 1]);
            assert(b[j - p] == 10);
        }
    }
    lemma_find(s, p as int, p + b.len(), blank_line());
    assert(s.subrange(p as int, p + b.len()) == b);
    encode_utf8_valid_utf8(x);
    encode_utf8_decode_utf8(x);
}

proof fn lemma_decimal_digits(n: nat)
    ensures
        decimal(digits_of(n)) == n,
        forall|i: int| 0 <= i < digits_of(n).len() ==> is_digit(#[trigger] digits_of(n)[i]),
    decreases n,
{
    if n >= 10 {
        lemma_decimal_digits(n / 10);
        let d = digits_of(n);
        assert(d.drop_last() =~= digits_of(n / 10));
        assert(d.last() == (48 + n % 10) as u8);
        assert(n == (n / 10) * 10 + n % 10);
        assert(decimal(d) == decimal(d.drop_last()) * 10 + (d.last() - 48) as nat);
        assert((d.last() - 48) as nat == n % 10);
    } else {
        assert(digits_of(n).drop_last() =~= Seq::<u8>::empty());
        assert(digits_of(n).last() == (48 + n) as u8);
        assert(decimal(digits_of(n)) == decimal(digits_of(n).drop_last()) * 10 + (digits_of(n).last() - 48) as nat);
    }
}

proof fn lemma_decimal_zeros(k: nat, d: Seq<u8>)
    ensures
        decimal(Seq::new(k, |i: int| 48u8) + d) == decimal(d),
    decreases d.len() + k,
{
    let z = Seq::new(k, |i: int| 48u8);
    if d.len() == 0 {
        assert(z + d =~= z);
        if k > 0 {
            let z1 = Seq::new((k - 1) as nat, |i: int| 48u8);
            assert(z.drop_last() =~= z1 + Seq::<u8>::empty());
            lemma_decimal_zeros((k - 1) as nat, Seq::<u8>::empty());
            assert(z1 + Seq::<u8>::empty() =~= z1);
        }
    } else {
        assert((z + d).drop_last() =~= z + d.drop_last());
        lemma_decimal_zeros(k, d.drop_last());
    }
}

/// A padded number reads back as that number.
proof fn lemma_padded(n: nat, w: nat)
    ensures
        decimal(padded(n, w)) == n,
        padded(n, w).len() >= 1,
        forall|i: int| 0 <= i < padded(n, w).len() ==> is_digit(#[trigger] padded(n, w)[i]),
{
    lemma_decimal_digits(n);
    lemma_digits_len(n);
    let d = digits_of(n);
    let z: nat = if w > d.len() {
        (w - d.len()) as nat
    } else {
        0
    };
    lemma_decimal_zeros(z, d);
    assert forall|i: int| 0 <= i < padded(n, w).len() implies is_digit(#[trigger] padded(n, w)[i]) by {
        if i >= z {
            assert(padded(n, w)[i] == d[i - z]);
        }
    }
}

proof fn lemma_digit_end(s: Seq<u8>, p: int, e: int)
    requires
        0 <= p <= e <= s.len(),
        forall|j: int| p <= j < e ==> is_digit(#[trigger] s[j]),
        e == s.len() || !is_digit(s[e]),
    ensures
        digit_end(s, p) == e,
    decreases e - p,
{
    if p < e {
        lemma_digit_end(s, p + 1, e);
    }
}

proof fn lemma_number_at(s: Seq<u8>, p: usize, n: nat, w: nat, max: nat)
    requires
        at(s, p as int, padded(n, w)),
        n <= max,
        p + padded(n, w).len() < s.len(),
        !is_digit(s[p + padded(n, w).len()]),
        s.len() <= usize::MAX,
    ensures
        number(s, p, max) == Parsed::Done((p + padded(n, w).len()) as usize, n),
{
    let d = padded(n, w);
    lemma_padded(n, w);
    assert forall|j: int| p <= j < p + d.len() implies is_digit(#[trigger] s[j]) by {
        lemma_at_index(s, p as int, d, j - p);
    }
    lemma_at_index(s, p as int, d, 0);
    lemma_digit_end(s, p as int, p + d.len());
}

/// A timestamp as written reads back as itself, when no digit follows it.
proof fn lemma_time_at(s: Seq<u8>, p: usize, t: Time)
    requires
        at(s, p as int, time_text(t)),
        p + time_text(t).len() < s.len(),
        !is_digit(s[p + time_text(t).len()]),
        s.len() <= usize::MAX,
    ensures
        time(s, p) == Parsed::Done((p + time_text(t).len()) as usize, t),
{
    let h = padded(t.hours as nat, 2);
    let m = padded(t.minutes as nat, 2);
    let sec = padded(t.seconds as nat, 2);
    let ms = padded(t.milliseconds as nat, 3);
    let a1 = h + colon();
    let a2 = a1 + m;
    let a3 = a2 + colon();
    let a4 = a3 + sec;
    let a5 = a4 + dot();
    lemma_at_split(s, p as int, a5, ms);
    lemma_at_split(s, p as int, a4, dot());
    lemma_at_split(s, p as int, a3, sec);
    lemma_at_split(s, p as int, a2, colon());
    lemma_at_split(s, p as int, a1, m);
    lemma_at_split(s, p as int, h, colon());
    lemma_at_index(s, p + h.len(), colon(), 0);
    lemma_at_index(s, p + a2.len(), colon(), 0);
    lemma_at_index(s, p + a4.len(), dot(), 0);
    lemma_number_at(s, p, t.hours as nat, 2, 255);
    lemma_number_at(s, (p + a1.len()) as usize, t.minutes as nat, 2, 255);
    lemma_number_at(s, (p + a3.len()) as usize, t.seconds as nat, 2, 255);
    lemma_number_at(s, (p + a5.len()) as usize, t.milliseconds as nat, 3, 65535);
    lemma_tag_matches(s, (p + h.len()) as usize, colon());
    lemma_tag_matches(s, (p + a2.len()) as usize, colon());
    lemma_tag_matches(s, (p + a4.len()) as usize, dot());
}

pub open spec fn starts_with_space(b: Seq<u8>) -> bool {
    b.len() > 0 && is_space(b[0])
}

/// What a cue must hold for its written text to read back as the same cue:
/// no blank line inside, or at the end of, its payload or note; no line feed in
/// its positioning; and neither note nor positioning starting with a space or tab,
/// which the reader takes as part of the separator.
pub open spec fn cue_writable(c: SubtitleModel) -> bool {
    &&& no_blank_line(encode_utf8(c.text))
    &&& match c.note {
        Some(n) => no_blank_line(encode_utf8(n)) && !starts_with_space(encode_utf8(n)),
        None => true,
    }
    &&& match c.positioning {
        Some(x) => no_line_feed(encode_utf8(x)) && !starts_with_space(encode_utf8(x)),
        None => true,
    }
}

proof fn lemma_time_starts_with_digit(t: Time)
    ensures
        time_text(t).len() >= 1,
        is_digit(time_text(t)[0]),
{
    lemma_padded(t.hours as nat, 2);
    let h = padded(t.hours as nat, 2);
    assert(time_text(t)[0] == h[0]);
}

proof fn lemma_note_part(s: Seq<u8>, p: usize, n: Option<Seq<char>>)
    requires
        at(s, p as int, note_text(n)),
        p + note_text(n).len() < s.len(),
        is_digit(s[p + note_text(n).len()]),
        match n {
            Some(x) => no_blank_line(encode_utf8(x)) && !starts_with_space(encode_utf8(x)),
            None => true,
        },
        s.len() <= usize::MAX,
    ensures
        optional(note(s, p), p) == Parsed::Done((p + note_text(n).len()) as usize, n),
{
    match n {
        Some(x) => {
            let b = encode_utf8(x);
            let head = note_tag() + space();
            assert(note_text(n) =~= head + (b + blank_line()));
            lemma_at_split(s, p as int, head, b + blank_line());
            lemma_at_split(s, p as int, note_tag(), space());
            lemma_tag_matches(s, p, note_tag());
            lemma_at_index(s, p + 4, space(), 0);
            lemma_at_split(s, p + 5, b, blank_line());
            if b.len() > 0 {
                lemma_at_index(s, p + 5, b, 0);
            } else {
                lemma_at_index(s, p + 5, blank_line(), 0);
            }
            assert(space_end(s, p + 5) == p + 5);
            assert(space_end(s, p + 4) == p + 5);
            lemma_block_at(s, (p + 5) as usize, x);
        },
        None => {
            lemma_tag_mismatch(s, p, note_tag());
        },
    }
}

proof fn lemma_positioning_part(s: Seq<u8>, q: usize, pos: Option<Seq<char>>)
    requires
        at(s, q as int, positioning_text(pos)),
        match pos {
            Some(x) => no_line_feed(encode_utf8(x)) && !starts_with_space(encode_utf8(x)),
            None => true,
        },
        s.len() <= usize::MAX,
    ensures
        optional(positioning(s, q), q) == Parsed::Done(
            (q + positioning_text(pos).len() - 1) as usize,
            pos,
        ),
        eol(s, (q + positioning_text(pos).len() - 1) as usize) == Parsed::Done(
            (q + positioning_text(pos).len()) as usize,
            (),
        ),
{
    match pos {
        Some(x) => {
            let b = encode_utf8(x);
            assert(positioning_text(pos) =~= space() + (b + newline()));
            lemma_at_split(s, q as int, space(), b + newline());
            lemma_at_index(s, q as int, space(), 0);
            lemma_at_split(s, q + 1, b, newline());
            if b.len() > 0 {
                lemma_at_index(s, q + 1, b, 0);
            } else {
                lemma_at_index(s, q + 1, newline(), 0);
            }
            assert(space_end(s, q + 1) == q + 1);
            assert(space_end(s, q as int) == q + 1);
            lemma_line_at(s, (q + 1) as usize, x);
            lemma_at_index(s, q + 1 + b.len(), newline(), 0);
        },
        None => {
            lemma_at_index(s, q as int, newline(), 0);
        },
    }
}

/// A cue as written, up to its payload.
pub open spec fn cue_head(c: SubtitleModel) -> Seq<u8> {
    note_text(c.note) + time_text(c.start) + arrow() + time_text(c.end) + positioning_text(
        c.positioning,
    )
}

/// A cue head as written reads back, and what follows is read as the payload.
#[verifier::rlimit(100)]
proof fn lemma_cue_head(s: Seq<u8>, p: usize, c: SubtitleModel)
    requires
        at(s, p as int, cue_head(c)),
        cue_writable(c),
        s.len() <= usize::MAX,
    ensures
        cue(s, p) == match crate::grammar::block(s, (p + cue_head(c).len()) as usize) {
            Parsed::Done(q, x) => Parsed::Done(
                q,
                SubtitleModel {
                    start: c.start,
                    end: c.end,
                    text: x,
                    note: c.note,
                    positioning: c.positioning,
                },
            ),
            r => r.halt(),
        },
{
    let n = note_text(c.note);
    let t1 = time_text(c.start);
    let t2 = time_text(c.end);
    let ps = positioning_text(c.positioning);
    let a1 = n + t1;
    let a2 = a1 + arrow();
    let a3 = a2 + t2;
    lemma_at_split(s, p as int, a3, ps);
    lemma_at_split(s, p as int, a2, t2);
    lemma_at_split(s, p as int, a1, arrow());
    lemma_at_split(s, p as int, n, t1);
    lemma_time_starts_with_digit(c.start);
    lemma_time_starts_with_digit(c.end);
    lemma_at_index(s, p + n.len(), t1, 0);
    lemma_note_part(s, p, c.note);
    lemma_at_index(s, p + a1.len(), arrow(), 0);
    lemma_time_at(s, (p + n.len()) as usize, c.start);
    lemma_tag_matches(s, (p + a1.len()) as usize, arrow());
    assert(ps.len() >= 1);
    lemma_at_index(s, p + a3.len(), ps, 0);
    assert(ps[0] == 32 || ps[0] == 10);
    lemma_time_at(s, (p + a2.len()) as usize, c.end);
    lemma_positioning_part(s, (p + a3.len()) as usize, c.positioning);
}

/// A cue as written reads back as itself.
proof fn lemma_cue_at(s: Seq<u8>, p: usize, c: SubtitleModel)
    requires
        at(s, p as int, cue_entry(c)),
        cue_writable(c),
        s.len() <= usize::MAX,
    ensures
        cue(s, p) == Parsed::Done((p + cue_entry(c).len()) as usize, c),
{
    let h = cue_head(c);
    let x = encode_utf8(c.text);
    assert(cue_entry(c) =~= h + (x + blank_line()));
    lemma_at_split(s, p as int, h, x + blank_line());
    lemma_cue_head(s, p, c);
    lemma_block_at(s, (p + h.len()) as usize, c.text);
}

proof fn lemma_cues_prefix(s: Seq<u8>, b: int, cs: Seq<SubtitleModel>, k: int)
    requires
        at(s, b, cues_text(cs)),
        0 <= k <= cs.len(),
    ensures
        at(s, b, cues_text(cs.subrange(0, k))),
    decreases cs.len(),
{
    if k == cs.len() {
        assert(cs.subrange(0, k) =~= cs);
    } else {
        lemma_at_split(s, b, cues_text(cs.drop_last()), cue_entry(cs.last()));
        lemma_cues_prefix(s, b, cs.drop_last(), k);
        assert(cs.drop_last().subrange(0, k) =~= cs.subrange(0, k));
    }
}

#[verifier::rlimit(100)]
proof fn lemma_more_cues_at(s: Seq<u8>, b: int, cs: Seq<SubtitleModel>, k: int)
    requires
        at(s, b, cues_text(cs)),
        b + cues_text(cs).len() == s.len(),
        forall|i: int| 0 <= i < cs.len() ==> cue_writable(#[trigger] cs[i]),
        s.len() <= usize::MAX,
        0 <= k <= cs.len(),
    ensures
        more_cues(s, (b + cues_text(cs.subrange(0, k)).len()) as usize, cs.subrange(0, k))
            == Parsed::Done(s.len() as usize, cs),
    decreases cs.len() - k,
{
    let q = b + cues_text(cs.subrange(0, k)).len();
    if k == cs.len() {
        assert(cs.subrange(0, k) =~= cs);
    } else {
        let next = cs.subrange(0, k + 1);
        lemma_cues_prefix(s, b, cs, k + 1);
        assert(next.drop_last() =~= cs.subrange(0, k));
        assert(next.last() == cs[k]);
        lemma_at_split(s, b, cues_text(cs.subrange(0, k)), cue_entry(cs[k]));
        lemma_cue_at(s, q as usize, cs[k]);
        assert(cue_entry(cs[k]).len() >= 2);
        assert(cs.subrange(0, k).push(cs[k]) =~= next);
        lemma_more_cues_at(s, b, cs, k + 1);
    }
}

/// What a header value must hold for its written line to read back: no line feed.
pub open spec fn field_writable(v: Option<Seq<char>>) -> bool {
    match v {
        Some(x) => no_line_feed(encode_utf8(x)),
        None => true,
    }
}

proof fn lemma_field_part(s: Seq<u8>, p: usize, t: Seq<u8>, v: Option<Seq<char>>)
    requires
        at(s, p as int, field_text(t, v)),
        t.len() >= 1,
        field_writable(v),
        p + field_text(t, v).len() < s.len(),
        s[p + field_text(t, v).len()] != t[0],
        s.len() <= usize::MAX,
    ensures
        optional(header_field(s, p, t), p) == Parsed::Done(
            (p + field_text(t, v).len()) as usize,
            v,
        ),
{
    match v {
        Some(x) => {
            let b = encode_utf8(x);
            assert(field_text(t, v) =~= t + (b + newline()));
            lemma_at_split(s, p as int, t, b + newline());
            lemma_tag_matches(s, p, t);
            lemma_line_at(s, (p + t.len()) as usize, x);
            lemma_at_split(s, p + t.len(), b, newline());
            lemma_at_index(s, p + t.len() + b.len(), newline(), 0);
        },
        None => {
            lemma_tag_mismatch(s, p, t);
        },
    }
}

#[verifier::rlimit(100)]
proof fn lemma_cues_all(s: Seq<u8>, b: usize, cs: Seq<SubtitleModel>)
    requires
        at(s, b as int, cues_text(cs)),
        b + cues_text(cs).len() == s.len(),
        cs.len() >= 1,
        forall|i: int| 0 <= i < cs.len() ==> cue_writable(#[trigger] cs[i]),
        s.len() <= usize::MAX,
    ensures
        cues(s, b) == Parsed::Done(s.len() as usize, cs),
{
    lemma_cues_prefix(s, b as int, cs, 1);
    let one = cs.subrange(0, 1);
    assert(one.drop_last() =~= Seq::<SubtitleModel>::empty());
    assert(cues_text(one.drop_last()) =~= Seq::<u8>::empty());
    assert(one.last() == cs[0]);
    assert(cues_text(one) =~= cue_entry(cs[0]));
    lemma_cue_at(s, b, cs[0]);
    lemma_more_cues_at(s, b as int, cs, 1);
    assert(cs.subrange(0, 1) =~= seq![cs[0]]);
}

proof fn lemma_at_prefix(d: Seq<u8>, s: Seq<u8>, i: int, x: Seq<u8>)
    requires
        at(d, i, x),
        s.len() <= d.len(),
        forall|j: int| 0 <= j < s.len() ==> s[j] == d[j],
        i + x.len() <= s.len(),
    ensures
        at(s, i, x),
{
    assert(s.subrange(i, i + x.len()) =~= d.subrange(i, i + x.len()));
}

/// The text of a cue sequence ends with a blank line.
proof fn lemma_cues_text_len(cs: Seq<SubtitleModel>)
    requires
        cs.len() >= 1,
    ensures
        cues_text(cs).len() >= 2,
{
}

/// A written document, or one with its last byte cut off when it has a cue.
pub open spec fn written_or_cut(s: Seq<u8>, m: VttModel) -> bool {
    s == document_text(m) || (m.subtitles.len() >= 1 && s == document_text(m).drop_last())
}

/// Where the parts of the header stand in a written document.
#[verifier::rlimit(100)]
proof fn lemma_header_layout(s: Seq<u8>, m: VttModel)
    requires
        written_or_cut(s, m),
    ensures
        ({
            let fk = field_text(kind_tag(), m.kind);
            let fl = field_text(language_tag(), m.language);
            let pos3 = 7 + fk.len() as int;
            let pos4 = pos3 + fl.len() as int;
            &&& at(s, 0, magic())
            &&& s[6] == 10
            &&& at(s, 7, fk)
            &&& at(s, pos3, fl)
            &&& pos4 < s.len()
            &&& s[pos4] == 10
            &&& s[pos3] == 76 || s[pos3] == 10
            &&& at(document_text(m), pos4 + 1, cues_text(m.subtitles))
            &&& pos4 + 1 + cues_text(m.subtitles).len() == document_text(m).len()
        }),
{
    let d = document_text(m);
    let fk = field_text(kind_tag(), m.kind);
    let fl = field_text(language_tag(), m.language);
    let cs = m.subtitles;
    let a1 = magic() + newline();
    let a2 = a1 + fk;
    let a3 = a2 + fl;
    let a4 = a3 + newline();
    assert(d.subrange(0, d.len() as int) =~= d);
    assert(at(d, 0, d));
    lemma_at_split(d, 0, a4, cues_text(cs));
    lemma_at_split(d, 0, a3, newline());
    lemma_at_split(d, 0, a2, fl);
    lemma_at_split(d, 0, a1, fk);
    lemma_at_split(d, 0, magic(), newline());
    lemma_at_index(d, 6, newline(), 0);
    lemma_at_index(d, a3.len() as int, newline(), 0);
    if fl.len() > 0 {
        lemma_at_index(d, a2.len() as int, fl, 0);
        assert(fl[0] == 76);
    }
    if s != d {
        lemma_cues_text_len(cs);
        lemma_at_prefix(d, s, 0, magic());
        lemma_at_prefix(d, s, 7, fk);
        lemma_at_prefix(d, s, a2.len() as int, fl);
    }
}

/// The header as written reads back: the positions after the magic line, the
/// kind, the language, the absent style and the blank line.
#[verifier::rlimit(100)]
proof fn lemma_header(s: Seq<u8>, m: VttModel)
    requires
        written_or_cut(s, m),
        field_writable(m.kind),
        field_writable(m.language),
        s.len() <= usize::MAX,
    ensures
        ({
            let pos3 = 7 + field_text(kind_tag(), m.kind).len();
            let pos4 = pos3 + field_text(language_tag(), m.language).len();
            &&& tag(s, 0, magic()) == Parsed::Done(6, ())
            &&& eol(s, 6) == Parsed::Done(7, ())
            &&& optional(header_field(s, 7, kind_tag()), 7) == Parsed::Done(pos3 as usize, m.kind)
            &&& optional(header_field(s, pos3 as usize, language_tag()), pos3 as usize)
                == Parsed::Done(pos4 as usize, m.language)
            &&& optional(style(s, pos4 as usize), pos4 as usize) == Parsed::Done(
                pos4 as usize,
                None::<Seq<char>>,
            )
            &&& eol(s, pos4 as usize) == Parsed::Done((pos4 + 1) as usize, ())
        }),
{
    lemma_header_layout(s, m);
    let fk = field_text(kind_tag(), m.kind);
    let fl = field_text(language_tag(), m.language);
    let pos3 = 7 + fk.len();
    let pos4 = pos3 + fl.len();
    lemma_tag_matches(s, 0, magic());
    lemma_field_part(s, 7, kind_tag(), m.kind);
    lemma_field_part(s, pos3 as usize, language_tag(), m.language);
    lemma_tag_mismatch(s, pos4 as usize, style_tag());
}

/// Writing a document and reading the text back gives its cues, kind and
/// language unchanged. The style block is not written, so none is read back.
pub proof fn lemma_round_trip(m: VttModel)
    requires
        m.subtitles.len() >= 1,
        forall|i: int| 0 <= i < m.subtitles.len() ==> cue_writable(#[trigger] m.subtitles[i]),
        field_writable(m.kind),
        field_writable(m.language),
        document_text(m).len() <= usize::MAX,
    ensures
        document(document_text(m)) matches Outcome::Read(r) && r.subtitles == m.subtitles
            && r.kind == m.kind && r.language == m.language && r.style is None,
{
    let s = document_text(m);
    lemma_header(s, m);
    lemma_header_layout(s, m);
    let pos3 = 7 + field_text(kind_tag(), m.kind).len();
    let pos4 = pos3 + field_text(language_tag(), m.language).len();
    lemma_cues_all(s, (pos4 + 1) as usize, m.subtitles);
}

/// A minimal document, the magic line, a blank line and one cue with no note
/// and no positioning, reads as exactly that one cue.
pub proof fn lemma_minimal_document(start: Time, end: Time, text: Seq<char>)
    requires
        no_blank_line(encode_utf8(text)),
        document_text(
            VttModel {
                subtitles: seq![
                    SubtitleModel { start, end, text, note: None, positioning: None },
                ],
                language: None,
                kind: None,
                style: None,
            },
        ).len() <= usize::MAX,
    ensures
        ({
            let c = SubtitleModel { start, end, text, note: None, positioning: None };
            let m = VttModel { subtitles: seq![c], language: None, kind: None, style: None };
            document(document_text(m)) matches Outcome::Read(r) && r.subtitles.len() == 1
                && r.subtitles[0] == c && r.kind is None && r.language is None
        }),
{
    let c = SubtitleModel { start, end, text, note: None, positioning: None };
    let m = VttModel { subtitles: seq![c], language: None, kind: None, style: None };
    assert(cue_writable(m.subtitles[0]));
    lemma_round_trip(m);
}

/// The value of the leading digits at `p` as an hour field, zero if there are none.
pub open spec fn hour_field(s: Seq<u8>, p: usize) -> u8 {
    match u8_field(s, p) {
        Parsed::Done(_, h) => h,
        _ => 0,
    }
}

/// A timestamp read has nonzero hours exactly when it was written in the form
/// with hours and its hour field is nonzero; the form without hours gives zero.
pub proof fn lemma_hours(s: Seq<u8>, p: usize)
    ensures
        time(s, p) matches Parsed::Done(_, t) ==> (t.hours != 0 <==> (time_with_hours(s, p) is Done
            && hour_field(s, p) != 0)),
        time(s, p) matches Parsed::Done(_, t) ==> (time_with_hours(s, p) is Fail ==> t.hours == 0),
{
}

/// A document with a header and its blank line but no cue after them is not
/// read: the input ends where a cue is owed.
pub proof fn lemma_no_cues(m: VttModel)
    requires
        m.subtitles.len() == 0,
        field_writable(m.kind),
        field_writable(m.language),
        document_text(m).len() <= usize::MAX,
    ensures
        document(document_text(m)) is Incomplete,
{
    let s = document_text(m);
    lemma_header(s, m);
    lemma_header_layout(s, m);
    assert(cues_text(m.subtitles) =~= Seq::<u8>::empty());
    let e = s.len() as usize;
    assert(s.subrange(e as int, e as int) =~= note_tag().subrange(0, 0));
    assert(tag(s, e, note_tag()) is Incomplete);
}

/// A payload followed by a single line feed at the end of the input is no block.
proof fn lemma_block_unterminated(t: Seq<u8>, b: usize, x: Seq<u8>)
    requires
        at(t, b as int, x),
        t.len() == b + x.len() + 1,
        t[b + x.len()] == 10,
        no_blank_line(x),
    ensures
        crate::grammar::block(t, b) is Incomplete,
{
    lemma_find_from(t, b as int, blank_line());
    if let Some(i) = find_from(t, b as int, blank_line()) {
        assert(t.subrange(i, i + 2)[0] == t[i]);
        assert(t.subrange(i, i + 2)[1] == t[i + 1]);
        lemma_at_index(t, b as int, x, i - b);
        if i + 1 < b + x.len() {
            lemma_at_index(t, b as int, x, i + 1 - b);
        }
        assert(false);
    }
}

/// In a written cue sequence cut before its last byte, every cue but the last
/// reads back as itself, and the last one needs more input.
#[verifier::rlimit(100)]
proof fn lemma_cue_in_cut(t: Seq<u8>, d: Seq<u8>, b: int, cs: Seq<SubtitleModel>, k: int)
    requires
        d.len() >= 1,
        t == d.drop_last(),
        at(d, b, cues_text(cs)),
        b + cues_text(cs).len() == d.len(),
        forall|i: int| 0 <= i < cs.len() ==> cue_writable(#[trigger] cs[i]),
        d.len() <= usize::MAX,
        0 <= k < cs.len(),
    ensures
        ({
            let q = b + cues_text(cs.subrange(0, k)).len();
            let q2 = b + cues_text(cs.subrange(0, k + 1)).len();
            &&& q < t.len()
            &&& k + 1 < cs.len() ==> cue(t, q as usize) == Parsed::Done(q2 as usize, cs[k])
                && q < q2 < t.len()
            &&& k + 1 == cs.len() ==> cue(t, q as usize) is Incomplete
        }),
{
    let q = b + cues_text(cs.subrange(0, k)).len();
    let c = cs[k];
    let next = cs.subrange(0, k + 1);
    lemma_cues_prefix(d, b, cs, k + 1);
    assert(next.drop_last() =~= cs.subrange(0, k));
    assert(next.last() == c);
    lemma_at_split(d, b, cues_text(cs.subrange(0, k)), cue_entry(c));
    assert forall|j: int| 0 <= j < t.len() implies t[j] == d[j] by {}
    if k + 1 < cs.len() {
        let next2 = cs.subrange(0, k + 2);
        lemma_cues_prefix(d, b, cs, k + 2);
        assert(next2.drop_last() =~= next);
        assert(cue_entry(cs[k + 1]).len() >= 2);
        lemma_at_prefix(d, t, q, cue_entry(c));
        lemma_cue_at(t, q as usize, c);
    } else {
        assert(next =~= cs);
        let h = cue_head(c);
        let x = encode_utf8(c.text);
        assert(cue_entry(c) =~= h + (x + blank_line()));
        lemma_at_split(d, q, h, x + blank_line());
        lemma_at_split(d, q + h.len(), x, blank_line());
        lemma_at_prefix(d, t, q, h);
        lemma_at_prefix(d, t, q + h.len(), x);
        lemma_at_index(d, q + h.len() + x.len(), blank_line(), 0);
        lemma_cue_head(t, q as usize, c);
        lemma_block_unterminated(t, (q + h.len()) as usize, x);
    }
}

proof fn lemma_more_cues_cut(t: Seq<u8>, d: Seq<u8>, b: int, cs: Seq<SubtitleModel>, k: int)
    requires
        d.len() >= 1,
        t == d.drop_last(),
        at(d, b, cues_text(cs)),
        b + cues_text(cs).len() == d.len(),
        forall|i: int| 0 <= i < cs.len() ==> cue_writable(#[trigger] cs[i]),
        d.len() <= usize::MAX,
        0 <= k < cs.len(),
    ensures
        more_cues(t, (b + cues_text(cs.subrange(0, k)).len()) as usize, cs.subrange(0, k))
            is Incomplete,
    decreases cs.len() - k,
{
    lemma_cue_in_cut(t, d, b, cs, k);
    if k + 1 < cs.len() {
        assert(cs.subrange(0, k).push(cs[k]) =~= cs.subrange(0, k + 1));
        lemma_more_cues_cut(t, d, b, cs, k + 1);
    }
}

/// A written document cut before its final line feed is not read, however many
/// cues it has: its last cue lacks the blank line that ends it, and more input
/// is needed.
#[verifier::rlimit(100)]
pub proof fn lemma_unterminated_cue(m: VttModel)
    requires
        m.subtitles.len() >= 1,
        forall|i: int| 0 <= i < m.subtitles.len() ==> cue_writable(#[trigger] m.subtitles[i]),
        field_writable(m.kind),
        field_writable(m.language),
        document_text(m).len() <= usize::MAX,
    ensures
        document(document_text(m).drop_last()) is Incomplete,
{
    let d = document_text(m);
    let t = d.drop_last();
    let cs = m.subtitles;
    lemma_header(t, m);
    lemma_header_layout(t, m);
    let pos3 = 7 + field_text(kind_tag(), m.kind).len();
    let b = pos3 + field_text(language_tag(), m.language).len() + 1;
    assert(cs.subrange(0, 0) =~= Seq::<SubtitleModel>::empty());
    assert(cues_text(cs.subrange(0, 0)) =~= Seq::<u8>::empty());
    lemma_cue_in_cut(t, d, b as int, cs, 0);
    if cs.len() > 1 {
        let one = cs.subrange(0, 1);
        assert(one.drop_last() =~= Seq::<SubtitleModel>::empty());
        assert(one =~= seq![cs[0]]);
        lemma_more_cues_cut(t, d, b as int, cs, 1);
    }
}

/// Any header, with or without its optional fields and style block and with
/// either line terminator, followed by its blank line and nothing more, is not
/// read: the input ends where a cue is owed.
pub proof fn lemma_header_only(
    s: Seq<u8>,
    pos2: usize,
    pos3: usize,
    pos4: usize,
    pos5: usize,
    kind: Option<Seq<char>>,
    language: Option<Seq<char>>,
    sty: Option<Seq<char>>,
)
    requires
        s.len() <= usize::MAX,
        tag(s, 0, magic()) == Parsed::Done(6, ()),
        eol(s, 6) == Parsed::Done(pos2, ()),
        optional(header_field(s, pos2, kind_tag()), pos2) == Parsed::Done(pos3, kind),
        optional(header_field(s, pos3, language_tag()), pos3) == Parsed::Done(pos4, language),
        optional(style(s, pos4), pos4) == Parsed::Done(pos5, sty),
        eol(s, pos5) == Parsed::Done(s.len() as usize, ()),
    ensures
        document(s) is Incomplete,
{
    let e = s.len() as usize;
    assert(s.subrange(e as int, e as int) =~= note_tag().subrange(0, 0));
    assert(tag(s, e, note_tag()) is Incomplete);
}

} // verus!
