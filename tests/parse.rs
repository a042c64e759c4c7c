use vtt::{parse_from_slice, Error, ErrorKind, Needed, Subtitle, Time, Vtt};

const SIMPLE: &str = "WEBVTT
Kind: captions
Language: en

00:09.000 --> 00:11.000
<v Roger Bingham>We are in New York City

00:11.000 --> 00:13.000
<v Roger Bingham>We're actually at the Lucern Hotel, just down the street

00:13.000 --> 00:16.000
<v Roger Bingham>from the American Museum of Natural History

00:16.000 --> 00:18.000
<v Roger Bingham>And with me is Neil deGrasse Tyson

00:18.000 --> 00:20.000
<v Roger Bingham>Astrophysicist, Director of the Hayden Planetarium

00:20.000 --> 00:22.000
<v Roger Bingham>at the AMNH.

00:22.000 --> 00:24.000
<v Roger Bingham>Thank you for walking down here.

00:24.000 --> 00:27.000
<v Roger Bingham>And I want to do a season of Nature Tech

00:27.000 --> 00:30.000
<v Roger Bingham>about the end of the universe.

00:30.000 --> 00:31.500 align:end size:50%
<v Roger Bingham>Neil, do you think the universe will end?

00:32.500 --> 00:33.500 align:start size:50%
<v Neil deGrasse Tyson>Yes

00:34.000 --> 00:35.000
<v Roger Bingham>You know I'm so excited my glasses are falling off here.

";

const COMMENTS: &str = "WEBVTT

00:00.000 --> 00:01.000
First cue

NOTE check next cue

00:01.000 --> 00:02.000
Second cue

00:02.000 --> 00:03.000
Third cue

";

const MULTIPLE_LINES: &str = "WEBVTT

00:00.000 --> 00:01.000
One line

00:01.000 --> 00:02.000
First line
Second line

";

fn time(hours: u8, minutes: u8, seconds: u8, milliseconds: u16) -> Time {
    Time { hours, minutes, seconds, milliseconds }
}

#[test]
fn simple() {
    let vtt = parse_from_slice(SIMPLE.as_bytes()).unwrap();

    assert_eq!(vtt.kind, Some("captions".into()));
    assert_eq!(vtt.language, Some("en".into()));

    assert_eq!(vtt.subtitles[0].text, "<v Roger Bingham>We are in New York City".to_string());
    assert_eq!(vtt.subtitles[0].start, Time { hours: 0, minutes: 0, seconds: 9, milliseconds: 0 });
    assert_eq!(vtt.subtitles[0].end, Time { hours: 0, minutes: 0, seconds: 11, milliseconds: 0 });

    assert_eq!(vtt.subtitles[9].positioning, Some("align:end size:50%".into()));

    assert_eq!(
        vtt.subtitles[vtt.subtitles.len() - 1].text,
        "<v Roger Bingham>You know I'm so excited my glasses are falling off here.".to_string()
    );
}

#[test]
fn comments() {
    let vtt = parse_from_slice(COMMENTS.as_bytes()).unwrap();
    assert_eq!(vtt.subtitles[1].note, Some("check next cue".into()));
}

#[test]
fn multiple_lines() {
    let vtt = parse_from_slice(MULTIPLE_LINES.as_bytes()).unwrap();
    assert_eq!(vtt.subtitles[1].text.lines().count(), 2);
}

#[test]
fn header_fields_and_one_cue() {
    let input = "WEBVTT\nKind: captions\nLanguage: en\n\n00:00:09.000 --> 00:00:11.000\nHello world\n\n";
    let vtt = parse_from_slice(input.as_bytes()).unwrap();
    assert_eq!(vtt.kind, Some("captions".to_string()));
    assert_eq!(vtt.language, Some("en".to_string()));
    assert_eq!(vtt.style, None);
    assert_eq!(vtt.subtitles.len(), 1);
    let cue = &vtt.subtitles[0];
    assert_eq!(cue.start, time(0, 0, 9, 0));
    assert_eq!(cue.end, time(0, 0, 11, 0));
    assert_eq!(cue.text, "Hello world");
    assert_eq!(cue.note, None);
    assert_eq!(cue.positioning, None);
}

#[test]
fn minimal_document() {
    let vtt = parse_from_slice(b"WEBVTT\n\n01:02.003 --> 04:05.006\nabc\n\n").unwrap();
    assert_eq!(vtt.kind, None);
    assert_eq!(vtt.language, None);
    assert_eq!(vtt.subtitles.len(), 1);
    assert_eq!(vtt.subtitles[0].start, time(0, 1, 2, 3));
    assert_eq!(vtt.subtitles[0].end, time(0, 4, 5, 6));
    assert_eq!(vtt.subtitles[0].text, "abc");
}

#[test]
fn note_does_not_leak_into_next_cue() {
    let input = "WEBVTT\n\nNOTE check next cue\n\n00:01.000 --> 00:02.000\nfirst\n\n00:02.000 --> 00:03.000\nsecond\n\n";
    let vtt = parse_from_slice(input.as_bytes()).unwrap();
    assert_eq!(vtt.subtitles.len(), 2);
    assert_eq!(vtt.subtitles[0].note, Some("check next cue".to_string()));
    assert_eq!(vtt.subtitles[0].text, "first");
    assert_eq!(vtt.subtitles[1].note, None);
}

#[test]
fn note_after_line_terminator() {
    let input = "WEBVTT\n\nNOTE\nline one\nline two\n\n00:01.000 --> 00:02.000\nx\n\n";
    let vtt = parse_from_slice(input.as_bytes()).unwrap();
    assert_eq!(vtt.subtitles[0].note, Some("line one\nline two".to_string()));
}

#[test]
fn text_keeps_inner_line_break() {
    let input = "WEBVTT\n\n00:01.000 --> 00:02.000\nline one\nline two\n\n";
    let vtt = parse_from_slice(input.as_bytes()).unwrap();
    assert_eq!(vtt.subtitles[0].text, "line one\nline two");
    assert_eq!(vtt.subtitles[0].text.lines().count(), 2);
}

#[test]
fn hours_only_from_hour_form() {
    let input = "WEBVTT\n\n01:00:09.000 --> 00:11.000\nx\n\n00:00:01.000 --> 00:00:02.000\ny\n\n";
    let vtt = parse_from_slice(input.as_bytes()).unwrap();
    assert_eq!(vtt.subtitles[0].start, time(1, 0, 9, 0));
    assert_eq!(vtt.subtitles[0].end, time(0, 0, 11, 0));
    assert_eq!(vtt.subtitles[1].start.hours, 0);
}

#[test]
fn positioning_and_style() {
    let input = "WEBVTT\nStyle:\n::cue { color: red }\n##\n\n00:01.000 --> 00:02.000 line:0 align:start\nx\n\n";
    let vtt = parse_from_slice(input.as_bytes()).unwrap();
    assert_eq!(vtt.style, Some("::cue { color: red }\n".to_string()));
    assert_eq!(vtt.subtitles[0].positioning, Some("line:0 align:start".to_string()));
}

#[test]
fn crlf_header_terminators() {
    let input = "WEBVTT\r\n\r\n00:01.000 --> 00:02.000\r\nx\n\n";
    let vtt = parse_from_slice(input.as_bytes()).unwrap();
    assert_eq!(vtt.subtitles[0].text, "x");
}

#[test]
fn missing_final_blank_line_fails() {
    let input = "WEBVTT\n\n00:01.000 --> 00:02.000\nHello\n";
    assert!(parse_from_slice(input.as_bytes()).is_err());
    let input = "WEBVTT\n\n00:01.000 --> 00:02.000\nHello";
    assert!(parse_from_slice(input.as_bytes()).is_err());
}

#[test]
fn unterminated_last_cue_fails_after_earlier_cues() {
    let input = "WEBVTT\n\n00:01.000 --> 00:02.000\nfirst\n\n00:02.000 --> 00:03.000\nsecond\n";
    match parse_from_slice(input.as_bytes()) {
        Err(Error::ParsingIncomplete(Needed::Unknown)) => {}
        other => panic!("unexpected {:?}", other),
    }
    let input = "WEBVTT\n\n00:01.000 --> 00:02.000\nfirst\n\n00:02.000 --> 00:03.000\nsecond";
    assert!(parse_from_slice(input.as_bytes()).is_err());
}

#[test]
fn no_cues_fails() {
    match parse_from_slice(b"WEBVTT\nKind: captions\n\n") {
        Err(Error::ParsingIncomplete(Needed::Size(n))) => assert_eq!(n, 27),
        other => panic!("unexpected {:?}", other),
    }
    assert!(parse_from_slice(b"WEBVTT\n\n").is_err());
}

#[test]
fn missing_magic_is_a_tag_error() {
    match parse_from_slice(b"WEBVTX\n\n00:01.000 --> 00:02.000\nx\n\n") {
        Err(Error::ParsingError(ErrorKind::Tag)) => {}
        other => panic!("unexpected {:?}", other),
    }
}

#[test]
fn short_input_is_incomplete() {
    match parse_from_slice(b"WEB") {
        Err(Error::ParsingIncomplete(Needed::Size(n))) => assert_eq!(n, 6),
        other => panic!("unexpected {:?}", other),
    }
}

#[test]
fn missing_line_terminator_is_a_crlf_error() {
    match parse_from_slice(b"WEBVTT x\n\n00:01.000 --> 00:02.000\nx\n\n") {
        Err(Error::ParsingError(ErrorKind::CrLf)) => {}
        other => panic!("unexpected {:?}", other),
    }
}

#[test]
fn bad_first_cue_is_a_many1_error() {
    match parse_from_slice(b"WEBVTT\n\nnot a cue\n\n") {
        Err(Error::ParsingError(ErrorKind::Many1)) => {}
        other => panic!("unexpected {:?}", other),
    }
}

#[test]
fn overflowing_field_fails() {
    assert!(parse_from_slice(b"WEBVTT\n\n999:00.000 --> 00:01.000\nx\n\n").is_err());
    let vtt = parse_from_slice(b"WEBVTT\n\n99:00.65535 --> 255:00:01.000\nx\n\n").unwrap();
    assert_eq!(vtt.subtitles[0].start, time(0, 99, 0, 65535));
    assert_eq!(vtt.subtitles[0].end, time(255, 0, 1, 0));
    assert!(parse_from_slice(b"WEBVTT\n\n00:00.65536 --> 00:01.000\nx\n\n").is_err());
}

#[test]
fn invalid_utf8_text_fails() {
    assert!(parse_from_slice(b"WEBVTT\n\n00:01.000 --> 00:02.000\n\xff\n\n").is_err());
}

fn sample() -> Vtt {
    Vtt {
        subtitles: vec![
            Subtitle {
                start: time(0, 0, 9, 0),
                end: time(1, 2, 3, 45),
                text: "Héllo\nworld".to_string(),
                note: Some("a note".to_string()),
                positioning: Some("align:end".to_string()),
            },
            Subtitle {
                start: time(10, 20, 30, 400),
                end: time(11, 0, 0, 5),
                text: "bye".to_string(),
                note: None,
                positioning: None,
            },
        ],
        language: Some("en".to_string()),
        kind: Some("captions".to_string()),
        style: Some("::cue {}\n".to_string()),
    }
}

#[test]
fn written_text_is_exact() {
    let text = String::from_utf8(sample().to_bytes()).unwrap();
    assert_eq!(
        text,
        "WEBVTT\nKind: captions\nLanguage: en\n\nNOTE a note\n\n00:00:09.000 --> 01:02:03.045 align:end\nHéllo\nworld\n\n10:20:30.400 --> 11:00:00.005\nbye\n\n"
    );
}

#[test]
fn round_trip_keeps_all_but_style() {
    let doc = sample();
    let back = parse_from_slice(&doc.to_bytes()).unwrap();
    assert_eq!(back.kind, doc.kind);
    assert_eq!(back.language, doc.language);
    assert_eq!(back.style, None);
    assert_eq!(back.subtitles.len(), doc.subtitles.len());
    for (a, b) in back.subtitles.iter().zip(doc.subtitles.iter()) {
        assert_eq!(a.start, b.start);
        assert_eq!(a.end, b.end);
        assert_eq!(a.text, b.text);
        assert_eq!(a.note, b.note);
        assert_eq!(a.positioning, b.positioning);
    }
}

#[test]
fn cue_written_alone() {
    let mut out = Vec::new();
    sample().subtitles[1].write_to(&mut out);
    assert_eq!(out, b"10:20:30.400 --> 11:00:00.005\nbye\n".to_vec());
}

#[test]
fn to_string_matches_bytes() {
    let doc = sample();
    assert_eq!(doc.to_string().into_bytes(), doc.to_bytes());
    assert!(doc.to_string().starts_with("WEBVTT\nKind: captions\n"));
}

#[test]
fn time_written_zero_padded() {
    let mut out = Vec::new();
    time(1, 2, 3, 4).write_to(&mut out);
    assert_eq!(out, b"01:02:03.004".to_vec());
    let mut out = Vec::new();
    time(255, 0, 0, 65535).write_to(&mut out);
    assert_eq!(out, b"255:00:00.65535".to_vec());
}

#[test]
fn io_error_converts() {
    let e: Error = std::io::Error::new(std::io::ErrorKind::NotFound, "missing").into();
    assert!(matches!(e, Error::IO(_)));
}

#[test]
fn plain_cue_written_alone() {
    let cue = Subtitle {
        start: time(0, 0, 9, 0),
        end: time(0, 0, 11, 0),
        text: "Hello world".into(),
        note: None,
        positioning: None,
    };
    let mut out = Vec::new();
    cue.write_to(&mut out);
    assert_eq!(String::from_utf8(out).unwrap(), "00:00:09.000 --> 00:00:11.000\nHello world\n");
}

#[test]
fn cue_with_note_and_positioning_written_alone() {
    let cue = Subtitle {
        start: time(0, 1, 2, 3),
        end: time(1, 0, 0, 0),
        text: "a\nb".into(),
        note: Some("c".into()),
        positioning: Some("align:end size:50%".into()),
    };
    let mut out = Vec::new();
    cue.write_to(&mut out);
    assert_eq!(
        String::from_utf8(out).unwrap(),
        "NOTE c\n\n00:01:02.003 --> 01:00:00.000 align:end size:50%\na\nb\n"
    );
}

#[test]
fn header_with_style_and_no_cues_fails() {
    assert!(parse_from_slice(b"WEBVTT\nStyle:\nx\n##\n\n").is_err());
    assert!(parse_from_slice(b"WEBVTT\r\n\r\n").is_err());
}
