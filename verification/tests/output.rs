//! Reading what the tools print.

use autoblur::ffmpeg::{
    parse_time, readable_error, tool_version, version_of, EncoderOutput, TAIL_KEPT, TAIL_LIMIT,
};
use autoblur::numeral::is_float;
use autoblur::probe::{describe, no_such_file, probe, probe_args, ratio, read_report, ToolOutput};
use autoblur::text::{
    after, before, chars, contains, find, is_blank_str, is_white, join, number, numeral,
    padded_number, split, string, strings, trim, trim_chars, trim_start,
};

fn fields(line: &str) -> Option<(String, String, String)> {
    parse_time(line).map(|f| (f.hours, f.minutes, f.seconds))
}

fn of(h: &str, m: &str, s: &str) -> Option<(String, String, String)> {
    Some((h.to_string(), m.to_string(), s.to_string()))
}

fn ran(stdout: &str) -> ToolOutput {
    ToolOutput { success: true, stdout: stdout.as_bytes().to_vec(), stderr: vec![] }
}

fn probe_error(run: &ToolOutput) -> String {
    match probe("a.mp4", run) {
        Ok(_) => panic!("the run should be refused"),
        Err(e) => e.message().to_string(),
    }
}

#[test]
fn floats_are_told_from_other_texts_as_std_does() {
    let texts = [
        "", "0", "1", "12", "1.5", "1.", ".5", ".", "+1", "-1", "+", "-", "+-1", "1e5", "1E5", "1e+5",
        "1e-5", "1e", "1e+", "e5", ".e5", "1.e5", ".5e5", "1e5.", "1e5e5", "1.2.3", "inf", "INF", "Inf",
        "-inf", "infinity", "InFiNiTy", "infinit", "infinityy", "nan", "NaN", "-nan", "nanx", "N/A", " 1",
        "1 ", "1_000", "0x10", "\u{0661}", "01", "00.00", "-0", "1e400", "+.5E-3", "@", "[nf",
    ];
    for t in texts {
        assert_eq!(is_float(&chars(t)), t.parse::<f64>().is_ok(), "{t:?}");
    }
}

#[test]
fn short_texts_over_the_letters_of_numbers_are_told_apart() {
    let letters = ['1', '.', 'e', '+', '-'];
    for n in 0..3125usize {
        let mut k = n;
        let mut t = String::new();
        for _ in 0..5 {
            t.push(letters[k % 5]);
            k /= 5;
            assert_eq!(is_float(&chars(&t)), t.parse::<f64>().is_ok(), "{t:?}");
        }
    }
}

#[test]
fn a_time_has_three_numerals() {
    assert_eq!(fields("time=1:2:3"), of("1", "2", "3"));
    assert_eq!(fields("time=1:2:3:4"), of("1", "2", "3"));
    assert_eq!(fields("time=   00:00:01.50\tx"), of("00", "00", "01.50"));
    assert_eq!(fields("time=-00:00:01.50"), of("-00", "00", "01.50"));
    assert_eq!(fields("time=1:2"), None);
    assert_eq!(fields("time=a:2:3"), None);
    assert_eq!(fields("time=1:b:3"), None);
    assert_eq!(fields("time=1:2:c"), None);
    assert_eq!(fields("time=1::3"), None);
    assert_eq!(fields("time="), None);
    assert_eq!(fields("time=   "), None);
    assert_eq!(fields("time=1:2:3time=4:5:6"), of("1", "2", "3"));
    assert_eq!(fields("time=time=4:5:6"), None);
    assert_eq!(fields(""), None);
}

#[test]
fn only_the_last_twelve_lines_are_shown() {
    let tail: String = (0..20).map(|i| format!("line {i}\n\r  \n")).collect();
    let shown: Vec<String> = (8..20).map(|i| format!("line {i}")).collect();
    assert_eq!(readable_error(&tail), shown.join("\n"));
    assert_eq!(readable_error(""), "");
    assert_eq!(readable_error(" \r\n\t"), "");
}

#[test]
fn a_line_is_clipped_by_characters() {
    let exact = "\u{e4}".repeat(200);
    assert_eq!(readable_error(&exact), exact);
    let over = "\u{e4}".repeat(201);
    assert_eq!(
        readable_error(&over),
        format!("{exact}\u{2026} [201 chars of filtergraph elided]")
    );
}

#[test]
fn the_last_line_ends_the_message() {
    let tail = format!("{}\nConversion failed!", "y".repeat(5000));
    assert!(readable_error(&tail).ends_with("Conversion failed!"));
    let long: String = (0..40).map(|_| format!("{}\n", "z".repeat(5000))).collect();
    assert!(readable_error(&long).chars().count() <= 12 * (200 + 52 + 1));
}

#[test]
fn a_version_is_the_first_line() {
    let printed = "ffmpeg version 7.1 Copyright\r\nbuilt with gcc\n";
    assert_eq!(tool_version(Some(printed.as_bytes())), "ffmpeg version 7.1 Copyright");
    assert_eq!(version_of("  one  \ntwo"), "one");
    assert_eq!(version_of(""), "");
    assert_eq!(tool_version(None), "");
    // bytes that are no text are replaced
    assert_eq!(tool_version(Some(b"v\xff1\nrest")), "v\u{fffd}1");
}

#[test]
fn output_is_handed_out_line_by_line() {
    let mut out = EncoderOutput::new();
    assert_eq!(out.tail(), "");
    let lines = out.feed(b"Input #0\nframe=1 time=00:00:02.00 x\r");
    let texts: Vec<&str> = lines.iter().map(|l| l.text.as_str()).collect();
    assert_eq!(texts, ["Input #0", "frame=1 time=00:00:02.00 x", ""]);
    assert!(lines[0].time.is_none());
    let t = lines[1].time.as_ref().unwrap();
    assert_eq!((t.hours.as_str(), t.minutes.as_str(), t.seconds.as_str()), ("00", "00", "02.00"));
    out.feed_text("more");
    assert_eq!(out.tail(), "Input #0\nframe=1 time=00:00:02.00 x\rmore");
}

#[test]
fn the_end_of_the_output_is_kept() {
    let mut out = EncoderOutput::new();
    out.feed("a".repeat(TAIL_LIMIT).as_bytes());
    assert_eq!(out.tail().len(), TAIL_LIMIT);
    out.feed(b"end");
    assert_eq!(out.tail().len(), TAIL_KEPT);
    assert_eq!(out.tail(), format!("{}end", "a".repeat(TAIL_KEPT - 3)));
}

#[test]
fn a_character_is_never_cut_in_two() {
    let mut out = EncoderOutput::new();
    let text = "\u{e4}".repeat(4000);
    out.feed(text.as_bytes());
    assert_eq!(out.tail(), text);
    // 8001 bytes: the last 4000 start inside a character
    out.feed(b"x");
    assert_eq!(out.tail(), format!("{}x", "\u{e4}".repeat(1999)));
    let mut out = EncoderOutput::new();
    let lines = out.feed(format!("{}a", "\u{e9}".repeat(4001)).as_bytes());
    assert_eq!(lines.len(), 1);
    assert_eq!(out.tail(), format!("{}a", "\u{e9}".repeat(1999)));
    let mut out = EncoderOutput::new();
    out.feed_text(&format!("{}abc", "\u{1f600}".repeat(2000)));
    assert_eq!(out.tail(), format!("{}abc", "\u{1f600}".repeat(999)));
    assert_eq!(out.tail().len(), TAIL_KEPT - 1);
}

#[test]
fn bytes_that_are_no_text_are_replaced_in_the_output() {
    let mut out = EncoderOutput::new();
    let lines = out.feed(b"a\xffb\n");
    assert_eq!(lines[0].text, "a\u{fffd}b");
    assert_eq!(out.tail(), "a\u{fffd}b\n");
}

#[test]
fn a_failed_probe_says_why() {
    let failed = ToolOutput { success: false, stdout: vec![], stderr: b"  moov atom not found\n".to_vec() };
    assert_eq!(probe_error(&failed), "ffprobe failed: moov atom not found");
    let garbled = ToolOutput { success: false, stdout: vec![], stderr: b"a\xffb".to_vec() };
    assert_eq!(probe_error(&garbled), "ffprobe failed: a\u{fffd}b");
    let message = serde_json::from_slice::<serde_json::Value>(b"{").unwrap_err().to_string();
    assert_eq!(probe_error(&ran("{")), message);
    assert_eq!(no_such_file("x").message(), "no such file: x");
}

#[test]
fn a_file_without_video_is_refused() {
    for text in [
        "{}",
        "[]",
        r#"{"streams": 3}"#,
        r#"{"streams": []}"#,
        r#"{"streams": [{"codec_type": "audio"}, {"codec_type": 1}, 5]}"#,
    ] {
        assert_eq!(probe_error(&ran(text)), "a.mp4 has no video stream");
    }
}

#[test]
fn a_video_without_size_is_refused() {
    for size in [
        "",
        r#", "width": 0, "height": 720"#,
        r#", "width": 1280, "height": 0"#,
        r#", "width": "1280", "height": 720"#,
        r#", "width": -1280, "height": 720"#,
        r#", "width": 1280.0, "height": 720"#,
        r#", "width": 4294967296, "height": 720"#,
    ] {
        let text = format!(r#"{{"streams": [{{"codec_type": "video"{size}}}]}}"#);
        assert_eq!(probe_error(&ran(&text)), "ffprobe reported no frame size for a.mp4");
    }
}

#[test]
fn the_first_video_stream_is_described() {
    let text = r#"{"streams": [
        {"codec_type": "audio", "width": 1, "height": 1},
        {"codec_type": "video", "width": 640, "height": 480, "duration": "3.5"},
        {"codec_type": "video", "width": 2, "height": 2}]}"#;
    let report = read_report(text.as_bytes()).unwrap_or_else(|e| panic!("{}", e.message()));
    let shape = describe("a.mp4", &report).unwrap_or_else(|e| panic!("{}", e.message()));
    assert_eq!((shape.width, shape.height), (640, 480));
    assert_eq!(shape.duration, Some("3.5".to_string()));
    assert_eq!((shape.average.as_str(), shape.fallback.as_str()), ("0/0", "25/1"));
}

#[test]
fn the_duration_of_the_file_comes_first() {
    let text = r#"{"streams": [{"codec_type": "video", "width": 4294967298, "height": 480,
        "duration": "3.5", "avg_frame_rate": "30000/1001", "r_frame_rate": "30/1"}],
        "format": {"duration": "4.25"}}"#;
    let shape = probe("a.mp4", &ran(text)).unwrap_or_else(|e| panic!("{}", e.message()));
    assert_eq!(shape.duration, Some("4.25".to_string()));
    assert_eq!((shape.average.as_str(), shape.fallback.as_str()), ("30000/1001", "30/1"));
    // only the low half of a count is kept
    assert_eq!((shape.width, shape.height), (2, 480));
}

#[test]
fn a_probe_asks_for_streams_and_format() {
    assert_eq!(
        probe_args("a b.mp4"),
        ["-v", "error", "-print_format", "json", "-show_streams", "-show_format", "a b.mp4"]
    );
}

#[test]
fn a_ratio_is_split_at_its_first_slash() {
    let r = ratio("30000/1001");
    assert_eq!((r.numerator.as_str(), r.denominator.as_deref()), ("30000", Some("1001")));
    let r = ratio("25");
    assert_eq!((r.numerator.as_str(), r.denominator.as_deref()), ("25", None));
    let r = ratio("1/2/3");
    assert_eq!((r.numerator.as_str(), r.denominator.as_deref()), ("1", Some("2/3")));
}

#[test]
fn white_space_is_what_std_takes_for_it() {
    for c in (0..=0x10_ffffu32).filter_map(char::from_u32) {
        assert_eq!(is_white(c), c.is_whitespace(), "{c:?}");
    }
}

#[test]
fn texts_are_trimmed_split_and_searched_as_std_does() {
    for t in ["", " ", "a", "  a b ", "\u{2003}x\u{85}", "a,b;c", ",", "aab", "aaab", "\u{e4}\u{f6},"] {
        let v = chars(t);
        assert_eq!(string(&v), t);
        assert_eq!(trim(t), t.trim());
        assert_eq!(string(trim_chars(&v)), t.trim());
        assert_eq!(string(trim_start(&v)), t.trim_start());
        assert_eq!(is_blank_str(t), t.trim().is_empty());
        let parts: Vec<String> = split(&v, &[',', ';']).iter().map(|p| string(p)).collect();
        assert_eq!(parts, t.split([',', ';']).collect::<Vec<_>>());
        for p in ["a", "ab", ",", "zz"] {
            let part = chars(p);
            assert_eq!(contains(t, p), t.contains(p));
            assert_eq!(find(&v, &part), t.find(p).map(|b| t[..b].chars().count()));
            assert_eq!(string(before(&v, &part)), t.split(p).next().unwrap());
            assert_eq!(
                after(&v, &part).map(string),
                t.split_once(p).map(|(_, b)| b.to_string())
            );
        }
    }
    assert_eq!(join(&strings(&["a", "", "b"]), ", "), "a, , b");
    assert_eq!(join(&[], ", "), "");
}

#[test]
fn numbers_are_written_as_std_does() {
    for n in [0u64, 1, 9, 10, 99, 100, 1009, u64::MAX] {
        assert_eq!(number(n), n.to_string());
        assert_eq!(string(&numeral(n)), n.to_string());
        assert_eq!(padded_number(n, 4), format!("{n:04}"));
    }
}
