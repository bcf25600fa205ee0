//! Sampling a video and putting together what is read in it.

use autoblur::frames::{reader_args, FrameReader, Step};
use autoblur::ocr::{
    check_rate, filter, found_line, max_dim, next_attempt, no_recognizer, no_recognizer_named,
    ocr_workers, stamp, unavailable, union, worker_count, worker_name, Attempt, Edges, Line, OcrAction,
    OcrEvent, OcrOpts, OcrRun, Word,
};
use autoblur::probe::VideoInfo;
use autoblur::scale::frame_size;

fn line(text: &str) -> Line<f64> {
    Line { t: 0.0, text: text.to_string(), conf: 0.0, rect: [0.0; 4], words: vec![] }
}

fn batch(frames: &[(usize, &[&str])]) -> OcrEvent<f64> {
    OcrEvent::Recognized {
        frames: frames
            .iter()
            .map(|(i, texts)| (*i, texts.iter().map(|t| line(t)).collect()))
            .collect(),
    }
}

fn texts(run: &OcrRun<f64>) -> Vec<&str> {
    run.lines.iter().map(|l| l.text.as_str()).collect()
}

fn info() -> VideoInfo<f64> {
    VideoInfo {
        path: "dir/a.mp4".to_string(),
        width: 640,
        height: 480,
        duration: 3.0,
        fps: 25.0,
        sha256: "abc".to_string(),
    }
}

/// Feeds a stream in pieces of at most `most` bytes and collects the frames.
fn read(stream: &[u8], most: usize, w: u32, h: u32) -> Vec<(usize, Vec<u8>)> {
    let mut r = FrameReader::new(w, h);
    let mut frames = Vec::new();
    let mut rest = stream;
    let mut step = r.next_frame();
    loop {
        step = match step {
            Step::Read(n) => {
                let (piece, left) = rest.split_at(rest.len().min(n).min(most));
                rest = left;
                r.received(piece)
            }
            Step::Frame(i, buf) => {
                frames.push((i, buf));
                r.next_frame()
            }
            Step::End => return frames,
        };
    }
}

#[test]
fn frames_are_the_same_however_the_stream_is_cut() {
    let stream: Vec<u8> = (0..2 * 3 * 4 * 5 + 7).map(|i| i as u8).collect();
    let expected: Vec<(usize, Vec<u8>)> =
        stream.chunks_exact(24).enumerate().map(|(i, c)| (i, c.to_vec())).collect();
    assert_eq!(expected.len(), 5);
    for most in [1, 5, 23, 24, 25, 1000] {
        assert_eq!(read(&stream, most, 2, 3), expected, "pieces of {most}");
    }
    assert_eq!(read(&[], 10, 2, 3), vec![]);
    assert_eq!(read(&stream[..23], 10, 2, 3), vec![]);
}

#[test]
fn a_reader_asks_for_the_rest_of_a_frame() {
    let mut r = FrameReader::new(2, 3);
    assert_eq!((r.width, r.height, r.frame_bytes()), (2, 3, 24));
    assert!(matches!(r.next_frame(), Step::Read(24)));
    assert!(matches!(r.received(&[1; 10]), Step::Read(14)));
    assert!(matches!(r.received(&[]), Step::End));
    // what there was of the frame is discarded
    assert!(matches!(r.next_frame(), Step::Read(24)));
    match r.received(&[2; 24]) {
        Step::Frame(i, buf) => assert_eq!((i, buf), (0, vec![2; 24])),
        _ => panic!("a frame should be complete"),
    }
    assert!(FrameReader::fits(1 << 20, 1 << 20));
    assert!(!FrameReader::fits(u32::MAX, u32::MAX));
}

#[test]
fn a_frame_without_pixels_is_complete_at_once() {
    let mut r = FrameReader::new(0, 3);
    assert!(matches!(r.next_frame(), Step::Frame(0, _)));
    assert!(matches!(r.next_frame(), Step::Frame(1, _)));
}

#[test]
fn a_reader_ends_with_the_errors_of_ffmpeg() {
    let end = |stderr: &str| FrameReader::new(2, 2).finish(stderr).map_err(|e| e.message().to_string());
    assert_eq!(end(""), Ok(()));
    assert_eq!(end("a warning"), Ok(()));
    assert_eq!(end("error in lower case"), Ok(()));
    assert_eq!(end("  Error opening input\n"), Err("ffmpeg: Error opening input".to_string()));
}

#[test]
fn a_reader_asks_for_raw_frames() {
    assert_eq!(
        reader_args("a.mp4", "fps=2"),
        [
            "-hide_banner", "-loglevel", "error", "-nostdin", "-i", "a.mp4", "-vf", "fps=2", "-pix_fmt",
            "bgra", "-f", "rawvideo", "-",
        ]
    );
}

#[test]
fn a_frame_is_scaled_as_doubles_scale_it() {
    let by_doubles = |w: u32, h: u32, most: u32| {
        let max = most as f64;
        let big = w.max(h) as f64;
        if big > max {
            let s = max / big;
            (
                ((w as f64 * s / 2.0).floor() * 2.0) as u32,
                ((h as f64 * s / 2.0).floor() * 2.0) as u32,
            )
        } else {
            (w, h)
        }
    };
    for most in [0, 1, 2, 3, 1000, 2600, 4096, 10_000] {
        for w in (1..12_000).step_by(17) {
            for h in [1, 2, 3, w / 2 + 1, w, w + 1, 2 * w + 3, 9999] {
                assert_eq!(frame_size(w, h, most), by_doubles(w, h, most), "{w}x{h} in {most}");
            }
        }
    }
    for w in 2601..12_000 {
        assert_eq!(frame_size(w, 100, 2600), by_doubles(w, 100, 2600), "{w}");
    }
    for (w, h, most) in [
        (u32::MAX, u32::MAX, u32::MAX - 1),
        (u32::MAX, 1, 1),
        (u32::MAX, 3, 2600),
        (u32::MAX - 1, 77, 0x8000_0001),
    ] {
        assert_eq!(frame_size(w, h, most), by_doubles(w, h, most), "{w}x{h} in {most}");
    }
}

#[test]
fn a_scaled_frame_is_accepted() {
    assert_eq!(frame_size(1920, 1080, 2600), (1920, 1080));
    assert_eq!(frame_size(3840, 2160, 2600), (2600, 1462));
    // the doubles fall just short of 2600 here
    assert_eq!(frame_size(4158, 100, 2600), (2598, 62));
    assert_eq!(frame_size(0, 0, 0), (0, 0));
}

#[test]
fn the_outermost_words_bound_a_line() {
    let e = |left, top, right, bottom| Edges { left, top, right, bottom };
    let b = union(&[e(5, 5, 6, 6), e(1, 7, 2, 8), e(3, 0, 9, 1), e(1, 0, 9, 8)]).unwrap();
    assert_eq!((b.left, b.top, b.right, b.bottom), (1, 2, 2, 1));
    assert!(union(&[]).is_none());
    assert!(union(&[e(5, 0, 4, 1)]).is_none());
    assert!(union(&[e(5, 0, 4, 1), e(9, 0, 5, 1)]).is_some());
}

#[test]
fn a_run_reads_recognises_and_reports() {
    let mut run: OcrRun<f64> = OcrRun::new(3, 4);
    assert!(matches!(run.step(OcrEvent::Due { cancelled: false }), OcrAction::Read { most: 3 }));
    assert!(matches!(run.step(OcrEvent::Read { count: 3 }), OcrAction::Recognize));
    let action = run.step(batch(&[(2, &["c"]), (0, &["a", "b"]), (1, &[])]));
    assert!(matches!(action, OcrAction::Report { first: 1, done: 3, total: 4 }));
    assert_eq!(texts(&run), ["a", "b", "c"]);
    let action = run.step(batch(&[(4, &["e"]), (3, &["d"])]));
    assert!(matches!(action, OcrAction::Report { first: 4, done: 5, total: 5 }));
    assert_eq!(texts(&run), ["a", "b", "c", "d", "e"]);
    assert!(matches!(run.step(OcrEvent::Read { count: 0 }), OcrAction::Finish { done: 5, total: 5 }));
}

#[test]
fn frames_come_in_the_order_of_the_video() {
    let orders: [[usize; 4]; 4] = [[0, 1, 2, 3], [3, 2, 1, 0], [2, 0, 3, 1], [1, 3, 0, 2]];
    for order in orders {
        let names = ["a", "b", "c", "d"];
        let mut run: OcrRun<f64> = OcrRun::new(4, 4);
        run.step(OcrEvent::Recognized {
            frames: order.iter().map(|i| (*i, vec![line(names[*i])])).collect(),
        });
        assert_eq!(texts(&run), names);
    }
}

#[test]
fn how_frames_are_cut_into_batches_makes_no_difference() {
    let mut one: OcrRun<f64> = OcrRun::new(4, 4);
    one.step(batch(&[(3, &["d"]), (1, &["b"]), (0, &["a"]), (2, &["c"])]));
    let mut two: OcrRun<f64> = OcrRun::new(2, 4);
    two.step(batch(&[(1, &["b"]), (0, &["a"])]));
    two.step(batch(&[(3, &["d"]), (2, &["c"])]));
    assert_eq!(texts(&one), texts(&two));
    assert_eq!(one.done, two.done);
}

#[test]
fn every_frame_is_reported_once() {
    let mut run: OcrRun<f64> = OcrRun::new(3, 2);
    let mut seen = Vec::new();
    let mut number = 0;
    for size in [3, 1, 2] {
        let frames = (number..number + size).map(|i| (i, vec![])).collect();
        number += size;
        match run.step(OcrEvent::Recognized { frames }) {
            OcrAction::Report { first, done, total } => {
                seen.extend((first..=done).map(|count| (count, total)))
            }
            _ => panic!("progress should be reported"),
        }
    }
    assert_eq!(seen, [(1, 3), (2, 3), (3, 3), (4, 4), (5, 6), (6, 6)]);
    assert!(matches!(run.step(OcrEvent::Read { count: 0 }), OcrAction::Finish { done: 6, total: 6 }));
}

#[test]
fn a_run_can_be_cancelled() {
    let mut run: OcrRun<f64> = OcrRun::new(2, 0);
    assert_eq!(run.total, 1);
    run.step(batch(&[(0, &[]), (1, &[])]));
    match run.step(OcrEvent::Due { cancelled: true }) {
        OcrAction::Cancel(e) => assert_eq!(e.message(), "cancelled after 2 frames"),
        _ => panic!("the run should be cancelled"),
    }
}

#[test]
fn an_empty_run_still_reports_a_total() {
    let mut run: OcrRun<f64> = OcrRun::new(2, 40);
    assert!(matches!(run.step(OcrEvent::Read { count: 0 }), OcrAction::Finish { done: 0, total: 1 }));
}

#[test]
fn a_result_says_what_was_read_and_how() {
    let mut run: OcrRun<f64> = OcrRun::new(1, 1);
    run.step(batch(&[(0, &["a"])]));
    let opts = OcrOpts { rate: 2.0, lang: "en-US".to_string() };
    let r = run.finish(info(), Some("a.mp4".to_string()), opts.rate, opts.lang, 0.5);
    assert_eq!((r.video.as_str(), r.video_sha256.as_str()), ("a.mp4", "abc"));
    assert_eq!((r.width, r.height, r.duration), (640, 480, 3.0));
    assert_eq!((r.rate, r.video_fps, r.ocr_scale), (2.0, 25.0, 0.5));
    assert_eq!((r.engine.as_str(), r.lang.as_str()), ("Windows.Media.Ocr", "en-US"));
    assert_eq!(r.generated.len(), 20);
    assert_eq!(r.lines.len(), 1);
    let run: OcrRun<f64> = OcrRun::new(1, 1);
    assert_eq!(run.finish(info(), None, 2.0, String::new(), 1.0).video, "");
}

#[test]
fn a_found_line_has_no_time_yet() {
    let word = Word { text: "w".to_string(), rect: [1.0, 2.0, 3.0, 4.0] };
    let l = found_line("w x".to_string(), vec![word], [1.0, 2.0, 3.0, 4.0], 0.0).unwrap();
    assert_eq!((l.t, l.conf, l.rect), (0.0, 0.0, [1.0, 2.0, 3.0, 4.0]));
    assert_eq!((l.text.as_str(), l.words.len()), ("w x", 1));
    assert!(found_line(" \t".to_string(), vec![], [0.0; 4], 0.0).is_none());
    let stamped = stamp(vec![line("a"), line("b")], 1.5);
    let seen: Vec<(f64, &str)> = stamped.iter().map(|l| (l.t, l.text.as_str())).collect();
    assert_eq!(seen, [(1.5, "a"), (1.5, "b")]);
}

#[test]
fn a_filter_scales_only_where_it_must() {
    assert_eq!(filter("2", 640, (640, 480)), "fps=2");
    assert_eq!(filter("2.5", 3840, (2600, 1462)), "fps=2.5,scale=2600:1462:flags=lanczos");
}

#[test]
fn a_rate_has_to_be_positive() {
    assert!(check_rate(false).is_ok());
    assert_eq!(check_rate(true).unwrap_err().message(), "sampling rate must be > 0");
}

#[test]
fn a_build_without_a_recogniser_says_so() {
    assert_eq!(
        unavailable().message(),
        "OCR needs Windows.Media.Ocr; this build is not for Windows"
    );
}

#[test]
fn a_recogniser_is_sought_by_language_first() {
    assert!(matches!(next_attempt("de-DE", None), Some(Attempt::Language)));
    assert!(matches!(next_attempt("de-DE", Some(Attempt::Language)), Some(Attempt::Profile)));
    assert!(matches!(next_attempt("de-DE", Some(Attempt::Profile)), None));
    assert!(matches!(next_attempt("  ", None), Some(Attempt::Profile)));
    assert_eq!(max_dim(None), 2600);
    assert_eq!(max_dim(Some(10_000)), 10_000);
}

#[test]
fn a_missing_recogniser_is_named_in_quotes() {
    let installed = ["en-US".to_string(), "de-DE".to_string()];
    let rest = ". Installed: [en-US, de-DE]. Add one under Settings > Time & language > Language > \
                (language) > Language options > Optional features > Optical character recognition.";
    assert_eq!(
        no_recognizer("x\"y", &installed).message(),
        format!("no Windows OCR recognizer for \"x\\\"y\"{rest}")
    );
    assert_eq!(
        no_recognizer_named("'z'", &installed).message(),
        format!("no Windows OCR recognizer for 'z'{rest}")
    );
}

#[test]
fn one_processor_is_left_to_the_rest() {
    assert_eq!(worker_count(0), 1);
    assert_eq!(worker_count(1), 1);
    assert_eq!(worker_count(2), 1);
    assert_eq!(worker_count(16), 15);
    assert_eq!(ocr_workers(), worker_count(num_cpus::get()));
    assert_eq!(worker_name(12), "autoblur-ocr-12");
}
