//! The core, driven without a window and without ffmpeg: what ffmpeg and ffprobe would print and
//! pipe is written out here.

use autoblur::export::{script_name, EncodeEnd, Export, ExportAction};
use autoblur::ffmpeg::{parse_time, readable_error, tool_version, EncoderOutput};
use autoblur::frames::{FrameReader, Step};
use autoblur::hash::FileHash;
use autoblur::ocr::{union, Edges};
use autoblur::probe::{probe, ratio, ToolOutput, VideoInfo};

const W: u32 = 1280;
const H: u32 = 720;
const TX: f64 = 420.0;
const TY: f64 = 300.0;
const T_ON: f64 = 4.0;
const T_OFF: f64 = 6.0;
const RATE: f64 = 2.0;

/// The time on a progress line, in seconds.
fn seconds(line: &str) -> Option<f64> {
    let f = parse_time(line)?;
    let h: f64 = f.hours.parse().unwrap();
    let m: f64 = f.minutes.parse().unwrap();
    let s: f64 = f.seconds.parse().unwrap();
    Some(h * 3600.0 + m * 60.0 + s)
}

/// An integer that orders as the number does.
fn rank(x: f64) -> i64 {
    let b = x.to_bits() as i64;
    b ^ (((b >> 63) as u64) >> 1) as i64
}

/// The bounding box of rects x, y, w, h.
fn bounding_box(rects: &[[f64; 4]]) -> [f64; 4] {
    let edges: Vec<Edges> = rects
        .iter()
        .map(|r| Edges {
            left: rank(r[0]),
            top: rank(r[1]),
            right: rank(r[0] + r[2]),
            bottom: rank(r[1] + r[3]),
        })
        .collect();
    match union(&edges) {
        Some(b) => {
            let (x0, y0) = (rects[b.left][0], rects[b.top][1]);
            let x1 = rects[b.right][0] + rects[b.right][2];
            let y1 = rects[b.bottom][1] + rects[b.bottom][3];
            [x0, y0, x1 - x0, y1 - y0]
        }
        None => [0.0, 0.0, 0.0, 0.0],
    }
}

fn hash(bytes: &[u8]) -> String {
    let mut h = FileHash::new();
    for piece in bytes.chunks(7) {
        assert!(h.fits(piece.len()));
        h.update(piece);
    }
    h.finish()
}

/// A frame rate as a number.
fn rate(s: &str) -> f64 {
    let r = ratio(s);
    let a: f64 = r.numerator.parse().unwrap_or(0.0);
    match r.denominator {
        Some(b) => {
            let b: f64 = b.parse().unwrap_or(0.0);
            if b == 0.0 {
                0.0
            } else {
                a / b
            }
        }
        None => a,
    }
}

/// A file with the given contents, and what ffprobe prints of it: 20 s of 1280x720 at 25 fps.
fn probed(contents: &[u8]) -> VideoInfo<f64> {
    let printed = r#"{
    "streams": [
        {"index": 0, "codec_name": "aac", "codec_type": "audio", "width": 7, "height": 7},
        {"index": 1, "codec_name": "h264", "codec_type": "video", "width": 1280, "height": 720,
         "r_frame_rate": "25/1", "avg_frame_rate": "25/1", "duration": "19.960000"}
    ],
    "format": {"filename": "fixture.mp4", "nb_streams": 2, "duration": "20.000000"}
}"#;
    let run = ToolOutput { success: true, stdout: printed.as_bytes().to_vec(), stderr: vec![] };
    let shape = probe("fixture.mp4", &run).unwrap_or_else(|e| panic!("{}", e.message()));
    let duration: f64 = shape.duration.as_ref().and_then(|d| d.parse().ok()).unwrap_or(0.0);
    let average = rate(&shape.average);
    let fps = if average > 0.0 { average } else { rate(&shape.fallback) };
    shape.into_info("fixture.mp4".to_string(), duration, fps, hash(contents))
}

fn px(buf: &[u8], w: u32, x: u32, y: u32) -> (u8, u8, u8) {
    let i = ((y * w + x) * 4) as usize;
    (buf[i + 2], buf[i + 1], buf[i]) // bgra -> rgb
}

/// Any pixel darker than mid-grey inside the rect.
fn has_ink(buf: &[u8], w: u32, r: (u32, u32, u32, u32)) -> bool {
    (r.1..r.1 + r.3).any(|y| (r.0..r.0 + r.2).any(|x| px(buf, w, x, y).0 < 128))
}

/// Sampled frames as (t, bgra), out of a stream that comes in pieces of a pipe's size.
fn sample(stream: &[&[u8]], rate: f64, w: u32, h: u32) -> Vec<(f64, Vec<u8>)> {
    assert!(FrameReader::fits(w, h));
    let mut r = FrameReader::new(w, h);
    let mut frames = Vec::new();
    let mut parts = stream.iter();
    let mut rest: &[u8] = &[];
    let mut step = r.next_frame();
    loop {
        step = match step {
            Step::Read(most) => {
                if rest.is_empty() {
                    rest = parts.next().copied().unwrap_or(&[]);
                }
                let n = rest.len().min(most).min(65_536);
                let (piece, left) = rest.split_at(n);
                rest = left;
                r.received(piece)
            }
            Step::Frame(i, buf) => {
                frames.push((i as f64 / rate, buf));
                r.next_frame()
            }
            Step::End => break,
        };
    }
    r.finish("").unwrap_or_else(|e| panic!("{}", e.message()));
    frames
}

#[test]
fn parse_time_reads_ffmpeg_progress() {
    assert_eq!(seconds("frame=1 fps=0 time=00:01:02.34 bitrate=N/A"), Some(62.34));
    assert_eq!(seconds("time=00:00:00.00"), Some(0.0));
    assert_eq!(seconds("no time here"), None);
    assert_eq!(seconds("time=N/A"), None);
}

#[test]
fn a_rejected_filtergraph_still_yields_a_readable_error() {
    let noise = "x".repeat(9000);
    let tail = format!("{noise}\r\n[Parsed_crop_1] Failed to configure input pad\r\nConversion failed!");
    let e = readable_error(&tail);
    assert!(e.contains("Failed to configure input pad"), "real message lost: {e}");
    assert!(e.len() < 1000, "still dominated by the echoed graph: {} chars", e.len());
}

#[test]
fn union_is_the_bounding_box() {
    assert_eq!(
        bounding_box(&[[10.0, 10.0, 5.0, 5.0], [20.0, 8.0, 5.0, 4.0]]),
        [10.0, 8.0, 15.0, 7.0]
    );
    assert_eq!(bounding_box(&[]), [0.0, 0.0, 0.0, 0.0]);
}

#[test]
fn probe_reports_geometry_and_a_stable_hash() {
    let i = probed(b"one video");
    assert_eq!((i.width, i.height), (W, H));
    assert!((i.duration - 20.0).abs() < 0.2, "duration {}", i.duration);
    assert!((i.fps - 25.0).abs() < 0.1, "fps {}", i.fps);
    assert_eq!(i.sha256.len(), 64);
    assert_eq!(i.sha256, probed(b"one video").sha256, "hash must be stable");
    assert_ne!(i.sha256, probed(b"another video").sha256, "different files, different hash");
}

/// Frame `i` of the rawvideo stream is source time `i / RATE`, exactly.
#[test]
fn frame_index_maps_to_source_time() {
    let white = vec![255u8; (W * H * 4) as usize];
    let mut text = white.clone();
    for y in 310..350 {
        for x in 430..800 {
            for c in 0..3 {
                text[((y * W + x) * 4 + c) as usize] = 0;
            }
        }
    }
    // 20 s at 2 fps, with the text on from 4 s to 6 s
    let stream: Vec<&[u8]> = (0..40)
        .map(|i| {
            let t = i as f64 / RATE;
            if t >= T_ON && t <= T_OFF {
                text.as_slice()
            } else {
                white.as_slice()
            }
        })
        .collect();
    let frames = sample(&stream, RATE, W, H);
    assert!(
        frames.len() >= 39 && frames.len() <= 41,
        "20 s @ 2 fps -> ~40 frames, got {}",
        frames.len()
    );

    let region = (TX as u32 - 10, TY as u32 - 10, 500, 90);
    for (t, buf) in &frames {
        let ink = has_ink(buf, W, region);
        if *t <= T_ON - 1.0 / RATE || *t >= T_OFF + 1.0 / RATE {
            assert!(!ink, "text visible at {t}s, outside [{T_ON}, {T_OFF}]");
        } else if *t > T_ON && *t < T_OFF {
            assert!(ink, "text missing at {t}s, inside [{T_ON}, {T_OFF}]");
        }
    }
}

/// The encoder's output is written out; its progress is reported as it comes, and once more when
/// the copy is rendered.
#[test]
fn export_applies_the_graph_and_logs_hashes() {
    let inp = b"one video";
    let out = b"the redacted copy";
    // drawbox over the text, enabled exactly over the padded span
    let graph = "drawbox=x=410:y=290:w=520:h=80:color=red@1:t=fill:enable=between(t\\,3.5\\,6.5)";
    let info = probed(inp);
    let mut export = Export::new(
        "fixture.mp4".to_string(),
        "exported.mp4".to_string(),
        graph.to_string(),
        false,
        0,
    )
    .unwrap_or_else(|e| panic!("{}", e.message()));
    let script = script_name(42, 0);
    let mut seen = Vec::<f64>::new();
    let mut printed = EncoderOutput::new();
    for chunk in ["frame=    0 time=N/A\r", "frame=  100 time=00:00:04.00 bitrate=1\r", "done\n"] {
        for line in printed.feed(chunk.as_bytes()) {
            if let Some(t) = seconds(&line.text) {
                assert!(line.time.is_some());
                seen.push((t / info.duration).clamp(0.0, 1.0));
            }
        }
    }
    assert!(matches!(export.step(EncodeEnd::Succeeded), ExportAction::Report));
    seen.push(1.0);
    let version = tool_version(Some(b"ffmpeg version 7.1\nbuilt with gcc"));
    let rep = export.report(info, &script, "ffmpeg", version, "0.1.0".to_string(), hash(out));

    assert_eq!(rep.input_sha256, probed(inp).sha256);
    assert_eq!(rep.output_sha256, hash(out));
    assert_ne!(rep.input_sha256, rep.output_sha256, "output is a derivative, not a copy");
    assert!(
        rep.command.iter().any(|a| a == "-/filter:v" || a == "-filter_script:v"),
        "the graph must go in from a file, never inline: {:?}",
        rep.command
    );
    assert!(!rep.command.iter().any(|a| a.contains("drawbox")), "graph leaked onto the command line");
    assert!(seen.iter().any(|&f| f > 0.0) && seen.last() == Some(&1.0), "progress {seen:?}");
    assert!(!rep.ffmpeg.is_empty(), "bundled ffmpeg version must be recorded");
    assert_eq!(rep.filtergraph, graph);
}

#[test]
fn export_refuses_to_touch_the_input() {
    let inp = "fixture.mp4";
    let export = |graph: &str, out: &str| {
        Export::new(inp.to_string(), out.to_string(), graph.to_string(), inp == out, 0)
    };
    let e = export("drawbox=x=0:y=0:w=8:h=8:color=red@1:t=fill", inp);
    assert!(e.is_err(), "must refuse to overwrite the input");
    assert!(export("  ", "x.mp4").is_err(), "must refuse an empty graph");
}
