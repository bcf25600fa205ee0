//! Exports, logs, hashes, time stamps and the list of recent files.

use autoblur::clock::{civil, iso_at, iso_since, now_iso, YEAR_10000};
use autoblur::export::{encode_end, log_path, script_name, EncodeEnd, Export, ExportAction, FLAGS};
use autoblur::hash::FileHash;
use autoblur::log::{append_log, log_text, redaction_log, takes_entries, with_entry};
use autoblur::probe::VideoInfo;
use autoblur::recents::{
    drop_recent, existing, push_recent, recents, recents_dir, recents_name, set_recents, MOST,
};
use autoblur::shell::{save_dialog, show_args, video_extensions};
use autoblur::tools::{cannot_run, override_var, override_var_of, program_name, sidecar_name, tool};
use serde_json::Value;

const GRAPH: &str = "drawbox=x=410:y=290:w=520:h=80:color=red@1:t=fill:enable=between(t\\,3.5\\,6.5)";

fn export(flag: usize) -> Export {
    Export::new("in.mp4".to_string(), "out.mp4".to_string(), GRAPH.to_string(), false, flag)
        .unwrap_or_else(|e| panic!("{}", e.message()))
}

fn refusal(graph: &str, same_path: bool) -> String {
    match Export::new("a".to_string(), "b".to_string(), graph.to_string(), same_path, 0) {
        Ok(_) => panic!("the export should be refused"),
        Err(e) => e.message().to_string(),
    }
}

fn failed(tail: &str) -> EncodeEnd {
    EncodeEnd::Failed { tail: tail.to_string() }
}

fn hashed(bytes: &[u8], piece: usize) -> String {
    let mut h = FileHash::new();
    for part in bytes.chunks(piece) {
        assert!(h.fits(part.len()));
        h.update(part);
    }
    h.finish()
}

fn value(text: &str) -> Value {
    serde_json::from_str(text).unwrap()
}

fn list(items: &[&str]) -> Vec<String> {
    items.iter().map(|s| s.to_string()).collect()
}

#[test]
fn an_export_is_refused_with_a_reason() {
    assert_eq!(refusal(" \n", false), "empty filtergraph \u{2014} nothing to redact");
    assert_eq!(refusal("", true), "empty filtergraph \u{2014} nothing to redact");
    assert_eq!(
        refusal(GRAPH, true),
        "refusing to overwrite the input: the input is evidence and is opened read-only"
    );
}

#[test]
fn an_output_with_the_name_of_the_input_is_refused() {
    let e = Export::new("a.mp4".to_string(), "a.mp4".to_string(), GRAPH.to_string(), false, 0);
    assert_eq!(
        e.err().unwrap().message(),
        "refusing to overwrite the input: the input is evidence and is opened read-only"
    );
    let args = export(0).args("boxes.txt");
    assert_ne!(args[4], args[args.len() - 1]);
}

#[test]
fn the_graph_goes_in_from_a_file() {
    let expected = |flag: &str| {
        list(&[
            "-hide_banner", "-nostdin", "-y", "-i", "in.mp4", flag, "boxes.txt", "-c:v", "libx264",
            "-crf", "18", "-preset", "veryfast", "-c:a", "copy", "-map_metadata", "-1", "-map_chapters",
            "-1", "-sn", "-dn", "out.mp4",
        ])
    };
    assert_eq!(export(0).args("boxes.txt"), expected("-/filter:v"));
    assert_eq!(export(1).args("boxes.txt"), expected("-filter_script:v"));
    assert_eq!(FLAGS, 2);
}

#[test]
fn an_unrecognised_option_is_spelt_the_old_way() {
    let mut e = export(0);
    assert!(matches!(e.step(failed("Unrecognized option '/filter:v'.")), ExportAction::Retry));
    assert_eq!(e.flag, 1);
    assert!(matches!(e.step(EncodeEnd::Succeeded), ExportAction::Report));
    assert_eq!(e.flag, 1);
    match e.step(failed("x\r\nUnrecognized option 'filter_script:v'.")) {
        ExportAction::Fail(e) => assert_eq!(
            e.message(),
            "ffmpeg export failed:\nx\nUnrecognized option 'filter_script:v'."
        ),
        _ => panic!("there is no third way"),
    }
}

#[test]
fn a_failed_export_says_why() {
    let mut e = export(0);
    match e.step(failed("\nConversion failed!\n")) {
        ExportAction::Fail(e) => {
            assert_eq!(e.message(), "ffmpeg export failed:\nConversion failed!")
        }
        _ => panic!("the export should fail"),
    }
    match e.step(EncodeEnd::Cancelled) {
        ExportAction::Fail(e) => assert_eq!(e.message(), "export cancelled"),
        _ => panic!("the export should be cancelled"),
    }
    assert_eq!(e.flag, 0);
}

#[test]
fn an_export_is_logged_with_its_command_and_hashes() {
    let info = VideoInfo {
        path: "in.mp4".to_string(),
        width: 1280,
        height: 720,
        duration: 20.0,
        fps: 25.0,
        sha256: hashed(b"in", 4),
    };
    let rep = export(1).report(
        info,
        "boxes.txt",
        "/bin/ffmpeg",
        "ffmpeg version 6".to_string(),
        "0.1.0".to_string(),
        hashed(b"out", 4),
    );
    assert_eq!((rep.input.as_str(), rep.output.as_str()), ("in.mp4", "out.mp4"));
    assert_eq!(rep.input_sha256, hashed(b"in", 4));
    assert_eq!(rep.output_sha256, hashed(b"out", 4));
    assert_ne!(rep.input_sha256, rep.output_sha256);
    assert_eq!(rep.command[0], "/bin/ffmpeg");
    assert_eq!(rep.command[1..], export(1).args("boxes.txt"));
    assert!(!rep.command.iter().any(|a| a.contains("drawbox")));
    assert_eq!((rep.ffmpeg.as_str(), rep.tool_version.as_str()), ("ffmpeg version 6", "0.1.0"));
    assert_eq!((rep.filtergraph.as_str(), rep.duration), (GRAPH, 20.0));
    assert_eq!(
        rep.derivative,
        "Output is a derivative exhibit: re-encoded with libx264 -crf 18, \
         not a bit-exact copy of the input."
    );
}

#[test]
fn graphs_of_different_exports_lie_in_different_files() {
    assert_eq!(script_name(42, 7), "autoblur-boxes-42-7.txt");
    assert_ne!(script_name(1, 11), script_name(11, 1));
    assert_ne!(script_name(1, 0), script_name(1, 1));
    assert_eq!(log_path("out.mp4"), "out.mp4.redaction-log.json");
}

#[test]
fn a_hash_is_the_one_of_the_standard() {
    let empty = "e3b0c44298fc1c149afbf4c8996fb92427ae41e4649b934ca495991b7852b855";
    assert_eq!(hashed(b"", 1), empty);
    let abc = "ba7816bf8f01cfea414140de5dae2223b00361a396177a9cb410ff61f20015ad";
    assert_eq!(hashed(b"abc", 1), abc);
    assert_eq!(hashed(b"abc", 2), abc);
    assert_eq!(hashed(b"abc", 3), abc);
    assert!(abc.bytes().all(|b| matches!(b, b'0'..=b'9' | b'a'..=b'f')));
}

#[test]
fn hashes_differ_where_files_do() {
    let a = vec![7u8; 100_000];
    let mut b = a.clone();
    b[99_999] = 8;
    assert_ne!(hashed(&a, 4096), hashed(&b, 4096));
    assert_eq!(hashed(&a, 4096), hashed(&a, 1000));
}

#[test]
fn days_have_their_dates() {
    assert_eq!(civil(0), (1970, 1, 1));
    assert_eq!(civil(58), (1970, 2, 28));
    assert_eq!(civil(59), (1970, 3, 1));
    assert_eq!(civil(789), (1972, 2, 29));
    assert_eq!(civil(11_016), (2000, 2, 29));
    assert_eq!(civil(47_540), (2100, 2, 28));
    assert_eq!(civil(47_541), (2100, 3, 1));
}

#[test]
fn every_day_follows_the_one_before() {
    let leap = |y: u64| y % 4 == 0 && (y % 100 != 0 || y % 400 == 0);
    let mut date = (1970, 1, 1);
    for day in 0..200_000 {
        assert_eq!(civil(day), date);
        let (y, m, d) = date;
        let last = match m {
            2 => 28 + leap(y) as u64,
            4 | 6 | 9 | 11 => 30,
            _ => 31,
        };
        date = if d < last {
            (y, m, d + 1)
        } else if m < 12 {
            (y, m + 1, 1)
        } else {
            (y + 1, 1, 1)
        };
    }
}

#[test]
fn time_stamps_are_in_utc() {
    assert_eq!(iso_at(0), "1970-01-01T00:00:00Z");
    assert_eq!(iso_at(86_399), "1970-01-01T23:59:59Z");
    assert_eq!(iso_at(951_782_400), "2000-02-29T00:00:00Z");
    assert_eq!(iso_at(1_000_000_000), "2001-09-09T01:46:40Z");
    assert_eq!(iso_at(4_102_444_800), "2100-01-01T00:00:00Z");
    assert_eq!(iso_at(253_402_300_800), "10000-01-01T00:00:00Z");
}

#[test]
fn the_clock_is_read() {
    let seconds = std::time::SystemTime::now()
        .duration_since(std::time::UNIX_EPOCH)
        .map(|d| d.as_secs())
        .unwrap_or(0);
    let now = now_iso();
    assert!((0..30).any(|s| iso_at(seconds + s) == now), "{now}");
}

#[test]
fn a_clock_before_1970_counts_as_its_start() {
    let epoch = std::time::UNIX_EPOCH;
    let second = std::time::Duration::from_secs(1);
    assert_eq!(iso_since((epoch - second).duration_since(epoch)), "1970-01-01T00:00:00Z");
    assert_eq!(iso_since(epoch.duration_since(epoch)), "1970-01-01T00:00:00Z");
    assert_eq!(iso_since((epoch + second).duration_since(epoch)), "1970-01-01T00:00:01Z");
    assert_eq!(iso_since(Ok(std::time::Duration::from_millis(86_400_999))), "1970-01-02T00:00:00Z");
}

#[test]
fn stamps_sort_as_the_times_do() {
    let mut before = iso_at(0);
    let mut seconds = 0;
    for step in [1, 58, 1, 3540, 3600, 86_400, 40 * 86_400, 366 * 86_400, 1_000_000_000, 99_999_999_999] {
        seconds += step;
        let stamp = iso_at(seconds);
        assert_eq!(stamp.len(), 20);
        assert!(before < stamp, "{before} {stamp}");
        before = stamp;
    }
    let last = iso_at(YEAR_10000 - 1);
    assert_eq!(last, "9999-12-31T23:59:59Z");
    assert!(before < last);
    assert_eq!(iso_at(YEAR_10000), "10000-01-01T00:00:00Z");
}

#[test]
fn a_copy_carries_nothing_else_of_its_source() {
    for flag in 0..FLAGS {
        let args = export(flag).args("boxes.txt");
        let after = |option: &str| {
            let i = args.iter().position(|a| a == option).unwrap();
            args[i + 1].clone()
        };
        assert_eq!(after("-map_metadata"), "-1");
        assert_eq!(after("-map_chapters"), "-1");
        assert!(args.contains(&"-sn".to_string()));
        assert!(args.contains(&"-dn".to_string()));
    }
}

#[test]
fn a_run_ends_in_one_of_three_ways() {
    let tail = || "x".to_string();
    assert!(matches!(encode_end(true, false, tail()), EncodeEnd::Succeeded));
    assert!(matches!(encode_end(true, true, tail()), EncodeEnd::Succeeded));
    assert!(matches!(encode_end(false, true, tail()), EncodeEnd::Cancelled));
    match encode_end(false, false, tail()) {
        EncodeEnd::Failed { tail } => assert_eq!(tail, "x"),
        _ => panic!("the run should have failed"),
    }
}

#[test]
fn a_log_takes_another_entry() {
    let r = append_log(r#"{"b": [1, 2.5], "a": null}"#, "c", value("true"));
    assert_eq!(
        value(&r.unwrap_or_else(|e| panic!("{}", e.message())).unwrap()),
        value(r#"{"a": null, "b": [1, 2.5], "c": true}"#)
    );
    let r = append_log(r#"{"a": 1}"#, "a", value("2"));
    assert_eq!(
        r.unwrap_or_else(|e| panic!("{}", e.message())).unwrap(),
        "{\n  \"a\": 2\n}"
    );
    let r = append_log("null", "a", value("2"));
    assert_eq!(
        value(&r.unwrap_or_else(|e| panic!("{}", e.message())).unwrap()),
        value(r#"{"a": 2}"#)
    );
}

#[test]
fn what_is_no_log_takes_no_entry() {
    for text in ["[]", "3", "\"x\"", "true"] {
        assert!(!takes_entries(&value(text)));
        assert!(matches!(append_log(text, "a", Value::Null), Ok(None)));
        assert!(redaction_log(value(text), Value::Null).is_none());
    }
    let message = serde_json::from_str::<Value>("{\"a\":").unwrap_err().to_string();
    match append_log("{\"a\":", "a", Value::Null) {
        Err(e) => assert_eq!(e.message(), message),
        Ok(_) => panic!("the text is no document"),
    }
}

#[test]
fn a_redaction_log_holds_the_report() {
    let text = log_text(value(r#"{"input": "in"}"#), value(r#"{"n": 1}"#), "now".to_string())
        .unwrap_or_else(|e| panic!("{}", e.message()));
    assert_eq!(value(&text), value(r#"{"input": "in", "meta": {"n": 1}, "written": "now"}"#));
    let text = redaction_log(value("{}"), Value::Null)
        .unwrap()
        .unwrap_or_else(|e| panic!("{}", e.message()));
    let log = value(&text);
    assert!(log["meta"].is_null());
    assert_eq!(log["written"].as_str().unwrap().len(), 20);
    let text = with_entry(value(&text), "verify", value("[1]")).unwrap_or_else(|e| panic!("{}", e.message()));
    assert_eq!(value(&text)["verify"], value("[1]"));
    assert_eq!(value(&text)["written"], log["written"]);
}

#[test]
fn recents_are_read_as_they_were_stored() {
    for l in [
        list(&[]),
        list(&["a.mp4"]),
        list(&["C:\\v\\\"x\".mp4", "\u{e4}\n\t", "", "\u{1f600}"]),
    ] {
        assert_eq!(recents(Some(&set_recents(&l))), l);
    }
    assert_eq!(set_recents(&list(&["a", "b"])), "[\n  \"a\",\n  \"b\"\n]");
    assert_eq!(set_recents(&list(&[])), "[]");
}

#[test]
fn what_is_no_list_of_strings_counts_as_none() {
    for text in ["", "{}", "null", "[1]", "[\"a\", null]", "[\"a\"", "[\"a\"] x", "\"a\""] {
        assert_eq!(recents(Some(text)), list(&[]), "{text}");
    }
    assert_eq!(recents(None), list(&[]));
    assert_eq!(recents(Some(" [ \"a\" , \"\\u00e4\" ] ")), list(&["a", "\u{e4}"]));
}

#[test]
fn a_file_that_is_opened_comes_first() {
    let mut l = list(&["a", "b", "a", "c"]);
    l = push_recent(&l, "c");
    assert_eq!(l, list(&["c", "a", "b", "a"]));
    for i in 0..10 {
        l = push_recent(&l, &format!("f{i}"));
        assert_eq!(l[0], format!("f{i}"));
        assert!(l.len() <= MOST);
    }
    assert_eq!(l, list(&["f9", "f8", "f7", "f6", "f5", "f4", "f3", "f2"]));
}

#[test]
fn a_file_that_is_dropped_is_gone() {
    assert_eq!(drop_recent(&list(&["a", "b", "a"]), "a"), list(&["b"]));
    assert_eq!(drop_recent(&list(&["a", "b"]), "x"), list(&["a", "b"]));
    assert_eq!(existing(&list(&["a", "b", "c"]), &vec![true, false, true]), list(&["a", "c"]));
}

#[test]
fn recents_lie_beside_the_executable() {
    assert_eq!(recents_name(), "autoblur-recents.json");
    assert_eq!(recents_dir(Some("exe"), "tmp"), "exe");
    assert_eq!(recents_dir(None, "tmp"), "tmp");
}

#[test]
fn a_tool_is_the_bundled_one() {
    assert_eq!(tool(Some("o"), Some("b"), "s"), "o");
    assert_eq!(tool(None, Some("b"), "s"), "b");
    assert_eq!(tool(None, None, "s"), "s");
    assert_eq!(override_var("ffmpeg"), "AUTOBLUR_FFMPEG");
    assert_eq!(override_var("\u{df}"), "AUTOBLUR_SS");
    assert_eq!(override_var_of("FFPROBE"), "AUTOBLUR_FFPROBE");
    assert_eq!(program_name("ffmpeg", true), "ffmpeg.exe");
    assert_eq!(program_name("ffmpeg", false), "ffmpeg");
    assert_eq!(
        sidecar_name("ffmpeg", "x86_64-pc-windows-msvc", true),
        "ffmpeg-x86_64-pc-windows-msvc.exe"
    );
    assert_eq!(
        cannot_run("/x/ffmpeg", "not found").message(),
        "cannot run /x/ffmpeg: not found. Put the bundled sidecars in src-tauri/binaries/ \
         (see binaries/README.md)."
    );
}

#[test]
fn a_file_is_shown_or_opened() {
    assert_eq!(show_args("C:\\a", true, true).unwrap(), list(&["/select,", "C:\\a"]));
    assert_eq!(show_args("C:\\a", true, false).unwrap(), list(&["C:\\a"]));
    assert_eq!(show_args("C:\\a", false, true).unwrap_err().message(), "C:\\a is gone");
}

#[test]
fn dialogs_offer_videos_and_names() {
    assert_eq!(
        video_extensions(),
        list(&["mp4", "mkv", "mov", "avi", "m4v", "mts", "webm", "wmv"])
    );
    let d = save_dialog("d/a.csv".to_string(), Some("a.csv".to_string()), Some("csv".to_string()));
    assert_eq!((d.file_name.as_str(), d.extension.as_str()), ("a.csv", "csv"));
    let d = save_dialog("..".to_string(), None, None);
    assert_eq!((d.file_name.as_str(), d.extension.as_str()), ("..", "json"));
}
