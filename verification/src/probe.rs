//! What ffprobe reports of a video.

use vstd::prelude::*;

use crate::error::Error;
use crate::ffmpeg::{decode_lossy, utf8_lossy};
use crate::json::{
    as_count, as_items, at, count_in, items_in, json_from_slice, json_tree, member, parse_bytes,
    text_at, text_in, Json,
};
use crate::text::{
    after, after_first, before, before_first, chars, slice_texts, string, strings, texts, trim, trimmed,
};

verus! {

/// A video: where it lies, its geometry, how long it runs, and the hash of the file. `F` is the
/// type of durations and rates.
pub struct VideoInfo<F> {
    pub path: String,
    pub width: u32,
    pub height: u32,
    pub duration: F,
    pub fps: F,
    pub sha256: String,
}

/// What a tool left behind when it ended.
pub struct ToolOutput {
    pub success: bool,
    pub stdout: Vec<u8>,
    pub stderr: Vec<u8>,
}

/// One stream of a file, as ffprobe lists it.
pub struct StreamEntry {
    pub codec_type: Option<String>,
    pub width: Option<u64>,
    pub height: Option<u64>,
    pub duration: Option<String>,
    pub avg_frame_rate: Option<String>,
    pub r_frame_rate: Option<String>,
}

/// ffprobe's report on a file. `streams` is `None` where the report has no list of streams.
pub struct ProbeReport {
    pub streams: Option<Vec<StreamEntry>>,
    pub duration: Option<String>,
}

/// What is known of a video before its numerals are read as numbers.
pub struct VideoShape {
    pub width: u32,
    pub height: u32,
    /// The duration in seconds, if the report gives one.
    pub duration: Option<String>,
    /// The average frame rate.
    pub average: String,
    /// The frame rate to fall back on where the average is not positive.
    pub fallback: String,
}

pub open spec fn text_of(s: Option<String>) -> Option<Seq<char>> {
    match s {
        Some(text) => Some(text@),
        None => None,
    }
}

impl StreamEntry {
    /// The entry holds what an entry of the document says.
    pub open spec fn reads(&self, json: Json) -> bool {
        &&& text_of(self.codec_type) == text_in(member(json, "codec_type"@))
        &&& self.width == count_in(member(json, "width"@))
        &&& self.height == count_in(member(json, "height"@))
        &&& text_of(self.duration) == text_in(member(json, "duration"@))
        &&& text_of(self.avg_frame_rate) == text_in(member(json, "avg_frame_rate"@))
        &&& text_of(self.r_frame_rate) == text_in(member(json, "r_frame_rate"@))
    }

    pub open spec fn is_video(&self) -> bool {
        text_of(self.codec_type) == Some("video"@)
    }
}

impl ProbeReport {
    /// The report holds what a document says.
    pub open spec fn reads(&self, json: Json) -> bool {
        &&& text_of(self.duration) == text_in(member(member(json, "format"@), "duration"@))
        &&& match self.streams {
            Some(streams) => {
                &&& items_in(member(json, "streams"@)) matches Some(items)
                &&& streams@.len() == items.len()
                &&& forall|i: int|
                    0 <= i < streams@.len() ==> (#[trigger] streams@[i]).reads(items[i])
            },
            None => items_in(member(json, "streams"@)) is None,
        }
    }

    /// The first video stream is the `i`-th.
    pub open spec fn video_at(&self, i: int) -> bool {
        &&& self.streams matches Some(streams)
        &&& 0 <= i < streams@.len()
        &&& streams@[i].is_video()
        &&& forall|k: int| 0 <= k < i ==> !(#[trigger] streams@[k]).is_video()
    }

    /// There is a video stream.
    pub open spec fn has_video(&self) -> bool {
        exists|i: int| self.video_at(i)
    }

    /// The first video stream.
    pub open spec fn video(&self) -> StreamEntry {
        self.streams->0@[choose|i: int| self.video_at(i)]
    }
}

/// A count as it is kept: its low 32 bits, and 0 where there is none.
pub open spec fn low_bits(n: Option<u64>) -> int {
    match n {
        Some(n) => n as int % 0x1_0000_0000,
        None => 0,
    }
}

/// What the report says of the video, or the message that says what it lacks.
pub open spec fn shape_of(path: Seq<char>, report: ProbeReport) -> Result<
    (int, int, Option<Seq<char>>, Seq<char>, Seq<char>),
    Seq<char>,
> {
    let video = report.video();
    let width = low_bits(video.width);
    let height = low_bits(video.height);
    if !report.has_video() {
        Err(path + " has no video stream"@)
    } else if width == 0 || height == 0 {
        Err("ffprobe reported no frame size for "@ + path)
    } else {
        Ok(
            (
                width,
                height,
                if report.duration is Some {
                    text_of(report.duration)
                } else {
                    text_of(video.duration)
                },
                match video.avg_frame_rate {
                    Some(rate) => rate@,
                    None => "0/0"@,
                },
                match video.r_frame_rate {
                    Some(rate) => rate@,
                    None => "25/1"@,
                },
            ),
        )
    }
}

impl VideoShape {
    pub open spec fn parts(&self) -> (int, int, Option<Seq<char>>, Seq<char>, Seq<char>) {
        (
            self.width as int,
            self.height as int,
            text_of(self.duration),
            self.average@,
            self.fallback@,
        )
    }
}

/// The result is the one described, or the error with the message described.
pub open spec fn shape_is(
    r: Result<VideoShape, Error>,
    described: Result<(int, int, Option<Seq<char>>, Seq<char>, Seq<char>), Seq<char>>,
) -> bool {
    match r {
        Ok(shape) => described == Ok::<_, Seq<char>>(shape.parts()),
        Err(e) => described == Err::<(int, int, Option<Seq<char>>, Seq<char>, Seq<char>), _>(
            e.text(),
        ),
    }
}

fn read_stream(value: &serde_json::Value) -> (r: StreamEntry)
    ensures
        r.reads(json_tree(*value)),
{
    StreamEntry {
        codec_type: text_at(value, "codec_type"),
        width: as_count(at(value, "width")),
        height: as_count(at(value, "height")),
        duration: text_at(value, "duration"),
        avg_frame_rate: text_at(value, "avg_frame_rate"),
        r_frame_rate: text_at(value, "r_frame_rate"),
    }
}

/// Reads what ffprobe prints with `-print_format json`.
pub fn read_report(stdout: &[u8]) -> (r: Result<ProbeReport, Error>)
    ensures
        match json_from_slice(stdout@) {
            Ok(json) => r matches Ok(report) && report.reads(json),
            Err(text) => r matches Err(e) && e.text() == text,
        },
{
    let document = match parse_bytes(stdout) {
        Ok(document) => document,
        Err(message) => return Err(Error(message)),
    };
    let streams = match as_items(at(&document, "streams")) {
        Some(items) => {
            let mut streams: Vec<StreamEntry> = Vec::new();
            let ghost trees = items@.map_values(|v: serde_json::Value| json_tree(v));
            for i in 0..items.len()
                invariant
                    trees == items@.map_values(|v: serde_json::Value| json_tree(v)),
                    streams@.len() == i,
                    forall|k: int| 0 <= k < i ==> (#[trigger] streams@[k]).reads(trees[k]),
            {
                streams.push(read_stream(&items[i]));
            }
            Some(streams)
        },
        None => None,
    };
    Ok(ProbeReport { streams, duration: text_at(at(&document, "format"), "duration") })
}

/// Two first video streams are one.
proof fn lemma_first_video(report: ProbeReport, i: int)
    requires
        report.video_at(i),
    ensures
        report.has_video(),
        report.video() == report.streams->0@[i],
{
    let k = choose|k: int| report.video_at(k);
    assert(report.video_at(k));
    if k < i {
        assert(!report.streams->0@[k].is_video());
    } else if i < k {
        assert(!report.streams->0@[i].is_video());
    }
}

fn is_video(stream: &StreamEntry) -> (r: bool)
    ensures
        r == stream.is_video(),
{
    match &stream.codec_type {
        Some(codec_type) => *codec_type == "video".to_owned(),
        None => false,
    }
}

fn first_video(report: &ProbeReport) -> (r: Option<&StreamEntry>)
    ensures
        match r {
            Some(stream) => report.has_video() && *stream == report.video(),
            None => !report.has_video(),
        },
{
    match &report.streams {
        Some(streams) => {
            for i in 0..streams.len()
                invariant
                    report.streams == Some(*streams),
                    forall|k: int| 0 <= k < i ==> !(#[trigger] streams@[k]).is_video(),
            {
                if is_video(&streams[i]) {
                    proof {
                        lemma_first_video(*report, i as int);
                    }
                    return Some(&streams[i]);
                }
            }
            None
        },
        None => None,
    }
}

fn low_half(n: Option<u64>) -> (r: u32)
    ensures
        r == low_bits(n),
{
    match n {
        Some(n) => (n % 0x1_0000_0000) as u32,
        None => 0,
    }
}

fn or_text(s: &Option<String>, default: &str) -> (r: String)
    ensures
        r@ == (match *s {
            Some(text) => text@,
            None => default@,
        }),
{
    match s {
        Some(text) => text.clone(),
        None => default.to_owned(),
    }
}

/// What the report says of the video in it.
pub fn describe(path: &str, report: &ProbeReport) -> (r: Result<VideoShape, Error>)
    ensures
        shape_is(r, shape_of(path@, *report)),
{
    let video = match first_video(report) {
        Some(video) => video,
        None => {
            let mut text = path.to_owned();
            text.append(" has no video stream");
            return Err(Error(text));
        },
    };
    let width = low_half(video.width);
    let height = low_half(video.height);
    if width == 0 || height == 0 {
        let mut text = "ffprobe reported no frame size for ".to_owned();
        text.append(path);
        return Err(Error(text));
    }
    Ok(
        VideoShape {
            width,
            height,
            duration: if report.duration.is_some() {
                report.duration.clone()
            } else {
                video.duration.clone()
            },
            average: or_text(&video.avg_frame_rate, "0/0"),
            fallback: or_text(&video.r_frame_rate, "25/1"),
        },
    )
}

/// The arguments with which ffprobe is asked for a report.
pub open spec fn probe_command(path: Seq<char>) -> Seq<Seq<char>> {
    seq![
        "-v"@,
        "error"@,
        "-print_format"@,
        "json"@,
        "-show_streams"@,
        "-show_format"@,
        path,
    ]
}

/// The arguments with which ffprobe is asked for a report.
pub fn probe_args(path: &str) -> (r: Vec<String>)
    ensures
        texts(r@) == probe_command(path@),
{
    let list: [&str; 7] = [
        "-v",
        "error",
        "-print_format",
        "json",
        "-show_streams",
        "-show_format",
        path,
    ];
    assert(slice_texts(list@) =~= probe_command(path@));
    strings(&list)
}

/// The error for a path at which there is no file.
pub fn no_such_file(path: &str) -> (r: Error)
    ensures
        r.text() == "no such file: "@ + path@,
{
    Error("no such file: ".to_owned().concat(path))
}

/// What ffprobe's run on the file at `path` says of the video.
pub fn probe(path: &str, run: &ToolOutput) -> (r: Result<VideoShape, Error>)
    ensures
        !run.success ==> r is Err && r->Err_0.text() == "ffprobe failed: "@ + trimmed(
            utf8_lossy(run.stderr@),
        ),
        run.success ==> match json_from_slice(run.stdout@) {
            Err(text) => r is Err && r->Err_0.text() == text,
            Ok(json) => exists|report: ProbeReport| #[trigger]
                report.reads(json) && shape_is(r, shape_of(path@, report)),
        },
{
    if !run.success {
        let stderr = decode_lossy(run.stderr.as_slice());
        return Err(Error("ffprobe failed: ".to_owned().concat(trim(stderr.as_str()).as_str())));
    }
    match read_report(run.stdout.as_slice()) {
        Ok(report) => describe(path, &report),
        Err(e) => Err(e),
    }
}

/// A frame rate as ffprobe writes it: a numeral, or two with a slash between them.
pub struct RatioText {
    pub numerator: String,
    pub denominator: Option<String>,
}

/// Splits a frame rate at its first slash.
pub fn ratio(s: &str) -> (r: RatioText)
    ensures
        r.numerator@ == before_first(s@, "/"@),
        text_of(r.denominator) == after_first(s@, "/"@),
{
    let v = chars(s);
    let slash = chars("/");
    RatioText {
        numerator: string(before(v.as_slice(), slash.as_slice())),
        denominator: match after(v.as_slice(), slash.as_slice()) {
            Some(rest) => Some(string(rest)),
            None => None,
        },
    }
}

impl VideoShape {
    /// The video, once its duration and frame rate are known as numbers and the file is hashed.
    pub fn into_info<F>(self, path: String, duration: F, fps: F, sha256: String) -> (r: VideoInfo<
        F,
    >)
        ensures
            r == (VideoInfo {
                path,
                width: self.width,
                height: self.height,
                duration,
                fps,
                sha256,
            }),
    {
        VideoInfo { path, width: self.width, height: self.height, duration, fps, sha256 }
    }
}

/// A document says one thing of a video: two reports that hold what it says are described alike.
pub proof fn a_document_has_one_description(
    path: Seq<char>,
    json: Json,
    a: ProbeReport,
    b: ProbeReport,
)
    requires
        a.reads(json),
        b.reads(json),
    ensures
        shape_of(path, a) == shape_of(path, b),
{
    if a.has_video() {
        let i = choose|i: int| a.video_at(i);
        lemma_same_video(json, a, b, i);
    } else if b.has_video() {
        let i = choose|i: int| b.video_at(i);
        lemma_same_video(json, b, a, i);
    }
}

proof fn lemma_same_video(json: Json, a: ProbeReport, b: ProbeReport, i: int)
    requires
        a.reads(json),
        b.reads(json),
        a.video_at(i),
    ensures
        b.has_video(),
        a.video() == a.streams->0@[i],
        b.video() == b.streams->0@[i],
        a.video().reads(items_in(member(json, "streams"@))->0[i]),
        b.video().reads(items_in(member(json, "streams"@))->0[i]),
{
    let items = items_in(member(json, "streams"@))->0;
    assert forall|k: int| 0 <= k <= i implies a.streams->0@[k].is_video()
        == (#[trigger] b.streams->0@[k]).is_video() by {
        assert(a.streams->0@[k].reads(items[k]));
        assert(b.streams->0@[k].reads(items[k]));
    }
    assert forall|k: int| 0 <= k < i implies !(#[trigger] b.streams->0@[k]).is_video() by {
        assert(!a.streams->0@[k].is_video());
    }
    assert(b.streams->0@[i].is_video());
    assert(b.video_at(i));
    lemma_first_video(a, i);
    lemma_first_video(b, i);
    assert(a.streams->0@[i].reads(items[i]));
    assert(b.streams->0@[i].reads(items[i]));
}

/// The first stream of the document that says it is video is the `i`-th.
pub open spec fn first_video_of(json: Json, i: int) -> bool {
    &&& items_in(member(json, "streams"@)) matches Some(items)
    &&& 0 <= i < items.len()
    &&& member(items[i], "codec_type"@) == Json::Text("video"@)
    &&& forall|k: int|
        0 <= k < i ==> member(#[trigger] items[k], "codec_type"@) != Json::Text("video"@)
}

/// A report of a document sees the video stream where the document has it.
proof fn lemma_video_of(json: Json, report: ProbeReport, i: int)
    requires
        report.reads(json),
        first_video_of(json, i),
    ensures
        report.has_video(),
        report.video() == report.streams->0@[i],
        report.video().reads(items_in(member(json, "streams"@))->0[i]),
{
    let items = items_in(member(json, "streams"@))->0;
    let streams = report.streams->0@;
    assert(streams[i].reads(items[i]));
    assert forall|k: int| 0 <= k < i implies !(#[trigger] streams[k]).is_video() by {
        assert(streams[k].reads(items[k]));
    }
    assert(report.video_at(i));
    lemma_first_video(report, i);
}

/// What is said of a video is what its stream says: a width and a height from 1 to `u32::MAX` are
/// taken over as they are. The duration is that of the file, else that of the stream; the frame
/// rates are the stream's own.
pub proof fn a_video_is_described_by_its_stream(
    path: Seq<char>,
    json: Json,
    report: ProbeReport,
    r: Result<VideoShape, Error>,
    i: int,
    width: u32,
    height: u32,
)
    requires
        report.reads(json),
        shape_is(r, shape_of(path, report)),
        first_video_of(json, i),
        ({
            let stream = items_in(member(json, "streams"@))->0[i];
            &&& count_in(member(stream, "width"@)) == Some(width as u64)
            &&& count_in(member(stream, "height"@)) == Some(height as u64)
        }),
        width > 0,
        height > 0,
    ensures
        r is Ok,
        r->Ok_0.width == width,
        r->Ok_0.height == height,
        ({
            let stream = items_in(member(json, "streams"@))->0[i];
            let whole = member(member(json, "format"@), "duration"@);
            let own = member(stream, "duration"@);
            &&& match whole {
                Json::Text(t) => r->Ok_0.duration is Some && r->Ok_0.duration->0@ == t,
                _ => match own {
                    Json::Text(t) => r->Ok_0.duration is Some && r->Ok_0.duration->0@ == t,
                    _ => r->Ok_0.duration is None,
                },
            }
            &&& match member(stream, "avg_frame_rate"@) {
                Json::Text(t) => r->Ok_0.average@ == t,
                _ => r->Ok_0.average@ == "0/0"@,
            }
            &&& match member(stream, "r_frame_rate"@) {
                Json::Text(t) => r->Ok_0.fallback@ == t,
                _ => r->Ok_0.fallback@ == "25/1"@,
            }
        }),
{
    lemma_video_of(json, report, i);
}

/// A count that takes more than 32 bits keeps its low ones: it is the same up to a multiple of 2^32.
/// A missing one counts as none, and a size of none is refused.
pub proof fn a_video_needs_a_size(
    path: Seq<char>,
    json: Json,
    report: ProbeReport,
    r: Result<VideoShape, Error>,
    i: int,
)
    requires
        report.reads(json),
        shape_is(r, shape_of(path, report)),
        first_video_of(json, i),
    ensures
        ({
            let stream = items_in(member(json, "streams"@))->0[i];
            let width = match count_in(member(stream, "width"@)) {
                Some(n) => n as int,
                None => 0,
            };
            let height = match count_in(member(stream, "height"@)) {
                Some(n) => n as int,
                None => 0,
            };
            &&& r is Ok <==> width % 0x1_0000_0000 != 0 && height % 0x1_0000_0000 != 0
            &&& r is Ok ==> (width - r->Ok_0.width) % 0x1_0000_0000 == 0 && (height - r->Ok_0.height)
                % 0x1_0000_0000 == 0
            &&& r is Err ==> r->Err_0.text() == "ffprobe reported no frame size for "@ + path
        }),
{
    lemma_video_of(json, report, i);
}

/// A document without a video stream is refused.
pub proof fn a_file_without_video_is_refused(
    path: Seq<char>,
    json: Json,
    report: ProbeReport,
    r: Result<VideoShape, Error>,
)
    requires
        report.reads(json),
        shape_is(r, shape_of(path, report)),
        forall|i: int| !first_video_of(json, i),
    ensures
        r is Err,
        r->Err_0.text() == path + " has no video stream"@,
{
    if report.has_video() {
        let i = choose|i: int| report.video_at(i);
        let items = items_in(member(json, "streams"@))->0;
        let streams = report.streams->0@;
        assert(streams[i].reads(items[i]));
        assert forall|k: int| 0 <= k < i implies member(#[trigger] items[k], "codec_type"@)
            != Json::Text("video"@) by {
            assert(streams[k].reads(items[k]));
            assert(!streams[k].is_video());
        }
        assert(first_video_of(json, i));
    }
}

/// ffprobe is asked for the streams and the format of the file at the path, as JSON and with nothing
/// but errors besides.
pub proof fn ffprobe_is_asked_for_the_file(path: Seq<char>)
    ensures
        probe_command(path).len() == 7,
        probe_command(path)[0] == "-v"@,
        probe_command(path)[1] == "error"@,
        probe_command(path)[2] == "-print_format"@,
        probe_command(path)[3] == "json"@,
        probe_command(path).contains("-show_streams"@),
        probe_command(path).contains("-show_format"@),
        probe_command(path).last() == path,
{
    assert(probe_command(path)[4] == "-show_streams"@);
    assert(probe_command(path)[5] == "-show_format"@);
}

}
