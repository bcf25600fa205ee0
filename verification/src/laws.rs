//! What a caller can rely on: how the results of calls follow from what goes into them, and how the
//! results of several calls belong together. `call_ensures(f, (x, y), r)` reads: a call of `f` with
//! `x` and `y` has returned `r`.

use vstd::prelude::*;
use vstd::utf8::{decode_utf8, encode_utf8, valid_utf8};

use crate::clock::{
    a_stamp_shows_date_and_time, civil, day_number, iso_at, iso_since, stamps_sort_as_times, valid, Date,
    YEAR_10000,
};
use crate::error::Error;
use crate::export::{
    encode_end, log_path, script_name, script_names_differ, the_encoder_is_told_what_to_do, EncodeEnd,
    Export, ExportAction, ExportReport,
};
use crate::ffmpeg::{
    a_line_is_handed_out_as_it_is, a_time_stands_behind_its_mark, a_version_is_the_first_line,
    clock_text, ends_a_time, output_is_kept_up_to_8000_bytes, parse_time, readable_error,
    short_lines_are_shown_as_they_are, version_of, EncoderOutput, OutputLine, TimeFields,
};
use crate::frames::{a_pixel_takes_four_bytes, reader_args, FrameReader, Step};
use crate::hash::FileHash;
use crate::json::{count_in, items_in, json_from_slice, json_from_str, member, with_member, Json};
use crate::log::append_log;
use crate::numeral::float;
use crate::ocr::{
    check_rate, distinct, every_line_of_every_frame_is_kept, filter, found_line,
    frames_in_order_stay_in_order, frames_never_shuffle, has_extent, line_count, max_dim, next_attempt, stamp, union,
    worker_count, Attempt, Bounds, Edges, Line, OcrAction, OcrEvent, OcrResult, OcrRun, Word,
};
use crate::probe::{
    a_file_without_video_is_refused, a_video_is_described_by_its_stream, first_video_of, probe, ratio,
    ProbeReport, RatioText, ToolOutput, VideoInfo, VideoShape,
};
use crate::recents::{drop_recent, existing, push_recent, recents, set_recents};
use crate::scale::{frame_size, scaled_sides_are_even, the_recogniser_accepts_the_frame};
use crate::text::{blank, joined, occurs, sorts_before, texts, trimmed, white};
use crate::shell::show_args;
use crate::tools::{cannot_run, program_name, sidecar_name, tool};

verus! {

/// Line `j` of a frame stands in the run behind all lines that were there, all lines of the frames
/// before it and `j` of its own. What was there stays, and there are as many lines more as the frames
/// hold. The frames come in the order of the video here.
pub proof fn a_run_takes_over_every_line<F>(
    run: &mut OcrRun<F>,
    frames: Vec<(usize, Vec<Line<F>>)>,
    r: OcrAction,
    front: Seq<(usize, Vec<Line<F>>)>,
    frame: (usize, Vec<Line<F>>),
    back: Seq<(usize, Vec<Line<F>>)>,
    j: int,
)
    requires
        call_ensures(OcrRun::<F>::step, (run, OcrEvent::Recognized { frames }), r),
        frames@ == front + seq![frame] + back,
        forall|i: int, k: int|
            0 <= i < k < frames@.len() ==> (#[trigger] frames@[i]).0 <= (#[trigger] frames@[k]).0,
        0 <= j < frame.1@.len(),
    ensures
        final(run).lines@.len() == old(run).lines@.len() + line_count(front) + frame.1@.len()
            + line_count(back),
        final(run).lines@[old(run).lines@.len() + line_count(front) + j] == frame.1@[j],
        forall|i: int|
            0 <= i < old(run).lines@.len() ==> #[trigger] final(run).lines@[i] == old(run).lines@[i],
{
    frames_in_order_stay_in_order(frames@);
    every_line_of_every_frame_is_kept(front, frame, back, j);
}

/// The order in which the frames of a batch come back makes no difference to the lines of a run.
pub proof fn the_order_of_recognition_makes_no_difference<F>(
    run: &mut OcrRun<F>,
    frames: Vec<(usize, Vec<Line<F>>)>,
    r: OcrAction,
    other_run: &mut OcrRun<F>,
    other_frames: Vec<(usize, Vec<Line<F>>)>,
    other_r: OcrAction,
)
    requires
        call_ensures(OcrRun::<F>::step, (run, OcrEvent::Recognized { frames }), r),
        call_ensures(
            OcrRun::<F>::step,
            (other_run, OcrEvent::Recognized { frames: other_frames }),
            other_r,
        ),
        *old(run) == *old(other_run),
        distinct(frames@),
        distinct(other_frames@),
        frames@.to_multiset() == other_frames@.to_multiset(),
    ensures
        final(run).lines@ == final(other_run).lines@,
        final(run).done == final(other_run).done,
        r == other_r,
{
    broadcast use vstd::seq_lib::group_to_multiset_ensures;

    frames_never_shuffle(frames@, other_frames@);
    assert(frames@.len() == frames@.to_multiset().len());
    assert(other_frames@.len() == other_frames@.to_multiset().len());
}

/// Progress is reported from the first frame that is new to the last, out of a total that is never
/// smaller than the count nor than what was expected.
pub proof fn progress_counts_every_frame<F>(
    run: &mut OcrRun<F>,
    frames: Vec<(usize, Vec<Line<F>>)>,
    r: OcrAction,
)
    requires
        call_ensures(OcrRun::<F>::step, (run, OcrEvent::Recognized { frames }), r),
        old(run).done < usize::MAX,
    ensures
        final(run).done == old(run).done + frames@.len(),
        r is Report,
        r->Report_first == old(run).done + 1,
        r->Report_done == old(run).done + frames@.len(),
        r->Report_total >= r->Report_done,
        r->Report_total >= old(run).total,
        r->Report_total == r->Report_done || r->Report_total == old(run).total,
{
}

/// A run reads batches of as many frames as it has workers, recognises what it gets, and ends when
/// there is nothing more; where the user asks to stop it ends at once. None of this changes what has
/// been read.
pub proof fn a_run_goes_on_until_nothing_is_left<F>(
    run: &mut OcrRun<F>,
    event: OcrEvent<F>,
    r: OcrAction,
)
    requires
        call_ensures(OcrRun::<F>::step, (run, event), r),
        !(event is Recognized),
    ensures
        *final(run) == *old(run),
        event == (OcrEvent::<F>::Due { cancelled: false }) ==> r == (OcrAction::Read {
            most: old(run).workers,
        }),
        event == (OcrEvent::<F>::Due { cancelled: true }) ==> r is Cancel,
        event is Read && event->count > 0 ==> r is Recognize,
        event is Read && event->count == 0 ==> {
            &&& r is Finish
            &&& r->Finish_done == old(run).done
            &&& r->Finish_total == (if old(run).done == 0 {
                1
            } else {
                old(run).done
            })
        },
{
}

/// The result of a run holds its lines and what they were read from.
pub proof fn a_result_holds_what_was_read<F>(
    run: OcrRun<F>,
    info: VideoInfo<F>,
    video: Option<String>,
    rate: F,
    lang: String,
    ocr_scale: F,
    r: OcrResult<F>,
)
    requires
        call_ensures(OcrRun::<F>::finish, (run, info, video, rate, lang, ocr_scale), r),
    ensures
        r.lines@ == run.lines@,
        r.video_sha256@ == info.sha256@,
        r.width == info.width && r.height == info.height,
        r.duration == info.duration && r.video_fps == info.fps,
        r.rate == rate && r.lang@ == lang@ && r.ocr_scale == ocr_scale,
        video is Some ==> r.video@ == video->0@,
        video is None ==> r.video@.len() == 0,
        r.engine@ == "Windows.Media.Ocr"@,
{
}

/// Every line of a frame bears the frame's time, and keeps everything else.
pub proof fn a_frame_stamps_every_line<F: Copy>(
    lines: Vec<Line<F>>,
    t: F,
    r: Vec<Line<F>>,
    i: int,
)
    requires
        call_ensures(stamp::<F>, (lines, t), r),
        0 <= i < lines@.len(),
    ensures
        r@.len() == lines@.len(),
        r@[i].t == t,
        r@[i].text@ == lines@[i].text@,
        r@[i].rect == lines@[i].rect,
        r@[i].words == lines@[i].words,
        r@[i].conf == lines@[i].conf,
{
}

/// A line that holds anything but white space is taken over with all its words.
pub proof fn a_line_is_taken_over_with_its_words<F: Copy>(
    text: String,
    words: Vec<Word<F>>,
    rect: [F; 4],
    zero: F,
    r: Option<Line<F>>,
)
    requires
        call_ensures(found_line::<F>, (text, words, rect, zero), r),
    ensures
        r is Some <==> exists|i: int| 0 <= i < text@.len() && !white(#[trigger] text@[i]),
        r is Some ==> r->0.text@ == text@ && r->0.words@ == words@ && r->0.rect == rect && r->0.t
            == zero && r->0.conf == zero,
{
}

/// A recogniser is sought twice at most: by the language, where one is named, and then by the
/// profile.
pub proof fn a_recogniser_is_sought_twice_at_most(
    lang: &str,
    first: Option<Attempt>,
    second: Option<Attempt>,
    third: Option<Attempt>,
)
    requires
        call_ensures(next_attempt, (lang, None), first),
        first is Some ==> call_ensures(next_attempt, (lang, first), second),
        second is Some ==> call_ensures(next_attempt, (lang, second), third),
    ensures
        first is Some,
        first == Some(Attempt::Language) <==> exists|i: int|
            0 <= i < lang@.len() && !white(#[trigger] lang@[i]),
        first == Some(Attempt::Language) ==> second == Some(Attempt::Profile) && third is None,
        first == Some(Attempt::Profile) ==> second is None,
{
}

/// A filter starts with the whole numeral of the rate, ends with it where the frame keeps its width,
/// and names the size where it does not; filters of different rates differ.
pub proof fn a_filter_keeps_the_whole_rate(
    rate: &str,
    other_rate: &str,
    width: u32,
    size: (u32, u32),
    r: String,
    other_r: String,
)
    requires
        call_ensures(filter, (rate, width, size), r),
        call_ensures(filter, (other_rate, width, size), other_r),
    ensures
        ("fps="@ + rate@).is_prefix_of(r@),
        size.0 == width ==> r@ == "fps="@ + rate@,
        size.0 != width ==> (",scale="@).is_prefix_of(
            r@.skip(("fps="@.len() + rate@.len()) as int),
        ),
        r@ == other_r@ ==> rate@ == other_rate@,
{
    crate::ocr::a_filter_samples_at_the_rate(rate@, width, size);
    let head = "fps="@ + rate@;
    assert(r@.take(head.len() as int) =~= head);
    if size.0 == width {
        assert(r@ =~= head);
    } else {
        let rest = r@.skip(head.len() as int);
        let scale = ",scale="@;
        assert(rest.take(scale.len() as int) =~= scale);
    }
    if r@ == other_r@ {
        crate::ocr::filters_tell_rates_apart(rate@, other_rate@, width, size);
    }
}

/// A frame that the recogniser accepts keeps its size; one that is too large gets one that fits, with
/// even sides.
pub proof fn a_frame_fits_the_recogniser(width: u32, height: u32, most: u32, r: (u32, u32))
    requires
        call_ensures(frame_size, (width, height, most), r),
    ensures
        r.0 <= most,
        r.1 <= most,
        width <= most && height <= most ==> r == (width, height),
        width > most || height > most ==> r.0 % 2 == 0 && r.1 % 2 == 0,
{
    the_recogniser_accepts_the_frame(width as nat, height as nat, most as nat);
    let big = if width >= height {
        width as nat
    } else {
        height as nat
    };
    if big > most {
        scaled_sides_are_even(width as nat, most as nat, big);
        scaled_sides_are_even(height as nat, most as nat, big);
    }
}

/// One processor is left to the rest of the system, where there is more than one.
pub proof fn workers_leave_one_processor(cpus: usize, r: usize)
    requires
        call_ensures(worker_count, (cpus,), r),
    ensures
        r >= 1,
        cpus >= 2 ==> r + 1 == cpus,
        cpus < 2 ==> r == 1,
{
}

/// A reader asks for four bytes a pixel, and hands out a frame when it has them all: the bytes that
/// were pending and those that came, under the number of the frame, which then goes up by one.
pub proof fn a_frame_is_all_its_pixels(
    reader: &mut FrameReader,
    asked: Step,
    data: &[u8],
    fed: &mut FrameReader,
    r: Step,
)
    requires
        call_ensures(FrameReader::next_frame, (reader,), asked),
        call_ensures(FrameReader::received, (fed, data), r),
        old(reader).width > 0 && old(reader).height > 0,
        *old(fed) == *final(reader),
    ensures
        asked is Read,
        asked->Read_0 == 4 * (old(reader).width as nat * old(reader).height as nat),
        final(reader).frame == old(reader).frame,
        data@.len() == 0 ==> r is End,
        0 < data@.len() < asked->Read_0 ==> r == Step::Read((asked->Read_0 - data@.len()) as usize),
        data@.len() == asked->Read_0 ==> {
            &&& r is Frame
            &&& r->Frame_0 == old(reader).frame
            &&& r->Frame_1@ == data@
            &&& final(fed).frame == old(reader).frame + 1
        },
{
    a_pixel_takes_four_bytes(old(reader).width, old(reader).height, 0, 0);
    assert(old(fed)@.pending.len() == 0);
    assert(old(fed)@.pending + data@ =~= data@);
}

/// ffmpeg is asked for raw frames of the given file through the given filter.
pub proof fn a_reader_reads_the_file_it_is_given(path: &str, vf: &str, r: Vec<String>)
    requires
        call_ensures(reader_args, (path, vf), r),
    ensures
        r@.len() == 13,
        r@[4]@ == "-i"@ && r@[5]@ == path@,
        r@[6]@ == "-vf"@ && r@[7]@ == vf@,
        r@[8]@ == "-pix_fmt"@ && r@[9]@ == "bgra"@,
        r@[10]@ == "-f"@ && r@[11]@ == "rawvideo"@,
        r@[12]@ == "-"@,
{
    crate::frames::the_reader_gets_raw_frames_of_the_file(path@, vf@);
    crate::text::texts_are_those_of_the_strings(r@, Seq::empty());
    assert(texts(r@).len() == 13);
    assert(texts(r@)[4] == r@[4]@ && texts(r@)[5] == r@[5]@ && texts(r@)[6] == r@[6]@);
    assert(texts(r@)[7] == r@[7]@ && texts(r@)[8] == r@[8]@ && texts(r@)[9] == r@[9]@);
    assert(texts(r@)[10] == r@[10]@ && texts(r@)[11] == r@[11]@ && texts(r@)[12] == r@[12]@);
}

/// A reader fails exactly where ffmpeg speaks of an error, and then says what ffmpeg said.
pub proof fn a_reader_fails_with_ffmpeg(reader: FrameReader, stderr: &str, r: Result<(), Error>)
    requires
        call_ensures(FrameReader::finish, (reader, stderr), r),
    ensures
        r is Err ==> occurs(stderr@, "Error"@) && r->Err_0.text() == "ffmpeg: "@ + trimmed(stderr@),
        occurs(stderr@, "Error"@) && stderr@.len() > 0 && !white(stderr@[0]) ==> r is Err,
        stderr@.len() == 0 ==> r is Ok,
{
    reveal_strlit("Error");
}

/// An export starts exactly where there is something in the graph and the output is not the input,
/// by name or as a file, and then is what was asked for.
pub proof fn an_export_starts_as_it_was_asked_for(
    input: String,
    output: String,
    filtergraph: String,
    same_path: bool,
    flag: usize,
    r: Result<Export, Error>,
)
    requires
        call_ensures(Export::new, (input, output, filtergraph, same_path, flag), r),
        flag < 2,
    ensures
        r is Ok <==> !same_path && input@ != output@ && exists|i: int|
            0 <= i < filtergraph@.len() && !white(#[trigger] filtergraph@[i]),
        r is Ok ==> {
            let export = r->Ok_0;
            &&& export.input@ == input@ && export.output@ == output@
            &&& export.filtergraph@ == filtergraph@ && export.flag == flag
            &&& export.wf()
        },
{
}

/// The encoder reads the input, takes the graph from the script by its whole path, and writes the
/// output; the report shows the program and the same arguments.
pub proof fn a_report_shows_the_command_that_ran<F>(
    export: Export,
    script: &str,
    args: Vec<String>,
    info: VideoInfo<F>,
    program: &str,
    ffmpeg: String,
    tool_version: String,
    output_sha256: String,
    r: ExportReport<F>,
)
    requires
        call_ensures(Export::args, (&export, script), args),
        call_ensures(
            Export::report::<F>,
            (export, info, script, program, ffmpeg, tool_version, output_sha256),
            r,
        ),
    ensures
        args@.len() == 22,
        args@[3]@ == "-i"@ && args@[4]@ == export.input@,
        args@[5]@ == (if export.flag == 0 {
            "-/filter:v"@
        } else {
            "-filter_script:v"@
        }),
        args@[6]@ == script@,
        args@[7]@ == "-c:v"@ && args@[8]@ == "libx264"@,
        args@[9]@ == "-crf"@ && args@[10]@ == "18"@,
        args@[13]@ == "-c:a"@ && args@[14]@ == "copy"@,
        args@[21]@ == export.output@,
        texts(r.command@) == seq![program@] + texts(args@),
        r.input@ == export.input@ && r.output@ == export.output@,
        r.input_sha256@ == info.sha256@ && r.output_sha256@ == output_sha256@,
        r.filtergraph@ == export.filtergraph@ && r.duration == info.duration,
        r.ffmpeg@ == ffmpeg@ && r.tool_version@ == tool_version@,
{
    let command = texts(args@);
    the_encoder_is_told_what_to_do(export.input@, export.flag, script@, export.output@);
    assert(command.len() == args@.len());
    let head = command.take(4);
    let how = command.subrange(7, 15);
    assert(head[3] == args@[3]@);
    assert(command[4] == args@[4]@ && command[5] == args@[5]@ && command[6] == args@[6]@);
    assert(how[0] == args@[7]@ && how[1] == args@[8]@ && how[2] == args@[9]@);
    assert(how[3] == args@[10]@ && how[6] == args@[13]@ && how[7] == args@[14]@);
    assert(command[21] == args@[21]@);
}

/// Only an option that ffmpeg does not know is spelt another way, and only once; a run that succeeded
/// is reported, every other ends the export. The export stays what it is.
pub proof fn an_export_is_retried_once(export: &mut Export, end: EncodeEnd, r: ExportAction)
    requires
        call_ensures(Export::step, (export, end), r),
        old(export).wf(),
    ensures
        end is Succeeded <==> r is Report,
        r is Retry <==> end is Failed && old(export).flag == 0 && occurs(
            end->tail@,
            "Unrecognized option"@,
        ),
        r is Retry ==> final(export).flag == 1,
        !(r is Retry) ==> final(export).flag == old(export).flag,
        final(export).input@ == old(export).input@,
        final(export).output@ == old(export).output@,
        final(export).filtergraph@ == old(export).filtergraph@,
{
}

/// A failed run is told with what ffmpeg printed last.
pub proof fn a_failed_export_says_what_ffmpeg_said(
    export: &mut Export,
    tail: String,
    line: &str,
    shown: String,
    r: ExportAction,
)
    requires
        call_ensures(Export::step, (export, EncodeEnd::Failed { tail }), r),
        call_ensures(readable_error, (line,), shown),
        line@ == tail@,
        r is Fail,
    ensures
        r->Fail_0.text() == "ffmpeg export failed:\n"@ + shown@,
{
}

/// A run that succeeded counts, even if it should have been stopped; one that did not was stopped, or
/// failed with the end of what it printed.
pub proof fn a_run_ends_as_it_did(success: bool, cancelled: bool, tail: String, r: EncodeEnd)
    requires
        call_ensures(encode_end, (success, cancelled, tail), r),
    ensures
        r is Succeeded <==> success,
        r is Cancelled <==> !success && cancelled,
        r is Failed ==> r->tail@ == tail@,
{
}

/// Two exports share the file of their graph only if they are one.
pub proof fn graphs_lie_in_files_of_their_own(
    pid: u32,
    export: usize,
    r: String,
    other_pid: u32,
    other_export: usize,
    other_r: String,
)
    requires
        call_ensures(script_name, (pid, export), r),
        call_ensures(script_name, (other_pid, other_export), other_r),
    ensures
        r@ == other_r@ <==> pid == other_pid && export == other_export,
        (".txt"@).is_suffix_of(r@),
{
    if r@ == other_r@ {
        script_names_differ(pid as nat, export as nat, other_pid as nat, other_export as nat);
    }
    crate::export::a_script_is_named_by_process_and_export(pid as nat, export as nat);
}

/// The log lies beside the copy that it is about.
pub proof fn a_log_lies_beside_its_copy(output: &str, r: String)
    requires
        call_ensures(log_path, (output,), r),
    ensures
        output@.is_prefix_of(r@),
        r@.skip(output@.len() as int) == ".redaction-log.json"@,
{
    assert(r@.take(output@.len() as int) =~= output@);
    assert(r@.skip(output@.len() as int) =~= ".redaction-log.json"@);
}

/// Output of a few short lines is shown as it was printed.
pub proof fn a_message_shows_what_was_printed(tail: &str, r: String, lines: Seq<Seq<char>>)
    requires
        call_ensures(readable_error, (tail,), r),
        tail@ == joined(lines, "\n"@),
        0 < lines.len() <= 12,
        forall|i: int| 0 <= i < lines.len() ==> (#[trigger] lines[i]).len() <= 200,
        forall|i: int| 0 <= i < lines.len() ==> !blank(#[trigger] lines[i]),
        forall|i: int, k: int|
            0 <= i < lines.len() && 0 <= k < lines[i].len() ==> #[trigger] lines[i][k] != '\r'
                && lines[i][k] != '\n',
    ensures
        r@ == tail@,
{
    short_lines_are_shown_as_they_are(lines);
}

/// The time of a line is read as it stands there.
pub proof fn a_time_is_read_as_it_stands(
    line: &str,
    r: Option<TimeFields>,
    front: Seq<char>,
    gap: Seq<char>,
    hours: Seq<char>,
    minutes: Seq<char>,
    seconds: Seq<char>,
    rest: Seq<char>,
)
    requires
        call_ensures(parse_time, (line,), r),
        line@ == front + "time="@ + (gap + clock_text(hours, minutes, seconds) + rest),
        float(hours),
        float(minutes),
        float(seconds),
        forall|i: int| 0 <= i < gap.len() ==> white(#[trigger] gap[i]),
        ends_a_time(rest),
        forall|k: int| 0 <= k < front.len() ==> #[trigger] line@.subrange(k, k + 5) != "time="@,
    ensures
        r is Some,
        r->0.hours@ == hours,
        r->0.minutes@ == minutes,
        r->0.seconds@ == seconds,
{
    a_time_stands_behind_its_mark(front, gap, hours, minutes, seconds, rest);
}

/// A version is what the tool printed on its first line.
pub proof fn a_version_is_what_was_printed_first(output: &str, r: String, line: Seq<char>, rest: Seq<char>)
    requires
        call_ensures(version_of, (output,), r),
        output@ == line.push('\n') + rest,
        forall|i: int| 0 <= i < line.len() ==> #[trigger] line[i] != '\n',
    ensures
        r@ == trimmed(line),
{
    a_version_is_the_first_line(line, rest);
}

/// What is kept after another stretch of output is the end of what was kept and of the stretch, all of
/// it where it is no more than 8000 bytes; and every line is handed out as it is.
pub proof fn output_is_kept_from_its_end(
    output: &mut EncoderOutput,
    bytes: &[u8],
    r: Vec<OutputLine>,
    i: int,
)
    requires
        call_ensures(EncoderOutput::feed, (output, bytes), r),
        valid_utf8(bytes@),
        0 <= i < r@.len(),
    ensures
        ({
            let all = old(output)@ + decode_utf8(bytes@);
            &&& final(output)@.is_suffix_of(all)
            &&& encode_utf8(all).len() <= 8000 ==> final(output)@ == all
            &&& encode_utf8(all).len() > 8000 ==> 3997 <= encode_utf8(final(output)@).len() <= 4000
        }),
        r@[i].text@ == crate::text::pieces(decode_utf8(bytes@), seq!['\r', '\n'])[i],
{
    output_is_kept_up_to_8000_bytes(old(output)@ + decode_utf8(bytes@));
    a_line_is_handed_out_as_it_is(
        r@[i],
        crate::text::pieces(decode_utf8(bytes@), crate::ffmpeg::breaks())[i],
    );
}

/// Two files have the same hash if they hold the same bytes, and only if they have the same digest;
/// a hash is 64 hexadecimal digits.
pub proof fn a_hash_is_that_of_the_bytes(a: FileHash, b: FileHash, hash_a: String, hash_b: String)
    requires
        call_ensures(FileHash::finish, (a,), hash_a),
        call_ensures(FileHash::finish, (b,), hash_b),
    ensures
        a@ == b@ ==> hash_a@ == hash_b@,
        hash_a@ == hash_b@ ==> crate::hash::sha256(a@) == crate::hash::sha256(b@),
        hash_a@.len() == 64,
{
    crate::hash::a_file_has_one_hash(a@, b@);
}

/// Reads are hashed one behind the other.
pub proof fn a_read_is_hashed_behind_the_others(h: &mut FileHash, data: &[u8], r: ())
    requires
        call_ensures(FileHash::update, (h, data), r),
    ensures
        final(h)@ == old(h)@ + data@,
{
}

/// A video has the width and the height that ffprobe reports of its first video stream, for every
/// width and height from 1 to `u32::MAX`; its duration and frame rates are those that are reported.
pub proof fn a_video_has_the_size_that_is_reported(
    path: &str,
    run: &ToolOutput,
    r: Result<VideoShape, Error>,
    json: Json,
    i: int,
    width: u32,
    height: u32,
)
    requires
        call_ensures(probe, (path, run), r),
        run.success,
        json_from_slice(run.stdout@) == Ok::<Json, Seq<char>>(json),
        first_video_of(json, i),
        count_in(member(items_in(member(json, "streams"@))->0[i], "width"@)) == Some(width as u64),
        count_in(member(items_in(member(json, "streams"@))->0[i], "height"@)) == Some(height as u64),
        width > 0,
        height > 0,
    ensures
        r is Ok,
        r->Ok_0.width == width,
        r->Ok_0.height == height,
        ({
            let stream = items_in(member(json, "streams"@))->0[i];
            let whole = member(member(json, "format"@), "duration"@);
            &&& whole is Text ==> r->Ok_0.duration is Some && r->Ok_0.duration->0@ == whole->Text_0
            &&& member(stream, "avg_frame_rate"@) is Text ==> r->Ok_0.average@ == member(
                stream,
                "avg_frame_rate"@,
            )->Text_0
            &&& member(stream, "r_frame_rate"@) is Text ==> r->Ok_0.fallback@ == member(
                stream,
                "r_frame_rate"@,
            )->Text_0
        }),
{
    let report = choose|report: ProbeReport| #[trigger]
        report.reads(json) && crate::probe::shape_is(
            r,
            crate::probe::shape_of(path@, report),
        );
    a_video_is_described_by_its_stream(path@, json, report, r, i, width, height);
}

/// A run of ffprobe that failed, one whose answer is no document, and a file without video are
/// refused.
pub proof fn what_is_no_video_is_refused(path: &str, run: &ToolOutput, r: Result<VideoShape, Error>)
    requires
        call_ensures(probe, (path, run), r),
    ensures
        !run.success ==> r is Err,
        run.success && json_from_slice(run.stdout@) is Err ==> r is Err && r->Err_0.text()
            == json_from_slice(run.stdout@)->Err_0,
        run.success && json_from_slice(run.stdout@) is Ok && (forall|i: int|
            !first_video_of(json_from_slice(run.stdout@)->Ok_0, i)) ==> r is Err && r->Err_0.text()
            == path@ + " has no video stream"@,
{
    if run.success && json_from_slice(run.stdout@) is Ok {
        let json = json_from_slice(run.stdout@)->Ok_0;
        let report = choose|report: ProbeReport| #[trigger]
            report.reads(json) && crate::probe::shape_is(
                r,
                crate::probe::shape_of(path@, report),
            );
        if forall|i: int| !first_video_of(json, i) {
            a_file_without_video_is_refused(path@, json, report, r);
        }
    }
}

/// A stamp shows the date and the time of its second.
pub proof fn a_stamp_is_that_of_its_second(
    seconds: u64,
    r: String,
    date: Date,
    hour: nat,
    minute: nat,
    second: nat,
)
    requires
        call_ensures(iso_at, (seconds,), r),
        valid(date),
        day_number(date) >= 0,
        hour < 24,
        minute < 60,
        second < 60,
        seconds == 86400 * day_number(date) + 3600 * hour + 60 * minute + second,
    ensures
        r@ == crate::text::zero_padded(date.year as nat, 4) + "-"@ + crate::text::zero_padded(
            date.month as nat,
            2,
        ) + "-"@ + crate::text::zero_padded(date.day as nat, 2) + "T"@ + crate::text::zero_padded(
            hour,
            2,
        ) + ":"@ + crate::text::zero_padded(minute, 2) + ":"@ + crate::text::zero_padded(second, 2)
            + "Z"@,
{
    a_stamp_shows_date_and_time(date, hour, minute, second);
}

/// Stamps sort as the seconds that they show.
pub proof fn stamps_sort(a: u64, stamp_a: String, b: u64, stamp_b: String)
    requires
        call_ensures(iso_at, (a,), stamp_a),
        call_ensures(iso_at, (b,), stamp_b),
        a < b < YEAR_10000,
    ensures
        sorts_before(stamp_a@, stamp_b@),
        stamp_a@.len() == 20,
{
    stamps_sort_as_times(a as nat, b as nat);
}

/// A reading of the clock is stamped by its whole seconds.
pub proof fn a_reading_is_stamped_by_its_seconds(
    d: std::time::Duration,
    seconds: u64,
    r: String,
    stamp: String,
)
    requires
        call_ensures(iso_since, (Ok(d),), r),
        call_ensures(std::time::Duration::as_secs, (&d,), seconds),
        call_ensures(iso_at, (seconds,), stamp),
    ensures
        r@ == stamp@,
{
}

/// What was stored is read again.
pub proof fn recents_are_read_again(list: &Vec<String>, text: String, stored: &str, r: Vec<String>)
    requires
        call_ensures(set_recents, (list,), text),
        call_ensures(recents, (Some(stored),), r),
        stored@ == text@,
    ensures
        texts(r@) == texts(list@),
{
}

/// A path that is opened comes first, the others follow in their order and without it, and there are
/// never more than eight.
pub proof fn an_opened_path_comes_first(
    list: &Vec<String>,
    path: &str,
    dropped: Vec<String>,
    r: Vec<String>,
    i: int,
)
    requires
        call_ensures(drop_recent, (list, path), dropped),
        call_ensures(push_recent, (list, path), r),
        0 < i < r@.len(),
    ensures
        0 < r@.len() <= 8,
        r@.len() == (if dropped@.len() < 7 {
            dropped@.len() + 1
        } else {
            8
        }),
        r@[0]@ == path@,
        r@[i]@ == dropped@[i - 1]@,
        dropped@[i - 1]@ != path@,
{
    crate::recents::the_others_follow(texts(list@), path@);
    crate::recents::the_last_opened_comes_first(texts(list@), path@);
    assert(texts(r@).len() == r@.len() && texts(dropped@).len() == dropped@.len());
    assert(texts(r@)[0] == r@[0]@ && texts(r@)[i] == r@[i]@);
    assert(texts(dropped@)[i - 1] == dropped@[i - 1]@);
}

/// Of a list of one path the path stays exactly if it is a file, or if it is not the one to be
/// dropped.
pub proof fn a_path_stays_where_it_should(
    list: &Vec<String>,
    is_file: &Vec<bool>,
    there: Vec<String>,
    path: &str,
    dropped: Vec<String>,
)
    requires
        call_ensures(existing, (list, is_file), there),
        call_ensures(drop_recent, (list, path), dropped),
        list@.len() == 1,
        is_file@.len() == 1,
    ensures
        texts(there@) == (if is_file@[0] {
            texts(list@)
        } else {
            Seq::empty()
        }),
        texts(dropped@) == (if list@[0]@ == path@ {
            Seq::empty()
        } else {
            texts(list@)
        }),
{
    let entry = list@[0]@;
    let nothing = Seq::<Seq<char>>::empty();
    let flags = Seq::<bool>::empty();
    assert(texts(list@) =~= seq![entry]);
    assert(is_file@ =~= seq![is_file@[0]]);
    crate::recents::choosing_keeps_the_order(nothing, flags, nothing, flags, entry, is_file@[0]);
    crate::recents::dropping_keeps_the_order(nothing, nothing, entry, path@);
}

/// An entry that is folded into a log stands in it, beside all that stood there before.
pub proof fn a_log_keeps_its_entries(
    text: &str,
    key: &str,
    value: serde_json::Value,
    r: Result<Option<String>, Error>,
    json: Json,
    other: Seq<char>,
)
    requires
        call_ensures(append_log, (text, key, value), r),
        json_from_str(text@) == Ok::<Json, Seq<char>>(json),
        r is Ok,
        json is Object,
    ensures
        r->Ok_0 is Some,
        ({
            let log = with_member(json, key@, crate::json::json_tree(value));
            &&& crate::json::json_pretty(log) == Ok::<Seq<char>, Seq<char>>(r->Ok_0->0@)
            &&& member(log, key@) == crate::json::json_tree(value)
            &&& other != key@ ==> member(log, other) == member(json, other)
        }),
{
}

/// A tool is the one that the override names, else the one beside the executable, else the bundled
/// one: never any other.
pub proof fn a_tool_is_never_looked_up_elsewhere<P>(
    overridden: Option<P>,
    beside: Option<P>,
    bundled: P,
    r: P,
)
    requires
        call_ensures(tool::<P>, (overridden, beside, bundled), r),
    ensures
        overridden is Some ==> r == overridden->0,
        overridden is None && beside is Some ==> r == beside->0,
        overridden is None && beside is None ==> r == bundled,
{
}

/// A frame rate is parted at its first slash, and nothing of it is lost.
pub proof fn a_ratio_is_parted_at_its_slash(text: &str, r: RatioText)
    requires
        call_ensures(ratio, (text,), r),
    ensures
        r.denominator is Some ==> text@ == r.numerator@ + "/"@ + r.denominator->0@,
        r.denominator is None ==> text@ == r.numerator@,
        forall|i: int| 0 <= i < r.numerator@.len() ==> #[trigger] r.numerator@[i] != '/',
{
    let slash = "/"@;
    reveal_strlit("/");
    if occurs(text@, slash) {
        crate::text::the_first_place_parts_a_text(text@, slash);
        assert forall|i: int| 0 <= i < r.numerator@.len() implies #[trigger] r.numerator@[i]
            != '/' by {
            assert(text@.subrange(i, i + 1) != slash);
            assert(text@[i] == r.numerator@[i]);
            if text@[i] == '/' {
                assert(text@.subrange(i, i + 1) =~= slash);
            }
        }
    } else {
        assert forall|i: int| 0 <= i < r.numerator@.len() implies #[trigger] r.numerator@[i]
            != '/' by {
            if text@[i] == '/' {
                crate::text::what_was_put_in_is_found(text@.take(i), slash, text@.skip(i + 1));
                assert(text@.take(i) + slash + text@.skip(i + 1) =~= text@);
            }
        }
    }
}

/// What is known of a video is what its stream said and what was computed of it.
pub proof fn a_video_is_what_was_found_out<F>(
    shape: VideoShape,
    path: String,
    duration: F,
    fps: F,
    sha256: String,
    r: VideoInfo<F>,
)
    requires
        call_ensures(VideoShape::into_info::<F>, (shape, path, duration, fps, sha256), r),
    ensures
        r.width == shape.width && r.height == shape.height,
        r.path@ == path@ && r.sha256@ == sha256@,
        r.duration == duration && r.fps == fps,
{
}

/// Every word of a line lies within its bounds, and each bound is the edge of a word.
pub proof fn a_line_bounds_its_words(words: &[Edges], r: Option<Bounds>, k: int)
    requires
        call_ensures(union, (words,), r),
        0 <= k < words@.len(),
        words@[k].left <= words@[k].right,
    ensures
        r is Some,
        r->0.left < words@.len() && r->0.top < words@.len(),
        r->0.right < words@.len() && r->0.bottom < words@.len(),
        words@[r->0.left as int].left <= words@[k].left,
        words@[r->0.top as int].top <= words@[k].top,
        words@[r->0.right as int].right >= words@[k].right,
        words@[r->0.bottom as int].bottom >= words@[k].bottom,
{
    assert(words@[k].left <= words@[k].right);
    assert(has_extent(words@));
}

/// A line without words has no bounds.
pub proof fn a_line_without_words_has_no_bounds(words: &[Edges], r: Option<Bounds>)
    requires
        call_ensures(union, (words,), r),
        words@.len() == 0,
    ensures
        r is None,
{
}

/// The date of a day is the one that lies so many days behind the start of 1970.
pub proof fn a_day_has_its_date(days: u64, r: (u64, u64, u64), year: int, month: int, day: int)
    requires
        call_ensures(civil, (days,), r),
        valid(Date { year, month, day }),
        day_number(Date { year, month, day }) == days,
    ensures
        r.0 == year && r.1 == month && r.2 == day,
{
    crate::clock::day_number_is_injective(
        Date { year, month, day },
        Date { year: r.0 as int, month: r.1 as int, day: r.2 as int },
    );
}

/// A file that is there is shown or opened by its whole path; one that is gone is named.
pub proof fn a_file_is_shown_by_its_path(
    path: &str,
    exists: bool,
    folder: bool,
    r: Result<Vec<String>, Error>,
)
    requires
        call_ensures(show_args, (path, exists, folder), r),
    ensures
        r is Ok <==> exists,
        r is Ok ==> texts(r->Ok_0@).last() == path@,
        r is Ok && folder ==> texts(r->Ok_0@) == seq!["/select,"@, path@],
        r is Ok && !folder ==> texts(r->Ok_0@) == seq![path@],
        r is Err ==> path@.is_prefix_of(r->Err_0.text()),
{
    if !exists {
        assert(r->Err_0.text().take(path@.len() as int) =~= path@);
    }
}

/// A program bears its own name, among the binaries with the target behind it; on Windows both end in
/// `.exe`.
pub proof fn a_program_bears_its_name(
    name: &str,
    triple: &str,
    windows: bool,
    program: String,
    sidecar: String,
)
    requires
        call_ensures(program_name, (name, windows), program),
        call_ensures(sidecar_name, (name, triple, windows), sidecar),
    ensures
        !windows ==> program@ == name@ && sidecar@ == name@ + "-"@ + triple@,
        windows ==> program@ == name@ + ".exe"@ && sidecar@ == name@ + "-"@ + triple@ + ".exe"@,
{
    crate::tools::programs_end_in_exe_on_windows();
    if !windows {
        assert(program@ =~= name@);
        assert(sidecar@ =~= name@ + "-"@ + triple@);
    }
}

/// The error of a program that cannot be run names the program and the reason.
pub proof fn an_error_names_program_and_reason(path: &str, reason: &str, r: Error)
    requires
        call_ensures(cannot_run, (path, reason), r),
    ensures
        ("cannot run "@ + path@ + ": "@ + reason@).is_prefix_of(r.text()),
{
    let head = "cannot run "@ + path@ + ": "@ + reason@;
    assert(r.text().take(head.len() as int) =~= head);
}

/// A run starts with nothing read and at least one frame to be expected.
pub proof fn a_run_starts_with_nothing<F>(workers: usize, estimate: usize, r: OcrRun<F>)
    requires
        call_ensures(OcrRun::<F>::new, (workers, estimate), r),
    ensures
        r.workers == workers,
        r.done == 0,
        r.lines@.len() == 0,
        r.total >= 1 && r.total >= estimate,
        estimate >= 1 ==> r.total == estimate,
{
}

/// A reader starts at the first frame with nothing of it, and there is one for every frame whose
/// pixels fit into memory at four bytes each.
pub proof fn a_reader_starts_at_the_first_frame(width: u32, height: u32, fits: bool, r: FrameReader)
    requires
        call_ensures(FrameReader::fits, (width, height), fits),
        call_ensures(FrameReader::new, (width, height), r),
    ensures
        fits <==> 4 * (width as nat * height as nat) <= usize::MAX,
        r.width == width && r.height == height,
        r.frame == 0 && r.pending@.len() == 0,
{
    a_pixel_takes_four_bytes(width, height, 0, 0);
    crate::frames::a_reader_stands_at_its_frame(r);
}

/// A video is sampled only at a rate that is positive.
pub proof fn a_rate_is_positive(not_positive: bool, r: Result<(), Error>)
    requires
        call_ensures(check_rate, (not_positive,), r),
    ensures
        r is Ok <==> !not_positive,
{
}

/// The largest side is the one that the recogniser reports.
pub proof fn the_recogniser_says_how_much_it_takes(reported: Option<u32>, r: u32)
    requires
        call_ensures(max_dim, (reported,), r),
    ensures
        reported is Some ==> r == reported->0,
        reported is None ==> r == 2600,
{
}

}
