//! Rendering the redacted copy.

use vstd::prelude::*;

use crate::error::Error;
use crate::ffmpeg::{diagnostic, readable_error};
use crate::probe::VideoInfo;
use crate::text::{
    blank, contains, decimal, decimal_is_injective, is_blank_str, lemma_digits, number, occurs,
    slice_texts, strings, texts, white,
};

verus! {

/// What was done to a video, for the log. `F` is the type of durations.
pub struct ExportReport<F> {
    pub input: String,
    pub input_sha256: String,
    pub output: String,
    pub output_sha256: String,
    pub tool_version: String,
    pub ffmpeg: String,
    pub command: Vec<String>,
    pub filtergraph: String,
    pub duration: F,
    pub derivative: String,
}

/// The ways to hand ffmpeg a filtergraph from a file.
pub const FLAGS: usize = 2;

/// Ways to hand ffmpeg a filtergraph from a file, newest first. `-/filter:v` is the generic "read
/// this option's value from a file" syntax (ffmpeg 7.0+); `-filter_script:v` is the old spelling,
/// removed in ffmpeg 8.
pub open spec fn flag_text(flag: usize) -> Seq<char> {
    if flag == 0 {
        "-/filter:v"@
    } else {
        "-filter_script:v"@
    }
}

/// The arguments with which ffmpeg renders `input` to `output`, filtered by the graph in the file
/// `script`. The source's metadata, its chapters, and every subtitle and data stream are dropped: a
/// subtitle track can spell out the very text that the bars cover.
pub open spec fn encode_command(
    input: Seq<char>,
    flag: usize,
    script: Seq<char>,
    output: Seq<char>,
) -> Seq<Seq<char>> {
    seq![
        "-hide_banner"@,
        "-nostdin"@,
        "-y"@,
        "-i"@,
        input,
        flag_text(flag),
        script,
        "-c:v"@,
        "libx264"@,
        "-crf"@,
        "18"@,
        "-preset"@,
        "veryfast"@,
        "-c:a"@,
        "copy"@,
        "-map_metadata"@,
        "-1"@,
        "-map_chapters"@,
        "-1"@,
        "-sn"@,
        "-dn"@,
        output,
    ]
}

/// What the report says of the output.
pub open spec fn derivative_text() -> Seq<char> {
    "Output is a derivative exhibit: re-encoded with libx264 -crf 18, not a bit-exact copy of the input."@
}

/// How a run of the encoder ended.
pub enum EncodeEnd {
    Succeeded,
    /// With the end of what it printed.
    Failed { tail: String },
    /// The user has stopped it.
    Cancelled,
}

/// How a run of the encoder ended, given whether it succeeded, whether the user has asked to stop
/// and the end of what it printed. A copy that is complete counts, even if it should have been
/// stopped.
pub fn encode_end(success: bool, cancelled: bool, tail: String) -> (r: EncodeEnd)
    ensures
        success ==> r is Succeeded,
        !success && cancelled ==> r is Cancelled,
        !success && !cancelled ==> r == (EncodeEnd::Failed { tail }),
{
    if success {
        EncodeEnd::Succeeded
    } else if cancelled {
        EncodeEnd::Cancelled
    } else {
        EncodeEnd::Failed { tail }
    }
}

/// What is to be done after a run of the encoder.
pub enum ExportAction {
    /// The copy is rendered: report it.
    Report,
    /// Run the encoder again.
    Retry,
    /// Give up with this error.
    Fail(Error),
}

/// A copy that is being rendered. The graph goes in via a file, never inline: it contains escaped
/// commas and Windows argument quoting mangles them.
pub struct Export {
    pub input: String,
    pub output: String,
    pub filtergraph: String,
    /// The way in which the graph is handed over. Which one works depends on the ffmpeg at hand:
    /// an option that it does not recognise fails at once, before any encoding, so the retry
    /// costs nothing.
    pub flag: usize,
}

impl Export {
    /// There is something to redact, a way to say so, and an output that is not the input.
    pub open spec fn wf(&self) -> bool {
        &&& self.flag < FLAGS
        &&& !blank(self.filtergraph@)
        &&& self.input@ != self.output@
    }

    /// Refuses an empty graph and an output that is the input: by its name, or because `same_path`
    /// says that both names lead to one file. `flag` is the way that worked last.
    pub fn new(
        input: String,
        output: String,
        filtergraph: String,
        same_path: bool,
        flag: usize,
    ) -> (r: Result<Self, Error>)
        requires
            flag < FLAGS,
        ensures
            r is Ok <==> !blank(filtergraph@) && !same_path && input@ != output@,
            match r {
                Ok(export) => {
                    &&& export.wf()
                    &&& export == (Export { input, output, filtergraph, flag })
                },
                Err(e) => e.text() == (if blank(filtergraph@) {
                    "empty filtergraph — nothing to redact"@
                } else {
                    "refusing to overwrite the input: the input is evidence and is opened read-only"@
                }),
            },
    {
        if is_blank_str(filtergraph.as_str()) {
            return Err(Error("empty filtergraph — nothing to redact".to_owned()));
        }
        if same_path || input == output {
            return Err(
                Error(
                    "refusing to overwrite the input: the input is evidence and is opened read-only".to_owned(),
                ),
            );
        }
        Ok(Export { input, output, filtergraph, flag })
    }

    /// The arguments for the encoder; the graph is in the file `script`.
    pub fn args(&self, script: &str) -> (r: Vec<String>)
        requires
            self.wf(),
        ensures
            texts(r@) == encode_command(self.input@, self.flag, script@, self.output@),
    {
        let list: [&str; 22] = [
            "-hide_banner",
            "-nostdin",
            "-y",
            "-i",
            self.input.as_str(),
            if self.flag == 0 {
                "-/filter:v"
            } else {
                "-filter_script:v"
            },
            script,
            "-c:v",
            "libx264",
            "-crf",
            "18",
            "-preset",
            "veryfast",
            "-c:a",
            "copy",
            "-map_metadata",
            "-1",
            "-map_chapters",
            "-1",
            "-sn",
            "-dn",
            self.output.as_str(),
        ];
        assert(slice_texts(list@) =~= encode_command(
            self.input@,
            self.flag,
            script@,
            self.output@,
        ));
        strings(&list)
    }

    /// What is to be done after a run of the encoder: where it did not recognise the way in which
    /// the graph was handed over, the next way is tried.
    pub fn step(&mut self, end: EncodeEnd) -> (r: ExportAction)
        requires
            old(self).wf(),
        ensures
            final(self).wf(),
            final(self).input == old(self).input,
            final(self).output == old(self).output,
            final(self).filtergraph == old(self).filtergraph,
            match end {
                EncodeEnd::Succeeded => r is Report && final(self).flag == old(self).flag,
                EncodeEnd::Failed { tail } => if old(self).flag + 1 < FLAGS && occurs(
                    tail@,
                    "Unrecognized option"@,
                ) {
                    r is Retry && final(self).flag == old(self).flag + 1
                } else {
                    &&& r is Fail
                    &&& r->Fail_0.text() == "ffmpeg export failed:\n"@ + diagnostic(tail@)
                    &&& final(self).flag == old(self).flag
                },
                EncodeEnd::Cancelled => {
                    &&& r is Fail
                    &&& r->Fail_0.text() == "export cancelled"@
                    &&& final(self).flag == old(self).flag
                },
            },
    {
        match end {
            EncodeEnd::Succeeded => ExportAction::Report,
            EncodeEnd::Failed { tail } => {
                if self.flag + 1 < FLAGS && contains(tail.as_str(), "Unrecognized option") {
                    self.flag = self.flag + 1;
                    return ExportAction::Retry;
                }
                ExportAction::Fail(
                    Error(
                        "ffmpeg export failed:\n".to_owned().concat(
                            readable_error(tail.as_str()).as_str(),
                        ),
                    ),
                )
            },
            EncodeEnd::Cancelled => ExportAction::Fail(Error("export cancelled".to_owned())),
        }
    }

    /// The report on the copy. `script` is the file that held the graph, `program` the encoder,
    /// `ffmpeg` its version and `tool_version` that of this tool.
    pub fn report<F>(
        self,
        info: VideoInfo<F>,
        script: &str,
        program: &str,
        ffmpeg: String,
        tool_version: String,
        output_sha256: String,
    ) -> (r: ExportReport<F>)
        requires
            self.wf(),
        ensures
            r.input == self.input,
            r.input_sha256 == info.sha256,
            r.output == self.output,
            r.output_sha256 == output_sha256,
            r.tool_version == tool_version,
            r.ffmpeg == ffmpeg,
            texts(r.command@) == seq![program@] + encode_command(
                self.input@,
                self.flag,
                script@,
                self.output@,
            ),
            r.filtergraph == self.filtergraph,
            r.duration == info.duration,
            r.derivative@ == derivative_text(),
            r.derivative@
                == "Output is a derivative exhibit: re-encoded with libx264 -crf 18, not a bit-exact copy of the input."@,
    {
        let mut command: Vec<String> = Vec::new();
        command.push(program.to_owned());
        let mut args = self.args(script);
        let ghost rest = args@;
        command.append(&mut args);
        assert(texts(command@) =~= seq![program@] + texts(rest));
        ExportReport {
            input: self.input,
            input_sha256: info.sha256,
            output: self.output,
            output_sha256,
            tool_version,
            ffmpeg,
            command,
            filtergraph: self.filtergraph,
            duration: info.duration,
            derivative: "Output is a derivative exhibit: re-encoded with libx264 -crf 18, not a bit-exact copy of the input.".to_owned(),
        }
    }
}

/// The command holds an option with the given value behind it.
pub open spec fn sets(command: Seq<Seq<char>>, option: Seq<char>, value: Seq<char>) -> bool {
    exists|i: int|
        0 <= i < command.len() - 1 && #[trigger] command[i] == option && command[i + 1] == value
}

/// The copy carries none of the source's metadata, none of its chapters, and no subtitle or data
/// stream: the encoder is told to take each from nowhere.
pub proof fn an_export_strips_its_source(export: Export, script: Seq<char>)
    ensures
        ({
            let command = encode_command(export.input@, export.flag, script, export.output@);
            &&& sets(command, "-map_metadata"@, "-1"@)
            &&& sets(command, "-map_chapters"@, "-1"@)
            &&& command.contains("-map_metadata"@)
            &&& command.contains("-map_chapters"@)
            &&& command.contains("-sn"@)
            &&& command.contains("-dn"@)
        }),
{
    let command = encode_command(export.input@, export.flag, script, export.output@);
    assert(command[15] == "-map_metadata"@ && command[16] == "-1"@);
    assert(command[17] == "-map_chapters"@ && command[18] == "-1"@);
    assert(command[19] == "-sn"@ && command[20] == "-dn"@);
}

/// The encoder gets the file to read, the file that holds the graph, each under its own name, and how
/// to encode: the whole command, for every input, output and script.
pub proof fn the_encoder_is_told_what_to_do(
    input: Seq<char>,
    flag: usize,
    script: Seq<char>,
    output: Seq<char>,
)
    ensures
        ({
            let command = encode_command(input, flag, script, output);
            let option = if flag == 0 {
                "-/filter:v"@
            } else {
                "-filter_script:v"@
            };
            &&& command.len() == 22
            &&& command.take(4) == seq!["-hide_banner"@, "-nostdin"@, "-y"@, "-i"@]
            &&& command[4] == input
            &&& command[5] == option && command[6] == script
            &&& sets(command, "-i"@, input)
            &&& sets(command, option, script)
            &&& sets(command, flag_text(flag), script)
            &&& sets(command, "-c:v"@, "libx264"@)
            &&& sets(command, "-crf"@, "18"@)
            &&& sets(command, "-preset"@, "veryfast"@)
            &&& sets(command, "-c:a"@, "copy"@)
            &&& command.subrange(7, 15) == seq![
                "-c:v"@,
                "libx264"@,
                "-crf"@,
                "18"@,
                "-preset"@,
                "veryfast"@,
                "-c:a"@,
                "copy"@,
            ]
            &&& command.subrange(15, 21) == seq![
                "-map_metadata"@,
                "-1"@,
                "-map_chapters"@,
                "-1"@,
                "-sn"@,
                "-dn"@,
            ]
            &&& command.last() == output
        }),
{
    let command = encode_command(input, flag, script, output);
    assert(command.take(4) =~= seq!["-hide_banner"@, "-nostdin"@, "-y"@, "-i"@]);
    assert(command.subrange(7, 15) =~= seq![
        "-c:v"@,
        "libx264"@,
        "-crf"@,
        "18"@,
        "-preset"@,
        "veryfast"@,
        "-c:a"@,
        "copy"@,
    ]);
    assert(command.subrange(15, 21) =~= seq![
        "-map_metadata"@,
        "-1"@,
        "-map_chapters"@,
        "-1"@,
        "-sn"@,
        "-dn"@,
    ]);
    assert(command[3] == "-i"@ && command[4] == input);
    assert(command[5] == flag_text(flag) && command[6] == script);
    assert(command[7] == "-c:v"@ && command[8] == "libx264"@);
    assert(command[9] == "-crf"@ && command[10] == "18"@);
    assert(command[11] == "-preset"@ && command[12] == "veryfast"@);
    assert(command[13] == "-c:a"@ && command[14] == "copy"@);
}

/// An option is set where its value stands right behind it, and nowhere else.
pub proof fn a_value_stands_behind_its_option(
    front: Seq<Seq<char>>,
    option: Seq<char>,
    value: Seq<char>,
    back: Seq<Seq<char>>,
    command: Seq<Seq<char>>,
)
    ensures
        sets(front + seq![option, value] + back, option, value),
        sets(command, option, value) ==> exists|i: int|
            0 <= i < command.len() - 1 && #[trigger] command[i] == option && command[i + 1] == value,
{
    let all = front + seq![option, value] + back;
    let i = front.len() as int;
    assert(all[i] == option && all[i + 1] == value);
}

/// The file that holds a graph is a text file of this program's, named by the process and the export.
pub proof fn a_script_is_named_by_process_and_export(pid: nat, export: nat)
    ensures
        script_text(pid, export) == "autoblur-boxes-"@ + decimal(pid) + "-"@ + decimal(export)
            + ".txt"@,
        "autoblur-boxes-"@.is_prefix_of(script_text(pid, export)),
        ".txt"@.is_suffix_of(script_text(pid, export)),
{
    let s = script_text(pid, export);
    let head = "autoblur-boxes-"@;
    let tail = ".txt"@;
    assert(s.take(head.len() as int) =~= head);
    assert(s.skip(s.len() - tail.len()) =~= tail);
}

/// An export that may run has a graph with something in it, a known way to hand it over, and an
/// output that is not its input.
pub proof fn an_export_that_may_run(export: Export)
    ensures
        export.wf() <==> export.flag < 2 && export.input@ != export.output@ && exists|i: int|
            0 <= i < export.filtergraph@.len() && !white(#[trigger] export.filtergraph@[i]),
{
}

/// The encoder is never told to write to the file that it reads.
pub proof fn an_export_spares_its_input(export: Export, script: Seq<char>)
    requires
        export.wf(),
    ensures
        ({
            let command = encode_command(export.input@, export.flag, script, export.output@);
            &&& command[4] == export.input@
            &&& command.last() == export.output@
            &&& command[4] != command.last()
        }),
{
}

/// The name of the file that holds a graph while it is rendered.
pub open spec fn script_text(pid: nat, export: nat) -> Seq<char> {
    "autoblur-boxes-"@ + decimal(pid) + "-"@ + decimal(export) + ".txt"@
}

/// The name of the file that holds a graph: the process alone is not unique enough, two exports
/// in one process would share the file, and one would delete it while the other's ffmpeg is still
/// reading it.
pub fn script_name(pid: u32, export: usize) -> (r: String)
    ensures
        r@ == script_text(pid as nat, export as nat),
{
    let mut name = "autoblur-boxes-".to_owned();
    name.append(number(pid as u64).as_str());
    name.append("-");
    name.append(number(export as u64).as_str());
    name.append(".txt");
    name
}

/// No two exports share the file of their graph.
pub proof fn script_names_differ(pid: nat, export: nat, other_pid: nat, other_export: nat)
    requires
        script_text(pid, export) == script_text(other_pid, other_export),
    ensures
        pid == other_pid,
        export == other_export,
{
    let head = "autoblur-boxes-"@;
    let a = decimal(pid);
    let b = decimal(other_pid);
    let s = script_text(pid, export);
    reveal_strlit("-");
    reveal_strlit(".txt");
    lemma_digits(pid);
    lemma_digits(other_pid);
    let h = head.len() as int;
    assert(s[h + a.len()] == '-');
    assert(script_text(other_pid, other_export)[h + b.len()] == '-');
    assert forall|i: int| 0 <= i < a.len() implies s[h + i] == #[trigger] a[i] by {}
    assert forall|i: int| 0 <= i < b.len() implies s[h + i] == #[trigger] b[i] by {
        assert(script_text(other_pid, other_export)[h + i] == b[i]);
    }
    if a.len() < b.len() {
        assert(b[a.len() as int] != '-');
    } else if b.len() < a.len() {
        assert(a[b.len() as int] != '-');
    }
    assert(a =~= b);
    decimal_is_injective(pid, other_pid);
    let c = decimal(export);
    let d = decimal(other_export);
    assert(s.len() == h + a.len() + 1 + c.len() + 4);
    assert(script_text(other_pid, other_export).len() == h + b.len() + 1 + d.len() + 4);
    let k = h + a.len() + 1;
    assert forall|i: int| 0 <= i < c.len() implies c[i] == d[i] by {
        assert(s[k + i] == c[i]);
        assert(script_text(other_pid, other_export)[k + i] == d[i]);
    }
    assert(c =~= d);
    decimal_is_injective(export, other_export);
}

/// The log that lies beside a rendered copy.
pub fn log_path(output: &str) -> (r: String)
    ensures
        r@ == output@ + ".redaction-log.json"@,
{
    output.to_owned().concat(".redaction-log.json")
}

}
