//! The log that lies beside a rendered copy.

use vstd::prelude::*;

use crate::clock::{clock_says, iso_text, now_iso};
use crate::error::Error;
use crate::json::{
    is_null, is_object, json_from_str, json_pretty, json_tree, member, parse_text, pretty, set_member,
    takes_members, text_value, with_member, Json,
};

verus! {

/// Whether entries can be added to the document.
pub fn takes_entries(document: &serde_json::Value) -> (r: bool)
    ensures
        r == takes_members(json_tree(*document)),
{
    is_object(document) || is_null(document)
}

/// The result is the printed document, or the error with the printer's message.
pub open spec fn printed(r: Result<String, Error>, json: Json) -> bool {
    match r {
        Ok(text) => json_pretty(json) == Ok::<Seq<char>, Seq<char>>(text@),
        Err(e) => json_pretty(json) == Err::<Seq<char>, Seq<char>>(e.text()),
    }
}

fn print(document: &serde_json::Value) -> (r: Result<String, Error>)
    ensures
        printed(r, json_tree(*document)),
{
    match pretty(document) {
        Ok(text) => Ok(text),
        Err(message) => Err(Error(message)),
    }
}

/// A log with one entry more, or with another value for it, printed.
pub fn with_entry(log: serde_json::Value, key: &str, value: serde_json::Value) -> (r: Result<
    String,
    Error,
>)
    requires
        takes_members(json_tree(log)),
    ensures
        printed(r, with_member(json_tree(log), key@, json_tree(value))),
{
    let mut log = log;
    set_member(&mut log, key, value);
    print(&log)
}

/// Folds an entry into the text of a log: the new text, or `None` where the text holds something
/// that takes no entries.
pub fn append_log(text: &str, key: &str, value: serde_json::Value) -> (r: Result<
    Option<String>,
    Error,
>)
    ensures
        match json_from_str(text@) {
            Err(message) => r is Err && r->Err_0.text() == message,
            Ok(json) => if !takes_members(json) {
                r == Ok::<Option<String>, Error>(None)
            } else {
                match r {
                    Ok(log) => log is Some && json_pretty(
                        with_member(json, key@, json_tree(value)),
                    ) == Ok::<Seq<char>, Seq<char>>(log->0@),
                    Err(e) => json_pretty(with_member(json, key@, json_tree(value))) == Err::<
                        Seq<char>,
                        Seq<char>,
                    >(e.text()),
                }
            },
        },
{
    let log = match parse_text(text) {
        Ok(log) => log,
        Err(message) => return Err(Error(message)),
    };
    if !takes_entries(&log) {
        return Ok(None);
    }
    match with_entry(log, key, value) {
        Ok(text) => Ok(Some(text)),
        Err(e) => Err(e),
    }
}

/// The log of an export: the report with what the caller adds and the time of writing.
pub open spec fn log_tree(report: Json, meta: Json, written: Seq<char>) -> Json {
    with_member(with_member(report, "meta"@, meta), "written"@, Json::Text(written))
}

/// The text of the log of an export, written at the given time.
pub fn log_text(report: serde_json::Value, meta: serde_json::Value, written: String) -> (r: Result<
    String,
    Error,
>)
    requires
        takes_members(json_tree(report)),
    ensures
        printed(r, log_tree(json_tree(report), json_tree(meta), written@)),
{
    let mut log = report;
    set_member(&mut log, "meta", meta);
    set_member(&mut log, "written", text_value(written));
    print(&log)
}

/// The text of the log of an export, written now: the artefact that answers "what exactly did you
/// do to this video". `None` where the report takes no entries.
pub fn redaction_log(report: serde_json::Value, meta: serde_json::Value) -> (r: Option<
    Result<String, Error>,
>)
    ensures
        r is Some <==> takes_members(json_tree(report)),
        r matches Some(log) ==> exists|seconds: u64|
            clock_says(seconds) && printed(
                log,
                log_tree(json_tree(report), json_tree(meta), #[trigger] iso_text(seconds as nat)),
            ),
{
    if !takes_entries(&report) {
        return None;
    }
    Some(log_text(report, meta, now_iso()))
}

/// Setting an entry gives it its value and leaves the others as they are.
pub proof fn an_entry_leaves_the_others(log: Json, key: Seq<char>, value: Json, other: Seq<char>)
    requires
        takes_members(log),
    ensures
        member(with_member(log, key, value), key) == value,
        other != key ==> member(with_member(log, key, value), other) == member(log, other),
{
}

/// The log of an export says what the report says, and besides it only what the caller adds and the
/// time of writing.
pub proof fn a_log_keeps_the_report(report: Json, meta: Json, written: Seq<char>, key: Seq<char>)
    requires
        takes_members(report),
    ensures
        member(log_tree(report, meta, written), "meta"@) == meta,
        member(log_tree(report, meta, written), "written"@) == Json::Text(written),
        key != "meta"@ && key != "written"@ ==> member(log_tree(report, meta, written), key)
            == member(report, key),
{
    reveal_strlit("meta");
    reveal_strlit("written");
    assert("meta"@.len() != "written"@.len());
}

/// What is written is the printer's text of the document, and what is refused bears its message.
pub proof fn what_is_written_is_the_document(r: Result<String, Error>, json: Json)
    requires
        printed(r, json),
    ensures
        r is Ok <==> json_pretty(json) is Ok,
        r is Ok ==> r->Ok_0@ == json_pretty(json)->Ok_0,
        r is Err ==> r->Err_0.text() == json_pretty(json)->Err_0,
{
}

}
