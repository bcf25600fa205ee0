//! What the window asks of the system: dialogs, and showing a file.

use vstd::prelude::*;

use crate::error::Error;
use crate::text::{slice_texts, strings, texts};

verus! {

/// The endings of the files that are offered as videos.
pub fn video_extensions() -> (r: Vec<String>)
    ensures
        texts(r@) == seq![
            "mp4"@,
            "mkv"@,
            "mov"@,
            "avi"@,
            "m4v"@,
            "mts"@,
            "webm"@,
            "wmv"@,
        ],
{
    let list: [&str; 8] = ["mp4", "mkv", "mov", "avi", "m4v", "mts", "webm", "wmv"];
    assert(slice_texts(list@) =~= seq![
        "mp4"@,
        "mkv"@,
        "mov"@,
        "avi"@,
        "m4v"@,
        "mts"@,
        "webm"@,
        "wmv"@,
    ]);
    strings(&list)
}

/// What a dialog for saving a file starts from.
pub struct SaveDialog {
    pub file_name: String,
    pub extension: String,
}

/// What a dialog for saving as `name` starts from; `file_name` and `extension` are those of
/// `name`, where it has them.
pub fn save_dialog(name: String, file_name: Option<String>, extension: Option<String>) -> (r:
    SaveDialog)
    ensures
        r.file_name == (match file_name {
            Some(f) => f,
            None => name,
        }),
        r.extension@ == (match extension {
            Some(e) => e@,
            None => "json"@,
        }),
{
    SaveDialog {
        file_name: match file_name {
            Some(f) => f,
            None => name,
        },
        extension: match extension {
            Some(e) => e,
            None => "json".to_owned(),
        },
    }
}

/// The arguments with which the file manager shows a file in its folder, or opens it. A file that
/// is not there is refused.
pub fn show_args(path: &str, exists: bool, folder: bool) -> (r: Result<Vec<String>, Error>)
    ensures
        r is Ok <==> exists,
        match r {
            Ok(args) => texts(args@) == (if folder {
                seq!["/select,"@, path@]
            } else {
                seq![path@]
            }),
            Err(e) => e.text() == path@ + " is gone"@,
        },
{
    if !exists {
        return Err(Error(path.to_owned().concat(" is gone")));
    }
    if folder {
        let list: [&str; 2] = ["/select,", path];
        assert(slice_texts(list@) =~= seq!["/select,"@, path@]);
        Ok(strings(&list))
    } else {
        let list: [&str; 1] = [path];
        assert(slice_texts(list@) =~= seq![path@]);
        Ok(strings(&list))
    }
}

}
