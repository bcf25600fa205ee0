//! The programs that do the work: where they lie, and what is said where they cannot be run.
//! Bundled, never resolved from `PATH`: a forensic workstation's `PATH` is not ours to assume, and
//! version drift changes filter behaviour.

use vstd::prelude::*;

use crate::error::Error;

verus! {

/// A text in upper case, as `str::to_uppercase` makes it.
pub uninterp spec fn uppercase(s: Seq<char>) -> Seq<char>;

/// `str::to_uppercase`; what it makes of a text is only named.
#[verifier::external_body]
fn to_uppercase(s: &str) -> (r: String)
    ensures
        r@ == uppercase(s@),
{
    s.to_uppercase()
}

/// The environment variable that overrides where a tool lies.
pub fn override_var(name: &str) -> (r: String)
    ensures
        r@ == "AUTOBLUR_"@ + uppercase(name@),
{
    override_var_of(to_uppercase(name).as_str())
}

/// The environment variable that overrides where a tool lies, given its name in upper case.
pub fn override_var_of(name: &str) -> (r: String)
    ensures
        r@ == "AUTOBLUR_"@ + name@,
{
    "AUTOBLUR_".to_owned().concat(name)
}

/// The ending of the name of a program.
pub open spec fn suffix(windows: bool) -> Seq<char> {
    if windows {
        ".exe"@
    } else {
        ""@
    }
}

fn suffix_of(windows: bool) -> (r: &'static str)
    ensures
        r@ == suffix(windows),
{
    if windows {
        ".exe"
    } else {
        ""
    }
}

/// The name of a tool's program.
pub fn program_name(name: &str, windows: bool) -> (r: String)
    ensures
        r@ == name@ + suffix(windows),
{
    name.to_owned().concat(suffix_of(windows))
}

/// The name of a tool's program for one target, as it lies among the binaries.
pub fn sidecar_name(name: &str, triple: &str, windows: bool) -> (r: String)
    ensures
        r@ == name@ + "-"@ + triple@ + suffix(windows),
{
    name.to_owned().concat("-").concat(triple).concat(suffix_of(windows))
}

/// Where a tool lies: where the override says, else beside the executable, if it is there, else
/// among the binaries. `P` is the type of paths.
pub fn tool<P>(overridden: Option<P>, beside: Option<P>, bundled: P) -> (r: P)
    ensures
        r == (match overridden {
            Some(path) => path,
            None => match beside {
                Some(path) => path,
                None => bundled,
            },
        }),
{
    match overridden {
        Some(path) => path,
        None => match beside {
            Some(path) => path,
            None => bundled,
        },
    }
}

/// The error for a program that cannot be run.
pub fn cannot_run(path: &str, reason: &str) -> (r: Error)
    ensures
        r.text() == "cannot run "@ + path@ + ": "@ + reason@
            + ". Put the bundled sidecars in src-tauri/binaries/ (see binaries/README.md)."@,
{
    Error(
        "cannot run ".to_owned().concat(path).concat(": ").concat(reason).concat(
            ". Put the bundled sidecars in src-tauri/binaries/ (see binaries/README.md).",
        ),
    )
}

/// A program's name ends in `.exe` on Windows, and has no ending elsewhere.
pub proof fn programs_end_in_exe_on_windows()
    ensures
        suffix(true) == ".exe"@,
        suffix(false) == Seq::<char>::empty(),
{
    reveal_strlit("");
    assert(""@ =~= Seq::<char>::empty());
}

}
