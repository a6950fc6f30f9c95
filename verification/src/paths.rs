//! Where Beacon keeps a profile on disk.

use vstd::prelude::*;
use crate::tab::opt_string_view;

verus! {

/// The directory under the platform's data directory that holds the profile.
pub open spec fn profile_dir_name() -> Seq<char> {
    "gosub-beacon"@
}

/// `dirs::data_dir`, as text. It reads the environment and the platform's conventions, so
/// nothing is claimed of the result. A data directory whose name is not valid UTF-8 cannot
/// be held as text and comes back as `None`.
#[verifier::external_body]
fn platform_data_dir() -> (res: Option<String>) {
    match dirs::data_dir() {
        Some(dir) => dir.into_os_string().into_string().ok(),
        None => None,
    }
}

/// Whether `base` starts with Windows' verbatim prefix `\\?\`.
pub open spec fn verbatim_prefixed(base: Seq<char>) -> bool {
    base.len() >= 4 && base.take(4) == seq!['\\', '\\', '?', '\\']
}

/// What joining the relative `name` onto `base` gives: the name alone onto an empty base;
/// the base and the name when the base already ends in `/`; otherwise the base, then the
/// platform's separator where one is needed (`/`, or `\` on Windows), then the name.
pub open spec fn joined(base: Seq<char>, name: Seq<char>, res: Seq<char>) -> bool {
    if base.len() == 0 {
        res == name
    } else if base.last() == '/' {
        res == base + name
    } else {
        res == base + name || res == base + seq!['/'] + name || res == base + seq!['\\'] + name
    }
}

/// A plain relative path component: non-empty, and made of ASCII letters, digits, `-`
/// and `_` only (so no separator, no drive colon, and not `.` or `..`).
pub open spec fn plain_name(name: Seq<char>) -> bool {
    name.len() > 0 && forall|i: int| 0 <= i < name.len() ==> {
        let c = #[trigger] name[i];
        ('a' <= c && c <= 'z') || ('A' <= c && c <= 'Z') || ('0' <= c && c <= '9') || c == '-' || c == '_'
    }
}

/// `Path::join` with a plain relative name, as text. Claimed: the name is what the result
/// ends with (`Path::join` puts it last), and, for a base without Windows' verbatim
/// prefix, the result is `joined(base, name, _)`. Not claimed: what a verbatim base turns
/// into before the name, since `Path::join` normalizes it first; nor which separator the
/// platform writes.
#[verifier::external_body]
fn join_path(base: &str, name: &str) -> (res: String)
    requires
        plain_name(name@),
    ensures
        name@.is_suffix_of(res@),
        !verbatim_prefixed(base@) ==> joined(base@, name@, res@),
{
    std::path::Path::new(base).join(name).to_string_lossy().into_owned()
}

/// Whether `res` is the profile directory for `--user-data-dir` and the platform's data
/// directory `base`: the given directory when there is one (so a scratch profile leaves
/// the real one alone), else `gosub-beacon` joined onto `base` (for a base with Windows'
/// verbatim prefix, a path ending in `gosub-beacon`), else the working directory.
pub open spec fn is_profile_dir(res: Seq<char>, user_data_dir: Option<Seq<char>>, base: Option<Seq<char>>) -> bool {
    match user_data_dir {
        Some(dir) => res == dir,
        None => match base {
            Some(b) => if verbatim_prefixed(b) {
                profile_dir_name().is_suffix_of(res)
            } else {
                joined(b, profile_dir_name(), res)
            },
            None => res == "."@,
        },
    }
}

/// The profile directory for a command line's `--user-data-dir` and the platform's data
/// directory `base`.
pub fn profile_dir_with(user_data_dir: Option<String>, base: Option<String>) -> (res: String)
    ensures
        is_profile_dir(res@, opt_string_view(user_data_dir), opt_string_view(base)),
        user_data_dir is None ==> res@ == "."@ || profile_dir_name().is_suffix_of(res@),
{
    match user_data_dir {
        Some(dir) => dir,
        None => match base {
            Some(b) => {
                proof {
                    reveal_strlit("gosub-beacon");
                }
                join_path(b.as_str(), "gosub-beacon")
            },
            None => {
                proof {
                    reveal_strlit(".");
                }
                ".".to_string()
            },
        },
    }
}

/// The profile directory for a command line's `--user-data-dir`, asking the platform for
/// its data directory when none was given. Which directory that is depends on the
/// environment; a given `--user-data-dir` is always the answer, and otherwise the answer
/// is the profile directory for some platform data directory (or none): the working
/// directory `.`, or a path ending in `gosub-beacon`.
pub fn profile_dir(user_data_dir: Option<String>) -> (res: String)
    ensures
        user_data_dir matches Some(d) ==> res@ == d@,
        user_data_dir is None ==> res@ == "."@ || profile_dir_name().is_suffix_of(res@),
        user_data_dir is None ==> exists|base: Option<Seq<char>>| #[trigger] is_profile_dir(res@, None, base),
{
    match user_data_dir {
        Some(dir) => dir,
        None => {
            let base = platform_data_dir();
            let ghost b = opt_string_view(base);
            let res = profile_dir_with(None, base);
            assert(is_profile_dir(res@, None, b));
            res
        },
    }
}

} // verus!
