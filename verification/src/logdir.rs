//! Where the program keeps its log: the user's state directory, chosen from
//! the environment's values, which the program reads and hands in.

use vstd::prelude::*;

use crate::render::image::{join_paths, opt_view, path_join};

verus! {

/// Whether a path, as text, is absolute, as `Path::is_absolute` decides it.
pub uninterp spec fn path_is_absolute(p: Seq<char>) -> bool;

/// `Path::is_absolute` of std, on a path given as text. Its result depends on
/// the path alone, under the path rules of the platform the program is built for.
#[verifier::external_body]
fn is_absolute(p: &str) -> (r: bool)
    ensures
        r == path_is_absolute(p@),
{
    std::path::Path::new(p).is_absolute()
}

/// A directory from the environment, if it is set and absolute; a relative
/// value is ignored.
pub open spec fn usable(v: Option<Seq<char>>) -> Option<Seq<char>> {
    match v {
        Some(p) => if path_is_absolute(p) { Some(p) } else { None },
        None => None,
    }
}

/// The log directory for the values of `XDG_STATE_HOME`, `HOME` and
/// `LOCALAPPDATA`: `$XDG_STATE_HOME/lazymd`, falling back to
/// `$HOME/.local/state/lazymd`, then `%LOCALAPPDATA%\lazymd`; `None` when
/// none of them is set to an absolute path.
pub open spec fn spec_log_dir(xdg: Option<Seq<char>>, home: Option<Seq<char>>, local: Option<Seq<char>>) -> Option<Seq<char>> {
    let base = match usable(xdg) {
        Some(d) => Some(d),
        None => match usable(home) {
            Some(h) => Some(path_join(path_join(h, ".local"@), "state"@)),
            None => usable(local),
        },
    };
    match base {
        Some(d) => Some(path_join(d, "lazymd"@)),
        None => None,
    }
}

/// The value of an environment variable, kept only if it is an absolute path.
fn usable_dir(v: Option<String>) -> (r: Option<String>)
    ensures
        opt_view(r) == usable(opt_view(v)),
{
    match v {
        Some(p) => if is_absolute(p.as_str()) { Some(p) } else { None },
        None => None,
    }
}

/// Where the log file lives, for the values of `XDG_STATE_HOME`, `HOME` and
/// `LOCALAPPDATA` (`None` for one that is unset).
pub fn log_dir_from(xdg: Option<String>, home: Option<String>, local: Option<String>) -> (r: Option<String>)
    ensures
        opt_view(r) == spec_log_dir(opt_view(xdg), opt_view(home), opt_view(local)),
{
    let base = match usable_dir(xdg) {
        Some(d) => Some(d),
        None => match usable_dir(home) {
            Some(h) => {
                let dot = join_paths(h.as_str(), ".local");
                Some(join_paths(dot.as_str(), "state"))
            },
            None => usable_dir(local),
        },
    };
    match base {
        Some(d) => Some(join_paths(d.as_str(), "lazymd")),
        None => None,
    }
}

} // verus!
