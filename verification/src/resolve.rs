//! Resolving paths through the file system.
//!
//! A `Resolution` is made in this module alone, by `canonicalize`, so each
//! one stands for what the file system gave for the path it came from.

use vstd::prelude::*;

verus! {

/// A path that starts at a root: with `/` on Unix, and with `\` on Windows,
/// where a resolved path has the extended-length form `\\?\C:\...`.
pub open spec fn is_absolute(p: Seq<char>) -> bool {
    p.len() > 0 && (p[0] == '/' || p[0] == '\\')
}

/// What resolving one path gave: its canonical form, or nothing where it
/// could not be resolved.
pub struct Resolution {
    outcome: Option<String>,
    from: Ghost<Seq<char>>,
}

impl Resolution {
    /// The path that was resolved.
    pub closed spec fn from(&self) -> Seq<char> {
        self.from@
    }

    /// What resolving it gave.
    pub closed spec fn outcome(&self) -> Option<String> {
        self.outcome
    }

    /// What resolving the path gave.
    pub fn into_outcome(self) -> (res: Option<String>)
        ensures
            res == self.outcome(),
    {
        self.outcome
    }
}

/// `outcome` is what a resolution of the path `given` gave: since only
/// `canonicalize` makes a `Resolution`, one that came from `given`. A
/// resolved path is absolute.
pub open spec fn resolves_to(given: Seq<char>, outcome: Option<String>) -> bool {
    exists|r: Resolution|
        #[trigger] r.from() == given && r.outcome() == outcome && (outcome matches Some(p)
            ==> is_absolute(p@))
}

/// `Path::canonicalize`: the absolute form of `path` with every link
/// resolved, as text, or `None` when that fails, as it does for a file that
/// does not exist. The resolution records that it came from `path`. Which
/// path it gives depends on the file system; all that is stated of it is
/// what the documentation promises of every outcome, that the path is
/// absolute (rooted at `/`, or on Windows in the `\\?\` form).
#[verifier::external_body]
pub(crate) fn canonicalize(path: &String) -> (res: Resolution)
    ensures
        res.from() == path@,
        res.outcome() matches Some(p) ==> is_absolute(p@),
{
    let outcome = match std::path::Path::new(path.as_str()).canonicalize() {
        Ok(p) => Some(p.to_string_lossy().into_owned()),
        Err(_) => None,
    };
    Resolution { outcome, from: Ghost(path@) }
}

} // verus!
