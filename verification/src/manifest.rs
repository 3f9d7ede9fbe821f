//! The manifest: which repositories to watch, how far back to look, and
//! which diff viewer to use.  Reading the file and decoding its markup
//! belong to the surrounding program; the checks and the resolution of
//! the "since" description are here.
use crate::datetime::DateTime;
use crate::difftool::Difftool;
use crate::time::{parse_relative, parse_relative_accepts, parse_relative_result};
use vstd::prelude::*;

verus! {

/// How commit instants are rendered for display.
#[derive(Clone, Copy, Debug, PartialEq, Eq, Structural)]
pub enum TimeZoneCast {
    AsIs,
    Local,
    Utc,
}

impl Default for TimeZoneCast {
    /// Instants are shown as they come unless configured otherwise.
    fn default() -> (r: Self)
        ensures
            r == TimeZoneCast::AsIs,
    {
        TimeZoneCast::AsIs
    }
}

/// One configured remote repository.
#[derive(Debug)]
pub struct Remote {
    pub name: String,
    pub origin: String,
    pub branch: Option<String>,
}

impl Clone for Remote {
    /// A clone carries the very same remote.
    fn clone(&self) -> (r: Self)
        ensures
            r == *self,
    {
        Remote {
            name: self.name.clone(),
            origin: self.origin.clone(),
            branch: match &self.branch {
                Some(b) => Some(b.clone()),
                None => None,
            },
        }
    }
}

/// The configuration a run starts from.
#[derive(Debug)]
pub struct Manifest {
    pub difftool: Difftool,
    pub since: String,
    pub timezones: TimeZoneCast,
    pub since_datetime: Option<DateTime>,
    pub remotes: Vec<(String, Remote)>,
    pub root: Option<String>,
}

/// The template of the stock difftool command.
pub fn default_difftool() -> (r: String)
    ensures
        r@ == "git difftool -g -y ${DIFF}"@,
{
    "git difftool -g -y ${DIFF}".to_owned()
}

impl Default for Manifest {
    /// A manifest with no remotes, looking one week back, using the
    /// stock difftool.
    fn default() -> (r: Self)
        ensures
            r.difftool == Difftool::Git,
            r.since@ == "1 week ago"@,
            r.timezones == TimeZoneCast::AsIs,
            r.since_datetime is None,
            r.remotes@.len() == 0,
            r.root is None,
    {
        Manifest {
            difftool: Difftool::Git,
            remotes: Vec::new(),
            root: None,
            since: "1 week ago".to_owned(),
            since_datetime: None,
            timezones: TimeZoneCast::AsIs,
        }
    }
}

/// Why a manifest was rejected.
#[derive(Clone, Copy, Debug, PartialEq, Eq, Structural)]
pub enum ManifestError {
    /// The "since" description does not parse; startup must stop rather
    /// than silently default.
    Since(crate::time::TimeParseError),
    /// A difftool entry is present but empty.
    EmptyDifftool,
}

/// Whether a configured difftool is usable: a custom command must not be
/// empty.
pub open spec fn difftool_usable(d: Difftool) -> bool {
    match d {
        Difftool::Fallthrough(s) => s@.len() > 0,
        _ => true,
    }
}

impl Manifest {
    /// Resolves a decoded manifest against the current instant: computes
    /// the staleness threshold from the "since" description, checks the
    /// difftool, and records the mirror root.  A manifest that does not
    /// resolve stops startup with the reason.
    pub fn resolve(self, now: &DateTime, root: String) -> (r: Result<Manifest, ManifestError>)
        requires
            now.valid(),
        ensures
            match r {
                Ok(m) => {
                    &&& parse_relative_accepts(self.since@, *now)
                    &&& difftool_usable(self.difftool)
                    &&& m.since_datetime matches Some(dt) && parse_relative_result(
                        self.since@,
                        *now,
                        dt,
                    ) && -(crate::datetime::DAY_LIMIT as int) <= crate::datetime::day_number_of(dt)
                        <= crate::datetime::DAY_LIMIT as int
                    &&& m.root matches Some(p) && p == root
                    &&& m.difftool == self.difftool
                    &&& m.since == self.since
                    &&& m.timezones == self.timezones
                    &&& m.remotes@ == self.remotes@
                },
                Err(e) => {
                    ||| (e matches ManifestError::Since(_) && !parse_relative_accepts(
                        self.since@,
                        *now,
                    ))
                    ||| (e == ManifestError::EmptyDifftool && !difftool_usable(self.difftool))
                },
            },
    {
        let since_datetime = match parse_relative(self.since.as_str(), now) {
            Ok(dt) => dt,
            Err(e) => {
                return Err(ManifestError::Since(e));
            },
        };
        let usable = match &self.difftool {
            Difftool::Fallthrough(s) => s.as_str().unicode_len() > 0,
            _ => true,
        };
        if !usable {
            return Err(ManifestError::EmptyDifftool);
        }
        Ok(
            Manifest {
                root: Some(root),
                since_datetime: Some(since_datetime),
                ..self
            },
        )
    }
}

} // verus!
