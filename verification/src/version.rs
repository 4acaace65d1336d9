use vstd::prelude::*;
use vstd::string::StringExecFns;
use crate::text::str_eq;

verus! {

/// Build and source-control metadata of the running application.
pub struct VersionInfo {
    pub version: String,
    pub commit: String,
    pub branch: String,
    pub dirty: bool,
}

/// The text `"{version} · {branch} ({commit})"`, with `", dirty"` before the
/// closing parenthesis when the working tree was dirty.
pub open spec fn display_text(version: Seq<char>, branch: Seq<char>, commit: Seq<char>, dirty: bool) -> Seq<char> {
    version + " · "@ + branch + " ("@ + commit + (if dirty { ", dirty)"@ } else { ")"@ })
}

/// The text `"{branch} @ {commit}"`, followed by `", dirty"` when dirty.
pub open spec fn parenthetical_text(branch: Seq<char>, commit: Seq<char>, dirty: bool) -> Seq<char> {
    branch + " @ "@ + commit + (if dirty { ", dirty"@ } else { Seq::<char>::empty() })
}

impl VersionInfo {
    /// One-line version description, e.g. `"0.11.0 · edge (94c9070)"`.
    pub fn display_string(&self) -> (r: String)
        ensures
            r@ == display_text(self.version@, self.branch@, self.commit@, self.dirty),
    {
        let mut s = self.version.clone();
        s.append(" · ");
        s.append(self.branch.as_str());
        s.append(" (");
        s.append(self.commit.as_str());
        if self.dirty {
            s.append(", dirty)");
        } else {
            s.append(")");
        }
        s
    }

    /// The parenthetical of the About panel, e.g. `"edge @ 94c9070"` or
    /// `"edge @ 94c9070, dirty"`.
    pub fn about_parenthetical(&self) -> (r: String)
        ensures
            r@ == parenthetical_text(self.branch@, self.commit@, self.dirty),
    {
        let mut s = self.branch.clone();
        s.append(" @ ");
        s.append(self.commit.as_str());
        if self.dirty {
            s.append(", dirty");
        }
        proof {
            assert(s@ == parenthetical_text(self.branch@, self.commit@, self.dirty));
        }
        s
    }
}

/// The value an optional build variable stands for: its text, or `"unknown"`
/// when it was not set.
pub open spec fn or_unknown(v: Option<Seq<char>>) -> Seq<char> {
    match v {
        Some(s) => s,
        None => "unknown"@,
    }
}

/// Assemble the version information from the values of the build variables:
/// the package version, and the optional commit, branch and dirty flag. An
/// unset commit or branch reads as `"unknown"`; the tree counts as dirty only
/// when the dirty flag is exactly `"true"`.
pub fn current(version: &str, commit: Option<&str>, branch: Option<&str>, dirty: Option<&str>) -> (r: VersionInfo)
    ensures
        r.version@ == version@,
        r.commit@ == or_unknown(match commit { Some(c) => Some(c@), None => None }),
        r.branch@ == or_unknown(match branch { Some(b) => Some(b@), None => None }),
        r.dirty == (match dirty { Some(d) => d@ == "true"@, None => false }),
{
    let commit_s = match commit {
        Some(c) => String::from_str(c),
        None => String::from_str("unknown"),
    };
    let branch_s = match branch {
        Some(b) => String::from_str(b),
        None => String::from_str("unknown"),
    };
    let dirty_b = match dirty {
        Some(d) => str_eq(d, "true"),
        None => false,
    };
    VersionInfo { version: String::from_str(version), commit: commit_s, branch: branch_s, dirty: dirty_b }
}

} // verus!
