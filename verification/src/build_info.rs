//! The string that tells one build from another.
use vstd::prelude::*;

use crate::db::keys::{replace_char, replaced};
use crate::text::{cat, cat3, opt_text, trim, trimmed};

verus! {

/// The version of the package.
pub const PKG_VERSION: &'static str = "0.1.0";

/// The version of the package and the build it was made in.
pub const BUILD_VERSION: &'static str = "0.1.0 (v0.1.0)";

/// What came of asking the version control system to describe the build.
#[derive(Debug)]
pub enum Described {
    /// It printed this.
    Printed(String),
    /// It failed with this status, and complained.
    Failed { status: String, stderr: String },
    /// It could not be run.
    NotRun(String),
}

/// A described build as mathematical data.
pub enum DescribedView {
    Printed(Seq<char>),
    Failed(Seq<char>, Seq<char>),
    NotRun(Seq<char>),
}

impl View for Described {
    type V = DescribedView;

    open spec fn view(&self) -> DescribedView {
        match *self {
            Described::Printed(s) => DescribedView::Printed(s@),
            Described::Failed { status, stderr } => DescribedView::Failed(status@, stderr@),
            Described::NotRun(s) => DescribedView::NotRun(s@),
        }
    }
}

/// The name of a build, and the warning where it has none.
pub open spec fn build_name(d: DescribedView) -> (Seq<char>, Option<Seq<char>>) {
    match d {
        DescribedView::Printed(s) => if trimmed(s).len() == 0 {
            (
                "unknown"@,
                Some("git describe printed nothing; version suffix is 'unknown'"@),
            )
        } else {
            (trimmed(s), None)
        },
        DescribedView::Failed(status, stderr) => (
            "unknown"@,
            Some(
                "git describe failed ("@ + status + "); version suffix is 'unknown': "@ + replaced(
                    trimmed(stderr),
                    '\n',
                    ' ',
                ),
            ),
        ),
        DescribedView::NotRun(e) => (
            "unknown"@,
            Some("could not run git ("@ + e + "); version suffix is 'unknown'"@),
        ),
    }
}

/// The name of a build: the description where there is one, else `unknown`, with a warning
/// that says why. A build never fails for want of a description.
pub fn git_describe(d: &Described) -> (r: (String, Option<String>))
    ensures
        r.0@ == build_name(d@).0,
        opt_text(r.1) == build_name(d@).1,
{
    match d {
        Described::Printed(s) => {
            let name = trim(s.as_str());
            if name.as_str().is_empty() {
                (
                    "unknown".to_owned(),
                    Some("git describe printed nothing; version suffix is 'unknown'".to_owned()),
                )
            } else {
                (name, None)
            }
        },
        Described::Failed { status, stderr } => {
            let head = cat3(
                "git describe failed (",
                status.as_str(),
                "); version suffix is 'unknown': ",
            );
            let said = replace_char(trim(stderr.as_str()).as_str(), '\n', ' ');
            ("unknown".to_owned(), Some(cat(head.as_str(), said.as_str())))
        },
        Described::NotRun(e) => (
            "unknown".to_owned(),
            Some(
                cat3("could not run git (", e.as_str(), "); version suffix is 'unknown'"),
            ),
        ),
    }
}

/// The name that goes into the build string: the one that is set for the build, verbatim,
/// else the described one.
pub open spec fn stamp(build_id: Option<Seq<char>>, described: Seq<char>) -> Seq<char> {
    match build_id {
        Some(id) => id,
        None => described,
    }
}

/// The build string: the version of the package, and the name of the build.
pub fn build_version(pkg: &str, build_id: Option<&str>, described: &str) -> (r: String)
    ensures
        r@ == pkg@ + " ("@ + stamp(
            match build_id {
                Some(id) => Some(id@),
                None => None,
            },
            described@,
        ) + ")"@,
{
    let name = match build_id {
        Some(id) => id,
        None => described,
    };
    let head = cat3(pkg, " (", name);
    cat(head.as_str(), ")")
}

/// The nearest of the directories, given from the innermost outwards, that holds the
/// repository; the innermost where none does.
pub fn repo_root(dirs: &Vec<(String, bool)>) -> (r: usize)
    requires
        dirs@.len() > 0,
    ensures
        r < dirs@.len(),
        dirs@[r as int].1 ==> forall|j: int| 0 <= j < r ==> !(#[trigger] dirs@[j]).1,
        !dirs@[r as int].1 ==> r == 0 && forall|j: int|
            0 <= j < dirs@.len() ==> !(#[trigger] dirs@[j]).1,
{
    let mut i: usize = 0;
    while i < dirs.len()
        invariant
            i <= dirs@.len(),
            forall|j: int| 0 <= j < i ==> !(#[trigger] dirs@[j]).1,
        decreases dirs@.len() - i,
    {
        if dirs[i].1 {
            return i;
        }
        i = i + 1;
    }
    0
}

/// A build is named by what was printed of it, without the white space around it; where nothing
/// was, it has no name, and that is warned of.
pub proof fn law_build_is_named_by_what_was_printed(d: DescribedView)
    ensures
        d matches DescribedView::Printed(s) && (exists|i: int|
            0 <= i < s.len() && !crate::text::is_space(#[trigger] s[i])) ==> build_name(d) == (
            trimmed(d->Printed_0),
            None::<Seq<char>>,
        ),
        d matches DescribedView::Printed(s) && (forall|i: int|
            0 <= i < s.len() ==> crate::text::is_space(#[trigger] s[i])) ==> build_name(d).0
            == "unknown"@ && build_name(d).1 is Some,
        !(d is Printed) ==> build_name(d).0 == "unknown"@ && build_name(d).1 is Some,
{
    if let DescribedView::Printed(s) = d {
        crate::text::law_trimming_takes_white_space_off_the_ends(s);
    }
}

} // verus!
