//! The cleanup decision: which files a run deletes, given the unused lists
//! and the mode the command-line flags select. Performing the deletions and
//! printing the report are the caller's side effects; the plan computed
//! here fully determines them.

use vstd::prelude::*;

use crate::refs::Unused;
use crate::text::{chars_to_string, str_to_chars};
use vstd::string::StringExecFns;

verus! {

/// What a run does after reconciliation: report the unused identifiers, or
/// delete the files of one or both categories.
#[derive(Debug, Clone, Copy, PartialEq, Eq, Structural)]
pub enum CleanupMode {
    Report,
    DeleteFragments,
    DeleteSections,
    DeleteBoth,
}

/// The mode the three command-line flags select: cleaning everything wins,
/// one category's flag selects that category, and no flag means Report.
pub open spec fn mode_spec(clean_all: bool, clean_snippets: bool, clean_sections: bool) -> CleanupMode {
    if clean_all || (clean_snippets && clean_sections) {
        CleanupMode::DeleteBoth
    } else if clean_snippets {
        CleanupMode::DeleteFragments
    } else if clean_sections {
        CleanupMode::DeleteSections
    } else {
        CleanupMode::Report
    }
}

/// Whether fragment files are deleted under `m`.
pub open spec fn deletes_fragments(m: CleanupMode) -> bool {
    m is DeleteFragments || m is DeleteBoth
}

/// Whether section files are deleted under `m`.
pub open spec fn deletes_sections(m: CleanupMode) -> bool {
    m is DeleteSections || m is DeleteBoth
}

/// Selects the cleanup mode from the command-line flags, as `mode_spec`
/// describes.
pub fn mode_of_flags(clean_all: bool, clean_snippets: bool, clean_sections: bool) -> (m: CleanupMode)
    ensures
        m == mode_spec(clean_all, clean_snippets, clean_sections),
{
    if clean_all || (clean_snippets && clean_sections) {
        CleanupMode::DeleteBoth
    } else if clean_snippets {
        CleanupMode::DeleteFragments
    } else if clean_sections {
        CleanupMode::DeleteSections
    } else {
        CleanupMode::Report
    }
}

/// The relative paths of the files to delete: each identifier under its
/// category folder, with the `.liquid` extension restored.
pub open spec fn deletion_paths(ids: Seq<Seq<char>>, dir: Seq<char>) -> Seq<Seq<char>>
    decreases ids.len(),
{
    if ids.len() == 0 {
        Seq::empty()
    } else {
        seq![dir + ids[0] + ".liquid"@] + deletion_paths(ids.drop_first(), dir)
    }
}

/// Builds the deletion path of every identifier in `ids` under `dir`.
fn paths_of(ids: &Vec<String>, dir: &str) -> (r: Vec<String>)
    ensures
        r.deep_view() == deletion_paths(ids.deep_view(), dir@),
{
    let mut out: Vec<String> = Vec::new();
    let mut i: usize = 0;
    assert(out.deep_view() =~= Seq::<Seq<char>>::empty());
    assert(ids.deep_view().skip(0) =~= ids.deep_view());
    while i < ids.len()
        invariant
            i <= ids.len(),
            deletion_paths(ids.deep_view(), dir@) == out.deep_view() + deletion_paths(
                ids.deep_view().skip(i as int),
                dir@,
            ),
        decreases ids.len() - i,
    {
        let ghost rest = ids.deep_view().skip(i as int);
        proof {
            assert(rest[0] == ids@[i as int]@);
            assert(rest.drop_first() =~= ids.deep_view().skip(i as int + 1));
        }
        let mut path: String = dir.to_owned();
        path.append(ids[i].as_str());
        path.append(".liquid");
        assert(path@ == dir@ + rest[0] + ".liquid"@);
        let ghost old_dv = out.deep_view();
        out.push(path);
        proof {
            assert(out.deep_view() =~= old_dv.push(dir@ + rest[0] + ".liquid"@));
            assert(out.deep_view() + deletion_paths(ids.deep_view().skip(i as int + 1), dir@)
                =~= old_dv + (seq![dir@ + rest[0] + ".liquid"@] + deletion_paths(
                ids.deep_view().skip(i as int + 1),
                dir@,
            )));
        }
        i = i + 1;
    }
    assert(ids.deep_view().skip(ids@.len() as int) =~= Seq::<Seq<char>>::empty());
    assert(out.deep_view() =~= out.deep_view() + Seq::<Seq<char>>::empty());
    out
}

/// The files a run deletes, one list per category.
pub struct CleanupPlan {
    pub fragment_deletions: Vec<String>,
    pub section_deletions: Vec<String>,
}

/// Turns the unused lists and the mode into the exact deletion lists.
/// Report mode deletes nothing, and a delete mode over an empty unused list
/// performs zero deletions.
pub fn plan_cleanup(unused: &Unused, mode: CleanupMode) -> (p: CleanupPlan)
    ensures
        p.fragment_deletions.deep_view() == (if deletes_fragments(mode) {
            deletion_paths(unused.fragments.deep_view(), "snippets/"@)
        } else {
            Seq::<Seq<char>>::empty()
        }),
        p.section_deletions.deep_view() == (if deletes_sections(mode) {
            deletion_paths(unused.sections.deep_view(), "sections/"@)
        } else {
            Seq::<Seq<char>>::empty()
        }),
        mode is Report ==> p.fragment_deletions@.len() == 0 && p.section_deletions@.len() == 0,
        unused.fragments@.len() == 0 ==> p.fragment_deletions@.len() == 0,
        unused.sections@.len() == 0 ==> p.section_deletions@.len() == 0,
{
    let delete_fragments = match mode {
        CleanupMode::DeleteFragments | CleanupMode::DeleteBoth => true,
        _ => false,
    };
    let delete_sections = match mode {
        CleanupMode::DeleteSections | CleanupMode::DeleteBoth => true,
        _ => false,
    };
    let fragment_deletions: Vec<String> = if delete_fragments {
        paths_of(&unused.fragments, "snippets/")
    } else {
        Vec::new()
    };
    let section_deletions: Vec<String> = if delete_sections {
        paths_of(&unused.sections, "sections/")
    } else {
        Vec::new()
    };
    proof {
        if !delete_fragments {
            assert(fragment_deletions.deep_view() =~= Seq::<Seq<char>>::empty());
        }
        if !delete_sections {
            assert(section_deletions.deep_view() =~= Seq::<Seq<char>>::empty());
        }
    }
    CleanupPlan { fragment_deletions, section_deletions }
}

} // verus!

