//! Working-tree status: labelling each path's status flags and aggregating them.

use vstd::prelude::*;

use crate::model::{FileStatus, RepoStatus};
use crate::text::{opt_view, owned};

verus! {

/// The status flags Git reports for one path.
pub struct StatusFlags {
    pub index_new: bool,
    pub index_modified: bool,
    pub index_deleted: bool,
    pub index_renamed: bool,
    pub index_typechange: bool,
    pub wt_new: bool,
    pub wt_modified: bool,
    pub wt_deleted: bool,
    pub wt_typechange: bool,
    pub wt_renamed: bool,
    pub ignored: bool,
    pub conflicted: bool,
}

/// One entry of a status listing: the path (empty when not valid UTF-8) and its flags.
pub struct StatusEntry {
    pub path: String,
    pub flags: StatusFlags,
}

/// The label of a path's status: the first that applies of conflicted, new, deleted,
/// renamed, typechange, modified, ignored; else unmodified.
pub open spec fn status_label(f: StatusFlags) -> Seq<char> {
    if f.conflicted {
        "conflicted"@
    } else if f.index_new || f.wt_new {
        "new"@
    } else if f.index_deleted || f.wt_deleted {
        "deleted"@
    } else if f.index_renamed || f.wt_renamed {
        "renamed"@
    } else if f.index_typechange || f.wt_typechange {
        "typechange"@
    } else if f.index_modified || f.wt_modified {
        "modified"@
    } else if f.ignored {
        "ignored"@
    } else {
        "unmodified"@
    }
}

/// A path is staged when the index holds any change for it.
pub open spec fn is_staged(f: StatusFlags) -> bool {
    f.index_new || f.index_modified || f.index_deleted || f.index_renamed || f.index_typechange
}

/// Some change, conflict or ignore flag is set.
pub open spec fn any_flag(f: StatusFlags) -> bool {
    f.index_new || f.index_modified || f.index_deleted || f.index_renamed || f.index_typechange
        || f.wt_new || f.wt_modified || f.wt_deleted || f.wt_typechange || f.wt_renamed
        || f.ignored || f.conflicted
}

/// How a path's flags are labelled: a conflict wins; then a new path; then a path
/// deleted in the index or the working tree is "deleted"; then renamed, typechange,
/// modified and ignored, in that order; and "unmodified" is given exactly to a path with
/// no flag at all.
pub proof fn law_status_labels(f: StatusFlags)
    ensures
        f.conflicted ==> status_label(f) == "conflicted"@,
        !f.conflicted && (f.index_new || f.wt_new) ==> status_label(f) == "new"@,
        !f.conflicted && !f.index_new && !f.wt_new && (f.index_deleted || f.wt_deleted)
            ==> status_label(f) == "deleted"@,
        !f.conflicted && !f.index_new && !f.wt_new && !f.index_deleted && !f.wt_deleted && (
        f.index_renamed || f.wt_renamed) ==> status_label(f) == "renamed"@,
        !f.conflicted && !f.index_new && !f.wt_new && !f.index_deleted && !f.wt_deleted
            && !f.index_renamed && !f.wt_renamed && (f.index_typechange || f.wt_typechange)
            ==> status_label(f) == "typechange"@,
        !f.conflicted && !f.index_new && !f.wt_new && !f.index_deleted && !f.wt_deleted
            && !f.index_renamed && !f.wt_renamed && !f.index_typechange && !f.wt_typechange && (
        f.index_modified || f.wt_modified) ==> status_label(f) == "modified"@,
        f.ignored && !f.conflicted && !f.index_new && !f.wt_new && !f.index_deleted && !f.wt_deleted
            && !f.index_renamed && !f.wt_renamed && !f.index_typechange && !f.wt_typechange
            && !f.index_modified && !f.wt_modified ==> status_label(f) == "ignored"@,
        status_label(f) == "unmodified"@ <==> !any_flag(f),
        status_label(f) == "conflicted"@ <==> f.conflicted,
{
    reveal_strlit("conflicted");
    reveal_strlit("new");
    reveal_strlit("deleted");
    reveal_strlit("renamed");
    reveal_strlit("typechange");
    reveal_strlit("modified");
    reveal_strlit("ignored");
    reveal_strlit("unmodified");
    if !f.conflicted {
        let l = status_label(f);
        assert(l != "conflicted"@) by {
            if l == "conflicted"@ {
                assert(l[0] == 'c');
                assert("typechange"@[0] == 't');
                assert("unmodified"@[0] == 'u');
            }
        }
    }
    if any_flag(f) {
        let l = status_label(f);
        assert(l != "unmodified"@) by {
            if l == "unmodified"@ {
                assert(l[0] == 'u');
                assert("conflicted"@[0] == 'c');
                assert("typechange"@[0] == 't');
            }
        }
    }
}

/// Map a path's status flags to a human label and a "staged?" flag.
pub fn describe_status(f: &StatusFlags) -> (r: (String, bool))
    ensures
        r.0@ == status_label(*f),
        r.1 == is_staged(*f),
        !f.conflicted && !f.index_new && !f.wt_new && (f.index_deleted || f.wt_deleted) ==> r.0@
            == "deleted"@,
        r.0@ == "unmodified"@ <==> !any_flag(*f),
{
    proof {
        law_status_labels(*f);
    }
    let staged = f.index_new || f.index_modified || f.index_deleted || f.index_renamed
        || f.index_typechange;
    let label = if f.conflicted {
        owned("conflicted")
    } else if f.index_new || f.wt_new {
        owned("new")
    } else if f.index_deleted || f.wt_deleted {
        owned("deleted")
    } else if f.index_renamed || f.wt_renamed {
        owned("renamed")
    } else if f.index_typechange || f.wt_typechange {
        owned("typechange")
    } else if f.index_modified || f.wt_modified {
        owned("modified")
    } else if f.ignored {
        owned("ignored")
    } else {
        owned("unmodified")
    };
    (label, staged)
}

/// The status of a repository from its HEAD branch name, its status listing, and how many
/// commits the HEAD branch is ahead of / behind its upstream (0 and 0 without one): one
/// file entry per listed path, in order, and a conflict flag set when any path is
/// conflicted.
pub fn status(head_branch: Option<String>, entries: &Vec<StatusEntry>, ahead: u32, behind: u32) -> (r:
    RepoStatus)
    ensures
        opt_view(r.head_branch) == opt_view(head_branch),
        r.files@.len() == entries@.len(),
        forall|i: int|
            0 <= i < entries@.len() ==> {
                &&& (#[trigger] r.files@[i]).path@ == entries@[i].path@
                &&& r.files@[i].status@ == status_label(entries@[i].flags)
                &&& r.files@[i].staged == is_staged(entries@[i].flags)
            },
        r.has_conflicts <==> exists|i: int|
            0 <= i < entries@.len() && (#[trigger] entries@[i]).flags.conflicted,
        // The repository has conflicts exactly when some file is labelled conflicted.
        r.has_conflicts <==> exists|i: int|
            0 <= i < r.files@.len() && (#[trigger] r.files@[i]).status@ == "conflicted"@,
        r.ahead == ahead,
        r.behind == behind,
{
    let n = entries.len();
    let mut files: Vec<FileStatus> = Vec::new();
    let mut has_conflicts = false;
    let mut i: usize = 0;
    while i < n
        invariant
            n == entries@.len(),
            i <= n,
            files@.len() == i,
            forall|j: int|
                0 <= j < i ==> {
                    &&& (#[trigger] files@[j]).path@ == entries@[j].path@
                    &&& files@[j].status@ == status_label(entries@[j].flags)
                    &&& files@[j].staged == is_staged(entries@[j].flags)
                },
            has_conflicts <==> exists|j: int| 0 <= j < i && (#[trigger] entries@[j]).flags.conflicted,
        decreases n - i,
    {
        let e = &entries[i];
        if e.flags.conflicted {
            has_conflicts = true;
        }
        let (label, staged) = describe_status(&e.flags);
        files.push(FileStatus { path: e.path.clone(), status: label, staged });
        i = i + 1;
    }
    proof {
        if has_conflicts {
            let j = choose|j: int| 0 <= j < n && (#[trigger] entries@[j]).flags.conflicted;
            law_status_labels(entries@[j].flags);
            assert(files@[j].status@ == "conflicted"@);
            assert(exists|i: int| 0 <= i < files@.len() && (#[trigger] files@[i]).status@ == "conflicted"@);
        }
        if exists|j: int| 0 <= j < files@.len() && (#[trigger] files@[j]).status@ == "conflicted"@ {
            let j = choose|j: int| 0 <= j < files@.len() && (#[trigger] files@[j]).status@ == "conflicted"@;
            law_status_labels(entries@[j].flags);
            assert(entries@[j].flags.conflicted);
            assert(has_conflicts);
        }
    }
    assert(has_conflicts ==> exists|i: int| 0 <= i < files@.len() && (#[trigger] files@[i]).status@ == "conflicted"@);
    assert((exists|i: int| 0 <= i < files@.len() && (#[trigger] files@[i]).status@ == "conflicted"@) ==> has_conflicts);
    let r = RepoStatus { head_branch, files, ahead, behind, has_conflicts };
    assert(r.files@ == files@);
    r
}

} // verus!
