//! Merge-conflict inspection and resolution decisions.
//!
//! A conflict is recorded in the index as up to three stages: the ancestor (base), ours
//! and theirs. The conflicted file's path is read from whichever stage is present.

use vstd::prelude::*;
use vstd::utf8::*;

use crate::error::{error_message, AppError};
use crate::text::{concat, lossy_decode, opt_view, owned, utf8_decode, utf8_lossy};

verus! {

/// A conflicted file with its three-way sides (a side is empty when that stage is
/// absent) plus the current working-tree text, which after a merge carries the conflict
/// markers.
pub struct ConflictHunk {
    pub file: String,
    pub ours: String,
    pub theirs: String,
    pub base: String,
    pub merged: String,
}

/// One stage of a conflicted index entry: its path bytes and its blob id (hex).
pub struct StageEntry {
    pub path: Vec<u8>,
    pub id: String,
}

/// A conflicted index entry.
pub struct IndexConflict {
    pub ancestor: Option<StageEntry>,
    pub ours: Option<StageEntry>,
    pub theirs: Option<StageEntry>,
}

/// The stage a conflict's path is read from: ours, else theirs, else the ancestor.
pub open spec fn path_stage(c: IndexConflict) -> Option<StageEntry> {
    if c.ours is Some {
        c.ours
    } else if c.theirs is Some {
        c.theirs
    } else {
        c.ancestor
    }
}

/// The conflicted path: that stage's path bytes, when they are valid UTF-8.
pub open spec fn conflict_file(c: IndexConflict) -> Option<Seq<char>> {
    match path_stage(c) {
        Some(e) => if valid_utf8(e.path@) {
            Some(decode_utf8(e.path@))
        } else {
            None
        },
        None => None,
    }
}

/// The conflicted path from whichever stage is present (`None` if none is, or if the
/// path is not valid UTF-8).
pub fn conflict_path(c: &IndexConflict) -> (r: Option<String>)
    ensures
        opt_view(r) == conflict_file(*c),
{
    let stage = match &c.ours {
        Some(e) => Some(e),
        None => match &c.theirs {
            Some(e) => Some(e),
            None => match &c.ancestor {
                Some(e) => Some(e),
                None => None,
            },
        },
    };
    match stage {
        Some(e) => utf8_decode(e.path.clone()),
        None => None,
    }
}

/// Text shown for one side: its bytes decoded leniently, or empty when absent.
pub open spec fn side_text(bytes: Option<Vec<u8>>) -> Seq<char> {
    match bytes {
        Some(b) => lossy_decode(b@),
        None => Seq::empty(),
    }
}

fn display_text(bytes: &Option<Vec<u8>>) -> (r: String)
    ensures
        r@ == side_text(*bytes),
{
    match bytes {
        Some(b) => utf8_lossy(b),
        None => String::new(),
    }
}

/// The hunk shown for conflicted `file`, from the blob contents of each stage and the
/// working-tree file (each `None` when absent or unreadable); text is decoded leniently,
/// for display only.
pub fn conflict_hunk(
    file: String,
    ours: Option<Vec<u8>>,
    theirs: Option<Vec<u8>>,
    base: Option<Vec<u8>>,
    merged: Option<Vec<u8>>,
) -> (r: ConflictHunk)
    ensures
        r.file@ == file@,
        r.ours@ == side_text(ours),
        r.theirs@ == side_text(theirs),
        r.base@ == side_text(base),
        r.merged@ == side_text(merged),
{
    ConflictHunk {
        ours: display_text(&ours),
        theirs: display_text(&theirs),
        base: display_text(&base),
        merged: display_text(&merged),
        file,
    }
}

/// What resolving a conflict to one side does to the working-tree file.
pub enum Resolution {
    /// Write the blob with this id and stage it.
    Write(String),
    /// The chosen side removed the file: delete it and unstage.
    Delete,
}

/// The index of the first conflict whose path is `file`, or the number of conflicts.
pub open spec fn conflict_index(cs: Seq<IndexConflict>, file: Seq<char>) -> nat
    decreases cs.len(),
{
    if cs.len() == 0 {
        0
    } else if conflict_file(cs[0]) == Some(file) {
        0
    } else {
        1 + conflict_index(cs.drop_first(), file)
    }
}

/// The refusal for a side that is neither `ours` nor `theirs`.
pub open spec fn invalid_resolution_message(resolution: Seq<char>) -> Seq<char> {
    "invalid conflict resolution: "@ + resolution
}

/// The action for one side of a conflict.
pub open spec fn side_action(side: Option<StageEntry>) -> Resolution {
    match side {
        Some(e) => Resolution::Write(e.id),
        None => Resolution::Delete,
    }
}

pub open spec fn action_matches(a: Resolution, b: Resolution) -> bool {
    match (a, b) {
        (Resolution::Write(x), Resolution::Write(y)) => x@ == y@,
        (Resolution::Delete, Resolution::Delete) => true,
        _ => false,
    }
}

proof fn lemma_conflict_index(cs: Seq<IndexConflict>, file: Seq<char>)
    ensures
        conflict_index(cs, file) <= cs.len(),
        conflict_index(cs, file) < cs.len() ==> conflict_file(cs[conflict_index(cs, file) as int])
            == Some(file),
        forall|j: int| 0 <= j < conflict_index(cs, file) ==> conflict_file(cs[j]) != Some(file),
    decreases cs.len(),
{
    if cs.len() > 0 && conflict_file(cs[0]) != Some(file) {
        lemma_conflict_index(cs.drop_first(), file);
        assert forall|j: int| 0 <= j < conflict_index(cs, file) implies conflict_file(cs[j])
            != Some(file) by {
            if j > 0 {
                assert(cs[j] == cs.drop_first()[j - 1]);
            }
        }
    }
}

/// Decide how to resolve conflicted `file` by taking one whole side (`resolution` is
/// `"ours"` or `"theirs"`). `Ok(None)` when `file` is not conflicted (resolving is then
/// a no-op, whatever `resolution` says); an error for any other side name.
pub fn plan_resolution(conflicts: &Vec<IndexConflict>, file: &str, resolution: &str) -> (r:
    Result<Option<Resolution>, AppError>)
    ensures
        ({
            let k = conflict_index(conflicts@, file@);
            if k >= conflicts@.len() {
                r matches Ok(None)
            } else if resolution@ == "ours"@ {
                r matches Ok(Some(a)) && action_matches(a, side_action(conflicts@[k as int].ours))
            } else if resolution@ == "theirs"@ {
                r matches Ok(Some(a)) && action_matches(
                    a,
                    side_action(conflicts@[k as int].theirs),
                )
            } else {
                r matches Err(e) && error_message(e) == invalid_resolution_message(resolution@)
            }
        }),
{
    proof {
        lemma_conflict_index(conflicts@, file@);
    }
    let target = owned(file);
    let n = conflicts.len();
    let mut i: usize = 0;
    while i < n
        invariant
            n == conflicts@.len(),
            i <= n,
            target@ == file@,
            forall|j: int| 0 <= j < i ==> conflict_file(conflicts@[j]) != Some(file@),
        decreases n - i,
    {
        let here = conflict_path(&conflicts[i]);
        let same = match &here {
            Some(p) => *p == target,
            None => false,
        };
        assert(same ==> conflict_file(conflicts@[i as int]) == Some(file@));
        if same {
            proof {
                lemma_conflict_index(conflicts@, file@);
            }
            assert(conflict_index(conflicts@, file@) == i);
            let choice = owned(resolution);
            let side = if choice == owned("ours") {
                &conflicts[i].ours
            } else if choice == owned("theirs") {
                &conflicts[i].theirs
            } else {
                return Err(AppError::Message(concat("invalid conflict resolution: ", resolution)));
            };
            let action = match side {
                Some(e) => Resolution::Write(e.id.clone()),
                None => Resolution::Delete,
            };
            return Ok(Some(action));
        }
        i = i + 1;
    }
    proof {
        lemma_conflict_index(conflicts@, file@);
    }
    Ok(None)
}

} // verus!
