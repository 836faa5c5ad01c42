//! The multi-project workspace: the ordered set of open projects, the active one, and
//! the form in which both are saved and restored between sessions.

use vstd::prelude::*;

use crate::error::{error_message, AppError};
use crate::text::{chars_of, concat, decimal, decimal_string, opt_view, owned, string_from, views};

verus! {

/// Maximum number of projects that can be open (live) at once.
pub const MAX_PROJECTS: usize = 7;

/// The refusal given when the workspace is full.
pub open spec fn cap_message() -> Seq<char> {
    "You can open up to "@ + decimal(MAX_PROJECTS as nat) + " projects at once. Close one first."@
}

/// The refusal given when activating a project that is not open.
pub open spec fn not_open_message() -> Seq<char> {
    "That project is not open."@
}

/// No element occurs twice.
pub open spec fn no_duplicates(s: Seq<Seq<char>>) -> bool {
    forall|i: int, j: int| 0 <= i < j < s.len() ==> s[i] != s[j]
}

/// A well-formed open set: within the cap, and no project twice.
pub open spec fn valid_open_set(open: Seq<Seq<char>>) -> bool {
    open.len() <= MAX_PROJECTS && no_duplicates(open)
}

/// The active project, if any, is one of the open ones.
pub open spec fn active_is_open(open: Seq<Seq<char>>, active: Option<Seq<char>>) -> bool {
    match active {
        Some(a) => open.contains(a),
        None => true,
    }
}

/// The open set after asking to open `path`.
pub open spec fn open_after_add(open: Seq<Seq<char>>, path: Seq<char>) -> Seq<Seq<char>> {
    if open.contains(path) || open.len() >= MAX_PROJECTS {
        open
    } else {
        open.push(path)
    }
}

/// `s` without any occurrence of `x`, order kept.
pub open spec fn without(s: Seq<Seq<char>>, x: Seq<char>) -> Seq<Seq<char>>
    decreases s.len(),
{
    if s.len() == 0 {
        s
    } else {
        let r = without(s.drop_last(), x);
        if s.last() == x {
            r
        } else {
            r.push(s.last())
        }
    }
}

/// The active project after closing `path`: the first remaining project (or none) when
/// `path` was active, else unchanged.
pub open spec fn active_after_remove(
    remaining: Seq<Seq<char>>,
    active: Option<Seq<char>>,
    path: Seq<char>,
) -> Option<Seq<char>> {
    if active == Some(path) {
        if remaining.len() > 0 {
            Some(remaining[0])
        } else {
            None
        }
    } else {
        active
    }
}

/// The lines of `s`, split at each line feed (an empty `s` is one empty line).
pub open spec fn split_lines(s: Seq<char>) -> Seq<Seq<char>>
    decreases s.len(),
{
    if s.len() == 0 {
        seq![Seq::empty()]
    } else {
        let p = split_lines(s.drop_last());
        if s.last() == '\n' {
            p.push(Seq::empty())
        } else {
            p.update(p.len() - 1, p.last().push(s.last()))
        }
    }
}

/// The lines of `xs`, joined with line feeds.
pub open spec fn join_lines(xs: Seq<Seq<char>>) -> Seq<char>
    decreases xs.len(),
{
    if xs.len() == 0 {
        Seq::empty()
    } else if xs.len() == 1 {
        xs[0]
    } else {
        join_lines(xs.drop_last()) + seq!['\n'] + xs.last()
    }
}

/// `xs` without its empty elements.
pub open spec fn drop_empty(xs: Seq<Seq<char>>) -> Seq<Seq<char>>
    decreases xs.len(),
{
    if xs.len() == 0 {
        xs
    } else {
        let r = drop_empty(xs.drop_last());
        if xs.last().len() == 0 {
            r
        } else {
            r.push(xs.last())
        }
    }
}

/// The first `MAX_PROJECTS` elements of `xs`.
pub open spec fn capped(xs: Seq<Seq<char>>) -> Seq<Seq<char>> {
    if xs.len() > MAX_PROJECTS {
        xs.take(MAX_PROJECTS as int)
    } else {
        xs
    }
}

/// The projects to reopen from the saved open set `open_csv`; an empty saved set falls
/// back to the single project saved by the older single-project format (`last_repo`).
pub open spec fn restored_paths(open_csv: Seq<char>, last_repo: Option<Seq<char>>) -> Seq<
    Seq<char>,
> {
    let source = if open_csv.len() == 0 && last_repo is Some {
        last_repo->0
    } else {
        open_csv
    };
    capped(drop_empty(split_lines(source)))
}

/// The saved form of the active project: its path, or empty for none.
pub open spec fn saved_active(active: Option<Seq<char>>) -> Seq<char> {
    match active {
        Some(a) => a,
        None => Seq::empty(),
    }
}

/// The active project after restoring a session: the saved one when it was reopened.
pub open spec fn active_after_restore(
    open: Seq<Seq<char>>,
    active: Option<Seq<char>>,
    saved: Seq<char>,
) -> Option<Seq<char>> {
    if saved.len() > 0 && open.contains(saved) {
        Some(saved)
    } else {
        active
    }
}

/// What `Path::file_name` gives for `path`: its final component, unless the path ends
/// in `..` or has no component.
pub uninterp spec fn path_file_name(path: Seq<char>) -> Option<Seq<char>>;

/// `Path::new(path).file_name()`, as a string (the input is UTF-8, so is any component).
#[verifier::external_body]
fn file_name(path: &str) -> (r: Option<String>)
    ensures
        opt_view(r) == path_file_name(path@),
{
    std::path::Path::new(path).file_name().and_then(|n| n.to_str()).map(|n| n.to_string())
}

/// The title of a project: its directory's name, or the whole path when it has none.
pub open spec fn project_label(path: Seq<char>) -> Seq<char> {
    match path_file_name(path) {
        Some(n) => n,
        None => path,
    }
}

/// The title shown for the project at `path`.
pub fn project_name(path: &str) -> (r: String)
    ensures
        r@ == project_label(path@),
{
    match file_name(path) {
        Some(n) => n,
        None => owned(path),
    }
}

fn index_of(open: &Vec<String>, path: &String) -> (r: Option<usize>)
    ensures
        r is Some <==> views(open@).contains(path@),
        r matches Some(i) ==> i < open@.len() && open@[i as int]@ == path@,
{
    let n = open.len();
    let mut i: usize = 0;
    while i < n
        invariant
            n == open@.len(),
            i <= n,
            forall|j: int| 0 <= j < i ==> open@[j]@ != path@,
        decreases n - i,
    {
        if open[i] == *path {
            assert(views(open@)[i as int] == path@);
            return Some(i);
        }
        i = i + 1;
    }
    proof {
        if views(open@).contains(path@) {
            let k = choose|k: int| 0 <= k < views(open@).len() && views(open@)[k] == path@;
            assert(open@[k]@ == path@);
        }
    }
    None
}

/// Add `path` to the ordered open set, enforcing the cap. `Ok(true)`: newly added;
/// `Ok(false)`: already open, nothing changes; `Err`: the workspace is full.
pub fn workspace_add(open: &mut Vec<String>, path: &str) -> (r: Result<bool, String>)
    ensures
        views(final(open)@) == open_after_add(views(old(open)@), path@),
        views(old(open)@).contains(path@) ==> r == Ok::<bool, String>(false),
        !views(old(open)@).contains(path@) && old(open)@.len() >= MAX_PROJECTS ==> (r matches Err(
            m,
        ) && m@ == cap_message()),
        !views(old(open)@).contains(path@) && old(open)@.len() < MAX_PROJECTS ==> r == Ok::<
            bool,
            String,
        >(true),
{
    let p = owned(path);
    if index_of(open, &p).is_some() {
        return Ok(false);
    }
    if open.len() >= MAX_PROJECTS {
        let head = concat("You can open up to ", decimal_string(MAX_PROJECTS as u64).as_str());
        return Err(concat(head.as_str(), " projects at once. Close one first."));
    }
    let ghost before = open@;
    open.push(p);
    assert(views(open@) =~= views(before).push(path@));
    Ok(true)
}

/// Remove `path` from the open set; if it was the active project, the first remaining
/// project becomes active (or none when nothing is left).
pub fn workspace_remove(open: &mut Vec<String>, active: &mut Option<String>, path: &str)
    ensures
        views(final(open)@) == without(views(old(open)@), path@),
        opt_view(*final(active)) == active_after_remove(
            views(final(open)@),
            opt_view(*old(active)),
            path@,
        ),
{
    let p = owned(path);
    let ghost src = views(open@);
    let mut kept: Vec<String> = Vec::new();
    let n = open.len();
    let mut i: usize = 0;
    while i < n
        invariant
            n == open@.len(),
            i <= n,
            src == views(open@),
            p@ == path@,
            views(kept@) == without(src.take(i as int), path@),
        decreases n - i,
    {
        assert(src.take(i as int + 1).drop_last() =~= src.take(i as int));
        assert(src.take(i as int + 1).last() == open@[i as int]@);
        if open[i] != p {
            let ghost before = kept@;
            kept.push(open[i].clone());
            assert(views(kept@) =~= views(before).push(open@[i as int]@));
        }
        i = i + 1;
    }
    assert(src.take(n as int) =~= src);
    *open = kept;
    let was_active = match active {
        Some(a) => *a == p,
        None => false,
    };
    if was_active {
        if open.len() > 0 {
            *active = Some(open[0].clone());
        } else {
            *active = None;
        }
    }
}

/// Focus the main views on `path`, which must be open.
pub fn workspace_activate(open: &Vec<String>, active: &mut Option<String>, path: String) -> (r:
    Result<(), String>)
    ensures
        views(open@).contains(path@) ==> r is Ok && opt_view(*final(active)) == Some(path@),
        !views(open@).contains(path@) ==> (r matches Err(m) && m@ == not_open_message())
            && *final(active) == *old(active),
{
    if index_of(open, &path).is_none() {
        return Err(owned("That project is not open."));
    }
    *active = Some(path);
    Ok(())
}

/// The active project's path, or the "no repository" error message.
pub fn require_repo(active: &Option<String>) -> (r: Result<String, String>)
    ensures
        active is Some ==> (r matches Ok(p) && p@ == active->0@),
        active is None ==> (r matches Err(m) && m@ == error_message(AppError::NoRepo)),
{
    match active {
        Some(p) => Ok(p.clone()),
        None => Err(AppError::NoRepo.message()),
    }
}

/// The saved form of the open set: the paths, one per line.
pub fn persisted_open(open: &Vec<String>) -> (r: String)
    ensures
        r@ == join_lines(views(open@)),
{
    let ghost all = views(open@);
    let n = open.len();
    let mut out: Vec<char> = Vec::new();
    let mut i: usize = 0;
    while i < n
        invariant
            n == open@.len(),
            i <= n,
            all == views(open@),
            out@ == join_lines(all.take(i as int)),
        decreases n - i,
    {
        let ghost pre = all.take(i as int);
        assert(all.take(i as int + 1).drop_last() =~= pre);
        assert(all.take(i as int + 1).last() == open@[i as int]@);
        if i > 0 {
            out.push('\n');
        }
        let mut cs = chars_of(open[i].as_str());
        let ghost before = out@;
        out.append(&mut cs);
        if i == 0 {
            assert(out@ =~= all.take(1)[0]);
        } else {
            assert(out@ =~= before + open@[i as int]@);
        }
        i = i + 1;
    }
    assert(all.take(n as int) =~= all);
    string_from(&out)
}

/// The saved form of the active project: its path, or the empty string for none.
pub fn persisted_active(active: &Option<String>) -> (r: String)
    ensures
        r@ == saved_active(opt_view(*active)),
{
    match active {
        Some(a) => a.clone(),
        None => String::new(),
    }
}

proof fn lemma_split_lines_nonempty(s: Seq<char>)
    ensures
        split_lines(s).len() >= 1,
    decreases s.len(),
{
    if s.len() > 0 {
        lemma_split_lines_nonempty(s.drop_last());
    }
}

fn split_line_pieces(cs: &Vec<char>) -> (r: Vec<Vec<char>>)
    ensures
        r@.map_values(|v: Vec<char>| v@) == split_lines(cs@),
{
    let n = cs.len();
    let mut pieces: Vec<Vec<char>> = Vec::new();
    let mut cur: Vec<char> = Vec::new();
    let mut i: usize = 0;
    assert(cs@.take(0) =~= Seq::<char>::empty());
    assert(pieces@.map_values(|v: Vec<char>| v@).push(cur@) =~= seq![Seq::<char>::empty()]);
    while i < n
        invariant
            n == cs@.len(),
            i <= n,
            split_lines(cs@.take(i as int)) == pieces@.map_values(|v: Vec<char>| v@).push(cur@),
        decreases n - i,
    {
        let ghost prev = cs@.take(i as int);
        assert(cs@.take(i as int + 1).drop_last() =~= prev);
        assert(cs@.take(i as int + 1).last() == cs@[i as int]);
        let ghost p = split_lines(prev);
        let c = cs[i];
        if c == '\n' {
            let done = cur;
            let ghost before = pieces@;
            pieces.push(done);
            cur = Vec::new();
            assert(pieces@.map_values(|v: Vec<char>| v@).push(cur@) =~= p.push(Seq::empty()));
        } else {
            let ghost before = cur@;
            cur.push(c);
            assert(pieces@.map_values(|v: Vec<char>| v@).push(cur@) =~= p.update(
                p.len() - 1,
                p.last().push(c),
            ));
        }
        i = i + 1;
    }
    assert(cs@.take(n as int) =~= cs@);
    let ghost before = pieces@;
    pieces.push(cur);
    assert(pieces@.map_values(|v: Vec<char>| v@) =~= before.map_values(|v: Vec<char>| v@).push(
        cur@,
    ));
    pieces
}

/// The projects to reopen from the saved open set (`open_csv`, one path per line) and,
/// when that is empty, the project saved by the older single-project format: blank lines
/// are skipped and at most `MAX_PROJECTS` paths are taken.
pub fn restore_paths(open_csv: &str, last_repo: &Option<String>) -> (r: Vec<String>)
    ensures
        views(r@) == restored_paths(open_csv@, opt_view(*last_repo)),
{
    let csv = chars_of(open_csv);
    let source: Vec<char> = if csv.len() == 0 {
        match last_repo {
            Some(last) => chars_of(last.as_str()),
            None => csv,
        }
    } else {
        csv
    };
    let pieces = split_line_pieces(&source);
    let ghost lines = split_lines(source@);
    let n = pieces.len();
    let mut out: Vec<String> = Vec::new();
    let mut i: usize = 0;
    while i < n
        invariant
            n == pieces@.len(),
            i <= n,
            lines == pieces@.map_values(|v: Vec<char>| v@),
            views(out@) == drop_empty(lines.take(i as int)),
        decreases n - i,
    {
        assert(lines.take(i as int + 1).drop_last() =~= lines.take(i as int));
        assert(lines.take(i as int + 1).last() == pieces@[i as int]@);
        if pieces[i].len() > 0 {
            let ghost before = out@;
            out.push(string_from(&pieces[i]));
            assert(views(out@) =~= views(before).push(pieces@[i as int]@));
        }
        i = i + 1;
    }
    assert(lines.take(n as int) =~= lines);
    let ghost all = out@;
    out.truncate(MAX_PROJECTS);
    assert(views(out@) =~= capped(views(all)));
    out
}

/// After reopening, prefer the saved active project when it is among the open ones.
pub fn restore_active(open: &Vec<String>, active: &mut Option<String>, saved: &str)
    ensures
        opt_view(*final(active)) == active_after_restore(views(open@), opt_view(*old(active)), saved@),
{
    let s = owned(saved);
    if !saved.is_empty() && index_of(open, &s).is_some() {
        *active = Some(s);
    }
}


proof fn lemma_without(s: Seq<Seq<char>>, x: Seq<char>)
    ensures
        forall|y: Seq<char>| #[trigger] without(s, x).contains(y) <==> (s.contains(y) && y != x),
        without(s, x).len() <= s.len(),
        no_duplicates(s) ==> no_duplicates(without(s, x)),
        !s.contains(x) ==> without(s, x) == s,
    decreases s.len(),
{
    if s.len() > 0 {
        let d = s.drop_last();
        lemma_without(d, x);
        let r = without(d, x);
        assert forall|y: Seq<char>| s.contains(y) <==> (d.contains(y) || s.last() == y) by {
            if s.contains(y) {
                let k = choose|k: int| 0 <= k < s.len() && s[k] == y;
                if k < s.len() - 1 {
                    assert(d[k] == y);
                }
            }
            if d.contains(y) {
                let k = choose|k: int| 0 <= k < d.len() && d[k] == y;
                assert(s[k] == y);
            }
        }
        if s.last() != x {
            assert forall|y: Seq<char>| r.push(s.last()).contains(y) <==> (r.contains(y) || s.last()
                == y) by {
                if r.push(s.last()).contains(y) {
                    let k = choose|k: int| 0 <= k < r.len() + 1 && r.push(s.last())[k] == y;
                    if k < r.len() {
                        assert(r[k] == y);
                    }
                }
                if r.contains(y) {
                    let k = choose|k: int| 0 <= k < r.len() && r[k] == y;
                    assert(r.push(s.last())[k] == y);
                }
                if s.last() == y {
                    assert(r.push(s.last())[r.len() as int] == y);
                }
            }
            if no_duplicates(s) {
                assert(no_duplicates(d));
                assert forall|i: int, j: int| 0 <= i < j < r.len() + 1 implies r.push(s.last())[i]
                    != r.push(s.last())[j] by {
                    if j == r.len() {
                        assert(r.contains(r[i]));
                        assert(d.contains(r[i]));
                        let k = choose|k: int| 0 <= k < d.len() && d[k] == r[i];
                        assert(s[k] == d[k]);
                    }
                }
            }
        }
        assert forall|y: Seq<char>| #[trigger] without(s, x).contains(y) <==> (s.contains(y) && y
            != x) by {
            assert(s.contains(y) <==> (d.contains(y) || s.last() == y));
            assert(r.contains(y) <==> (d.contains(y) && y != x));
            if s.last() != x {
                assert(without(s, x) == r.push(s.last()));
                assert(r.push(s.last()).contains(y) <==> (r.contains(y) || s.last() == y));
            } else {
                assert(without(s, x) == r);
            }
        }
        if !s.contains(x) {
            assert(!d.contains(x));
            assert(s.last() != x);
            assert(s =~= d.push(s.last()));
        }
    }
}

/// Opening a project keeps the workspace well formed: within the cap and with no
/// project twice. The project is open afterwards unless the workspace was full.
pub proof fn law_open_keeps_workspace_valid(open: Seq<Seq<char>>, path: Seq<char>)
    requires
        valid_open_set(open),
    ensures
        valid_open_set(open_after_add(open, path)),
        open_after_add(open, path).contains(path) <==> (open.contains(path) || open.len()
            < MAX_PROJECTS),
{
    let r = open_after_add(open, path);
    if !open.contains(path) && open.len() < MAX_PROJECTS {
        assert(r[open.len() as int] == path);
        assert forall|i: int, j: int| 0 <= i < j < r.len() implies r[i] != r[j] by {
            if j == open.len() {
                assert(open[i] == r[i]);
            }
        }
        assert forall|k: int| 0 <= k < r.len() implies r[k] != path || k == open.len() by {
            if k < open.len() {
                assert(open[k] == r[k]);
            }
        }
    }
}

/// Closing a project keeps the workspace well formed and the active project open; the
/// closed project is gone and every other open project stays open.
pub proof fn law_close_keeps_workspace_valid(
    open: Seq<Seq<char>>,
    active: Option<Seq<char>>,
    path: Seq<char>,
)
    requires
        valid_open_set(open),
        active_is_open(open, active),
    ensures
        valid_open_set(without(open, path)),
        !without(open, path).contains(path),
        forall|y: Seq<char>| y != path && open.contains(y) ==> #[trigger] without(open, path).contains(y),
        active_is_open(without(open, path), active_after_remove(without(open, path), active, path)),
{
    lemma_without(open, path);
    let rem = without(open, path);
    if active == Some(path) && rem.len() > 0 {
        assert(rem.contains(rem[0]));
    }
}

/// Closing a project that was just opened gives back the open set as it was before.
pub proof fn law_close_undoes_open(open: Seq<Seq<char>>, path: Seq<char>)
    requires
        !open.contains(path),
    ensures
        without(open_after_add(open, path), path) == open,
{
    lemma_without(open, path);
    if open.len() < MAX_PROJECTS {
        let pushed = open.push(path);
        assert(pushed.drop_last() =~= open);
    }
}

proof fn lemma_split_no_newline(x: Seq<char>)
    requires
        !x.contains('\n'),
    ensures
        split_lines(x) == seq![x],
    decreases x.len(),
{
    if x.len() > 0 {
        let d = x.drop_last();
        assert(!d.contains('\n')) by {
            if d.contains('\n') {
                let k = choose|k: int| 0 <= k < d.len() && d[k] == '\n';
                assert(x[k] == '\n');
            }
        }
        lemma_split_no_newline(d);
        assert(x[x.len() - 1] != '\n');
        assert(d.push(x.last()) =~= x);
    } else {
        assert(x =~= Seq::<char>::empty());
    }
}

proof fn lemma_split_append(a: Seq<char>, b: Seq<char>)
    requires
        !b.contains('\n'),
    ensures
        split_lines(a + b) == split_lines(a).update(
            split_lines(a).len() - 1,
            split_lines(a).last() + b,
        ),
    decreases b.len(),
{
    lemma_split_lines_nonempty(a);
    let p = split_lines(a);
    if b.len() == 0 {
        assert(a + b =~= a);
        assert(p.last() + b =~= p.last());
        assert(p.update(p.len() - 1, p.last() + b) =~= p);
    } else {
        let bd = b.drop_last();
        assert(!bd.contains('\n')) by {
            if bd.contains('\n') {
                let k = choose|k: int| 0 <= k < bd.len() && bd[k] == '\n';
                assert(b[k] == '\n');
            }
        }
        lemma_split_append(a, bd);
        assert((a + b).drop_last() =~= a + bd);
        assert((a + b).last() == b.last());
        assert(b.last() != '\n') by {
            assert(b[b.len() - 1] == b.last());
        }
        let q = split_lines(a + bd);
        assert(q.len() == p.len());
        assert(q.last() == p.last() + bd);
        assert((p.last() + bd).push(b.last()) =~= p.last() + b);
        assert(q.update(q.len() - 1, q.last().push(b.last())) =~= p.update(
            p.len() - 1,
            p.last() + b,
        ));
    }
}

proof fn lemma_split_join(xs: Seq<Seq<char>>)
    requires
        xs.len() > 0,
        forall|i: int| 0 <= i < xs.len() ==> !(#[trigger] xs[i]).contains('\n'),
    ensures
        split_lines(join_lines(xs)) == xs,
    decreases xs.len(),
{
    if xs.len() == 1 {
        lemma_split_no_newline(xs[0]);
        assert(seq![xs[0]] =~= xs);
    } else {
        let d = xs.drop_last();
        assert forall|i: int| 0 <= i < d.len() implies !(#[trigger] d[i]).contains('\n') by {
            assert(d[i] == xs[i]);
        }
        lemma_split_join(d);
        let j = join_lines(d);
        let jn = j + seq!['\n'];
        assert(jn.drop_last() =~= j);
        assert(jn.last() == '\n');
        assert(split_lines(jn) == d.push(Seq::empty()));
        assert(!xs.last().contains('\n')) by {
            assert(xs[xs.len() - 1] == xs.last());
        }
        lemma_split_append(jn, xs.last());
        assert(Seq::<char>::empty() + xs.last() =~= xs.last());
        assert(d.push(Seq::empty()).update(d.len() as int, xs.last()) =~= xs);
    }
}

proof fn lemma_drop_empty_all_nonempty(xs: Seq<Seq<char>>)
    requires
        forall|i: int| 0 <= i < xs.len() ==> (#[trigger] xs[i]).len() > 0,
    ensures
        drop_empty(xs) == xs,
    decreases xs.len(),
{
    if xs.len() > 0 {
        let d = xs.drop_last();
        assert forall|i: int| 0 <= i < d.len() implies (#[trigger] d[i]).len() > 0 by {
            assert(d[i] == xs[i]);
        }
        lemma_drop_empty_all_nonempty(d);
        assert(xs[xs.len() - 1] == xs.last());
        assert(d.push(xs.last()) =~= xs);
    }
}

/// Saving the workspace and restoring it on the next launch gives back the same open
/// projects in the same order, for any non-empty well-formed open set whose paths are
/// non-empty and hold no line feed.
pub proof fn law_restore_after_persist(open: Seq<Seq<char>>, last_repo: Option<Seq<char>>)
    requires
        valid_open_set(open),
        open.len() > 0,
        forall|i: int|
            0 <= i < open.len() ==> (#[trigger] open[i]).len() > 0 && !open[i].contains('\n'),
    ensures
        restored_paths(join_lines(open), last_repo) == open,
{
    assert(open[0].len() > 0);
    lemma_join_len(open);
    lemma_split_join(open);
    lemma_drop_empty_all_nonempty(open);
}

proof fn lemma_join_len(xs: Seq<Seq<char>>)
    requires
        xs.len() > 0,
        xs[0].len() > 0,
    ensures
        join_lines(xs).len() > 0,
    decreases xs.len(),
{
    if xs.len() > 1 {
        assert(xs.drop_last()[0] == xs[0]);
        lemma_join_len(xs.drop_last());
    }
}

/// Restoring the saved active project never makes a project active that is not open.
pub proof fn law_restore_keeps_active_open(
    open: Seq<Seq<char>>,
    active: Option<Seq<char>>,
    saved: Seq<char>,
)
    requires
        active_is_open(open, active),
    ensures
        active_is_open(open, active_after_restore(open, active, saved)),
{
}

} // verus!
