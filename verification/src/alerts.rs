//! Ambient alerts: each cycle, per open project, compare conflict, failing-pipeline and
//! review-request state against the previous cycle, raise a notice for each new item,
//! and roll the totals into the tray tooltip.

use vstd::prelude::*;

use crate::reviews::{request_view, request_views, ReviewRequest};
use crate::text::{concat, decimal, decimal_string, owned, views};
use crate::workspace::{project_label, project_name};

verus! {

/// Last-seen alert state of one project, so only new items are announced.
pub struct AlertState {
    pub had_conflicts: bool,
    /// Pipelines that were failing, each once.
    pub failing: Vec<String>,
    /// Numbers of the review requests already announced, each once.
    pub seen_reviews: Vec<u32>,
}

/// One pipeline's state from a CI poll.
pub struct PipelineStatus {
    pub pipeline: String,
    /// e.g. `success`, `failed`, `running`, `verified`.
    pub status: String,
}

/// What one cycle observed of one open project.
pub struct ProjectSignals {
    pub path: String,
    pub has_conflicts: bool,
    pub ci: Vec<PipelineStatus>,
    pub requests: Vec<ReviewRequest>,
}

/// A desktop notification to raise.
pub struct Notice {
    pub title: String,
    pub body: String,
}

/// The alert state of every project seen so far, by path.
pub struct AlertBook {
    pub entries: Vec<(String, AlertState)>,
}

/// What one cycle decided: the notices to raise, in order, and the tray tooltip.
pub struct AlertReport {
    pub notices: Vec<Notice>,
    pub tooltip: String,
}

/// An alert state's view: had conflicts, failing pipelines, announced review numbers.
pub type AlertView = (bool, Seq<Seq<char>>, Seq<u32>);

/// A cycle's observation of one project: path, conflicts, (pipeline, status) pairs and
/// (number, title, url) review requests.
pub type SignalView = (Seq<char>, bool, Seq<(Seq<char>, Seq<char>)>, Seq<(u32, Seq<char>, Seq<char>)>);

/// A notice's view: title and body.
pub type NoticeView = (Seq<char>, Seq<char>);

pub open spec fn alert_view(a: AlertState) -> AlertView {
    (a.had_conflicts, views(a.failing@), a.seen_reviews@)
}

pub open spec fn book_view(b: AlertBook) -> Seq<(Seq<char>, AlertView)> {
    b.entries@.map_values(|e: (String, AlertState)| (e.0@, alert_view(e.1)))
}

pub open spec fn pipeline_view(p: PipelineStatus) -> (Seq<char>, Seq<char>) {
    (p.pipeline@, p.status@)
}

pub open spec fn signal_view(s: ProjectSignals) -> SignalView {
    (s.path@, s.has_conflicts, s.ci@.map_values(|p: PipelineStatus| pipeline_view(p)), request_views(s.requests@))
}

pub open spec fn signal_views(ss: Seq<ProjectSignals>) -> Seq<SignalView> {
    ss.map_values(|s: ProjectSignals| signal_view(s))
}

pub open spec fn notice_views(ns: Seq<Notice>) -> Seq<NoticeView> {
    ns.map_values(|n: Notice| (n.title@, n.body@))
}

/// The state of a project never seen before.
pub open spec fn fresh_alert() -> AlertView {
    (false, Seq::empty(), Seq::empty())
}

/// The failing pipelines of a poll, each once, in order of first appearance.
pub open spec fn failing_pipelines(ci: Seq<(Seq<char>, Seq<char>)>) -> Seq<Seq<char>>
    decreases ci.len(),
{
    if ci.len() == 0 {
        Seq::empty()
    } else {
        let r = failing_pipelines(ci.drop_last());
        if ci.last().1 == "failed"@ && !r.contains(ci.last().0) {
            r.push(ci.last().0)
        } else {
            r
        }
    }
}

/// The numbers of `requests`, each once, in order of first appearance.
pub open spec fn request_numbers(requests: Seq<(u32, Seq<char>, Seq<char>)>) -> Seq<u32>
    decreases requests.len(),
{
    if requests.len() == 0 {
        Seq::empty()
    } else {
        let r = request_numbers(requests.drop_last());
        if !r.contains(requests.last().0) {
            r.push(requests.last().0)
        } else {
            r
        }
    }
}

/// The index of `path`'s entry in the book, or the number of entries.
pub open spec fn book_index(book: Seq<(Seq<char>, AlertView)>, path: Seq<char>) -> nat
    decreases book.len(),
{
    if book.len() == 0 {
        0
    } else if book[0].0 == path {
        0
    } else {
        1 + book_index(book.drop_first(), path)
    }
}

/// `path`'s last-seen state (fresh when never seen).
pub open spec fn book_lookup(book: Seq<(Seq<char>, AlertView)>, path: Seq<char>) -> AlertView {
    let k = book_index(book, path);
    if k < book.len() {
        book[k as int].1
    } else {
        fresh_alert()
    }
}

/// The book with `path`'s state set to `st`.
pub open spec fn book_update(
    book: Seq<(Seq<char>, AlertView)>,
    path: Seq<char>,
    st: AlertView,
) -> Seq<(Seq<char>, AlertView)> {
    let k = book_index(book, path);
    if k < book.len() {
        book.update(k as int, (path, st))
    } else {
        book.push((path, st))
    }
}

/// The notice for conflicts that appeared since the last cycle.
pub open spec fn conflict_notices(prev: AlertView, name: Seq<char>, has_conflicts: bool) -> Seq<
    NoticeView,
> {
    if has_conflicts && !prev.0 {
        seq![("Merge conflict"@, name + " has merge conflicts"@)]
    } else {
        Seq::empty()
    }
}

/// A notice for each pipeline of `failing` that was not failing before.
pub open spec fn failing_notices(
    name: Seq<char>,
    failing: Seq<Seq<char>>,
    before: Seq<Seq<char>>,
) -> Seq<NoticeView>
    decreases failing.len(),
{
    if failing.len() == 0 {
        Seq::empty()
    } else {
        let r = failing_notices(name, failing.drop_last(), before);
        if before.contains(failing.last()) {
            r
        } else {
            r.push(("Pipeline failed"@, name + ": "@ + failing.last() + " is failing"@))
        }
    }
}

/// A notice for each review request whose number was not announced before.
pub open spec fn review_notices(
    name: Seq<char>,
    requests: Seq<(u32, Seq<char>, Seq<char>)>,
    seen: Seq<u32>,
) -> Seq<NoticeView>
    decreases requests.len(),
{
    if requests.len() == 0 {
        Seq::empty()
    } else {
        let r = review_notices(name, requests.drop_last(), seen);
        let q = requests.last();
        if seen.contains(q.0) {
            r
        } else {
            r.push(("Review requested"@, name + " #"@ + decimal(q.0 as nat) + ": "@ + q.1))
        }
    }
}

/// The notices for one project this cycle, given its last-seen state.
pub open spec fn project_notices(prev: AlertView, s: SignalView) -> Seq<NoticeView> {
    let name = project_label(s.0);
    conflict_notices(prev, name, s.1) + failing_notices(name, failing_pipelines(s.2), prev.1)
        + review_notices(name, s.3, prev.2)
}

/// The state recorded for one project after this cycle.
pub open spec fn next_alert(s: SignalView) -> AlertView {
    (s.1, failing_pipelines(s.2), request_numbers(s.3))
}

/// A cycle over `signals` (in order) starting from `book`: the new book, the notices,
/// and the totals of conflicted projects, failing pipelines and review requests.
pub open spec fn alerts_cycle(book: Seq<(Seq<char>, AlertView)>, signals: Seq<SignalView>) -> (
    Seq<(Seq<char>, AlertView)>,
    Seq<NoticeView>,
    nat,
    nat,
    nat,
)
    decreases signals.len(),
{
    if signals.len() == 0 {
        (book, Seq::empty(), 0, 0, 0)
    } else {
        let (b, ns, c, f, r) = alerts_cycle(book, signals.drop_last());
        let s = signals.last();
        let prev = book_lookup(b, s.0);
        (
            book_update(b, s.0, next_alert(s)),
            ns + project_notices(prev, s),
            c + if s.1 {
                1nat
            } else {
                0nat
            },
            f + failing_pipelines(s.2).len(),
            r + s.3.len(),
        )
    }
}

/// How much a cycle can count: one per project, pipeline and review request.
pub open spec fn signal_load(signals: Seq<SignalView>) -> nat
    decreases signals.len(),
{
    if signals.len() == 0 {
        0
    } else {
        signal_load(signals.drop_last()) + 1 + signals.last().2.len() + signals.last().3.len()
    }
}

/// `parts` joined with `sep`.
pub open spec fn joined(parts: Seq<Seq<char>>, sep: Seq<char>) -> Seq<char>
    decreases parts.len(),
{
    if parts.len() == 0 {
        Seq::empty()
    } else if parts.len() == 1 {
        parts[0]
    } else {
        joined(parts.drop_last(), sep) + sep + parts.last()
    }
}

/// The non-zero totals, as tooltip phrases.
pub open spec fn tooltip_parts(conflicts: nat, failing: nat, reviews: nat) -> Seq<Seq<char>> {
    let a: Seq<Seq<char>> = if conflicts > 0 {
        seq![decimal(conflicts) + " conflicts"@]
    } else {
        Seq::empty()
    };
    let b: Seq<Seq<char>> = if failing > 0 {
        seq![decimal(failing) + " failing"@]
    } else {
        Seq::empty()
    };
    let c: Seq<Seq<char>> = if reviews > 0 {
        seq![decimal(reviews) + " reviews"@]
    } else {
        Seq::empty()
    };
    a + b + c
}

/// The tray tooltip for the cycle's totals.
pub open spec fn tooltip_text(conflicts: nat, failing: nat, reviews: nat) -> Seq<char> {
    let parts = tooltip_parts(conflicts, failing, reviews);
    if parts.len() == 0 {
        "git-hud — all clear"@
    } else {
        "git-hud — "@ + joined(parts, " · "@)
    }
}

proof fn lemma_book_index(book: Seq<(Seq<char>, AlertView)>, path: Seq<char>)
    ensures
        book_index(book, path) <= book.len(),
        book_index(book, path) < book.len() ==> book[book_index(book, path) as int].0 == path,
        forall|j: int| 0 <= j < book_index(book, path) ==> book[j].0 != path,
    decreases book.len(),
{
    if book.len() > 0 && book[0].0 != path {
        lemma_book_index(book.drop_first(), path);
        assert forall|j: int| 0 <= j < book_index(book, path) implies book[j].0 != path by {
            if j > 0 {
                assert(book[j] == book.drop_first()[j - 1]);
            }
        }
    }
}

fn contains_string(v: &Vec<String>, x: &String) -> (r: bool)
    ensures
        r == views(v@).contains(x@),
{
    let n = v.len();
    let mut i: usize = 0;
    while i < n
        invariant
            n == v@.len(),
            i <= n,
            forall|j: int| 0 <= j < i ==> v@[j]@ != x@,
        decreases n - i,
    {
        if v[i] == *x {
            assert(views(v@)[i as int] == x@);
            return true;
        }
        i = i + 1;
    }
    proof {
        if views(v@).contains(x@) {
            let k = choose|k: int| 0 <= k < views(v@).len() && views(v@)[k] == x@;
            assert(v@[k]@ == x@);
        }
    }
    false
}

fn contains_number(v: &Vec<u32>, x: u32) -> (r: bool)
    ensures
        r == v@.contains(x),
{
    let n = v.len();
    let mut i: usize = 0;
    while i < n
        invariant
            n == v@.len(),
            i <= n,
            forall|j: int| 0 <= j < i ==> v@[j] != x,
        decreases n - i,
    {
        if v[i] == x {
            return true;
        }
        i = i + 1;
    }
    false
}

/// The failing pipelines of a CI poll, each once, in order of first appearance.
pub fn failing_now(ci: &Vec<PipelineStatus>) -> (r: Vec<String>)
    ensures
        views(r@) == failing_pipelines(ci@.map_values(|p: PipelineStatus| pipeline_view(p))),
{
    let ghost cv = ci@.map_values(|p: PipelineStatus| pipeline_view(p));
    let failed = owned("failed");
    let n = ci.len();
    let mut out: Vec<String> = Vec::new();
    let mut i: usize = 0;
    while i < n
        invariant
            n == ci@.len(),
            i <= n,
            cv == ci@.map_values(|p: PipelineStatus| pipeline_view(p)),
            failed@ == "failed"@,
            views(out@) == failing_pipelines(cv.take(i as int)),
        decreases n - i,
    {
        assert(cv.take(i as int + 1).drop_last() =~= cv.take(i as int));
        assert(cv.take(i as int + 1).last() == pipeline_view(ci@[i as int]));
        let p = &ci[i];
        if p.status == failed && !contains_string(&out, &p.pipeline) {
            let ghost before = out@;
            out.push(p.pipeline.clone());
            assert(views(out@) =~= views(before).push(p.pipeline@));
        }
        i = i + 1;
    }
    assert(cv.take(n as int) =~= cv);
    out
}

fn numbers_of(requests: &Vec<ReviewRequest>) -> (r: Vec<u32>)
    ensures
        r@ == request_numbers(request_views(requests@)),
{
    let ghost rv = request_views(requests@);
    let n = requests.len();
    let mut out: Vec<u32> = Vec::new();
    let mut i: usize = 0;
    while i < n
        invariant
            n == requests@.len(),
            i <= n,
            rv == request_views(requests@),
            out@ == request_numbers(rv.take(i as int)),
        decreases n - i,
    {
        assert(rv.take(i as int + 1).drop_last() =~= rv.take(i as int));
        assert(rv.take(i as int + 1).last() == request_view(requests@[i as int]));
        let num = requests[i].number;
        if !contains_number(&out, num) {
            out.push(num);
        }
        i = i + 1;
    }
    assert(rv.take(n as int) =~= rv);
    out
}

fn push_failing_notices(
    out: &mut Vec<Notice>,
    name: &String,
    failing: &Vec<String>,
    before: &Vec<String>,
)
    ensures
        notice_views(final(out)@) == notice_views(old(out)@) + failing_notices(
            name@,
            views(failing@),
            views(before@),
        ),
{
    let ghost start = notice_views(out@);
    let ghost fv = views(failing@);
    let n = failing.len();
    let mut i: usize = 0;
    assert(start + failing_notices(name@, fv.take(0), views(before@)) =~= start);
    while i < n
        invariant
            n == failing@.len(),
            i <= n,
            fv == views(failing@),
            notice_views(out@) == start + failing_notices(name@, fv.take(i as int), views(before@)),
        decreases n - i,
    {
        assert(fv.take(i as int + 1).drop_last() =~= fv.take(i as int));
        assert(fv.take(i as int + 1).last() == failing@[i as int]@);
        if !contains_string(before, &failing[i]) {
            let ghost pre = notice_views(out@);
            let head = concat(name.as_str(), ": ");
            let mid = concat(head.as_str(), failing[i].as_str());
            let body = concat(mid.as_str(), " is failing");
            let note = Notice { title: owned("Pipeline failed"), body };
            out.push(note);
            assert(notice_views(out@) =~= pre.push((note.title@, note.body@)));
        }
        i = i + 1;
    }
    assert(fv.take(n as int) =~= fv);
}

fn push_review_notices(
    out: &mut Vec<Notice>,
    name: &String,
    requests: &Vec<ReviewRequest>,
    seen: &Vec<u32>,
)
    ensures
        notice_views(final(out)@) == notice_views(old(out)@) + review_notices(
            name@,
            request_views(requests@),
            seen@,
        ),
{
    let ghost start = notice_views(out@);
    let ghost rv = request_views(requests@);
    let n = requests.len();
    let mut i: usize = 0;
    assert(start + review_notices(name@, rv.take(0), seen@) =~= start);
    while i < n
        invariant
            n == requests@.len(),
            i <= n,
            rv == request_views(requests@),
            notice_views(out@) == start + review_notices(name@, rv.take(i as int), seen@),
        decreases n - i,
    {
        assert(rv.take(i as int + 1).drop_last() =~= rv.take(i as int));
        assert(rv.take(i as int + 1).last() == request_view(requests@[i as int]));
        let q = &requests[i];
        if !contains_number(seen, q.number) {
            let ghost pre = notice_views(out@);
            let head = concat(name.as_str(), " #");
            let num = decimal_string(q.number as u64);
            let mid = concat(head.as_str(), num.as_str());
            let mid2 = concat(mid.as_str(), ": ");
            let body = concat(mid2.as_str(), q.title.as_str());
            let note = Notice { title: owned("Review requested"), body };
            out.push(note);
            assert(notice_views(out@) =~= pre.push((note.title@, note.body@)));
        }
        i = i + 1;
    }
    assert(rv.take(n as int) =~= rv);
}

fn book_find(book: &AlertBook, path: &String) -> (r: usize)
    ensures
        r == book_index(book_view(*book), path@),
{
    proof {
        lemma_book_index(book_view(*book), path@);
    }
    let n = book.entries.len();
    let mut i: usize = 0;
    while i < n
        invariant
            n == book.entries@.len(),
            i <= n,
            forall|j: int| 0 <= j < i ==> book_view(*book)[j].0 != path@,
        decreases n - i,
    {
        assert(book_view(*book)[i as int].0 == book.entries@[i as int].0@);
        if book.entries[i].0 == *path {
            proof {
                lemma_book_index(book_view(*book), path@);
            }
            return i;
        }
        i = i + 1;
    }
    proof {
        lemma_book_index(book_view(*book), path@);
    }
    n
}

/// Decide one project's notices against its last-seen state and record its new state.
fn observe_project(book: &mut AlertBook, s: &ProjectSignals, notices: &mut Vec<Notice>) -> (r: (
    bool,
    usize,
))
    ensures
        book_view(*final(book)) == book_update(
            book_view(*old(book)),
            s.path@,
            next_alert(signal_view(*s)),
        ),
        notice_views(final(notices)@) == notice_views(old(notices)@) + project_notices(
            book_lookup(book_view(*old(book)), s.path@),
            signal_view(*s),
        ),
        r.0 == s.has_conflicts,
        r.1 == failing_pipelines(signal_view(*s).2).len(),
{
    let ghost b = book_view(*book);
    let ghost sv = signal_view(*s);
    let k = book_find(book, &s.path);
    let name = project_name(s.path.as_str());
    let failing = failing_now(&s.ci);
    let numbers = numbers_of(&s.requests);
    let fresh = AlertState { had_conflicts: false, failing: Vec::new(), seen_reviews: Vec::new() };
    assert(alert_view(fresh) =~= fresh_alert());
    let prev: &AlertState = if k < book.entries.len() {
        &book.entries[k].1
    } else {
        &fresh
    };
    assert(alert_view(*prev) == book_lookup(b, s.path@));
    let ghost pv = alert_view(*prev);
    let ghost start = notice_views(notices@);
    if s.has_conflicts && !prev.had_conflicts {
        let body = concat(name.as_str(), " has merge conflicts");
        let note = Notice { title: owned("Merge conflict"), body };
        notices.push(note);
        assert(notice_views(notices@) =~= start + conflict_notices(pv, name@, s.has_conflicts));
    } else {
        assert(notice_views(notices@) =~= start + conflict_notices(pv, name@, s.has_conflicts));
    }
    push_failing_notices(notices, &name, &failing, &prev.failing);
    push_review_notices(notices, &name, &s.requests, &prev.seen_reviews);
    assert(notice_views(notices@) =~= start + project_notices(pv, sv));
    let n_failing = failing.len();
    let next = AlertState { had_conflicts: s.has_conflicts, failing, seen_reviews: numbers };
    assert(alert_view(next) == next_alert(sv));
    if k < book.entries.len() {
        book.entries.set(k, (s.path.clone(), next));
    } else {
        book.entries.push((s.path.clone(), next));
    }
    assert(book_view(*book) =~= book_update(b, s.path@, next_alert(sv)));
    (s.has_conflicts, n_failing)
}

proof fn lemma_failing_len(ci: Seq<(Seq<char>, Seq<char>)>)
    ensures
        failing_pipelines(ci).len() <= ci.len(),
    decreases ci.len(),
{
    if ci.len() > 0 {
        lemma_failing_len(ci.drop_last());
    }
}

proof fn lemma_cycle_totals(book: Seq<(Seq<char>, AlertView)>, signals: Seq<SignalView>)
    ensures
        alerts_cycle(book, signals).2 + alerts_cycle(book, signals).3 + alerts_cycle(
            book,
            signals,
        ).4 <= signal_load(signals),
    decreases signals.len(),
{
    if signals.len() > 0 {
        lemma_cycle_totals(book, signals.drop_last());
        lemma_failing_len(signals.last().2);
    }
}

proof fn lemma_load_prefix(signals: Seq<SignalView>, i: int)
    requires
        0 <= i <= signals.len(),
    ensures
        signal_load(signals.take(i)) <= signal_load(signals),
    decreases signals.len(),
{
    if i < signals.len() {
        assert(signals.drop_last().take(i) =~= signals.take(i));
        lemma_load_prefix(signals.drop_last(), i);
    } else {
        assert(signals.take(i) =~= signals);
    }
}

fn joined_string(parts: &Vec<String>, sep: &str) -> (r: String)
    ensures
        r@ == joined(views(parts@), sep@),
{
    let ghost all = views(parts@);
    let n = parts.len();
    let mut out = String::new();
    let mut i: usize = 0;
    while i < n
        invariant
            n == parts@.len(),
            i <= n,
            all == views(parts@),
            out@ == joined(all.take(i as int), sep@),
        decreases n - i,
    {
        assert(all.take(i as int + 1).drop_last() =~= all.take(i as int));
        assert(all.take(i as int + 1).last() == parts@[i as int]@);
        if i == 0 {
            out = parts[0].clone();
            assert(out@ == all.take(1)[0]);
        } else {
            let with_sep = concat(out.as_str(), sep);
            out = concat(with_sep.as_str(), parts[i].as_str());
        }
        i = i + 1;
    }
    assert(all.take(n as int) =~= all);
    out
}

/// The tray tooltip for a cycle's totals: "all clear", or the non-zero totals of
/// conflicted projects, failing pipelines and review requests.
pub fn tooltip(conflicts: usize, failing: usize, reviews: usize) -> (r: String)
    ensures
        r@ == tooltip_text(conflicts as nat, failing as nat, reviews as nat),
{
    let mut parts: Vec<String> = Vec::new();
    if conflicts > 0 {
        parts.push(concat(decimal_string(conflicts as u64).as_str(), " conflicts"));
    }
    if failing > 0 {
        parts.push(concat(decimal_string(failing as u64).as_str(), " failing"));
    }
    if reviews > 0 {
        parts.push(concat(decimal_string(reviews as u64).as_str(), " reviews"));
    }
    assert(views(parts@) =~= tooltip_parts(conflicts as nat, failing as nat, reviews as nat));
    if parts.len() == 0 {
        owned("git-hud — all clear")
    } else {
        let body = joined_string(&parts, " · ");
        concat("git-hud — ", body.as_str())
    }
}

impl AlertBook {
    /// A book that has seen no project yet.
    pub fn new() -> (r: Self)
        ensures
            book_view(r) == Seq::<(Seq<char>, AlertView)>::empty(),
    {
        let r = AlertBook { entries: Vec::new() };
        assert(book_view(r) =~= Seq::<(Seq<char>, AlertView)>::empty());
        r
    }
}

/// One alerts cycle over the open projects' observations, in order: the notices for
/// what is new since each project's last cycle (a conflict that appeared, each pipeline
/// that started failing, each review request not announced before), the updated book,
/// and the tray tooltip for the cycle's totals.
pub fn run_alerts(book: &mut AlertBook, signals: &Vec<ProjectSignals>) -> (r: AlertReport)
    requires
        signal_load(signal_views(signals@)) <= usize::MAX,
    ensures
        ({
            let (b, ns, c, f, q) = alerts_cycle(book_view(*old(book)), signal_views(signals@));
            &&& book_view(*final(book)) == b
            &&& notice_views(r.notices@) == ns
            &&& r.tooltip@ == tooltip_text(c, f, q)
        }),
{
    let ghost b0 = book_view(*book);
    let ghost sv = signal_views(signals@);
    let n = signals.len();
    let mut notices: Vec<Notice> = Vec::new();
    let mut conflicts: usize = 0;
    let mut failing: usize = 0;
    let mut reviews: usize = 0;
    let mut i: usize = 0;
    assert(sv.take(0) =~= Seq::<SignalView>::empty());
    assert(notice_views(notices@) =~= Seq::<NoticeView>::empty());
    while i < n
        invariant
            n == signals@.len(),
            i <= n,
            sv == signal_views(signals@),
            signal_load(sv) <= usize::MAX,
            ({
                let (b, ns, c, f, q) = alerts_cycle(b0, sv.take(i as int));
                &&& book_view(*book) == b
                &&& notice_views(notices@) == ns
                &&& conflicts == c
                &&& failing == f
                &&& reviews == q
            }),
        decreases n - i,
    {
        let ghost pre = sv.take(i as int);
        assert(sv.take(i as int + 1).drop_last() =~= pre);
        assert(sv.take(i as int + 1).last() == signal_view(signals@[i as int]));
        proof {
            lemma_cycle_totals(b0, sv.take(i as int + 1));
            lemma_load_prefix(sv, i as int + 1);
        }
        let s = &signals[i];
        let (has, n_failing) = observe_project(book, s, &mut notices);
        if has {
            conflicts = conflicts + 1;
        }
        failing = failing + n_failing;
        reviews = reviews + s.requests.len();
        i = i + 1;
    }
    assert(sv.take(n as int) =~= sv);
    AlertReport { notices, tooltip: tooltip(conflicts, failing, reviews) }
}

proof fn lemma_book_index_is(book: Seq<(Seq<char>, AlertView)>, q: Seq<char>, k: int)
    requires
        0 <= k <= book.len(),
        k < book.len() ==> book[k].0 == q,
        forall|j: int| 0 <= j < k ==> book[j].0 != q,
    ensures
        book_index(book, q) == k,
{
    lemma_book_index(book, q);
    let f = book_index(book, q) as int;
    if f < k {
        assert(book[f].0 == q);
    }
    if k < f {
        assert(book[k].0 == q);
    }
}

proof fn lemma_lookup_update(
    book: Seq<(Seq<char>, AlertView)>,
    p: Seq<char>,
    st: AlertView,
    q: Seq<char>,
)
    ensures
        book_lookup(book_update(book, p, st), q) == if q == p {
            st
        } else {
            book_lookup(book, q)
        },
        (q == p || book_index(book, q) < book.len()) ==> book_index(book_update(book, p, st), q)
            < book_update(book, p, st).len(),
{
    lemma_book_index(book, p);
    lemma_book_index(book, q);
    let k = book_index(book, p) as int;
    let u = book_update(book, p, st);
    let kq = book_index(book, q) as int;
    if q == p {
        assert forall|j: int| 0 <= j < k implies u[j].0 != q by {
            assert(u[j] == book[j]);
        }
        lemma_book_index_is(u, q, k);
    } else {
        if kq < book.len() {
            assert(kq != k);
            assert forall|j: int| 0 <= j < kq implies u[j].0 != q by {
                if j != k {
                    assert(u[j] == book[j]);
                }
            }
            assert(u[kq] == book[kq]);
            lemma_book_index_is(u, q, kq);
        } else {
            assert forall|j: int| 0 <= j < u.len() implies u[j].0 != q by {
                if j < book.len() && j != k {
                    assert(u[j] == book[j]);
                }
            }
            lemma_book_index_is(u, q, u.len() as int);
        }
    }
}

/// The paths of `signals` are pairwise distinct.
pub open spec fn distinct_paths(signals: Seq<SignalView>) -> bool {
    forall|i: int, j: int| 0 <= i < j < signals.len() ==> signals[i].0 != signals[j].0
}

proof fn lemma_cycle_records(book: Seq<(Seq<char>, AlertView)>, signals: Seq<SignalView>)
    requires
        distinct_paths(signals),
    ensures
        forall|j: int|
            0 <= j < signals.len() ==> book_lookup(alerts_cycle(book, signals).0, (#[trigger] signals[j]).0)
                == next_alert(signals[j]),
        forall|q: Seq<char>|
            (forall|j: int| 0 <= j < signals.len() ==> (#[trigger] signals[j]).0 != q)
                ==> #[trigger] book_lookup(alerts_cycle(book, signals).0, q) == book_lookup(book, q),
        forall|j: int|
            0 <= j < signals.len() ==> book_index(alerts_cycle(book, signals).0, (#[trigger] signals[j]).0)
                < alerts_cycle(book, signals).0.len(),
    decreases signals.len(),
{
    if signals.len() > 0 {
        let d = signals.drop_last();
        let s = signals.last();
        assert(distinct_paths(d));
        lemma_cycle_records(book, d);
        let b = alerts_cycle(book, d).0;
        assert forall|j: int| 0 <= j < signals.len() implies book_lookup(
            alerts_cycle(book, signals).0,
            (#[trigger] signals[j]).0,
        ) == next_alert(signals[j]) by {
            lemma_lookup_update(b, s.0, next_alert(s), signals[j].0);
            if j < signals.len() - 1 {
                assert(d[j] == signals[j]);
                assert(signals[j].0 != s.0);
            }
        }
        assert forall|j: int| 0 <= j < signals.len() implies book_index(
            alerts_cycle(book, signals).0,
            (#[trigger] signals[j]).0,
        ) < alerts_cycle(book, signals).0.len() by {
            lemma_lookup_update(b, s.0, next_alert(s), signals[j].0);
            if j < signals.len() - 1 {
                assert(d[j] == signals[j]);
            }
        }
        assert forall|q: Seq<char>|
            (forall|j: int| 0 <= j < signals.len() ==> (#[trigger] signals[j]).0 != q)
                implies #[trigger] book_lookup(alerts_cycle(book, signals).0, q) == book_lookup(book, q) by {
            lemma_lookup_update(b, s.0, next_alert(s), q);
            assert(signals[signals.len() - 1].0 != q);
            assert forall|j: int| 0 <= j < d.len() implies (#[trigger] d[j]).0 != q by {
                assert(d[j] == signals[j]);
            }
        }
    }
}

proof fn lemma_failing_notices_none(name: Seq<char>, failing: Seq<Seq<char>>, before: Seq<Seq<char>>)
    requires
        forall|i: int| 0 <= i < failing.len() ==> before.contains(#[trigger] failing[i]),
    ensures
        failing_notices(name, failing, before) == Seq::<NoticeView>::empty(),
    decreases failing.len(),
{
    if failing.len() > 0 {
        let d = failing.drop_last();
        assert forall|i: int| 0 <= i < d.len() implies before.contains(#[trigger] d[i]) by {
            assert(d[i] == failing[i]);
        }
        lemma_failing_notices_none(name, d, before);
        assert(before.contains(failing[failing.len() - 1]));
    }
}

proof fn lemma_request_numbers_cover(requests: Seq<(u32, Seq<char>, Seq<char>)>)
    ensures
        forall|i: int| 0 <= i < requests.len() ==> request_numbers(requests).contains(#[trigger] requests[i].0),
    decreases requests.len(),
{
    if requests.len() > 0 {
        let d = requests.drop_last();
        lemma_request_numbers_cover(d);
        let r = request_numbers(d);
        let last = requests.last().0;
        assert forall|i: int| 0 <= i < requests.len() implies request_numbers(requests).contains(
            #[trigger] requests[i].0,
        ) by {
            if i < requests.len() - 1 {
                assert(d[i] == requests[i]);
                let k = choose|k: int| 0 <= k < r.len() && r[k] == requests[i].0;
                if !r.contains(last) {
                    assert(r.push(last)[k] == requests[i].0);
                }
            } else {
                if !r.contains(last) {
                    assert(r.push(last)[r.len() as int] == last);
                }
            }
        }
    }
}

proof fn lemma_review_notices_none(
    name: Seq<char>,
    requests: Seq<(u32, Seq<char>, Seq<char>)>,
    seen: Seq<u32>,
)
    requires
        forall|i: int| 0 <= i < requests.len() ==> seen.contains(#[trigger] requests[i].0),
    ensures
        review_notices(name, requests, seen) == Seq::<NoticeView>::empty(),
    decreases requests.len(),
{
    if requests.len() > 0 {
        let d = requests.drop_last();
        assert forall|i: int| 0 <= i < d.len() implies seen.contains(#[trigger] d[i].0) by {
            assert(d[i] == requests[i]);
        }
        lemma_review_notices_none(name, d, seen);
        assert(seen.contains(requests[requests.len() - 1].0));
    }
}

proof fn lemma_quiet_project(s: SignalView)
    ensures
        project_notices(next_alert(s), s) == Seq::<NoticeView>::empty(),
{
    let name = project_label(s.0);
    let f = failing_pipelines(s.2);
    assert forall|i: int| 0 <= i < f.len() implies f.contains(#[trigger] f[i]) by {}
    lemma_failing_notices_none(name, f, f);
    lemma_request_numbers_cover(s.3);
    lemma_review_notices_none(name, s.3, request_numbers(s.3));
    assert(conflict_notices(next_alert(s), name, s.1) =~= Seq::<NoticeView>::empty());
    assert(project_notices(next_alert(s), s) =~= Seq::<NoticeView>::empty());
}

proof fn lemma_update_same(book: Seq<(Seq<char>, AlertView)>, p: Seq<char>, st: AlertView)
    requires
        book_index(book, p) < book.len(),
        book_lookup(book, p) == st,
    ensures
        book_update(book, p, st) == book,
{
    lemma_book_index(book, p);
    let k = book_index(book, p) as int;
    assert(book[k] == (p, st));
    assert(book.update(k, (p, st)) =~= book);
}

proof fn lemma_second_cycle_quiet(book: Seq<(Seq<char>, AlertView)>, signals: Seq<SignalView>)
    requires
        distinct_paths(signals),
        forall|j: int|
            0 <= j < signals.len() ==> book_lookup(book, (#[trigger] signals[j]).0) == next_alert(
                signals[j],
            ),
        forall|j: int|
            0 <= j < signals.len() ==> book_index(book, (#[trigger] signals[j]).0) < book.len(),
    ensures
        alerts_cycle(book, signals).1 == Seq::<NoticeView>::empty(),
        alerts_cycle(book, signals).0 == book,
    decreases signals.len(),
{
    if signals.len() > 0 {
        let d = signals.drop_last();
        let s = signals.last();
        assert(distinct_paths(d));
        assert forall|j: int| 0 <= j < d.len() implies book_lookup(book, (#[trigger] d[j]).0)
            == next_alert(d[j]) by {
            assert(d[j] == signals[j]);
        }
        assert forall|j: int| 0 <= j < d.len() implies book_index(book, (#[trigger] d[j]).0)
            < book.len() by {
            assert(d[j] == signals[j]);
        }
        lemma_second_cycle_quiet(book, d);
        lemma_cycle_records(book, d);
        assert forall|j: int| 0 <= j < d.len() implies (#[trigger] d[j]).0 != s.0 by {
            assert(d[j] == signals[j]);
        }
        assert(book_lookup(alerts_cycle(book, d).0, s.0) == book_lookup(book, s.0));
        assert(book_lookup(book, signals[signals.len() - 1].0) == next_alert(s));
        lemma_quiet_project(s);
        assert(alerts_cycle(book, signals).1 =~= Seq::<NoticeView>::empty());
        assert(book_index(book, signals[signals.len() - 1].0) < book.len());
        lemma_update_same(book, s.0, next_alert(s));
    }
}

/// Alerts fire only on new items: running a second cycle with the same observations of
/// the same (distinct) projects announces nothing and leaves the alert book as the first
/// cycle left it.
pub proof fn law_repeat_cycle_is_quiet(book: Seq<(Seq<char>, AlertView)>, signals: Seq<SignalView>)
    requires
        distinct_paths(signals),
    ensures
        alerts_cycle(alerts_cycle(book, signals).0, signals).1 == Seq::<NoticeView>::empty(),
        alerts_cycle(alerts_cycle(book, signals).0, signals).0 == alerts_cycle(book, signals).0,
{
    lemma_cycle_records(book, signals);
    lemma_second_cycle_quiet(alerts_cycle(book, signals).0, signals);
}

/// After a cycle, each observed project's last-seen state is what that cycle observed:
/// its conflict flag, its failing pipelines and the numbers of its review requests.
pub proof fn law_cycle_records_observations(
    book: Seq<(Seq<char>, AlertView)>,
    signals: Seq<SignalView>,
    j: int,
)
    requires
        distinct_paths(signals),
        0 <= j < signals.len(),
    ensures
        book_lookup(alerts_cycle(book, signals).0, signals[j].0) == next_alert(signals[j]),
{
    lemma_cycle_records(book, signals);
    assert(book_lookup(alerts_cycle(book, signals).0, signals[j].0) == next_alert(signals[j]));
}

proof fn lemma_failing_titles(name: Seq<char>, failing: Seq<Seq<char>>, before: Seq<Seq<char>>)
    ensures
        forall|i: int|
            0 <= i < failing_notices(name, failing, before).len() ==> (#[trigger] failing_notices(
                name,
                failing,
                before,
            )[i]).0 == "Pipeline failed"@,
    decreases failing.len(),
{
    if failing.len() > 0 {
        lemma_failing_titles(name, failing.drop_last(), before);
        let r = failing_notices(name, failing.drop_last(), before);
        let all = failing_notices(name, failing, before);
        if !before.contains(failing.last()) {
            assert forall|i: int| 0 <= i < all.len() implies (#[trigger] all[i]).0
                == "Pipeline failed"@ by {
                if i < r.len() {
                    assert(all[i] == r[i]);
                }
            }
        }
    }
}

proof fn lemma_review_titles(
    name: Seq<char>,
    requests: Seq<(u32, Seq<char>, Seq<char>)>,
    seen: Seq<u32>,
)
    ensures
        forall|i: int|
            0 <= i < review_notices(name, requests, seen).len() ==> (#[trigger] review_notices(
                name,
                requests,
                seen,
            )[i]).0 == "Review requested"@,
    decreases requests.len(),
{
    if requests.len() > 0 {
        lemma_review_titles(name, requests.drop_last(), seen);
        let r = review_notices(name, requests.drop_last(), seen);
        let all = review_notices(name, requests, seen);
        if !seen.contains(requests.last().0) {
            assert forall|i: int| 0 <= i < all.len() implies (#[trigger] all[i]).0
                == "Review requested"@ by {
                if i < r.len() {
                    assert(all[i] == r[i]);
                }
            }
        }
    }
}

/// Whether `notices` holds a merge-conflict notice.
pub open spec fn has_conflict_notice(notices: Seq<NoticeView>) -> bool {
    exists|i: int| 0 <= i < notices.len() && (#[trigger] notices[i]).0 == "Merge conflict"@
}

proof fn lemma_project_conflict_notice(prev: AlertView, s: SignalView)
    ensures
        has_conflict_notice(project_notices(prev, s)) <==> (s.1 && !prev.0),
{
    reveal_strlit("Merge conflict");
    reveal_strlit("Pipeline failed");
    reveal_strlit("Review requested");
    assert("Merge conflict"@.len() == 14);
    assert("Pipeline failed"@.len() == 15);
    assert("Review requested"@.len() == 16);
    let name = project_label(s.0);
    let c = conflict_notices(prev, name, s.1);
    let f = failing_notices(name, failing_pipelines(s.2), prev.1);
    let r = review_notices(name, s.3, prev.2);
    lemma_failing_titles(name, failing_pipelines(s.2), prev.1);
    lemma_review_titles(name, s.3, prev.2);
    let all = project_notices(prev, s);
    assert(all == c + f + r);
    if s.1 && !prev.0 {
        assert(all[0] == c[0]);
        assert(all[0].0 == "Merge conflict"@);
    } else {
        assert(c.len() == 0);
        assert forall|i: int| 0 <= i < all.len() implies (#[trigger] all[i]).0 != "Merge conflict"@ by {
            if i < f.len() {
                assert(all[i] == f[i]);
                assert(f[i].0 == "Pipeline failed"@);
            } else {
                assert(all[i] == r[i - f.len()]);
                assert(r[i - f.len()].0 == "Review requested"@);
            }
        }
    }
}

/// A merge-conflict notice is raised for a project exactly when it has conflicts in this
/// cycle and had none when last seen: conflicts going away, or staying, raise nothing.
pub proof fn law_conflict_notice_only_when_new(book: Seq<(Seq<char>, AlertView)>, s: SignalView)
    ensures
        has_conflict_notice(alerts_cycle(book, seq![s]).1) <==> (s.1 && !book_lookup(book, s.0).0),
{
    let one = seq![s];
    assert(one.drop_last() =~= Seq::<SignalView>::empty());
    assert(one.last() == s);
    assert(alerts_cycle(book, one.drop_last()) == (book, Seq::<NoticeView>::empty(), 0nat, 0nat, 0nat));
    lemma_project_conflict_notice(book_lookup(book, s.0), s);
    assert(alerts_cycle(book, one).1 =~= project_notices(book_lookup(book, s.0), s));
}

/// A cycle in which no project has conflicts raises no merge-conflict notice.
pub proof fn law_no_conflicts_no_conflict_notice(
    book: Seq<(Seq<char>, AlertView)>,
    signals: Seq<SignalView>,
)
    requires
        forall|j: int| 0 <= j < signals.len() ==> !(#[trigger] signals[j]).1,
    ensures
        !has_conflict_notice(alerts_cycle(book, signals).1),
    decreases signals.len(),
{
    if signals.len() > 0 {
        let d = signals.drop_last();
        assert forall|j: int| 0 <= j < d.len() implies !(#[trigger] d[j]).1 by {
            assert(d[j] == signals[j]);
        }
        law_no_conflicts_no_conflict_notice(book, d);
        let (b, ns, c, f, q) = alerts_cycle(book, d);
        let s = signals.last();
        assert(!signals[signals.len() - 1].1);
        lemma_project_conflict_notice(book_lookup(b, s.0), s);
        let pn = project_notices(book_lookup(b, s.0), s);
        let all = alerts_cycle(book, signals).1;
        assert(all == ns + pn);
        assert forall|i: int| 0 <= i < all.len() implies (#[trigger] all[i]).0 != "Merge conflict"@ by {
            if i < ns.len() {
                assert(all[i] == ns[i]);
            } else {
                assert(all[i] == pn[i - ns.len()]);
            }
        }
    }
}

/// Every merge-conflict notice of a cycle has a cause: some project of the cycle has
/// conflicts and had none in its state as last seen before that project's turn.
pub proof fn law_conflict_notice_has_cause(
    book: Seq<(Seq<char>, AlertView)>,
    signals: Seq<SignalView>,
    i: int,
)
    requires
        0 <= i < alerts_cycle(book, signals).1.len(),
        alerts_cycle(book, signals).1[i].0 == "Merge conflict"@,
    ensures
        exists|j: int|
            0 <= j < signals.len() && (#[trigger] signals[j]).1 && !book_lookup(
                alerts_cycle(book, signals.take(j)).0,
                signals[j].0,
            ).0,
    decreases signals.len(),
{
    let d = signals.drop_last();
    let (b, ns, c, f, q) = alerts_cycle(book, d);
    let s = signals.last();
    let pn = project_notices(book_lookup(b, s.0), s);
    let all = alerts_cycle(book, signals).1;
    assert(all == ns + pn);
    if i < ns.len() {
        assert(all[i] == ns[i]);
        law_conflict_notice_has_cause(book, d, i);
        let j = choose|j: int|
            0 <= j < d.len() && (#[trigger] d[j]).1 && !book_lookup(
                alerts_cycle(book, d.take(j)).0,
                d[j].0,
            ).0;
        assert(d.take(j) =~= signals.take(j));
        assert(d[j] == signals[j]);
    } else {
        assert(all[i] == pn[i - ns.len()]);
        assert(has_conflict_notice(pn));
        lemma_project_conflict_notice(book_lookup(b, s.0), s);
        let j = signals.len() - 1;
        assert(signals.take(j) =~= d);
        assert(signals[j] == s);
    }
}

proof fn lemma_failing_members(ci: Seq<(Seq<char>, Seq<char>)>, x: Seq<char>)
    ensures
        failing_pipelines(ci).contains(x) <==> exists|j: int|
            0 <= j < ci.len() && (#[trigger] ci[j]).0 == x && ci[j].1 == "failed"@,
    decreases ci.len(),
{
    if ci.len() > 0 {
        let d = ci.drop_last();
        lemma_failing_members(d, x);
        let r = failing_pipelines(d);
        let all = failing_pipelines(ci);
        if all.contains(x) {
            if r.contains(x) {
                let j = choose|j: int| 0 <= j < d.len() && (#[trigger] d[j]).0 == x && d[j].1 == "failed"@;
                assert(ci[j] == d[j]);
            } else {
                let i = choose|i: int| 0 <= i < all.len() && all[i] == x;
                assert(ci[ci.len() - 1] == ci.last());
                if i < r.len() {
                    assert(r[i] == x);
                }
            }
        }
        if exists|j: int| 0 <= j < ci.len() && (#[trigger] ci[j]).0 == x && ci[j].1 == "failed"@ {
            let j = choose|j: int| 0 <= j < ci.len() && (#[trigger] ci[j]).0 == x && ci[j].1 == "failed"@;
            if j < d.len() {
                assert(d[j] == ci[j]);
                let i = choose|i: int| 0 <= i < r.len() && r[i] == x;
                if !(ci.last().1 == "failed"@ && !r.contains(ci.last().0)) {
                } else {
                    assert(all[i] == x);
                }
            } else {
                assert(ci.last() == ci[j]);
                if !r.contains(x) {
                    assert(all[r.len() as int] == x);
                }
            }
        }
    }
}

/// The notice text for pipeline `x` of project `name` that started failing.
pub open spec fn failing_notice(name: Seq<char>, x: Seq<char>) -> NoticeView {
    ("Pipeline failed"@, name + ": "@ + x + " is failing"@)
}

/// The notice text for review request `q` of project `name`.
pub open spec fn request_notice(name: Seq<char>, q: (u32, Seq<char>, Seq<char>)) -> NoticeView {
    ("Review requested"@, name + " #"@ + decimal(q.0 as nat) + ": "@ + q.1)
}

proof fn lemma_failing_notices_members(name: Seq<char>, failing: Seq<Seq<char>>, before: Seq<Seq<char>>)
    ensures
        forall|i: int|
            0 <= i < failing_notices(name, failing, before).len() ==> exists|x: Seq<char>|
                failing.contains(x) && !before.contains(x) && #[trigger] failing_notices(name, failing, before)[i]
                    == failing_notice(name, x),
        forall|x: Seq<char>|
            failing.contains(x) && !before.contains(x) ==> #[trigger] failing_notices(name, failing, before).contains(
                failing_notice(name, x),
            ),
    decreases failing.len(),
{
    if failing.len() > 0 {
        let d = failing.drop_last();
        lemma_failing_notices_members(name, d, before);
        let r = failing_notices(name, d, before);
        let all = failing_notices(name, failing, before);
        let last = failing.last();
        assert forall|i: int| 0 <= i < all.len() implies exists|x: Seq<char>|
            failing.contains(x) && !before.contains(x) && #[trigger] all[i] == failing_notice(name, x) by {
            if i < r.len() {
                assert(all[i] == r[i]);
                let x = choose|x: Seq<char>| d.contains(x) && !before.contains(x) && r[i] == failing_notice(name, x);
                let j = choose|j: int| 0 <= j < d.len() && d[j] == x;
                assert(failing[j] == x);
            } else {
                assert(failing[failing.len() - 1] == last);
                assert(all[i] == failing_notice(name, last));
            }
        }
        assert forall|x: Seq<char>| failing.contains(x) && !before.contains(x) implies #[trigger] all.contains(
            failing_notice(name, x),
        ) by {
            let j = choose|j: int| 0 <= j < failing.len() && failing[j] == x;
            if j < d.len() {
                assert(d[j] == x);
                assert(r.contains(failing_notice(name, x)));
                let i = choose|i: int| 0 <= i < r.len() && r[i] == failing_notice(name, x);
                assert(all[i] == r[i]);
            } else {
                assert(x == last);
                assert(all[r.len() as int] == failing_notice(name, x));
            }
        }
    }
}

proof fn lemma_review_notices_members(
    name: Seq<char>,
    requests: Seq<(u32, Seq<char>, Seq<char>)>,
    seen: Seq<u32>,
)
    ensures
        forall|i: int|
            0 <= i < review_notices(name, requests, seen).len() ==> exists|j: int|
                0 <= j < requests.len() && !seen.contains(requests[j].0) && #[trigger] review_notices(
                    name,
                    requests,
                    seen,
                )[i] == request_notice(name, requests[j]),
        forall|j: int|
            0 <= j < requests.len() && !seen.contains(requests[j].0) ==> #[trigger] review_notices(
                name,
                requests,
                seen,
            ).contains(request_notice(name, requests[j])),
    decreases requests.len(),
{
    if requests.len() > 0 {
        let d = requests.drop_last();
        lemma_review_notices_members(name, d, seen);
        let r = review_notices(name, d, seen);
        let all = review_notices(name, requests, seen);
        let n = requests.len() - 1;
        assert(requests[n] == requests.last());
        assert forall|i: int| 0 <= i < all.len() implies exists|j: int|
            0 <= j < requests.len() && !seen.contains(requests[j].0) && #[trigger] all[i] == request_notice(
                name,
                requests[j],
            ) by {
            if i < r.len() {
                assert(all[i] == r[i]);
                let j = choose|j: int| 0 <= j < d.len() && !seen.contains(d[j].0) && r[i] == request_notice(name, d[j]);
                assert(requests[j] == d[j]);
            } else {
                assert(all[i] == request_notice(name, requests[n]));
            }
        }
        assert forall|j: int| 0 <= j < requests.len() && !seen.contains(requests[j].0) implies #[trigger] all.contains(
            request_notice(name, requests[j]),
        ) by {
            if j < n {
                assert(d[j] == requests[j]);
                assert(r.contains(request_notice(name, d[j])));
                let i = choose|i: int| 0 <= i < r.len() && r[i] == request_notice(name, d[j]);
                assert(all[i] == r[i]);
            } else {
                assert(all[r.len() as int] == request_notice(name, requests[j]));
            }
        }
    }
}

/// In a cycle over one project, a pipeline-failed notice is raised exactly for each pipeline
/// that is failing now and was not failing when the project was last seen, and a
/// review-requested notice exactly for each request whose number was not announced before.
pub proof fn law_new_items_announced(book: Seq<(Seq<char>, AlertView)>, s: SignalView)
    ensures
        ({
            let ns = alerts_cycle(book, seq![s]).1;
            let prev = book_lookup(book, s.0);
            let name = project_label(s.0);
            &&& forall|i: int|
                0 <= i < ns.len() && ns[i].0 == "Pipeline failed"@ ==> exists|j: int|
                    0 <= j < s.2.len() && s.2[j].1 == "failed"@ && !prev.1.contains(s.2[j].0)
                        && #[trigger] ns[i] == failing_notice(name, s.2[j].0)
            &&& forall|j: int|
                0 <= j < s.2.len() && s.2[j].1 == "failed"@ && !prev.1.contains(s.2[j].0) ==> ns.contains(
                    failing_notice(name, #[trigger] s.2[j].0),
                )
            &&& forall|i: int|
                0 <= i < ns.len() && ns[i].0 == "Review requested"@ ==> exists|j: int|
                    0 <= j < s.3.len() && !prev.2.contains(s.3[j].0) && #[trigger] ns[i] == request_notice(
                        name,
                        s.3[j],
                    )
            &&& forall|j: int|
                0 <= j < s.3.len() && !prev.2.contains(s.3[j].0) ==> ns.contains(
                    request_notice(name, #[trigger] s.3[j]),
                )
        }),
{
    reveal_strlit("Merge conflict");
    reveal_strlit("Pipeline failed");
    reveal_strlit("Review requested");
    assert("Merge conflict"@.len() == 14);
    assert("Pipeline failed"@.len() == 15);
    assert("Review requested"@.len() == 16);
    let one = seq![s];
    assert(one.drop_last() =~= Seq::<SignalView>::empty());
    assert(one.last() == s);
    assert(alerts_cycle(book, one.drop_last()) == (book, Seq::<NoticeView>::empty(), 0nat, 0nat, 0nat));
    let prev = book_lookup(book, s.0);
    let name = project_label(s.0);
    let c = conflict_notices(prev, name, s.1);
    let fl = failing_pipelines(s.2);
    let f = failing_notices(name, fl, prev.1);
    let r = review_notices(name, s.3, prev.2);
    let ns = alerts_cycle(book, one).1;
    assert(ns =~= c + f + r);
    lemma_failing_titles(name, fl, prev.1);
    lemma_review_titles(name, s.3, prev.2);
    lemma_failing_notices_members(name, fl, prev.1);
    lemma_review_notices_members(name, s.3, prev.2);
    assert(forall|i: int| 0 <= i < c.len() ==> (#[trigger] c[i]).0 == "Merge conflict"@);
    assert forall|i: int| 0 <= i < ns.len() && ns[i].0 == "Pipeline failed"@ implies exists|j: int|
        0 <= j < s.2.len() && s.2[j].1 == "failed"@ && !prev.1.contains(s.2[j].0) && #[trigger] ns[i]
            == failing_notice(name, s.2[j].0) by {
        if i < c.len() {
            assert(ns[i] == c[i]);
        } else if i < c.len() + f.len() {
            assert(ns[i] == f[i - c.len()]);
            let x = choose|x: Seq<char>| fl.contains(x) && !prev.1.contains(x) && f[i - c.len()] == failing_notice(name, x);
            lemma_failing_members(s.2, x);
            let j = choose|j: int| 0 <= j < s.2.len() && (#[trigger] s.2[j]).0 == x && s.2[j].1 == "failed"@;
        } else {
            assert(ns[i] == r[i - c.len() - f.len()]);
        }
    }
    assert forall|j: int| 0 <= j < s.2.len() && s.2[j].1 == "failed"@ && !prev.1.contains(s.2[j].0) implies ns.contains(
        failing_notice(name, #[trigger] s.2[j].0),
    ) by {
        let x = s.2[j].0;
        lemma_failing_members(s.2, x);
        assert(fl.contains(x));
        assert(f.contains(failing_notice(name, x)));
        let i = choose|i: int| 0 <= i < f.len() && f[i] == failing_notice(name, x);
        assert(ns[i + c.len()] == f[i]);
    }
    assert forall|i: int| 0 <= i < ns.len() && ns[i].0 == "Review requested"@ implies exists|j: int|
        0 <= j < s.3.len() && !prev.2.contains(s.3[j].0) && #[trigger] ns[i] == request_notice(name, s.3[j]) by {
        if i < c.len() {
            assert(ns[i] == c[i]);
        } else if i < c.len() + f.len() {
            assert(ns[i] == f[i - c.len()]);
        } else {
            assert(ns[i] == r[i - c.len() - f.len()]);
        }
    }
    assert forall|j: int| 0 <= j < s.3.len() && !prev.2.contains(s.3[j].0) implies ns.contains(
        request_notice(name, #[trigger] s.3[j]),
    ) by {
        assert(r.contains(request_notice(name, s.3[j])));
        let i = choose|i: int| 0 <= i < r.len() && r[i] == request_notice(name, s.3[j]);
        assert(ns[i + c.len() + f.len()] == r[i]);
    }
}

} // verus!
