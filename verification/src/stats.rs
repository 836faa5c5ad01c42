//! "Who did what": commits per author across the history reachable from HEAD.
//!
//! Ownership and review throughput are not derived yet and are reported as zero.

use vstd::prelude::*;

use crate::tally::{
    count_of, first_pos, lemma_counts_add_up, lemma_first_pos, ranked_before, tally,
    tally_exact, total_upto,
};
use crate::text::views;

verus! {

/// The author of one commit, as recorded in it (empty when absent).
pub struct CommitAuthor {
    pub name: String,
    pub email: String,
}

/// Contribution metrics of one author.
pub struct ContributorStat {
    pub author_name: String,
    pub author_email: String,
    pub commits: u32,
    pub files_owned: u32,
    pub reviews: u32,
}

/// The e-mail of each commit's author, in walk order.
pub open spec fn author_emails(authors: Seq<CommitAuthor>) -> Seq<Seq<char>> {
    authors.map_values(|a: CommitAuthor| a.email@)
}

/// `s` is the exact statistic of its author: the author occurs in the history, `commits`
/// counts their commits, the name is the one on their first commit in walk order.
pub open spec fn contributor_exact(authors: Seq<CommitAuthor>, s: ContributorStat) -> bool {
    let es = author_emails(authors);
    &&& es.contains(s.author_email@)
    &&& s.commits == count_of(es, s.author_email@)
    &&& s.author_name@ == authors[first_pos(es, s.author_email@)].name@
    &&& s.files_owned == 0
    &&& s.reviews == 0
}

/// The commits of `stats`, summed.
pub open spec fn commits_total(stats: Seq<ContributorStat>) -> nat
    decreases stats.len(),
{
    if stats.len() == 0 {
        0
    } else {
        commits_total(stats.drop_last()) + stats.last().commits as nat
    }
}

pub open spec fn stat_emails(stats: Seq<ContributorStat>) -> Seq<Seq<char>> {
    stats.map_values(|s: ContributorStat| s.author_email@)
}

proof fn lemma_commits_total(es: Seq<Seq<char>>, stats: Seq<ContributorStat>)
    requires
        forall|i: int|
            0 <= i < stats.len() ==> (#[trigger] stats[i]).commits == count_of(es, stats[i].author_email@),
    ensures
        commits_total(stats) == total_upto(es, stat_emails(stats), es.len() as int),
    decreases stats.len(),
{
    if stats.len() > 0 {
        let d = stats.drop_last();
        assert forall|i: int| 0 <= i < d.len() implies (#[trigger] d[i]).commits == count_of(
            es,
            d[i].author_email@,
        ) by {
            assert(d[i] == stats[i]);
        }
        lemma_commits_total(es, d);
        assert(stat_emails(stats).drop_last() =~= stat_emails(d));
        assert(stats[stats.len() - 1] == stats.last());
    }
}

/// Aggregate commits per author e-mail, given each commit's author in walk order
/// (newest first). One entry per distinct e-mail, carrying the name on that author's
/// first commit in the walk; the most active authors come first, and authors with
/// equal counts in the order the walk first met them.
pub fn contributor_stats(authors: &Vec<CommitAuthor>) -> (r: Vec<ContributorStat>)
    requires
        forall|k: Seq<char>| count_of(author_emails(authors@), k) <= u32::MAX,
    ensures
        forall|i: int| 0 <= i < r@.len() ==> contributor_exact(authors@, #[trigger] r@[i]),
        forall|k: Seq<char>|
            #[trigger] author_emails(authors@).contains(k) ==> exists|i: int|
                0 <= i < r@.len() && (#[trigger] r@[i]).author_email@ == k,
        forall|i: int, j: int|
            0 <= i < j < r@.len() ==> ranked_before(
                author_emails(authors@),
                (#[trigger] r@[i]).author_email@,
                r@[i].commits as nat,
                (#[trigger] r@[j]).author_email@,
                r@[j].commits as nat,
            ),
        // Every commit is attributed to exactly one author.
        commits_total(r@) == authors@.len(),
{
    let ghost es = author_emails(authors@);
    let n = authors.len();
    let mut keys: Vec<String> = Vec::new();
    let mut flags: Vec<bool> = Vec::new();
    let mut i: usize = 0;
    while i < n
        invariant
            n == authors@.len(),
            i <= n,
            es == author_emails(authors@),
            views(keys@) == es.take(i as int),
            flags@.len() == i,
        decreases n - i,
    {
        let ghost before = keys@;
        keys.push(authors[i].email.clone());
        flags.push(false);
        assert(views(keys@) =~= views(before).push(authors@[i as int].email@));
        assert(es.take(i as int + 1) =~= es.take(i as int).push(es[i as int]));
        i = i + 1;
    }
    assert(es.take(n as int) =~= es);
    let ranked_tallies = tally(&keys, &flags);
    let m = ranked_tallies.len();
    let mut out: Vec<ContributorStat> = Vec::new();
    let mut j: usize = 0;
    while j < m
        invariant
            m == ranked_tallies@.len(),
            j <= m,
            n == authors@.len(),
            es == author_emails(authors@),
            views(keys@) == es,
            out@.len() == j,
            forall|q: int| 0 <= q < m ==> tally_exact(es, flags@, #[trigger] ranked_tallies@[q]),
            forall|q: int|
                0 <= q < j ==> {
                    &&& contributor_exact(authors@, #[trigger] out@[q])
                    &&& out@[q].author_email@ == ranked_tallies@[q].key@
                    &&& out@[q].commits == ranked_tallies@[q].count
                },
        decreases m - j,
    {
        let t = &ranked_tallies[j];
        assert(tally_exact(es, flags@, ranked_tallies@[j as int]));
        proof {
            lemma_first_pos(es, t.key@, t.first as int);
        }
        assert(es.contains(t.key@)) by {
            assert(es[t.first as int] == t.key@);
        }
        let stat = ContributorStat {
            author_name: authors[t.first].name.clone(),
            author_email: t.key.clone(),
            commits: t.count,
            files_owned: 0,
            reviews: 0,
        };
        out.push(stat);
        j = j + 1;
    }
    assert forall|i: int, j: int| 0 <= i < j < out@.len() implies ranked_before(
        es,
        (#[trigger] out@[i]).author_email@,
        out@[i].commits as nat,
        (#[trigger] out@[j]).author_email@,
        out@[j].commits as nat,
    ) by {
        let a = ranked_tallies@[i];
        let b = ranked_tallies@[j];
        assert(tally_exact(es, flags@, a));
        assert(tally_exact(es, flags@, b));
        lemma_first_pos(es, a.key@, a.first as int);
        lemma_first_pos(es, b.key@, b.first as int);
    }
    assert forall|k: Seq<char>| #[trigger] es.contains(k) implies exists|i: int|
        0 <= i < out@.len() && (#[trigger] out@[i]).author_email@ == k by {
        let i = choose|i: int| 0 <= i < m && (#[trigger] ranked_tallies@[i]).key@ == k;
        assert(out@[i].author_email@ == k);
    }
    proof {
        let cands = stat_emails(out@);
        assert forall|i: int, j: int| 0 <= i < j < cands.len() implies cands[i] != cands[j] by {
            assert(ranked_before(
                es,
                out@[i].author_email@,
                out@[i].commits as nat,
                out@[j].author_email@,
                out@[j].commits as nat,
            ));
        }
        assert forall|i: int| 0 <= i < es.len() implies cands.contains(#[trigger] es[i]) by {
            assert(es.contains(es[i]));
            let k = choose|k: int| 0 <= k < out@.len() && (#[trigger] out@[k]).author_email@ == es[i];
            assert(cands[k] == es[i]);
        }
        assert forall|i: int| 0 <= i < out@.len() implies (#[trigger] out@[i]).commits == count_of(
            es,
            out@[i].author_email@,
        ) by {
            assert(contributor_exact(authors@, out@[i]));
        }
        lemma_commits_total(es, out@);
        lemma_counts_add_up(es, cands);
    }
    out
}

} // verus!
