//! GitHub review data, from the JSON that `gh pr list --json ...` prints.
//!
//! `gh`'s output is parsed with `serde_json` into a [`Json`] tree; anything that is not
//! shaped as expected is skipped, so a non-GitHub repository or a failing `gh` gives
//! nothing.

use vstd::prelude::*;

use crate::tally::{
    count_of, count_upto, flagged_of, flagged_upto, lemma_count_at_most_len, lemma_counts_add_up, lemma_first_pos, ranked_before, tally, tally_exact,
    total_upto,
};
use crate::text::{chars_of, owned, views};

verus! {

/// A parsed JSON value.
pub enum Json {
    Null,
    Bool(bool),
    /// A number: its value when it is a non-negative integer that fits in `u64`, else `None`.
    Number(Option<u64>),
    Str(String),
    Array(Vec<Json>),
    /// An object's members in order; a key occurs at most once.
    Object(Vec<(String, Json)>),
}

#[verifier::external_type_specification]
#[verifier::external_body]
pub struct ExValue(serde_json::Value);

/// serde_json's parsed value as a [`Json`], variant for variant (a number is kept as
/// `Number::as_u64`).
#[verifier::external_body]
fn json_from_value(v: serde_json::Value) -> Json {
    match v {
        serde_json::Value::Null => Json::Null,
        serde_json::Value::Bool(b) => Json::Bool(b),
        serde_json::Value::Number(n) => Json::Number(n.as_u64()),
        serde_json::Value::String(t) => Json::Str(t),
        serde_json::Value::Array(items) => Json::Array(items.into_iter().map(json_from_value).collect()),
        serde_json::Value::Object(map) => Json::Object(map.into_iter().map(|(k, v)| (k, json_from_value(v))).collect()),
    }
}

/// What `serde_json::from_str::<serde_json::Value>` makes of `raw`, as a [`Json`]
/// (`None` when `raw` is not JSON).
pub uninterp spec fn parsed_json(raw: Seq<char>) -> Option<Json>;

/// `serde_json::from_str::<serde_json::Value>(raw)`, converted to [`Json`]; `None` when
/// `raw` is not JSON. What the parse yields is only named (`parsed_json`): it depends on
/// `raw` alone.
#[verifier::external_body]
fn parse_json(raw: &str) -> (r: Option<Json>)
    ensures
        r == parsed_json(raw@),
{
    serde_json::from_str::<serde_json::Value>(raw).ok().map(json_from_value)
}


/// The value of member `key` among `fields` (the first one with that key).
pub open spec fn field(fields: Seq<(String, Json)>, key: Seq<char>) -> Option<Json>
    decreases fields.len(),
{
    if fields.len() == 0 {
        None
    } else if fields[0].0@ == key {
        Some(fields[0].1)
    } else {
        field(fields.drop_first(), key)
    }
}

/// `Value::get(key)`: the member `key` of an object, nothing for any other value.
pub open spec fn json_get(j: Json, key: Seq<char>) -> Option<Json> {
    match j {
        Json::Object(fields) => field(fields@, key),
        _ => None,
    }
}

/// `get` through an optional value.
pub open spec fn opt_get(j: Option<Json>, key: Seq<char>) -> Option<Json> {
    match j {
        Some(v) => json_get(v, key),
        None => None,
    }
}

/// The text of an optional string value.
pub open spec fn as_text(j: Option<Json>) -> Option<Seq<char>> {
    match j {
        Some(Json::Str(s)) => Some(s@),
        _ => None,
    }
}

/// The elements of an optional array value.
pub open spec fn as_items(j: Option<Json>) -> Option<Seq<Json>> {
    match j {
        Some(Json::Array(items)) => Some(items@),
        _ => None,
    }
}

/// ASCII lower case of `c`; every other character is kept.
pub open spec fn ascii_lower(c: char) -> char {
    if 'A' <= c <= 'Z' {
        ((c as u32) + 32) as char
    } else {
        c
    }
}

/// Equality up to ASCII case, as `str::eq_ignore_ascii_case` decides it (its byte-wise
/// comparison amounts to this on characters: non-ASCII bytes must match exactly).
pub open spec fn eq_ignore_ascii_case(a: Seq<char>, b: Seq<char>) -> bool {
    a.len() == b.len() && forall|i: int| 0 <= i < a.len() ==> ascii_lower(a[i]) == ascii_lower(b[i])
}

/// One review: its author's login (empty when missing) and whether it approved.
pub open spec fn review_login(review: Json) -> Seq<char> {
    match as_text(opt_get(json_get(review, "author"@), "login"@)) {
        Some(l) => l,
        None => Seq::empty(),
    }
}

pub open spec fn review_approved(review: Json) -> bool {
    match as_text(json_get(review, "state"@)) {
        Some(s) => eq_ignore_ascii_case(s, "APPROVED"@),
        None => false,
    }
}

/// The (login, approved) records of a pull request's reviews, skipping reviews with no
/// author login.
pub open spec fn records_of_reviews(reviews: Seq<Json>) -> Seq<(Seq<char>, bool)>
    decreases reviews.len(),
{
    if reviews.len() == 0 {
        Seq::empty()
    } else {
        let r = records_of_reviews(reviews.drop_last());
        let login = review_login(reviews.last());
        if login.len() == 0 {
            r
        } else {
            r.push((login, review_approved(reviews.last())))
        }
    }
}

/// The review records of one pull request (none when it has no `reviews` array).
pub open spec fn records_of_pr(pr: Json) -> Seq<(Seq<char>, bool)> {
    match as_items(json_get(pr, "reviews"@)) {
        Some(reviews) => records_of_reviews(reviews),
        None => Seq::empty(),
    }
}

pub open spec fn records_of_prs(prs: Seq<Json>) -> Seq<(Seq<char>, bool)>
    decreases prs.len(),
{
    if prs.len() == 0 {
        Seq::empty()
    } else {
        records_of_prs(prs.drop_last()) + records_of_pr(prs.last())
    }
}

/// Every review record of a `gh pr list --json reviews` payload, in order.
pub open spec fn review_records(payload: Json) -> Seq<(Seq<char>, bool)> {
    match payload {
        Json::Array(prs) => records_of_prs(prs@),
        _ => Seq::empty(),
    }
}

pub open spec fn record_logins(records: Seq<(Seq<char>, bool)>) -> Seq<Seq<char>> {
    records.map_values(|r: (Seq<char>, bool)| r.0)
}

pub open spec fn record_approvals(records: Seq<(Seq<char>, bool)>) -> Seq<bool> {
    records.map_values(|r: (Seq<char>, bool)| r.1)
}

/// Per-login review activity across a repository's pull requests.
pub struct ReviewerStat {
    pub login: String,
    pub reviews: u32,
    pub approvals: u32,
}

/// `s` is the exact statistic of its login among `records`.
pub open spec fn reviewer_exact(records: Seq<(Seq<char>, bool)>, s: ReviewerStat) -> bool {
    let ls = record_logins(records);
    &&& ls.contains(s.login@)
    &&& s.reviews == count_of(ls, s.login@)
    &&& s.approvals == flagged_of(ls, record_approvals(records), s.login@)
}

/// The reviews of `stats`, summed.
pub open spec fn reviews_total(stats: Seq<ReviewerStat>) -> nat
    decreases stats.len(),
{
    if stats.len() == 0 {
        0
    } else {
        reviews_total(stats.drop_last()) + stats.last().reviews as nat
    }
}

pub open spec fn stat_logins(stats: Seq<ReviewerStat>) -> Seq<Seq<char>> {
    stats.map_values(|s: ReviewerStat| s.login@)
}

proof fn lemma_reviews_total(ls: Seq<Seq<char>>, stats: Seq<ReviewerStat>)
    requires
        forall|i: int| 0 <= i < stats.len() ==> (#[trigger] stats[i]).reviews == count_of(ls, stats[i].login@),
    ensures
        reviews_total(stats) == total_upto(ls, stat_logins(stats), ls.len() as int),
    decreases stats.len(),
{
    if stats.len() > 0 {
        let d = stats.drop_last();
        assert forall|i: int| 0 <= i < d.len() implies (#[trigger] d[i]).reviews == count_of(
            ls,
            d[i].login@,
        ) by {
            assert(d[i] == stats[i]);
        }
        lemma_reviews_total(ls, d);
        assert(stat_logins(stats).drop_last() =~= stat_logins(d));
        assert(stats[stats.len() - 1] == stats.last());
    }
}

/// `r` is the ranking of review authors for `records`: one exact entry per login, most reviews
/// first, equal counts in order of each login's first review.
pub open spec fn reviewers_ranked(records: Seq<(Seq<char>, bool)>, r: Seq<ReviewerStat>) -> bool {
    &&& forall|i: int| 0 <= i < r.len() ==> reviewer_exact(records, #[trigger] r[i])
    &&& forall|k: Seq<char>|
        #[trigger] record_logins(records).contains(k) ==> exists|i: int|
            0 <= i < r.len() && (#[trigger] r[i]).login@ == k
    &&& forall|i: int, j: int|
        0 <= i < j < r.len() ==> ranked_before(
            record_logins(records),
            (#[trigger] r[i]).login@,
            r[i].reviews as nat,
            (#[trigger] r[j]).login@,
            r[j].reviews as nat,
        )
    &&& reviews_total(r) == records.len()
}

impl Json {
    /// `Value::get(key)`: the member `key` of an object, `None` for any other value.
    pub fn get(&self, key: &str) -> (r: Option<&Json>)
        ensures
            r is Some <==> json_get(*self, key@) is Some,
            r matches Some(v) ==> json_get(*self, key@) == Some(*v),
    {
        match self {
            Json::Object(fields) => {
                let k = owned(key);
                let n = fields.len();
                let mut i: usize = 0;
                assert(fields@.subrange(0, n as int) =~= fields@);
                while i < n
                    invariant
                        n == fields@.len(),
                        i <= n,
                        k@ == key@,
                        json_get(*self, key@) == field(fields@, key@),
                        field(fields@, key@) == field(fields@.subrange(i as int, n as int), key@),
                    decreases n - i,
                {
                    let ghost rest = fields@.subrange(i as int, n as int);
                    assert(rest[0] == fields@[i as int]);
                    if fields[i].0 == k {
                        assert(field(rest, key@) == Some(fields@[i as int].1));
                        return Some(&fields[i].1);
                    }
                    assert(rest.drop_first() =~= fields@.subrange(i as int + 1, n as int));
                    i = i + 1;
                }
                None
            },
            _ => None,
        }
    }

    /// `Value::as_str`.
    pub fn as_str(&self) -> (r: Option<&String>)
        ensures
            r is Some <==> as_text(Some(*self)) is Some,
            r matches Some(s) ==> as_text(Some(*self)) == Some(s@),
    {
        match self {
            Json::Str(s) => Some(s),
            _ => None,
        }
    }

    /// `Value::as_array`.
    pub fn as_array(&self) -> (r: Option<&Vec<Json>>)
        ensures
            r is Some <==> as_items(Some(*self)) is Some,
            r matches Some(items) ==> as_items(Some(*self)) == Some(items@),
    {
        match self {
            Json::Array(items) => Some(items),
            _ => None,
        }
    }
}

fn is_approved(state: &String) -> (r: bool)
    ensures
        r == eq_ignore_ascii_case(state@, "APPROVED"@),
{
    let s = chars_of(state.as_str());
    let target = chars_of("APPROVED");
    proof {
        reveal_strlit("APPROVED");
    }
    if s.len() != target.len() {
        return false;
    }
    let n = s.len();
    let mut i: usize = 0;
    while i < n
        invariant
            n == s@.len(),
            n == target@.len(),
            s@ == state@,
            target@ == "APPROVED"@,
            i <= n,
            forall|j: int| 0 <= j < i ==> ascii_lower(s@[j]) == ascii_lower(target@[j]),
        decreases n - i,
    {
        let a = s[i];
        let b = target[i];
        let la = if 'A' <= a && a <= 'Z' {
            ((a as u32) + 32) as u8 as char
        } else {
            a
        };
        let lb = if 'A' <= b && b <= 'Z' {
            ((b as u32) + 32) as u8 as char
        } else {
            b
        };
        assert(la == ascii_lower(a));
        assert(lb == ascii_lower(b));
        if la != lb {
            return false;
        }
        i = i + 1;
    }
    true
}

/// One review record: its author's login and whether the review approved.
pub struct ReviewRecord {
    pub login: String,
    pub approved: bool,
}

pub open spec fn record_view(r: ReviewRecord) -> (Seq<char>, bool) {
    (r.login@, r.approved)
}

fn review_record(review: &Json) -> (r: Option<ReviewRecord>)
    ensures
        r is Some <==> review_login(*review).len() > 0,
        r matches Some(rec) ==> record_view(rec) == (review_login(*review), review_approved(*review)),
{
    let login = match review.get("author") {
        Some(author) => match author.get("login") {
            Some(l) => l.as_str(),
            None => None,
        },
        None => None,
    };
    let login = match login {
        Some(l) => l,
        None => {
            return None;
        },
    };
    if login.as_str().is_empty() {
        return None;
    }
    let approved = match review.get("state") {
        Some(st) => match st.as_str() {
            Some(s) => is_approved(s),
            None => false,
        },
        None => false,
    };
    Some(ReviewRecord { login: login.clone(), approved })
}

pub open spec fn record_views(rs: Seq<ReviewRecord>) -> Seq<(Seq<char>, bool)> {
    rs.map_values(|r: ReviewRecord| record_view(r))
}

fn push_review_records(reviews: &Vec<Json>, out: &mut Vec<ReviewRecord>)
    ensures
        record_views(final(out)@) == record_views(old(out)@) + records_of_reviews(reviews@),
{
    let ghost start = record_views(out@);
    let n = reviews.len();
    let mut i: usize = 0;
    assert(reviews@.take(0) =~= Seq::<Json>::empty());
    assert(start + records_of_reviews(reviews@.take(0)) =~= start);
    while i < n
        invariant
            n == reviews@.len(),
            i <= n,
            record_views(out@) == start + records_of_reviews(reviews@.take(i as int)),
        decreases n - i,
    {
        let ghost pre = record_views(out@);
        assert(reviews@.take(i as int + 1).drop_last() =~= reviews@.take(i as int));
        assert(reviews@.take(i as int + 1).last() == reviews@[i as int]);
        match review_record(&reviews[i]) {
            Some(rec) => {
                out.push(rec);
                assert(record_views(out@) =~= pre.push(record_view(rec)));
            },
            None => {},
        }
        i = i + 1;
    }
    assert(reviews@.take(n as int) =~= reviews@);
}

/// Every review record of a `gh pr list --json reviews` payload, in order.
pub fn collect_review_records(payload: &Json) -> (r: Vec<ReviewRecord>)
    ensures
        record_views(r@) == review_records(*payload),
{
    let mut out: Vec<ReviewRecord> = Vec::new();
    match payload {
        Json::Array(prs) => {
            let n = prs.len();
            let mut i: usize = 0;
            assert(record_views(out@) =~= records_of_prs(prs@.take(0)));
            while i < n
                invariant
                    n == prs@.len(),
                    i <= n,
                    record_views(out@) == records_of_prs(prs@.take(i as int)),
                decreases n - i,
            {
                assert(prs@.take(i as int + 1).drop_last() =~= prs@.take(i as int));
                assert(prs@.take(i as int + 1).last() == prs@[i as int]);
                let pr = &prs[i];
                match pr.get("reviews") {
                    Some(v) => match v.as_array() {
                        Some(reviews) => {
                            push_review_records(reviews, &mut out);
                        },
                        None => {
                            assert(record_views(out@) =~= record_views(out@) + Seq::<
                                (Seq<char>, bool),
                            >::empty());
                        },
                    },
                    None => {
                        assert(record_views(out@) =~= record_views(out@) + Seq::<
                            (Seq<char>, bool),
                        >::empty());
                    },
                }
                i = i + 1;
            }
            assert(prs@.take(n as int) =~= prs@);
        },
        _ => {
            assert(record_views(out@) =~= Seq::<(Seq<char>, bool)>::empty());
        },
    }
    out
}

/// Rank review authors by their review records: one entry per login with its review and
/// approval counts, most reviews first, equal counts in order of first review.
pub fn rank_reviewers(records: &Vec<ReviewRecord>) -> (r: Vec<ReviewerStat>)
    requires
        forall|k: Seq<char>| count_of(record_logins(record_views(records@)), k) <= u32::MAX,
    ensures
        reviewers_ranked(record_views(records@), r@),
{
    let ghost rv = record_views(records@);
    let ghost ls = record_logins(rv);
    let ghost fs = record_approvals(rv);
    let n = records.len();
    let mut keys: Vec<String> = Vec::new();
    let mut flags: Vec<bool> = Vec::new();
    let mut i: usize = 0;
    while i < n
        invariant
            n == records@.len(),
            i <= n,
            rv == record_views(records@),
            ls == record_logins(rv),
            fs == record_approvals(rv),
            views(keys@) == ls.take(i as int),
            flags@ == fs.take(i as int),
        decreases n - i,
    {
        let ghost before = keys@;
        keys.push(records[i].login.clone());
        flags.push(records[i].approved);
        assert(views(keys@) =~= views(before).push(records@[i as int].login@));
        assert(ls.take(i as int + 1) =~= ls.take(i as int).push(ls[i as int]));
        assert(flags@ =~= fs.take(i as int + 1));
        i = i + 1;
    }
    assert(ls.take(n as int) =~= ls);
    assert(fs.take(n as int) =~= fs);
    let ranked_tallies = tally(&keys, &flags);
    let m = ranked_tallies.len();
    let mut out: Vec<ReviewerStat> = Vec::new();
    let mut j: usize = 0;
    while j < m
        invariant
            m == ranked_tallies@.len(),
            j <= m,
            views(keys@) == ls,
            flags@ == fs,
            ls == record_logins(rv),
            fs == record_approvals(rv),
            out@.len() == j,
            forall|q: int| 0 <= q < m ==> tally_exact(ls, fs, #[trigger] ranked_tallies@[q]),
            forall|q: int|
                0 <= q < j ==> {
                    &&& reviewer_exact(rv, #[trigger] out@[q])
                    &&& out@[q].login@ == ranked_tallies@[q].key@
                    &&& out@[q].reviews == ranked_tallies@[q].count
                },
        decreases m - j,
    {
        let t = &ranked_tallies[j];
        assert(tally_exact(ls, fs, ranked_tallies@[j as int]));
        assert(ls.contains(t.key@)) by {
            assert(ls[t.first as int] == t.key@);
        }
        out.push(ReviewerStat { login: t.key.clone(), reviews: t.count, approvals: t.flagged });
        j = j + 1;
    }
    assert forall|i: int, j: int| 0 <= i < j < out@.len() implies ranked_before(
        ls,
        (#[trigger] out@[i]).login@,
        out@[i].reviews as nat,
        (#[trigger] out@[j]).login@,
        out@[j].reviews as nat,
    ) by {
        let a = ranked_tallies@[i];
        let b = ranked_tallies@[j];
        assert(tally_exact(ls, fs, a));
        assert(tally_exact(ls, fs, b));
        lemma_first_pos(ls, a.key@, a.first as int);
        lemma_first_pos(ls, b.key@, b.first as int);
    }
    assert forall|k: Seq<char>| #[trigger] ls.contains(k) implies exists|i: int|
        0 <= i < out@.len() && (#[trigger] out@[i]).login@ == k by {
        let i = choose|i: int| 0 <= i < m && (#[trigger] ranked_tallies@[i]).key@ == k;
        assert(out@[i].login@ == k);
    }
    proof {
        let cands = stat_logins(out@);
        assert forall|i: int, j: int| 0 <= i < j < cands.len() implies cands[i] != cands[j] by {
            assert(ranked_before(
                ls,
                out@[i].login@,
                out@[i].reviews as nat,
                out@[j].login@,
                out@[j].reviews as nat,
            ));
        }
        assert forall|i: int| 0 <= i < ls.len() implies cands.contains(#[trigger] ls[i]) by {
            assert(ls.contains(ls[i]));
            let k = choose|k: int| 0 <= k < out@.len() && (#[trigger] out@[k]).login@ == ls[i];
            assert(cands[k] == ls[i]);
        }
        assert forall|i: int| 0 <= i < out@.len() implies (#[trigger] out@[i]).reviews == count_of(
            ls,
            out@[i].login@,
        ) by {
            assert(reviewer_exact(rv, out@[i]));
        }
        lemma_reviews_total(ls, out@);
        lemma_counts_add_up(ls, cands);
    }
    out
}

/// Aggregate a `gh pr list --json reviews` payload into per-login review and approval
/// counts (an approval is a review whose state is `APPROVED`, in any ASCII case), most
/// reviews first. Reviews without an author login are skipped.
pub fn aggregate_reviews(parsed: &Json) -> (r: Vec<ReviewerStat>)
    requires
        forall|k: Seq<char>| count_of(record_logins(review_records(*parsed)), k) <= u32::MAX,
    ensures
        reviewers_ranked(review_records(*parsed), r@),
{
    let records = collect_review_records(parsed);
    rank_reviewers(&records)
}

/// The reviews of one pull request (none when it has no `reviews` array).
pub open spec fn reviews_of_pr(pr: Json) -> Seq<Json> {
    match as_items(json_get(pr, "reviews"@)) {
        Some(reviews) => reviews,
        None => Seq::empty(),
    }
}

pub open spec fn reviews_of_prs(prs: Seq<Json>) -> Seq<Json>
    decreases prs.len(),
{
    if prs.len() == 0 {
        Seq::empty()
    } else {
        reviews_of_prs(prs.drop_last()) + reviews_of_pr(prs.last())
    }
}

/// Every review of a `gh pr list --json reviews` payload, pull request by pull request.
pub open spec fn payload_reviews(payload: Json) -> Seq<Json> {
    match payload {
        Json::Array(prs) => reviews_of_prs(prs@),
        _ => Seq::empty(),
    }
}

/// A review that names its author's login.
pub open spec fn has_author() -> spec_fn(Json) -> bool {
    |r: Json| review_login(r).len() > 0
}

/// A review by `login`.
pub open spec fn authored_by(login: Seq<char>) -> spec_fn(Json) -> bool {
    |r: Json| review_login(r) == login
}

/// An approving review by `login`.
pub open spec fn approved_by(login: Seq<char>) -> spec_fn(Json) -> bool {
    |r: Json| review_login(r) == login && review_approved(r)
}

proof fn lemma_upto_agree(
    k1: Seq<Seq<char>>,
    f1: Seq<bool>,
    k2: Seq<Seq<char>>,
    f2: Seq<bool>,
    x: Seq<char>,
    n: int,
)
    requires
        0 <= n <= k1.len(),
        n <= k2.len(),
        n <= f1.len(),
        n <= f2.len(),
        forall|j: int| 0 <= j < n ==> k1[j] == k2[j] && f1[j] == f2[j],
    ensures
        count_upto(k1, x, n) == count_upto(k2, x, n),
        flagged_upto(k1, f1, x, n) == flagged_upto(k2, f2, x, n),
    decreases n,
{
    if n > 0 {
        lemma_upto_agree(k1, f1, k2, f2, x, n - 1);
    }
}

proof fn lemma_counts_concat(a: Seq<Seq<char>>, fa: Seq<bool>, b: Seq<Seq<char>>, fb: Seq<bool>, x: Seq<char>)
    requires
        a.len() == fa.len(),
        b.len() == fb.len(),
    ensures
        count_of(a + b, x) == count_of(a, x) + count_of(b, x),
        flagged_of(a + b, fa + fb, x) == flagged_of(a, fa, x) + flagged_of(b, fb, x),
    decreases b.len(),
{
    if b.len() == 0 {
        assert(a + b =~= a);
        assert(fa + fb =~= fa);
    } else {
        let b1 = b.drop_last();
        let fb1 = fb.drop_last();
        lemma_counts_concat(a, fa, b1, fb1, x);
        let s = a + b;
        let fs = fa + fb;
        let n = s.len() as int;
        lemma_upto_agree(s, fs, a + b1, fa + fb1, x, n - 1);
        lemma_upto_agree(b, fb, b1, fb1, x, b.len() - 1);
        assert(s[n - 1] == b[b.len() - 1]);
        assert(fs[n - 1] == fb[b.len() - 1]);
    }
}

proof fn lemma_records_concat(r1: Seq<(Seq<char>, bool)>, r2: Seq<(Seq<char>, bool)>, x: Seq<char>)
    ensures
        count_of(record_logins(r1 + r2), x) == count_of(record_logins(r1), x) + count_of(record_logins(r2), x),
        flagged_of(record_logins(r1 + r2), record_approvals(r1 + r2), x) == flagged_of(
            record_logins(r1),
            record_approvals(r1),
            x,
        ) + flagged_of(record_logins(r2), record_approvals(r2), x),
{
    assert(record_logins(r1 + r2) =~= record_logins(r1) + record_logins(r2));
    assert(record_approvals(r1 + r2) =~= record_approvals(r1) + record_approvals(r2));
    lemma_counts_concat(record_logins(r1), record_approvals(r1), record_logins(r2), record_approvals(r2), x);
}

proof fn lemma_records_of_reviews(reviews: Seq<Json>, x: Seq<char>)
    ensures
        records_of_reviews(reviews).len() == reviews.filter(has_author()).len(),
        forall|i: int| 0 <= i < records_of_reviews(reviews).len() ==> (#[trigger] records_of_reviews(reviews)[i]).0.len() > 0,
        x.len() > 0 ==> count_of(record_logins(records_of_reviews(reviews)), x) == reviews.filter(authored_by(x)).len(),
        x.len() > 0 ==> flagged_of(
            record_logins(records_of_reviews(reviews)),
            record_approvals(records_of_reviews(reviews)),
            x,
        ) == reviews.filter(approved_by(x)).len(),
    decreases reviews.len(),
{
    reveal(Seq::filter);
    if reviews.len() > 0 {
        let d = reviews.drop_last();
        lemma_records_of_reviews(d, x);
        let r1 = records_of_reviews(d);
        let last = reviews.last();
        let login = review_login(last);
        if login.len() > 0 {
            let e = (login, review_approved(last));
            let one = seq![e];
            assert(records_of_reviews(reviews) =~= r1 + one);
            lemma_records_concat(r1, one, x);
            let lo = record_logins(one);
            let ap = record_approvals(one);
            assert(lo[0] == login);
            assert(ap[0] == e.1);
            assert(count_upto(lo, x, 0) == 0);
            assert(flagged_upto(lo, ap, x, 0) == 0);
            let all = records_of_reviews(reviews);
            assert forall|i: int| 0 <= i < all.len() implies (#[trigger] all[i]).0.len() > 0 by {
                if i < r1.len() {
                    assert(all[i] == r1[i]);
                }
            }
        } else {
            if x.len() > 0 {
                assert(login != x);
            }
        }
    }
}

proof fn lemma_records_of_prs(prs: Seq<Json>, x: Seq<char>)
    ensures
        records_of_prs(prs).len() == reviews_of_prs(prs).filter(has_author()).len(),
        forall|i: int| 0 <= i < records_of_prs(prs).len() ==> (#[trigger] records_of_prs(prs)[i]).0.len() > 0,
        x.len() > 0 ==> count_of(record_logins(records_of_prs(prs)), x) == reviews_of_prs(prs).filter(authored_by(x)).len(),
        x.len() > 0 ==> flagged_of(
            record_logins(records_of_prs(prs)),
            record_approvals(records_of_prs(prs)),
            x,
        ) == reviews_of_prs(prs).filter(approved_by(x)).len(),
    decreases prs.len(),
{
    reveal(Seq::filter);
    if prs.len() > 0 {
        let d = prs.drop_last();
        lemma_records_of_prs(d, x);
        let rs = reviews_of_pr(prs.last());
        lemma_records_of_reviews(rs, x);
        assert(records_of_pr(prs.last()) == records_of_reviews(rs));
        let r1 = records_of_prs(d);
        let r2 = records_of_reviews(rs);
        lemma_records_concat(r1, r2, x);
        Seq::filter_distributes_over_add(reviews_of_prs(d), rs, has_author());
        Seq::filter_distributes_over_add(reviews_of_prs(d), rs, authored_by(x));
        Seq::filter_distributes_over_add(reviews_of_prs(d), rs, approved_by(x));
        let all = records_of_prs(prs);
        assert(all == r1 + r2);
        assert forall|i: int| 0 <= i < all.len() implies (#[trigger] all[i]).0.len() > 0 by {
            if i < r1.len() {
                assert(all[i] == r1[i]);
            } else {
                assert(all[i] == r2[i - r1.len()]);
            }
        }
    }
}

/// Every review of the payload that names its author's login makes one record, and no other
/// review does; for any login, the records of that login are exactly its reviews, and those
/// flagged approved are exactly its reviews whose state is `APPROVED` in any ASCII case.
pub proof fn law_one_record_per_review(payload: Json, login: Seq<char>)
    ensures
        review_records(payload).len() == payload_reviews(payload).filter(has_author()).len(),
        login.len() > 0 ==> count_of(record_logins(review_records(payload)), login) == payload_reviews(
            payload,
        ).filter(authored_by(login)).len(),
        login.len() > 0 ==> flagged_of(
            record_logins(review_records(payload)),
            record_approvals(review_records(payload)),
            login,
        ) == payload_reviews(payload).filter(approved_by(login)).len(),
{
    reveal(Seq::filter);
    match payload {
        Json::Array(prs) => {
            lemma_records_of_prs(prs@, login);
        },
        _ => {},
    }
}

/// In the ranked statistics of a payload, each login is non-empty, its review count is the
/// number of its reviews in the payload, and its approval count the number of those that
/// approved.
pub proof fn law_ranked_counts(payload: Json, r: Seq<ReviewerStat>)
    requires
        reviewers_ranked(review_records(payload), r),
    ensures
        forall|i: int|
            0 <= i < r.len() ==> {
                &&& (#[trigger] r[i]).login@.len() > 0
                &&& r[i].reviews == payload_reviews(payload).filter(authored_by(r[i].login@)).len()
                &&& r[i].approvals == payload_reviews(payload).filter(approved_by(r[i].login@)).len()
            },
{
    assert forall|i: int| 0 <= i < r.len() implies {
        &&& (#[trigger] r[i]).login@.len() > 0
        &&& r[i].reviews == payload_reviews(payload).filter(authored_by(r[i].login@)).len()
        &&& r[i].approvals == payload_reviews(payload).filter(approved_by(r[i].login@)).len()
    } by {
        let recs = review_records(payload);
        let x = r[i].login@;
        assert(reviewer_exact(recs, r[i]));
        let k = choose|k: int| 0 <= k < record_logins(recs).len() && record_logins(recs)[k] == x;
        match payload {
            Json::Array(prs) => {
                lemma_records_of_prs(prs@, x);
                assert(recs[k].0 == x);
            },
            _ => {},
        }
        law_one_record_per_review(payload, x);
    }
}

/// Per-login review counts for the output of `gh pr list --json reviews` (`None` when
/// `gh` could not run or failed): empty in that case, when the output is not JSON, and
/// for a payload of more reviews than a count can hold.
pub fn review_stats(raw: Option<String>) -> (r: Vec<ReviewerStat>)
    ensures
        raw is None ==> r@.len() == 0,
        raw matches Some(text) ==> match parsed_json(text@) {
            None => r@.len() == 0,
            Some(j) => if review_records(j).len() <= u32::MAX {
                reviewers_ranked(review_records(j), r@)
            } else {
                r@.len() == 0
            },
        },
{
    let payload = match raw {
        Some(text) => parse_json(text.as_str()),
        None => None,
    };
    match payload {
        Some(j) => {
            let records = collect_review_records(&j);
            if records.len() <= u32::MAX as usize {
                proof {
                    assert forall|k: Seq<char>| count_of(
                        record_logins(record_views(records@)),
                        k,
                    ) <= u32::MAX by {
                        lemma_count_at_most_len(record_logins(record_views(records@)), k);
                    }
                }
                rank_reviewers(&records)
            } else {
                Vec::new()
            }
        },
        None => Vec::new(),
    }
}

/// An open pull request awaiting the current user's review.
pub struct ReviewRequest {
    pub number: u32,
    pub title: String,
    pub url: String,
}

pub open spec fn request_view(r: ReviewRequest) -> (u32, Seq<char>, Seq<char>) {
    (r.number, r.title@, r.url@)
}

pub open spec fn request_views(rs: Seq<ReviewRequest>) -> Seq<(u32, Seq<char>, Seq<char>)> {
    rs.map_values(|r: ReviewRequest| request_view(r))
}

/// The text of an optional string value, or empty.
pub open spec fn text_or_empty(j: Option<Json>) -> Seq<char> {
    match as_text(j) {
        Some(t) => t,
        None => Seq::empty(),
    }
}

/// The request one pull request describes: only when its `number` is a non-negative
/// integer (kept modulo 2^32, as a `u32`); a missing title or url reads as empty.
pub open spec fn request_of(pr: Json) -> Option<(u32, Seq<char>, Seq<char>)> {
    match json_get(pr, "number"@) {
        Some(Json::Number(Some(n))) => Some(
            (n as u32, text_or_empty(json_get(pr, "title"@)), text_or_empty(json_get(pr, "url"@))),
        ),
        _ => None,
    }
}

pub open spec fn requests_of(prs: Seq<Json>) -> Seq<(u32, Seq<char>, Seq<char>)>
    decreases prs.len(),
{
    if prs.len() == 0 {
        Seq::empty()
    } else {
        let r = requests_of(prs.drop_last());
        match request_of(prs.last()) {
            Some(q) => r.push(q),
            None => r,
        }
    }
}

/// The review requests a `gh pr list --json number,title,url` payload describes.
pub open spec fn pending_requests(payload: Json) -> Seq<(u32, Seq<char>, Seq<char>)> {
    match payload {
        Json::Array(prs) => requests_of(prs@),
        _ => Seq::empty(),
    }
}

fn text_or_empty_of(j: Option<&Json>) -> (r: String)
    ensures
        r@ == text_or_empty(
            match j {
                Some(v) => Some(*v),
                None => None,
            },
        ),
{
    match j {
        Some(v) => match v.as_str() {
            Some(s) => s.clone(),
            None => String::new(),
        },
        None => String::new(),
    }
}

/// Read the review requests out of a `gh pr list --json number,title,url` payload:
/// entries without a numeric `number` are skipped.
pub fn parse_requests(parsed: &Json) -> (r: Vec<ReviewRequest>)
    ensures
        request_views(r@) == pending_requests(*parsed),
{
    let mut out: Vec<ReviewRequest> = Vec::new();
    match parsed {
        Json::Array(prs) => {
            let n = prs.len();
            let mut i: usize = 0;
            assert(request_views(out@) =~= requests_of(prs@.take(0)));
            while i < n
                invariant
                    n == prs@.len(),
                    i <= n,
                    request_views(out@) == requests_of(prs@.take(i as int)),
                decreases n - i,
            {
                assert(prs@.take(i as int + 1).drop_last() =~= prs@.take(i as int));
                assert(prs@.take(i as int + 1).last() == prs@[i as int]);
                let pr = &prs[i];
                let number = match pr.get("number") {
                    Some(Json::Number(Some(n))) => Some(*n),
                    _ => None,
                };
                match number {
                    Some(num) => {
                        let title = text_or_empty_of(pr.get("title"));
                        let url = text_or_empty_of(pr.get("url"));
                        let ghost before = out@;
                        let req = ReviewRequest { number: num as u32, title, url };
                        out.push(req);
                        assert(request_views(out@) =~= request_views(before).push(
                            request_view(req),
                        ));
                    },
                    None => {},
                }
                i = i + 1;
            }
            assert(prs@.take(n as int) =~= prs@);
        },
        _ => {
            assert(request_views(out@) =~= Seq::<(u32, Seq<char>, Seq<char>)>::empty());
        },
    }
    out
}

/// Open pull requests awaiting the current user's review, from the output of
/// `gh pr list --json number,title,url` (`None` when `gh` could not run or failed):
/// empty in that case and when the output is not JSON.
pub fn review_requests(raw: Option<String>) -> (r: Vec<ReviewRequest>)
    ensures
        raw is None ==> r@.len() == 0,
        raw matches Some(text) ==> match parsed_json(text@) {
            None => r@.len() == 0,
            Some(j) => request_views(r@) == pending_requests(j),
        },
{
    let payload = match raw {
        Some(text) => parse_json(text.as_str()),
        None => None,
    };
    match payload {
        Some(j) => parse_requests(&j),
        None => Vec::new(),
    }
}

} // verus!
