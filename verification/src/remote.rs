//! Remote repository identity: the GitHub `owner/repo` behind a remote URL.

use vstd::prelude::*;

use crate::text::{chars_of, concat, opt_view, string_from};

verus! {

/// `s` starts with `p`.
pub open spec fn has_prefix(s: Seq<char>, p: Seq<char>) -> bool {
    p.len() <= s.len() && s.take(p.len() as int) == p
}

/// What follows the GitHub host in a remote URL of one of the accepted forms
/// (`https://github.com/`, `http://github.com/`, `ssh://git@github.com/`,
/// `git@github.com:`), or nothing for any other URL.
pub open spec fn github_path(url: Seq<char>) -> Option<Seq<char>> {
    if has_prefix(url, "https://github.com/"@) {
        Some(url.skip("https://github.com/"@.len() as int))
    } else if has_prefix(url, "http://github.com/"@) {
        Some(url.skip("http://github.com/"@.len() as int))
    } else if has_prefix(url, "ssh://git@github.com/"@) {
        Some(url.skip("ssh://git@github.com/"@.len() as int))
    } else if has_prefix(url, "git@github.com:"@) {
        Some(url.skip("git@github.com:"@.len() as int))
    } else {
        None
    }
}

/// `p` without one trailing `/` and then without a trailing `.git`.
pub open spec fn repo_path(p: Seq<char>) -> Seq<char> {
    let p1 = if p.len() > 0 && p.last() == '/' {
        p.drop_last()
    } else {
        p
    };
    if p1.len() >= 4 && p1.skip(p1.len() - 4) == ".git"@ {
        p1.take(p1.len() - 4)
    } else {
        p1
    }
}

/// The `(owner, repo)` of a GitHub remote URL: the path after the host must be exactly
/// two non-empty segments separated by one `/`.
pub open spec fn github_slug(url: Seq<char>) -> Option<(Seq<char>, Seq<char>)> {
    match github_path(url) {
        Some(p) => {
            let q = repo_path(p);
            if exists|k: int|
                0 < k < q.len() - 1 && q[k] == '/' && forall|j: int|
                    0 <= j < q.len() && j != k ==> q[j] != '/' {
                let k = choose|k: int|
                    0 < k < q.len() - 1 && q[k] == '/' && forall|j: int|
                        0 <= j < q.len() && j != k ==> q[j] != '/';
                Some((q.take(k), q.skip(k + 1)))
            } else {
                None
            }
        },
        None => None,
    }
}

fn starts_with(s: &Vec<char>, p: &Vec<char>) -> (r: bool)
    ensures
        r == has_prefix(s@, p@),
{
    if p.len() > s.len() {
        return false;
    }
    let n = p.len();
    let mut i: usize = 0;
    while i < n
        invariant
            n == p@.len(),
            n <= s@.len(),
            i <= n,
            forall|j: int| 0 <= j < i ==> s@[j] == p@[j],
        decreases n - i,
    {
        if s[i] != p[i] {
            assert(s@.take(n as int)[i as int] != p@[i as int]);
            return false;
        }
        i = i + 1;
    }
    assert(s@.take(n as int) =~= p@);
    true
}

fn skip_chars(s: &Vec<char>, k: usize) -> (r: Vec<char>)
    requires
        k <= s@.len(),
    ensures
        r@ == s@.skip(k as int),
{
    let mut out: Vec<char> = Vec::new();
    let n = s.len();
    let mut i: usize = k;
    while i < n
        invariant
            n == s@.len(),
            k <= i <= n,
            out@ == s@.subrange(k as int, i as int),
        decreases n - i,
    {
        out.push(s[i]);
        assert(out@ =~= s@.subrange(k as int, i as int + 1));
        i = i + 1;
    }
    assert(out@ =~= s@.skip(k as int));
    out
}

fn take_chars(s: &Vec<char>, k: usize) -> (r: Vec<char>)
    requires
        k <= s@.len(),
    ensures
        r@ == s@.take(k as int),
{
    let mut out: Vec<char> = Vec::new();
    let mut i: usize = 0;
    while i < k
        invariant
            k <= s@.len(),
            i <= k,
            out@ == s@.take(i as int),
        decreases k - i,
    {
        out.push(s[i]);
        assert(out@ =~= s@.take(i as int + 1));
        i = i + 1;
    }
    out
}

fn github_path_of(url: &Vec<char>) -> (r: Option<Vec<char>>)
    ensures
        match r {
            Some(p) => github_path(url@) == Some(p@),
            None => github_path(url@) is None,
        },
{
    let https = chars_of("https://github.com/");
    let http = chars_of("http://github.com/");
    let ssh = chars_of("ssh://git@github.com/");
    let scp = chars_of("git@github.com:");
    if starts_with(url, &https) {
        Some(skip_chars(url, https.len()))
    } else if starts_with(url, &http) {
        Some(skip_chars(url, http.len()))
    } else if starts_with(url, &ssh) {
        Some(skip_chars(url, ssh.len()))
    } else if starts_with(url, &scp) {
        Some(skip_chars(url, scp.len()))
    } else {
        None
    }
}

/// The `(owner, repo)` of a GitHub remote URL such as `https://github.com/o/r.git` or
/// `git@github.com:o/r.git`; `None` for any other URL.
pub fn parse_github_slug(url: &str) -> (r: Option<(String, String)>)
    ensures
        match r {
            Some((o, n)) => github_slug(url@) == Some((o@, n@)),
            None => github_slug(url@) is None,
        },
{
    let cs = chars_of(url);
    let p = match github_path_of(&cs) {
        Some(p) => p,
        None => {
            return None;
        },
    };
    let p1 = if p.len() > 0 && p[p.len() - 1] == '/' {
        take_chars(&p, p.len() - 1)
    } else {
        p
    };
    let git = chars_of(".git");
    proof {
        reveal_strlit(".git");
    }
    let q = if p1.len() >= 4 {
        let tail = skip_chars(&p1, p1.len() - 4);
        let is_git = tail.len() == 4 && tail[0] == git[0] && tail[1] == git[1] && tail[2] == git[2]
            && tail[3] == git[3];
        assert(is_git == (tail@ == ".git"@)) by {
            if tail@.len() == 4 && git@.len() == 4 {
                if is_git {
                    assert(tail@ =~= git@);
                }
            }
        }
        if is_git {
            take_chars(&p1, p1.len() - 4)
        } else {
            p1
        }
    } else {
        p1
    };
    assert(q@ == repo_path(github_path(url@)->0));
    // Find the separating `/`, and make sure it is the only one.
    let n = q.len();
    let mut k: usize = 0;
    while k < n && q[k] != '/'
        invariant
            n == q@.len(),
            k <= n,
            forall|j: int| 0 <= j < k ==> q@[j] != '/',
        decreases n - k,
    {
        k = k + 1;
    }
    if k == 0 || k >= n || k + 1 == n {
        proof {
            if exists|m: int|
                0 < m < q@.len() - 1 && q@[m] == '/' && forall|j: int|
                    0 <= j < q@.len() && j != m ==> q@[j] != '/' {
                let m = choose|m: int|
                    0 < m < q@.len() - 1 && q@[m] == '/' && forall|j: int|
                        0 <= j < q@.len() && j != m ==> q@[j] != '/';
                if k < n {
                    assert(q@[k as int] == '/');
                }
            }
        }
        return None;
    }
    let mut j: usize = k + 1;
    while j < n
        invariant
            n == q@.len(),
            k < j <= n,
            0 < k,
            q@[k as int] == '/',
            forall|t: int| 0 <= t < k ==> q@[t] != '/',
            forall|t: int| k < t < j ==> q@[t] != '/',
            github_path(url@) is Some,
            q@ == repo_path(github_path(url@)->0),
        decreases n - j,
    {
        if q[j] == '/' {
            proof {
                if exists|m: int|
                    0 < m < q@.len() - 1 && q@[m] == '/' && forall|t: int|
                        0 <= t < q@.len() && t != m ==> q@[t] != '/' {
                    let m = choose|m: int|
                        0 < m < q@.len() - 1 && q@[m] == '/' && forall|t: int|
                            0 <= t < q@.len() && t != m ==> q@[t] != '/';
                    assert(q@[k as int] == '/');
                    assert(q@[j as int] == '/');
                }
            }
            return None;
        }
        j = j + 1;
    }
    let ghost kk = k as int;
    assert(0 < kk < q@.len() - 1 && q@[kk] == '/' && forall|t: int|
        0 <= t < q@.len() && t != kk ==> q@[t] != '/');
    let ghost m = choose|m: int|
        0 < m < q@.len() - 1 && q@[m] == '/' && forall|t: int|
            0 <= t < q@.len() && t != m ==> q@[t] != '/';
    assert(m == kk) by {
        if m != kk {
            assert(q@[kk] == '/');
        }
    }
    let owner = take_chars(&q, k);
    let repo = skip_chars(&q, k + 1);
    Some((string_from(&owner), string_from(&repo)))
}

/// The GitHub web page of a repository whose `origin` remote URL is `remote`.
pub open spec fn github_web_url(remote: Option<Seq<char>>) -> Option<Seq<char>> {
    match remote {
        Some(u) => match github_slug(u) {
            Some((o, n)) => Some("https://github.com/"@ + o + "/"@ + n),
            None => None,
        },
        None => None,
    }
}

/// A path segment of a GitHub slug: non-empty, with no `/`.
pub open spec fn plain_segment(s: Seq<char>) -> bool {
    s.len() > 0 && forall|i: int| 0 <= i < s.len() ==> s[i] != '/'
}

/// `s` ends with `.git`.
pub open spec fn ends_with_git(s: Seq<char>) -> bool {
    s.len() >= 4 && s.skip(s.len() - 4) == ".git"@
}

/// The host prefixes of the accepted GitHub remote URL forms.
pub open spec fn github_prefix(p: Seq<char>) -> bool {
    p == "https://github.com/"@ || p == "http://github.com/"@ || p == "ssh://git@github.com/"@
        || p == "git@github.com:"@
}

/// The endings a remote URL may carry after the repository name.
pub open spec fn repo_suffix(s: Seq<char>) -> bool {
    s == ""@ || s == ".git"@ || s == "/"@ || s == ".git/"@
}

proof fn lemma_no_prefix(u: Seq<char>, p: Seq<char>, i: int)
    requires
        0 <= i < p.len(),
        i < u.len(),
        u[i] != p[i],
    ensures
        !has_prefix(u, p),
{
    if has_prefix(u, p) {
        assert(u.take(p.len() as int)[i] == u[i]);
    }
}

proof fn lemma_github_path_of_form(prefix: Seq<char>, body: Seq<char>)
    requires
        github_prefix(prefix),
    ensures
        github_path(prefix + body) == Some(body),
{
    reveal_strlit("https://github.com/");
    reveal_strlit("http://github.com/");
    reveal_strlit("ssh://git@github.com/");
    reveal_strlit("git@github.com:");
    let u = prefix + body;
    let https = "https://github.com/"@;
    let http = "http://github.com/"@;
    let ssh = "ssh://git@github.com/"@;
    let scp = "git@github.com:"@;
    assert(u.take(prefix.len() as int) =~= prefix);
    assert(u.skip(prefix.len() as int) =~= body);
    assert(forall|i: int| 0 <= i < prefix.len() ==> u[i] == prefix[i]);
    if prefix == http {
        assert(u[4] == ':');
        lemma_no_prefix(u, https, 4);
    } else if prefix == ssh {
        assert(u[0] == 's');
        lemma_no_prefix(u, https, 0);
        lemma_no_prefix(u, http, 0);
    } else if prefix == scp {
        assert(u[0] == 'g');
        lemma_no_prefix(u, https, 0);
        lemma_no_prefix(u, http, 0);
        lemma_no_prefix(u, ssh, 0);
    }
}

proof fn lemma_repo_path_of_form(owner: Seq<char>, name: Seq<char>, suffix: Seq<char>)
    requires
        plain_segment(owner),
        plain_segment(name),
        !ends_with_git(name),
        repo_suffix(suffix),
    ensures
        repo_path(owner + "/"@ + name + suffix) == owner + "/"@ + name,
{
    reveal_strlit(".git");
    reveal_strlit("/");
    reveal_strlit("");
    reveal_strlit(".git/");
    let q = owner + "/"@ + name;
    let git = ".git"@;
    assert(q[owner.len() as int] == '/');
    assert(q.last() == name.last());
    // `q` itself ends neither in `/` nor in `.git`.
    assert(!ends_with_git(q)) by {
        if ends_with_git(q) {
            let t = q.skip(q.len() - 4);
            if name.len() >= 4 {
                assert(t =~= name.skip(name.len() - 4));
            } else {
                let i = 3 - name.len();
                assert(t[i] == q[owner.len() as int]);
                assert(git[i] != '/');
            }
        }
    }
    let body = q + suffix;
    if suffix == ""@ {
        assert(body =~= q);
    } else if suffix == "/"@ {
        assert(body.last() == '/');
        assert(body.drop_last() =~= q);
    } else if suffix == ".git"@ {
        assert(body.last() == 't');
        assert(body.skip(body.len() - 4) =~= git);
        assert(body.take(body.len() - 4) =~= q);
    } else {
        assert(body.last() == '/');
        let p1 = body.drop_last();
        assert(p1 =~= q + git);
        assert(p1.skip(p1.len() - 4) =~= git);
        assert(p1.take(p1.len() - 4) =~= q);
    }
}

/// A GitHub remote URL in any accepted form, `<host prefix><owner>/<name>` followed by
/// nothing, `.git`, `/` or `.git/`, names the repository `(owner, name)`, whatever dots the
/// name holds: only the trailing `.git` and `/` are dropped. Its web page is
/// `https://github.com/<owner>/<name>`.
pub proof fn law_slug_round_trip(prefix: Seq<char>, owner: Seq<char>, name: Seq<char>, suffix: Seq<char>)
    requires
        github_prefix(prefix),
        plain_segment(owner),
        plain_segment(name),
        !ends_with_git(name),
        repo_suffix(suffix),
    ensures
        github_slug(prefix + owner + "/"@ + name + suffix) == Some((owner, name)),
        github_web_url(Some(prefix + owner + "/"@ + name + suffix)) == Some(
            "https://github.com/"@ + owner + "/"@ + name,
        ),
{
    reveal_strlit("/");
    let body = owner + "/"@ + name + suffix;
    let url = prefix + owner + "/"@ + name + suffix;
    assert(url =~= prefix + body);
    lemma_github_path_of_form(prefix, body);
    lemma_repo_path_of_form(owner, name, suffix);
    let q = owner + "/"@ + name;
    let kk = owner.len() as int;
    assert(q[kk] == '/');
    assert forall|t: int| 0 <= t < q.len() && t != kk implies q[t] != '/' by {
        if t < kk {
            assert(q[t] == owner[t]);
        } else {
            assert(q[t] == name[t - kk - 1]);
        }
    }
    assert(0 < kk < q.len() - 1);
    let m = choose|m: int|
        0 < m < q.len() - 1 && q[m] == '/' && forall|j: int| 0 <= j < q.len() && j != m ==> q[j] != '/';
    assert(m == kk) by {
        if m != kk {
            assert(q[kk] == '/');
        }
    }
    assert(q.take(kk) =~= owner);
    assert(q.skip(kk + 1) =~= name);
    assert(body == q + suffix);
    assert(github_path(url) == Some(body));
    assert(repo_path(body) == q);
    assert(exists|k: int|
        0 < k < q.len() - 1 && q[k] == '/' && forall|j: int| 0 <= j < q.len() && j != k ==> q[j] != '/');
    assert(github_slug(url) == Some((q.take(m), q.skip(m + 1))));
}

proof fn lemma_path_has_prefix(url: Seq<char>)
    requires
        github_path(url) is Some,
    ensures
        exists|prefix: Seq<char>| github_prefix(prefix) && url == prefix + github_path(url)->0,
{
    let p = github_path(url)->0;
    let prefix = if has_prefix(url, "https://github.com/"@) {
        "https://github.com/"@
    } else if has_prefix(url, "http://github.com/"@) {
        "http://github.com/"@
    } else if has_prefix(url, "ssh://git@github.com/"@) {
        "ssh://git@github.com/"@
    } else {
        "git@github.com:"@
    };
    assert(has_prefix(url, prefix));
    assert(p == url.skip(prefix.len() as int));
    assert(url =~= prefix + p);
    assert(github_prefix(prefix));
}

proof fn lemma_repo_path_suffix(p: Seq<char>)
    ensures
        exists|suffix: Seq<char>| repo_suffix(suffix) && p == repo_path(p) + suffix,
{
    reveal_strlit(".git");
    reveal_strlit("/");
    reveal_strlit("");
    reveal_strlit(".git/");
    let p1 = if p.len() > 0 && p.last() == '/' {
        p.drop_last()
    } else {
        p
    };
    let s1: Seq<char> = if p.len() > 0 && p.last() == '/' {
        "/"@
    } else {
        ""@
    };
    assert(p =~= p1 + s1);
    let q = repo_path(p);
    let s2: Seq<char> = if p1.len() >= 4 && p1.skip(p1.len() - 4) == ".git"@ {
        ".git"@
    } else {
        ""@
    };
    assert(p1 =~= q + s2);
    let suffix = s2 + s1;
    assert(p =~= q + suffix);
    if s2 == ".git"@ && s1 == "/"@ {
        assert(suffix =~= ".git/"@);
    } else if s2 == ".git"@ {
        assert(suffix =~= ".git"@);
    } else if s1 == "/"@ {
        assert(suffix =~= "/"@);
    } else {
        assert(suffix =~= ""@);
    }
    assert(repo_suffix(suffix));
}

/// Every slug that is found comes from a URL of an accepted form: a host prefix, the owner,
/// `/`, the name, and nothing, `.git`, `/` or `.git/`, where owner and name are non-empty and
/// hold no `/`.
pub proof fn law_slug_shape(url: Seq<char>)
    requires
        github_slug(url) is Some,
    ensures
        ({
            let (owner, name) = github_slug(url)->0;
            &&& plain_segment(owner)
            &&& plain_segment(name)
            &&& exists|prefix: Seq<char>, suffix: Seq<char>|
                github_prefix(prefix) && repo_suffix(suffix) && url == prefix + owner + "/"@ + name
                    + suffix
        }),
{
    reveal_strlit("/");
    let (owner, name) = github_slug(url)->0;
    let p = github_path(url)->0;
    lemma_path_has_prefix(url);
    let prefix = choose|prefix: Seq<char>| github_prefix(prefix) && url == prefix + p;
    let q = repo_path(p);
    lemma_repo_path_suffix(p);
    let suffix = choose|suffix: Seq<char>| repo_suffix(suffix) && p == q + suffix;
    let k = choose|k: int|
        0 < k < q.len() - 1 && q[k] == '/' && forall|j: int| 0 <= j < q.len() && j != k ==> q[j] != '/';
    assert(owner == q.take(k));
    assert(name == q.skip(k + 1));
    assert(q =~= owner + "/"@ + name);
    assert(url =~= prefix + owner + "/"@ + name + suffix);
    assert forall|i: int| 0 <= i < owner.len() implies owner[i] != '/' by {
        assert(owner[i] == q[i]);
    }
    assert forall|i: int| 0 <= i < name.len() implies name[i] != '/' by {
        assert(name[i] == q[i + k + 1]);
    }
}

/// The web base URL (`https://github.com/owner/repo`) of a repository whose `origin`
/// remote is `remote`, when that is a GitHub URL.
pub fn github_repo_url(remote: Option<String>) -> (r: Option<String>)
    ensures
        opt_view(r) == github_web_url(opt_view(remote)),
{
    match remote {
        Some(u) => match parse_github_slug(u.as_str()) {
            Some((owner, repo)) => {
                let a = concat("https://github.com/", owner.as_str());
                let b = concat(a.as_str(), "/");
                Some(concat(b.as_str(), repo.as_str()))
            },
            None => None,
        },
        None => None,
    }
}

} // verus!
