//! Parsing the origin remote's URL into owner and repository name.
//!
//! The canonical SSH form `git@github.com:owner/repo[.git]` and the HTTPS
//! forms `https://github.com/owner/repo[.git]` and
//! `http://github.com/owner/repo[.git]` are accepted; anything else is
//! rejected.

use vstd::prelude::*;
use vstd::string::*;

use crate::codec::expect;
use crate::errors::Error;
use crate::text::{chars_of, string_of_chars};

verus! {

/// Whether the text ends with `.git`.
pub open spec fn ends_with_git(s: Seq<char>) -> bool {
    s.len() >= 4 && s.subrange(s.len() - 4, s.len() as int) == ".git"@
}

/// The text with a trailing `.git` removed, when present.
pub open spec fn strip_git(s: Seq<char>) -> Seq<char> {
    if ends_with_git(s) {
        s.subrange(0, s.len() - 4)
    } else {
        s
    }
}

/// Position of the first slash, if any.
pub open spec fn first_slash(s: Seq<char>, i: int) -> Option<int>
    decreases s.len() - i,
{
    if i < 0 || i >= s.len() {
        None
    } else if s[i] == '/' {
        Some(i)
    } else {
        first_slash(s, i + 1)
    }
}

/// The text split at its first slash: what stands before it and what
/// stands after it.
pub open spec fn split_slash(s: Seq<char>) -> Option<(Seq<char>, Seq<char>)> {
    match first_slash(s, 0) {
        None => None,
        Some(i) => Some((s.subrange(0, i), s.subrange(i + 1, s.len() as int))),
    }
}

/// The owner and repository named by a remote URL, if it has one of the
/// canonical forms.
pub open spec fn remote_parts(url: Seq<char>) -> Option<(Seq<char>, Seq<char>)> {
    if expect(url, 0, "git@github.com:"@) is Some {
        split_slash(strip_git(url.skip(15)))
    } else if expect(url, 0, "https://github.com/"@) is Some {
        split_slash(strip_git(url.skip(19)))
    } else if expect(url, 0, "http://github.com/"@) is Some {
        split_slash(strip_git(url.skip(18)))
    } else {
        None
    }
}

/// The tail of the URL after a matched prefix, with `.git` stripped.
fn tail_after(v: &Vec<char>, start: usize) -> (r: Vec<char>)
    requires
        start <= v@.len(),
    ensures
        r@ == strip_git(v@.skip(start as int)),
{
    let n = v.len();
    let mut end = n;
    if n - start >= 4 && v[n - 4] == '.' && v[n - 3] == 'g' && v[n - 2] == 'i'
        && v[n - 1] == 't' {
        proof {
            reveal_strlit(".git");
            assert(v@.skip(start as int).subrange(v@.skip(start as int).len() - 4,
                v@.skip(start as int).len() as int) =~= ".git"@);
        }
        end = n - 4;
    } else {
        proof {
            reveal_strlit(".git");
            let tl = v@.skip(start as int);
            if ends_with_git(tl) {
                let sub = tl.subrange(tl.len() - 4, tl.len() as int);
                assert(sub[0] == tl[tl.len() - 4] && sub[1] == tl[tl.len() - 3]
                    && sub[2] == tl[tl.len() - 2] && sub[3] == tl[tl.len() - 1]);
                assert(sub[0] == '.' && sub[1] == 'g' && sub[2] == 'i' && sub[3] == 't');
                assert(v@[v@.len() - 4] == '.' && v@[v@.len() - 3] == 'g'
                    && v@[v@.len() - 2] == 'i' && v@[v@.len() - 1] == 't');
            }
        }
    }
    let mut r: Vec<char> = Vec::new();
    let mut i = start;
    while i < end
        invariant
            start <= i <= end <= v@.len(),
            r@ == v@.subrange(start as int, i as int),
        decreases end - i,
    {
        r.push(v[i]);
        assert(r@ =~= v@.subrange(start as int, i + 1 as int));
        i += 1;
    }
    proof {
        let tl = v@.skip(start as int);
        if end < n {
            assert(v@.subrange(start as int, end as int) =~= tl.subrange(0, tl.len() - 4));
        } else {
            assert(v@.subrange(start as int, end as int) =~= tl);
        }
    }
    r
}

/// Split a tail at its first slash into owner and repository.
fn split_tail(tail: Vec<char>) -> (r: Option<(String, String)>)
    ensures
        match r {
            Some((owner, repo)) => split_slash(tail@) == Some((owner@, repo@)),
            None => split_slash(tail@) is None,
        },
{
    let n = tail.len();
    let mut i: usize = 0;
    while i < n
        invariant
            i <= n,
            n == tail@.len(),
            first_slash(tail@, 0) == first_slash(tail@, i as int),
        decreases n - i,
    {
        if tail[i] == '/' {
            let mut owner: Vec<char> = Vec::new();
            let mut k: usize = 0;
            while k < i
                invariant
                    k <= i < n,
                    n == tail@.len(),
                    owner@ == tail@.subrange(0, k as int),
                decreases i - k,
            {
                owner.push(tail[k]);
                assert(owner@ =~= tail@.subrange(0, k + 1 as int));
                k += 1;
            }
            let mut repo: Vec<char> = Vec::new();
            let mut m: usize = i + 1;
            while m < n
                invariant
                    i + 1 <= m <= n,
                    n == tail@.len(),
                    repo@ == tail@.subrange(i + 1 as int, m as int),
                decreases n - m,
            {
                repo.push(tail[m]);
                assert(repo@ =~= tail@.subrange(i + 1 as int, m + 1 as int));
                m += 1;
            }
            return Some((string_of_chars(&owner), string_of_chars(&repo)));
        }
        i += 1;
    }
    None
}

/// Parse the owner and repository out of a remote URL in one of the
/// canonical SSH or HTTPS forms; any other form is rejected.
pub fn parse_github_remote(url: &str) -> (r: Result<(String, String), Error>)
    ensures
        match r {
            Ok((owner, repo)) => remote_parts(url@) == Some((owner@, repo@)),
            Err(e) => remote_parts(url@) is None
                && (e matches Error::InvalidRemoteUrl(u) && u@ == url@),
        },
{
    let v = chars_of(url);
    let start: Option<usize> = match crate::codec::e_expect(&v, 0, "git@github.com:") {
        Some(_) => Some(15),
        None => match crate::codec::e_expect(&v, 0, "https://github.com/") {
            Some(_) => Some(19),
            None => match crate::codec::e_expect(&v, 0, "http://github.com/") {
                Some(_) => Some(18),
                None => None,
            },
        },
    };
    proof {
        crate::codec::lemma_expect_bounds(url@, 0, "git@github.com:"@);
        crate::codec::lemma_expect_bounds(url@, 0, "https://github.com/"@);
        crate::codec::lemma_expect_bounds(url@, 0, "http://github.com/"@);
        reveal_strlit("git@github.com:");
        reveal_strlit("https://github.com/");
        reveal_strlit("http://github.com/");
    }
    match start {
        None => Err(Error::InvalidRemoteUrl(String::from_str(url))),
        Some(s) => {
            let tail = tail_after(&v, s);
            match split_tail(tail) {
                Some((owner, repo)) => Ok((owner, repo)),
                None => Err(Error::InvalidRemoteUrl(String::from_str(url))),
            }
        },
    }
}

} // verus!
