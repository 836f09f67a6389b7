//! The URL normalizer: rewrites a raw link into a canonical secure PDF link.

use vstd::prelude::*;
use vstd::string::StringExecFns;
use vstd::string::StrSliceExecFns;

verus! {

/// The path segment that marks an abstract (landing page) view.
pub open spec fn abs_marker() -> Seq<char> {
    "arxiv.org/abs/"@
}

/// The canonical PDF path segment.
pub open spec fn pdf_marker() -> Seq<char> {
    "arxiv.org/pdf/"@
}

/// The insecure scheme prefix.
pub open spec fn http_prefix() -> Seq<char> {
    "http://"@
}

/// The secure scheme prefix.
pub open spec fn https_prefix() -> Seq<char> {
    "https://"@
}

/// The suffix appended when an abstract link is turned into a PDF link.
pub open spec fn pdf_suffix() -> Seq<char> {
    ".pdf"@
}

/// `pat` occurs in `s` starting at position `i`.
pub open spec fn match_at(s: Seq<char>, pat: Seq<char>, i: int) -> bool {
    0 <= i && i + pat.len() <= s.len() && s.subrange(i, i + pat.len()) == pat
}

/// `pat` occurs somewhere in `s`.
pub open spec fn contains_seq(s: Seq<char>, pat: Seq<char>) -> bool {
    exists|i: int| match_at(s, pat, i)
}

/// Replaces every occurrence of `pat` in `s` by `rep`, scanning left to
/// right over non-overlapping occurrences, as `str::replace` does.
pub open spec fn replace_seq(s: Seq<char>, pat: Seq<char>, rep: Seq<char>) -> Seq<char>
    decreases s.len(),
{
    if pat.len() == 0 || s.len() < pat.len() {
        s
    } else if s.subrange(0, pat.len() as int) == pat {
        rep + replace_seq(s.skip(pat.len() as int), pat, rep)
    } else {
        seq![s[0]] + replace_seq(s.skip(1), pat, rep)
    }
}

/// The URL-rewriting policy, first matching rule applies: an abstract-view
/// path is rewritten to the canonical PDF path, made secure, and given a
/// `.pdf` suffix; a link already on the PDF path is only made secure; any
/// other link is made secure with its path left alone.
pub open spec fn spec_normalize(u: Seq<char>) -> Seq<char> {
    if contains_seq(u, abs_marker()) {
        replace_seq(replace_seq(u, abs_marker(), pdf_marker()), http_prefix(), https_prefix())
            + pdf_suffix()
    } else if contains_seq(u, pdf_marker()) {
        replace_seq(u, http_prefix(), https_prefix())
    } else {
        replace_seq(u, http_prefix(), https_prefix())
    }
}

/// Does `pat` occur in `s` at position `i`?
fn match_at_exec(s: &str, i: usize, pat: &str) -> (r: bool)
    requires
        i + pat@.len() <= s@.len(),
        i + pat@.len() <= usize::MAX,
    ensures
        r == match_at(s@, pat@, i as int),
{
    let n = pat.unicode_len();
    let mut j: usize = 0;
    while j < n
        invariant
            n == pat@.len(),
            i + n <= s@.len(),
            i + n <= usize::MAX,
            j <= n,
            forall|k: int| 0 <= k < j ==> s@[i + k] == pat@[k],
        decreases n - j,
    {
        if s.get_char(i + j) != pat.get_char(j) {
            proof {
                assert(s@.subrange(i as int, i as int + n as int)[j as int] == s@[i + j]);
            }
            return false;
        }
        j = j + 1;
    }
    proof {
        assert(s@.subrange(i as int, i as int + n as int) =~= pat@);
    }
    true
}

/// Finds the first occurrence of `pat` in `s`, if any.
fn find_first(s: &str, pat: &str) -> (r: Option<usize>)
    requires
        pat@.len() >= 1,
    ensures
        match r {
            Some(i) => match_at(s@, pat@, i as int),
            None => !contains_seq(s@, pat@),
        },
{
    let n = s.unicode_len();
    let m = pat.unicode_len();
    if m > n {
        proof {
            assert forall|k: int| !match_at(s@, pat@, k) by {}
        }
        return None;
    }
    let mut i: usize = 0;
    while i <= n - m
        invariant
            n == s@.len(),
            m == pat@.len(),
            1 <= m <= n,
            i <= n - m + 1,
            forall|k: int| 0 <= k < i ==> !match_at(s@, pat@, k),
        decreases n - m + 1 - i,
    {
        if match_at_exec(s, i, pat) {
            return Some(i);
        }
        i = i + 1;
    }
    proof {
        assert forall|k: int| !match_at(s@, pat@, k) by {
            if 0 <= k < i {
            } else if k > n - m {
                assert(k + pat@.len() > s@.len());
            }
        }
    }
    None
}

/// Does `pat` occur somewhere in `s`?
fn contains_exec(s: &str, pat: &str) -> (r: bool)
    requires
        pat@.len() >= 1,
    ensures
        r == contains_seq(s@, pat@),
{
    match find_first(s, pat) {
        Some(i) => {
            proof {
                assert(match_at(s@, pat@, i as int));
            }
            true
        },
        None => false,
    }
}

/// Replaces every occurrence of `pat` in `s` by `rep`, as `str::replace`.
fn replace_exec(s: &str, pat: &str, rep: &str) -> (r: String)
    requires
        pat@.len() >= 1,
    ensures
        r@ == replace_seq(s@, pat@, rep@),
{
    let n = s.unicode_len();
    let m = pat.unicode_len();
    let mut out = String::new();
    let mut i: usize = 0;
    proof {
        assert(s@.skip(0) =~= s@);
        assert(out@ + replace_seq(s@, pat@, rep@) =~= replace_seq(s@, pat@, rep@));
    }
    while i < n
        invariant
            n == s@.len(),
            m == pat@.len(),
            m >= 1,
            i <= n,
            out@ + replace_seq(s@.skip(i as int), pat@, rep@) == replace_seq(s@, pat@, rep@),
        decreases n - i,
    {
        if m <= n - i && match_at_exec(s, i, pat) {
            out.append(rep);
            proof {
                assert(s@.skip(i as int).subrange(0, m as int) =~= s@.subrange(
                    i as int,
                    i as int + m as int,
                ));
                assert(s@.skip(i as int).skip(m as int) =~= s@.skip(i as int + m as int));
                assert(out@ + replace_seq(s@.skip(i as int + m as int), pat@, rep@) =~= replace_seq(
                    s@,
                    pat@,
                    rep@,
                ));
            }
            i = i + m;
        } else {
            let c = s.substring_char(i, i + 1);
            out.append(c);
            proof {
                let tail = s@.skip(i as int);
                assert(c@ =~= seq![s@[i as int]]);
                if m <= n - i {
                    assert(tail.subrange(0, m as int) =~= s@.subrange(
                        i as int,
                        i as int + m as int,
                    ));
                    assert(tail.subrange(0, m as int) != pat@);
                } else {
                    assert(tail.len() < pat@.len());
                }
                assert(tail.skip(1) =~= s@.skip(i as int + 1));
                assert(seq![tail[0]] =~= c@);
                if tail.len() < pat@.len() {
                    assert(replace_seq(tail, pat@, rep@) == tail);
                    assert(s@.skip(i as int + 1).len() < pat@.len());
                    assert(replace_seq(s@.skip(i as int + 1), pat@, rep@) == s@.skip(
                        i as int + 1,
                    ));
                    assert(tail =~= c@ + s@.skip(i as int + 1));
                }
                assert(out@ + replace_seq(s@.skip(i as int + 1), pat@, rep@) =~= replace_seq(
                    s@,
                    pat@,
                    rep@,
                ));
            }
            i = i + 1;
        }
    }
    proof {
        assert(s@.skip(n as int).len() == 0);
        assert(replace_seq(s@.skip(n as int), pat@, rep@) == s@.skip(n as int));
        assert(out@ =~= out@ + s@.skip(n as int));
    }
    out
}

/// Rewrites a raw link into its canonical secure form: an abstract-view
/// link becomes a secure PDF link with a `.pdf` suffix, a PDF link is made
/// secure, and any other link keeps its path but is made secure.
pub fn convert_pdf_url(url: &str) -> (r: String)
    ensures
        r@ == spec_normalize(url@),
{
    let abs = "arxiv.org/abs/";
    let pdf = "arxiv.org/pdf/";
    let http = "http://";
    let https = "https://";
    proof {
        reveal_strlit("arxiv.org/abs/");
        reveal_strlit("arxiv.org/pdf/");
        reveal_strlit("http://");
        reveal_strlit("https://");
    }
    if contains_exec(url, abs) {
        let step = replace_exec(url, abs, pdf);
        let secure = replace_exec(step.as_str(), http, https);
        secure.concat(".pdf")
    } else if contains_exec(url, pdf) {
        replace_exec(url, http, https)
    } else {
        replace_exec(url, http, https)
    }
}

} // verus!
