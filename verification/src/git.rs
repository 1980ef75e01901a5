//! The repository context a task list is filed under.
//!
//! Discovering the repository, its remote URL, and the current branch is
//! the caller's business; deriving the organisation name from a remote
//! URL and forming the context key are fixed here.

use vstd::prelude::*;

verus! {

/// The identity a context key is built from: organisation, repository,
/// and branch.
#[derive(Debug, Clone, PartialEq, Eq, Hash)]
pub struct GitContext {
    pub org: String,
    pub repo: String,
    pub branch: String,
}

/// Whether `s` begins with `p`.
pub open spec fn spec_starts_with(s: Seq<char>, p: Seq<char>) -> bool {
    p.len() <= s.len() && s.take(p.len() as int) == p
}

/// Index of the first occurrence of `c` in `s`, or -1 if there is none.
pub open spec fn first_char_index(s: Seq<char>, c: char) -> int
    decreases s.len(),
{
    if s.len() == 0 {
        -1
    } else if s[0] == c {
        0
    } else {
        let r = first_char_index(s.drop_first(), c);
        if r < 0 {
            -1
        } else {
            r + 1
        }
    }
}

/// Index of the first occurrence of `://` in `s`, or -1 if there is none.
pub open spec fn first_scheme_index(s: Seq<char>) -> int
    decreases s.len(),
{
    if s.len() < 3 {
        -1
    } else if s[0] == ':' && s[1] == '/' && s[2] == '/' {
        0
    } else {
        let r = first_scheme_index(s.drop_first());
        if r < 0 {
            -1
        } else {
            r + 1
        }
    }
}

/// The part of `s` before its first `/`; all of `s` when it has none.
pub open spec fn leading_segment(s: Seq<char>) -> Seq<char> {
    if first_char_index(s, '/') >= 0 {
        s.take(first_char_index(s, '/'))
    } else {
        s
    }
}

/// The organisation named by a remote URL: the first path segment after a
/// recognised GitHub prefix, or after the first `scheme://host/` of any
/// other URL; none when the string has no such shape.
pub open spec fn spec_org_of_url(url: Seq<char>) -> Option<Seq<char>> {
    if spec_starts_with(url, "git@github.com:"@) {
        Some(leading_segment(url.skip("git@github.com:"@.len() as int)))
    } else if spec_starts_with(url, "https://github.com/"@) {
        Some(leading_segment(url.skip("https://github.com/"@.len() as int)))
    } else if first_scheme_index(url) >= 0 {
        let after = url.skip(first_scheme_index(url) + 3);
        if first_char_index(after, '/') >= 0 {
            Some(leading_segment(after.skip(first_char_index(after, '/') + 1)))
        } else {
            None
        }
    } else {
        None
    }
}

/// `first_char_index` points at the first occurrence, and a negative
/// answer means the character is absent.
pub proof fn lemma_first_char_index(s: Seq<char>, c: char)
    ensures
        first_char_index(s, c) < 0 ==> (forall|j: int| 0 <= j < s.len() ==> s[j] != c),
        first_char_index(s, c) >= 0 ==> 0 <= first_char_index(s, c) < s.len() && s[first_char_index(
            s,
            c,
        )] == c && (forall|j: int| 0 <= j < first_char_index(s, c) ==> s[j] != c),
    decreases s.len(),
{
    if s.len() == 0 {
    } else if s[0] == c {
    } else {
        let df = s.drop_first();
        lemma_first_char_index(df, c);
        if first_char_index(df, c) < 0 {
            assert forall|j: int| 0 <= j < s.len() implies s[j] != c by {
                if j > 0 {
                    assert(df[j - 1] == s[j]);
                    assert(df[j - 1] != c);
                }
            }
        } else {
            let m = first_char_index(df, c);
            assert(s[m + 1] == df[m]);
            assert forall|j: int| 0 <= j < m + 1 implies s[j] != c by {
                if j > 0 {
                    assert(df[j - 1] == s[j]);
                    assert(df[j - 1] != c);
                }
            }
        }
    }
}

/// Whether position `j` of `s` starts the three characters `://`.
pub open spec fn scheme_at(s: Seq<char>, j: int) -> bool {
    0 <= j && j + 3 <= s.len() && s[j] == ':' && s[j + 1] == '/' && s[j + 2] == '/'
}

/// `first_scheme_index` points at the first occurrence of `://`, and a
/// negative answer means the string has none.
pub proof fn lemma_first_scheme_index(s: Seq<char>)
    ensures
        first_scheme_index(s) < 0 ==> (forall|j: int| !#[trigger] scheme_at(s, j)),
        first_scheme_index(s) >= 0 ==> 0 <= first_scheme_index(s) <= s.len() - 3 && scheme_at(
            s,
            first_scheme_index(s),
        ) && (forall|j: int| 0 <= j < first_scheme_index(s) ==> !#[trigger] scheme_at(s, j)),
    decreases s.len(),
{
    if s.len() < 3 {
    } else if s[0] == ':' && s[1] == '/' && s[2] == '/' {
        assert(scheme_at(s, 0));
    } else {
        let df = s.drop_first();
        lemma_first_scheme_index(df);
        assert forall|j: int| 0 <= j && j + 3 <= df.len() implies (#[trigger] df[j]) == s[j + 1]
            && df[j + 1] == s[j + 2] && df[j + 2] == s[j + 3] by {}
        if first_scheme_index(df) < 0 {
            assert forall|j: int| !#[trigger] scheme_at(s, j) by {
                if 1 <= j && j + 3 <= s.len() {
                    assert(!scheme_at(df, j - 1));
                }
            }
        } else {
            let m = first_scheme_index(df);
            assert(scheme_at(df, m));
            assert(scheme_at(s, m + 1));
            assert forall|j: int| 0 <= j < m + 1 implies !#[trigger] scheme_at(s, j) by {
                if j > 0 {
                    assert(!scheme_at(df, j - 1));
                }
            }
        }
    }
}

/// Scans for the first occurrence of `c`.
fn find_char(s: &str, c: char) -> (r: Option<usize>)
    ensures
        match r {
            Some(i) => i as int == first_char_index(s@, c),
            None => first_char_index(s@, c) < 0,
        },
{
    proof {
        lemma_first_char_index(s@, c);
    }
    let n = s.unicode_len();
    let mut i: usize = 0;
    while i < n
        invariant
            n == s@.len(),
            0 <= i <= n,
            forall|j: int| 0 <= j < i ==> s@[j] != c,
        decreases n - i,
    {
        if s.get_char(i) == c {
            proof {
                lemma_first_char_index(s@, c);
            }
            return Some(i);
        }
        i += 1;
    }
    None
}

/// Whether `s` begins with `p`, compared character by character.
fn str_starts_with(s: &str, p: &str) -> (r: bool)
    ensures
        r == spec_starts_with(s@, p@),
{
    let n = s.unicode_len();
    let m = p.unicode_len();
    if m > n {
        return false;
    }
    let mut i: usize = 0;
    while i < m
        invariant
            n == s@.len(),
            m == p@.len(),
            m <= n,
            0 <= i <= m,
            forall|j: int| 0 <= j < i ==> s@[j] == p@[j],
        decreases m - i,
    {
        if s.get_char(i) != p.get_char(i) {
            proof {
                assert(s@.take(m as int)[i as int] != p@[i as int]);
            }
            return false;
        }
        i += 1;
    }
    proof {
        assert(s@.take(m as int) =~= p@);
    }
    true
}

/// Scans for the first occurrence of `://`.
fn find_scheme(s: &str) -> (r: Option<usize>)
    ensures
        match r {
            Some(i) => i as int == first_scheme_index(s@),
            None => first_scheme_index(s@) < 0,
        },
{
    proof {
        lemma_first_scheme_index(s@);
    }
    let n = s.unicode_len();
    if n < 3 {
        return None;
    }
    let mut i: usize = 0;
    while i <= n - 3
        invariant
            n == s@.len(),
            3 <= n,
            0 <= i <= n - 2,
            forall|j: int| 0 <= j < i ==> !#[trigger] scheme_at(s@, j),
        decreases n - i,
    {
        if s.get_char(i) == ':' && s.get_char(i + 1) == '/' && s.get_char(i + 2) == '/' {
            proof {
                lemma_first_scheme_index(s@);
                assert(scheme_at(s@, i as int));
            }
            return Some(i);
        }
        proof {
            assert(!scheme_at(s@, i as int));
        }
        i += 1;
    }
    proof {
        assert forall|j: int| !#[trigger] scheme_at(s@, j) by {
            if 0 <= j && j + 3 <= n {
                assert(j < i);
            }
        }
    }
    None
}

/// The part of `s` before its first `/`, as an owned string.
fn segment_before_slash(s: &str) -> (r: String)
    ensures
        r@ == leading_segment(s@),
{
    proof {
        lemma_first_char_index(s@, '/');
    }
    match find_char(s, '/') {
        Some(i) => {
            let seg = s.substring_char(0, i);
            proof {
                assert(seg@ =~= s@.take(i as int));
            }
            seg.to_owned()
        },
        None => s.to_owned(),
    }
}

impl GitContext {
    /// The organisation a remote URL names, per `spec_org_of_url`:
    /// GitHub SSH and HTTPS URLs give their first path segment, any other
    /// `scheme://` URL the first segment after its host, and anything
    /// else nothing.
    pub fn parse_org_from_url(url: &str) -> (r: Option<String>)
        ensures
            match r {
                Some(s) => spec_org_of_url(url@) == Some(s@),
                None => spec_org_of_url(url@) is None,
            },
    {
        proof {
            reveal_strlit("git@github.com:");
            reveal_strlit("https://github.com/");
        }
        let n = url.unicode_len();
        if str_starts_with(url, "git@github.com:") {
            let rest = url.substring_char(15, n);
            proof {
                assert(rest@ =~= url@.skip(15));
            }
            Some(segment_before_slash(rest))
        } else if str_starts_with(url, "https://github.com/") {
            let rest = url.substring_char(19, n);
            proof {
                assert(rest@ =~= url@.skip(19));
            }
            Some(segment_before_slash(rest))
        } else {
            match find_scheme(url) {
                Some(i) => {
                    proof {
                        lemma_first_scheme_index(url@);
                    }
                    let after = url.substring_char(i + 3, n);
                    proof {
                        assert(after@ =~= url@.skip(i + 3));
                    }
                    match find_char(after, '/') {
                        Some(j) => {
                            proof {
                                lemma_first_char_index(after@, '/');
                            }
                            let m = after.unicode_len();
                            let path = after.substring_char(j + 1, m);
                            proof {
                                assert(path@ =~= after@.skip(j + 1));
                            }
                            Some(segment_before_slash(path))
                        },
                        None => None,
                    }
                },
                None => None,
            }
        }
    }

    /// The context key: organisation, repository, and branch joined with
    /// colons.
    pub fn context_key(&self) -> (r: String)
        ensures
            r@ == self.org@ + ":"@ + self.repo@ + ":"@ + self.branch@,
    {
        String::from_str(self.org.as_str()).concat(":").concat(self.repo.as_str()).concat(
            ":",
        ).concat(self.branch.as_str())
    }
}

} // verus!
