//! Front matter: the optional metadata block at the head of an article.
//!
//! A body that begins with a line `---` followed by a second line `---`
//! carries a metadata block between the two delimiters. This module splits
//! the block from the rest of the body; decoding the block's text into
//! field values is left to the surrounding pipeline.

use vstd::prelude::*;

verus! {

/// Metadata fields of an article. Timestamps are kept as seconds since the
/// Unix epoch.
#[derive(Clone, Debug)]
pub struct Frontmatter {
    pub title: Option<String>,
    pub tags: Option<Vec<String>>,
    pub template: Option<String>,
    pub created_at: Option<i64>,
    pub updated_at: Option<i64>,
}

/// First position at or after `k` where the closing delimiter line
/// `\n---\n` begins, or the length when there is none.
pub open spec fn find_close(s: Seq<char>, k: int) -> int
    decreases s.len() - k,
{
    if k < 0 || k + 5 > s.len() {
        s.len() as int
    } else if s[k] == '\n' && s[k + 1] == '-' && s[k + 2] == '-' && s[k + 3] == '-' && s[k + 4]
        == '\n' {
        k
    } else {
        find_close(s, k + 1)
    }
}

/// The body opens with the delimiter line `---`.
pub open spec fn fm_open(s: Seq<char>) -> bool {
    s.len() >= 4 && s[0] == '-' && s[1] == '-' && s[2] == '-' && s[3] == '\n'
}

/// Where the metadata block closes: the first `\n---\n` after the opening
/// line.
pub open spec fn fm_close(s: Seq<char>) -> int {
    find_close(s, 4)
}

/// Split a body into its metadata block and the rest: `Some((block, rest))`
/// when the body opens with `---` and a closing delimiter line follows,
/// `None` otherwise.
pub open spec fn fm_split(s: Seq<char>) -> Option<(Seq<char>, Seq<char>)> {
    if fm_open(s) && fm_close(s) + 5 <= s.len() {
        Some((s.subrange(4, fm_close(s)), s.subrange(fm_close(s) + 5, s.len() as int)))
    } else {
        None
    }
}

/// Splits the incoming body into the metadata block's text and the
/// leftover body. A body without a metadata block comes back unchanged,
/// with no block.
pub fn extract(content: String) -> (r: (Option<String>, String))
    ensures
        match fm_split(content@) {
            Some((block, rest)) => {
                &&& r.0 matches Some(b) && b@ == block
                &&& r.1@ == rest
            },
            None => r.0 is None && r.1@ == content@,
        },
{
    let s: &str = content.as_str();
    let n = s.unicode_len();
    if n < 9 {
        proof {
            if fm_open(content@) {
                assert(fm_close(content@) + 5 > n);
            }
        }
        return (None, content);
    }
    if !(s.get_char(0) == '-' && s.get_char(1) == '-' && s.get_char(2) == '-' && s.get_char(3)
        == '\n') {
        return (None, content);
    }
    let mut k: usize = 4;
    while k <= n - 5 && !(s.get_char(k) == '\n' && s.get_char(k + 1) == '-' && s.get_char(k + 2)
        == '-' && s.get_char(k + 3) == '-' && s.get_char(k + 4) == '\n')
        invariant
            4 <= k <= n,
            9 <= n,
            n == s@.len(),
            s@ == content@,
            find_close(s@, 4) == find_close(s@, k as int),
        decreases n - k,
    {
        k = k + 1;
    }
    if k <= n - 5 {
        let block = s.substring_char(4, k).to_owned();
        let rest = s.substring_char(k + 5, n).to_owned();
        (Some(block), rest)
    } else {
        proof {
            assert(find_close(s@, k as int) == n);
        }
        (None, content)
    }
}

impl Default for Frontmatter {
    /// A front matter with every field absent.
    fn default() -> (r: Frontmatter)
        ensures
            r.title is None,
            r.tags is None,
            r.template is None,
            r.created_at is None,
            r.updated_at is None,
    {
        Frontmatter { title: None, tags: None, template: None, created_at: None, updated_at: None }
    }
}

} // verus!
