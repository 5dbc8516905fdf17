//! Deriving identifiers and permalinks from source paths.
//!
//! Paths are relative, `/`-separated strings. An article's identifier is
//! its path with the markdown extension stripped; its permalink is the
//! path with every fragment made URL friendly and a leading `/` added.
//! A path's extension is the part after the last dot of its final
//! component, unless that dot begins the component.

use vstd::prelude::*;

verus! {

/// A handle on a directory tree, identified by its root path. The
/// reading and writing of files through it belongs to the surrounding
/// pipeline; the library only carries the root.
#[derive(Clone)]
pub struct Filesystem {
    path: String,
}

impl Filesystem {
    /// The root path of the tree.
    pub closed spec fn spec_path(&self) -> Seq<char> {
        self.path@
    }

    pub fn new(path: String) -> (r: Self)
        ensures
            r.spec_path() == path@,
    {
        Filesystem { path }
    }

    /// The root path, for the surrounding pipeline to open files under.
    pub fn root(&self) -> (r: &String)
        ensures
            r@ == self.spec_path(),
    {
        &self.path
    }
}

/// What `slug::slugify` returns for a fragment.
pub uninterp spec fn slug_of(s: Seq<char>) -> Seq<char>;

/// Relies on slug::slugify: an ASCII slug of `a-z`, `0-9` and `-`; the
/// result depends on the characters of the fragment alone.
#[verifier::external_body]
fn slugify(s: &str) -> (r: String)
    ensures
        r@ == slug_of(s@),
{
    slug::slugify(s)
}

/// The last position holding `c`, or -1.
pub open spec fn find_last(p: Seq<char>, c: char) -> int
    decreases p.len(),
{
    if p.len() == 0 {
        -1
    } else if p.last() == c {
        p.len() - 1
    } else {
        find_last(p.drop_last(), c)
    }
}

pub proof fn lemma_find_last(p: Seq<char>, c: char)
    ensures
        find_last(p, c) == -1 ==> forall|j: int| 0 <= j < p.len() ==> p[j] != c,
        find_last(p, c) != -1 ==> {
            let f = find_last(p, c);
            &&& 0 <= f < p.len()
            &&& p[f] == c
            &&& forall|j: int| f < j < p.len() ==> p[j] != c
        },
    decreases p.len(),
{
    if p.len() > 0 && p.last() != c {
        lemma_find_last(p.drop_last(), c);
        assert forall|j: int| 0 <= j < p.len() - 1 implies p.drop_last()[j] == p[j] by {}
    }
}

/// Start of the final path component.
pub open spec fn comp_start(p: Seq<char>) -> int {
    find_last(p, '/') + 1
}

/// Position of the dot that introduces the extension, or -1 when the path
/// has none.
pub open spec fn ext_dot(p: Seq<char>) -> int {
    let d = find_last(p, '.');
    if d > comp_start(p) {
        d
    } else {
        -1
    }
}

/// The extension, when there is one.
pub open spec fn extension_of(p: Seq<char>) -> Option<Seq<char>> {
    if ext_dot(p) >= 0 {
        Some(p.subrange(ext_dot(p) + 1, p.len() as int))
    } else {
        None
    }
}

/// The path without its extension.
pub open spec fn strip_extension(p: Seq<char>) -> Seq<char> {
    if ext_dot(p) >= 0 {
        p.subrange(0, ext_dot(p))
    } else {
        p
    }
}

/// The path names a markdown file.
pub open spec fn is_markdown_path(p: Seq<char>) -> bool {
    extension_of(p) == Some(("md")@)
}

/// The identifier derived from a source path: the path itself, with the
/// extension stripped for markdown files.
pub open spec fn id_of_path(p: Seq<char>) -> Seq<char> {
    if is_markdown_path(p) {
        strip_extension(p)
    } else {
        p
    }
}

/// First position at or after `k` holding `/`, or the length.
pub open spec fn next_slash(p: Seq<char>, k: int) -> int
    decreases p.len() - k,
{
    if k < 0 || k >= p.len() {
        p.len() as int
    } else if p[k] == '/' {
        k
    } else {
        next_slash(p, k + 1)
    }
}

pub proof fn lemma_next_slash(p: Seq<char>, k: int)
    requires
        0 <= k <= p.len(),
    ensures
        k <= next_slash(p, k) <= p.len(),
        next_slash(p, k) < p.len() ==> p[next_slash(p, k)] == '/',
        forall|j: int| k <= j < next_slash(p, k) ==> p[j] != '/',
    decreases p.len() - k,
{
    if k < p.len() && p[k] != '/' {
        lemma_next_slash(p, k + 1);
    }
}

/// The fragments of `p` from `pos` on, each slugified, joined with `/`.
pub open spec fn slug_join_from(p: Seq<char>, pos: int) -> Seq<char>
    decreases p.len() - pos,
    when 0 <= pos <= p.len()
    via slug_join_from_dec
{
    let e = next_slash(p, pos);
    if e >= p.len() {
        slug_of(p.subrange(pos, p.len() as int))
    } else {
        slug_of(p.subrange(pos, e)) + seq!['/'] + slug_join_from(p, e + 1)
    }
}

#[via_fn]
proof fn slug_join_from_dec(p: Seq<char>, pos: int) {
    lemma_next_slash(p, pos);
}

/// The permalink derived from a source path: strip the markdown extension
/// if there is one, slugify every fragment, keep any remaining extension
/// as it stands, and add the leading `/`.
pub open spec fn permalink_of_path(p: Seq<char>) -> Seq<char> {
    let q = if is_markdown_path(p) {
        strip_extension(p)
    } else {
        p
    };
    let base = strip_extension(q);
    let tail = match extension_of(q) {
        Some(e) => if e.len() > 0 {
            seq!['.'] + e
        } else {
            Seq::<char>::empty()
        },
        None => Seq::<char>::empty(),
    };
    seq!['/'] + slug_join_from(base, 0) + tail
}

/// The last position of `c` in `s`.
fn find_last_exec(s: &str, c: char) -> (r: Option<usize>)
    ensures
        match r {
            Some(i) => find_last(s@, c) == i as int && i < s@.len(),
            None => find_last(s@, c) == -1,
        },
{
    let n = s.unicode_len();
    let mut i = n;
    while i > 0
        invariant
            i <= n,
            n == s@.len(),
            forall|j: int| i <= j < s@.len() ==> s@[j] != c,
        decreases i,
    {
        i = i - 1;
        if s.get_char(i) == c {
            proof {
                lemma_find_last(s@, c);
            }
            return Some(i);
        }
    }
    proof {
        lemma_find_last(s@, c);
    }
    None
}

/// The dot introducing the extension of `s`, if any.
fn ext_dot_exec(s: &str) -> (r: Option<usize>)
    ensures
        match r {
            Some(d) => ext_dot(s@) == d as int && d < s@.len(),
            None => ext_dot(s@) == -1,
        },
{
    let n = s.unicode_len();
    let d = match find_last_exec(s, '.') {
        Some(d) => d,
        None => {
            return None;
        },
    };
    let cstart = match find_last_exec(s, '/') {
        Some(sl) => sl + 1,
        None => 0,
    };
    if d > cstart {
        Some(d)
    } else {
        None
    }
}

/// The path names a markdown file.
fn is_markdown_exec(s: &str) -> (r: bool)
    ensures
        r == is_markdown_path(s@),
{
    let n = s.unicode_len();
    proof {
        reveal_strlit("md");
    }
    match ext_dot_exec(s) {
        Some(d) => {
            if n - d == 3 && s.get_char(d + 1) == 'm' && s.get_char(d + 2) == 'd' {
                proof {
                    assert(s@.subrange(d + 1, n as int) =~= ("md")@);
                }
                true
            } else {
                proof {
                    if s@.subrange(d + 1, n as int) == ("md")@ {
                        assert(s@.subrange(d + 1, n as int).len() == 2);
                        assert(s@.subrange(d + 1, n as int)[0] == s@[d + 1]);
                        assert(s@.subrange(d + 1, n as int)[1] == s@[d + 2]);
                    }
                }
                false
            }
        }
        None => false,
    }
}

/// The identifier derived from a source path.
pub fn id_from_path(path: &str) -> (r: String)
    ensures
        r@ == id_of_path(path@),
{
    if is_markdown_exec(path) {
        let d = match ext_dot_exec(path) {
            Some(d) => d,
            None => 0,
        };
        path.substring_char(0, d).to_owned()
    } else {
        path.to_owned()
    }
}

/// First position of `/` at or after `k`.
fn next_slash_exec(s: &str, k: usize) -> (r: usize)
    requires
        k <= s@.len(),
    ensures
        r == next_slash(s@, k as int),
        k <= r <= s@.len(),
{
    let n = s.unicode_len();
    let mut j = k;
    while j < n && s.get_char(j) != '/'
        invariant
            k <= j <= n,
            n == s@.len(),
            next_slash(s@, k as int) == next_slash(s@, j as int),
        decreases n - j,
    {
        j = j + 1;
    }
    j
}

/// The permalink derived from a source path.
pub fn permalink_from_path(path: &str) -> (r: String)
    ensures
        r@ == permalink_of_path(path@),
{
    let n = path.unicode_len();
    let q: &str = if is_markdown_exec(path) {
        let d = match ext_dot_exec(path) {
            Some(d) => d,
            None => 0,
        };
        path.substring_char(0, d)
    } else {
        path
    };
    let qn = q.unicode_len();
    let (base, ext): (&str, Option<&str>) = match ext_dot_exec(q) {
        Some(d) => (q.substring_char(0, d), Some(q.substring_char(d + 1, qn))),
        None => (q, None),
    };
    let bn = base.unicode_len();
    let ghost b = base@;

    let mut out = String::from_str("/");
    let ghost start = out@;
    let mut pos: usize = 0;
    loop
        invariant_except_break
            pos <= bn,
            bn == b.len(),
            b == base@,
            out@ + slug_join_from(b, pos as int) == start + slug_join_from(b, 0),
        ensures
            out@ == start + slug_join_from(b, 0),
        decreases bn - pos,
    {
        let ghost pre = out@;
        let e = next_slash_exec(base, pos);
        let frag = base.substring_char(pos, e);
        let sf = slugify(frag);
        out.append(sf.as_str());
        if e < bn {
            out.append("/");
            proof {
                reveal_strlit("/");
                assert(pre + slug_of(frag@) + ("/")@ + slug_join_from(b, e + 1) =~= pre + (slug_of(
                    frag@,
                ) + seq!['/'] + slug_join_from(b, e + 1)));
            }
            pos = e + 1;
        } else {
            break ;
        }
    }
    proof {
        reveal_strlit("/");
        reveal_strlit(".");
    }
    match ext {
        Some(e) => {
            if e.unicode_len() > 0 {
                out.append(".");
                out.append(e);
                proof {
                    assert(out@ =~= permalink_of_path(path@));
                }
            } else {
                proof {
                    assert(out@ =~= permalink_of_path(path@));
                }
            }
        }
        None => {
            proof {
                assert(out@ =~= permalink_of_path(path@));
            }
        }
    }
    out
}

} // verus!
