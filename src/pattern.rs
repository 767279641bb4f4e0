use vstd::prelude::*;

verus! {

pub const SLASH: u8 = 47;

pub const STAR: u8 = 42;

/// Does `p[i..]` match `s[j..n]`?  `**` matches any run of bytes, `*` any run
/// that holds no `/`, every other byte itself.
pub open spec fn glob_from(p: Seq<u8>, s: Seq<u8>, i: int, j: int, n: int) -> bool
    decreases (p.len() - i) + (n - j),
{
    if i < 0 || j < 0 || i > p.len() || j > n || n > s.len() {
        false
    } else if i == p.len() {
        j == n
    } else if p[i] == STAR && i + 1 < p.len() && p[i + 1] == STAR {
        glob_from(p, s, i + 2, j, n) || (j < n && glob_from(p, s, i, j + 1, n))
    } else if p[i] == STAR {
        glob_from(p, s, i + 1, j, n) || (j < n && s[j] != SLASH && glob_from(p, s, i, j + 1, n))
    } else {
        j < n && s[j] == p[i] && glob_from(p, s, i + 1, j + 1, n)
    }
}

fn glob_exec(p: &Vec<u8>, s: &Vec<u8>, i: usize, j: usize, n: usize) -> (r: bool)
    requires
        i <= p@.len(),
        j <= n,
        n <= s@.len(),
    ensures
        r == glob_from(p@, s@, i as int, j as int, n as int),
    decreases (p@.len() - i) + (n - j),
{
    if i == p.len() {
        j == n
    } else if p[i] == STAR && i + 1 < p.len() && p[i + 1] == STAR {
        glob_exec(p, s, i + 2, j, n) || (j < n && glob_exec(p, s, i, j + 1, n))
    } else if p[i] == STAR {
        glob_exec(p, s, i + 1, j, n) || (j < n && s[j] != SLASH && glob_exec(p, s, i, j + 1, n))
    } else {
        j < n && s[j] == p[i] && glob_exec(p, s, i + 1, j + 1, n)
    }
}

pub open spec fn strip_leading_slash(s: Seq<u8>) -> Seq<u8> {
    if s.len() > 0 && s[0] == SLASH {
        s.subrange(1, s.len() as int)
    } else {
        s
    }
}

/// A pattern ending in `/` names a directory and matches only what lies below it.
pub open spec fn is_dir_pattern(pattern: Seq<u8>) -> bool {
    pattern.len() > 0 && pattern[pattern.len() - 1] == SLASH
}

/// The pattern without its leading and its trailing `/`.
pub open spec fn pattern_core(pattern: Seq<u8>) -> Seq<u8> {
    let q = strip_leading_slash(pattern);
    if is_dir_pattern(q) {
        q.subrange(0, q.len() - 1)
    } else {
        q
    }
}

/// A pattern is anchored at the root when it starts with `/` or holds a `/`
/// before its last byte; an unanchored one matches at any directory depth.
pub open spec fn is_anchored(pattern: Seq<u8>) -> bool {
    (pattern.len() > 0 && pattern[0] == SLASH)
        || exists|k: int| 0 <= k < pattern.len() - 1 && pattern[k] == SLASH
}

/// `core` covers a directory `path[k..e]` (with `path[e] == '/'`) of `path`.
pub open spec fn covers_dir_at(core: Seq<u8>, path: Seq<u8>, k: int, e: int) -> bool {
    k < e < path.len() && path[e] == SLASH && glob_from(core, path, 0, k, e)
}

/// `core` matches `path` from byte `k` on: the whole rest, or (for any
/// pattern) a directory that holds the file.
pub open spec fn matches_at(core: Seq<u8>, dir: bool, path: Seq<u8>, k: int) -> bool {
    (!dir && glob_from(core, path, 0, k, path.len() as int))
        || exists|e: int| covers_dir_at(core, path, k, e)
}

/// `k` is a place where a path component starts.
pub open spec fn component_start(path: Seq<u8>, k: int) -> bool {
    k == 0 || (0 < k <= path.len() && path[k - 1] == SLASH)
}

/// The meaning of a pattern of the declarations file on a relative path.
pub open spec fn pattern_matches(pattern: Seq<u8>, path: Seq<u8>) -> bool {
    let core = pattern_core(pattern);
    let dir = is_dir_pattern(strip_leading_slash(pattern));
    let p = strip_leading_slash(path);
    if is_anchored(pattern) {
        matches_at(core, dir, p, 0)
    } else {
        exists|k: int| component_start(p, k) && matches_at(core, dir, p, k)
    }
}

pub(crate) fn strip_leading_slash_exec(s: &Vec<u8>) -> (r: Vec<u8>)
    ensures
        r@ == strip_leading_slash(s@),
{
    let mut r: Vec<u8> = Vec::new();
    let start: usize = if s.len() > 0 && s[0] == SLASH { 1 } else { 0 };
    let mut i: usize = start;
    while i < s.len()
        invariant
            start <= i <= s@.len(),
            start == (if s@.len() > 0 && s@[0] == SLASH { 1int } else { 0int }),
            r@ == s@.subrange(start as int, i as int),
        decreases s@.len() - i,
    {
        r.push(s[i]);
        i = i + 1;
    }
    assert(s@.subrange(0, s@.len() as int) =~= s@);
    r
}

fn anchored_exec(pattern: &Vec<u8>) -> (r: bool)
    ensures
        r == is_anchored(pattern@),
{
    if pattern.len() > 0 && pattern[0] == SLASH {
        return true;
    }
    let mut k: usize = 0;
    while k < pattern.len()
        invariant
            k <= pattern@.len(),
            forall|m: int| 0 <= m < k && m < pattern@.len() - 1 ==> pattern@[m] != SLASH,
        decreases pattern@.len() - k,
    {
        if k + 1 < pattern.len() && pattern[k] == SLASH {
            return true;
        }
        k = k + 1;
    }
    false
}

fn matches_at_exec(core: &Vec<u8>, dir: bool, path: &Vec<u8>, k: usize) -> (r: bool)
    requires
        k <= path@.len(),
    ensures
        r == matches_at(core@, dir, path@, k as int),
{
    if !dir && glob_exec(core, path, 0, k, path.len()) {
        return true;
    }
    let mut e: usize = k;
    while e < path.len()
        invariant
            k <= e,
            k <= path@.len(),
            forall|f: int| #![auto] k < f < e ==> !covers_dir_at(core@, path@, k as int, f),
        decreases path@.len() - e,
    {
        if e > k && path[e] == SLASH && glob_exec(core, path, 0, k, e) {
            assert(covers_dir_at(core@, path@, k as int, e as int));
            return true;
        }
        e = e + 1;
    }
    assert forall|f: int| !covers_dir_at(core@, path@, k as int, f) by {
        if k < f && f < path@.len() {
            assert(f < e);
        }
    }
    false
}

/// Whether `pattern` matches the file at `path` (both relative to the
/// project root; one leading `/` on either is ignored).
pub fn glob_matches(pattern: &Vec<u8>, path: &Vec<u8>) -> (r: bool)
    ensures
        r == pattern_matches(pattern@, path@),
{
    let q = strip_leading_slash_exec(pattern);
    let dir = q.len() > 0 && q[q.len() - 1] == SLASH;
    let mut core: Vec<u8> = Vec::new();
    let end: usize = if dir { q.len() - 1 } else { q.len() };
    let mut i: usize = 0;
    while i < end
        invariant
            end <= q@.len(),
            i <= end,
            core@ == q@.subrange(0, i as int),
        decreases end - i,
    {
        core.push(q[i]);
        i = i + 1;
    }
    assert(q@.subrange(0, q@.len() as int) =~= q@);
    assert(core@ == pattern_core(pattern@));
    let p = strip_leading_slash_exec(path);
    if anchored_exec(pattern) {
        return matches_at_exec(&core, dir, &p, 0);
    }
    let mut k: usize = 0;
    while k < p.len()
        invariant
            k <= p@.len(),
            p@ == strip_leading_slash(path@),
            core@ == pattern_core(pattern@),
            dir == is_dir_pattern(strip_leading_slash(pattern@)),
            !is_anchored(pattern@),
            forall|m: int| 0 <= m < k ==> !(component_start(p@, m) && matches_at(core@, dir, p@, m)),
        decreases p@.len() - k,
    {
        if (k == 0 || p[k - 1] == SLASH) && matches_at_exec(&core, dir, &p, k) {
            assert(component_start(p@, k as int) && matches_at(core@, dir, p@, k as int));
            return true;
        }
        k = k + 1;
    }
    if (k == 0 || p[k - 1] == SLASH) && matches_at_exec(&core, dir, &p, k) {
        assert(component_start(p@, k as int) && matches_at(core@, dir, p@, k as int));
        return true;
    }
    assert forall|m: int| !(component_start(p@, m) && matches_at(core@, dir, p@, m)) by {
        if component_start(p@, m) {
            assert(0 <= m <= p@.len());
            assert(m <= k);
        }
    }
    false
}

} // verus!
