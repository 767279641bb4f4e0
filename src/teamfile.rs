use vstd::prelude::*;
use crate::bytes::bytes_eq;
use crate::declfile::{is_blank, line_end, skip_blanks};

verus! {

/// What a team file says: the team's name (if it gives one), the globs
/// listed under `owned_globs:`, in order, and whether `exempt: true` marks
/// the team as allowed to own nothing.
pub struct TeamFileScan {
    pub name: Option<Seq<u8>>,
    pub globs: Seq<Seq<u8>>,
    pub in_globs: bool,
    pub exempt: bool,
}

/// The end of `t[s..e]` without its trailing blanks.
pub open spec fn trim_end(t: Seq<u8>, s: int, e: int) -> int
    decreases e - s,
{
    if e > s && is_blank(t[e - 1]) {
        trim_end(t, s, e - 1)
    } else {
        e
    }
}

/// `t[s..e]` with blanks removed from both ends.
pub open spec fn trimmed(t: Seq<u8>, s: int, e: int) -> Seq<u8> {
    let a = skip_blanks(t, s, e);
    t.subrange(a, trim_end(t, a, e))
}

pub open spec fn name_key() -> Seq<u8> {
    seq![110u8, 97u8, 109u8, 101u8, 58u8]
}

pub open spec fn globs_key() -> Seq<u8> {
    seq![111u8, 119u8, 110u8, 101u8, 100u8, 95u8, 103u8, 108u8, 111u8, 98u8, 115u8, 58u8]
}

pub open spec fn exempt_key() -> Seq<u8> {
    seq![101u8, 120u8, 101u8, 109u8, 112u8, 116u8, 58u8]
}

pub open spec fn true_word() -> Seq<u8> {
    seq![116u8, 114u8, 117u8, 101u8]
}

pub open spec fn has_prefix(t: Seq<u8>, i: int, e: int, key: Seq<u8>) -> bool {
    i + key.len() <= e && t.subrange(i, i + key.len()) == key
}

/// The effect of the line `t[i..e]` on what was read so far. A line at the
/// left margin starts a key: `name:` sets the name, `owned_globs:` opens the
/// list of globs, any other key closes it. An indented `- glob` inside the
/// list adds a glob. Blank lines, comments and all else leave it unchanged.
pub open spec fn scan_line(st: TeamFileScan, t: Seq<u8>, i: int, e: int) -> TeamFileScan {
    let s = skip_blanks(t, i, e);
    if s == e || t[s] == 35 {
        st
    } else if s == i {
        if has_prefix(t, i, e, name_key()) {
            TeamFileScan { name: Some(trimmed(t, i + 5, e)), globs: st.globs, in_globs: false, exempt: st.exempt }
        } else if has_prefix(t, i, e, globs_key()) {
            TeamFileScan { name: st.name, globs: st.globs, in_globs: true, exempt: st.exempt }
        } else if has_prefix(t, i, e, exempt_key()) {
            TeamFileScan { name: st.name, globs: st.globs, in_globs: false, exempt: trimmed(t, i + 7, e) == true_word() }
        } else {
            TeamFileScan { name: st.name, globs: st.globs, in_globs: false, exempt: st.exempt }
        }
    } else if st.in_globs && t[s] == 45 && trimmed(t, s + 1, e).len() > 0 {
        TeamFileScan { name: st.name, globs: st.globs.push(trimmed(t, s + 1, e)), in_globs: true, exempt: st.exempt }
    } else {
        st
    }
}

/// Reads the lines from byte `i` on.
pub open spec fn scan_from(st: TeamFileScan, t: Seq<u8>, i: int) -> TeamFileScan
    decreases t.len() - i,
{
    if i < 0 || i >= t.len() {
        st
    } else {
        let e = line_end(t, i);
        if e < i || e >= t.len() {
            scan_line(st, t, i, e)
        } else {
            scan_from(scan_line(st, t, i, e), t, e + 1)
        }
    }
}

pub open spec fn scan_team_file(t: Seq<u8>) -> TeamFileScan {
    scan_from(TeamFileScan { name: None, globs: seq![], in_globs: false, exempt: false }, t, 0)
}

pub open spec fn opt_view(o: Option<Vec<u8>>) -> Option<Seq<u8>> {
    match o {
        Some(n) => Some(n@),
        None => None,
    }
}

/// Why a team file could not be read.
pub enum TeamFileError {
    /// A line at the left margin that is neither a comment nor a `key:`;
    /// lines are counted from 1.
    Malformed { line: usize },
    MissingName,
}

/// A line that starts at the left margin, is no comment, and holds no `:`.
pub open spec fn line_is_malformed(t: Seq<u8>, i: int, e: int) -> bool {
    &&& skip_blanks(t, i, e) == i
    &&& i < e
    &&& t[i] != 35
    &&& forall|k: int| i <= k < e ==> #[trigger] t[k] != 58
}

/// The number of the first malformed line from byte `i` on, whose line is
/// number `line`.
pub open spec fn malformed_from(t: Seq<u8>, i: int, line: nat) -> Option<nat>
    decreases t.len() - i,
{
    if i < 0 || i >= t.len() {
        None
    } else {
        let e = line_end(t, i);
        if e < i || e > t.len() {
            None
        } else if line_is_malformed(t, i, e) {
            Some(line)
        } else if e < t.len() {
            malformed_from(t, e + 1, line + 1)
        } else {
            None
        }
    }
}

pub open spec fn first_malformed_line(t: Seq<u8>) -> Option<nat> {
    malformed_from(t, 0, 1)
}

fn first_malformed_line_exec(t: &Vec<u8>) -> (r: Option<usize>)
    ensures
        match r {
            Some(l) => first_malformed_line(t@) == Some(l as nat),
            None => first_malformed_line(t@) is None,
        },
{
    let mut i: usize = 0;
    let mut done: usize = 0;
    while i < t.len()
        invariant
            i <= t@.len(),
            done <= i,
            first_malformed_line(t@) == malformed_from(t@, i as int, (done + 1) as nat),
        decreases t@.len() - i,
    {
        let mut e: usize = i;
        while e < t.len() && t[e] != 10
            invariant
                i <= e <= t@.len(),
                line_end(t@, e as int) == line_end(t@, i as int),
            decreases t@.len() - e,
        {
            e = e + 1;
        }
        assert(line_end(t@, i as int) == e);
        let s = skip_blanks_at(t, i, e);
        if s == i && i < e && t[i] != 35 {
            let mut k: usize = i;
            let mut colon = false;
            while k < e
                invariant
                    i <= k <= e,
                    e <= t@.len(),
                    !colon ==> forall|m: int| i <= m < k ==> #[trigger] t@[m] != 58,
                    colon ==> exists|m: int| i <= m < e && #[trigger] t@[m] == 58,
                decreases e - k,
            {
                if t[k] == 58 {
                    colon = true;
                }
                k = k + 1;
            }
            if !colon {
                return Some(done + 1);
            }
        }
        if e >= t.len() {
            return None;
        }
        i = e + 1;
        done = done + 1;
    }
    None
}

fn skip_blanks_at(t: &Vec<u8>, i: usize, end: usize) -> (r: usize)
    requires
        i <= end <= t@.len(),
    ensures
        r == skip_blanks(t@, i as int, end as int),
        i <= r <= end,
{
    let mut j: usize = i;
    while j < end
        invariant
            i <= j <= end,
            end <= t@.len(),
            skip_blanks(t@, j as int, end as int) == skip_blanks(t@, i as int, end as int),
        decreases end - j,
    {
        if !(t[j] == 32 || t[j] == 9 || t[j] == 13) {
            return j;
        }
        j = j + 1;
    }
    j
}

fn trimmed_exec(t: &Vec<u8>, s: usize, e: usize) -> (r: Vec<u8>)
    requires
        s <= e <= t@.len(),
    ensures
        r@ == trimmed(t@, s as int, e as int),
{
    let a = skip_blanks_at(t, s, e);
    let mut z: usize = e;
    while z > a && (t[z - 1] == 32 || t[z - 1] == 9 || t[z - 1] == 13)
        invariant
            a <= z <= e,
            e <= t@.len(),
            trim_end(t@, a as int, z as int) == trim_end(t@, a as int, e as int),
        decreases z,
    {
        z = z - 1;
    }
    let mut r: Vec<u8> = Vec::new();
    let mut k: usize = a;
    while k < z
        invariant
            a <= k <= z,
            z <= t@.len(),
            r@ == t@.subrange(a as int, k as int),
        decreases z - k,
    {
        r.push(t[k]);
        k = k + 1;
    }
    r
}

fn has_prefix_exec(t: &Vec<u8>, i: usize, e: usize, key: &Vec<u8>) -> (r: bool)
    requires
        i <= e <= t@.len(),
    ensures
        r == has_prefix(t@, i as int, e as int, key@),
{
    if key.len() > e - i {
        return false;
    }
    let mut k: usize = 0;
    while k < key.len()
        invariant
            i + key@.len() <= e,
            e <= t@.len(),
            k <= key@.len(),
            forall|m: int| 0 <= m < k ==> t@[i + m] == key@[m],
        decreases key@.len() - k,
    {
        if t[i + k] != key[k] {
            assert(t@.subrange(i as int, i + key@.len())[k as int] != key@[k as int]);
            return false;
        }
        k = k + 1;
    }
    assert(t@.subrange(i as int, i + key@.len()) =~= key@);
    true
}

/// A team file reads without error: no malformed line, and a name.
pub open spec fn team_file_readable(t: Seq<u8>) -> bool {
    first_malformed_line(t) is None && scan_team_file(t).name is Some
}

/// Reads a team file: its name and its owned globs. The first malformed
/// line is reported by its number; a file without a name is refused.
pub fn read_team_file(t: &Vec<u8>) -> (r: Result<(Vec<u8>, Vec<Vec<u8>>, bool), TeamFileError>)
    ensures
        r is Ok <==> team_file_readable(t@),
        r matches Err(TeamFileError::Malformed { line }) ==> first_malformed_line(t@) == Some(line as nat),
        r matches Err(TeamFileError::MissingName) ==> first_malformed_line(t@) is None && scan_team_file(t@).name is None,
        r matches Ok((name, globs, exempt)) ==> scan_team_file(t@).name == Some(name@) && scan_team_file(
            t@,
        ).globs == globs@.map_values(|g: Vec<u8>| g@) && scan_team_file(t@).exempt == exempt,
{
    match first_malformed_line_exec(t) {
        Some(line) => {
            return Err(TeamFileError::Malformed { line });
        },
        None => {},
    }
    let name_k: Vec<u8> = vec![110u8, 97u8, 109u8, 101u8, 58u8];
    let globs_k: Vec<u8> = vec![111u8, 119u8, 110u8, 101u8, 100u8, 95u8, 103u8, 108u8, 111u8, 98u8, 115u8, 58u8];
    assert(name_k@ =~= name_key());
    assert(globs_k@ =~= globs_key());
    let exempt_k: Vec<u8> = vec![101u8, 120u8, 101u8, 109u8, 112u8, 116u8, 58u8];
    let true_k: Vec<u8> = vec![116u8, 114u8, 117u8, 101u8];
    assert(exempt_k@ =~= exempt_key());
    assert(true_k@ =~= true_word());
    let mut exempt = false;
    let mut name: Option<Vec<u8>> = None;
    let mut globs: Vec<Vec<u8>> = Vec::new();
    let mut in_globs = false;
    let mut i: usize = 0;
    assert(globs@.map_values(|g: Vec<u8>| g@) =~= Seq::<Seq<u8>>::empty());
    while i < t.len()
        invariant
            i <= t@.len(),
            name_k@ == name_key(),
            globs_k@ == globs_key(),
            exempt_k@ == exempt_key(),
            true_k@ == true_word(),
            scan_team_file(t@) == scan_from(
                TeamFileScan {
                    name: opt_view(name),
                    globs: globs@.map_values(|g: Vec<u8>| g@),
                    in_globs,
                    exempt,
                },
                t@,
                i as int,
            ),
        decreases t@.len() - i,
    {
        let mut e: usize = i;
        while e < t.len() && t[e] != 10
            invariant
                i <= e <= t@.len(),
                line_end(t@, e as int) == line_end(t@, i as int),
            decreases t@.len() - e,
        {
            e = e + 1;
        }
        let ghost st = TeamFileScan {
            name: opt_view(name),
            globs: globs@.map_values(|g: Vec<u8>| g@),
            in_globs,
            exempt,
        };
        let s = skip_blanks_at(t, i, e);
        if s == e || t[s] == 35 {
        } else if s == i {
            if has_prefix_exec(t, i, e, &name_k) {
                name = Some(trimmed_exec(t, i + 5, e));
                in_globs = false;
            } else if has_prefix_exec(t, i, e, &globs_k) {
                in_globs = true;
            } else if has_prefix_exec(t, i, e, &exempt_k) {
                let v = trimmed_exec(t, i + 7, e);
                exempt = bytes_eq(&v, &true_k);
                in_globs = false;
            } else {
                in_globs = false;
            }
        } else if in_globs && t[s] == 45 {
            let g = trimmed_exec(t, s + 1, e);
            if g.len() > 0 {
                let ghost before = globs@;
                globs.push(g);
                assert(globs@.map_values(|g: Vec<u8>| g@) =~= before.map_values(|g: Vec<u8>| g@).push(
                    trimmed(t@, s + 1, e as int),
                ));
            }
        }
        let ghost st2 = TeamFileScan {
            name: opt_view(name),
            globs: globs@.map_values(|g: Vec<u8>| g@),
            in_globs,
            exempt,
        };
        assert(st2 == scan_line(st, t@, i as int, e as int));
        assert(line_end(t@, i as int) == e);
        if e >= t.len() {
            assert(scan_from(st, t@, i as int) == st2);
            assert(scan_from(st2, t@, e as int) == st2);
            i = e;
        } else {
            assert(scan_from(st, t@, i as int) == scan_from(st2, t@, e + 1));
            i = e + 1;
        }
    }
    match name {
        Some(n) => Ok((n, globs, exempt)),
        None => Err(TeamFileError::MissingName),
    }
}

pub open spec fn owner_key() -> Seq<u8> {
    seq![111u8, 119u8, 110u8, 101u8, 114u8, 58u8]
}

/// The owner that a package file names from byte `i` on: the value of the
/// first `owner:` key at the left margin.
pub open spec fn owner_from(t: Seq<u8>, i: int) -> Option<Seq<u8>>
    decreases t.len() - i,
{
    if i < 0 || i >= t.len() {
        None
    } else {
        let e = line_end(t, i);
        if e < i || e > t.len() {
            None
        } else if has_prefix(t, i, e, owner_key()) {
            Some(trimmed(t, i + 6, e))
        } else if e < t.len() {
            owner_from(t, e + 1)
        } else {
            None
        }
    }
}

/// Reads the owning team that a package file names with `owner:`, which
/// makes the package's directory an annotated path of that team.
pub fn read_package_owner(t: &Vec<u8>) -> (r: Option<Vec<u8>>)
    ensures
        match r {
            Some(o) => owner_from(t@, 0) == Some(o@),
            None => owner_from(t@, 0) is None,
        },
{
    let owner_k: Vec<u8> = vec![111u8, 119u8, 110u8, 101u8, 114u8, 58u8];
    assert(owner_k@ =~= owner_key());
    let mut i: usize = 0;
    while i < t.len()
        invariant
            i <= t@.len(),
            owner_k@ == owner_key(),
            owner_from(t@, 0) == owner_from(t@, i as int),
        decreases t@.len() - i,
    {
        let mut e: usize = i;
        while e < t.len() && t[e] != 10
            invariant
                i <= e <= t@.len(),
                line_end(t@, e as int) == line_end(t@, i as int),
            decreases t@.len() - e,
        {
            e = e + 1;
        }
        assert(line_end(t@, i as int) == e);
        if has_prefix_exec(t, i, e, &owner_k) {
            return Some(trimmed_exec(t, i + 6, e));
        }
        if e >= t.len() {
            return None;
        }
        i = e + 1;
    }
    None
}

} // verus!
