use vstd::prelude::*;
use crate::bytes::{bytes_eq, copy_bytes};
use crate::model::LoadedConfig;
use crate::resolve::{ResolvedOwnership, is_resolution, resolve};

verus! {

/// One entry of a bulk resolution: a path and its owner.
pub struct PathOwnership {
    pub path: Vec<u8>,
    pub ownership: ResolvedOwnership,
}

/// The paths of the entries, in order.
pub open spec fn entry_paths(r: Seq<PathOwnership>) -> Seq<Seq<u8>> {
    r.map_values(|e: PathOwnership| e.path@)
}

/// The views of the paths, in order.
pub open spec fn views_of(paths: Seq<Vec<u8>>) -> Seq<Seq<u8>> {
    paths.map_values(|p: Vec<u8>| p@)
}

/// `keys` holds each distinct path of `paths` exactly once, and nothing else.
pub open spec fn keys_cover(paths: Seq<Vec<u8>>, keys: Seq<Seq<u8>>) -> bool {
    &&& keys.no_duplicates()
    &&& forall|x: Seq<u8>| keys.contains(x) <==> views_of(paths).contains(x)
}

proof fn lemma_push_contains(s: Seq<Seq<u8>>, a: Seq<u8>)
    ensures
        forall|x: Seq<u8>| s.push(a).contains(x) <==> (s.contains(x) || x == a),
{
    assert forall|x: Seq<u8>| s.push(a).contains(x) <==> (s.contains(x) || x == a) by {
        if s.contains(x) {
            let i = choose|i: int| 0 <= i < s.len() && s[i] == x;
            assert(s.push(a)[i] == x);
        }
        if x == a {
            assert(s.push(a)[s.len() as int] == x);
        }
        if s.push(a).contains(x) {
            let i = choose|i: int| 0 <= i < s.len() + 1 && s.push(a)[i] == x;
            if i < s.len() {
                assert(s[i] == x);
            }
        }
    }
}

/// `r` holds exactly one entry per distinct path of `paths`, each resolved
/// under `c`.
pub open spec fn is_bulk_resolution(c: &LoadedConfig, paths: Seq<Vec<u8>>, r: Seq<PathOwnership>) -> bool {
    &&& keys_cover(paths, entry_paths(r))
    &&& forall|i: int| 0 <= i < r.len() ==> is_resolution(c, r[i].path@, &r[i].ownership)
}

/// Resolves every path once, keyed by path: duplicates in the input collapse
/// into one entry, and the order of first appearance is kept.
pub fn resolve_many(c: &LoadedConfig, paths: &Vec<Vec<u8>>) -> (r: Vec<PathOwnership>)
    ensures
        is_bulk_resolution(c, paths@, r@),
{
    let mut r: Vec<PathOwnership> = Vec::new();
    let mut k: usize = 0;
    while k < paths.len()
        invariant
            k <= paths@.len(),
            is_bulk_resolution(c, paths@.subrange(0, k as int), r@),
        decreases paths@.len() - k,
    {
        let ghost before = r@;
        let ghost keys = entry_paths(r@);
        let mut seen = false;
        let mut i: usize = 0;
        while i < r.len()
            invariant
                k < paths@.len(),
                r@ == before,
                keys == entry_paths(r@),
                i <= r@.len(),
                !seen ==> forall|m: int| 0 <= m < i ==> keys[m] != paths@[k as int]@,
                seen ==> keys.contains(paths@[k as int]@),
            decreases r@.len() - i,
        {
            if !seen && bytes_eq(&r[i].path, &paths[k]) {
                assert(keys[i as int] == paths@[k as int]@);
                seen = true;
            }
            i = i + 1;
        }
        let ghost prev = paths@.subrange(0, k as int);
        let ghost next = paths@.subrange(0, k + 1);
        assert(views_of(next) =~= views_of(prev).push(paths@[k as int]@));
        proof { lemma_push_contains(views_of(prev), paths@[k as int]@); }
        if !seen {
            let ownership = resolve(c, &paths[k]);
            r.push(PathOwnership { path: copy_bytes(&paths[k]), ownership });
            assert(entry_paths(r@) =~= keys.push(paths@[k as int]@));
            proof { lemma_push_contains(keys, paths@[k as int]@); }
            assert(!keys.contains(paths@[k as int]@));
            let ghost nk = entry_paths(r@);
            assert forall|a: int, b: int| 0 <= a < nk.len() && 0 <= b < nk.len() && a != b implies nk[a] != nk[b] by {
                if b == keys.len() {
                    assert(nk[a] == keys[a]);
                } else if a == keys.len() {
                    assert(nk[b] == keys[b]);
                } else {
                    assert(nk[a] == keys[a] && nk[b] == keys[b]);
                }
            }
            assert forall|i: int| 0 <= i < r@.len() implies is_resolution(c, r@[i].path@, &r@[i].ownership) by {
                if i < before.len() {
                    assert(r@[i] == before[i]);
                }
            }
        }
        assert(entry_paths(r@).no_duplicates());
        assert forall|x: Seq<u8>| entry_paths(r@).contains(x) <==> views_of(next).contains(x) by {
            assert(views_of(next).contains(x) <==> (views_of(prev).contains(x) || x == paths@[k as int]@));
            assert(keys.contains(x) <==> views_of(prev).contains(x));
        }
        assert(keys_cover(next, entry_paths(r@)));
        k = k + 1;
    }
    assert(paths@.subrange(0, paths@.len() as int) =~= paths@);
    r
}

} // verus!
