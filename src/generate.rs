use vstd::prelude::*;
use crate::bytes::{copy_bytes, push_all};
use crate::model::{Declaration, LoadedConfig};
use crate::pattern::pattern_matches;
use crate::resolve::{
    OwnershipSource, annotation_applies, best_annotation, best_rule, lemma_best_rule, lemma_best_rule_none, rule_applies,
    team_of_source, winning_source, yml_applies, yml_pattern, yml_pattern_exec, yml_team,
};

verus! {

/// A declaration as a pair of pattern and owner name.
pub open spec fn decl_view(d: Declaration) -> (Seq<u8>, Seq<u8>) {
    (d.pattern@, d.owner@)
}

pub open spec fn decls_view(s: Seq<Declaration>) -> Seq<(Seq<u8>, Seq<u8>)> {
    s.map_values(|d: Declaration| decl_view(d))
}

/// The declaration that rule `r` yields: its pattern and its team's name.
pub open spec fn rule_declaration(c: &LoadedConfig, r: int) -> (Seq<u8>, Seq<u8>) {
    (c.rules@[r].pattern@, c.teams@[c.rules@[r].team as int].name@)
}

/// The declarations of the first `n` rules whose pattern has length `len`.
pub open spec fn declarations_of_len(c: &LoadedConfig, len: nat, n: int) -> Seq<(Seq<u8>, Seq<u8>)>
    decreases n,
{
    if n <= 0 {
        seq![]
    } else if c.rules@[n - 1].pattern@.len() == len {
        declarations_of_len(c, len, n - 1).push(rule_declaration(c, n - 1))
    } else {
        declarations_of_len(c, len, n - 1)
    }
}

/// The declarations of all rules whose pattern is shorter than `len`, by
/// length and then in the order of the configuration.
pub open spec fn declarations_below(c: &LoadedConfig, len: nat) -> Seq<(Seq<u8>, Seq<u8>)>
    decreases len,
{
    if len == 0 {
        seq![]
    } else {
        declarations_below(c, (len - 1) as nat) + declarations_of_len(c, (len - 1) as nat, c.rules@.len() as int)
    }
}

/// The longest pattern among the first `n` rules.
pub open spec fn longest_pattern(c: &LoadedConfig, n: int) -> nat
    decreases n,
{
    if n <= 0 {
        0
    } else {
        let m = longest_pattern(c, n - 1);
        if c.rules@[n - 1].pattern@.len() > m {
            c.rules@[n - 1].pattern@.len()
        } else {
            m
        }
    }
}

/// The line that gives team `t` its own configuration file.
pub open spec fn yml_line(c: &LoadedConfig, t: int) -> (Seq<u8>, Seq<u8>) {
    (yml_pattern(c.teams@[t].config_file_path@), c.teams@[t].name@)
}

pub open spec fn yml_lines(c: &LoadedConfig, n: int) -> Seq<(Seq<u8>, Seq<u8>)>
    decreases n,
{
    if n <= 0 {
        seq![]
    } else {
        yml_lines(c, n - 1).push(yml_line(c, n - 1))
    }
}

/// The line of annotation `a`: its path and its team's name.
pub open spec fn annotation_line(c: &LoadedConfig, a: int) -> (Seq<u8>, Seq<u8>) {
    (c.annotations@[a].path@, c.teams@[c.annotations@[a].team as int].name@)
}

pub open spec fn annotation_lines(c: &LoadedConfig, n: int) -> Seq<(Seq<u8>, Seq<u8>)>
    decreases n,
{
    if n <= 0 {
        seq![]
    } else {
        annotation_lines(c, n - 1).push(annotation_line(c, n - 1))
    }
}

/// The canonical declarations of a configuration, in the resolver's order
/// of precedence so that the last matching line wins as the resolver
/// decides: every rule once, shorter patterns first and rules of equal
/// length in the order of the configuration; then each team's configuration
/// file; then each annotation.
pub open spec fn generated(c: &LoadedConfig) -> Seq<(Seq<u8>, Seq<u8>)> {
    declarations_below(c, longest_pattern(c, c.rules@.len() as int) + 1) + yml_lines(c, c.teams@.len() as int)
        + annotation_lines(c, c.annotations@.len() as int)
}

fn longest_pattern_exec(c: &LoadedConfig) -> (m: usize)
    ensures
        m == longest_pattern(c, c.rules@.len() as int),
{
    let mut m: usize = 0;
    let mut i: usize = 0;
    while i < c.rules.len()
        invariant
            i <= c.rules@.len(),
            m == longest_pattern(c, i as int),
        decreases c.rules@.len() - i,
    {
        if c.rules[i].pattern.len() > m {
            m = c.rules[i].pattern.len();
        }
        i = i + 1;
    }
    m
}

/// Derives the declarations file's entries from the configuration.
pub fn generate(c: &LoadedConfig) -> (r: Vec<Declaration>)
    requires
        c.linked(),
    ensures
        decls_view(r@) == generated(c),
{
    let mut r = generate_rule_lines(c);
    let ghost g = decls_view(r@);
    let mut t: usize = 0;
    while t < c.teams.len()
        invariant
            t <= c.teams@.len(),
            decls_view(r@) == g + yml_lines(c, t as int),
        decreases c.teams@.len() - t,
    {
        let ghost before = r@;
        r.push(Declaration { pattern: yml_pattern_exec(&c.teams[t].config_file_path), owner: copy_bytes(&c.teams[t].name) });
        assert(decls_view(r@) =~= decls_view(before).push(yml_line(c, t as int)));
        t = t + 1;
    }
    let ghost h = decls_view(r@);
    let mut a: usize = 0;
    while a < c.annotations.len()
        invariant
            c.linked(),
            a <= c.annotations@.len(),
            decls_view(r@) == h + annotation_lines(c, a as int),
        decreases c.annotations@.len() - a,
    {
        let ghost before = r@;
        let ann = &c.annotations[a];
        r.push(Declaration { pattern: copy_bytes(&ann.path), owner: copy_bytes(&c.teams[ann.team].name) });
        assert(decls_view(r@) =~= decls_view(before).push(annotation_line(c, a as int)));
        a = a + 1;
    }
    r
}

fn generate_rule_lines(c: &LoadedConfig) -> (r: Vec<Declaration>)
    requires
        c.linked(),
    ensures
        decls_view(r@) == declarations_below(c, longest_pattern(c, c.rules@.len() as int) + 1),
{
    let m = longest_pattern_exec(c);
    let mut r: Vec<Declaration> = Vec::new();
    let mut len: usize = 0;
    loop
        invariant
            c.linked(),
            m == longest_pattern(c, c.rules@.len() as int),
            len <= m,
            decls_view(r@) == declarations_below(c, len as nat),
        decreases m - len,
    {
        let ghost before = r@;
        let mut i: usize = 0;
        while i < c.rules.len()
            invariant
                c.linked(),
                i <= c.rules@.len(),
                decls_view(r@) == declarations_below(c, len as nat) + declarations_of_len(c, len as nat, i as int),
            decreases c.rules@.len() - i,
        {
            let rule = &c.rules[i];
            if rule.pattern.len() == len {
                let d = Declaration { pattern: copy_bytes(&rule.pattern), owner: copy_bytes(&c.teams[rule.team].name) };
                let ghost old_r = r@;
                r.push(d);
                assert(decls_view(r@) =~= decls_view(old_r).push(rule_declaration(c, i as int)));
                assert(decls_view(r@) =~= declarations_below(c, len as nat) + declarations_of_len(c, len as nat, i + 1));
            }
            i = i + 1;
        }
        assert(declarations_below(c, (len + 1) as nat) == declarations_below(c, len as nat) + declarations_of_len(c, len as nat, c.rules@.len() as int));
        if len == m {
            return r;
        }
        len = len + 1;
    }
}

/// The text of a declarations file: one line `pattern @owner` per entry.
pub open spec fn rendered(d: Seq<(Seq<u8>, Seq<u8>)>) -> Seq<u8>
    decreases d.len(),
{
    if d.len() == 0 {
        seq![]
    } else {
        rendered(d.drop_last()) + line_of(d.last())
    }
}

pub open spec fn line_of(e: (Seq<u8>, Seq<u8>)) -> Seq<u8> {
    e.0 + seq![32u8, 64u8] + e.1 + seq![10u8]
}

/// Writes the declarations as the text of a declarations file.
pub fn render(d: &Vec<Declaration>) -> (r: Vec<u8>)
    ensures
        r@ == rendered(decls_view(d@)),
{
    let mut r: Vec<u8> = Vec::new();
    let mut i: usize = 0;
    while i < d.len()
        invariant
            i <= d@.len(),
            r@ == rendered(decls_view(d@.subrange(0, i as int))),
        decreases d@.len() - i,
    {
        let ghost before = r@;
        push_all(&mut r, d[i].pattern.as_slice());
        r.push(32);
        r.push(64);
        push_all(&mut r, d[i].owner.as_slice());
        r.push(10);
        assert(decls_view(d@.subrange(0, i + 1)).drop_last() =~= decls_view(d@.subrange(0, i as int)));
        assert(r@ =~= before + line_of(decl_view(d@[i as int])));
        i = i + 1;
    }
    assert(d@.subrange(0, d@.len() as int) =~= d@);
    r
}

/// Generating twice from an unchanged configuration gives the same entries
/// and byte-identical file text.
pub proof fn generation_is_idempotent(c: &LoadedConfig, first: Seq<Declaration>, second: Seq<Declaration>)
    requires
        decls_view(first) == generated(c),
        decls_view(second) == generated(c),
    ensures
        decls_view(first) == decls_view(second),
        rendered(decls_view(first)) == rendered(decls_view(second)),
{
}

/// The owner that a list of declarations gives `path` when the last
/// matching line wins.
pub open spec fn last_match_owner(s: Seq<(Seq<u8>, Seq<u8>)>, path: Seq<u8>) -> Option<Seq<u8>>
    decreases s.len(),
{
    if s.len() == 0 {
        None
    } else if pattern_matches(s.last().0, path) {
        Some(s.last().1)
    } else {
        last_match_owner(s.drop_last(), path)
    }
}

/// The last of the first `n` rules with a pattern of length `len` that
/// matches `path`.
pub open spec fn last_rule_of_len(c: &LoadedConfig, path: Seq<u8>, len: nat, n: int) -> Option<int>
    decreases n,
{
    if n <= 0 {
        None
    } else if c.rules@[n - 1].pattern@.len() == len && rule_applies(c, n - 1, path) {
        Some(n - 1)
    } else {
        last_rule_of_len(c, path, len, n - 1)
    }
}

/// The rule whose line decides `path` among the lines of patterns shorter
/// than `len`.
pub open spec fn deciding_rule_below(c: &LoadedConfig, path: Seq<u8>, len: nat) -> Option<int>
    decreases len,
{
    if len == 0 {
        None
    } else {
        match last_rule_of_len(c, path, (len - 1) as nat, c.rules@.len() as int) {
            Some(r) => Some(r),
            None => deciding_rule_below(c, path, (len - 1) as nat),
        }
    }
}

pub open spec fn owner_of_rule(c: &LoadedConfig, r: Option<int>) -> Option<Seq<u8>> {
    match r {
        Some(x) => Some(c.teams@[c.rules@[x].team as int].name@),
        None => None,
    }
}

proof fn lemma_last_match_concat(a: Seq<(Seq<u8>, Seq<u8>)>, b: Seq<(Seq<u8>, Seq<u8>)>, path: Seq<u8>)
    ensures
        last_match_owner(a + b, path) == if last_match_owner(b, path) is Some {
            last_match_owner(b, path)
        } else {
            last_match_owner(a, path)
        },
    decreases b.len(),
{
    if b.len() == 0 {
        assert(a + b =~= a);
    } else {
        assert((a + b).drop_last() =~= a + b.drop_last());
        assert((a + b).last() == b.last());
        lemma_last_match_concat(a, b.drop_last(), path);
    }
}

proof fn lemma_of_len_owner(c: &LoadedConfig, path: Seq<u8>, len: nat, n: int)
    requires
        n <= c.rules@.len(),
    ensures
        last_match_owner(declarations_of_len(c, len, n), path) == owner_of_rule(c, last_rule_of_len(c, path, len, n)),
    decreases n,
{
    if n > 0 {
        lemma_of_len_owner(c, path, len, n - 1);
        let s = declarations_of_len(c, len, n - 1);
        if c.rules@[n - 1].pattern@.len() == len {
            assert(s.push(rule_declaration(c, n - 1)).drop_last() =~= s);
        }
    }
}

proof fn lemma_below_owner(c: &LoadedConfig, path: Seq<u8>, len: nat)
    ensures
        last_match_owner(declarations_below(c, len), path) == owner_of_rule(c, deciding_rule_below(c, path, len)),
    decreases len,
{
    if len > 0 {
        lemma_below_owner(c, path, (len - 1) as nat);
        lemma_of_len_owner(c, path, (len - 1) as nat, c.rules@.len() as int);
        lemma_last_match_concat(
            declarations_below(c, (len - 1) as nat),
            declarations_of_len(c, (len - 1) as nat, c.rules@.len() as int),
            path,
        );
    }
}

proof fn lemma_best_rule_is_last_of_its_len(c: &LoadedConfig, path: Seq<u8>, n: int)
    requires
        n <= usize::MAX,
    ensures
        best_rule(c, path, n) matches Some(x) ==> forall|j: int|
            x < j < n && rule_applies(c, j, path) ==> c.rules@[j].pattern@.len() < c.rules@[x as int].pattern@.len(),
    decreases n,
{
    if n > 0 {
        lemma_best_rule_is_last_of_its_len(c, path, n - 1);
    }
}

proof fn lemma_last_rule_of_len_none(c: &LoadedConfig, path: Seq<u8>, len: nat, n: int)
    requires
        forall|j: int| 0 <= j < n && rule_applies(c, j, path) ==> c.rules@[j].pattern@.len() != len,
    ensures
        last_rule_of_len(c, path, len, n) is None,
    decreases n,
{
    if n > 0 {
        lemma_last_rule_of_len_none(c, path, len, n - 1);
    }
}

proof fn lemma_last_rule_of_len_is(c: &LoadedConfig, path: Seq<u8>, x: int, n: int)
    requires
        0 <= x < n,
        rule_applies(c, x, path),
        forall|j: int| x < j < n && rule_applies(c, j, path) ==> c.rules@[j].pattern@.len() != c.rules@[x].pattern@.len(),
    ensures
        last_rule_of_len(c, path, c.rules@[x].pattern@.len(), n) == Some(x),
    decreases n,
{
    if n - 1 > x {
        lemma_last_rule_of_len_is(c, path, x, n - 1);
    }
}

proof fn lemma_below_skips_empty_levels(c: &LoadedConfig, path: Seq<u8>, lo: nat, hi: nat)
    requires
        lo <= hi,
        forall|j: int| 0 <= j < c.rules@.len() && rule_applies(c, j, path) ==> c.rules@[j].pattern@.len() < lo,
    ensures
        deciding_rule_below(c, path, hi) == deciding_rule_below(c, path, lo),
    decreases hi - lo,
{
    if hi > lo {
        lemma_below_skips_empty_levels(c, path, lo, (hi - 1) as nat);
        lemma_last_rule_of_len_none(c, path, (hi - 1) as nat, c.rules@.len() as int);
    }
}

proof fn lemma_longest_pattern(c: &LoadedConfig, n: int)
    ensures
        forall|j: int| 0 <= j < n ==> c.rules@[j].pattern@.len() <= longest_pattern(c, n),
    decreases n,
{
    if n > 0 {
        lemma_longest_pattern(c, n - 1);
    }
}

proof fn lemma_yml_lines_owner(c: &LoadedConfig, path: Seq<u8>, n: int)
    requires
        0 <= n <= c.teams@.len(),
        n <= usize::MAX,
    ensures
        last_match_owner(yml_lines(c, n), path) == match yml_team(c, path, n) {
            Some(t) => Some(c.teams@[t as int].name@),
            None => None,
        },
    decreases n,
{
    if n > 0 {
        lemma_yml_lines_owner(c, path, n - 1);
        assert(yml_lines(c, n).drop_last() =~= yml_lines(c, n - 1));
    }
}

proof fn lemma_annotation_lines_owner(c: &LoadedConfig, path: Seq<u8>, n: int)
    requires
        0 <= n <= c.annotations@.len(),
        n <= usize::MAX,
    ensures
        last_match_owner(annotation_lines(c, n), path) == match best_annotation(c, path, n) {
            Some(a) => Some(c.teams@[c.annotations@[a as int].team as int].name@),
            None => None,
        },
    decreases n,
{
    if n > 0 {
        lemma_annotation_lines_owner(c, path, n - 1);
        assert(annotation_lines(c, n).drop_last() =~= annotation_lines(c, n - 1));
    }
}

/// The generated declarations agree with the resolver: read top to bottom
/// with the last matching line winning, they give `path` the name of the
/// team that the resolver picks from annotations, team files and globs, and
/// no owner where the resolver finds none of those. (The declarations file
/// itself, the resolver's last resort, is what they replace.)
pub proof fn generated_lines_agree_with_resolver(c: &LoadedConfig, path: Seq<u8>)
    requires
        c.rules@.len() <= usize::MAX,
        c.teams@.len() <= usize::MAX,
        c.annotations@.len() <= usize::MAX,
    ensures
        last_match_owner(generated(c), path) == match winning_source(c, path) {
            Some(OwnershipSource::CodeownersFileEntry { .. }) => None,
            None => None,
            Some(s) => Some(c.teams@[team_of_source(c, s)->Some_0 as int].name@),
        },
{
    let n = c.rules@.len() as int;
    let m = longest_pattern(c, n);
    let g = declarations_below(c, m + 1);
    let y = yml_lines(c, c.teams@.len() as int);
    let a = annotation_lines(c, c.annotations@.len() as int);
    lemma_last_match_concat(g + y, a, path);
    lemma_last_match_concat(g, y, path);
    lemma_yml_lines_owner(c, path, c.teams@.len() as int);
    lemma_annotation_lines_owner(c, path, c.annotations@.len() as int);
    lemma_below_owner(c, path, m + 1);
    lemma_longest_pattern(c, n);
    lemma_best_rule(c, path, n);
    lemma_best_rule_none(c, path, n);
    match best_rule(c, path, n) {
        None => {
            lemma_below_skips_empty_levels(c, path, 0, m + 1);
        },
        Some(x) => {
            let lx = c.rules@[x as int].pattern@.len();
            lemma_best_rule_is_last_of_its_len(c, path, n);
            lemma_below_skips_empty_levels(c, path, lx + 1, m + 1);
            lemma_last_rule_of_len_is(c, path, x as int, n);
        },
    }
}

} // verus!
