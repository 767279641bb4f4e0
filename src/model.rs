use vstd::prelude::*;
use crate::bytes::bytes_eq;

verus! {

/// A team of the configuration: its unique name, the file that declares it,
/// and whether it is exempt from owning anything.
pub struct TeamDef {
    pub name: Vec<u8>,
    pub config_file_path: Vec<u8>,
    pub exempt: bool,
}

/// A glob that a team owns, in the order the configuration declares it.
pub struct OwnershipRule {
    pub pattern: Vec<u8>,
    pub team: usize,
}

/// An explicit annotation: a file, or a package directory (ending in `/`),
/// that names its owning team.
pub struct Annotation {
    pub path: Vec<u8>,
    pub team: usize,
}

/// One line of a declarations file: a pattern and the name of its owner
/// (written `@name` in the file).
pub struct Declaration {
    pub pattern: Vec<u8>,
    pub owner: Vec<u8>,
}

/// The parsed, linked configuration that every query reads.
pub struct LoadedConfig {
    pub teams: Vec<TeamDef>,
    pub rules: Vec<OwnershipRule>,
    pub annotations: Vec<Annotation>,
    pub declarations: Vec<Declaration>,
}

/// Why a configuration could not be loaded.
pub enum ConfigError {
    DuplicateTeam { team: usize },
    UnknownTeamInRule { rule: usize },
    UnknownTeamInAnnotation { annotation: usize },
    MalformedPattern { rule: usize },
    MalformedTeamName { team: usize },
    MalformedConfigPath { team: usize },
    MalformedAnnotationPath { annotation: usize },
}

pub open spec fn is_space(b: u8) -> bool {
    b == 32 || b == 9 || b == 10 || b == 13
}

/// A pattern is well formed when it is a plain token, is not `/` alone and
/// does not start with `#` (which would make its line a comment).
pub open spec fn valid_pattern(p: Seq<u8>) -> bool {
    plain_text(p) && p != seq![47u8] && p[0] != 35
}

/// Text that stands as one token on a line: not empty, no white space.
pub open spec fn plain_text(p: Seq<u8>) -> bool {
    p.len() > 0 && forall|k: int| 0 <= k < p.len() ==> !is_space(#[trigger] p[k])
}

pub fn is_plain_text(p: &Vec<u8>) -> (r: bool)
    ensures
        r == plain_text(p@),
{
    if p.len() == 0 {
        return false;
    }
    let mut i: usize = 0;
    while i < p.len()
        invariant
            i <= p@.len(),
            forall|k: int| 0 <= k < i ==> !is_space(#[trigger] p@[k]),
        decreases p@.len() - i,
    {
        let b = p[i];
        if b == 32 || b == 9 || b == 10 || b == 13 {
            return false;
        }
        i = i + 1;
    }
    true
}

pub fn is_valid_pattern(p: &Vec<u8>) -> (r: bool)
    ensures
        r == valid_pattern(p@),
{
    if !is_plain_text(p) {
        return false;
    }
    if p[0] == 35 {
        return false;
    }
    if p.len() == 1 && p[0] == 47 {
        assert(p@ =~= seq![47u8]);
        return false;
    }
    assert(p@ != seq![47u8]) by {
        if p@.len() == 1 {
            assert(p@[0] != 47u8);
        }
    }
    true
}

impl LoadedConfig {
    pub open spec fn team_names_unique(&self) -> bool {
        forall|i: int, j: int|
            0 <= i < j < self.teams@.len() ==> #[trigger] self.teams@[i].name@ != #[trigger] self.teams@[j].name@
    }

    pub open spec fn rules_linked(&self) -> bool {
        forall|r: int| 0 <= r < self.rules@.len() ==> #[trigger] self.rules@[r].team < self.teams@.len()
    }

    pub open spec fn annotations_linked(&self) -> bool {
        forall|a: int| 0 <= a < self.annotations@.len() ==> #[trigger] self.annotations@[a].team < self.teams@.len()
    }

    pub open spec fn patterns_valid(&self) -> bool {
        forall|r: int| 0 <= r < self.rules@.len() ==> valid_pattern(#[trigger] self.rules@[r].pattern@)
    }

    /// Every rule and annotation names a known team.
    pub open spec fn linked(&self) -> bool {
        self.rules_linked() && self.annotations_linked()
    }

    /// Team names and configuration paths are plain tokens, and so are
    /// annotation paths, which also do not start with `#`: each can stand on
    /// a line of the declarations file and read back as itself.
    pub open spec fn tokens_plain(&self) -> bool {
        &&& forall|t: int| 0 <= t < self.teams@.len() ==> plain_text(#[trigger] self.teams@[t].name@)
        &&& forall|t: int| 0 <= t < self.teams@.len() ==> plain_text(#[trigger] self.teams@[t].config_file_path@)
        &&& forall|a: int| 0 <= a < self.annotations@.len() ==> plain_text(#[trigger] self.annotations@[a].path@)
            && self.annotations@[a].path@[0] != 35
    }

    /// Every rule and annotation names a known team, team names are unique,
    /// every rule's pattern is well formed and every name and path is a plain
    /// token.
    pub open spec fn wf(&self) -> bool {
        &&& self.team_names_unique()
        &&& self.rules_linked()
        &&& self.annotations_linked()
        &&& self.patterns_valid()
        &&& self.tokens_plain()
    }

    /// The first problem in the configuration, in the order: duplicate team
    /// names, rules with an unknown team, annotations with an unknown team,
    /// malformed patterns, team names, configuration paths, annotation paths.
    pub fn check(&self) -> (r: Result<(), ConfigError>)
        ensures
            r is Ok <==> self.wf(),
            r matches Err(ConfigError::DuplicateTeam { team }) ==> !self.team_names_unique() && team
                < self.teams@.len(),
            r matches Err(ConfigError::UnknownTeamInRule { rule }) ==> self.team_names_unique() && rule
                < self.rules@.len() && self.rules@[rule as int].team >= self.teams@.len(),
            r matches Err(ConfigError::UnknownTeamInAnnotation { annotation }) ==> self.team_names_unique()
                && self.rules_linked() && annotation < self.annotations@.len()
                && self.annotations@[annotation as int].team >= self.teams@.len(),
            r matches Err(ConfigError::MalformedPattern { rule }) ==> self.team_names_unique()
                && self.rules_linked() && self.annotations_linked() && rule < self.rules@.len()
                && !valid_pattern(self.rules@[rule as int].pattern@),
            r matches Err(ConfigError::MalformedTeamName { team }) ==> self.team_names_unique()
                && self.rules_linked() && self.annotations_linked() && self.patterns_valid() && team
                < self.teams@.len() && !plain_text(self.teams@[team as int].name@),
            r matches Err(ConfigError::MalformedConfigPath { team }) ==> self.team_names_unique()
                && self.rules_linked() && self.annotations_linked() && self.patterns_valid() && team
                < self.teams@.len() && !plain_text(self.teams@[team as int].config_file_path@),
            r matches Err(ConfigError::MalformedAnnotationPath { annotation }) ==> self.team_names_unique()
                && self.rules_linked() && self.annotations_linked() && self.patterns_valid() && annotation
                < self.annotations@.len() && !(plain_text(self.annotations@[annotation as int].path@)
                && self.annotations@[annotation as int].path@[0] != 35),
    {
        let n = self.teams.len();
        let mut i: usize = 0;
        while i < n
            invariant
                n == self.teams@.len(),
                i <= n,
                forall|a: int, b: int| 0 <= a < b < self.teams@.len() && a < i ==> #[trigger] self.teams@[a].name@ != #[trigger] self.teams@[b].name@,
            decreases n - i,
        {
            let mut j: usize = i + 1;
            while j < n
                invariant
                    n == self.teams@.len(),
                    i < n,
                    i < j <= n,
                    forall|a: int, b: int| 0 <= a < b < self.teams@.len() && a < i ==> #[trigger] self.teams@[a].name@ != #[trigger] self.teams@[b].name@,
                    forall|b: int| i < b < j ==> self.teams@[i as int].name@ != #[trigger] self.teams@[b].name@,
                decreases n - j,
            {
                if bytes_eq(&self.teams[i].name, &self.teams[j].name) {
                    return Err(ConfigError::DuplicateTeam { team: j });
                }
                j = j + 1;
            }
            i = i + 1;
        }
        let mut r: usize = 0;
        while r < self.rules.len()
            invariant
                self.team_names_unique(),
                r <= self.rules@.len(),
                forall|k: int| 0 <= k < r ==> #[trigger] self.rules@[k].team < self.teams@.len(),
            decreases self.rules@.len() - r,
        {
            if self.rules[r].team >= self.teams.len() {
                return Err(ConfigError::UnknownTeamInRule { rule: r });
            }
            r = r + 1;
        }
        let mut a: usize = 0;
        while a < self.annotations.len()
            invariant
                self.team_names_unique(),
                self.rules_linked(),
                a <= self.annotations@.len(),
                forall|k: int| 0 <= k < a ==> #[trigger] self.annotations@[k].team < self.teams@.len(),
            decreases self.annotations@.len() - a,
        {
            if self.annotations[a].team >= self.teams.len() {
                return Err(ConfigError::UnknownTeamInAnnotation { annotation: a });
            }
            a = a + 1;
        }
        let mut p: usize = 0;
        while p < self.rules.len()
            invariant
                self.team_names_unique(),
                self.rules_linked(),
                self.annotations_linked(),
                p <= self.rules@.len(),
                forall|k: int| 0 <= k < p ==> valid_pattern(#[trigger] self.rules@[k].pattern@),
            decreases self.rules@.len() - p,
        {
            if !is_valid_pattern(&self.rules[p].pattern) {
                return Err(ConfigError::MalformedPattern { rule: p });
            }
            p = p + 1;
        }
        let mut t: usize = 0;
        while t < self.teams.len()
            invariant
                self.team_names_unique(),
                self.rules_linked(),
                self.annotations_linked(),
                self.patterns_valid(),
                t <= self.teams@.len(),
                forall|k: int| 0 <= k < t ==> plain_text(#[trigger] self.teams@[k].name@),
                forall|k: int| 0 <= k < t ==> plain_text(#[trigger] self.teams@[k].config_file_path@),
            decreases self.teams@.len() - t,
        {
            if !is_plain_text(&self.teams[t].name) {
                return Err(ConfigError::MalformedTeamName { team: t });
            }
            if !is_plain_text(&self.teams[t].config_file_path) {
                return Err(ConfigError::MalformedConfigPath { team: t });
            }
            t = t + 1;
        }
        let mut a: usize = 0;
        while a < self.annotations.len()
            invariant
                self.team_names_unique(),
                self.rules_linked(),
                self.annotations_linked(),
                self.patterns_valid(),
                forall|k: int| 0 <= k < self.teams@.len() ==> plain_text(#[trigger] self.teams@[k].name@),
                forall|k: int| 0 <= k < self.teams@.len() ==> plain_text(#[trigger] self.teams@[k].config_file_path@),
                a <= self.annotations@.len(),
                forall|k: int| 0 <= k < a ==> plain_text(#[trigger] self.annotations@[k].path@)
                    && self.annotations@[k].path@[0] != 35,
            decreases self.annotations@.len() - a,
        {
            if !is_plain_text(&self.annotations[a].path) || self.annotations[a].path[0] == 35 {
                return Err(ConfigError::MalformedAnnotationPath { annotation: a });
            }
            a = a + 1;
        }
        Ok(())
    }
}

} // verus!
