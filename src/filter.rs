//! Ignore rules in the style of gitignore, and the include check on globs.

use crate::pattern::{glob_match, glob_texts, glob_well_formed, to_pattern, Glob};
use crate::report::texts;
use glob::PatternError;
use vstd::prelude::*;

verus! {

/// What one line of an ignore file says.
pub ghost struct RuleSyntax {
    /// The glob, without `!`, a leading `/` or a trailing `/`.
    pub pattern: Seq<char>,
    /// The line began with `!`: a match re-includes the path.
    pub negated: bool,
    /// The line ended with `/`: only directories match.
    pub dir_only: bool,
    /// The glob holds a `/`: it is matched against the whole path relative
    /// to the root, else against the last component alone.
    pub anchored: bool,
}

/// The rule that a line states; `None` for a blank line or a comment.
pub open spec fn rule_syntax(line: Seq<char>) -> Option<RuleSyntax> {
    if line.len() == 0 || line[0] == '#' {
        None
    } else {
        let negated = line[0] == '!';
        let a = if negated { line.drop_first() } else { line };
        let dir_only = a.len() > 0 && a.last() == '/';
        let b = if dir_only { a.drop_last() } else { a };
        let anchored = b.contains('/');
        let c = if b.len() > 0 && b[0] == '/' { b.drop_first() } else { b };
        Some(RuleSyntax { pattern: c, negated, dir_only, anchored })
    }
}

/// A line is well formed when it states no rule or its glob compiles.
pub open spec fn line_well_formed(line: Seq<char>) -> bool {
    match rule_syntax(line) {
        Some(s) => glob_well_formed(s.pattern),
        None => true,
    }
}

/// The rules that a list of lines states, in file order.
pub open spec fn rules_of(lines: Seq<Seq<char>>) -> Seq<RuleSyntax>
    decreases lines.len(),
{
    if lines.len() == 0 {
        Seq::empty()
    } else {
        let r = rules_of(lines.drop_last());
        match rule_syntax(lines.last()) {
            Some(s) => r.push(s),
            None => r,
        }
    }
}

/// Index at which the last component of `p` starts.
pub open spec fn name_start(p: Seq<char>) -> int
    decreases p.len(),
{
    if p.len() == 0 {
        0
    } else if p.last() == '/' {
        p.len() as int
    } else {
        name_start(p.drop_last())
    }
}

/// The last component of a path.
pub open spec fn base_name(p: Seq<char>) -> Seq<char> {
    p.subrange(name_start(p), p.len() as int)
}

/// Whether a rule matches a path.
pub open spec fn rule_applies(r: RuleSyntax, path: Seq<char>, is_dir: bool) -> bool {
    &&& (!r.dir_only || is_dir)
    &&& glob_match(r.pattern, if r.anchored { path } else { base_name(path) })
}

/// Whether the last rule that matches the path is an exclusion; a path that
/// no rule matches is not excluded.
pub open spec fn excluded_by(rules: Seq<RuleSyntax>, path: Seq<char>, is_dir: bool) -> bool
    decreases rules.len(),
{
    if rules.len() == 0 {
        false
    } else if rule_applies(rules.last(), path, is_dir) {
        !rules.last().negated
    } else {
        excluded_by(rules.drop_last(), path, is_dir)
    }
}

/// A path is visited when neither it nor any directory above it (within the
/// root) is excluded.
pub open spec fn visible(rules: Seq<RuleSyntax>, path: Seq<char>, is_dir: bool) -> bool {
    &&& !excluded_by(rules, path, is_dir)
    &&& forall|i: int|
        0 <= i < path.len() && path[i] == '/' ==> !excluded_by(rules, #[trigger] path.subrange(0, i), true)
}

/// Whether some glob matches the file name or the relative path.
pub open spec fn include_match(globs: Seq<Seq<char>>, name: Seq<char>, rel: Seq<char>) -> bool {
    exists|i: int| 0 <= i < globs.len() && (glob_match(#[trigger] globs[i], name) || glob_match(globs[i], rel))
}

pub proof fn lemma_name_start(p: Seq<char>)
    ensures
        0 <= name_start(p) <= p.len(),
        name_start(p) == 0 || p[name_start(p) - 1] == '/',
        forall|j: int| name_start(p) <= j < p.len() ==> p[j] != '/',
    decreases p.len(),
{
    if p.len() > 0 && p.last() != '/' {
        let q = p.drop_last();
        lemma_name_start(q);
        assert forall|j: int| name_start(p) <= j < p.len() implies p[j] != '/' by {
            if j < q.len() {
                assert(q[j] == p[j]);
            }
        }
    }
}

/// Index at which the last component of `path` starts.
fn find_name_start(path: &str) -> (r: usize)
    ensures
        r == name_start(path@),
{
    let mut i: usize = path.unicode_len();
    while i > 0 && path.get_char(i - 1) != '/'
        invariant
            i <= path@.len(),
            forall|j: int| i <= j < path@.len() ==> path@[j] != '/',
        decreases i,
    {
        i = i - 1;
    }
    proof {
        lemma_name_start(path@);
        let k = name_start(path@);
        if (i as int) < k {
            assert(path@[k - 1] == '/');
        }
        if (i as int) > k {
            assert(path@[i - 1] == '/');
        }
    }
    i
}

/// One ignore rule.
#[derive(Debug)]
pub struct IgnoreRule {
    pub glob: Glob,
    pub negated: bool,
    pub dir_only: bool,
    pub anchored: bool,
}

impl View for IgnoreRule {
    type V = RuleSyntax;

    open spec fn view(&self) -> RuleSyntax {
        RuleSyntax {
            pattern: self.glob@,
            negated: self.negated,
            dir_only: self.dir_only,
            anchored: self.anchored,
        }
    }
}

/// The models of a list of rules.
pub open spec fn rule_views(v: Seq<IgnoreRule>) -> Seq<RuleSyntax> {
    v.map_values(|r: IgnoreRule| r@)
}

/// A line of an ignore file whose glob does not compile.
#[derive(Debug, PartialEq, Eq, Structural)]
pub struct InvalidIgnoreRule {
    /// Index of the line, from 0.
    pub line: usize,
}

impl IgnoreRule {
    /// The rule that one line of an ignore file states, if any.
    pub fn parse(line: &str) -> (r: Result<Option<IgnoreRule>, PatternError>)
        ensures
            rule_syntax(line@) is None ==> r matches Ok(None),
            rule_syntax(line@) matches Some(s) ==> {
                &&& r is Ok <==> glob_well_formed(s.pattern)
                &&& r matches Ok(o) ==> (o matches Some(rule) && rule@ == s)
            },
    {
        let n = line.unicode_len();
        if n == 0 || line.get_char(0) == '#' {
            return Ok(None);
        }
        let negated = line.get_char(0) == '!';
        let first: usize = if negated { 1 } else { 0 };
        let mut end: usize = n;
        let dir_only = end > first && line.get_char(end - 1) == '/';
        if dir_only {
            end = end - 1;
        }
        let mut anchored = false;
        let mut i: usize = first;
        while i < end
            invariant
                first <= i <= end <= line@.len(),
                anchored <==> exists|j: int| first <= j < i && line@[j] == '/',
            decreases end - i,
        {
            if line.get_char(i) == '/' {
                anchored = true;
            }
            i = i + 1;
        }
        let mut start: usize = first;
        if end > first && line.get_char(first) == '/' {
            start = first + 1;
        }
        let body = line.substring_char(start, end);
        proof {
            let l = line@;
            let a = if negated { l.drop_first() } else { l };
            assert(a =~= l.subrange(first as int, n as int));
            let b = if dir_only { a.drop_last() } else { a };
            assert(b =~= l.subrange(first as int, end as int));
            if anchored {
                let j = choose|j: int| first <= j < end && l[j] == '/';
                assert(b[j - first] == '/');
            }
            if b.contains('/') {
                let j = choose|j: int| 0 <= j < b.len() && b[j] == '/';
                assert(l[j + first] == '/');
            }
            let c = if b.len() > 0 && b[0] == '/' { b.drop_first() } else { b };
            assert(c =~= body@);
        }
        match to_pattern(body) {
            Ok(glob) => Ok(Some(IgnoreRule { glob, negated, dir_only, anchored })),
            Err(e) => Err(e),
        }
    }

    /// Whether this rule matches the path (relative to the walk root).
    pub fn applies(&self, path: &str, is_dir: bool) -> (r: bool)
        ensures
            r == rule_applies(self@, path@, is_dir),
    {
        if self.dir_only && !is_dir {
            return false;
        }
        if self.anchored {
            self.glob.matches(path)
        } else {
            let k = find_name_start(path);
            let n = path.unicode_len();
            proof {
                lemma_name_start(path@);
            }
            let name = path.substring_char(k, n);
            self.glob.matches(name)
        }
    }
}

/// An ordered list of ignore rules; later rules override earlier ones.
#[derive(Debug)]
pub struct IgnoreRules {
    pub rules: Vec<IgnoreRule>,
}

impl View for IgnoreRules {
    type V = Seq<RuleSyntax>;

    open spec fn view(&self) -> Seq<RuleSyntax> {
        rule_views(self.rules@)
    }
}

impl IgnoreRules {
    /// No rules: every path is visited.
    pub fn new() -> (r: IgnoreRules)
        ensures
            r@ == Seq::<RuleSyntax>::empty(),
    {
        let r = IgnoreRules { rules: Vec::new() };
        assert(r@ =~= Seq::<RuleSyntax>::empty());
        r
    }

    /// The rules stated by the lines of an ignore file, in file order.
    /// Fails on the first line whose glob does not compile.
    pub fn parse(lines: &Vec<String>) -> (r: Result<IgnoreRules, InvalidIgnoreRule>)
        ensures
            r is Ok <==> forall|i: int| 0 <= i < lines.len() ==> line_well_formed(#[trigger] lines@[i]@),
            r matches Ok(rules) ==> rules@ == rules_of(texts(lines@)),
            r matches Err(e) ==> {
                &&& e.line < lines.len()
                &&& !line_well_formed(lines@[e.line as int]@)
                &&& forall|i: int| 0 <= i < e.line ==> line_well_formed(#[trigger] lines@[i]@)
            },
    {
        let mut rules: Vec<IgnoreRule> = Vec::new();
        let mut i: usize = 0;
        while i < lines.len()
            invariant
                i <= lines.len(),
                forall|j: int| 0 <= j < i ==> line_well_formed(#[trigger] lines@[j]@),
                rule_views(rules@) == rules_of(texts(lines@).subrange(0, i as int)),
            decreases lines.len() - i,
        {
            let ghost prefix = texts(lines@).subrange(0, i + 1);
            assert(prefix.drop_last() =~= texts(lines@).subrange(0, i as int));
            assert(prefix.last() == lines@[i as int]@);
            match IgnoreRule::parse(lines[i].as_str()) {
                Ok(Some(rule)) => {
                    let ghost before = rules@;
                    rules.push(rule);
                    assert(rule_views(rules@) =~= rule_views(before).push(rule@));
                },
                Ok(None) => {},
                Err(_) => {
                    return Err(InvalidIgnoreRule { line: i });
                },
            }
            i = i + 1;
        }
        assert(texts(lines@).subrange(0, lines.len() as int) =~= texts(lines@));
        Ok(IgnoreRules { rules })
    }

    /// Whether the last rule matching the path excludes it.
    pub fn excludes(&self, path: &str, is_dir: bool) -> (r: bool)
        ensures
            r == excluded_by(self@, path@, is_dir),
    {
        let mut i: usize = self.rules.len();
        assert(self@.subrange(0, i as int) =~= self@);
        while i > 0
            invariant
                i <= self.rules.len(),
                excluded_by(self@, path@, is_dir) == excluded_by(self@.subrange(0, i as int), path@, is_dir),
            decreases i,
        {
            let ghost pre = self@.subrange(0, i as int);
            assert(pre.drop_last() =~= self@.subrange(0, i - 1));
            assert(pre.last() == self.rules@[i - 1]@);
            if self.rules[i - 1].applies(path, is_dir) {
                return !self.rules[i - 1].negated;
            }
            i = i - 1;
        }
        false
    }

    /// Whether the walk visits the path (relative to the walk root): the
    /// path and every directory above it escape the rules.
    pub fn should_visit(&self, path: &str, is_dir: bool) -> (r: bool)
        ensures
            r == visible(self@, path@, is_dir),
    {
        let n = path.unicode_len();
        let mut i: usize = 0;
        while i < n
            invariant
                i <= n == path@.len(),
                forall|j: int|
                    0 <= j < i && path@[j] == '/' ==> !excluded_by(self@, #[trigger] path@.subrange(0, j), true),
            decreases n - i,
        {
            if path.get_char(i) == '/' {
                let above = path.substring_char(0, i);
                if self.excludes(above, true) {
                    return false;
                }
            }
            i = i + 1;
        }
        !self.excludes(path, is_dir)
    }
}

/// Whether some glob matches the file name or the path relative to the root.
pub fn matches_include(globs: &Vec<Glob>, filename: &str, relative_path: &str) -> (r: bool)
    ensures
        r == include_match(glob_texts(globs@), filename@, relative_path@),
{
    let mut i: usize = 0;
    while i < globs.len()
        invariant
            i <= globs.len(),
            forall|j: int|
                0 <= j < i ==> !glob_match(#[trigger] glob_texts(globs@)[j], filename@) && !glob_match(
                    glob_texts(globs@)[j],
                    relative_path@,
                ),
        decreases globs.len() - i,
    {
        if globs[i].matches(filename) || globs[i].matches(relative_path) {
            assert(glob_texts(globs@)[i as int] == globs@[i as int]@);
            return true;
        }
        i = i + 1;
    }
    false
}

} // verus!
