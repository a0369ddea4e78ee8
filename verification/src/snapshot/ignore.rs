//! Ignore patterns in the style of `.gitignore`.
//!
//! A pattern is a glob. With `!` in front it takes back what earlier patterns
//! ignored; with `/` at its end it holds for directories only. A pattern with a `/`
//! elsewhere is held against the whole path below the root, any other against the
//! last name of the path. Of the patterns that hit a path the last one decides, and
//! whatever lies below an ignored directory is ignored with it.
//!
//! The globs themselves are compiled and matched by `globset`.

use crate::errors::SkeletorError;
use crate::path::{PathView, TreePath};
use crate::text::{
    chars_of, lemma_strings_push, pieces, split, strings, trim, trimmed, Delimiter,
};
use vstd::prelude::*;
use vstd::string::*;

verus! {

#[verifier::external_type_specification]
#[verifier::external_body]
pub struct ExGlob(globset::Glob);

#[verifier::external_type_specification]
#[verifier::external_body]
pub struct ExGlobSet(globset::GlobSet);

/// The message with which `globset` refuses a glob, if it refuses it. The glob is
/// read with `literal_separator` and `backslash_escape` switched on.
pub uninterp spec fn glob_failure(glob: Seq<char>) -> Option<Seq<char>>;

/// The text that a compiled glob was read from.
pub uninterp spec fn glob_source(glob: globset::Glob) -> Seq<char>;

/// The texts of the globs of a set, in the order in which they were added.
pub uninterp spec fn glob_set_sources(set: globset::GlobSet) -> Seq<Seq<char>>;

/// The message with which `globset` refuses to build a set of the globs with these
/// texts, if it refuses.
pub uninterp spec fn glob_set_failure(globs: Seq<Seq<char>>) -> Option<Seq<char>>;

/// Whether the glob read from `glob` matches `path`, a `/`-separated path without
/// backslashes.
pub uninterp spec fn glob_matches(glob: Seq<char>, path: Seq<char>) -> bool;

/// Whether `globset` reads a glob alike on every host. Where it meets `**`, it asks
/// whether the character before and the character behind are path separators of the
/// host, and a backslash is one on some hosts only; nowhere else does the host come
/// in. So a glob is left out where a backslash stands right before or right behind
/// two stars.
pub open spec fn reads_alike_everywhere(glob: Seq<char>) -> bool {
    forall|i: int|
        0 <= i && i + 1 < glob.len() && #[trigger] glob[i] == '*' && glob[i + 1] == '*' ==> (i == 0
            || glob[i - 1] != '\\') && (i + 2 >= glob.len() || glob[i + 2] != '\\')
}

/// `globset::GlobBuilder::build` with `literal_separator(true)` and
/// `backslash_escape(true)`: the compiled glob, which remembers its text, or the
/// `Display` text of the error. A glob that some hosts read otherwise is left out.
#[verifier::external_body]
fn parse_glob(glob: &str) -> (r: Result<globset::Glob, String>)
    requires
        reads_alike_everywhere(glob@),
    ensures
        match r {
            Ok(compiled) => glob_failure(glob@) is None && glob_source(compiled) == glob@,
            Err(message) => glob_failure(glob@) == Some(message@),
        },
{
    globset::GlobBuilder::new(glob).literal_separator(true).backslash_escape(true).build().map_err(
        |e| e.to_string(),
    )
}

/// `globset::GlobSet::new` on the globs of the accepted patterns: the set of these
/// globs in their order, where it can be built; else the `Display` text of the error.
#[verifier::external_body]
fn build_glob_set(accepted: &Vec<Accepted>) -> (r: Result<globset::GlobSet, String>)
    ensures
        ({
            let globs = Seq::new(accepted@.len(), |i: int| glob_source(accepted@[i].glob));
            match r {
                Ok(set) => glob_set_failure(globs) is None && glob_set_sources(set) == globs,
                Err(message) => glob_set_failure(globs) == Some(message@),
            }
        }),
{
    globset::GlobSet::new(accepted.iter().map(|a| &a.glob)).map_err(|e| e.to_string())
}

/// `globset::GlobSet::matches`: the sequence numbers of the globs of the set that
/// match the path, in ascending order. A path with a backslash is left out: some
/// hosts read it as a separator.
#[verifier::external_body]
fn matching_globs(set: &globset::GlobSet, path: &str) -> (hits: Vec<usize>)
    requires
        !path@.contains('\\'),
    ensures
        forall|i: int|
            0 <= i < glob_set_sources(*set).len() ==> (hits@.contains(i as usize) <==> glob_matches(
                #[trigger] glob_set_sources(*set)[i],
                path@,
            )),
        forall|k: int| 0 <= k < hits@.len() ==> (#[trigger] hits@[k]) < glob_set_sources(*set).len(),
        forall|j: int, k: int| 0 <= j < k < hits@.len() ==> hits@[j] < hits@[k],
{
    set.matches(path)
}

/// The mathematical value of a rule.
pub struct RuleView {
    /// The rule takes back what earlier rules ignored.
    pub negated: bool,
    /// The rule holds for directories only.
    pub dir_only: bool,
    /// The glob is held against the whole path; else against its last name.
    pub anchored: bool,
    pub glob: Seq<char>,
}

/// One ignore pattern, taken apart.
#[derive(Debug, PartialEq, Eq)]
pub struct IgnoreRule {
    pub negated: bool,
    pub dir_only: bool,
    pub anchored: bool,
    pub glob: String,
}

impl View for IgnoreRule {
    type V = RuleView;

    open spec fn view(&self) -> RuleView {
        RuleView {
            negated: self.negated,
            dir_only: self.dir_only,
            anchored: self.anchored,
            glob: self.glob@,
        }
    }
}

/// A pattern that was accepted: its text, the rule that it stands for, and the
/// compiled glob of the rule.
#[derive(Debug)]
pub struct Accepted {
    pattern: String,
    rule: IgnoreRule,
    glob: globset::Glob,
}

impl Accepted {
    /// The text, the rule and the glob belong together.
    pub closed spec fn well_formed(&self) -> bool {
        self.rule@ == rule_of(self.pattern@) && glob_source(self.glob) == self.rule.glob@
    }

    pub closed spec fn pattern(&self) -> Seq<char> {
        self.pattern@
    }

    pub closed spec fn rule(&self) -> RuleView {
        self.rule@
    }
}

/// The rules of a list of accepted patterns.
pub open spec fn rules_of(accepted: Seq<Accepted>) -> Seq<RuleView> {
    Seq::new(accepted.len(), |i: int| accepted[i].rule())
}

/// The texts of a list of accepted patterns.
pub open spec fn patterns_of(accepted: Seq<Accepted>) -> Seq<Seq<char>> {
    Seq::new(accepted.len(), |i: int| accepted[i].pattern())
}

/// The rule that a pattern line stands for.
pub open spec fn rule_of(line: Seq<char>) -> RuleView {
    let negated = line.len() > 0 && line[0] == '!';
    let positive = if negated {
        line.skip(1)
    } else {
        line
    };
    let dir_only = positive.len() > 0 && positive.last() == '/';
    let body = if dir_only {
        positive.drop_last()
    } else {
        positive
    };
    let glob = if body.len() > 0 && body[0] == '/' {
        body.skip(1)
    } else {
        body
    };
    RuleView { negated, dir_only, anchored: body.contains('/'), glob }
}

fn holds_char(chars: &Vec<char>, from: usize, to: usize, wanted: char) -> (found: bool)
    requires
        from <= to <= chars.len(),
    ensures
        found == chars@.subrange(from as int, to as int).contains(wanted),
{
    let ghost part = chars@.subrange(from as int, to as int);
    let mut i: usize = from;
    while i < to
        invariant
            from <= i <= to <= chars.len(),
            part == chars@.subrange(from as int, to as int),
            forall|k: int| 0 <= k < i - from ==> part[k] != wanted,
        decreases to - i,
    {
        if chars[i] == wanted {
            assert(part[i - from] == wanted);
            return true;
        }
        i += 1;
    }
    false
}

pub fn parse_rule(line: &str) -> (rule: IgnoreRule)
    ensures
        rule@ == rule_of(line@),
{
    let chars = chars_of(line);
    let n: usize = chars.len();
    let negated = n > 0 && chars[0] == '!';
    let from: usize = if negated {
        1
    } else {
        0
    };
    let dir_only = n > from && chars[n - 1] == '/';
    let to: usize = if dir_only {
        n - 1
    } else {
        n
    };
    let anchored = holds_char(&chars, from, to, '/');
    let start: usize = if to > from && chars[from] == '/' {
        from + 1
    } else {
        from
    };
    let glob = String::from_str(line.substring_char(start, to));
    proof {
        let positive = if negated {
            line@.skip(1)
        } else {
            line@
        };
        assert(positive == line@.subrange(from as int, n as int));
        let body = if dir_only {
            positive.drop_last()
        } else {
            positive
        };
        assert(body == line@.subrange(from as int, to as int));
        if to > from && chars[from as int] == '/' {
            assert(body.skip(1) == line@.subrange(start as int, to as int));
        }
    }
    IgnoreRule { negated, dir_only, anchored, glob }
}

/// Whether a rule hits a path below the root.
pub open spec fn rule_hits(rule: RuleView, path: PathView, is_dir: bool) -> bool {
    &&& path.segments.len() > 0
    &&& rule.dir_only ==> is_dir
    &&& glob_matches(
        rule.glob,
        if rule.anchored {
            path.relative_text()
        } else {
            path.segments.last()
        },
    )
}

/// What the rules say of a path by itself: the last rule that hits it decides.
/// `Some(true)` is "ignored", `Some(false)` "taken back", `None` "no rule hits".
pub open spec fn verdict(rules: Seq<RuleView>, path: PathView, is_dir: bool) -> Option<bool>
    decreases rules.len(),
{
    if rules.len() == 0 {
        None
    } else if rule_hits(rules.last(), path, is_dir) {
        Some(!rules.last().negated)
    } else {
        verdict(rules.drop_last(), path, is_dir)
    }
}

/// Whether the rules ignore what the first `k` segments of a path name: a directory
/// above the path or, with all segments, the path itself.
pub open spec fn ignores_upper(rules: Seq<RuleView>, path: PathView, is_dir: bool, k: int) -> bool {
    verdict(rules, path.ancestor(k), k < path.segments.len() || is_dir) == Some(true)
}

/// Whether the rules ignore a path: the path itself, or a directory above it.
pub open spec fn ignores(rules: Seq<RuleView>, path: PathView, is_dir: bool) -> bool {
    exists|k: int| 1 <= k <= path.segments.len() && #[trigger] ignores_upper(rules, path, is_dir, k)
}

fn holds_index(hits: &Vec<usize>, wanted: usize) -> (found: bool)
    ensures
        found == hits@.contains(wanted),
{
    let n: usize = hits.len();
    let mut i: usize = 0;
    while i < n
        invariant
            n == hits.len(),
            i <= n,
            forall|k: int| 0 <= k < i ==> hits@[k] != wanted,
        decreases n - i,
    {
        if hits[i] == wanted {
            return true;
        }
        i += 1;
    }
    false
}

/// The compiled form of a list of rules.
#[derive(Debug)]
pub struct Matcher {
    accepted: Vec<Accepted>,
    set: globset::GlobSet,
}

impl Matcher {
    /// The rules, in the order of their patterns.
    pub closed spec fn rules(&self) -> Seq<RuleView> {
        rules_of(self.accepted@)
    }

    #[verifier::type_invariant]
    spec fn set_holds_the_globs(&self) -> bool {
        glob_set_sources(self.set) == Seq::new(
            self.accepted@.len(),
            |i: int| self.accepted@[i].rule.glob@,
        )
    }

    /// What the rules say of a path by itself.
    fn verdict_on(&self, path: &TreePath, is_dir: bool) -> (v: Option<bool>)
        ensures
            v == verdict(self.rules(), path@, is_dir),
    {
        let ghost rules = self.rules();
        let count: usize = path.segment_count();
        let last = match path.segment(count.saturating_sub(1)) {
            Some(last) => last,
            None => {
                proof {
                    lemma_nothing_hits_the_root(rules, path@, is_dir);
                }
                return None;
            },
        };
        let whole = path.relative_text();
        let whole_hits = matching_globs(&self.set, whole.as_str());
        proof {
            assert(crate::path::is_segment(path@.segments[count - 1]));
            assert forall|k: int| 0 <= k < last@.len() implies last@[k] != '\\' by {
                assert(!Delimiter::PathSeparator.cuts(last@[k]));
            }
            use_type_invariant(self);
        }
        let last_hits = matching_globs(&self.set, last);
        let n: usize = self.accepted.len();
        let mut i: usize = n;
        assert(rules.take(n as int) == rules);
        while i > 0
            invariant
                i <= n,
                n == self.accepted.len(),
                rules == rules_of(self.accepted@),
                path@.segments.len() == count,
                count > 0,
                whole@ == path@.relative_text(),
                last@ == path@.segments.last(),
                glob_set_sources(self.set) == Seq::new(
                    self.accepted@.len(),
                    |i: int| self.accepted@[i].rule.glob@,
                ),
                forall|k: int|
                    0 <= k < n ==> (whole_hits@.contains(k as usize) <==> glob_matches(
                        #[trigger] glob_set_sources(self.set)[k],
                        whole@,
                    )),
                forall|k: int|
                    0 <= k < n ==> (last_hits@.contains(k as usize) <==> glob_matches(
                        #[trigger] glob_set_sources(self.set)[k],
                        last@,
                    )),
                verdict(rules, path@, is_dir) == verdict(rules.take(i as int), path@, is_dir),
            decreases i,
        {
            let rule = &self.accepted[i - 1].rule;
            proof {
                assert(rules.take(i as int).last() == rule@);
                assert(rules.take(i as int).drop_last() == rules.take(i - 1));
                assert(glob_set_sources(self.set)[i - 1] == rule@.glob);
            }
            let glob_hit = if rule.anchored {
                holds_index(&whole_hits, i - 1)
            } else {
                holds_index(&last_hits, i - 1)
            };
            if glob_hit && (is_dir || !rule.dir_only) {
                return Some(!rule.negated);
            }
            i -= 1;
        }
        None
    }

    /// Whether the rules ignore `path`, a path below the root of the tree that is
    /// looked at: the path itself, or a directory above it.
    pub fn matches(&self, path: &TreePath, is_dir: bool) -> (ignored: bool)
        ensures
            ignored == ignores(self.rules(), path@, is_dir),
    {
        let n: usize = path.segment_count();
        let mut above: usize = 0;
        while above < n
            invariant
                n == path@.segments.len(),
                above <= n,
                forall|j: int|
                    1 <= j <= above ==> !#[trigger] ignores_upper(self.rules(), path@, is_dir, j),
            decreases n - above,
        {
            let k: usize = above + 1;
            let upper = path.ancestor(k);
            let v = self.verdict_on(&upper, k < n || is_dir);
            match v {
                Some(true) => {
                    assert(ignores_upper(self.rules(), path@, is_dir, k as int));
                    return true;
                },
                _ => {},
            }
            above = k;
        }
        false
    }
}

proof fn lemma_nothing_hits_the_root(rules: Seq<RuleView>, path: PathView, is_dir: bool)
    requires
        path.segments.len() == 0,
    ensures
        verdict(rules, path, is_dir) is None,
    decreases rules.len(),
{
    if rules.len() > 0 {
        lemma_nothing_hits_the_root(rules.drop_last(), path, is_dir);
    }
}

/// Where ignore patterns come from.
#[derive(Debug, Clone, PartialEq, Eq)]
pub enum PatternSource {
    /// A pattern that the user wrote down directly.
    Literal(String),
    /// A pattern file, with its content where the file could be read.
    File { path: String, content: Option<String> },
}

/// The mathematical value of a [`PatternSource`].
pub enum SourceView {
    Literal(Seq<char>),
    File { path: Seq<char>, content: Option<Seq<char>> },
}

impl View for PatternSource {
    type V = SourceView;

    open spec fn view(&self) -> SourceView {
        match self {
            PatternSource::Literal(text) => SourceView::Literal(text@),
            PatternSource::File { path, content } => SourceView::File {
                path: path@,
                content: match content {
                    Some(text) => Some(text@),
                    None => None,
                },
            },
        }
    }
}

pub open spec fn source_views(sources: Seq<PatternSource>) -> Seq<SourceView> {
    sources.map_values(|s: PatternSource| s@)
}

/// The patterns that were accepted and the warnings that were raised, in order.
pub struct Gathered {
    pub patterns: Seq<Seq<char>>,
    pub warnings: Seq<Seq<char>>,
}

/// Why the gathering of patterns stopped.
pub enum Refusal {
    /// A pattern that the user wrote down directly is no pattern; the text names
    /// the pattern and says what is wrong with it.
    InvalidPattern(Seq<char>),
    /// A pattern file is not there.
    MissingFile(Seq<char>),
}

/// A line that stands for a pattern: not blank, and no comment.
pub open spec fn is_pattern_line(line: Seq<char>) -> bool {
    line.len() > 0 && line[0] != '#'
}

pub open spec fn backslash_message() -> Seq<char> {
    "a backslash next to `**` is not supported in an ignore pattern"@
}

/// What is wrong with a pattern line, if anything: its glob holds a backslash next
/// to `**`, whose meaning would depend on the host, or its glob is refused.
pub open spec fn pattern_problem(line: Seq<char>) -> Option<Seq<char>> {
    if !reads_alike_everywhere(rule_of(line).glob) {
        Some(backslash_message())
    } else {
        glob_failure(rule_of(line).glob)
    }
}

/// Whether every host reads the glob alike.
fn is_read_alike_everywhere(glob: &str) -> (alike: bool)
    ensures
        alike == reads_alike_everywhere(glob@),
{
    let chars = chars_of(glob);
    let n: usize = chars.len();
    let mut i: usize = 0;
    while i < n
        invariant
            chars@ == glob@,
            n == chars.len(),
            i <= n,
            forall|k: int|
                0 <= k < i && k + 1 < n && #[trigger] glob@[k] == '*' && glob@[k + 1] == '*' ==> (k
                    == 0 || glob@[k - 1] != '\\') && (k + 2 >= n || glob@[k + 2] != '\\'),
        decreases n - i,
    {
        if n - i > 1 && chars[i] == '*' && chars[i + 1] == '*' {
            if (i > 0 && chars[i - 1] == '\\') || (i + 2 < n && chars[i + 2] == '\\') {
                assert(glob@[i as int] == '*');
                return false;
            }
        }
        i += 1;
    }
    true
}

/// The warning for a pattern of a file that is passed over.
pub open spec fn warning_text(line: Seq<char>, origin: Seq<char>, problem: Seq<char>) -> Seq<char> {
    "Skipping invalid ignore pattern '"@ + line + "' from "@ + origin + ": "@ + problem
}

/// How a refused pattern is named in the error.
pub open spec fn refusal_text(line: Seq<char>, problem: Seq<char>) -> Seq<char> {
    line + " ("@ + problem + ")"@
}

/// What one line adds. A line is trimmed first; a blank line or a comment adds
/// nothing. A line that is no pattern is fatal where the user wrote it directly
/// (`origin` is `None`), and raises a warning where it stands in a file.
pub open spec fn with_line(state: Gathered, origin: Option<Seq<char>>, raw: Seq<char>) -> Result<
    Gathered,
    Refusal,
> {
    let line = trimmed(raw);
    if !is_pattern_line(line) {
        Ok(state)
    } else {
        match pattern_problem(line) {
            None => Ok(Gathered { patterns: state.patterns.push(line), ..state }),
            Some(problem) => match origin {
                None => Err(Refusal::InvalidPattern(refusal_text(line, problem))),
                Some(path) => Ok(
                    Gathered {
                        warnings: state.warnings.push(warning_text(line, path, problem)),
                        ..state
                    },
                ),
            },
        }
    }
}

/// What the lines of a pattern file add.
pub open spec fn with_lines(state: Gathered, origin: Seq<char>, lines: Seq<Seq<char>>) -> Gathered
    decreases lines.len(),
{
    if lines.len() == 0 {
        state
    } else {
        let before = with_lines(state, origin, lines.drop_last());
        match with_line(before, Some(origin), lines.last()) {
            Ok(after) => after,
            Err(_) => before,
        }
    }
}

/// What one source adds.
pub open spec fn with_source(state: Gathered, source: SourceView) -> Result<Gathered, Refusal> {
    match source {
        SourceView::Literal(text) => with_line(state, None, text),
        SourceView::File { path, content } => match content {
            None => Err(Refusal::MissingFile(path)),
            Some(text) => Ok(with_lines(state, path, pieces(text, Delimiter::LineBreak))),
        },
    }
}

/// What the sources add up to when taken in order, or why the first of them that
/// fails is refused.
pub open spec fn gathered(sources: Seq<SourceView>) -> Result<Gathered, Refusal>
    decreases sources.len(),
{
    if sources.len() == 0 {
        Ok(Gathered { patterns: Seq::empty(), warnings: Seq::empty() })
    } else {
        match gathered(sources.drop_last()) {
            Err(refusal) => Err(refusal),
            Ok(before) => with_source(before, sources.last()),
        }
    }
}

/// The message with which the patterns fail to compile into one matcher, if they
/// fail. Without patterns there is nothing to compile.
pub open spec fn compile_failure(patterns: Seq<Seq<char>>) -> Option<Seq<char>> {
    if patterns.len() == 0 {
        None
    } else {
        glob_set_failure(Seq::new(patterns.len(), |i: int| rule_of(patterns[i]).glob))
    }
}

/// Whether an error is the one that reports that the patterns do not compile.
pub open spec fn reports_compile_failure(error: SkeletorError, message: Seq<char>) -> bool {
    error matches SkeletorError::InvalidIgnorePattern { pattern } && pattern@
        == "Failed to compile ignore patterns: "@ + message
}

/// Whether an error is the one that stands for a refusal.
pub open spec fn reports(error: SkeletorError, refusal: Refusal) -> bool {
    match refusal {
        Refusal::InvalidPattern(text) => error matches SkeletorError::InvalidIgnorePattern {
            pattern,
        } && pattern@ == text,
        Refusal::MissingFile(path) => error matches SkeletorError::FileNotFound { path: p } && p@
            == path,
    }
}

/// Gathers patterns, line by line, until they are compiled into a matcher.
#[derive(Debug)]
pub struct IgnoreBuilder {
    accepted: Vec<Accepted>,
    warnings: Vec<String>,
}

impl View for IgnoreBuilder {
    type V = Gathered;

    closed spec fn view(&self) -> Gathered {
        Gathered { patterns: patterns_of(self.accepted@), warnings: strings(self.warnings@) }
    }
}

impl IgnoreBuilder {
    #[verifier::type_invariant]
    spec fn patterns_are_compiled(&self) -> bool {
        forall|i: int| 0 <= i < self.accepted@.len() ==> (#[trigger] self.accepted@[i]).well_formed()
    }

    pub fn new() -> (builder: IgnoreBuilder)
        ensures
            builder@ == (Gathered { patterns: Seq::empty(), warnings: Seq::empty() }),
    {
        let builder = IgnoreBuilder { accepted: Vec::new(), warnings: Vec::new() };
        assert(builder@.patterns =~= Seq::empty());
        assert(builder@.warnings =~= Seq::empty());
        builder
    }

    /// Compiles what was gathered. Without patterns there is nothing to compile and
    /// the result has no matcher. Otherwise `globset` builds the set, and its refusal
    /// is reported as an invalid pattern.
    pub fn build(self) -> (r: Result<IgnoreSpec, SkeletorError>)
        ensures
            match compile_failure(self@.patterns) {
                None => r matches Ok(spec) && spec.holds(self@),
                Some(message) => r matches Err(error) && reports_compile_failure(error, message),
            },
    {
        let ghost gathered = self@;
        proof {
            use_type_invariant(&self);
        }
        let mut patterns: Vec<String> = Vec::new();
        let n: usize = self.accepted.len();
        let mut i: usize = 0;
        while i < n
            invariant
                n == self.accepted@.len(),
                i <= n,
                patterns@.len() == i,
                forall|k: int| 0 <= k < i ==> (#[trigger] patterns@[k])@ == self.accepted@[k].pattern@,
            decreases n - i,
        {
            patterns.push(self.accepted[i].pattern.clone());
            i += 1;
        }
        assert(strings(patterns@) =~= gathered.patterns);
        if n == 0 {
            let spec = IgnoreSpec { matcher: None, patterns, warnings: self.warnings };
            assert(spec.rules() =~= gathered.patterns.map_values(|p: Seq<char>| rule_of(p)));
            return Ok(spec);
        }
        proof {
            assert(Seq::new(self.accepted@.len(), |i: int| glob_source(self.accepted@[i].glob))
                =~= Seq::new(
                gathered.patterns.len(),
                |i: int| rule_of(gathered.patterns[i]).glob,
            ));
        }
        match build_glob_set(&self.accepted) {
            Ok(set) => {
                proof {
                    assert(glob_set_sources(set) =~= Seq::new(
                        self.accepted@.len(),
                        |i: int| self.accepted@[i].rule.glob@,
                    ));
                }
                let matcher = Matcher { accepted: self.accepted, set };
                proof {
                    assert(matcher.rules() =~= gathered.patterns.map_values(
                        |p: Seq<char>| rule_of(p),
                    ));
                }
                Ok(IgnoreSpec { matcher: Some(matcher), patterns, warnings: self.warnings })
            },
            Err(message) => {
                let mut pattern = String::from_str("Failed to compile ignore patterns: ");
                pattern.append(message.as_str());
                Err(SkeletorError::InvalidIgnorePattern { pattern })
            },
        }
    }
}

/// The patterns of one run, with the matcher that they compile to and the warnings
/// that were raised while they were gathered.
#[derive(Debug)]
pub struct IgnoreSpec {
    pub matcher: Option<Matcher>,
    pub patterns: Vec<String>,
    pub warnings: Vec<String>,
}

impl IgnoreSpec {
    /// The rules of the matcher; none where there is no matcher.
    pub open spec fn rules(&self) -> Seq<RuleView> {
        match self.matcher {
            Some(matcher) => matcher.rules(),
            None => Seq::empty(),
        }
    }

    /// Whether this is what compiling `gathered` gives: the patterns and warnings
    /// in order, and a matcher with one rule for each pattern unless there is none.
    pub open spec fn holds(&self, gathered: Gathered) -> bool {
        &&& strings(self.patterns@) == gathered.patterns
        &&& strings(self.warnings@) == gathered.warnings
        &&& self.matcher is Some <==> gathered.patterns.len() > 0
        &&& self.rules() == gathered.patterns.map_values(|p: Seq<char>| rule_of(p))
    }

    /// Whether the patterns ignore `path`, a path below the root of the tree that
    /// is looked at. Without patterns nothing is ignored.
    pub fn matches(&self, path: &TreePath, is_dir: bool) -> (ignored: bool)
        ensures
            ignored == ignores(self.rules(), path@, is_dir),
    {
        match &self.matcher {
            Some(matcher) => matcher.matches(path, is_dir),
            None => {
                proof {
                    lemma_no_rules_ignore_nothing(path@, is_dir);
                }
                false
            },
        }
    }
}

/// A pattern that holds for every file and directory whose name its glob matches,
/// at any depth: a glob without `!` in front and without `/`.
pub open spec fn is_plain_pattern(pattern: Seq<char>) -> bool {
    pattern.len() > 0 && pattern[0] != '!' && !pattern.contains('/')
}

/// The rule of a plain pattern is the glob itself, held against the last name.
pub proof fn lemma_rule_of_a_plain_pattern(pattern: Seq<char>)
    requires
        is_plain_pattern(pattern),
    ensures
        rule_of(pattern) == (RuleView {
            negated: false,
            dir_only: false,
            anchored: false,
            glob: pattern,
        }),
{
    assert(pattern.contains(pattern.last()));
    assert(pattern.contains(pattern[0]));
}

/// Where the last rule is not negated, holds for files too, is held against the
/// last name, and its glob matches the last name of a path, the path is ignored.
pub proof fn lemma_matched_name_is_ignored(rules: Seq<RuleView>, path: PathView, is_dir: bool)
    requires
        rules.len() > 0,
        !rules.last().negated,
        !rules.last().dir_only,
        !rules.last().anchored,
        path.segments.len() > 0,
        glob_matches(rules.last().glob, path.segments.last()),
    ensures
        ignores(rules, path, is_dir),
{
    let n = path.segments.len() as int;
    assert(path.ancestor(n) == path);
    assert(rule_hits(rules.last(), path, is_dir));
    assert(ignores_upper(rules, path, is_dir, n));
}

/// Without rules nothing is ignored.
pub proof fn lemma_no_rules_ignore_nothing(path: PathView, is_dir: bool)
    ensures
        !ignores(Seq::empty(), path, is_dir),
{
}

/// Takes one line in: trims it, passes over a blank line or a comment, and adds the
/// pattern where it is one. A line that is no pattern is an error where the user
/// wrote it directly (`source` is `None`), and a warning where it comes from a file.
pub fn add_ignore_line(builder: &mut IgnoreBuilder, source: Option<&str>, line: &str) -> (r: Result<
    (),
    SkeletorError,
>)
    ensures
        match with_line(
            old(builder)@,
            match source {
                Some(path) => Some(path@),
                None => None,
            },
            line@,
        ) {
            Ok(after) => r is Ok && final(builder)@ == after,
            Err(refusal) => r matches Err(error) && reports(error, refusal) && final(builder)@
                == old(builder)@,
        },
{
    let text = trim(line);
    let chars = chars_of(text);
    let n: usize = chars.len();
    if n == 0 || chars[0] == '#' {
        return Ok(());
    }
    let rule = parse_rule(text);
    let problem = if !is_read_alike_everywhere(rule.glob.as_str()) {
        String::from_str("a backslash next to `**` is not supported in an ignore pattern")
    } else {
        match parse_glob(rule.glob.as_str()) {
            Ok(glob) => {
                let one = Accepted { pattern: String::from_str(text), rule, glob };
                proof {
                    use_type_invariant(&*builder);
                    assert(patterns_of(builder.accepted@.push(one)) =~= patterns_of(
                        builder.accepted@,
                    ).push(text@));
                }
                let mut accepted: Vec<Accepted> = Vec::new();
                core::mem::swap(&mut builder.accepted, &mut accepted);
                accepted.push(one);
                builder.accepted = accepted;
                return Ok(());
            },
            Err(message) => message,
        }
    };
    match source {
        None => {
            let mut pattern = String::from_str(text);
            pattern.append(" (");
            pattern.append(problem.as_str());
            pattern.append(")");
            Err(SkeletorError::InvalidIgnorePattern { pattern })
        },
        Some(path) => {
            let mut warning = String::from_str("Skipping invalid ignore pattern '");
            warning.append(text);
            warning.append("' from ");
            warning.append(path);
            warning.append(": ");
            warning.append(problem.as_str());
            proof {
                use_type_invariant(&*builder);
                lemma_strings_push(builder.warnings@, warning);
            }
            let mut warnings: Vec<String> = Vec::new();
            core::mem::swap(&mut builder.warnings, &mut warnings);
            warnings.push(warning);
            builder.warnings = warnings;
            Ok(())
        },
    }
}

/// Takes a pattern file in, line by line. A file that is not there is an error; a
/// line of it that is no pattern raises a warning and is passed over.
pub fn add_ignore_file(builder: &mut IgnoreBuilder, path: &str, content: Option<&str>) -> (r: Result<
    (),
    SkeletorError,
>)
    ensures
        match content {
            Some(text) => r is Ok && final(builder)@ == with_lines(
                old(builder)@,
                path@,
                pieces(text@, Delimiter::LineBreak),
            ),
            None => r matches Err(error) && reports(error, Refusal::MissingFile(path@))
                && final(builder)@ == old(builder)@,
        },
{
    match content {
        None => Err(SkeletorError::FileNotFound { path: String::from_str(path) }),
        Some(text) => {
            let lines = split(text, Delimiter::LineBreak);
            let ghost start = builder@;
            let ghost all = pieces(text@, Delimiter::LineBreak);
            let n: usize = lines.len();
            let mut i: usize = 0;
            assert(all.take(0).len() == 0);
            while i < n
                invariant
                    n == lines.len(),
                    i <= n,
                    all == strings(lines@),
                    builder@ == with_lines(start, path@, all.take(i as int)),
                decreases n - i,
            {
                proof {
                    assert(all.take(i + 1).drop_last() == all.take(i as int));
                    assert(all.take(i + 1).last() == lines@[i as int]@);
                }
                let added = add_ignore_line(builder, Some(path), lines[i].as_str());
                i += 1;
            }
            assert(all.take(n as int) == all);
            Ok(())
        },
    }
}

/// Gathers the patterns of the sources in order and compiles them.
///
/// The result is an error for the first source that fails: a pattern file that is
/// not there, or a directly written pattern that is no pattern. Where no source
/// fails, the patterns are compiled into one matcher; that they do not compile is
/// the one other error.
pub fn collect_ignore_spec(sources: &Vec<PatternSource>) -> (r: Result<IgnoreSpec, SkeletorError>)
    ensures
        match gathered(source_views(sources@)) {
            Err(refusal) => r matches Err(error) && reports(error, refusal),
            Ok(all) => match compile_failure(all.patterns) {
                None => r matches Ok(spec) && spec.holds(all),
                Some(message) => r matches Err(error) && reports_compile_failure(error, message),
            },
        },
{
    let mut builder = IgnoreBuilder::new();
    let ghost views = source_views(sources@);
    let n: usize = sources.len();
    let mut i: usize = 0;
    assert(views.take(0).len() == 0);
    while i < n
        invariant
            n == sources.len(),
            i <= n,
            views == source_views(sources@),
            gathered(views.take(i as int)) == Ok::<Gathered, Refusal>(builder@),
        decreases n - i,
    {
        proof {
            assert(views.take(i + 1).drop_last() == views.take(i as int));
            assert(views.take(i + 1).last() == sources@[i as int]@);
        }
        let added = match &sources[i] {
            PatternSource::Literal(text) => add_ignore_line(&mut builder, None, text.as_str()),
            PatternSource::File { path, content } => {
                let text: Option<&str> = match content {
                    Some(text) => Some(text.as_str()),
                    None => None,
                };
                add_ignore_file(&mut builder, path.as_str(), text)
            },
        };
        match added {
            Err(error) => {
                proof {
                    lemma_gathering_failure_stays(views, i + 1);
                }
                return Err(error);
            },
            Ok(_) => {},
        }
        i += 1;
    }
    assert(views.take(n as int) == views);
    builder.build()
}

/// A source that fails among the first sources fails the whole gathering.
pub proof fn lemma_gathering_failure_stays(sources: Seq<SourceView>, n: int)
    requires
        0 <= n <= sources.len(),
        gathered(sources.take(n)) is Err,
    ensures
        gathered(sources) == gathered(sources.take(n)),
    decreases sources.len() - n,
{
    if n < sources.len() {
        assert(sources.take(n + 1).drop_last() == sources.take(n));
        lemma_gathering_failure_stays(sources, n + 1);
    } else {
        assert(sources.take(n) == sources);
    }
}

} // verus!
