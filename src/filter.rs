//! Which top-level directories take part in a flatten.
use vstd::prelude::*;
use vstd::string::*;

verus! {

/// The lowercase form that `str::to_lowercase` gives of a string.
pub uninterp spec fn lower_of(s: Seq<char>) -> Seq<char>;

/// Relies on `str::to_lowercase`: its result depends on the characters alone.
#[verifier::external_body]
fn lowercase(s: &str) -> (r: String)
    ensures
        r@ == lower_of(s@),
{
    s.to_lowercase()
}

/// A pattern selects a name when its lowercase form is a prefix of the
/// name's lowercase form.
pub open spec fn pattern_selects(name: Seq<char>, pattern: Seq<char>) -> bool {
    lower_of(pattern).is_prefix_of(lower_of(name))
}

/// Some pattern of the list selects the name.
pub open spec fn any_selects(name: Seq<char>, patterns: Seq<Seq<char>>) -> bool {
    exists|i: int| 0 <= i < patterns.len() && pattern_selects(name, #[trigger] patterns[i])
}

/// A top-level directory takes part when the list of includes, if present,
/// selects it and the list of excludes, if present, does not.
pub open spec fn dir_eligible(
    name: Seq<char>,
    includes: Option<Seq<Seq<char>>>,
    excludes: Option<Seq<Seq<char>>>,
) -> bool {
    &&& (includes matches Some(p) ==> any_selects(name, p))
    &&& (excludes matches Some(p) ==> !any_selects(name, p))
}

/// Whether `prefix` is a prefix of `text`, character by character.
pub fn has_prefix(text: &str, prefix: &str) -> (r: bool)
    ensures
        r == prefix@.is_prefix_of(text@),
{
    let n = prefix.unicode_len();
    let m = text.unicode_len();
    if n > m {
        return false;
    }
    let mut i: usize = 0;
    while i < n
        invariant
            i <= n <= m,
            n == prefix@.len(),
            m == text@.len(),
            forall|j: int| 0 <= j < i ==> prefix@[j] == text@[j],
        decreases n - i,
    {
        if prefix.get_char(i) != text.get_char(i) {
            return false;
        }
        i = i + 1;
    }
    assert(prefix@ =~= text@.subrange(0, n as int));
    true
}

/// Case-insensitive prefix match: `target` begins with `pattern` once both
/// are lowercased. A pattern inside the name but not at its start does not match.
pub fn starts_with_pattern(target: &str, pattern: &str) -> (r: bool)
    ensures
        r == pattern_selects(target@, pattern@),
{
    let t = lowercase(target);
    let p = lowercase(pattern);
    has_prefix(t.as_str(), p.as_str())
}

/// Whether some pattern of the list selects the name.
fn any_pattern_selects(name: &str, patterns: &Vec<String>) -> (r: bool)
    ensures
        r == any_selects(name@, patterns.deep_view()),
{
    let ghost pats = patterns.deep_view();
    let mut i: usize = 0;
    while i < patterns.len()
        invariant
            i <= patterns.len(),
            pats == patterns.deep_view(),
            forall|j: int| 0 <= j < i ==> !pattern_selects(name@, #[trigger] pats[j]),
        decreases patterns.len() - i,
    {
        if starts_with_pattern(name, patterns[i].as_str()) {
            assert(pats[i as int] == patterns@[i as int]@);
            return true;
        }
        i = i + 1;
    }
    false
}

/// Whether the subtree of the top-level directory `dir_name` takes part.
/// With a list of includes, some pattern must select the name; with a list of
/// excludes, none may; with neither, every directory takes part. The two lists
/// are never given together.
pub fn should_include_top_level_dir(
    dir_name: &str,
    includes: &Option<Vec<String>>,
    excludes: &Option<Vec<String>>,
) -> (r: bool)
    requires
        !(includes is Some && excludes is Some),
    ensures
        r == dir_eligible(dir_name@, includes.deep_view(), excludes.deep_view()),
{
    if let Some(patterns) = includes {
        return any_pattern_selects(dir_name, patterns);
    }
    if let Some(patterns) = excludes {
        return !any_pattern_selects(dir_name, patterns);
    }
    true
}

/// The run was asked both for a list of includes and a list of excludes.
#[derive(Clone, Copy, Debug, PartialEq, Eq, Structural)]
pub enum UsageError {
    IncludesWithExcludes,
}

/// The top-level directory filter of a run: a list of includes, a list of
/// excludes, or neither.
#[derive(Clone, Debug)]
pub struct FilterRules {
    pub includes: Option<Vec<String>>,
    pub excludes: Option<Vec<String>>,
}

impl FilterRules {
    /// The two lists are never given together.
    pub open spec fn wf(&self) -> bool {
        !(self.includes is Some && self.excludes is Some)
    }

    /// Whether the top-level directory `name` takes part under these rules.
    pub open spec fn admits_spec(&self, name: Seq<char>) -> bool {
        dir_eligible(name, self.includes.deep_view(), self.excludes.deep_view())
    }

    /// Checks the pair of lists given for a run: both at once is an error.
    pub fn new(includes: Option<Vec<String>>, excludes: Option<Vec<String>>) -> (r: Result<
        FilterRules,
        UsageError,
    >)
        ensures
            (includes is Some && excludes is Some) <==> r is Err,
            r matches Ok(rules) ==> rules.includes == includes && rules.excludes == excludes
                && rules.wf(),
    {
        if includes.is_some() && excludes.is_some() {
            Err(UsageError::IncludesWithExcludes)
        } else {
            Ok(FilterRules { includes, excludes })
        }
    }

    /// Whether the top-level directory `name` takes part under these rules.
    pub fn admits(&self, name: &str) -> (r: bool)
        requires
            self.wf(),
        ensures
            r == self.admits_spec(name@),
    {
        should_include_top_level_dir(name, &self.includes, &self.excludes)
    }
}

} // verus!
