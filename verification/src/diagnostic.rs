//! Diagnostics: what a check reports, and the rules that report it.

use vstd::prelude::*;

use crate::text::chars_of;

verus! {

#[derive(Debug, Clone, Copy, PartialEq, Eq, Structural)]
pub enum Severity {
    Warning,
    Error,
}

/// The public name of the rule on ordered lists.
pub const ORDERED_LIST: &'static str = "ordered-list";

/// The public name of the rule on leading ordering labels.
pub const ORDINAL_PREFIX: &'static str = "prefix";

/// The public name of the rule on leading phase labels.
pub const KEYWORD_PREFIX: &'static str = "keyword-prefix";

/// The rule behind a diagnostic.
///
/// A rule is named by its public name (`prefix`, `keyword-prefix`,
/// `ordered-list`, `ignore`); the same name qualified by the tool,
/// `deordinal/<name>`, names the same rule. Comparing a rule with a string
/// accepts either form.
#[derive(Debug, Clone, Copy)]
pub enum Rule {
    OrderedList,
    Prefix,
    KeywordPrefix,
    Ignore,
}

impl Rule {
    pub open spec fn spec_name(self) -> Seq<char> {
        match self {
            Rule::OrderedList => "ordered-list"@,
            Rule::Prefix => "prefix"@,
            Rule::KeywordPrefix => "keyword-prefix"@,
            Rule::Ignore => "ignore"@,
        }
    }

    /// Position of the rule when diagnostics at the same offset are ordered:
    /// the order of the public names.
    pub open spec fn spec_rank(self) -> nat {
        match self {
            Rule::Ignore => 0,
            Rule::KeywordPrefix => 1,
            Rule::OrderedList => 2,
            Rule::Prefix => 3,
        }
    }

    /// The rule's public name.
    pub fn name(&self) -> (s: &'static str)
        ensures
            s@ == self.spec_name(),
    {
        match self {
            Rule::OrderedList => ORDERED_LIST,
            Rule::Prefix => ORDINAL_PREFIX,
            Rule::KeywordPrefix => KEYWORD_PREFIX,
            Rule::Ignore => "ignore",
        }
    }

    pub fn rank(&self) -> (r: usize)
        ensures
            r == self.spec_rank(),
    {
        match self {
            Rule::Ignore => 0,
            Rule::KeywordPrefix => 1,
            Rule::OrderedList => 2,
            Rule::Prefix => 3,
        }
    }

    pub fn same(&self, other: &Rule) -> (r: bool)
        ensures
            r == (*self == *other),
    {
        self.rank() == other.rank()
    }

    /// The message that a warning of this rule carries.
    pub open spec fn spec_message(self) -> Seq<char> {
        match self {
            Rule::OrderedList => "Ordered list used"@,
            Rule::Prefix => "Leading ordering label"@,
            Rule::KeywordPrefix => "Leading phase label"@,
            Rule::Ignore => "Invalid ignore directive"@,
        }
    }

    pub fn message(&self) -> (s: String)
        ensures
            s@ == self.spec_message(),
    {
        match self {
            Rule::OrderedList => String::from_str("Ordered list used"),
            Rule::Prefix => String::from_str("Leading ordering label"),
            Rule::KeywordPrefix => String::from_str("Leading phase label"),
            Rule::Ignore => String::from_str("Invalid ignore directive"),
        }
    }
}

/// Whether `a` and `b` hold the same characters.
pub fn chars_equal(a: &Vec<char>, b: &Vec<char>) -> (r: bool)
    ensures
        r == (a@ == b@),
{
    if a.len() != b.len() {
        return false;
    }
    let mut i: usize = 0;
    while i < a.len()
        invariant
            a@.len() == b@.len(),
            i <= a@.len(),
            forall|j: int| 0 <= j < i ==> a@[j] == b@[j],
        decreases a@.len() - i,
    {
        if a[i] != b[i] {
            return false;
        }
        i = i + 1;
    }
    proof {
        assert(a@ =~= b@);
    }
    true
}

impl PartialEq<&str> for Rule {
    fn eq(&self, other: &&str) -> (r: bool) {
        let name = chars_of(self.name());
        let given = chars_of(*other);
        if chars_equal(&name, &given) {
            return true;
        }
        let tool = chars_of("deordinal/");
        let t = tool.len();
        if given.len() < t || given.len() - t != name.len() {
            proof {
                assert((tool@ + name@).len() == tool@.len() + name@.len());
            }
            return false;
        }
        let mut i: usize = 0;
        while i < given.len()
            invariant
                given@.len() == t + name@.len(),
                t == tool@.len(),
                given@ == (*other)@,
                name@ == self.spec_name(),
                tool@ == "deordinal/"@,
                name@ != given@,
                i <= given@.len(),
                forall|j: int|
                    0 <= j < i ==> #[trigger] given@[j] == (tool@ + name@)[j],
            decreases given@.len() - i,
        {
            let expected = if i < t {
                tool[i]
            } else {
                name[i - t]
            };
            if given[i] != expected {
                proof {
                    assert(given@[i as int] != (tool@ + name@)[i as int]);
                    assert(given@ != tool@ + name@);
                }
                return false;
            }
            i = i + 1;
        }
        proof {
            assert(given@ =~= tool@ + name@);
        }
        true
    }
}

impl vstd::std_specs::cmp::PartialEqSpecImpl<&str> for Rule {
    open spec fn obeys_eq_spec() -> bool {
        true
    }

    open spec fn eq_spec(&self, other: &&str) -> bool {
        other@ == self.spec_name() || other@ == "deordinal/"@ + self.spec_name()
    }
}

/// A finding of a check: a rule, a message and a byte range of the source.
#[derive(Debug)]
pub struct Diagnostic {
    pub rule: Rule,
    pub message: String,
    pub start: usize,
    pub end: usize,
    pub severity: Severity,
    /// The byte range whose removal fixes the finding, where one is offered.
    pub fix: Option<(usize, usize)>,
}

impl Clone for Diagnostic {
    fn clone(&self) -> (r: Self)
        ensures
            r == *self,
    {
        Diagnostic {
            rule: self.rule,
            message: self.message.clone(),
            start: self.start,
            end: self.end,
            severity: self.severity,
            fix: self.fix,
        }
    }
}

/// A diagnostic as plain values: rule, message, start, end, severity and
/// the removal that fixes it.
pub type DiagView = (Rule, Seq<char>, int, int, Severity, Option<(int, int)>);

impl Diagnostic {
    pub open spec fn view(&self) -> DiagView {
        (
            self.rule,
            self.message@,
            self.start as int,
            self.end as int,
            self.severity,
            match self.fix {
                Some((a, b)) => Some((a as int, b as int)),
                None => None,
            },
        )
    }

    pub fn warning(rule: Rule, start: usize, end: usize, fix: Option<(usize, usize)>) -> (d:
        Diagnostic)
        ensures
            d.rule == rule,
            d.message@ == rule.spec_message(),
            d.start == start,
            d.end == end,
            d.severity == Severity::Warning,
            d.fix == fix,
    {
        Diagnostic { rule, message: rule.message(), start, end, severity: Severity::Warning, fix }
    }

    pub fn error(message: String, start: usize, end: usize) -> (d: Diagnostic)
        ensures
            d.rule == Rule::Ignore,
            d.message == message,
            d.start == start,
            d.end == end,
            d.severity == Severity::Error,
            d.fix is None,
    {
        Diagnostic { rule: Rule::Ignore, message, start, end, severity: Severity::Error, fix: None }
    }
}

/// The diagnostic that `o` holds, if any, as a sequence.
pub open spec fn opt_seq(o: Option<DiagView>) -> Seq<DiagView> {
    match o {
        Some(d) => seq![d],
        None => seq![],
    }
}

/// The diagnostics that `f` gives for the elements of `items`, in order.
pub open spec fn collect<A>(items: Seq<A>, f: spec_fn(A) -> Option<DiagView>) -> Seq<DiagView>
    decreases items.len(),
{
    if items.len() == 0 {
        seq![]
    } else {
        collect(items.drop_last(), f) + opt_seq(f(items.last()))
    }
}

/// Each diagnostic that `collect` gives is `f` of one of the items.
pub proof fn lemma_collect_member<A>(items: Seq<A>, f: spec_fn(A) -> Option<DiagView>, k: int)
    requires
        0 <= k < collect(items, f).len(),
    ensures
        exists|j: int| 0 <= j < items.len() && f(#[trigger] items[j]) == Some(collect(items, f)[k]),
    decreases items.len(),
{
    let prefix = collect(items.drop_last(), f);
    if k < prefix.len() {
        lemma_collect_member(items.drop_last(), f, k);
        let j = choose|j: int| 0 <= j < items.drop_last().len() && f(#[trigger] items.drop_last()[j]) == Some(prefix[k]);
        assert(items[j] == items.drop_last()[j]);
    } else {
        assert(f(items[items.len() - 1]) == Some(collect(items, f)[k]));
    }
}

pub open spec fn diag_views(v: Seq<Diagnostic>) -> Seq<DiagView> {
    v.map_values(|d: Diagnostic| d.view())
}

/// Pushing a diagnostic pushes its view.
pub proof fn lemma_views_push(v: Seq<Diagnostic>, d: Diagnostic)
    ensures
        diag_views(v.push(d)) == diag_views(v).push(d.view()),
{
    assert(diag_views(v.push(d)) =~= diag_views(v).push(d.view()));
}

} // verus!
