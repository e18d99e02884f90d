//! Which applications belong to which group.
use crate::model::{ConfigSnapshot, GroupConfig, GroupView};
use crate::sample::GroupId;
use crate::text::chars_of;
use vstd::prelude::*;

verus! {

/// A pattern in which `*` stands for any run of characters.
#[derive(Debug, Clone, PartialEq, Eq)]
pub struct GlobPattern {
    pub pattern: String,
}

/// How one rule picks processes.
#[derive(Debug, Clone, PartialEq, Eq)]
pub enum MatchRule {
    ExactName(String),
    Glob(GlobPattern),
}

/// What a [`MatchRule`] says.
pub enum RuleView {
    ExactName(Seq<char>),
    Glob(Seq<char>),
}

impl DeepView for MatchRule {
    type V = RuleView;

    open spec fn deep_view(&self) -> RuleView {
        match self {
            MatchRule::ExactName(name) => RuleView::ExactName(name@),
            MatchRule::Glob(glob) => RuleView::Glob(glob.pattern@),
        }
    }
}

/// A rule with a `*` in it is a pattern, any other is a name.
pub open spec fn rule_of(text: Seq<char>) -> RuleView {
    if text.contains('*') {
        RuleView::Glob(text)
    } else {
        RuleView::ExactName(text)
    }
}

impl GlobPattern {
    pub fn new(pattern: &str) -> (r: GlobPattern)
        ensures
            r.pattern@ == pattern@,
    {
        GlobPattern { pattern: pattern.to_owned() }
    }
}

impl MatchRule {
    pub fn parse(text: &str) -> (r: MatchRule)
        ensures
            r.deep_view() == rule_of(text@),
    {
        let chars = chars_of(text);
        let mut i: usize = 0;
        while i < chars.len()
            invariant
                i <= chars.len(),
                chars@ == text@,
                forall|j: int| 0 <= j < i ==> text@[j] != '*',
            decreases chars.len() - i,
        {
            if chars[i] == '*' {
                assert(text@[i as int] == '*');
                return MatchRule::Glob(GlobPattern::new(text));
            }
            i = i + 1;
        }
        MatchRule::ExactName(text.to_owned())
    }
}

/// The rules of one group.
#[derive(Debug, Clone, PartialEq, Eq)]
pub struct GroupRules {
    pub group: GroupId,
    pub rules: Vec<MatchRule>,
}

/// What a [`GroupRules`] holds.
pub struct GroupRulesView {
    pub group: GroupId,
    pub rules: Seq<RuleView>,
}

impl DeepView for GroupRules {
    type V = GroupRulesView;

    open spec fn deep_view(&self) -> GroupRulesView {
        GroupRulesView { group: self.group, rules: self.rules.deep_view() }
    }
}

/// The rules of a group at position `i` of its configuration.
pub open spec fn rules_of(group: GroupView, i: int) -> GroupRulesView {
    GroupRulesView {
        group: GroupId(i as u16),
        rules: Seq::new(group.match_rules.len(), |j: int| rule_of(group.match_rules[j])),
    }
}

/// The rules of every group, in the order of the configuration.
pub open spec fn all_rules(groups: Seq<GroupView>) -> Seq<GroupRulesView> {
    Seq::new(groups.len(), |i: int| rules_of(groups[i], i))
}

fn parse_rules(texts: &Vec<String>) -> (r: Vec<MatchRule>)
    ensures
        r.deep_view() == Seq::new(texts@.len(), |j: int| rule_of(texts.deep_view()[j])),
{
    let mut out: Vec<MatchRule> = Vec::new();
    let mut j: usize = 0;
    while j < texts.len()
        invariant
            j <= texts.len(),
            out@.len() == j,
            forall|k: int| 0 <= k < j ==> (#[trigger] out@[k]).deep_view() == rule_of(texts@[k]@),
        decreases texts.len() - j,
    {
        out.push(MatchRule::parse(texts[j].as_str()));
        j = j + 1;
    }
    assert(out.deep_view() =~= Seq::new(texts@.len(), |j: int| rule_of(texts.deep_view()[j])));
    out
}

/// The rules of every group of the configuration, in its order; the position
/// of a group is its id.
pub fn group_rules(snapshot: &ConfigSnapshot) -> (r: Vec<GroupRules>)
    ensures
        r.deep_view() == all_rules(snapshot.deep_view().groups),
{
    let groups: &Vec<GroupConfig> = &snapshot.groups;
    let mut out: Vec<GroupRules> = Vec::new();
    let mut i: usize = 0;
    while i < groups.len()
        invariant
            i <= groups.len(),
            out@.len() == i,
            forall|k: int|
                0 <= k < i ==> (#[trigger] out@[k]).deep_view() == rules_of(
                    groups.deep_view()[k],
                    k,
                ),
        decreases groups.len() - i,
    {
        let rules = parse_rules(&groups[i].match_rules);
        let entry = GroupRules { group: GroupId(i as u16), rules };
        assert(entry.deep_view().rules =~= rules_of(groups.deep_view()[i as int], i as int).rules);
        out.push(entry);
        i = i + 1;
    }
    assert(out.deep_view() =~= all_rules(groups.deep_view()));
    out
}

} // verus!
