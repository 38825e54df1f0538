//! Rules that derive rows from other rows.

use crate::kernel::metadata::RelationId;
use crate::value::{copy_value, same_value, Identity, Symbol, Value, ValueView};
use vstd::prelude::*;

verus! {

/// A variable or a value.
#[derive(Debug, PartialEq)]
pub enum Term {
    Var(Symbol),
    Value(Value),
}

/// A term, apart from how it is stored.
pub enum TermView {
    Var(Seq<char>),
    Value(ValueView),
}

impl View for Term {
    type V = TermView;

    open spec fn view(&self) -> TermView {
        match self {
            Term::Var(name) => TermView::Var(name@),
            Term::Value(value) => TermView::Value(value@),
        }
    }
}

/// The views of terms.
pub open spec fn term_views(terms: Seq<Term>) -> Seq<TermView> {
    terms.map_values(|term: Term| term@)
}

impl Term {
    /// A copy of the term.
    pub fn copy(&self) -> (copy: Term)
        ensures
            copy@ == self@,
    {
        match self {
            Term::Var(name) => Term::Var(name.clone()),
            Term::Value(value) => Term::Value(copy_value(value)),
        }
    }

    /// Whether two terms are the same.
    pub fn same(&self, other: &Term) -> (result: bool)
        ensures
            result == (self@ == other@),
    {
        match (self, other) {
            (Term::Var(a), Term::Var(b)) => a.same(b),
            (Term::Value(a), Term::Value(b)) => same_value(a, b),
            _ => false,
        }
    }
}

/// A copy of terms.
pub fn copy_terms(terms: &[Term]) -> (copy: Vec<Term>)
    ensures
        term_views(copy@) == term_views(terms@),
        copy@.len() == terms@.len(),
{
    let mut copy: Vec<Term> = Vec::new();
    let mut i: usize = 0;
    while i < terms.len()
        invariant
            i <= terms@.len(),
            copy@.len() == i,
            forall|j: int| 0 <= j < i ==> (#[trigger] copy@[j])@ == terms@[j]@,
        decreases terms@.len() - i,
    {
        copy.push(terms[i].copy());
        i = i + 1;
    }
    assert(term_views(copy@) =~= term_views(terms@));
    copy
}

/// Whether two lists of terms are the same.
pub fn same_terms(a: &[Term], b: &[Term]) -> (result: bool)
    ensures
        result == (term_views(a@) == term_views(b@)),
{
    if a.len() != b.len() {
        assert(term_views(a@).len() != term_views(b@).len());
        return false;
    }
    let mut i: usize = 0;
    while i < a.len()
        invariant
            a@.len() == b@.len(),
            i <= a@.len(),
            forall|j: int| 0 <= j < i ==> term_views(a@)[j] == #[trigger] term_views(b@)[j],
        decreases a@.len() - i,
    {
        assert(term_views(a@)[i as int] == a@[i as int]@);
        assert(term_views(b@)[i as int] == b@[i as int]@);
        if !a[i].same(&b[i]) {
            return false;
        }
        i = i + 1;
    }
    assert(term_views(a@) =~= term_views(b@));
    true
}

/// A relation with terms for its columns.
#[derive(Debug, PartialEq)]
pub struct Atom {
    pub relation: RelationId,
    pub terms: Vec<Term>,
    pub negated: bool,
}

/// An atom, apart from how it is stored.
pub struct AtomView {
    pub relation: u64,
    pub terms: Seq<TermView>,
    pub negated: bool,
}

impl View for Atom {
    type V = AtomView;

    open spec fn view(&self) -> AtomView {
        AtomView {
            relation: self.relation@,
            terms: term_views(self.terms@),
            negated: self.negated,
        }
    }
}

impl Atom {
    /// An atom that holds where a row is there.
    pub fn positive(relation: RelationId, terms: Vec<Term>) -> (atom: Atom)
        ensures
            atom@ == (AtomView {
                relation: relation@,
                terms: term_views(terms@),
                negated: false,
            }),
    {
        Atom { relation, terms, negated: false }
    }

    /// An atom that holds where no row is there.
    pub fn negated(relation: RelationId, terms: Vec<Term>) -> (atom: Atom)
        ensures
            atom@ == (AtomView { relation: relation@, terms: term_views(terms@), negated: true }),
    {
        Atom { relation, terms, negated: true }
    }
}

/// How a guard compares.
#[derive(Clone, Copy, Debug, PartialEq, Eq, Structural)]
pub enum RuleComparisonOp {
    Eq,
    Ne,
    Lt,
    Le,
    Gt,
    Ge,
}

/// A comparison of two terms.
#[derive(Debug, PartialEq)]
pub struct RuleGuard {
    pub op: RuleComparisonOp,
    pub left: Term,
    pub right: Term,
}

/// A condition of a rule.
#[derive(Debug, PartialEq)]
pub enum RuleBodyItem {
    Atom(Atom),
    Guard(RuleGuard),
}

/// A condition, apart from how it is stored.
pub enum BodyItemView {
    Atom(AtomView),
    Guard(RuleComparisonOp, TermView, TermView),
}

impl View for RuleBodyItem {
    type V = BodyItemView;

    open spec fn view(&self) -> BodyItemView {
        match self {
            RuleBodyItem::Atom(atom) => BodyItemView::Atom(atom@),
            RuleBodyItem::Guard(guard) => BodyItemView::Guard(
                guard.op,
                guard.left@,
                guard.right@,
            ),
        }
    }
}

/// The views of conditions.
pub open spec fn body_views(body: Seq<RuleBodyItem>) -> Seq<BodyItemView> {
    body.map_values(|item: RuleBodyItem| item@)
}

impl RuleBodyItem {
    /// A copy of the condition.
    pub fn copy(&self) -> (copy: RuleBodyItem)
        ensures
            copy@ == self@,
    {
        match self {
            RuleBodyItem::Atom(atom) => RuleBodyItem::Atom(
                Atom {
                    relation: atom.relation,
                    terms: copy_terms(&atom.terms),
                    negated: atom.negated,
                },
            ),
            RuleBodyItem::Guard(guard) => RuleBodyItem::Guard(
                RuleGuard { op: guard.op, left: guard.left.copy(), right: guard.right.copy() },
            ),
        }
    }

    /// Whether two conditions are the same.
    pub fn same(&self, other: &RuleBodyItem) -> (result: bool)
        ensures
            result == (self@ == other@),
    {
        match (self, other) {
            (RuleBodyItem::Atom(a), RuleBodyItem::Atom(b)) => a.relation.same(&b.relation)
                && a.negated == b.negated && same_terms(&a.terms, &b.terms),
            (RuleBodyItem::Guard(a), RuleBodyItem::Guard(b)) => a.op == b.op && a.left.same(&b.left)
                && a.right.same(&b.right),
            _ => false,
        }
    }
}

/// A rule: rows of the head follow where the body holds.
#[derive(Debug, PartialEq)]
pub struct Rule {
    pub head_relation: RelationId,
    pub head_terms: Vec<Term>,
    pub body: Vec<RuleBodyItem>,
}

/// A rule, apart from how it is stored.
pub struct RuleView {
    pub head_relation: u64,
    pub head_terms: Seq<TermView>,
    pub body: Seq<BodyItemView>,
}

impl View for Rule {
    type V = RuleView;

    open spec fn view(&self) -> RuleView {
        RuleView {
            head_relation: self.head_relation@,
            head_terms: term_views(self.head_terms@),
            body: body_views(self.body@),
        }
    }
}

impl Rule {
    /// A rule.
    pub fn new(head_relation: RelationId, head_terms: Vec<Term>, body: Vec<RuleBodyItem>) -> (rule:
        Rule)
        ensures
            rule@ == (RuleView {
                head_relation: head_relation@,
                head_terms: term_views(head_terms@),
                body: body_views(body@),
            }),
    {
        Rule { head_relation, head_terms, body }
    }

    /// A copy of the rule.
    pub fn copy(&self) -> (copy: Rule)
        ensures
            copy@ == self@,
    {
        let mut body: Vec<RuleBodyItem> = Vec::new();
        let mut i: usize = 0;
        while i < self.body.len()
            invariant
                i <= self.body@.len(),
                body@.len() == i,
                forall|j: int| 0 <= j < i ==> (#[trigger] body@[j])@ == self.body@[j]@,
            decreases self.body@.len() - i,
        {
            body.push(self.body[i].copy());
            i = i + 1;
        }
        assert(body_views(body@) =~= body_views(self.body@));
        Rule { head_relation: self.head_relation, head_terms: copy_terms(&self.head_terms), body }
    }

    /// Whether two rules are the same.
    pub fn same(&self, other: &Rule) -> (result: bool)
        ensures
            result == (self@ == other@),
    {
        if !self.head_relation.same(&other.head_relation) || !same_terms(
            &self.head_terms,
            &other.head_terms,
        ) {
            return false;
        }
        if self.body.len() != other.body.len() {
            assert(body_views(self.body@).len() != body_views(other.body@).len());
            return false;
        }
        let mut i: usize = 0;
        while i < self.body.len()
            invariant
                self.body@.len() == other.body@.len(),
                i <= self.body@.len(),
                forall|j: int|
                    0 <= j < i ==> body_views(self.body@)[j] == #[trigger] body_views(
                        other.body@,
                    )[j],
            decreases self.body@.len() - i,
        {
            assert(body_views(self.body@)[i as int] == self.body@[i as int]@);
            assert(body_views(other.body@)[i as int] == other.body@[i as int]@);
            if !self.body[i].same(&other.body[i]) {
                return false;
            }
            i = i + 1;
        }
        assert(body_views(self.body@) =~= body_views(other.body@));
        true
    }
}

/// A rule that is installed.
#[derive(Debug, PartialEq)]
pub struct RuleDefinition {
    id: Identity,
    rule: Rule,
    source: String,
    active: bool,
}

/// A rule that is installed, apart from how it is stored.
pub struct DefinitionView {
    pub id: u64,
    pub rule: RuleView,
    pub source: Seq<char>,
    pub active: bool,
}

impl View for RuleDefinition {
    type V = DefinitionView;

    closed spec fn view(&self) -> DefinitionView {
        DefinitionView {
            id: self.id@,
            rule: self.rule@,
            source: self.source@,
            active: self.active,
        }
    }
}

/// The views of installed rules.
pub open spec fn definition_views(rules: Seq<RuleDefinition>) -> Seq<DefinitionView> {
    rules.map_values(|rule: RuleDefinition| rule@)
}

impl RuleDefinition {
    /// An installed rule, which is active.
    pub fn new(id: Identity, rule: Rule, source: String) -> (definition: RuleDefinition)
        ensures
            definition@ == (DefinitionView {
                id: id@,
                rule: rule@,
                source: source@,
                active: true,
            }),
    {
        RuleDefinition { id, rule, source, active: true }
    }

    /// The identity of the rule.
    pub fn id(&self) -> (id: Identity)
        ensures
            id@ == self@.id,
    {
        self.id
    }

    /// The rule.
    pub fn rule(&self) -> (rule: &Rule)
        ensures
            rule@ == self@.rule,
    {
        &self.rule
    }

    /// The text of the rule.
    pub fn source(&self) -> (source: &str)
        ensures
            source@ == self@.source,
    {
        self.source.as_str()
    }

    /// Whether the text of another rule is the same.
    pub fn same_source(&self, other: &RuleDefinition) -> (result: bool)
        ensures
            result == (self@.source == other@.source),
    {
        self.source == other.source
    }

    /// Whether the rule is active.
    pub fn active(&self) -> (active: bool)
        ensures
            active == self@.active,
    {
        self.active
    }

    /// Makes the rule inactive.
    pub fn deactivate(&mut self)
        ensures
            final(self)@ == (DefinitionView { active: false, ..old(self)@ }),
    {
        self.active = false;
    }
}

impl Clone for RuleDefinition {
    fn clone(&self) -> (copy: RuleDefinition)
        ensures
            copy@ == self@,
    {
        RuleDefinition {
            id: self.id,
            rule: self.rule.copy(),
            source: self.source.clone(),
            active: self.active,
        }
    }
}

/// A copy of installed rules.
pub fn copy_definitions(rules: &[RuleDefinition]) -> (copy: Vec<RuleDefinition>)
    ensures
        definition_views(copy@) == definition_views(rules@),
        copy@.len() == rules@.len(),
{
    let mut copy: Vec<RuleDefinition> = Vec::new();
    let mut i: usize = 0;
    while i < rules.len()
        invariant
            i <= rules@.len(),
            copy@.len() == i,
            forall|j: int| 0 <= j < i ==> (#[trigger] copy@[j])@ == rules@[j]@,
        decreases rules@.len() - i,
    {
        copy.push(rules[i].clone());
        i = i + 1;
    }
    assert(definition_views(copy@) =~= definition_views(rules@));
    copy
}

/// Whether some active rule has the relation as its head.
pub open spec fn derives(rules: Seq<DefinitionView>, relation: u64) -> bool {
    exists|i: int|
        0 <= i < rules.len() && (#[trigger] rules[i]).active && rules[i].rule.head_relation
            == relation
}

/// Whether some active rule has the relation as its head.
pub fn relation_has_active_rule_head(rules: &[RuleDefinition], relation: RelationId) -> (result:
    bool)
    ensures
        result == derives(definition_views(rules@), relation@),
{
    let ghost all = definition_views(rules@);
    let mut i: usize = 0;
    while i < rules.len()
        invariant
            i <= rules@.len(),
            all == definition_views(rules@),
            forall|j: int|
                0 <= j < i ==> !((#[trigger] all[j]).active && all[j].rule.head_relation
                    == relation@),
        decreases rules@.len() - i,
    {
        assert(all[i as int] == rules@[i as int]@);
        if rules[i].active() && rules[i].rule().head_relation.same(&relation) {
            return true;
        }
        i = i + 1;
    }
    false
}

/// The rules that are active, in order.
pub open spec fn active_rule_views(rules: Seq<DefinitionView>) -> Seq<RuleView> {
    rules.filter(|rule: DefinitionView| rule.active).map_values(|rule: DefinitionView| rule.rule)
}

/// The views of rules.
pub open spec fn rule_views(rules: Seq<Rule>) -> Seq<RuleView> {
    rules.map_values(|rule: Rule| rule@)
}

/// The rules that are active, in order.
pub fn active_rules(rules: &[RuleDefinition]) -> (active: Vec<Rule>)
    ensures
        rule_views(active@) == active_rule_views(definition_views(rules@)),
{
    let ghost all = definition_views(rules@);
    let mut active: Vec<Rule> = Vec::new();
    let mut i: usize = 0;
    proof {
        reveal(Seq::filter);
        assert(all.take(0) =~= Seq::empty());
        assert(rule_views(active@) =~= active_rule_views(all.take(0)));
    }
    while i < rules.len()
        invariant
            i <= rules@.len(),
            all == definition_views(rules@),
            rule_views(active@) == active_rule_views(all.take(i as int)),
        decreases rules@.len() - i,
    {
        let ghost before = active@;
        proof {
            reveal(Seq::filter);
            assert(all.take(i + 1).drop_last() =~= all.take(i as int));
            assert(all.take(i + 1).last() == rules@[i as int]@);
        }
        if rules[i].active() {
            active.push(rules[i].rule().copy());
            assert(rule_views(active@) =~= rule_views(before).push(rules@[i as int]@.rule));
        }
        i = i + 1;
        assert(rule_views(active@) =~= active_rule_views(all.take(i as int)));
    }
    assert(all.take(i as int) =~= all);
    active
}

} // verus!
