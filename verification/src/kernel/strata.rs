//! Whether rules can be evaluated layer by layer.

use crate::kernel::error::RuleError;
use crate::kernel::metadata::RelationId;
use crate::kernel::rules::{rule_views, BodyItemView, Rule, RuleBodyItem, RuleView};
use crate::kernel::states::raw_ids;
use vstd::prelude::*;
use vstd::set_lib::lemma_len_subset;

verus! {

/// Whether a condition of a rule is decided before the rule's head: in its layer or a lower
/// one, and in a lower one where the condition is that a row is absent.
pub open spec fn item_ranked(head: u64, item: BodyItemView, rank: spec_fn(u64) -> nat) -> bool {
    match item {
        BodyItemView::Atom(atom) => if atom.negated {
            rank(atom.relation) < rank(head)
        } else {
            rank(atom.relation) <= rank(head)
        },
        BodyItemView::Guard(_, _, _) => true,
    }
}

/// Whether every condition of a rule is decided before the rule's head.
pub open spec fn rule_ranked(rule: RuleView, rank: spec_fn(u64) -> nat) -> bool {
    forall|k: int|
        0 <= k < rule.body.len() ==> item_ranked(rule.head_relation, #[trigger] rule.body[k], rank)
}

/// Whether relations are put in layers such that every rule only needs what is decided
/// before its head.
pub open spec fn is_ranking(rules: Seq<RuleView>, rank: spec_fn(u64) -> nat) -> bool {
    forall|i: int| 0 <= i < rules.len() ==> rule_ranked(#[trigger] rules[i], rank)
}

/// Whether rules can be evaluated layer by layer.
pub open spec fn stratified(rules: Seq<RuleView>) -> bool {
    exists|rank: spec_fn(u64) -> nat| is_ranking(rules, rank)
}

/// The heads that lie in lower layers.
spec fn lower(heads: Set<u64>, rank: spec_fn(u64) -> nat, relation: u64) -> Set<u64> {
    heads.filter(|head: u64| rank(head) < rank(relation))
}

/// One more than the number of heads that lie in lower layers.
spec fn height(heads: Set<u64>, rank: spec_fn(u64) -> nat, relation: u64) -> nat {
    1 + lower(heads, rank, relation).len()
}

proof fn lemma_height_monotone(
    heads: Set<u64>,
    rank: spec_fn(u64) -> nat,
    low: u64,
    high: u64,
)
    requires
        heads.finite(),
        heads.contains(low),
    ensures
        rank(low) <= rank(high) ==> height(heads, rank, low) <= height(heads, rank, high),
        rank(low) < rank(high) ==> height(heads, rank, low) + 1 <= height(heads, rank, high),
{
    let a = lower(heads, rank, low);
    let b = lower(heads, rank, high);
    assert(a.finite() && b.finite());
    if rank(low) <= rank(high) {
        assert(a.subset_of(b));
        lemma_len_subset(a, b);
    }
    if rank(low) < rank(high) {
        assert(a.insert(low).subset_of(b));
        assert(!a.contains(low));
        lemma_len_subset(a.insert(low), b);
    }
}

proof fn lemma_height_bound(heads: Set<u64>, rank: spec_fn(u64) -> nat, relation: u64)
    requires
        heads.finite(),
        heads.contains(relation),
    ensures
        height(heads, rank, relation) <= heads.len(),
{
    let a = lower(heads, rank, relation);
    assert(a.insert(relation).subset_of(heads));
    assert(!a.contains(relation));
    lemma_len_subset(a.insert(relation), heads);
}

/// The layer of a relation: that of the head, or the lowest for a relation without rules.
spec fn layer(heads: Seq<u64>, levels: Seq<usize>) -> spec_fn(u64) -> nat {
    |relation: u64|
        if heads.contains(relation) {
            levels[heads.index_of(relation)] as nat
        } else {
            0
        }
}

proof fn lemma_layer(heads: Seq<u64>, levels: Seq<usize>, i: int)
    requires
        heads.no_duplicates(),
        0 <= i < heads.len(),
        levels.len() == heads.len(),
    ensures
        layer(heads, levels)(heads[i]) == levels[i],
{
    let j = heads.index_of(heads[i]);
    assert(heads.contains(heads[i]));
    assert(heads[j] == heads[i]);
}

/// Whether no layer is higher than it has to be.
spec fn lowest(rules: Seq<RuleView>, heads: Seq<u64>, levels: Seq<usize>) -> bool {
    forall|rank: spec_fn(u64) -> nat, i: int|
        #![trigger is_ranking(rules, rank), levels[i]]
        is_ranking(rules, rank) && 0 <= i < levels.len() ==> levels[i] <= height(
            heads.to_set(),
            rank,
            heads[i],
        )
}

/// How far layers can still be raised.
spec fn slack(levels: Seq<usize>, top: nat) -> int
    decreases levels.len(),
{
    if levels.len() == 0 {
        0
    } else {
        slack(levels.drop_last(), top) + top - levels.last()
    }
}

proof fn lemma_slack_update(levels: Seq<usize>, top: nat, at: int, level: usize)
    requires
        0 <= at < levels.len(),
    ensures
        slack(levels.update(at, level), top) == slack(levels, top) - (level - levels[at]),
    decreases levels.len(),
{
    let after = levels.update(at, level);
    if at == levels.len() - 1 {
        assert(after.drop_last() =~= levels.drop_last());
    } else {
        assert(after.drop_last() =~= levels.drop_last().update(at, level));
        lemma_slack_update(levels.drop_last(), top, at, level);
    }
}

proof fn lemma_slack_positive(levels: Seq<usize>, top: nat)
    requires
        forall|i: int| 0 <= i < levels.len() ==> (#[trigger] levels[i]) <= top,
    ensures
        slack(levels, top) >= 0,
    decreases levels.len(),
{
    if levels.len() > 0 {
        let less = levels.drop_last();
        assert forall|i: int| 0 <= i < less.len() implies (#[trigger] less[i]) <= top by {
            assert(less[i] == levels[i]);
        }
        lemma_slack_positive(less, top);
    }
}

/// What holds of layers while they are looked for.
spec fn layered(rules: Seq<RuleView>, heads: Seq<u64>, levels: Seq<usize>) -> bool {
    &&& heads.no_duplicates()
    &&& levels.len() == heads.len()
    &&& forall|i: int| 0 <= i < levels.len() ==> 1 <= (#[trigger] levels[i]) <= heads.len()
    &&& lowest(rules, heads, levels)
}

fn place_of(heads: &[RelationId], relation: RelationId) -> (place: Option<usize>)
    ensures
        match place {
            Some(i) => i < heads@.len() && raw_ids(heads@)[i as int] == relation@,
            None => !raw_ids(heads@).contains(relation@),
        },
{
    let mut i: usize = 0;
    while i < heads.len()
        invariant
            i <= heads@.len(),
            forall|j: int| 0 <= j < i ==> (#[trigger] heads@[j])@ != relation@,
        decreases heads@.len() - i,
    {
        if heads[i].same(&relation) {
            return Some(i);
        }
        i = i + 1;
    }
    proof {
        let ids = raw_ids(heads@);
        if ids.contains(relation@) {
            let j = choose|j: int| 0 <= j < ids.len() && ids[j] == relation@;
            assert(heads@[j]@ == relation@);
        }
    }
    None
}

/// Raises the layer of a rule's head above what the rule needs, and says whether it had to.
fn raise(
    rule: &Rule,
    at: usize,
    heads: &[RelationId],
    levels: &mut Vec<usize>,
    Ghost(rules): Ghost<Seq<RuleView>>,
    Ghost(place): Ghost<int>,
) -> (result: Result<bool, RuleError>)
    requires
        0 <= place < rules.len(),
        rules[place] == rule@,
        at < heads@.len(),
        raw_ids(heads@)[at as int] == rule@.head_relation,
        layered(rules, raw_ids(heads@), old(levels)@),
    ensures
        layered(rules, raw_ids(heads@), final(levels)@),
        match result {
            Err(_) => !stratified(rules),
            Ok(raised) => if raised {
                slack(final(levels)@, heads@.len()) < slack(old(levels)@, heads@.len())
            } else {
                final(levels)@ == old(levels)@ && rule_ranked(
                    rule@,
                    layer(raw_ids(heads@), final(levels)@),
                )
            },
        },
{
    let ghost ids = raw_ids(heads@);
    let ghost start = levels@;
    let top: usize = heads.len();
    let mut raised: bool = false;
    let mut k: usize = 0;
    while k < rule.body.len()
        invariant
            k <= rule.body@.len(),
            0 <= place < rules.len(),
            rules[place] == rule@,
            ids == raw_ids(heads@),
            at < heads@.len(),
            ids[at as int] == rule@.head_relation,
            top == heads@.len(),
            layered(rules, ids, levels@),
            if raised {
                slack(levels@, top as nat) < slack(start, top as nat)
            } else {
                levels@ == start && forall|j: int|
                    0 <= j < k ==> item_ranked(
                        rule@.head_relation,
                        #[trigger] rule@.body[j],
                        layer(ids, levels@),
                    )
            },
        decreases rule.body@.len() - k,
    {
        proof {
            assert(rule@.body[k as int] == rule.body@[k as int]@);
            lemma_layer(ids, levels@, at as int);
        }
        match &rule.body[k] {
            RuleBodyItem::Guard(_) => {},
            RuleBodyItem::Atom(atom) => match place_of(heads, atom.relation) {
                None => {},
                Some(q) => {
                    proof {
                        lemma_layer(ids, levels@, q as int);
                        assert forall|rank: spec_fn(u64) -> nat| #[trigger]
                            is_ranking(rules, rank) implies levels@[q as int] + (if atom.negated {
                            1int
                        } else {
                            0int
                        }) <= height(ids.to_set(), rank, ids[at as int]) <= top by {
                            assert(rule_ranked(rules[place], rank));
                            assert(item_ranked(rule@.head_relation, rule@.body[k as int], rank));
                            assert(ids.to_set().contains(ids[q as int]));
                            assert(ids.to_set().contains(ids[at as int]));
                            lemma_height_monotone(ids.to_set(), rank, ids[q as int], ids[at as int]);
                            lemma_height_bound(ids.to_set(), rank, ids[at as int]);
                            ids.unique_seq_to_set();
                            assert(levels@[q as int] <= height(
                                ids.to_set(),
                                rank,
                                ids[q as int],
                            ));
                        }
                    }
                    if atom.negated && levels[q] >= top {
                        return Err(RuleError::Unstratified);
                    }
                    let need: usize = if atom.negated {
                        levels[q] + 1
                    } else {
                        levels[q]
                    };
                    if levels[at] < need {
                        let ghost before = levels@;
                        levels.set(at, need);
                        proof {
                            lemma_slack_update(before, top as nat, at as int, need);
                            assert forall|rank: spec_fn(u64) -> nat, i: int|
                                #![trigger is_ranking(rules, rank), levels@[i]]
                                is_ranking(rules, rank) && 0 <= i
                                    < levels@.len() implies levels@[i] <= height(
                                ids.to_set(),
                                rank,
                                ids[i],
                            ) by {
                                if i != at {
                                    assert(before[i] == levels@[i]);
                                }
                            }
                        }
                        raised = true;
                    }
                },
            },
        }
        k = k + 1;
    }
    Ok(raised)
}

/// The relations that are heads of rules, each once.
fn heads_of(rules: &[Rule]) -> (heads: Vec<RelationId>)
    ensures
        raw_ids(heads@).no_duplicates(),
        forall|i: int|
            0 <= i < rules@.len() ==> raw_ids(heads@).contains(
                (#[trigger] rules@[i])@.head_relation,
            ),
{
    let mut heads: Vec<RelationId> = Vec::new();
    let mut i: usize = 0;
    while i < rules.len()
        invariant
            i <= rules@.len(),
            raw_ids(heads@).no_duplicates(),
            forall|j: int|
                0 <= j < i ==> raw_ids(heads@).contains((#[trigger] rules@[j])@.head_relation),
        decreases rules@.len() - i,
    {
        let head = rules[i].head_relation;
        let ghost before = raw_ids(heads@);
        match place_of(&heads, head) {
            Some(_) => {
                assert(before.contains(rules@[i as int]@.head_relation));
            },
            None => {
                heads.push(head);
                proof {
                    let after = raw_ids(heads@);
                    assert(after =~= before.push(head@));
                    assert(after[before.len() as int] == head@);
                    assert forall|j: int| 0 <= j < i + 1 implies after.contains(
                        (#[trigger] rules@[j])@.head_relation,
                    ) by {
                        if j < i {
                            assert(before.contains(rules@[j]@.head_relation));
                            let p = choose|p: int|
                                0 <= p < before.len() && before[p] == rules@[j]@.head_relation;
                            assert(after[p] == rules@[j]@.head_relation);
                        }
                    }
                }
            },
        }
        i = i + 1;
    }
    heads
}

/// Rules that are evaluated together.
pub struct RuleSet {
    rules: Vec<Rule>,
}

impl View for RuleSet {
    type V = Seq<RuleView>;

    closed spec fn view(&self) -> Seq<RuleView> {
        rule_views(self.rules@)
    }
}

impl RuleSet {
    /// The given rules.
    pub fn new(rules: Vec<Rule>) -> (set: RuleSet)
        ensures
            set@ == rule_views(rules@),
    {
        RuleSet { rules }
    }

    /// Whether the rules can be evaluated layer by layer.
    pub fn validate_stratified(&self) -> (result: Result<(), RuleError>)
        ensures
            match result {
                Ok(()) => stratified(self@),
                Err(error) => error == RuleError::Unstratified && !stratified(self@),
            },
    {
        let ghost rules = self@;
        let heads = heads_of(&self.rules);
        let ghost ids = raw_ids(heads@);
        let top: usize = heads.len();
        let mut levels: Vec<usize> = Vec::new();
        let mut n: usize = 0;
        while n < top
            invariant
                n <= top == heads@.len(),
                levels@.len() == n,
                forall|i: int| 0 <= i < n ==> (#[trigger] levels@[i]) == 1,
            decreases top - n,
        {
            levels.push(1);
            n = n + 1;
        }
        let mut changed: bool = true;
        proof {
            lemma_slack_positive(levels@, top as nat);
        }
        while changed
            invariant
                rules == rule_views(self.rules@),
                ids == raw_ids(heads@),
                top == heads@.len(),
                layered(rules, ids, levels@),
                slack(levels@, top as nat) >= 0,
                forall|i: int|
                    0 <= i < self.rules@.len() ==> ids.contains(
                        (#[trigger] self.rules@[i])@.head_relation,
                    ),
                !changed ==> is_ranking(rules, layer(ids, levels@)),
            decreases
                    slack(levels@, top as nat),
                    (if changed {
                        1int
                    } else {
                        0int
                    }),
        {
            let ghost start = levels@;
            changed = false;
            let mut i: usize = 0;
            while i < self.rules.len()
                invariant
                    i <= self.rules@.len(),
                    rules == rule_views(self.rules@),
                    ids == raw_ids(heads@),
                    top == heads@.len(),
                    layered(rules, ids, levels@),
                    forall|j: int|
                        0 <= j < self.rules@.len() ==> ids.contains(
                            (#[trigger] self.rules@[j])@.head_relation,
                        ),
                    slack(start, top as nat) >= 0,
                    if changed {
                        slack(levels@, top as nat) < slack(start, top as nat)
                    } else {
                        levels@ == start && forall|j: int|
                            0 <= j < i ==> rule_ranked(#[trigger] rules[j], layer(ids, levels@))
                    },
                decreases self.rules@.len() - i,
            {
                assert(rules[i as int] == self.rules@[i as int]@);
                match place_of(&heads, self.rules[i].head_relation) {
                    None => {},
                    Some(at) => {
                        match raise(
                            &self.rules[i],
                            at,
                            &heads,
                            &mut levels,
                            Ghost(rules),
                            Ghost(i as int),
                        ) {
                            Err(error) => {
                                return Err(error);
                            },
                            Ok(raised) => {
                                if raised {
                                    changed = true;
                                }
                            },
                        }
                    },
                }
                i = i + 1;
            }
            proof {
                lemma_slack_positive(levels@, top as nat);
            }
        }
        Ok(())
    }
}

/// Fewer rules are stratified where more rules are.
pub proof fn law_fewer_rules_stay_stratified(more: Seq<RuleView>, fewer: Seq<RuleView>)
    requires
        stratified(more),
        forall|i: int| 0 <= i < fewer.len() ==> more.contains(#[trigger] fewer[i]),
    ensures
        stratified(fewer),
{
    let rank = choose|rank: spec_fn(u64) -> nat| is_ranking(more, rank);
    assert forall|i: int| 0 <= i < fewer.len() implies rule_ranked(#[trigger] fewer[i], rank) by {
        let j = choose|j: int| 0 <= j < more.len() && more[j] == fewer[i];
        assert(rule_ranked(more[j], rank));
    }
    assert(is_ranking(fewer, rank));
}

/// Rules without conditions on the absence of rows are always stratified.
pub proof fn law_rules_without_negation_are_stratified(rules: Seq<RuleView>)
    requires
        forall|i: int, k: int|
            0 <= i < rules.len() && 0 <= k < rules[i].body.len() ==> ((
            #[trigger] rules[i].body[k]) matches BodyItemView::Atom(atom) ==> !atom.negated),
    ensures
        stratified(rules),
{
    let rank = |relation: u64| 0nat;
    assert(is_ranking(rules, rank));
}

/// A rule whose head is one of its own conditions on the absence of rows is never stratified.
pub proof fn law_own_absence_is_not_stratified(rules: Seq<RuleView>, i: int, k: int)
    requires
        0 <= i < rules.len(),
        0 <= k < rules[i].body.len(),
        rules[i].body[k] matches BodyItemView::Atom(atom) && atom.negated && atom.relation
            == rules[i].head_relation,
    ensures
        !stratified(rules),
{
    if stratified(rules) {
        let rank = choose|rank: spec_fn(u64) -> nat| is_ranking(rules, rank);
        assert(rule_ranked(rules[i], rank));
        assert(item_ranked(rules[i].head_relation, rules[i].body[k], rank));
    }
}

} // verus!
