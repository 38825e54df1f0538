//! Checking, naming and disabling rules.

use crate::kernel::error::{FaultView, KernelError, RuleError};
use crate::kernel::metadata::RelationId;
use crate::kernel::relation::RelationView;
use crate::kernel::rules::{active_rule_views, active_rules, body_views, definition_views,
    BodyItemView, DefinitionView, Rule, RuleBodyItem, RuleDefinition, RuleView, Term};
use crate::kernel::states::RelationStates;
use crate::kernel::strata::{stratified, RuleSet};
use crate::value::{Identity, IDENTITY_MAX};
use vstd::prelude::*;
use vstd::set_lib::lemma_len_subset;

verus! {

/// Where the identities of installed rules start.
pub const GENERATED_RULE_ID_START: u64 = 0x00d0_0000_0000_0000;

/// What is wrong with a relation that a rule names, if anything is.
pub open spec fn atom_fault(
    relations: Map<u64, RelationView>,
    relation: u64,
    terms: nat,
) -> Option<FaultView> {
    if !relations.contains_key(relation) {
        Some(FaultView::UnknownRelation(relation))
    } else if relations[relation].metadata.arity != terms {
        Some(
            FaultView::ArityMismatch(relation, relations[relation].metadata.arity, terms),
        )
    } else {
        None
    }
}

/// What is wrong with the first condition of a rule that names a relation wrongly.
pub open spec fn body_fault(
    relations: Map<u64, RelationView>,
    body: Seq<BodyItemView>,
) -> Option<FaultView>
    decreases body.len(),
{
    if body.len() == 0 {
        None
    } else {
        match body_fault(relations, body.drop_last()) {
            Some(fault) => Some(fault),
            None => match body.last() {
                BodyItemView::Atom(atom) => atom_fault(relations, atom.relation, atom.terms.len()),
                BodyItemView::Guard(_, _, _) => None,
            },
        }
    }
}

/// What is wrong with the relations that a rule names, if anything is.
pub open spec fn rule_fault(relations: Map<u64, RelationView>, rule: RuleView) -> Option<FaultView> {
    match atom_fault(relations, rule.head_relation, rule.head_terms.len()) {
        Some(fault) => Some(fault),
        None => body_fault(relations, rule.body),
    }
}

proof fn lemma_body_early(relations: Map<u64, RelationView>, body: Seq<BodyItemView>, n: int)
    requires
        0 <= n <= body.len(),
        body_fault(relations, body.take(n)) is Some,
    ensures
        body_fault(relations, body) == body_fault(relations, body.take(n)),
    decreases body.len(),
{
    if n == body.len() {
        assert(body.take(n) =~= body);
    } else {
        assert(body.drop_last().take(n) =~= body.take(n));
        lemma_body_early(relations, body.drop_last(), n);
    }
}

/// Whether a relation that a rule names is there and has as many columns as the rule says.
pub fn validate_rule_atom(
    relations: &RelationStates,
    relation: RelationId,
    terms: &[Term],
) -> (result: Result<(), KernelError>)
    ensures
        match result {
            Ok(()) => atom_fault(relations@, relation@, terms@.len()) is None,
            Err(error) => atom_fault(relations@, relation@, terms@.len()) == Some(error@),
        },
{
    match relations.get(relation) {
        None => Err(KernelError::UnknownRelation(relation)),
        Some(state) => {
            let expected: u16 = state.metadata().arity();
            if expected as usize != terms.len() {
                return Err(
                    KernelError::ArityMismatch { relation, expected, actual: terms.len() },
                );
            }
            Ok(())
        },
    }
}

/// Whether the relations that a rule names are there and have as many columns as it says.
pub fn validate_rule_against_relations(relations: &RelationStates, rule: &Rule) -> (result: Result<
    (),
    KernelError,
>)
    ensures
        match result {
            Ok(()) => rule_fault(relations@, rule@) is None,
            Err(error) => rule_fault(relations@, rule@) == Some(error@),
        },
{
    match validate_rule_atom(relations, rule.head_relation, &rule.head_terms) {
        Err(error) => {
            return Err(error);
        },
        Ok(()) => {},
    }
    let ghost all = rule@.body;
    let mut i: usize = 0;
    assert(all.take(0) =~= Seq::empty());
    while i < rule.body.len()
        invariant
            i <= rule.body@.len(),
            all == rule@.body,
            all == body_views(rule.body@),
            atom_fault(relations@, rule@.head_relation, rule@.head_terms.len()) is None,
            body_fault(relations@, all.take(i as int)) is None,
        decreases rule.body@.len() - i,
    {
        proof {
            assert(all.take(i + 1).drop_last() =~= all.take(i as int));
            assert(all.take(i + 1).last() == rule.body@[i as int]@);
            if body_fault(relations@, all.take(i + 1)) is Some {
                lemma_body_early(relations@, all, i + 1);
            }
        }
        match &rule.body[i] {
            RuleBodyItem::Guard(_) => {},
            RuleBodyItem::Atom(atom) => match validate_rule_atom(
                relations,
                atom.relation,
                &atom.terms,
            ) {
                Err(error) => {
                    return Err(error);
                },
                Ok(()) => {},
            },
        }
        i = i + 1;
    }
    assert(all.take(i as int) =~= all);
    Ok(())
}

/// Whether the relations that an installed rule names are there and have as many columns as
/// it says.
pub fn validate_rule_definition_against_relations(
    relations: &RelationStates,
    definition: &RuleDefinition,
) -> (result: Result<(), KernelError>)
    ensures
        match result {
            Ok(()) => rule_fault(relations@, definition@.rule) is None,
            Err(error) => rule_fault(relations@, definition@.rule) == Some(error@),
        },
{
    validate_rule_against_relations(relations, definition.rule())
}

/// Whether installed rules can be evaluated together.
pub fn validate_installed(rules: &[RuleDefinition]) -> (result: Result<(), KernelError>)
    ensures
        match result {
            Ok(()) => stratified(active_rule_views(definition_views(rules@))),
            Err(error) => error@ == FaultView::Rule(RuleError::Unstratified) && !stratified(
                active_rule_views(definition_views(rules@)),
            ),
        },
{
    match RuleSet::new(active_rules(rules)).validate_stratified() {
        Err(error) => Err(KernelError::Rule(error)),
        Ok(()) => Ok(()),
    }
}

/// The identity that is tried for a new rule after `k` others.
pub open spec fn tried_rule_id(count: nat, k: nat) -> int {
    (GENERATED_RULE_ID_START + count + k) % (IDENTITY_MAX + 1)
}

/// Whether an identity belongs to a rule.
pub open spec fn is_rule_id(rules: Seq<DefinitionView>, id: int) -> bool {
    exists|i: int| 0 <= i < rules.len() && (#[trigger] rules[i]).id == id
}

/// Whether an identity is the first of those that are tried that no rule has.
pub open spec fn first_free_rule_id(rules: Seq<DefinitionView>, id: u64) -> bool {
    exists|k: nat| #[trigger]
        tried_rule_id(rules.len(), k) == id && !is_rule_id(rules, id as int) && forall|j: nat|
            j < k ==> is_rule_id(rules, #[trigger] tried_rule_id(rules.len(), j))
}

proof fn lemma_free_rule_id_from(rules: Seq<DefinitionView>, k: nat, taken: Set<u64>) -> (id: u64)
    requires
        rules.len() <= IDENTITY_MAX,
        k <= rules.len(),
        taken.finite(),
        taken.len() == k,
        taken.subset_of(rules.map_values(|rule: DefinitionView| rule.id).to_set()),
        forall|j: nat| j < k ==> is_rule_id(rules, #[trigger] tried_rule_id(rules.len(), j)),
        forall|id: u64| #[trigger]
            taken.contains(id) ==> exists|j: nat|
                j < k && #[trigger] tried_rule_id(rules.len(), j) == id,
    ensures
        first_free_rule_id(rules, id),
    decreases rules.len() + 1 - k,
{
    let n = rules.len();
    let ids = rules.map_values(|rule: DefinitionView| rule.id);
    let raw = tried_rule_id(n, k) as u64;
    if !is_rule_id(rules, raw as int) {
        assert(tried_rule_id(n, k) == raw);
        raw
    } else {
        ids.lemma_cardinality_of_set();
        let i = choose|i: int| 0 <= i < rules.len() && (#[trigger] rules[i]).id == raw;
        assert(ids[i] == raw);
        assert(ids.to_set().contains(raw));
        if taken.contains(raw) {
            let j = choose|j: nat| j < k && #[trigger] tried_rule_id(n, j) == raw;
            assert(tried_rule_id(n, j) != tried_rule_id(n, k));
        }
        let more = taken.insert(raw);
        assert(more.subset_of(ids.to_set()));
        lemma_len_subset(more, ids.to_set());
        assert forall|id: u64| #[trigger] more.contains(id) implies exists|j: nat|
            j < k + 1 && #[trigger] tried_rule_id(n, j) == id by {
            if id == raw {
                assert(tried_rule_id(n, k) == id);
            } else {
                let j = choose|j: nat| j < k && #[trigger] tried_rule_id(n, j) == id;
                assert(tried_rule_id(n, j) == id);
            }
        }
        assert forall|j: nat| j < k + 1 implies is_rule_id(
            rules,
            #[trigger] tried_rule_id(n, j),
        ) by {
            if j == k {
                assert(is_rule_id(rules, raw as int));
            }
        }
        lemma_free_rule_id_from(rules, k + 1, more)
    }
}

/// There is an identity for the next rule.
pub proof fn lemma_free_rule_id(rules: Seq<DefinitionView>) -> (id: u64)
    requires
        rules.len() <= IDENTITY_MAX,
    ensures
        first_free_rule_id(rules, id),
{
    lemma_free_rule_id_from(rules, 0, Set::empty())
}

fn has_rule_id(rules: &[RuleDefinition], id: Identity) -> (result: bool)
    ensures
        result == is_rule_id(definition_views(rules@), id@ as int),
{
    let ghost all = definition_views(rules@);
    let mut i: usize = 0;
    while i < rules.len()
        invariant
            i <= rules@.len(),
            all == definition_views(rules@),
            forall|j: int| 0 <= j < i ==> (#[trigger] all[j]).id != id@,
        decreases rules@.len() - i,
    {
        assert(all[i as int] == rules@[i as int]@);
        if rules[i].id().same(&id) {
            return true;
        }
        i = i + 1;
    }
    false
}

/// The identity for the next rule.
pub fn next_rule_id(rules: &[RuleDefinition]) -> (id: Identity)
    requires
        rules@.len() <= IDENTITY_MAX,
    ensures
        first_free_rule_id(definition_views(rules@), id@),
{
    let ghost all = definition_views(rules@);
    let ghost ids = all.map_values(|rule: DefinitionView| rule.id);
    let count: u64 = rules.len() as u64;
    let sum: u64 = GENERATED_RULE_ID_START + count;
    let mut raw: u64 = if sum > IDENTITY_MAX {
        sum - IDENTITY_MAX - 1
    } else {
        sum
    };
    let ghost mut k: nat = 0;
    let ghost mut taken = Set::<u64>::empty();
    proof {
        ids.lemma_cardinality_of_set();
    }
    loop
        invariant
            all == definition_views(rules@),
            ids == all.map_values(|rule: DefinitionView| rule.id),
            ids.to_set().len() <= all.len() <= IDENTITY_MAX,
            all.len() == rules@.len(),
            raw <= IDENTITY_MAX,
            raw == tried_rule_id(all.len(), k),
            taken.finite(),
            taken.len() == k,
            taken.subset_of(ids.to_set()),
            k <= all.len(),
            forall|j: nat| j < k ==> is_rule_id(all, #[trigger] tried_rule_id(all.len(), j)),
            forall|id: u64| #[trigger]
                taken.contains(id) ==> exists|j: nat|
                    j < k && #[trigger] tried_rule_id(all.len(), j) == id,
        decreases all.len() + 1 - k,
    {
        match Identity::new(raw) {
            None => {},
            Some(id) => {
                if !has_rule_id(rules, id) {
                    assert(tried_rule_id(all.len(), k) == id@);
                    return id;
                }
            },
        }
        proof {
            let i = choose|i: int| 0 <= i < all.len() && (#[trigger] all[i]).id == raw;
            assert(ids[i] == raw);
            assert(ids.to_set().contains(raw));
            if taken.contains(raw) {
                let j = choose|j: nat| j < k && #[trigger] tried_rule_id(all.len(), j) == raw;
                assert(tried_rule_id(all.len(), j) != tried_rule_id(all.len(), k));
            }
            let more = taken.insert(raw);
            assert(more.subset_of(ids.to_set()));
            lemma_len_subset(more, ids.to_set());
            assert forall|id: u64| #[trigger] more.contains(id) implies exists|j: nat|
                j < k + 1 && #[trigger] tried_rule_id(all.len(), j) == id by {
                if id == raw {
                    assert(tried_rule_id(all.len(), k) == id);
                } else {
                    let j = choose|j: nat| j < k && #[trigger] tried_rule_id(all.len(), j) == id;
                    assert(tried_rule_id(all.len(), j) == id);
                }
            }
            assert forall|j: nat| j < k + 1 implies is_rule_id(
                all,
                #[trigger] tried_rule_id(all.len(), j),
            ) by {
                if j == k {
                    assert(is_rule_id(all, raw as int));
                }
            }
            taken = more;
            k = k + 1;
        }
        raw = if raw == IDENTITY_MAX {
            0
        } else {
            raw + 1
        };
    }
}

/// Where the first rule with an identity stands.
pub open spec fn rule_place(rules: Seq<DefinitionView>, id: u64) -> Option<int>
    decreases rules.len(),
{
    if rules.len() == 0 {
        None
    } else {
        match rule_place(rules.drop_last(), id) {
            Some(i) => Some(i),
            None => if rules.last().id == id {
                Some(rules.len() - 1)
            } else {
                None
            },
        }
    }
}

/// The rules once one of them is disabled.
pub open spec fn disabling(rules: Seq<DefinitionView>, id: u64) -> Result<
    Seq<DefinitionView>,
    FaultView,
> {
    match rule_place(rules, id) {
        None => Err(FaultView::UnknownRule(id)),
        Some(i) => Ok(rules.update(i, (DefinitionView { active: false, ..rules[i] }))),
    }
}

proof fn lemma_place_early(rules: Seq<DefinitionView>, id: u64, n: int)
    requires
        0 <= n <= rules.len(),
        rule_place(rules.take(n), id) is Some,
    ensures
        rule_place(rules, id) == rule_place(rules.take(n), id),
    decreases rules.len(),
{
    if n == rules.len() {
        assert(rules.take(n) =~= rules);
    } else {
        assert(rules.drop_last().take(n) =~= rules.take(n));
        lemma_place_early(rules.drop_last(), id, n);
    }
}

/// Disables the rule with an identity.
pub fn disable_rule_in(rules: &mut Vec<RuleDefinition>, rule_id: Identity) -> (result: Result<
    (),
    KernelError,
>)
    ensures
        match (result, disabling(definition_views(old(rules)@), rule_id@)) {
            (Ok(()), Ok(after)) => definition_views(final(rules)@) == after,
            (Err(error), Err(fault)) => error@ == fault && final(rules)@ == old(rules)@,
            _ => false,
        },
{
    let ghost before = rules@;
    let ghost all = definition_views(before);
    let mut i: usize = 0;
    assert(all.take(0) =~= Seq::empty());
    while i < rules.len()
        invariant
            i <= rules@.len(),
            rules@ == before,
            before == old(rules)@,
            all == definition_views(before),
            rule_place(all.take(i as int), rule_id@) is None,
        decreases rules@.len() - i,
    {
        proof {
            assert(all.take(i + 1).drop_last() =~= all.take(i as int));
            assert(all.take(i + 1).last() == before[i as int]@);
        }
        if rules[i].id().same(&rule_id) {
            let mut rule = rules[i].clone();
            rule.deactivate();
            rules.set(i, rule);
            proof {
                lemma_place_early(all, rule_id@, i + 1);
                assert(definition_views(rules@) =~= all.update(
                    i as int,
                    (DefinitionView { active: false, ..all[i as int] }),
                ));
            }
            return Ok(());
        }
        i = i + 1;
    }
    assert(all.take(i as int) =~= all);
    Err(KernelError::UnknownRule(rule_id))
}

} // verus!
