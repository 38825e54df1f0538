//! What holds of the bytes that records are read from.

use crate::bytes::{be_bytes, be_value, lemma_be_bytes_of_value};
use crate::kernel::commit::{CatalogChangeView, CommitView, FactChangeKind, FactChangeView};
use crate::kernel::decode::{take_body_item, take_bytes, take_catalog_change, take_commit,
    take_durability, take_fact_change, take_flag, take_identity, take_number, take_op, take_policy,
    take_row, take_term, whole};
use crate::kernel::metadata::{PolicyView, RelationDurability};
use crate::kernel::rules::{BodyItemView, RuleComparisonOp, TermView};
use crate::text::decimal;
use crate::value::{ValueView, IDENTITY_MAX};
use vstd::prelude::*;

verus! {

proof fn lemma_byte(bytes: Seq<u8>, at: int)
    requires
        0 <= at < bytes.len() <= usize::MAX,
    ensures
        take_number(bytes, at, 1) == Ok::<(nat, int), Seq<char>>((bytes[at] as nat, at + 1)),
{
    let raw = bytes.subrange(at, at + 1);
    assert(raw.len() == 1);
    assert(raw.last() == bytes[at]);
    assert(raw.drop_last() =~= Seq::<u8>::empty());
    assert(be_value(raw.drop_last()) == 0);
}

/// What is read of bytes is as many as were asked for, from where they were asked for. Where there are
/// not so many, it is told how many were needed, where, and how many there are.
pub proof fn law_bytes_are_read_where_they_are(bytes: Seq<u8>, at: int, n: nat, i: int)
    requires
        0 <= at <= bytes.len() <= usize::MAX,
        at + n <= usize::MAX,
        0 <= i < n,
    ensures
        at + n <= bytes.len() ==> (take_bytes(bytes, at, n) matches Ok((raw, end)) && raw.len() == n
            && raw[i] == bytes[at + i] && end == at + n),
        at + n > bytes.len() ==> take_bytes(bytes, at, n) == Err::<(Seq<u8>, int), Seq<char>>(
            "commit record ended early: need "@ + decimal(n) + " bytes at offset "@ + decimal(
                at as nat,
            ) + ", len "@ + decimal(bytes.len()),
        ),
{
}

/// A record is read whole: bytes behind it are refused, with their number.
pub proof fn law_nothing_stands_behind_a_record<T>(bytes: Seq<u8>, found: T, end: int)
    requires
        0 <= end <= bytes.len(),
    ensures
        end == bytes.len() ==> whole(bytes, Ok((found, end))) == Ok::<T, Seq<char>>(found),
        end < bytes.len() ==> whole(bytes, Ok((found, end))) == Err::<T, Seq<char>>(
            "trailing bytes in mica commit record: "@ + decimal((bytes.len() - end) as nat),
        ),
{
}

/// Which byte stands for which truth, durability and comparison. Any other is refused.
pub proof fn law_which_bytes_stand_for_what(bytes: Seq<u8>, at: int)
    requires
        0 <= at < bytes.len() <= usize::MAX,
    ensures
        ({
            let byte = bytes[at];
            &&& byte == 0 ==> take_flag(bytes, at) == Ok::<(bool, int), Seq<char>>((false, at + 1))
            &&& byte == 1 ==> take_flag(bytes, at) == Ok::<(bool, int), Seq<char>>((true, at + 1))
            &&& byte > 1 ==> take_flag(bytes, at) == Err::<(bool, int), Seq<char>>(
                "invalid boolean byte "@ + decimal(byte as nat),
            )
            &&& byte == 0 ==> take_durability(bytes, at) == Ok::<(RelationDurability, int), Seq<char>>(
                (RelationDurability::Durable, at + 1),
            )
            &&& byte == 1 ==> take_durability(bytes, at) == Ok::<(RelationDurability, int), Seq<char>>(
                (RelationDurability::Volatile, at + 1),
            )
            &&& byte > 1 ==> take_durability(bytes, at) == Err::<(RelationDurability, int), Seq<char>>(
                "unknown relation durability tag "@ + decimal(byte as nat),
            )
            &&& byte == 0 ==> take_op(bytes, at) == Ok::<(RuleComparisonOp, int), Seq<char>>(
                (RuleComparisonOp::Eq, at + 1),
            )
            &&& byte == 1 ==> take_op(bytes, at) == Ok::<(RuleComparisonOp, int), Seq<char>>(
                (RuleComparisonOp::Ne, at + 1),
            )
            &&& byte == 2 ==> take_op(bytes, at) == Ok::<(RuleComparisonOp, int), Seq<char>>(
                (RuleComparisonOp::Lt, at + 1),
            )
            &&& byte == 3 ==> take_op(bytes, at) == Ok::<(RuleComparisonOp, int), Seq<char>>(
                (RuleComparisonOp::Le, at + 1),
            )
            &&& byte == 4 ==> take_op(bytes, at) == Ok::<(RuleComparisonOp, int), Seq<char>>(
                (RuleComparisonOp::Gt, at + 1),
            )
            &&& byte == 5 ==> take_op(bytes, at) == Ok::<(RuleComparisonOp, int), Seq<char>>(
                (RuleComparisonOp::Ge, at + 1),
            )
            &&& byte > 5 ==> take_op(bytes, at) == Err::<(RuleComparisonOp, int), Seq<char>>(
                "unknown rule comparison op tag "@ + decimal(byte as nat),
            )
        }),
{
    lemma_byte(bytes, at);
}

/// The first byte of a policy, a term, a condition and a change to the catalog says of which kind it
/// is. Any other byte is refused.
pub proof fn law_the_first_byte_says_the_kind(bytes: Seq<u8>, at: int)
    requires
        0 <= at < bytes.len() <= usize::MAX,
    ensures
        ({
            let byte = bytes[at];
            &&& take_policy(bytes, at) matches Ok((policy, _)) ==> byte == match policy {
                PolicyView::SetOfRows => 0u8,
                PolicyView::Functional(_) => 1u8,
                PolicyView::EventAppend => 2u8,
            }
            &&& byte > 2 ==> take_policy(bytes, at) == Err::<(PolicyView, int), Seq<char>>(
                "unknown conflict policy tag "@ + decimal(byte as nat),
            )
            &&& take_term(bytes, at) matches Ok((term, _)) ==> byte == match term {
                TermView::Var(_) => 0u8,
                TermView::Value(_) => 1u8,
            }
            &&& byte > 1 ==> take_term(bytes, at) == Err::<(TermView, int), Seq<char>>(
                "unknown term tag "@ + decimal(byte as nat),
            )
            &&& take_body_item(bytes, at) matches Ok((item, _)) ==> byte == match item {
                BodyItemView::Atom(atom) => if atom.negated {
                    1u8
                } else {
                    0u8
                },
                BodyItemView::Guard(_, _, _) => 2u8,
            }
            &&& byte > 2 ==> take_body_item(bytes, at) == Err::<(BodyItemView, int), Seq<char>>(
                "unknown rule body item tag "@ + decimal(byte as nat),
            )
            &&& take_catalog_change(bytes, at) matches Ok((change, _)) ==> byte == match change {
                CatalogChangeView::RelationCreated(_) => 0u8,
                CatalogChangeView::RuleInstalled(_) => 1u8,
                CatalogChangeView::RuleDisabled(_) => 2u8,
            }
            &&& byte > 2 ==> take_catalog_change(bytes, at) == Err::<(CatalogChangeView, int), Seq<char>>(
                "unknown catalog change tag "@ + decimal(byte as nat),
            )
        }),
{
    lemma_byte(bytes, at);
}

/// Behind the row of a change stands whether it came or went. Any other byte is refused.
pub proof fn law_a_change_says_whether_its_row_came(
    bytes: Seq<u8>,
    at: int,
    relation: u64,
    middle: int,
    row: Seq<ValueView>,
    end: int,
)
    requires
        bytes.len() <= usize::MAX,
        take_identity(bytes, at) == Ok::<(u64, int), Seq<char>>((relation, middle)),
        take_row(bytes, middle) == Ok::<(Seq<ValueView>, int), Seq<char>>((row, end)),
        0 <= end < bytes.len(),
    ensures
        bytes[end] == 0 ==> take_fact_change(bytes, at) == Ok::<(FactChangeView, int), Seq<char>>(
            (FactChangeView { relation, row, kind: FactChangeKind::Assert }, end + 1),
        ),
        bytes[end] == 1 ==> take_fact_change(bytes, at) == Ok::<(FactChangeView, int), Seq<char>>(
            (FactChangeView { relation, row, kind: FactChangeKind::Retract }, end + 1),
        ),
        bytes[end] > 1 ==> take_fact_change(bytes, at) == Err::<(FactChangeView, int), Seq<char>>(
            "unknown fact change tag "@ + decimal(bytes[end] as nat),
        ),
{
    lemma_byte(bytes, end);
}

/// An identity is eight bytes, most significant first, and a larger number than identities have is
/// refused.
pub proof fn law_identities_are_within_range(bytes: Seq<u8>, at: int)
    requires
        0 <= at,
        at + 8 <= bytes.len() <= usize::MAX,
    ensures
        match take_identity(bytes, at) {
            Ok((id, end)) => end == at + 8 && id <= IDENTITY_MAX && be_bytes(id as nat, 8)
                == bytes.subrange(at, at + 8),
            Err(why) => {
                let n = be_value(bytes.subrange(at, at + 8));
                n > IDENTITY_MAX && why == "identity "@ + decimal(n) + " is out of range"@
            },
        },
{
    lemma_be_bytes_of_value(bytes.subrange(at, at + 8));
}

/// The record of a commit begins with the eight characters that mark it.
pub proof fn law_a_commit_is_marked(bytes: Seq<u8>, at: int)
    requires
        0 <= at,
        at + 8 <= bytes.len() <= usize::MAX,
    ensures
        take_commit(bytes, at) is Ok ==> bytes.subrange(at, at + 8) == seq![
            0x4du8,
            0x49u8,
            0x43u8,
            0x41u8,
            0x43u8,
            0x4du8,
            0x54u8,
            0x32u8,
        ],
        bytes[at] != 0x4d ==> take_commit(bytes, at) == Err::<(CommitView, int), Seq<char>>(
            "invalid mica commit record magic"@,
        ),
{
    let raw = bytes.subrange(at, at + 8);
    assert(raw[0] == bytes[at]);
}

} // verus!
