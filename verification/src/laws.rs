//! Laws of the library: what holds of the parser, the JSON form and the
//! reconciliation for every document.

use vstd::prelude::*;
use crate::engine::{
    apply_block, apply_blocks, apply_document, apply_scope, block_met, blocks_met,
    declared_before, diff_members, unmet_blocks,
    mismatch, put, remove_blocks, scope_diff,
};
use crate::error::ErrorModel;
use crate::model::{
    block_position, lemma_block_position, lemma_block_position_is, lemma_position,
    lemma_position_is, position, BlockModel, DirectiveModel, DocumentModel, Ensure, ValueModel,
};
use crate::engine::set_text_result;
use crate::parser::{parse_line, parse_lines, parse_text, scope_with_line};
use crate::registry::{KeywordSpec, ValueKind};
use crate::text_laws::law_text_round_trip;
use crate::wellformed::{good_block, well_formed};
use crate::wf_laws::{law_apply_well_formed, law_parse_well_formed};

verus! {

/// No two directives of a scope have the same keyword.
pub open spec fn distinct_keywords(ds: Seq<DirectiveModel>) -> bool {
    forall|i: int, j: int|
        0 <= i < ds.len() && 0 <= j < ds.len() && i != j ==> (#[trigger] ds[i]).keyword != (
        #[trigger] ds[j]).keyword
}

/// No two blocks have the same category and criteria.
pub open spec fn distinct_blocks(bs: Seq<BlockModel>) -> bool {
    forall|i: int, j: int|
        0 <= i < bs.len() && 0 <= j < bs.len() && i != j ==> !((#[trigger] bs[i]).category == (
        #[trigger] bs[j]).category && bs[i].criteria == bs[j].criteria)
}

/// A desired state that declares no keyword twice in one scope. Every
/// well-formed document is one.
pub open spec fn declares_keywords_once(desired: DocumentModel) -> bool {
    &&& distinct_keywords(desired.directives)
    &&& forall|i: int|
        0 <= i < desired.blocks.len() ==> distinct_keywords(
            (#[trigger] desired.blocks[i]).directives,
        )
}

/// The blocks of a declaration without those that are declared before: of
/// each category and criteria the first block, in order.
pub open spec fn first_declarations(desired: Seq<BlockModel>) -> Seq<BlockModel>
    decreases desired.len(),
{
    if desired.len() == 0 {
        Seq::empty()
    } else if declared_before(desired, desired.len() - 1) {
        first_declarations(desired.drop_last())
    } else {
        first_declarations(desired.drop_last()).push(desired.last())
    }
}

/// The blocks with every block of a list applied, in order.
pub open spec fn apply_each(current: Seq<BlockModel>, desired: Seq<BlockModel>) -> Seq<BlockModel>
    decreases desired.len(),
{
    if desired.len() == 0 {
        current
    } else {
        apply_block(apply_each(current, desired.drop_last()), desired.last())
    }
}

/// The first declarations are blocks of the declaration, no two of the
/// same category and criteria, and among them is every block that is not
/// declared before.
pub proof fn lemma_first_declarations(desired: Seq<BlockModel>)
    ensures
        distinct_blocks(first_declarations(desired)),
        forall|k: int|
            0 <= k < first_declarations(desired).len() ==> desired.contains(
                #[trigger] first_declarations(desired)[k],
            ),
        forall|i: int|
            0 <= i < desired.len() && !declared_before(desired, i) ==> first_declarations(
                desired,
            ).contains(#[trigger] desired[i]),
    decreases desired.len(),
{
    if desired.len() > 0 {
        let n = desired.len() - 1;
        let rest = desired.drop_last();
        let last = desired.last();
        let had = first_declarations(rest);
        let out = first_declarations(desired);
        lemma_first_declarations(rest);
        assert(desired.take(n) =~= rest);
        assert(desired[n] == last);
        assert forall|k: int| 0 <= k < had.len() implies desired.contains(#[trigger] had[k]) by {
            assert(rest.contains(had[k]));
            let m = choose|m: int| 0 <= m < rest.len() && rest[m] == had[k];
            assert(desired[m] == rest[m]);
        }
        assert forall|i: int| 0 <= i < n && !declared_before(desired, i) implies out.contains(
            #[trigger] desired[i],
        ) by {
            assert(rest.take(i) =~= desired.take(i));
            assert(rest[i] == desired[i]);
            assert(!declared_before(rest, i));
            assert(had.contains(rest[i]));
            let k = choose|k: int| 0 <= k < had.len() && had[k] == rest[i];
            assert(out[k] == had[k]);
        }
        if declared_before(desired, n) {
            assert(out == had);
        } else {
            assert(out == had.push(last));
            assert(out[had.len() as int] == last);
            lemma_block_position(rest, last.category, last.criteria);
            assert forall|k: int| 0 <= k < had.len() implies !((#[trigger] had[k]).category
                == last.category && had[k].criteria == last.criteria) by {
                assert(rest.contains(had[k]));
                let m = choose|m: int| 0 <= m < rest.len() && rest[m] == had[k];
                assert(!(rest[m].category == last.category && rest[m].criteria == last.criteria));
            }
            assert forall|i: int, j: int|
                0 <= i < out.len() && 0 <= j < out.len() && i != j implies !((
            #[trigger] out[i]).category == (#[trigger] out[j]).category && out[i].criteria
                == out[j].criteria) by {
                if i < had.len() {
                    assert(out[i] == had[i]);
                }
                if j < had.len() {
                    assert(out[j] == had[j]);
                }
            }
            assert forall|k: int| 0 <= k < out.len() implies desired.contains(
                #[trigger] out[k],
            ) by {
                if k < had.len() {
                    assert(out[k] == had[k]);
                }
            }
        }
    }
}

/// Applying a declaration is applying each of its first declarations.
pub proof fn lemma_apply_first_declarations(current: Seq<BlockModel>, desired: Seq<BlockModel>)
    ensures
        apply_blocks(current, desired) == apply_each(current, first_declarations(desired)),
    decreases desired.len(),
{
    if desired.len() > 0 {
        let rest = desired.drop_last();
        lemma_apply_first_declarations(current, rest);
        if !declared_before(desired, desired.len() - 1) {
            let out = first_declarations(desired);
            assert(out.drop_last() =~= first_declarations(rest));
            assert(out.last() == desired.last());
        }
    }
}

/// A line read while a block is open leaves the top level and the blocks
/// that were closed before as they are.
pub proof fn lemma_line_stays_in_block(doc: DocumentModel, line: Seq<u8>, number: int)
    requires
        doc.blocks.len() > 0,
        parse_line(doc, line, number) is Ok,
    ensures
        parse_line(doc, line, number)->Ok_0.directives == doc.directives,
        parse_line(doc, line, number)->Ok_0.blocks.len() >= doc.blocks.len(),
        forall|j: int|
            0 <= j < doc.blocks.len() - 1 ==> parse_line(doc, line, number)->Ok_0.blocks[j]
                == doc.blocks[j],
{
}

/// Match-block scoping. Once a `Match` line has opened a block, no later
/// line changes the top-level directives, and a block is not changed any
/// more once the next `Match` line has closed it: a directive that follows
/// a `Match` line belongs to that block only.
pub proof fn law_match_scoping(ls: Seq<Seq<u8>>, m: int, n: int)
    requires
        0 <= m <= n,
        parse_lines(ls, m) is Ok,
        parse_lines(ls, n) is Ok,
        parse_lines(ls, m)->Ok_0.blocks.len() > 0,
    ensures
        parse_lines(ls, n)->Ok_0.directives == parse_lines(ls, m)->Ok_0.directives,
        parse_lines(ls, n)->Ok_0.blocks.len() >= parse_lines(ls, m)->Ok_0.blocks.len(),
        forall|j: int|
            0 <= j < parse_lines(ls, m)->Ok_0.blocks.len() - 1 ==> parse_lines(
                ls,
                n,
            )->Ok_0.blocks[j] == parse_lines(ls, m)->Ok_0.blocks[j],
    decreases n - m,
{
    if m < n {
        assert(parse_lines(ls, n - 1) is Ok);
        law_match_scoping(ls, m, n - 1);
        lemma_line_stays_in_block(parse_lines(ls, n - 1)->Ok_0, ls[n - 1], n);
    }
}

/// A scope that meets every declared directive has an empty difference.
pub proof fn lemma_scope_diff_empty(current: Seq<DirectiveModel>, desired: Seq<DirectiveModel>)
    requires
        forall|i: int| 0 <= i < desired.len() ==> !mismatch(current, #[trigger] desired[i]),
    ensures
        scope_diff(current, desired) == Seq::<crate::json::MemberModel>::empty(),
    decreases desired.len(),
{
    if desired.len() > 0 {
        let rest = desired.drop_last();
        assert forall|i: int| 0 <= i < rest.len() implies !mismatch(
            current,
            #[trigger] rest[i],
        ) by {
            assert(rest[i] == desired[i]);
        }
        lemma_scope_diff_empty(current, rest);
        assert(!mismatch(current, desired[desired.len() - 1]));
    }
}

/// Where every declared block is met, none is reported.
pub proof fn lemma_no_unmet_blocks(current: Seq<BlockModel>, desired: Seq<BlockModel>, n: int)
    requires
        blocks_met(current, desired, n),
    ensures
        unmet_blocks(current, desired, n).len() == 0,
    decreases n,
{
    if 0 < n <= desired.len() {
        lemma_no_unmet_blocks(current, desired, n - 1);
        if !declared_before(desired, n - 1) {
            assert(block_met(current, desired[n - 1]));
        }
    }
}

/// Where every declared keyword has its declared value in the current
/// configuration and every declared block is met, `test` reports no
/// difference: the difference has no member, so the configuration is in
/// the desired state.
pub proof fn law_test_of_met_state(current: DocumentModel, desired: DocumentModel)
    requires
        forall|i: int|
            0 <= i < desired.directives.len() ==> !mismatch(
                current.directives,
                #[trigger] desired.directives[i],
            ),
        blocks_met(current.blocks, desired.blocks, desired.blocks.len() as int),
    ensures
        diff_members(current, desired).len() == 0,
{
    lemma_scope_diff_empty(current.directives, desired.directives);
    lemma_no_unmet_blocks(current.blocks, desired.blocks, desired.blocks.len() as int);
}

/// A scope whose keywords are distinct meets each of its own directives.
pub proof fn lemma_scope_meets_itself(ds: Seq<DirectiveModel>)
    requires
        distinct_keywords(ds),
    ensures
        forall|i: int| 0 <= i < ds.len() ==> !mismatch(ds, #[trigger] ds[i]),
        scope_diff(ds, ds).len() == 0,
{
    assert forall|i: int| 0 <= i < ds.len() implies !mismatch(ds, #[trigger] ds[i]) by {
        lemma_position(ds, ds[i].keyword);
        let p = position(ds, ds[i].keyword);
        if p != i {
            assert(ds[p].keyword == ds[i].keyword);
        }
    }
    lemma_scope_diff_empty(ds, ds);
}

/// A configuration that declares no keyword twice in one scope and no
/// block absent is in its own desired state.
pub proof fn law_test_of_itself(doc: DocumentModel)
    requires
        declares_keywords_once(doc),
        forall|i: int|
            0 <= i < doc.blocks.len() ==> (#[trigger] doc.blocks[i]).ensure != Some(
                Ensure::Absent,
            ),
    ensures
        diff_members(doc, doc).len() == 0,
{
    lemma_scope_meets_itself(doc.directives);
    assert forall|i: int| 0 <= i < doc.blocks.len() && !declared_before(doc.blocks, i) implies
        block_met(doc.blocks, #[trigger] doc.blocks[i]) by {
        let b = doc.blocks[i];
        let front = doc.blocks.take(i);
        lemma_block_position(front, b.category, b.criteria);
        assert forall|j: int| 0 <= j < i implies !((#[trigger] doc.blocks[j]).category
            == b.category && doc.blocks[j].criteria == b.criteria) by {
            assert(front[j] == doc.blocks[j]);
        }
        lemma_block_position_is(doc.blocks, b.category, b.criteria, i);
        lemma_scope_meets_itself(b.directives);
    }
    law_test_of_met_state(doc, doc);
}

/// Where a keyword stands after a directive was put into a scope.
pub proof fn lemma_put_position(ds: Seq<DirectiveModel>, d: DirectiveModel, k: Seq<u8>)
    ensures
        k == d.keyword ==> 0 <= position(put(ds, d), k) < put(ds, d).len() && put(
            ds,
            d,
        )[position(put(ds, d), k)] == d,
        k != d.keyword && position(ds, k) < ds.len() ==> position(put(ds, d), k) == position(
            ds,
            k,
        ) && put(ds, d)[position(ds, k)] == ds[position(ds, k)],
        k != d.keyword && position(ds, k) >= ds.len() ==> position(put(ds, d), k) >= put(
            ds,
            d,
        ).len(),
{
    let p = position(ds, d.keyword);
    let after = put(ds, d);
    lemma_position(ds, d.keyword);
    lemma_position(ds, k);
    let q = position(ds, k);
    if p < ds.len() {
        assert forall|j: int| 0 <= j < after.len() implies (#[trigger] after[j]).keyword
            == ds[j].keyword by {}
        assert forall|j: int| 0 <= j < q implies (#[trigger] after[j]).keyword != k by {
            assert(ds[j].keyword != k);
        }
        lemma_position_is(after, k, q);
    } else {
        if k == d.keyword {
            assert forall|j: int| 0 <= j < ds.len() implies (#[trigger] after[j]).keyword
                != k by {
                assert(ds[j].keyword != k);
            }
            lemma_position_is(after, k, ds.len() as int);
        } else if q < ds.len() {
            assert forall|j: int| 0 <= j < q implies (#[trigger] after[j]).keyword != k by {
                assert(ds[j].keyword != k);
            }
            lemma_position_is(after, k, q);
        } else {
            assert forall|j: int| 0 <= j < after.len() implies (#[trigger] after[j]).keyword
                != k by {
                if j < ds.len() {
                    assert(ds[j].keyword != k);
                }
            }
            lemma_position_is(after, k, after.len() as int);
        }
    }
}

/// Putting a directive into a scope that meets it changes nothing.
pub proof fn lemma_put_met(ds: Seq<DirectiveModel>, d: DirectiveModel)
    requires
        !mismatch(ds, d),
    ensures
        put(ds, d) == ds,
{
    lemma_position(ds, d.keyword);
    assert(put(ds, d) =~= ds);
}

/// After a declaration with distinct keywords was applied, the scope meets
/// each of its directives.
pub proof fn lemma_applied_scope_meets(
    current: Seq<DirectiveModel>,
    desired: Seq<DirectiveModel>,
)
    requires
        distinct_keywords(desired),
    ensures
        forall|j: int|
            0 <= j < desired.len() ==> !mismatch(
                apply_scope(current, desired),
                #[trigger] desired[j],
            ),
    decreases desired.len(),
{
    if desired.len() > 0 {
        let rest = desired.drop_last();
        let last = desired.last();
        let mid = apply_scope(current, rest);
        assert(distinct_keywords(rest)) by {
            assert forall|i: int, j: int|
                0 <= i < rest.len() && 0 <= j < rest.len() && i != j implies (
            #[trigger] rest[i]).keyword != (#[trigger] rest[j]).keyword by {
                assert(rest[i] == desired[i]);
                assert(rest[j] == desired[j]);
            }
        }
        lemma_applied_scope_meets(current, rest);
        assert forall|j: int| 0 <= j < desired.len() implies !mismatch(
            apply_scope(current, desired),
            #[trigger] desired[j],
        ) by {
            lemma_put_position(mid, last, desired[j].keyword);
            if j < rest.len() {
                assert(rest[j] == desired[j]);
                assert(!mismatch(mid, rest[j]));
                assert(desired[j].keyword != desired[desired.len() - 1].keyword);
            }
        }
    }
}

/// Applying a declaration to a scope that meets each of its directives
/// changes nothing.
pub proof fn lemma_apply_met_scope(current: Seq<DirectiveModel>, desired: Seq<DirectiveModel>)
    requires
        forall|j: int| 0 <= j < desired.len() ==> !mismatch(current, #[trigger] desired[j]),
    ensures
        apply_scope(current, desired) == current,
    decreases desired.len(),
{
    if desired.len() > 0 {
        let rest = desired.drop_last();
        assert forall|j: int| 0 <= j < rest.len() implies !mismatch(
            current,
            #[trigger] rest[j],
        ) by {
            assert(rest[j] == desired[j]);
        }
        lemma_apply_met_scope(current, rest);
        assert(!mismatch(current, desired[desired.len() - 1]));
        lemma_put_met(current, desired.last());
    }
}

/// Applying a declaration with distinct keywords to a scope twice gives
/// what applying it once gives.
pub proof fn lemma_apply_scope_twice(current: Seq<DirectiveModel>, desired: Seq<DirectiveModel>)
    requires
        distinct_keywords(desired),
    ensures
        apply_scope(apply_scope(current, desired), desired) == apply_scope(current, desired),
{
    lemma_applied_scope_meets(current, desired);
    lemma_apply_met_scope(apply_scope(current, desired), desired);
}

/// Whether the blocks are as the declared block `b` wants them: a block
/// declared absent is not there; any other is there, and applying its
/// directives changes nothing.
pub open spec fn settled(bs: Seq<BlockModel>, b: BlockModel) -> bool {
    let p = block_position(bs, b.category, b.criteria);
    if b.ensure == Some(Ensure::Absent) {
        p >= bs.len()
    } else {
        0 <= p < bs.len() && apply_scope(bs[p].directives, b.directives) == bs[p].directives
    }
}

/// What is left when blocks are removed: the others, in order, and none of
/// the removed kind.
pub proof fn lemma_remove_blocks(bs: Seq<BlockModel>, category: Seq<u8>, criteria: Seq<u8>)
    ensures
        block_position(remove_blocks(bs, category, criteria), category, criteria)
            >= remove_blocks(bs, category, criteria).len(),
        block_position(bs, category, criteria) >= bs.len() ==> remove_blocks(
            bs,
            category,
            criteria,
        ) == bs,
        forall|c: Seq<u8>, r: Seq<u8>|
            !(c == category && r == criteria) ==> {
                let p = #[trigger] block_position(bs, c, r);
                let q = block_position(remove_blocks(bs, category, criteria), c, r);
                if p < bs.len() {
                    q < remove_blocks(bs, category, criteria).len() && remove_blocks(
                        bs,
                        category,
                        criteria,
                    )[q] == bs[p]
                } else {
                    q >= remove_blocks(bs, category, criteria).len()
                }
            },
    decreases bs.len(),
{
    let out = remove_blocks(bs, category, criteria);
    if bs.len() == 0 {
    } else {
        let rest = bs.drop_last();
        let last = bs.last();
        let sub = remove_blocks(rest, category, criteria);
        lemma_remove_blocks(rest, category, criteria);
        lemma_block_position(sub, category, criteria);
        lemma_block_position(bs, category, criteria);
        if last.category == category && last.criteria == criteria {
            assert(out == sub);
        } else {
            assert(out == sub.push(last));
            assert(out.drop_last() =~= sub);
            assert(out.last() == last);
        }
        if block_position(bs, category, criteria) >= bs.len() {
            assert(!(last.category == category && last.criteria == criteria));
            assert(block_position(rest, category, criteria) >= rest.len());
            assert(out =~= bs);
        }
        assert forall|c: Seq<u8>, r: Seq<u8>| !(c == category && r == criteria) implies {
            let p = #[trigger] block_position(bs, c, r);
            let q = block_position(out, c, r);
            if p < bs.len() {
                q < out.len() && out[q] == bs[p]
            } else {
                q >= out.len()
            }
        } by {
            let p0 = block_position(rest, c, r);
            let q0 = block_position(sub, c, r);
            lemma_block_position(rest, c, r);
            lemma_block_position(sub, c, r);
            if last.category == category && last.criteria == criteria {
                assert(out == sub);
            } else {
                assert(out == sub.push(last));
                assert(out.drop_last() =~= sub);
            }
        }
    }
}

/// Where a block stands after a declared block was applied, seen from a
/// block of another category or criteria.
pub proof fn lemma_apply_block_other(bs: Seq<BlockModel>, b: BlockModel, c: Seq<u8>, r: Seq<u8>)
    requires
        !(c == b.category && r == b.criteria),
    ensures
        block_position(bs, c, r) < bs.len() ==> block_position(apply_block(bs, b), c, r)
            < apply_block(bs, b).len() && apply_block(bs, b)[block_position(
            apply_block(bs, b),
            c,
            r,
        )] == bs[block_position(bs, c, r)],
        block_position(bs, c, r) >= bs.len() ==> block_position(apply_block(bs, b), c, r)
            >= apply_block(bs, b).len(),
{
    let after = apply_block(bs, b);
    let p = block_position(bs, b.category, b.criteria);
    let q = block_position(bs, c, r);
    lemma_block_position(bs, b.category, b.criteria);
    lemma_block_position(bs, c, r);
    if b.ensure == Some(Ensure::Absent) {
        lemma_remove_blocks(bs, b.category, b.criteria);
    } else if p < bs.len() {
        assert forall|j: int| 0 <= j < after.len() implies (#[trigger] after[j]).category
            == bs[j].category && after[j].criteria == bs[j].criteria by {}
        assert forall|j: int| 0 <= j < q implies !((#[trigger] after[j]).category == c
            && after[j].criteria == r) by {
            assert(!(bs[j].category == c && bs[j].criteria == r));
        }
        lemma_block_position_is(after, c, r, q);
    } else {
        if q < bs.len() {
            assert forall|j: int| 0 <= j < q implies !((#[trigger] after[j]).category == c
                && after[j].criteria == r) by {
                assert(!(bs[j].category == c && bs[j].criteria == r));
            }
            lemma_block_position_is(after, c, r, q);
        } else {
            assert forall|j: int| 0 <= j < after.len() implies !((#[trigger] after[j]).category
                == c && after[j].criteria == r) by {
                if j < bs.len() {
                    assert(!(bs[j].category == c && bs[j].criteria == r));
                }
            }
            lemma_block_position_is(after, c, r, after.len() as int);
        }
    }
}

/// After a declared block was applied, the blocks are as it wants them.
pub proof fn lemma_apply_block_settles(bs: Seq<BlockModel>, b: BlockModel)
    requires
        distinct_keywords(b.directives),
    ensures
        settled(apply_block(bs, b), b),
{
    let after = apply_block(bs, b);
    let p = block_position(bs, b.category, b.criteria);
    lemma_block_position(bs, b.category, b.criteria);
    if b.ensure == Some(Ensure::Absent) {
        lemma_remove_blocks(bs, b.category, b.criteria);
    } else if p < bs.len() {
        assert forall|j: int| 0 <= j < p implies !((#[trigger] after[j]).category == b.category
            && after[j].criteria == b.criteria) by {
            assert(!(bs[j].category == b.category && bs[j].criteria == b.criteria));
        }
        lemma_block_position_is(after, b.category, b.criteria, p);
        lemma_apply_scope_twice(bs[p].directives, b.directives);
    } else {
        assert forall|j: int| 0 <= j < bs.len() implies !((#[trigger] after[j]).category
            == b.category && after[j].criteria == b.criteria) by {
            assert(!(bs[j].category == b.category && bs[j].criteria == b.criteria));
        }
        lemma_block_position_is(after, b.category, b.criteria, bs.len() as int);
        lemma_apply_scope_twice(Seq::empty(), b.directives);
    }
}

/// Applying a declared block to blocks that are as it wants them changes
/// nothing.
pub proof fn lemma_apply_settled(bs: Seq<BlockModel>, b: BlockModel)
    requires
        settled(bs, b),
    ensures
        apply_block(bs, b) == bs,
{
    lemma_block_position(bs, b.category, b.criteria);
    if b.ensure == Some(Ensure::Absent) {
        lemma_remove_blocks(bs, b.category, b.criteria);
    } else {
        assert(apply_block(bs, b) =~= bs);
    }
}

/// Blocks that are as one declared block wants them stay so when a block
/// of another category or criteria is applied.
pub proof fn lemma_settled_stays(bs: Seq<BlockModel>, b: BlockModel, other: BlockModel)
    requires
        settled(bs, b),
        !(b.category == other.category && b.criteria == other.criteria),
    ensures
        settled(apply_block(bs, other), b),
{
    lemma_apply_block_other(bs, other, b.category, b.criteria);
    lemma_block_position(bs, b.category, b.criteria);
    lemma_block_position(apply_block(bs, other), b.category, b.criteria);
}

/// After each of a list of blocks, no two of the same category and
/// criteria, was applied, the blocks are as each of them wants them.
pub proof fn lemma_applied_blocks_settled(current: Seq<BlockModel>, desired: Seq<BlockModel>)
    requires
        distinct_blocks(desired),
        forall|i: int| 0 <= i < desired.len() ==> distinct_keywords(
            (#[trigger] desired[i]).directives,
        ),
    ensures
        forall|j: int|
            0 <= j < desired.len() ==> settled(
                apply_each(current, desired),
                #[trigger] desired[j],
            ),
    decreases desired.len(),
{
    if desired.len() > 0 {
        let rest = desired.drop_last();
        let last = desired.last();
        let mid = apply_each(current, rest);
        assert(distinct_blocks(rest)) by {
            assert forall|i: int, j: int|
                0 <= i < rest.len() && 0 <= j < rest.len() && i != j implies !((
            #[trigger] rest[i]).category == (#[trigger] rest[j]).category && rest[i].criteria
                == rest[j].criteria) by {
                assert(rest[i] == desired[i]);
                assert(rest[j] == desired[j]);
            }
        }
        assert forall|i: int| 0 <= i < rest.len() implies distinct_keywords(
            (#[trigger] rest[i]).directives,
        ) by {
            assert(rest[i] == desired[i]);
        }
        lemma_applied_blocks_settled(current, rest);
        assert forall|j: int| 0 <= j < desired.len() implies settled(
            apply_each(current, desired),
            #[trigger] desired[j],
        ) by {
            if j < rest.len() {
                assert(rest[j] == desired[j]);
                assert(settled(mid, rest[j]));
                assert(!(desired[j].category == desired[desired.len() - 1].category
                    && desired[j].criteria == desired[desired.len() - 1].criteria));
                lemma_settled_stays(mid, desired[j], last);
            } else {
                assert(desired[j] == last);
                lemma_apply_block_settles(mid, last);
            }
        }
    }
}

/// Applying each of a list of blocks to blocks that are as each of them
/// wants them changes nothing.
pub proof fn lemma_apply_settled_blocks(current: Seq<BlockModel>, desired: Seq<BlockModel>)
    requires
        forall|j: int| 0 <= j < desired.len() ==> settled(current, #[trigger] desired[j]),
    ensures
        apply_each(current, desired) == current,
    decreases desired.len(),
{
    if desired.len() > 0 {
        let rest = desired.drop_last();
        assert forall|j: int| 0 <= j < rest.len() implies settled(current, #[trigger] rest[j]) by {
            assert(rest[j] == desired[j]);
        }
        lemma_apply_settled_blocks(current, rest);
        assert(settled(current, desired[desired.len() - 1]));
        lemma_apply_settled(current, desired.last());
    }
}

/// What a fixed point of a declaration meets: a scope that applying the
/// declaration does not change has each declared value.
pub proof fn lemma_fixed_scope_meets(current: Seq<DirectiveModel>, desired: Seq<DirectiveModel>)
    requires
        distinct_keywords(desired),
        apply_scope(current, desired) == current,
    ensures
        forall|j: int| 0 <= j < desired.len() ==> !mismatch(current, #[trigger] desired[j]),
        scope_diff(current, desired).len() == 0,
{
    lemma_applied_scope_meets(current, desired);
    lemma_scope_diff_empty(current, desired);
}

/// The first declarations of a desired state that declares no keyword
/// twice in one scope declare none twice either.
pub proof fn lemma_first_declarations_keywords(desired: Seq<BlockModel>)
    requires
        forall|i: int| 0 <= i < desired.len() ==> distinct_keywords(
            (#[trigger] desired[i]).directives,
        ),
    ensures
        forall|k: int|
            0 <= k < first_declarations(desired).len() ==> distinct_keywords(
                (#[trigger] first_declarations(desired)[k]).directives,
            ),
{
    lemma_first_declarations(desired);
    let firsts = first_declarations(desired);
    assert forall|k: int| 0 <= k < firsts.len() implies distinct_keywords(
        (#[trigger] firsts[k]).directives,
    ) by {
        assert(desired.contains(firsts[k]));
        let m = choose|m: int| 0 <= m < desired.len() && desired[m] == firsts[k];
        assert(distinct_keywords(desired[m].directives));
    }
}

/// `set` is idempotent. Applying a desired state to the configuration
/// that a first application gave changes nothing: the second `set` leaves
/// the same document and reports no change. This holds of every desired
/// state that declares no keyword twice in one scope, and so of every
/// well-formed one; a block may be declared more than once.
pub proof fn law_set_idempotent(current: DocumentModel, desired: DocumentModel)
    requires
        declares_keywords_once(desired),
    ensures
        apply_document(apply_document(current, desired), desired) == apply_document(
            current,
            desired,
        ),
{
    let firsts = first_declarations(desired.blocks);
    lemma_apply_scope_twice(current.directives, desired.directives);
    lemma_first_declarations(desired.blocks);
    lemma_first_declarations_keywords(desired.blocks);
    lemma_apply_first_declarations(current.blocks, desired.blocks);
    let once = apply_each(current.blocks, firsts);
    lemma_applied_blocks_settled(current.blocks, firsts);
    lemma_apply_settled_blocks(once, firsts);
    lemma_apply_first_declarations(once, desired.blocks);
}

/// `set` reaches the desired state. After a desired state that declares
/// no keyword twice in one scope was applied, `test` of the same desired
/// state reports no difference.
pub proof fn law_set_then_test(current: DocumentModel, desired: DocumentModel)
    requires
        declares_keywords_once(desired),
    ensures
        diff_members(apply_document(current, desired), desired).len() == 0,
{
    let after = apply_document(current, desired);
    let firsts = first_declarations(desired.blocks);
    lemma_applied_scope_meets(current.directives, desired.directives);
    lemma_first_declarations(desired.blocks);
    lemma_first_declarations_keywords(desired.blocks);
    lemma_apply_first_declarations(current.blocks, desired.blocks);
    lemma_applied_blocks_settled(current.blocks, firsts);
    assert forall|i: int|
        0 <= i < desired.blocks.len() && !declared_before(desired.blocks, i) implies block_met(
        after.blocks,
        #[trigger] desired.blocks[i],
    ) by {
        let b = desired.blocks[i];
        assert(firsts.contains(b));
        let k = choose|k: int| 0 <= k < firsts.len() && firsts[k] == b;
        assert(settled(after.blocks, firsts[k]));
        lemma_block_position(after.blocks, b.category, b.criteria);
        if b.ensure != Some(Ensure::Absent) {
            let p = block_position(after.blocks, b.category, b.criteria);
            assert(distinct_keywords(desired.blocks[i].directives));
            lemma_fixed_scope_meets(after.blocks[p].directives, b.directives);
        }
    }
    law_test_of_met_state(after, desired);
}

/// `set` is idempotent on files. Where a first `set` of a well-formed
/// desired state gave the text `first`, a second `set` of the same desired
/// state on that text gives the same text and reports no change. Every
/// desired state that `parse` or `from_json` returns is well-formed.
pub proof fn law_set_text_idempotent(text: Seq<u8>, desired: DocumentModel, first: Seq<u8>)
    requires
        well_formed(desired),
        set_text_result(text, desired) is Ok,
        set_text_result(text, desired)->Ok_0.0 == first,
    ensures
        set_text_result(first, desired) == Ok::<(Seq<u8>, bool), ErrorModel>((first, false)),
{
    let current = parse_text(text)->Ok_0;
    let next = apply_document(current, desired);
    assert(declares_keywords_once(desired)) by {
        assert forall|i: int| 0 <= i < desired.blocks.len() implies distinct_keywords(
            (#[trigger] desired.blocks[i]).directives,
        ) by {
            assert(good_block(desired.blocks[i]));
        }
    }
    if next != current {
        law_parse_well_formed(text);
        law_apply_well_formed(current, desired);
        law_text_round_trip(next);
        law_set_idempotent(current, desired);
    }
}

/// Whether a declaration holds a directive of keyword `kw`.
pub open spec fn declares(desired: Seq<DirectiveModel>, kw: Seq<u8>) -> bool {
    exists|j: int| 0 <= j < desired.len() && (#[trigger] desired[j]).keyword == kw
}

/// `set` touches declared keys only. After a declaration was applied to a
/// scope, each directive that was there is where it was and has the
/// keyword that it had; one whose keyword the declaration does not hold is
/// as it was.
pub proof fn law_set_keeps_undeclared(current: Seq<DirectiveModel>, desired: Seq<DirectiveModel>)
    ensures
        apply_scope(current, desired).len() >= current.len(),
        forall|i: int|
            0 <= i < current.len() ==> (#[trigger] apply_scope(current, desired)[i]).keyword
                == current[i].keyword,
        forall|i: int|
            0 <= i < current.len() && !declares(desired, current[i].keyword) ==> (
            #[trigger] apply_scope(current, desired)[i]) == current[i],
    decreases desired.len(),
{
    if desired.len() > 0 {
        let rest = desired.drop_last();
        let last = desired.last();
        let mid = apply_scope(current, rest);
        let out = apply_scope(current, desired);
        law_set_keeps_undeclared(current, rest);
        lemma_position(mid, last.keyword);
        assert(desired[desired.len() - 1].keyword == last.keyword);
        assert forall|i: int| 0 <= i < current.len() implies (#[trigger] out[i]).keyword
            == current[i].keyword by {
            assert(mid[i].keyword == current[i].keyword);
        }
        assert forall|i: int|
            0 <= i < current.len() && !declares(desired, current[i].keyword) implies (
        #[trigger] out[i]) == current[i] by {
            if declares(rest, current[i].keyword) {
                let j = choose|j: int|
                    0 <= j < rest.len() && (#[trigger] rest[j]).keyword == current[i].keyword;
                assert(desired[j] == rest[j]);
            }
            assert(mid[i] == current[i]);
            assert(current[i].keyword != last.keyword);
        }
    }
}

/// Repeatable-keyword order. A further line of a list keyword that a scope
/// holds already puts its value behind the values read before it: none of
/// them is dropped, moved or joined with another. Every other directive of
/// the scope stays as it is.
pub proof fn law_repeated_keyword_appends(
    ds: Seq<DirectiveModel>,
    kw: Seq<u8>,
    spec: KeywordSpec,
    rest: Seq<u8>,
    number: int,
)
    requires
        spec.kind == ValueKind::List,
        0 <= position(ds, kw) < ds.len(),
        ds[position(ds, kw)].value is List,
        scope_with_line(ds, kw, spec, rest, number) is Ok,
    ensures
        scope_with_line(ds, kw, spec, rest, number)->Ok_0.len() == ds.len(),
        scope_with_line(ds, kw, spec, rest, number)->Ok_0[position(ds, kw)].value
            == ValueModel::List(ds[position(ds, kw)].value->List_0.push(rest)),
        forall|i: int|
            0 <= i < ds.len() && i != position(ds, kw) ==> scope_with_line(
                ds,
                kw,
                spec,
                rest,
                number,
            )->Ok_0[i] == ds[i],
{
    let had = ds[position(ds, kw)].value->List_0;
    assert(had + seq![rest] =~= had.push(rest));
}

} // verus!
