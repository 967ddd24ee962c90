//! The JSON round trip: reading the JSON form of a well-formed document
//! gives the document back.

use vstd::prelude::*;
use vstd::string::StringSliceAdditionalSpecFns;
use crate::error::ErrorModel;
use crate::json::{JsonModel, MemberModel};
use crate::literals::{
    lemma_criteria_is_not_ensure, lemma_ensure_is_no_keyword, lemma_present_is_not_absent,
};
use crate::model::{
    lemma_position_is, BlockModel, DirectiveModel, DocumentModel, PairModel, ValueModel,
};
use crate::registry::{lemma_registered, lookup_canonical, KeywordSpec};
use crate::serializer::{
    block_json, document_json, empty_draft, ensure_members, group_insert, group_members,
    group_position, groups, json_document, lemma_group_position, lemma_group_position_is,
    pair_json, read_block, read_block_member, read_block_members, read_blocks, read_directive,
    read_groups, read_items, read_member, read_members, read_pair, read_pairs, read_value,
    scope_members, value_json, DraftModel, GroupModel,
};
use crate::wellformed::{
    good_block, good_directive, good_pair, good_scope, good_text, good_value, grouped, is_category,
    well_formed,
};

verus! {

/// Reading the strings of a list's JSON form gives the list back.
pub proof fn lemma_items_round_trip(kw: Seq<u8>, spec: KeywordSpec, items: Seq<Seq<u8>>, i: int)
    requires
        0 <= i <= items.len(),
        forall|k: int| 0 <= k < items.len() ==> good_text(spec, #[trigger] items[k]),
    ensures
        read_items(
            kw,
            spec.validator,
            value_json(ValueModel::List(items))->Array_0,
            i,
            items.take(i),
        ) == Ok::<Seq<Seq<u8>>, ErrorModel>(items),
    decreases items.len() - i,
{
    let js = value_json(ValueModel::List(items))->Array_0;
    if i == items.len() {
        assert(items.take(i) =~= items);
    } else {
        assert(js[i] == JsonModel::Text(items[i]));
        assert(good_text(spec, items[i]));
        assert(items.take(i).push(items[i]) =~= items.take(i + 1));
        lemma_items_round_trip(kw, spec, items, i + 1);
    }
}

/// Reading the pairs of a name / value list's JSON form gives the list
/// back.
pub proof fn lemma_pairs_round_trip(kw: Seq<u8>, spec: KeywordSpec, pairs: Seq<PairModel>, i: int)
    requires
        0 <= i <= pairs.len(),
        forall|k: int| 0 <= k < pairs.len() ==> good_pair(spec, #[trigger] pairs[k]),
    ensures
        read_pairs(
            kw,
            spec.validator,
            value_json(ValueModel::ObjectList(pairs))->Array_0,
            i,
            pairs.take(i),
        ) == Ok::<Seq<PairModel>, ErrorModel>(pairs),
    decreases pairs.len() - i,
{
    let js = value_json(ValueModel::ObjectList(pairs))->Array_0;
    if i == pairs.len() {
        assert(pairs.take(i) =~= pairs);
    } else {
        assert(js[i] == pair_json(pairs[i]));
        assert(good_pair(spec, pairs[i]));
        assert(read_pair(kw, spec.validator, js[i]) == Ok::<PairModel, ErrorModel>(pairs[i]));
        assert(pairs.take(i).push(pairs[i]) =~= pairs.take(i + 1));
        lemma_pairs_round_trip(kw, spec, pairs, i + 1);
    }
}

/// Reading the JSON form of a good value gives the value back.
pub proof fn lemma_value_round_trip(kw: Seq<u8>, spec: KeywordSpec, v: ValueModel)
    requires
        good_value(spec, v),
    ensures
        read_value(kw, spec, value_json(v)) == Ok::<ValueModel, ErrorModel>(v),
{
    match v {
        ValueModel::Scalar(s) => {},
        ValueModel::List(items) => {
            lemma_items_round_trip(kw, spec, items, 0);
            assert(items.take(0) =~= Seq::<Seq<u8>>::empty());
        },
        ValueModel::ObjectList(pairs) => {
            lemma_pairs_round_trip(kw, spec, pairs, 0);
            assert(pairs.take(0) =~= Seq::<PairModel>::empty());
        },
    }
}

/// Reading the member of the directive at index `i` of a good scope, into
/// the directives before it, gives the directives up to it.
pub proof fn lemma_directive_round_trip(ds: Seq<DirectiveModel>, i: int)
    requires
        good_scope(ds),
        0 <= i < ds.len(),
    ensures
        read_directive(ds.take(i), ds[i].keyword, value_json(ds[i].value)) == Ok::<
            Seq<DirectiveModel>,
            ErrorModel,
        >(ds.take(i + 1)),
{
    let d = ds[i];
    assert(good_directive(d));
    lemma_registered(d.keyword);
    let before = ds.take(i);
    assert forall|j: int| 0 <= j < before.len() implies (#[trigger] before[j]).keyword
        != d.keyword by {
        assert(before[j] == ds[j]);
    }
    lemma_position_is(before, d.keyword, i);
    lemma_value_round_trip(d.keyword, lookup_canonical(d.keyword).unwrap(), d.value);
    assert(before.push(d) =~= ds.take(i + 1));
}

/// Reading the members of a block's JSON form from the directive at index
/// `i` on, into a draft of the directives before it, gives the block's
/// directives and ensure flag.
pub proof fn lemma_block_members_round_trip(b: BlockModel, i: int)
    requires
        good_block(b),
        0 <= i <= b.directives.len(),
    ensures
        read_block_members(
            block_json(b)->Object_0,
            1 + i,
            DraftModel {
                criteria: Some(b.criteria),
                ensure: None,
                directives: b.directives.take(i),
            },
        ) == Ok::<DraftModel, ErrorModel>(
            DraftModel { criteria: Some(b.criteria), ensure: b.ensure, directives: b.directives },
        ),
    decreases b.directives.len() - i,
{
    let ms = block_json(b)->Object_0;
    let ds = b.directives;
    let draft = DraftModel { criteria: Some(b.criteria), ensure: None, directives: ds.take(i) };
    assert(ms.len() == 1 + ds.len() + ensure_members(b.ensure).len());
    if i < ds.len() {
        let d = ds[i];
        assert(ms[1 + i] == scope_members(ds)[i]);
        assert(ms[1 + i] == MemberModel { key: d.keyword, value: value_json(d.value) });
        assert(good_directive(d));
        lemma_registered(d.keyword);
        lemma_ensure_is_no_keyword();
        lemma_directive_round_trip(ds, i);
        assert(read_block_member(draft, d.keyword, value_json(d.value)) == Ok::<
            DraftModel,
            ErrorModel,
        >(DraftModel { criteria: Some(b.criteria), ensure: None, directives: ds.take(i + 1) }));
        lemma_block_members_round_trip(b, i + 1);
    } else {
        assert(ds.take(i) =~= ds);
        lemma_criteria_is_not_ensure();
        lemma_present_is_not_absent();
        match b.ensure {
            None => {},
            Some(flag) => {
                assert(ms[1 + i] == ensure_members(b.ensure)[0]);
                let next = DraftModel {
                    criteria: Some(b.criteria),
                    ensure: b.ensure,
                    directives: ds,
                };
                assert(read_block_member(draft, ms[1 + i].key, ms[1 + i].value) == Ok::<
                    DraftModel,
                    ErrorModel,
                >(next));
                assert(read_block_members(ms, 2 + i, next) == Ok::<DraftModel, ErrorModel>(next));
            },
        }
    }
}

/// Reading the JSON form of a good block under its category gives the
/// block back.
pub proof fn lemma_block_round_trip(b: BlockModel)
    requires
        good_block(b),
    ensures
        read_block(b.category, block_json(b)) == Ok::<BlockModel, ErrorModel>(b),
{
    let ms = block_json(b)->Object_0;
    assert(ms[0] == MemberModel {
        key: "criteria".spec_bytes(),
        value: JsonModel::Text(b.criteria),
    });
    let first = DraftModel {
        criteria: Some(b.criteria),
        ensure: None,
        directives: Seq::<DirectiveModel>::empty(),
    };
    assert(read_block_member(empty_draft(), ms[0].key, ms[0].value) == Ok::<
        DraftModel,
        ErrorModel,
    >(first));
    assert(b.directives.take(0) =~= Seq::<DirectiveModel>::empty());
    lemma_block_members_round_trip(b, 0);
}

/// Reading the top-level members of a document's JSON form from the
/// directive at index `i` on gives what reading the members behind the
/// directives gives of the whole scope.
pub proof fn lemma_members_round_trip(
    ms: Seq<MemberModel>,
    ds: Seq<DirectiveModel>,
    bs: Seq<BlockModel>,
    i: int,
)
    requires
        good_scope(ds),
        0 <= i <= ds.len() <= ms.len(),
        forall|k: int| 0 <= k < ds.len() ==> #[trigger] ms[k] == scope_members(ds)[k],
    ensures
        read_members(ms, i, DocumentModel { directives: ds.take(i), blocks: bs }) == read_members(
            ms,
            ds.len() as int,
            DocumentModel { directives: ds, blocks: bs },
        ),
    decreases ds.len() - i,
{
    if i < ds.len() {
        let d = ds[i];
        assert(ms[i] == MemberModel { key: d.keyword, value: value_json(d.value) });
        assert(good_directive(d));
        lemma_registered(d.keyword);
        lemma_directive_round_trip(ds, i);
        lemma_members_round_trip(ms, ds, bs, i + 1);
    } else {
        assert(ds.take(i) =~= ds);
    }
}

/// The blocks of one category, in the order of the document.
pub struct Run {
    pub category: Seq<u8>,
    pub blocks: Seq<BlockModel>,
}

/// The JSON forms of a list of blocks.
pub open spec fn blocks_json(bs: Seq<BlockModel>) -> Seq<JsonModel> {
    Seq::new(bs.len(), |j: int| block_json(bs[j]))
}

/// The groups that runs become in JSON form.
pub open spec fn to_groups(rs: Seq<Run>) -> Seq<GroupModel> {
    Seq::new(
        rs.len(),
        |i: int| GroupModel { category: rs[i].category, blocks: blocks_json(rs[i].blocks) },
    )
}

/// The runs with one more block: it joins the run of its category, or
/// opens a new run behind the others.
pub open spec fn run_insert(rs: Seq<Run>, b: BlockModel) -> Seq<Run> {
    let p = group_position(to_groups(rs), b.category);
    if 0 <= p < rs.len() {
        rs.update(p, Run { category: rs[p].category, blocks: rs[p].blocks.push(b) })
    } else {
        rs.push(Run { category: b.category, blocks: seq![b] })
    }
}

/// The blocks of a document as runs, one for each category.
pub open spec fn runs(bs: Seq<BlockModel>) -> Seq<Run>
    decreases bs.len(),
{
    if bs.len() == 0 {
        Seq::empty()
    } else {
        run_insert(runs(bs.drop_last()), bs.last())
    }
}

/// The blocks of all runs, one run after the other.
pub open spec fn flatten(rs: Seq<Run>) -> Seq<BlockModel>
    decreases rs.len(),
{
    if rs.len() == 0 {
        Seq::empty()
    } else {
        flatten(rs.drop_last()) + rs.last().blocks
    }
}

/// Whether a category occurs among the blocks.
pub open spec fn occurs(bs: Seq<BlockModel>, category: Seq<u8>) -> bool {
    exists|j: int| 0 <= j < bs.len() && (#[trigger] bs[j]).category == category
}

/// Runs that hold the blocks `bs` in their order: each run holds blocks of
/// its own category only, no two runs share a category, and the last run
/// is that of the last block.
pub open spec fn tidy(rs: Seq<Run>, bs: Seq<BlockModel>) -> bool {
    &&& flatten(rs) == bs
    &&& forall|i: int, j: int|
        0 <= i < rs.len() && 0 <= j < rs[i].blocks.len() ==> (#[trigger] rs[i].blocks[j]).category
            == rs[i].category
    &&& forall|i: int, j: int|
        0 <= i < rs.len() && 0 <= j < rs.len() && i != j ==> (#[trigger] rs[i]).category != (
        #[trigger] rs[j]).category
    &&& forall|i: int| 0 <= i < rs.len() ==> occurs(bs, (#[trigger] rs[i]).category)
    &&& (bs.len() > 0 ==> rs.len() > 0 && rs.last().category == bs.last().category)
}

/// The groups of a list of blocks are the JSON forms of its runs.
pub proof fn lemma_groups_are_runs(bs: Seq<BlockModel>)
    ensures
        groups(bs) == to_groups(runs(bs)),
    decreases bs.len(),
{
    if bs.len() == 0 {
        assert(groups(bs) =~= to_groups(runs(bs)));
    } else {
        let rest = bs.drop_last();
        let b = bs.last();
        lemma_groups_are_runs(rest);
        let rs = runs(rest);
        let gs = to_groups(rs);
        let p = group_position(gs, b.category);
        lemma_group_position(gs, b.category);
        if 0 <= p < rs.len() {
            assert(blocks_json(rs[p].blocks.push(b)) =~= blocks_json(rs[p].blocks).push(
                block_json(b),
            ));
            assert(group_insert(gs, b) =~= to_groups(run_insert(rs, b)));
        } else {
            assert(blocks_json(seq![b]) =~= seq![block_json(b)]);
            assert(group_insert(gs, b) =~= to_groups(run_insert(rs, b)));
        }
    }
}

/// The runs of blocks that stand together by category hold the blocks in
/// their order.
pub proof fn lemma_runs_tidy(bs: Seq<BlockModel>)
    requires
        grouped(bs),
    ensures
        tidy(runs(bs), bs),
    decreases bs.len(),
{
    if bs.len() > 0 {
        let rest = bs.drop_last();
        let b = bs.last();
        assert(grouped(rest)) by {
            assert forall|i: int, j: int, k: int|
                0 <= i < j < k < rest.len() && (#[trigger] rest[i]).category == (
                #[trigger] rest[k]).category implies (#[trigger] rest[j]).category
                == rest[i].category by {
                assert(rest[i] == bs[i] && rest[j] == bs[j] && rest[k] == bs[k]);
            }
        }
        lemma_runs_tidy(rest);
        let rs = runs(rest);
        let out = runs(bs);
        let gs = to_groups(rs);
        let p = group_position(gs, b.category);
        lemma_group_position(gs, b.category);
        assert forall|i: int| 0 <= i < rs.len() implies occurs(bs, (#[trigger] rs[i]).category) by {
            assert(occurs(rest, rs[i].category));
            let j = choose|j: int| 0 <= j < rest.len() && (#[trigger] rest[j]).category
                == rs[i].category;
            assert(bs[j] == rest[j]);
        }
        assert(bs[bs.len() - 1].category == b.category);
        if 0 <= p < rs.len() {
            assert(gs[p].category == b.category);
            assert(rs[p].category == b.category);
            assert(occurs(rest, rs[p].category));
            let j = choose|j: int| 0 <= j < rest.len() && (#[trigger] rest[j]).category
                == rs[p].category;
            assert(rest[j] == bs[j]);
            let m = rest.len() - 1;
            assert(rest[m] == bs[m]);
            if j < m {
                assert(bs[j].category == bs[bs.len() - 1].category);
                assert(bs[m].category == bs[j].category);
            }
            assert(rest.last().category == b.category);
            assert(rs.last().category == b.category);
            if p != rs.len() - 1 {
                assert(rs[p].category != rs[rs.len() - 1].category);
            }
            assert(p == rs.len() - 1);
            assert(out.drop_last() =~= rs.drop_last());
            assert(out.last().blocks == rs.last().blocks.push(b));
            assert(flatten(out) =~= flatten(rs).push(b));
            assert(flatten(out) =~= bs);
            assert forall|i: int, k: int|
                0 <= i < out.len() && 0 <= k < out[i].blocks.len() implies (
            #[trigger] out[i].blocks[k]).category == out[i].category by {
                if i < p {
                    assert(out[i] == rs[i]);
                    assert(rs[i].blocks[k].category == rs[i].category);
                } else if k < rs[p].blocks.len() {
                    assert(out[i].blocks[k] == rs[p].blocks[k]);
                    assert(rs[p].blocks[k].category == rs[p].category);
                }
            }
            assert forall|i: int, k: int|
                0 <= i < out.len() && 0 <= k < out.len() && i != k implies (
            #[trigger] out[i]).category != (#[trigger] out[k]).category by {
                assert(out[i].category == rs[i].category);
                assert(out[k].category == rs[k].category);
            }
            assert forall|i: int| 0 <= i < out.len() implies occurs(
                bs,
                (#[trigger] out[i]).category,
            ) by {
                assert(out[i].category == rs[i].category);
            }
        } else {
            assert(out == rs.push(Run { category: b.category, blocks: seq![b] }));
            assert(out.drop_last() =~= rs);
            assert(flatten(out) =~= flatten(rs).push(b));
            assert(flatten(out) =~= bs);
            assert forall|i: int| 0 <= i < rs.len() implies (#[trigger] rs[i]).category
                != b.category by {
                assert(gs[i].category != b.category);
            }
            assert forall|i: int, k: int|
                0 <= i < out.len() && 0 <= k < out[i].blocks.len() implies (
            #[trigger] out[i].blocks[k]).category == out[i].category by {
                if i < rs.len() {
                    assert(out[i] == rs[i]);
                    assert(rs[i].blocks[k].category == rs[i].category);
                }
            }
            assert forall|i: int, k: int|
                0 <= i < out.len() && 0 <= k < out.len() && i != k implies (
            #[trigger] out[i]).category != (#[trigger] out[k]).category by {
                if i < rs.len() && k < rs.len() {
                    assert(out[i] == rs[i] && out[k] == rs[k]);
                } else if i < rs.len() {
                    assert(out[i] == rs[i]);
                } else {
                    assert(out[k] == rs[k]);
                }
            }
            assert forall|i: int| 0 <= i < out.len() implies occurs(
                bs,
                (#[trigger] out[i]).category,
            ) by {
                if i < rs.len() {
                    assert(out[i] == rs[i]);
                }
            }
        }
    } else {
        assert(flatten(runs(bs)) =~= bs);
    }
}

/// Reading the JSON forms of good blocks of one category from index `j`
/// on, behind the blocks before them, gives all of them.
pub proof fn lemma_blocks_round_trip(
    category: Seq<u8>,
    blocks: Seq<BlockModel>,
    j: int,
    acc: Seq<BlockModel>,
)
    requires
        0 <= j <= blocks.len(),
        forall|k: int|
            0 <= k < blocks.len() ==> good_block(#[trigger] blocks[k]) && blocks[k].category
                == category,
    ensures
        read_blocks(category, blocks_json(blocks), j, acc + blocks.take(j)) == Ok::<
            Seq<BlockModel>,
            ErrorModel,
        >(acc + blocks),
    decreases blocks.len() - j,
{
    if j == blocks.len() {
        assert(blocks.take(j) =~= blocks);
    } else {
        assert(blocks_json(blocks)[j] == block_json(blocks[j]));
        assert(good_block(blocks[j]));
        lemma_block_round_trip(blocks[j]);
        assert((acc + blocks.take(j)).push(blocks[j]) =~= acc + blocks.take(j + 1));
        lemma_blocks_round_trip(category, blocks, j + 1, acc);
    }
}

/// Reading the groups of runs of good blocks from index `i` on, behind the
/// blocks of the runs before them, gives the blocks of all runs.
pub proof fn lemma_runs_round_trip(rs: Seq<Run>, i: int)
    requires
        0 <= i <= rs.len(),
        forall|a: int, k: int|
            0 <= a < rs.len() && 0 <= k < rs[a].blocks.len() ==> good_block(
                #[trigger] rs[a].blocks[k],
            ) && rs[a].blocks[k].category == rs[a].category,
        forall|a: int| 0 <= a < rs.len() ==> is_category((#[trigger] rs[a]).category),
    ensures
        read_groups(group_members(to_groups(rs)), i, flatten(rs.take(i))) == Ok::<
            Seq<BlockModel>,
            ErrorModel,
        >(flatten(rs)),
    decreases rs.len() - i,
{
    let gm = group_members(to_groups(rs));
    if i == rs.len() {
        assert(rs.take(i) =~= rs);
    } else {
        let run = rs[i];
        assert(gm[i] == MemberModel {
            key: run.category,
            value: JsonModel::Array(blocks_json(run.blocks)),
        });
        assert(is_category(run.category));
        assert forall|k: int| 0 <= k < run.blocks.len() implies good_block(
            #[trigger] run.blocks[k],
        ) && run.blocks[k].category == run.category by {
            assert(good_block(rs[i].blocks[k]));
        }
        let acc = flatten(rs.take(i));
        lemma_blocks_round_trip(run.category, run.blocks, 0, acc);
        assert(acc + run.blocks.take(0) =~= acc);
        let next = rs.take(i + 1);
        assert(next.drop_last() =~= rs.take(i));
        assert(next.last() == run);
        assert(flatten(next) == acc + run.blocks);
        lemma_runs_round_trip(rs, i + 1);
    }
}

/// Every block of tidy runs is a block of the document.
pub proof fn lemma_flatten_member(rs: Seq<Run>, a: int, k: int)
    requires
        0 <= a < rs.len(),
        0 <= k < rs[a].blocks.len(),
    ensures
        exists|m: int| 0 <= m < flatten(rs).len() && #[trigger] flatten(rs)[m] == rs[a].blocks[k],
    decreases rs.len(),
{
    let front = flatten(rs.drop_last());
    if a == rs.len() - 1 {
        assert(flatten(rs)[front.len() + k] == rs[a].blocks[k]);
    } else {
        assert(rs.drop_last()[a] == rs[a]);
        lemma_flatten_member(rs.drop_last(), a, k);
        let m = choose|m: int| 0 <= m < front.len() && #[trigger] front[m] == rs[a].blocks[k];
        assert(flatten(rs)[m] == front[m]);
    }
}

/// JSON round trip. Reading the JSON form of a well-formed document whose
/// blocks stand together by category gives the document back; so writing
/// what was read from such a JSON value gives that JSON value back.
pub proof fn law_json_round_trip(doc: DocumentModel)
    requires
        well_formed(doc),
        grouped(doc.blocks),
    ensures
        json_document(document_json(doc)) == Ok::<DocumentModel, ErrorModel>(doc),
        document_json(json_document(document_json(doc))->Ok_0) == document_json(doc),
{
    let ds = doc.directives;
    let bs = doc.blocks;
    let ms = document_json(doc)->Object_0;
    let none = Seq::<BlockModel>::empty();
    let start = DocumentModel { directives: Seq::empty(), blocks: Seq::empty() };
    assert(ds.take(0) =~= Seq::<DirectiveModel>::empty());
    assert forall|k: int| 0 <= k < ds.len() implies #[trigger] ms[k] == scope_members(ds)[k] by {}
    lemma_members_round_trip(ms, ds, none, 0);
    let mid = DocumentModel { directives: ds, blocks: none };
    if bs.len() == 0 {
        assert(ms.len() == ds.len());
        assert(bs =~= none);
        assert(read_members(ms, ds.len() as int, mid) == Ok::<DocumentModel, ErrorModel>(mid));
    } else {
        let rs = runs(bs);
        lemma_groups_are_runs(bs);
        lemma_runs_tidy(bs);
        assert forall|a: int, k: int|
            0 <= a < rs.len() && 0 <= k < rs[a].blocks.len() implies good_block(
            #[trigger] rs[a].blocks[k],
        ) && rs[a].blocks[k].category == rs[a].category by {
            lemma_flatten_member(rs, a, k);
            let m = choose|m: int|
                0 <= m < flatten(rs).len() && #[trigger] flatten(rs)[m] == rs[a].blocks[k];
            assert(good_block(bs[m]));
        }
        assert forall|a: int| 0 <= a < rs.len() implies is_category(
            (#[trigger] rs[a]).category,
        ) by {
            assert(occurs(bs, rs[a].category));
            let j = choose|j: int| 0 <= j < bs.len() && (#[trigger] bs[j]).category
                == rs[a].category;
            assert(good_block(bs[j]));
        }
        lemma_runs_round_trip(rs, 0);
        assert(rs.take(0) =~= Seq::<Run>::empty());
        assert(flatten(rs.take(0)) =~= none);
        let gm = group_members(groups(bs));
        assert(ms[ds.len() as int] == MemberModel {
            key: "match".spec_bytes(),
            value: JsonModel::Object(gm),
        });
        assert(read_member(mid, ms[ds.len() as int].key, ms[ds.len() as int].value) == Ok::<
            DocumentModel,
            ErrorModel,
        >(doc));
        assert(read_members(ms, (ds.len() + 1) as int, doc) == Ok::<DocumentModel, ErrorModel>(doc));
    }
}

/// Runs as grouping makes them: none is empty, each holds blocks of its
/// own category only, and no two share a category.
pub open spec fn neat(rs: Seq<Run>) -> bool {
    &&& forall|i: int| 0 <= i < rs.len() ==> (#[trigger] rs[i]).blocks.len() > 0
    &&& forall|i: int, j: int|
        0 <= i < rs.len() && 0 <= j < rs[i].blocks.len() ==> (#[trigger] rs[i].blocks[j]).category
            == rs[i].category
    &&& forall|i: int, j: int|
        0 <= i < rs.len() && 0 <= j < rs.len() && i != j ==> (#[trigger] rs[i]).category != (
        #[trigger] rs[j]).category
}

/// Each block of the runs is one of the blocks `bs`.
pub open spec fn drawn_from(rs: Seq<Run>, bs: Seq<BlockModel>) -> bool {
    forall|i: int, j: int|
        0 <= i < rs.len() && 0 <= j < rs[i].blocks.len() ==> bs.contains(
            #[trigger] rs[i].blocks[j],
        )
}

/// The runs of any blocks are neat and hold blocks of the list only.
pub proof fn lemma_runs_neat(bs: Seq<BlockModel>)
    ensures
        neat(runs(bs)),
        drawn_from(runs(bs), bs),
        bs.len() > 0 ==> runs(bs).len() > 0,
    decreases bs.len(),
{
    if bs.len() > 0 {
        let rest = bs.drop_last();
        let b = bs.last();
        lemma_runs_neat(rest);
        let rs = runs(rest);
        let out = runs(bs);
        let gs = to_groups(rs);
        let p = group_position(gs, b.category);
        lemma_group_position(gs, b.category);
        assert(bs[bs.len() - 1] == b);
        assert forall|i: int, j: int|
            0 <= i < rs.len() && 0 <= j < rs[i].blocks.len() implies bs.contains(
            #[trigger] rs[i].blocks[j],
        ) by {
            assert(rest.contains(rs[i].blocks[j]));
            let m = choose|m: int| 0 <= m < rest.len() && rest[m] == rs[i].blocks[j];
            assert(bs[m] == rest[m]);
        }
        if 0 <= p < rs.len() {
            assert(gs[p].category == b.category);
            assert forall|i: int| 0 <= i < out.len() implies (#[trigger] out[i]).blocks.len()
                > 0 by {
                if i != p {
                    assert(out[i] == rs[i]);
                }
            }
            assert forall|i: int, j: int|
                0 <= i < out.len() && 0 <= j < out[i].blocks.len() implies (
            #[trigger] out[i].blocks[j]).category == out[i].category && bs.contains(
                out[i].blocks[j],
            ) by {
                if i != p {
                    assert(out[i] == rs[i]);
                    assert(rs[i].blocks[j].category == rs[i].category);
                    assert(bs.contains(rs[i].blocks[j]));
                } else if j < rs[p].blocks.len() {
                    assert(out[i].blocks[j] == rs[p].blocks[j]);
                    assert(rs[p].blocks[j].category == rs[p].category);
                    assert(bs.contains(rs[p].blocks[j]));
                }
            }
            assert forall|i: int, j: int|
                0 <= i < out.len() && 0 <= j < out.len() && i != j implies (
            #[trigger] out[i]).category != (#[trigger] out[j]).category by {
                assert(out[i].category == rs[i].category);
                assert(out[j].category == rs[j].category);
            }
        } else {
            assert forall|i: int| 0 <= i < rs.len() implies (#[trigger] rs[i]).category
                != b.category by {
                assert(gs[i].category != b.category);
            }
            assert forall|i: int| 0 <= i < out.len() implies (#[trigger] out[i]).blocks.len()
                > 0 by {
                if i < rs.len() {
                    assert(out[i] == rs[i]);
                }
            }
            assert forall|i: int, j: int|
                0 <= i < out.len() && 0 <= j < out[i].blocks.len() implies (
            #[trigger] out[i].blocks[j]).category == out[i].category && bs.contains(
                out[i].blocks[j],
            ) by {
                if i < rs.len() {
                    assert(out[i] == rs[i]);
                    assert(rs[i].blocks[j].category == rs[i].category);
                    assert(bs.contains(rs[i].blocks[j]));
                }
            }
            assert forall|i: int, j: int|
                0 <= i < out.len() && 0 <= j < out.len() && i != j implies (
            #[trigger] out[i]).category != (#[trigger] out[j]).category by {
                if i < rs.len() {
                    assert(out[i] == rs[i]);
                }
                if j < rs.len() {
                    assert(out[j] == rs[j]);
                }
            }
        }
    }
}

/// Grouping the blocks of neat runs whose last run is cut after `k` blocks
/// gives those runs back.
pub proof fn lemma_runs_of_flatten(rs: Seq<Run>, k: int)
    requires
        neat(rs),
        rs.len() > 0,
        0 <= k <= rs.last().blocks.len(),
    ensures
        runs(flatten(rs.drop_last()) + rs.last().blocks.take(k)) == if k == 0 {
            rs.drop_last()
        } else {
            rs.drop_last().push(
                Run { category: rs.last().category, blocks: rs.last().blocks.take(k) },
            )
        },
    decreases rs.len(), k,
{
    let front = rs.drop_last();
    let last = rs.last();
    let sofar = flatten(front) + last.blocks.take(k);
    assert(neat(front)) by {
        assert forall|i: int| 0 <= i < front.len() implies (#[trigger] front[i]) == rs[i] by {}
        assert forall|i: int| 0 <= i < front.len() implies (#[trigger] front[i]).blocks.len()
            > 0 by {
            assert(front[i] == rs[i]);
        }
        assert forall|i: int, j: int|
            0 <= i < front.len() && 0 <= j < front[i].blocks.len() implies (
        #[trigger] front[i].blocks[j]).category == front[i].category by {
            assert(front[i] == rs[i]);
            assert(rs[i].blocks[j].category == rs[i].category);
        }
        assert forall|i: int, j: int|
            0 <= i < front.len() && 0 <= j < front.len() && i != j implies (
        #[trigger] front[i]).category != (#[trigger] front[j]).category by {
            assert(front[i] == rs[i] && front[j] == rs[j]);
        }
    }
    if k == 0 {
        assert(sofar =~= flatten(front));
        if front.len() > 0 {
            lemma_runs_of_flatten(front, front.last().blocks.len() as int);
            assert(front.last().blocks.take(front.last().blocks.len() as int)
                =~= front.last().blocks);
            assert(front.drop_last().push(
                Run { category: front.last().category, blocks: front.last().blocks },
            ) =~= front);
            assert(front.last().blocks.len() > 0);
        } else {
            assert(runs(flatten(front)) =~= front);
        }
    } else {
        lemma_runs_of_flatten(rs, k - 1);
        let b = last.blocks[k - 1];
        let before = flatten(front) + last.blocks.take(k - 1);
        assert(sofar =~= before.push(b));
        assert(sofar.drop_last() =~= before);
        assert(sofar.last() == b);
        let had = runs(before);
        let gs = to_groups(had);
        assert(rs[rs.len() - 1].blocks[k - 1].category == rs[rs.len() - 1].category);
        assert(b.category == last.category);
        assert forall|i: int| 0 <= i < front.len() implies (#[trigger] gs[i]).category
            != b.category by {
            assert(had[i] == rs[i]);
            assert(rs[i].category != rs[rs.len() - 1].category);
        }
        if k == 1 {
            assert(had == front);
            lemma_group_position_is(gs, b.category, front.len() as int);
            assert(last.blocks.take(1) =~= seq![b]);
        } else {
            assert(had.len() == front.len() + 1);
            assert(gs[front.len() as int].category == b.category);
            lemma_group_position_is(gs, b.category, front.len() as int);
            assert(last.blocks.take(k - 1).push(b) =~= last.blocks.take(k));
            assert(had.update(
                front.len() as int,
                Run { category: last.category, blocks: last.blocks.take(k) },
            ) =~= front.push(Run { category: last.category, blocks: last.blocks.take(k) }));
        }
    }
}

/// The blocks of neat runs are as many as the runs hold, and grouping
/// them gives the runs back.
pub proof fn lemma_runs_fixed(rs: Seq<Run>)
    requires
        neat(rs),
    ensures
        runs(flatten(rs)) == rs,
        rs.len() > 0 ==> flatten(rs).len() > 0,
{
    if rs.len() > 0 {
        let last = rs.last();
        lemma_runs_of_flatten(rs, last.blocks.len() as int);
        assert(last.blocks.take(last.blocks.len() as int) =~= last.blocks);
        assert(rs.drop_last().push(Run { category: last.category, blocks: last.blocks })
            =~= rs);
        assert(rs[rs.len() - 1].blocks.len() > 0);
    } else {
        assert(flatten(rs) =~= Seq::<BlockModel>::empty());
        assert(runs(flatten(rs)) =~= rs);
    }
}

/// JSON round trip, from the JSON side. What the library writes as the
/// JSON form of a well-formed document it reads, and writing what it read
/// gives the same JSON value again.
pub proof fn law_json_fixed_point(doc: DocumentModel)
    requires
        well_formed(doc),
    ensures
        json_document(document_json(doc)) is Ok,
        document_json(json_document(document_json(doc))->Ok_0) == document_json(doc),
{
    let ds = doc.directives;
    let bs = doc.blocks;
    let ms = document_json(doc)->Object_0;
    let none = Seq::<BlockModel>::empty();
    assert(ds.take(0) =~= Seq::<DirectiveModel>::empty());
    assert forall|k: int| 0 <= k < ds.len() implies #[trigger] ms[k] == scope_members(ds)[k] by {}
    lemma_members_round_trip(ms, ds, none, 0);
    let mid = DocumentModel { directives: ds, blocks: none };
    if bs.len() == 0 {
        assert(ms.len() == ds.len());
        assert(read_members(ms, ds.len() as int, mid) == Ok::<DocumentModel, ErrorModel>(mid));
    } else {
        let rs = runs(bs);
        lemma_groups_are_runs(bs);
        lemma_runs_neat(bs);
        assert forall|a: int, k: int|
            0 <= a < rs.len() && 0 <= k < rs[a].blocks.len() implies good_block(
            #[trigger] rs[a].blocks[k],
        ) && rs[a].blocks[k].category == rs[a].category by {
            assert(bs.contains(rs[a].blocks[k]));
            let m = choose|m: int| 0 <= m < bs.len() && bs[m] == rs[a].blocks[k];
            assert(good_block(bs[m]));
        }
        assert forall|a: int| 0 <= a < rs.len() implies is_category(
            (#[trigger] rs[a]).category,
        ) by {
            assert(rs[a].blocks.len() > 0);
            assert(good_block(rs[a].blocks[0]));
            assert(rs[a].blocks[0].category == rs[a].category);
        }
        lemma_runs_round_trip(rs, 0);
        assert(rs.take(0) =~= Seq::<Run>::empty());
        assert(flatten(rs.take(0)) =~= none);
        let read = DocumentModel { directives: ds, blocks: flatten(rs) };
        let gm = group_members(groups(bs));
        assert(ms[ds.len() as int] == MemberModel {
            key: "match".spec_bytes(),
            value: JsonModel::Object(gm),
        });
        assert(read_member(mid, ms[ds.len() as int].key, ms[ds.len() as int].value) == Ok::<
            DocumentModel,
            ErrorModel,
        >(read));
        assert(read_members(ms, (ds.len() + 1) as int, read) == Ok::<DocumentModel, ErrorModel>(
            read,
        ));
        lemma_runs_fixed(rs);
        lemma_groups_are_runs(flatten(rs));
    }
}

} // verus!
