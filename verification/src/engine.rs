//! The reconciliation engine: get, test and set over the document model.

use vstd::prelude::*;
use vstd::string::StringSliceAdditionalSpecFns;
use crate::bytes::{bytes_eq, lower_seq, to_lower};
use crate::error::{ConfigError, ErrorModel};
use crate::json::{JsonModel, JsonValue, Member, MemberModel};
use crate::model::{
    block_position, copy_bytes, find_block, find_directive, lemma_block_position_is,
    lemma_views_push, position, views,
    BlockModel, ConfigDocument, Directive, DirectiveModel, DocumentModel, Ensure, MatchBlock,
};
use crate::parser::{parse, parse_text};
use crate::registry::{lookup_canonical, lookup_lower};
use crate::wellformed::{no_flags, well_formed};
use crate::wf_laws::law_apply_well_formed;
use crate::writer::{document_text, serialize};
use crate::serializer::{
    document_json, group_members, groups, literal, match_to_json, to_json, value_json,
    value_to_json,
};

verus! {

/// The canonical forms of a list of names.
pub open spec fn canonical_names(names: Seq<Seq<u8>>) -> Seq<Seq<u8>> {
    Seq::new(names.len(), |i: int| lower_seq(names[i]))
}

/// The first of the canonical names `canon`, from index `i` on, that the
/// registry does not hold.
pub open spec fn first_unknown(canon: Seq<Seq<u8>>, i: int) -> Option<Seq<u8>>
    decreases canon.len() - i,
{
    if i < 0 || i >= canon.len() {
        None
    } else if lookup_canonical(canon[i]) is None {
        Some(canon[i])
    } else {
        first_unknown(canon, i + 1)
    }
}

/// The directives of a scope whose keyword is one of `canon`, in order.
pub open spec fn filter_scope(ds: Seq<DirectiveModel>, canon: Seq<Seq<u8>>) -> Seq<
    DirectiveModel,
>
    decreases ds.len(),
{
    if ds.len() == 0 {
        Seq::empty()
    } else if canon.contains(ds.last().keyword) {
        filter_scope(ds.drop_last(), canon).push(ds.last())
    } else {
        filter_scope(ds.drop_last(), canon)
    }
}

/// A block reduced to the directives whose keyword is one of `canon`.
pub open spec fn filter_block(b: BlockModel, canon: Seq<Seq<u8>>) -> BlockModel {
    BlockModel {
        category: b.category,
        criteria: b.criteria,
        directives: filter_scope(b.directives, canon),
        ensure: b.ensure,
    }
}

/// The blocks that hold a directive with a keyword of `canon`, each reduced
/// to those directives, in order.
pub open spec fn filter_blocks(bs: Seq<BlockModel>, canon: Seq<Seq<u8>>) -> Seq<BlockModel>
    decreases bs.len(),
{
    if bs.len() == 0 {
        Seq::empty()
    } else if filter_scope(bs.last().directives, canon).len() > 0 {
        filter_blocks(bs.drop_last(), canon).push(filter_block(bs.last(), canon))
    } else {
        filter_blocks(bs.drop_last(), canon)
    }
}

/// A document reduced to the keywords of `canon`.
pub open spec fn filter_document(doc: DocumentModel, canon: Seq<Seq<u8>>) -> DocumentModel {
    DocumentModel {
        directives: filter_scope(doc.directives, canon),
        blocks: filter_blocks(doc.blocks, canon),
    }
}

/// The keywords of a scope, in order.
pub open spec fn scope_keywords(ds: Seq<DirectiveModel>) -> Seq<Seq<u8>> {
    Seq::new(ds.len(), |i: int| ds[i].keyword)
}

/// The keywords of the blocks, block after block.
pub open spec fn block_keywords(bs: Seq<BlockModel>) -> Seq<Seq<u8>>
    decreases bs.len(),
{
    if bs.len() == 0 {
        Seq::empty()
    } else {
        block_keywords(bs.drop_last()) + scope_keywords(bs.last().directives)
    }
}

/// The keywords that a document declares: those of the top level, then
/// those of each block.
pub open spec fn document_keywords(doc: DocumentModel) -> Seq<Seq<u8>> {
    scope_keywords(doc.directives) + block_keywords(doc.blocks)
}

/// What `get` returns: the whole document where no keywords are asked for;
/// else the document reduced to them, or the first of them that the
/// registry does not hold.
pub open spec fn get_result(doc: DocumentModel, names: Option<Seq<Seq<u8>>>) -> Result<
    JsonModel,
    ErrorModel,
> {
    match names {
        None => Ok(document_json(doc)),
        Some(ns) => match first_unknown(canonical_names(ns), 0) {
            Some(k) => Err(ErrorModel::UnknownKeyword { keyword: k }),
            None => Ok(document_json(filter_document(doc, canonical_names(ns)))),
        },
    }
}

fn contains_name(canon: &Vec<Vec<u8>>, kw: &[u8]) -> (r: bool)
    ensures
        r == views(canon@).contains(kw@),
{
    let mut i: usize = 0;
    while i < canon.len()
        invariant
            0 <= i <= canon@.len(),
            forall|j: int| 0 <= j < i ==> views(canon@)[j] != kw@,
        decreases canon@.len() - i,
    {
        if bytes_eq(canon[i].as_slice(), kw) {
            assert(views(canon@)[i as int] == kw@);
            return true;
        }
        i += 1;
    }
    false
}

fn filtered_scope(ds: &Vec<Directive>, canon: &Vec<Vec<u8>>) -> (r: Vec<Directive>)
    ensures
        views(r@) == filter_scope(views(ds@), views(canon@)),
{
    let mut out: Vec<Directive> = Vec::new();
    let mut i: usize = 0;
    assert(views(out@) =~= filter_scope(views(ds@).take(0), views(canon@)));
    while i < ds.len()
        invariant
            0 <= i <= ds@.len(),
            views(out@) == filter_scope(views(ds@).take(i as int), views(canon@)),
        decreases ds@.len() - i,
    {
        proof {
            let next = views(ds@).take(i + 1);
            assert(next.drop_last() =~= views(ds@).take(i as int));
            assert(next.last() == ds@[i as int]@);
        }
        if contains_name(canon, ds[i].keyword.as_slice()) {
            let d = ds[i].duplicate();
            proof {
                lemma_views_push(out@, d);
            }
            out.push(d);
        }
        i += 1;
    }
    assert(views(ds@).take(i as int) =~= views(ds@));
    out
}

fn filtered_blocks(bs: &Vec<MatchBlock>, canon: &Vec<Vec<u8>>) -> (r: Vec<MatchBlock>)
    ensures
        views(r@) == filter_blocks(views(bs@), views(canon@)),
{
    let mut out: Vec<MatchBlock> = Vec::new();
    let mut i: usize = 0;
    assert(views(out@) =~= filter_blocks(views(bs@).take(0), views(canon@)));
    while i < bs.len()
        invariant
            0 <= i <= bs@.len(),
            views(out@) == filter_blocks(views(bs@).take(i as int), views(canon@)),
        decreases bs@.len() - i,
    {
        proof {
            let next = views(bs@).take(i + 1);
            assert(next.drop_last() =~= views(bs@).take(i as int));
            assert(next.last() == bs@[i as int]@);
        }
        let kept = filtered_scope(&bs[i].directives, canon);
        if kept.len() > 0 {
            let b = MatchBlock {
                category: copy_bytes(&bs[i].category),
                criteria: copy_bytes(&bs[i].criteria),
                directives: kept,
                ensure: bs[i].ensure,
            };
            proof {
                lemma_views_push(out@, b);
            }
            out.push(b);
        }
        i += 1;
    }
    assert(views(bs@).take(i as int) =~= views(bs@));
    out
}

fn push_keywords(out: &mut Vec<Vec<u8>>, ds: &Vec<Directive>)
    ensures
        views(final(out)@) == views(old(out)@) + scope_keywords(views(ds@)),
{
    let ghost before = views(out@);
    let ghost want = scope_keywords(views(ds@));
    let mut i: usize = 0;
    assert(views(out@) =~= before + want.take(0));
    while i < ds.len()
        invariant
            0 <= i <= ds@.len(),
            want == scope_keywords(views(ds@)),
            views(out@) == before + want.take(i as int),
        decreases ds@.len() - i,
    {
        let name = copy_bytes(&ds[i].keyword);
        proof {
            lemma_views_push(out@, name);
            assert(views(ds@)[i as int] == ds@[i as int]@);
            assert((before + want.take(i as int)).push(name@) =~= before + want.take(i + 1));
        }
        out.push(name);
        i += 1;
    }
    assert(want.take(i as int) =~= want);
}

impl ConfigDocument {
    /// The keywords that this document declares: those of the top level,
    /// then those of each block. A desired state names in this way what
    /// `get` is to return.
    pub fn keywords(&self) -> (r: Vec<Vec<u8>>)
        ensures
            views(r@) == document_keywords(self@),
    {
        let mut out: Vec<Vec<u8>> = Vec::new();
        push_keywords(&mut out, &self.directives);
        let ghost top = views(out@);
        assert(top =~= scope_keywords(self@.directives));
        let mut i: usize = 0;
        assert(views(out@) =~= top + block_keywords(self@.blocks.take(0)));
        while i < self.blocks.len()
            invariant
                0 <= i <= self.blocks@.len(),
                views(out@) == top + block_keywords(self@.blocks.take(i as int)),
            decreases self.blocks@.len() - i,
        {
            push_keywords(&mut out, &self.blocks[i].directives);
            proof {
                let next = self@.blocks.take(i + 1);
                assert(next.drop_last() =~= self@.blocks.take(i as int));
                assert(next.last() == self.blocks@[i as int]@);
                assert(views(out@) =~= top + block_keywords(next));
            }
            i += 1;
        }
        assert(self@.blocks.take(i as int) =~= self@.blocks);
        out
    }

    /// The current configuration in JSON form.
    ///
    /// Without `keywords` the whole document is returned. With them, only
    /// the directives that they name, at the top level and inside each
    /// block; a block that holds none of them is left out. A keyword that
    /// the registry does not hold is an error.
    pub fn get(&self, keywords: &Option<Vec<Vec<u8>>>) -> (r: Result<JsonValue, ConfigError>)
        ensures
            match r {
                Ok(j) => get_result(
                    self@,
                    match keywords {
                        Some(ns) => Some(views(ns@)),
                        None => None,
                    },
                ) == Ok::<JsonModel, ErrorModel>(j@),
                Err(e) => get_result(
                    self@,
                    match keywords {
                        Some(ns) => Some(views(ns@)),
                        None => None,
                    },
                ) == Err::<JsonModel, ErrorModel>(e@),
            },
    {
        let names = match keywords {
            None => {
                return Ok(to_json(self));
            },
            Some(names) => names,
        };
        let ghost want = canonical_names(views(names@));
        let mut canon: Vec<Vec<u8>> = Vec::new();
        let mut i: usize = 0;
        assert(views(canon@) =~= want.take(0));
        while i < names.len()
            invariant
                0 <= i <= names@.len(),
                want == canonical_names(views(names@)),
                views(canon@) == want.take(i as int),
            decreases names@.len() - i,
        {
            let name = to_lower(names[i].as_slice());
            proof {
                lemma_views_push(canon@, name);
                assert(views(names@)[i as int] == names@[i as int]@);
                assert(want.take(i as int).push(name@) =~= want.take(i + 1));
            }
            canon.push(name);
            i += 1;
        }
        assert(want.take(i as int) =~= want);
        let mut k: usize = 0;
        while k < canon.len()
            invariant
                0 <= k <= canon@.len(),
                views(canon@) == want,
                keywords == Some(*names),
                want == canonical_names(views(names@)),
                first_unknown(want, 0) == first_unknown(want, k as int),
            decreases canon@.len() - k,
        {
            assert(views(canon@)[k as int] == canon@[k as int]@);
            if lookup_lower(canon[k].as_slice()).is_none() {
                return Err(ConfigError::UnknownKeyword { keyword: copy_bytes(&canon[k]) });
            }
            k += 1;
        }
        let reduced = ConfigDocument {
            directives: filtered_scope(&self.directives, &canon),
            blocks: filtered_blocks(&self.blocks, &canon),
        };
        Ok(to_json(&reduced))
    }
}

/// Whether a scope fails to give the keyword of `d` the value of `d`.
pub open spec fn mismatch(current: Seq<DirectiveModel>, d: DirectiveModel) -> bool {
    let p = position(current, d.keyword);
    !(0 <= p < current.len()) || current[p].value != d.value
}

/// The `current` / `desired` pair that a difference is reported as.
pub open spec fn difference(current: JsonModel, desired: JsonModel) -> JsonModel {
    JsonModel::Object(
        seq![
            MemberModel { key: "current".spec_bytes(), value: current },
            MemberModel { key: "desired".spec_bytes(), value: desired },
        ],
    )
}

/// The value that a scope gives a keyword, in JSON form; `null` where it
/// gives none.
pub open spec fn current_json(current: Seq<DirectiveModel>, kw: Seq<u8>) -> JsonModel {
    let p = position(current, kw);
    if 0 <= p < current.len() {
        value_json(current[p].value)
    } else {
        JsonModel::Null
    }
}

/// The declared directives that a scope does not meet, each with its
/// current and its desired value, in the order of the declaration.
pub open spec fn scope_diff(current: Seq<DirectiveModel>, desired: Seq<DirectiveModel>) -> Seq<
    MemberModel,
>
    decreases desired.len(),
{
    if desired.len() == 0 {
        Seq::empty()
    } else if mismatch(current, desired.last()) {
        scope_diff(current, desired.drop_last()).push(
            MemberModel {
                key: desired.last().keyword,
                value: difference(
                    current_json(current, desired.last().keyword),
                    value_json(desired.last().value),
                ),
            },
        )
    } else {
        scope_diff(current, desired.drop_last())
    }
}

/// Whether the blocks of a configuration meet one declared block: a block
/// declared absent must not exist; any other must exist and meet every
/// directive that the declaration holds.
pub open spec fn block_met(current: Seq<BlockModel>, b: BlockModel) -> bool {
    let p = block_position(current, b.category, b.criteria);
    if b.ensure == Some(Ensure::Absent) {
        !(0 <= p < current.len())
    } else {
        0 <= p < current.len() && scope_diff(current[p].directives, b.directives).len() == 0
    }
}

/// Whether a block of the category and criteria of the block at index `i`
/// stands before it in the declaration. A block that is declared more than
/// once counts as it is declared first; the later declarations of it are
/// passed over by `test` and by `set` alike.
pub open spec fn declared_before(desired: Seq<BlockModel>, i: int) -> bool {
    block_position(desired.take(i), desired[i].category, desired[i].criteria) < i
}

/// Whether the blocks of a configuration meet the first `n` declared
/// blocks, each as it is declared first.
pub open spec fn blocks_met(current: Seq<BlockModel>, desired: Seq<BlockModel>, n: int) -> bool {
    forall|i: int|
        0 <= i < n && i < desired.len() && !declared_before(desired, i) ==> block_met(
            current,
            #[trigger] desired[i],
        )
}

/// The JSON form of a list of blocks.
pub open spec fn match_json(bs: Seq<BlockModel>) -> JsonModel {
    JsonModel::Object(group_members(groups(bs)))
}

/// The declared blocks, among the first `n`, that a configuration does not
/// meet, each as it is declared first, in the order of the declaration.
pub open spec fn unmet_blocks(current: Seq<BlockModel>, desired: Seq<BlockModel>, n: int) -> Seq<
    BlockModel,
>
    decreases n,
{
    if n <= 0 || n > desired.len() {
        Seq::empty()
    } else if !declared_before(desired, n - 1) && !block_met(current, desired[n - 1]) {
        unmet_blocks(current, desired, n - 1).push(desired[n - 1])
    } else {
        unmet_blocks(current, desired, n - 1)
    }
}

/// The blocks of a configuration that declared blocks name: for each
/// declared block the first block of its category and criteria, where
/// there is one, in the order of the declaration.
pub open spec fn named_blocks(current: Seq<BlockModel>, named: Seq<BlockModel>) -> Seq<BlockModel>
    decreases named.len(),
{
    if named.len() == 0 {
        Seq::empty()
    } else {
        let p = block_position(current, named.last().category, named.last().criteria);
        if 0 <= p < current.len() {
            named_blocks(current, named.drop_last()).push(current[p])
        } else {
            named_blocks(current, named.drop_last())
        }
    }
}

/// The members of the difference between a configuration and a desired
/// state: one for each top-level keyword that is not met, and `match` where
/// a declared block is not met. Under `match` stand the declared blocks
/// that are not met and, as their current value, the blocks of the
/// configuration that they name; blocks that are met are left out.
pub open spec fn diff_members(current: DocumentModel, desired: DocumentModel) -> Seq<MemberModel> {
    let unmet = unmet_blocks(current.blocks, desired.blocks, desired.blocks.len() as int);
    if unmet.len() == 0 {
        scope_diff(current.directives, desired.directives)
    } else {
        scope_diff(current.directives, desired.directives).push(
            MemberModel {
                key: "match".spec_bytes(),
                value: difference(match_json(named_blocks(current.blocks, unmet)), match_json(unmet)),
            },
        )
    }
}

/// A scope with the directive `d` put in: in place of the first directive
/// of its keyword, or behind the others where there is none.
pub open spec fn put(ds: Seq<DirectiveModel>, d: DirectiveModel) -> Seq<DirectiveModel> {
    let p = position(ds, d.keyword);
    if 0 <= p < ds.len() {
        ds.update(p, d)
    } else {
        ds.push(d)
    }
}

/// A scope with each declared directive put in, in the order of the
/// declaration.
pub open spec fn apply_scope(current: Seq<DirectiveModel>, desired: Seq<DirectiveModel>) -> Seq<
    DirectiveModel,
>
    decreases desired.len(),
{
    if desired.len() == 0 {
        current
    } else {
        put(apply_scope(current, desired.drop_last()), desired.last())
    }
}

/// The blocks without those of this category and criteria.
pub open spec fn remove_blocks(bs: Seq<BlockModel>, category: Seq<u8>, criteria: Seq<u8>) -> Seq<
    BlockModel,
>
    decreases bs.len(),
{
    if bs.len() == 0 {
        Seq::empty()
    } else if bs.last().category == category && bs.last().criteria == criteria {
        remove_blocks(bs.drop_last(), category, criteria)
    } else {
        remove_blocks(bs.drop_last(), category, criteria).push(bs.last())
    }
}

/// The blocks with one declared block applied. A block declared absent is
/// removed wherever it occurs. Any other has its directives put into the
/// first block of its category and criteria, or into a new block behind the
/// others where there is none.
pub open spec fn apply_block(current: Seq<BlockModel>, b: BlockModel) -> Seq<BlockModel> {
    let p = block_position(current, b.category, b.criteria);
    if b.ensure == Some(Ensure::Absent) {
        remove_blocks(current, b.category, b.criteria)
    } else if 0 <= p < current.len() {
        current.update(
            p,
            BlockModel {
                category: current[p].category,
                criteria: current[p].criteria,
                directives: apply_scope(current[p].directives, b.directives),
                ensure: current[p].ensure,
            },
        )
    } else {
        current.push(
            BlockModel {
                category: b.category,
                criteria: b.criteria,
                directives: apply_scope(Seq::empty(), b.directives),
                ensure: None,
            },
        )
    }
}

/// The blocks with each declared block applied, in the order of the
/// declaration. A block that is declared more than once is applied once,
/// as it is declared first.
pub open spec fn apply_blocks(current: Seq<BlockModel>, desired: Seq<BlockModel>) -> Seq<
    BlockModel,
>
    decreases desired.len(),
{
    if desired.len() == 0 {
        current
    } else if declared_before(desired, desired.len() - 1) {
        apply_blocks(current, desired.drop_last())
    } else {
        apply_block(apply_blocks(current, desired.drop_last()), desired.last())
    }
}

/// A configuration with a desired state applied. What the desired state
/// does not declare stays as it is and where it is.
pub open spec fn apply_document(current: DocumentModel, desired: DocumentModel) -> DocumentModel {
    DocumentModel {
        directives: apply_scope(current.directives, desired.directives),
        blocks: apply_blocks(current.blocks, desired.blocks),
    }
}

fn difference_json(current: JsonValue, desired: JsonValue) -> (r: JsonValue)
    ensures
        r@ == difference(current@, desired@),
{
    let mut members: Vec<Member> = Vec::new();
    members.push(Member { key: literal("current"), value: current });
    members.push(Member { key: literal("desired"), value: desired });
    assert(views(members@) =~= difference(current@, desired@)->Object_0);
    JsonValue::object(members)
}

/// Appends to `out` the declared directives that `current` does not meet.
pub fn push_scope_diff(out: &mut Vec<Member>, current: &Vec<Directive>, desired: &Vec<Directive>)
    ensures
        views(final(out)@) == views(old(out)@) + scope_diff(views(current@), views(desired@)),
{
    let ghost before = views(out@);
    let ghost cur = views(current@);
    let mut i: usize = 0;
    assert(views(out@) =~= before + scope_diff(cur, views(desired@).take(0)));
    while i < desired.len()
        invariant
            0 <= i <= desired@.len(),
            cur == views(current@),
            views(out@) == before + scope_diff(cur, views(desired@).take(i as int)),
        decreases desired@.len() - i,
    {
        let d = &desired[i];
        proof {
            let next = views(desired@).take(i + 1);
            assert(next.drop_last() =~= views(desired@).take(i as int));
            assert(next.last() == d@);
        }
        let p = find_directive(current, d.keyword.as_slice());
        let differs = if p < current.len() {
            assert(cur[p as int] == current@[p as int]@);
            !current[p].value.same(&d.value)
        } else {
            true
        };
        if differs {
            let now = if p < current.len() {
                value_to_json(&current[p].value)
            } else {
                JsonValue::Null
            };
            let member = Member {
                key: copy_bytes(&d.keyword),
                value: difference_json(now, value_to_json(&d.value)),
            };
            proof {
                lemma_views_push(out@, member);
                let next = views(desired@).take(i + 1);
                assert((before + scope_diff(cur, views(desired@).take(i as int))).push(member@)
                    =~= before + scope_diff(cur, next));
            }
            out.push(member);
        }
        i += 1;
    }
    assert(views(desired@).take(i as int) =~= views(desired@));
}

/// Whether a block of the category and criteria of the block at index `i`
/// stands before it.
pub fn is_declared_before(desired: &Vec<MatchBlock>, i: usize) -> (r: bool)
    requires
        i < desired@.len(),
    ensures
        r == declared_before(views(desired@), i as int),
{
    let ghost front = views(desired@).take(i as int);
    let ghost b = views(desired@)[i as int];
    let mut j: usize = 0;
    while j < i
        invariant
            0 <= j <= i < desired@.len(),
            front == views(desired@).take(i as int),
            b == desired@[i as int]@,
            forall|k: int|
                0 <= k < j ==> !((#[trigger] front[k]).category == b.category && front[k].criteria
                    == b.criteria),
        decreases i - j,
    {
        assert(front[j as int] == desired@[j as int]@);
        if bytes_eq(desired[j].category.as_slice(), desired[i].category.as_slice()) && bytes_eq(
            desired[j].criteria.as_slice(),
            desired[i].criteria.as_slice(),
        ) {
            proof {
                lemma_block_position_is(front, b.category, b.criteria, j as int);
            }
            return true;
        }
        j += 1;
    }
    proof {
        lemma_block_position_is(front, b.category, b.criteria, i as int);
    }
    false
}

/// Whether the blocks `current` meet the declared block `b`.
pub fn block_is_met(current: &Vec<MatchBlock>, b: &MatchBlock) -> (r: bool)
    ensures
        r == block_met(views(current@), b@),
{
    let p = find_block(current, b.category.as_slice(), b.criteria.as_slice());
    let absent = match b.ensure {
        Some(Ensure::Absent) => true,
        _ => false,
    };
    if absent {
        p >= current.len()
    } else if p < current.len() {
        assert(views(current@)[p as int] == current@[p as int]@);
        let mut found: Vec<Member> = Vec::new();
        push_scope_diff(&mut found, &current[p].directives, &b.directives);
        assert(views(found@) =~= scope_diff(
            views(current@)[p as int].directives,
            b@.directives,
        ));
        found.len() == 0
    } else {
        false
    }
}

impl ConfigDocument {
    /// Compares this configuration with a desired state.
    ///
    /// Only what `desired` declares is looked at. The first result holds one
    /// member for each declared top-level keyword whose value here differs
    /// or is missing, with its current and desired value, and `match` where
    /// a declared block is not met, with the blocks that are not met and
    /// the blocks here that they name. A block that is declared more than
    /// once counts as it is declared first. The second result says whether
    /// the first is empty.
    pub fn test(&self, desired: &ConfigDocument) -> (r: (JsonValue, bool))
        ensures
            r.0@ == JsonModel::Object(diff_members(self@, desired@)),
            r.1 == (diff_members(self@, desired@).len() == 0),
    {
        let mut members: Vec<Member> = Vec::new();
        push_scope_diff(&mut members, &self.directives, &desired.directives);
        assert(views(members@) =~= scope_diff(self@.directives, desired@.directives));
        let mut unmet: Vec<MatchBlock> = Vec::new();
        let mut named: Vec<MatchBlock> = Vec::new();
        let mut i: usize = 0;
        assert(views(unmet@) =~= unmet_blocks(self@.blocks, desired@.blocks, 0));
        assert(views(named@) =~= named_blocks(self@.blocks, views(unmet@)));
        while i < desired.blocks.len()
            invariant
                0 <= i <= desired.blocks@.len(),
                views(unmet@) == unmet_blocks(self@.blocks, desired@.blocks, i as int),
                views(named@) == named_blocks(self@.blocks, views(unmet@)),
            decreases desired.blocks@.len() - i,
        {
            let b = &desired.blocks[i];
            assert(desired@.blocks[i as int] == b@);
            if !is_declared_before(&desired.blocks, i) && !block_is_met(&self.blocks, b) {
                let ghost before = views(unmet@);
                let p = find_block(&self.blocks, b.category.as_slice(), b.criteria.as_slice());
                if p < self.blocks.len() {
                    let found = self.blocks[p].duplicate();
                    proof {
                        assert(self@.blocks[p as int] == self.blocks@[p as int]@);
                        lemma_views_push(named@, found);
                    }
                    named.push(found);
                }
                let copy = b.duplicate();
                proof {
                    lemma_views_push(unmet@, copy);
                    assert(before.push(copy@).drop_last() =~= before);
                }
                unmet.push(copy);
            }
            i += 1;
        }
        if unmet.len() > 0 {
            let member = Member {
                key: literal("match"),
                value: difference_json(match_to_json(&named), match_to_json(&unmet)),
            };
            proof {
                lemma_views_push(members@, member);
            }
            members.push(member);
        }
        let in_desired_state = members.len() == 0;
        (JsonValue::object(members), in_desired_state)
    }
}

/// Puts each declared directive into a scope.
pub fn applied_scope(current: Vec<Directive>, desired: &Vec<Directive>) -> (r: Vec<Directive>)
    ensures
        views(r@) == apply_scope(views(current@), views(desired@)),
{
    let ghost start = views(current@);
    let mut out = current;
    let mut i: usize = 0;
    assert(views(desired@).take(0) =~= Seq::<DirectiveModel>::empty());
    while i < desired.len()
        invariant
            0 <= i <= desired@.len(),
            views(out@) == apply_scope(start, views(desired@).take(i as int)),
        decreases desired@.len() - i,
    {
        let d = desired[i].duplicate();
        proof {
            let next = views(desired@).take(i + 1);
            assert(next.drop_last() =~= views(desired@).take(i as int));
            assert(next.last() == d@);
        }
        let p = find_directive(&out, d.keyword.as_slice());
        let ghost before = out@;
        if p < out.len() {
            out.set(p, d);
            assert(views(out@) =~= views(before).update(p as int, d@));
        } else {
            proof {
                lemma_views_push(out@, d);
            }
            out.push(d);
        }
        i += 1;
    }
    assert(views(desired@).take(i as int) =~= views(desired@));
    out
}

fn without_blocks(current: &Vec<MatchBlock>, category: &[u8], criteria: &[u8]) -> (r: Vec<
    MatchBlock,
>)
    ensures
        views(r@) == remove_blocks(views(current@), category@, criteria@),
{
    let mut out: Vec<MatchBlock> = Vec::new();
    let mut i: usize = 0;
    assert(views(out@) =~= remove_blocks(views(current@).take(0), category@, criteria@));
    while i < current.len()
        invariant
            0 <= i <= current@.len(),
            views(out@) == remove_blocks(views(current@).take(i as int), category@, criteria@),
        decreases current@.len() - i,
    {
        let b = &current[i];
        proof {
            let next = views(current@).take(i + 1);
            assert(next.drop_last() =~= views(current@).take(i as int));
            assert(next.last() == b@);
        }
        if !(bytes_eq(b.category.as_slice(), category) && bytes_eq(
            b.criteria.as_slice(),
            criteria,
        )) {
            let copy = b.duplicate();
            proof {
                lemma_views_push(out@, copy);
            }
            out.push(copy);
        }
        i += 1;
    }
    assert(views(current@).take(i as int) =~= views(current@));
    out
}

/// Applies one declared block to a list of blocks.
pub fn applied_block(current: Vec<MatchBlock>, b: &MatchBlock) -> (r: Vec<MatchBlock>)
    ensures
        views(r@) == apply_block(views(current@), b@),
{
    let mut out = current;
    let absent = match b.ensure {
        Some(Ensure::Absent) => true,
        _ => false,
    };
    if absent {
        return without_blocks(&out, b.category.as_slice(), b.criteria.as_slice());
    }
    let p = find_block(&out, b.category.as_slice(), b.criteria.as_slice());
    let ghost before = out@;
    if p < out.len() {
        let MatchBlock { category, criteria, directives, ensure } = out.remove(p);
        let block = MatchBlock {
            category,
            criteria,
            directives: applied_scope(directives, &b.directives),
            ensure,
        };
        out.insert(p, block);
        assert(views(out@) =~= views(before).update(p as int, block@));
        out
    } else {
        let empty: Vec<Directive> = Vec::new();
        assert(views(empty@) =~= Seq::<DirectiveModel>::empty());
        let block = MatchBlock {
            category: copy_bytes(&b.category),
            criteria: copy_bytes(&b.criteria),
            directives: applied_scope(empty, &b.directives),
            ensure: None,
        };
        proof {
            lemma_views_push(out@, block);
        }
        out.push(block);
        out
    }
}

impl ConfigDocument {
    /// Whether two documents hold the same directives and blocks in the
    /// same order.
    pub fn same(&self, other: &ConfigDocument) -> (r: bool)
        ensures
            r == (self@ == other@),
    {
        if !same_scope(&self.directives, &other.directives) {
            return false;
        }
        if self.blocks.len() != other.blocks.len() {
            assert(self@.blocks.len() != other@.blocks.len());
            return false;
        }
        let mut i: usize = 0;
        while i < self.blocks.len()
            invariant
                0 <= i <= self.blocks@.len(),
                self.blocks@.len() == other.blocks@.len(),
                self@.directives == other@.directives,
                forall|j: int| 0 <= j < i ==> self@.blocks[j] == other@.blocks[j],
            decreases self.blocks@.len() - i,
        {
            let a = &self.blocks[i];
            let b = &other.blocks[i];
            assert(self@.blocks[i as int] == a@);
            assert(other@.blocks[i as int] == b@);
            let flags = match (a.ensure, b.ensure) {
                (None, None) => true,
                (Some(Ensure::Present), Some(Ensure::Present)) => true,
                (Some(Ensure::Absent), Some(Ensure::Absent)) => true,
                _ => false,
            };
            if !flags || !bytes_eq(a.category.as_slice(), b.category.as_slice()) || !bytes_eq(
                a.criteria.as_slice(),
                b.criteria.as_slice(),
            ) || !same_scope(&a.directives, &b.directives) {
                return false;
            }
            i += 1;
        }
        assert(self@.blocks =~= other@.blocks);
        true
    }

    /// This configuration with a desired state applied. A well-formed
    /// desired state leaves a well-formed configuration well-formed.
    pub fn apply(self, desired: &ConfigDocument) -> (r: ConfigDocument)
        ensures
            r@ == apply_document(self@, desired@),
            well_formed(self@) && no_flags(self@.blocks) && well_formed(desired@) ==> well_formed(
                r@,
            ) && no_flags(r@.blocks),
    {
        proof {
            if well_formed(self@) && no_flags(self@.blocks) && well_formed(desired@) {
                law_apply_well_formed(self@, desired@);
            }
        }
        let ConfigDocument { directives, blocks } = self;
        let directives = applied_scope(directives, &desired.directives);
        let ghost start = views(blocks@);
        let mut blocks = blocks;
        let mut i: usize = 0;
        assert(views(desired.blocks@).take(0) =~= Seq::<BlockModel>::empty());
        while i < desired.blocks.len()
            invariant
                0 <= i <= desired.blocks@.len(),
                views(blocks@) == apply_blocks(start, views(desired.blocks@).take(i as int)),
            decreases desired.blocks@.len() - i,
        {
            proof {
                let next = views(desired.blocks@).take(i + 1);
                assert(next.drop_last() =~= views(desired.blocks@).take(i as int));
                assert(next.take(i as int) =~= views(desired.blocks@).take(i as int));
                assert(next.last() == desired.blocks@[i as int]@);
                assert(declared_before(next, i as int) == declared_before(
                    views(desired.blocks@),
                    i as int,
                ));
            }
            if !is_declared_before(&desired.blocks, i) {
                blocks = applied_block(blocks, &desired.blocks[i]);
            }
            i += 1;
        }
        assert(views(desired.blocks@).take(i as int) =~= views(desired.blocks@));
        ConfigDocument { directives, blocks }
    }

    /// Applies a desired state to this configuration and says whether that
    /// changed it.
    ///
    /// Each declared directive replaces the value of its keyword in place,
    /// or is added behind the others; a declared block is removed, changed
    /// in place or added according to its ensure flag, and where it is
    /// declared more than once, as it is declared first. What `desired`
    /// does not declare stays as it is and where it is.
    pub fn set(&mut self, desired: &ConfigDocument) -> (changed: bool)
        ensures
            final(self)@ == apply_document(old(self)@, desired@),
            changed == (final(self)@ != old(self)@),
            well_formed(old(self)@) && no_flags(old(self)@.blocks) && well_formed(desired@)
                ==> well_formed(final(self)@) && no_flags(final(self)@.blocks),
    {
        let before = self.duplicate();
        let mut taken = ConfigDocument::new();
        std::mem::swap(self, &mut taken);
        let after = taken.apply(desired);
        let changed = !after.same(&before);
        *self = after;
        changed
    }
}

/// Whether two scopes hold the same directives in the same order.
pub fn same_scope(a: &Vec<Directive>, b: &Vec<Directive>) -> (r: bool)
    ensures
        r == (views(a@) == views(b@)),
{
    if a.len() != b.len() {
        assert(views(a@).len() != views(b@).len());
        return false;
    }
    let mut i: usize = 0;
    while i < a.len()
        invariant
            0 <= i <= a@.len(),
            a@.len() == b@.len(),
            forall|j: int| 0 <= j < i ==> views(a@)[j] == views(b@)[j],
        decreases a@.len() - i,
    {
        if !bytes_eq(a[i].keyword.as_slice(), b[i].keyword.as_slice()) || !a[i].value.same(
            &b[i].value,
        ) {
            assert(views(a@)[i as int] != views(b@)[i as int]);
            return false;
        }
        i += 1;
    }
    assert(views(a@) =~= views(b@));
    true
}

/// What `set` makes of the text of a configuration file: the text as it
/// is and `false` where the desired state changes nothing; else the text of
/// the changed configuration and `true`.
pub open spec fn set_text_result(text: Seq<u8>, desired: DocumentModel) -> Result<
    (Seq<u8>, bool),
    ErrorModel,
> {
    match parse_text(text) {
        Err(e) => Err(e),
        Ok(current) => if apply_document(current, desired) == current {
            Ok((text, false))
        } else {
            Ok((document_text(apply_document(current, desired)), true))
        },
    }
}

/// Applies a desired state to the text of a configuration file.
///
/// The result is the text that the file is to hold and whether that
/// differs from `text`. A file that is in the desired state already keeps
/// its text byte for byte, comments and spacing included.
pub fn set_text(text: &[u8], desired: &ConfigDocument) -> (r: Result<(Vec<u8>, bool), ConfigError>)
    ensures
        match r {
            Ok(out) => set_text_result(text@, desired@) == Ok::<(Seq<u8>, bool), ErrorModel>(
                (out.0@, out.1),
            ),
            Err(e) => set_text_result(text@, desired@) == Err::<(Seq<u8>, bool), ErrorModel>(e@),
        },
{
    let mut doc = match parse(text) {
        Err(e) => {
            return Err(e);
        },
        Ok(doc) => doc,
    };
    if doc.set(desired) {
        Ok((serialize(&doc), true))
    } else {
        let same = crate::bytes::copy_range(text, 0, text.len());
        assert(same@ =~= text@);
        Ok((same, false))
    }
}

} // verus!
