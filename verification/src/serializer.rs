//! The JSON form of a document, in both directions.
//!
//! A keyword is a member named by its canonical name: a string for a
//! scalar, an array of strings for a list, an array of `name` / `value`
//! objects for a name / value list. The blocks stand under `match`, grouped
//! by category in the order in which the categories first occur.

use vstd::prelude::*;
use vstd::string::StringSliceAdditionalSpecFns;
use crate::bytes::{
    bytes_eq, check_clean, check_word, copy_range, is_clean, is_word, lower_seq, to_lower,
};
use crate::error::{ConfigError, ErrorModel, SerializationReason};
use crate::wellformed::{is_category, well_formed};
use crate::wf_laws::law_json_document_well_formed;
use crate::registry::{
    lookup_canonical, lookup_lower, validate, validation_failure, KeywordSpec, Validator,
    ValueKind,
};
use crate::json::{JsonModel, JsonValue, Member, MemberModel};
use crate::model::{
    copy_bytes, find_directive, lemma_views_push, position, views, BlockModel, ConfigDocument,
    Directive, DirectiveModel, DocumentModel, Ensure, MatchBlock, NamedValue, PairModel, Value,
    ValueModel,
};

verus! {

/// The blocks of one category, in JSON form.
pub struct GroupModel {
    pub category: Seq<u8>,
    pub blocks: Seq<JsonModel>,
}

/// The JSON form of one name / value pair.
pub open spec fn pair_json(p: PairModel) -> JsonModel {
    JsonModel::Object(
        seq![
            MemberModel { key: "name".spec_bytes(), value: JsonModel::Text(p.name) },
            MemberModel { key: "value".spec_bytes(), value: JsonModel::Text(p.value) },
        ],
    )
}

/// The JSON form of a directive's value.
pub open spec fn value_json(v: ValueModel) -> JsonModel {
    match v {
        ValueModel::Scalar(s) => JsonModel::Text(s),
        ValueModel::List(items) => JsonModel::Array(
            Seq::new(items.len(), |i: int| JsonModel::Text(items[i])),
        ),
        ValueModel::ObjectList(pairs) => JsonModel::Array(
            Seq::new(pairs.len(), |i: int| pair_json(pairs[i])),
        ),
    }
}

/// The members that the directives of a scope become, in order.
pub open spec fn scope_members(ds: Seq<DirectiveModel>) -> Seq<MemberModel> {
    Seq::new(
        ds.len(),
        |i: int| MemberModel { key: ds[i].keyword, value: value_json(ds[i].value) },
    )
}

/// The member that an ensure flag becomes; none where there is no flag.
pub open spec fn ensure_members(e: Option<Ensure>) -> Seq<MemberModel> {
    match e {
        None => Seq::empty(),
        Some(Ensure::Present) => seq![
            MemberModel {
                key: "_ensure".spec_bytes(),
                value: JsonModel::Text("Present".spec_bytes()),
            },
        ],
        Some(Ensure::Absent) => seq![
            MemberModel {
                key: "_ensure".spec_bytes(),
                value: JsonModel::Text("Absent".spec_bytes()),
            },
        ],
    }
}

/// The JSON form of a block: its criteria, its directives, its ensure flag.
pub open spec fn block_json(b: BlockModel) -> JsonModel {
    JsonModel::Object(
        seq![MemberModel { key: "criteria".spec_bytes(), value: JsonModel::Text(b.criteria) }]
            + scope_members(
            b.directives,
        ) + ensure_members(b.ensure),
    )
}

/// The index of the group of `category`; the length of `gs` where there is
/// none.
pub open spec fn group_position(gs: Seq<GroupModel>, category: Seq<u8>) -> int
    decreases gs.len(),
{
    if gs.len() == 0 {
        0
    } else {
        let p = group_position(gs.drop_last(), category);
        if p < gs.len() - 1 {
            p
        } else if gs.last().category == category {
            gs.len() - 1
        } else {
            gs.len() as int
        }
    }
}

/// The groups with one more block: it joins the group of its category, or
/// opens a new group behind the others.
pub open spec fn group_insert(gs: Seq<GroupModel>, b: BlockModel) -> Seq<GroupModel> {
    let p = group_position(gs, b.category);
    if 0 <= p < gs.len() {
        gs.update(
            p,
            GroupModel { category: gs[p].category, blocks: gs[p].blocks.push(block_json(b)) },
        )
    } else {
        gs.push(GroupModel { category: b.category, blocks: seq![block_json(b)] })
    }
}

/// The blocks of a document, grouped by category.
pub open spec fn groups(bs: Seq<BlockModel>) -> Seq<GroupModel>
    decreases bs.len(),
{
    if bs.len() == 0 {
        Seq::empty()
    } else {
        group_insert(groups(bs.drop_last()), bs.last())
    }
}

/// The members of `match`: one array for each group.
pub open spec fn group_members(gs: Seq<GroupModel>) -> Seq<MemberModel> {
    Seq::new(
        gs.len(),
        |i: int| MemberModel { key: gs[i].category, value: JsonModel::Array(gs[i].blocks) },
    )
}

/// The JSON form of a document.
pub open spec fn document_json(doc: DocumentModel) -> JsonModel {
    if doc.blocks.len() == 0 {
        JsonModel::Object(scope_members(doc.directives))
    } else {
        JsonModel::Object(
            scope_members(doc.directives).push(
                MemberModel {
                    key: "match".spec_bytes(),
                    value: JsonModel::Object(group_members(groups(doc.blocks))),
                },
            ),
        )
    }
}

pub proof fn lemma_group_position(gs: Seq<GroupModel>, category: Seq<u8>)
    ensures
        0 <= group_position(gs, category) <= gs.len(),
        forall|j: int|
            0 <= j < group_position(gs, category) ==> (#[trigger] gs[j]).category != category,
        group_position(gs, category) < gs.len() ==> gs[group_position(gs, category)].category
            == category,
    decreases gs.len(),
{
    if gs.len() > 0 {
        let t = gs.drop_last();
        lemma_group_position(t, category);
        assert forall|j: int| 0 <= j < group_position(gs, category) implies (
        #[trigger] gs[j]).category != category by {
            if j < t.len() {
                assert(gs[j] == t[j]);
            }
        }
        let q = group_position(t, category);
        if q < t.len() {
            assert(gs[q] == t[q]);
        }
    }
}

pub proof fn lemma_group_position_is(gs: Seq<GroupModel>, category: Seq<u8>, k: int)
    requires
        0 <= k <= gs.len(),
        forall|j: int| 0 <= j < k ==> (#[trigger] gs[j]).category != category,
        k < gs.len() ==> gs[k].category == category,
    ensures
        group_position(gs, category) == k,
{
    lemma_group_position(gs, category);
    let p = group_position(gs, category);
    if p < k {
        assert(gs[p].category != category);
    } else if k < p {
        assert(gs[k].category != category);
    }
}

/// The bytes of a string constant.
pub fn literal(s: &str) -> (r: Vec<u8>)
    ensures
        r@ == s.spec_bytes(),
{
    let b = s.as_bytes();
    let r = copy_range(b, 0, b.len());
    assert(r@ =~= b@);
    r
}

fn text_json(s: &Vec<u8>) -> (r: JsonValue)
    ensures
        r@ == JsonModel::Text(s@),
{
    JsonValue::text(copy_bytes(s))
}

/// The JSON form of a directive's value.
pub fn value_to_json(v: &Value) -> (r: JsonValue)
    ensures
        r@ == value_json(v@),
{
    match v {
        Value::Scalar(s) => text_json(s),
        Value::List(items) => {
            let mut out: Vec<JsonValue> = Vec::new();
            let mut i: usize = 0;
            let ghost want = value_json(v@)->Array_0;
            assert(views(out@) =~= want.take(0));
            while i < items.len()
                invariant
                    0 <= i <= items@.len(),
                    want == Seq::new(
                        views(items@).len(),
                        |k: int| JsonModel::Text(views(items@)[k]),
                    ),
                    views(out@) == want.take(i as int),
                decreases items@.len() - i,
            {
                let item = text_json(&items[i]);
                proof {
                    lemma_views_push(out@, item);
                    assert(want.take(i as int).push(item@) =~= want.take(i + 1));
                }
                out.push(item);
                i += 1;
            }
            assert(want.take(i as int) =~= want);
            JsonValue::array(out)
        },
        Value::ObjectList(pairs) => {
            let mut out: Vec<JsonValue> = Vec::new();
            let mut i: usize = 0;
            let ghost want = value_json(v@)->Array_0;
            assert(views(out@) =~= want.take(0));
            while i < pairs.len()
                invariant
                    0 <= i <= pairs@.len(),
                    want == Seq::new(views(pairs@).len(), |k: int| pair_json(views(pairs@)[k])),
                    views(out@) == want.take(i as int),
                decreases pairs@.len() - i,
            {
                let mut members: Vec<Member> = Vec::new();
                members.push(Member { key: literal("name"), value: text_json(&pairs[i].name) });
                members.push(Member { key: literal("value"), value: text_json(&pairs[i].value) });
                assert(views(members@) =~= pair_json(pairs@[i as int]@)->Object_0);
                let item = JsonValue::object(members);
                proof {
                    lemma_views_push(out@, item);
                    assert(want.take(i as int).push(item@) =~= want.take(i + 1));
                }
                out.push(item);
                i += 1;
            }
            assert(want.take(i as int) =~= want);
            JsonValue::array(out)
        },
    }
}

/// Appends the members of a scope to `out`.
pub fn push_scope_members(out: &mut Vec<Member>, ds: &Vec<Directive>)
    ensures
        views(final(out)@) == views(old(out)@) + scope_members(views(ds@)),
{
    let ghost before = views(out@);
    let ghost want = scope_members(views(ds@));
    let mut i: usize = 0;
    assert(views(out@) =~= before + want.take(0));
    while i < ds.len()
        invariant
            0 <= i <= ds@.len(),
            want == scope_members(views(ds@)),
            views(out@) == before + want.take(i as int),
        decreases ds@.len() - i,
    {
        let member = Member {
            key: copy_bytes(&ds[i].keyword),
            value: value_to_json(&ds[i].value),
        };
        proof {
            lemma_views_push(out@, member);
            assert(views(ds@)[i as int] == ds@[i as int]@);
            assert((before + want.take(i as int)).push(member@) =~= before + want.take(i + 1));
        }
        out.push(member);
        i += 1;
    }
    assert(want.take(i as int) =~= want);
}

/// The JSON form of a block.
pub fn block_to_json(b: &MatchBlock) -> (r: JsonValue)
    ensures
        r@ == block_json(b@),
{
    let mut members: Vec<Member> = Vec::new();
    members.push(Member { key: literal("criteria"), value: text_json(&b.criteria) });
    assert(views(members@) =~= seq![
        MemberModel { key: "criteria".spec_bytes(), value: JsonModel::Text(b.criteria@) },
    ]);
    push_scope_members(&mut members, &b.directives);
    let ghost mid = views(members@);
    match b.ensure {
        None => {
            assert(mid =~= mid + ensure_members(b.ensure));
        },
        Some(Ensure::Present) => {
            let member = Member {
                key: literal("_ensure"),
                value: JsonValue::text(literal("Present")),
            };
            proof {
                lemma_views_push(members@, member);
                assert(mid.push(member@) =~= mid + ensure_members(b.ensure));
            }
            members.push(member);
        },
        Some(Ensure::Absent) => {
            let member = Member {
                key: literal("_ensure"),
                value: JsonValue::text(literal("Absent")),
            };
            proof {
                lemma_views_push(members@, member);
                assert(mid.push(member@) =~= mid + ensure_members(b.ensure));
            }
            members.push(member);
        },
    }
    JsonValue::object(members)
}

/// The groups that hold JSON values, seen as a mathematical value.
pub open spec fn group_views(cats: Seq<Vec<u8>>, arrays: Seq<Vec<JsonValue>>) -> Seq<GroupModel> {
    Seq::new(
        cats.len(),
        |i: int| GroupModel { category: cats[i]@, blocks: views(arrays[i]@) },
    )
}

fn find_group(cats: &Vec<Vec<u8>>, arrays: &Vec<Vec<JsonValue>>, category: &[u8]) -> (r: usize)
    requires
        cats@.len() == arrays@.len(),
    ensures
        r == group_position(group_views(cats@, arrays@), category@),
{
    let ghost gs = group_views(cats@, arrays@);
    let mut i: usize = 0;
    while i < cats.len()
        invariant
            0 <= i <= cats@.len(),
            gs == group_views(cats@, arrays@),
            forall|j: int| 0 <= j < i ==> (#[trigger] gs[j]).category != category@,
        decreases cats@.len() - i,
    {
        if bytes_eq(cats[i].as_slice(), category) {
            proof {
                lemma_group_position_is(gs, category@, i as int);
            }
            return i;
        }
        i += 1;
    }
    proof {
        lemma_group_position_is(gs, category@, i as int);
    }
    i
}

/// The members of `match` for a list of blocks.
pub fn match_to_json(bs: &Vec<MatchBlock>) -> (r: JsonValue)
    ensures
        r@ == JsonModel::Object(group_members(groups(views(bs@)))),
{
    let mut cats: Vec<Vec<u8>> = Vec::new();
    let mut arrays: Vec<Vec<JsonValue>> = Vec::new();
    let mut i: usize = 0;
    assert(group_views(cats@, arrays@) =~= groups(views(bs@).take(0)));
    while i < bs.len()
        invariant
            0 <= i <= bs@.len(),
            cats@.len() == arrays@.len(),
            group_views(cats@, arrays@) == groups(views(bs@).take(i as int)),
        decreases bs@.len() - i,
    {
        let ghost gs = group_views(cats@, arrays@);
        let ghost b = bs@[i as int]@;
        proof {
            let next = views(bs@).take(i + 1);
            assert(next.drop_last() =~= views(bs@).take(i as int));
            assert(next.last() == b);
            lemma_group_position(gs, b.category);
        }
        let item = block_to_json(&bs[i]);
        let p = find_group(&cats, &arrays, bs[i].category.as_slice());
        if p < cats.len() {
            let mut array = arrays.remove(p);
            proof {
                lemma_views_push(array@, item);
            }
            array.push(item);
            arrays.insert(p, array);
            assert(group_views(cats@, arrays@) =~= group_insert(gs, b));
        } else {
            let mut array: Vec<JsonValue> = Vec::new();
            proof {
                lemma_views_push(array@, item);
                assert(views(array@).push(item@) =~= seq![item@]);
            }
            array.push(item);
            cats.push(copy_bytes(&bs[i].category));
            arrays.push(array);
            assert(group_views(cats@, arrays@) =~= group_insert(gs, b));
        }
        i += 1;
    }
    assert(views(bs@).take(i as int) =~= views(bs@));
    let ghost gs = group_views(cats@, arrays@);
    let mut members: Vec<Member> = Vec::new();
    let mut k: usize = 0;
    assert(views(members@) =~= group_members(gs).take(0));
    while k < cats.len()
        invariant
            0 <= k <= cats@.len(),
            cats@.len() == arrays@.len(),
            gs.len() == cats@.len(),
            forall|j: int|
                k <= j < cats@.len() ==> gs[j] == (GroupModel {
                    category: (#[trigger] cats@[j])@,
                    blocks: views(arrays@[j]@),
                }),
            views(members@) == group_members(gs).take(k as int),
        decreases cats@.len() - k,
    {
        let mut array: Vec<JsonValue> = Vec::new();
        let ghost arrays_before = arrays@;
        std::mem::swap(&mut array, &mut arrays[k]);
        let member = Member { key: copy_bytes(&cats[k]), value: JsonValue::array(array) };
        proof {
            lemma_views_push(members@, member);
            assert(group_members(gs).take(k as int).push(member@) =~= group_members(gs).take(
                k + 1,
            ));
        }
        members.push(member);
        k += 1;
    }
    assert(group_members(gs).take(k as int) =~= group_members(gs));
    JsonValue::object(members)
}

/// The JSON form of a document.
pub fn to_json(doc: &ConfigDocument) -> (r: JsonValue)
    ensures
        r@ == document_json(doc@),
{
    let mut members: Vec<Member> = Vec::new();
    push_scope_members(&mut members, &doc.directives);
    assert(views(members@) =~= scope_members(doc@.directives));
    if doc.blocks.len() != 0 {
        let member = Member { key: literal("match"), value: match_to_json(&doc.blocks) };
        proof {
            lemma_views_push(members@, member);
        }
        members.push(member);
    }
    JsonValue::object(members)
}

/// A schema violation as an error.
pub open spec fn bad(reason: SerializationReason) -> ErrorModel {
    ErrorModel::Serialization { reason }
}

/// Why the string `s` cannot be a value of keyword `kw`; `None` where it
/// can.
pub open spec fn text_failure(kw: Seq<u8>, validator: Validator, s: Seq<u8>) -> Option<
    ErrorModel,
> {
    if !is_clean(s) {
        Some(bad(SerializationReason::BadText))
    } else {
        match validation_failure(validator, s) {
            Some(reason) => Some(ErrorModel::Validation { keyword: kw, reason }),
            None => None,
        }
    }
}

/// The string that an item of a list denotes: the item itself where it is
/// a string, or the one member `value` of an object.
pub open spec fn item_text(item: JsonModel) -> Option<Seq<u8>> {
    match item {
        JsonModel::Text(s) => Some(s),
        JsonModel::Object(ms) => if ms.len() == 1 && ms[0].key == "value".spec_bytes()
            && ms[0].value is Text {
            Some(ms[0].value->Text_0)
        } else {
            None
        },
        _ => None,
    }
}

/// The strings of `items` from index `i` on, behind `acc`; the first item
/// that is refused gives the error.
pub open spec fn read_items(
    kw: Seq<u8>,
    validator: Validator,
    items: Seq<JsonModel>,
    i: int,
    acc: Seq<Seq<u8>>,
) -> Result<Seq<Seq<u8>>, ErrorModel>
    decreases items.len() - i,
{
    if i < 0 || i >= items.len() {
        Ok(acc)
    } else {
        match item_text(items[i]) {
            Some(s) => match text_failure(kw, validator, s) {
                Some(e) => Err(e),
                None => read_items(kw, validator, items, i + 1, acc.push(s)),
            },
            None => Err(bad(SerializationReason::ValueShape)),
        }
    }
}

/// The pair with this name and value, where both can be written.
pub open spec fn checked_pair(kw: Seq<u8>, validator: Validator, name: Seq<u8>, value: Seq<u8>)
    -> Result<PairModel, ErrorModel> {
    if !is_word(name) {
        Err(bad(SerializationReason::BadText))
    } else {
        match text_failure(kw, validator, value) {
            Some(e) => Err(e),
            None => Ok(PairModel { name, value }),
        }
    }
}

/// The pair that a JSON value denotes: an object of a `name` and a `value`
/// string, in either order.
pub open spec fn read_pair(kw: Seq<u8>, validator: Validator, item: JsonModel) -> Result<
    PairModel,
    ErrorModel,
> {
    match item {
        JsonModel::Object(ms) => if ms.len() == 2 && ms[0].key == "name".spec_bytes()
            && ms[1].key == "value".spec_bytes() && ms[0].value is Text && ms[1].value is Text {
            checked_pair(kw, validator, ms[0].value->Text_0, ms[1].value->Text_0)
        } else if ms.len() == 2 && ms[0].key == "value".spec_bytes() && ms[1].key
            == "name".spec_bytes() && ms[0].value is Text && ms[1].value is Text {
            checked_pair(kw, validator, ms[1].value->Text_0, ms[0].value->Text_0)
        } else {
            Err(bad(SerializationReason::ValueShape))
        },
        _ => Err(bad(SerializationReason::ValueShape)),
    }
}

/// The pairs of `items` from index `i` on, behind `acc`.
pub open spec fn read_pairs(
    kw: Seq<u8>,
    validator: Validator,
    items: Seq<JsonModel>,
    i: int,
    acc: Seq<PairModel>,
) -> Result<Seq<PairModel>, ErrorModel>
    decreases items.len() - i,
{
    if i < 0 || i >= items.len() {
        Ok(acc)
    } else {
        match read_pair(kw, validator, items[i]) {
            Err(e) => Err(e),
            Ok(p) => read_pairs(kw, validator, items, i + 1, acc.push(p)),
        }
    }
}

/// The value that a JSON value denotes for a keyword of this kind.
pub open spec fn read_value(kw: Seq<u8>, spec: KeywordSpec, value: JsonModel) -> Result<
    ValueModel,
    ErrorModel,
> {
    match spec.kind {
        ValueKind::Scalar => match value {
            JsonModel::Text(s) => match text_failure(kw, spec.validator, s) {
                Some(e) => Err(e),
                None => Ok(ValueModel::Scalar(s)),
            },
            _ => Err(bad(SerializationReason::ValueShape)),
        },
        ValueKind::List => match value {
            JsonModel::Array(items) => if items.len() == 0 {
                Err(bad(SerializationReason::EmptyList))
            } else if !spec.repeatable && items.len() > 1 {
                Err(bad(SerializationReason::TooManyValues))
            } else {
                match read_items(kw, spec.validator, items, 0, Seq::empty()) {
                    Err(e) => Err(e),
                    Ok(xs) => Ok(ValueModel::List(xs)),
                }
            },
            _ => Err(bad(SerializationReason::ValueShape)),
        },
        ValueKind::ObjectList => match value {
            JsonModel::Array(items) => if items.len() == 0 {
                Err(bad(SerializationReason::EmptyList))
            } else if !spec.repeatable && items.len() > 1 {
                Err(bad(SerializationReason::TooManyValues))
            } else {
                match read_pairs(kw, spec.validator, items, 0, Seq::empty()) {
                    Err(e) => Err(e),
                    Ok(ps) => Ok(ValueModel::ObjectList(ps)),
                }
            },
            _ => Err(bad(SerializationReason::ValueShape)),
        },
    }
}

/// A scope with the directive that the member `key: value` denotes. The
/// key is a keyword in any case; it may not be in the scope already.
pub open spec fn read_directive(ds: Seq<DirectiveModel>, key: Seq<u8>, value: JsonModel)
    -> Result<Seq<DirectiveModel>, ErrorModel> {
    let kw = lower_seq(key);
    match lookup_canonical(kw) {
        None => Err(ErrorModel::UnknownKeyword { keyword: kw }),
        Some(spec) => if position(ds, kw) < ds.len() {
            Err(bad(SerializationReason::DuplicateKey))
        } else {
            match read_value(kw, spec, value) {
                Err(e) => Err(e),
                Ok(v) => Ok(ds.push(DirectiveModel { keyword: kw, value: v })),
            }
        },
    }
}

/// A block while its members are read.
pub struct DraftModel {
    pub criteria: Option<Seq<u8>>,
    pub ensure: Option<Ensure>,
    pub directives: Seq<DirectiveModel>,
}

/// The ensure flag that a JSON value denotes.
pub open spec fn read_ensure(value: JsonModel) -> Result<Ensure, ErrorModel> {
    match value {
        JsonModel::Text(s) => if s == "Present".spec_bytes() {
            Ok(Ensure::Present)
        } else if s == "Absent".spec_bytes() {
            Ok(Ensure::Absent)
        } else {
            Err(bad(SerializationReason::BadEnsure))
        },
        _ => Err(bad(SerializationReason::BadEnsure)),
    }
}

/// A draft with one more member of the block's object.
pub open spec fn read_block_member(draft: DraftModel, key: Seq<u8>, value: JsonModel) -> Result<
    DraftModel,
    ErrorModel,
> {
    if key == "criteria".spec_bytes() {
        if draft.criteria is Some {
            Err(bad(SerializationReason::DuplicateKey))
        } else {
            match value {
                JsonModel::Text(s) => if s.len() == 0 || is_clean(s) {
                    Ok(
                        DraftModel {
                            criteria: Some(s),
                            ensure: draft.ensure,
                            directives: draft.directives,
                        },
                    )
                } else {
                    Err(bad(SerializationReason::BadText))
                },
                _ => Err(bad(SerializationReason::MissingCriteria)),
            }
        }
    } else if key == "_ensure".spec_bytes() {
        if draft.ensure is Some {
            Err(bad(SerializationReason::DuplicateKey))
        } else {
            match read_ensure(value) {
                Err(e) => Err(e),
                Ok(flag) => Ok(
                    DraftModel {
                        criteria: draft.criteria,
                        ensure: Some(flag),
                        directives: draft.directives,
                    },
                ),
            }
        }
    } else {
        match read_directive(draft.directives, key, value) {
            Err(e) => Err(e),
            Ok(ds) => Ok(
                DraftModel { criteria: draft.criteria, ensure: draft.ensure, directives: ds },
            ),
        }
    }
}

/// The draft after the members of `ms` from index `i` on.
pub open spec fn read_block_members(ms: Seq<MemberModel>, i: int, draft: DraftModel) -> Result<
    DraftModel,
    ErrorModel,
>
    decreases ms.len() - i,
{
    if i < 0 || i >= ms.len() {
        Ok(draft)
    } else {
        match read_block_member(draft, ms[i].key, ms[i].value) {
            Err(e) => Err(e),
            Ok(next) => read_block_members(ms, i + 1, next),
        }
    }
}

/// The draft that no member has touched.
pub open spec fn empty_draft() -> DraftModel {
    DraftModel { criteria: None, ensure: None, directives: Seq::empty() }
}

/// The block of `category` that a JSON value denotes: an object with a
/// `criteria` string, keywords, and at most one `_ensure`.
pub open spec fn read_block(category: Seq<u8>, item: JsonModel) -> Result<BlockModel, ErrorModel> {
    match item {
        JsonModel::Object(ms) => match read_block_members(ms, 0, empty_draft()) {
            Err(e) => Err(e),
            Ok(draft) => match draft.criteria {
                None => Err(bad(SerializationReason::MissingCriteria)),
                Some(criteria) => Ok(
                    BlockModel {
                        category,
                        criteria,
                        directives: draft.directives,
                        ensure: draft.ensure,
                    },
                ),
            },
        },
        _ => Err(bad(SerializationReason::MatchShape)),
    }
}

/// The blocks of `items` from index `i` on, behind `acc`.
pub open spec fn read_blocks(category: Seq<u8>, items: Seq<JsonModel>, i: int, acc: Seq<BlockModel>)
    -> Result<Seq<BlockModel>, ErrorModel>
    decreases items.len() - i,
{
    if i < 0 || i >= items.len() {
        Ok(acc)
    } else {
        match read_block(category, items[i]) {
            Err(e) => Err(e),
            Ok(b) => read_blocks(category, items, i + 1, acc.push(b)),
        }
    }
}

/// The blocks of the groups of `gs` from index `i` on, behind `acc`. Each
/// group is a category with an array of blocks.
pub open spec fn read_groups(gs: Seq<MemberModel>, i: int, acc: Seq<BlockModel>) -> Result<
    Seq<BlockModel>,
    ErrorModel,
>
    decreases gs.len() - i,
{
    if i < 0 || i >= gs.len() {
        Ok(acc)
    } else if !is_category(gs[i].key) {
        Err(bad(SerializationReason::BadCategory))
    } else {
        match gs[i].value {
            JsonModel::Array(items) => match read_blocks(gs[i].key, items, 0, acc) {
                Err(e) => Err(e),
                Ok(next) => read_groups(gs, i + 1, next),
            },
            _ => Err(bad(SerializationReason::MatchShape)),
        }
    }
}

/// A document with one more member of the root object.
pub open spec fn read_member(doc: DocumentModel, key: Seq<u8>, value: JsonModel) -> Result<
    DocumentModel,
    ErrorModel,
> {
    if key == "match".spec_bytes() {
        match value {
            JsonModel::Object(gs) => match read_groups(gs, 0, doc.blocks) {
                Err(e) => Err(e),
                Ok(bs) => Ok(DocumentModel { directives: doc.directives, blocks: bs }),
            },
            _ => Err(bad(SerializationReason::MatchShape)),
        }
    } else {
        match read_directive(doc.directives, key, value) {
            Err(e) => Err(e),
            Ok(ds) => Ok(DocumentModel { directives: ds, blocks: doc.blocks }),
        }
    }
}

/// The document after the members of `ms` from index `i` on.
pub open spec fn read_members(ms: Seq<MemberModel>, i: int, doc: DocumentModel) -> Result<
    DocumentModel,
    ErrorModel,
>
    decreases ms.len() - i,
{
    if i < 0 || i >= ms.len() {
        Ok(doc)
    } else {
        match read_member(doc, ms[i].key, ms[i].value) {
            Err(e) => Err(e),
            Ok(next) => read_members(ms, i + 1, next),
        }
    }
}

/// The document that a JSON value denotes, or why it denotes none.
pub open spec fn json_document(j: JsonModel) -> Result<DocumentModel, ErrorModel> {
    match j {
        JsonModel::Object(ms) => read_members(
            ms,
            0,
            DocumentModel { directives: Seq::empty(), blocks: Seq::empty() },
        ),
        _ => Err(bad(SerializationReason::RootNotObject)),
    }
}

fn schema_error(reason: SerializationReason) -> (r: ConfigError)
    ensures
        r@ == bad(reason),
{
    ConfigError::Serialization { reason }
}

fn text_check(kw: &Vec<u8>, validator: Validator, s: &Vec<u8>) -> (r: Option<ConfigError>)
    ensures
        match r {
            Some(e) => text_failure(kw@, validator, s@) == Some(e@),
            None => text_failure(kw@, validator, s@) is None,
        },
{
    if !check_clean(s.as_slice()) {
        return Some(schema_error(SerializationReason::BadText));
    }
    match validate(validator, s.as_slice()) {
        Some(reason) => Some(ConfigError::Validation { keyword: copy_bytes(kw), reason }),
        None => None,
    }
}

fn text_of_item(item: &JsonValue) -> (r: Option<&Vec<u8>>)
    ensures
        match r {
            Some(s) => item_text(item@) == Some(s@),
            None => item_text(item@) is None,
        },
{
    match item.as_text() {
        Some(s) => Some(s),
        None => match item.members() {
            None => None,
            Some(ms) => {
                if ms.len() == 1 {
                    assert(views(ms@)[0] == ms@[0]@);
                    if bytes_eq(ms[0].key.as_slice(), "value".as_bytes()) {
                        ms[0].value.as_text()
                    } else {
                        None
                    }
                } else {
                    None
                }
            },
        },
    }
}

fn items_from_json(kw: &Vec<u8>, validator: Validator, items: &Vec<JsonValue>) -> (r: Result<
    Vec<Vec<u8>>,
    ConfigError,
>)
    ensures
        match r {
            Ok(xs) => read_items(kw@, validator, views(items@), 0, Seq::empty()) == Ok::<
                Seq<Seq<u8>>,
                ErrorModel,
            >(views(xs@)),
            Err(e) => read_items(kw@, validator, views(items@), 0, Seq::empty()) == Err::<
                Seq<Seq<u8>>,
                ErrorModel,
            >(e@),
        },
{
    let mut out: Vec<Vec<u8>> = Vec::new();
    let mut i: usize = 0;
    assert(views(out@) =~= Seq::<Seq<u8>>::empty());
    while i < items.len()
        invariant
            0 <= i <= items@.len(),
            read_items(kw@, validator, views(items@), 0, Seq::empty()) == read_items(
                kw@,
                validator,
                views(items@),
                i as int,
                views(out@),
            ),
        decreases items@.len() - i,
    {
        assert(views(items@)[i as int] == items@[i as int]@);
        match text_of_item(&items[i]) {
            None => {
                return Err(schema_error(SerializationReason::ValueShape));
            },
            Some(s) => {
                if let Some(e) = text_check(kw, validator, s) {
                    return Err(e);
                }
                let copy = copy_bytes(s);
                proof {
                    lemma_views_push(out@, copy);
                }
                out.push(copy);
            },
        }
        i += 1;
    }
    Ok(out)
}

fn make_pair(kw: &Vec<u8>, validator: Validator, name: &Vec<u8>, value: &Vec<u8>) -> (r: Result<
    NamedValue,
    ConfigError,
>)
    ensures
        match r {
            Ok(p) => checked_pair(kw@, validator, name@, value@) == Ok::<PairModel, ErrorModel>(
                p@,
            ),
            Err(e) => checked_pair(kw@, validator, name@, value@) == Err::<PairModel, ErrorModel>(
                e@,
            ),
        },
{
    if !check_word(name.as_slice()) {
        return Err(schema_error(SerializationReason::BadText));
    }
    if let Some(e) = text_check(kw, validator, value) {
        return Err(e);
    }
    Ok(NamedValue { name: copy_bytes(name), value: copy_bytes(value) })
}

fn pair_from_json(kw: &Vec<u8>, validator: Validator, item: &JsonValue) -> (r: Result<
    NamedValue,
    ConfigError,
>)
    ensures
        match r {
            Ok(p) => read_pair(kw@, validator, item@) == Ok::<PairModel, ErrorModel>(p@),
            Err(e) => read_pair(kw@, validator, item@) == Err::<PairModel, ErrorModel>(e@),
        },
{
    let ms = match item.members() {
        None => {
            return Err(schema_error(SerializationReason::ValueShape));
        },
        Some(ms) => ms,
    };
    if ms.len() != 2 {
        return Err(schema_error(SerializationReason::ValueShape));
    }
    assert(views(ms@)[0] == ms@[0]@);
    assert(views(ms@)[1] == ms@[1]@);
    let first = match ms[0].value.as_text() {
        None => {
            return Err(schema_error(SerializationReason::ValueShape));
        },
        Some(t) => t,
    };
    let second = match ms[1].value.as_text() {
        None => {
            return Err(schema_error(SerializationReason::ValueShape));
        },
        Some(t) => t,
    };
    if bytes_eq(ms[0].key.as_slice(), "name".as_bytes()) && bytes_eq(
        ms[1].key.as_slice(),
        "value".as_bytes(),
    ) {
        make_pair(kw, validator, first, second)
    } else if bytes_eq(ms[0].key.as_slice(), "value".as_bytes()) && bytes_eq(
        ms[1].key.as_slice(),
        "name".as_bytes(),
    ) {
        make_pair(kw, validator, second, first)
    } else {
        Err(schema_error(SerializationReason::ValueShape))
    }
}

fn pairs_from_json(kw: &Vec<u8>, validator: Validator, items: &Vec<JsonValue>) -> (r: Result<
    Vec<NamedValue>,
    ConfigError,
>)
    ensures
        match r {
            Ok(ps) => read_pairs(kw@, validator, views(items@), 0, Seq::empty()) == Ok::<
                Seq<PairModel>,
                ErrorModel,
            >(views(ps@)),
            Err(e) => read_pairs(kw@, validator, views(items@), 0, Seq::empty()) == Err::<
                Seq<PairModel>,
                ErrorModel,
            >(e@),
        },
{
    let mut out: Vec<NamedValue> = Vec::new();
    let mut i: usize = 0;
    assert(views(out@) =~= Seq::<PairModel>::empty());
    while i < items.len()
        invariant
            0 <= i <= items@.len(),
            read_pairs(kw@, validator, views(items@), 0, Seq::empty()) == read_pairs(
                kw@,
                validator,
                views(items@),
                i as int,
                views(out@),
            ),
        decreases items@.len() - i,
    {
        assert(views(items@)[i as int] == items@[i as int]@);
        match pair_from_json(kw, validator, &items[i]) {
            Err(e) => {
                return Err(e);
            },
            Ok(pair) => {
                proof {
                    lemma_views_push(out@, pair);
                }
                out.push(pair);
            },
        }
        i += 1;
    }
    Ok(out)
}

/// Reads the value of a keyword of the given kind from a JSON value.
pub fn value_from_json(kw: &Vec<u8>, spec: KeywordSpec, value: &JsonValue) -> (r: Result<
    Value,
    ConfigError,
>)
    ensures
        match r {
            Ok(v) => read_value(kw@, spec, value@) == Ok::<ValueModel, ErrorModel>(v@),
            Err(e) => read_value(kw@, spec, value@) == Err::<ValueModel, ErrorModel>(e@),
        },
{
    match spec.kind {
        ValueKind::Scalar => match value.as_text() {
            None => Err(schema_error(SerializationReason::ValueShape)),
            Some(s) => {
                if let Some(e) = text_check(kw, spec.validator, s) {
                    return Err(e);
                }
                Ok(Value::Scalar(copy_bytes(s)))
            },
        },
        ValueKind::List => match value.items() {
            None => Err(schema_error(SerializationReason::ValueShape)),
            Some(items) => {
                if items.len() == 0 {
                    return Err(schema_error(SerializationReason::EmptyList));
                }
                if !spec.repeatable && items.len() > 1 {
                    return Err(schema_error(SerializationReason::TooManyValues));
                }
                match items_from_json(kw, spec.validator, items) {
                    Err(e) => Err(e),
                    Ok(xs) => Ok(Value::List(xs)),
                }
            },
        },
        ValueKind::ObjectList => match value.items() {
            None => Err(schema_error(SerializationReason::ValueShape)),
            Some(items) => {
                if items.len() == 0 {
                    return Err(schema_error(SerializationReason::EmptyList));
                }
                if !spec.repeatable && items.len() > 1 {
                    return Err(schema_error(SerializationReason::TooManyValues));
                }
                match pairs_from_json(kw, spec.validator, items) {
                    Err(e) => Err(e),
                    Ok(ps) => Ok(Value::ObjectList(ps)),
                }
            },
        },
    }
}

/// Adds the directive that the member `key: value` denotes to a scope.
pub fn directive_from_json(ds: Vec<Directive>, key: &Vec<u8>, value: &JsonValue) -> (r: Result<
    Vec<Directive>,
    ConfigError,
>)
    ensures
        match r {
            Ok(out) => read_directive(views(ds@), key@, value@) == Ok::<
                Seq<DirectiveModel>,
                ErrorModel,
            >(views(out@)),
            Err(e) => read_directive(views(ds@), key@, value@) == Err::<
                Seq<DirectiveModel>,
                ErrorModel,
            >(e@),
        },
{
    let mut ds = ds;
    let kw = to_lower(key.as_slice());
    let spec = match lookup_lower(kw.as_slice()) {
        None => {
            return Err(ConfigError::UnknownKeyword { keyword: kw });
        },
        Some(spec) => spec,
    };
    if find_directive(&ds, kw.as_slice()) < ds.len() {
        return Err(schema_error(SerializationReason::DuplicateKey));
    }
    match value_from_json(&kw, spec, value) {
        Err(e) => Err(e),
        Ok(v) => {
            let d = Directive { keyword: kw, value: v };
            proof {
                lemma_views_push(ds@, d);
            }
            ds.push(d);
            Ok(ds)
        },
    }
}

/// A block while its members are read.
pub struct Draft {
    pub criteria: Option<Vec<u8>>,
    pub ensure: Option<Ensure>,
    pub directives: Vec<Directive>,
}

impl View for Draft {
    type V = DraftModel;

    open spec fn view(&self) -> DraftModel {
        DraftModel {
            criteria: match self.criteria {
                Some(c) => Some(c@),
                None => None,
            },
            ensure: self.ensure,
            directives: views(self.directives@),
        }
    }
}

fn ensure_from_json(value: &JsonValue) -> (r: Result<Ensure, ConfigError>)
    ensures
        match r {
            Ok(flag) => read_ensure(value@) == Ok::<Ensure, ErrorModel>(flag),
            Err(e) => read_ensure(value@) == Err::<Ensure, ErrorModel>(e@),
        },
{
    match value.as_text() {
        None => Err(schema_error(SerializationReason::BadEnsure)),
        Some(s) => {
            if bytes_eq(s.as_slice(), "Present".as_bytes()) {
                Ok(Ensure::Present)
            } else if bytes_eq(s.as_slice(), "Absent".as_bytes()) {
                Ok(Ensure::Absent)
            } else {
                Err(schema_error(SerializationReason::BadEnsure))
            }
        },
    }
}

fn block_member_from_json(draft: Draft, key: &Vec<u8>, value: &JsonValue) -> (r: Result<
    Draft,
    ConfigError,
>)
    ensures
        match r {
            Ok(next) => read_block_member(draft@, key@, value@) == Ok::<DraftModel, ErrorModel>(
                next@,
            ),
            Err(e) => read_block_member(draft@, key@, value@) == Err::<DraftModel, ErrorModel>(
                e@,
            ),
        },
{
    let Draft { criteria, ensure, directives } = draft;
    if bytes_eq(key.as_slice(), "criteria".as_bytes()) {
        if criteria.is_some() {
            return Err(schema_error(SerializationReason::DuplicateKey));
        }
        match value.as_text() {
            None => Err(schema_error(SerializationReason::MissingCriteria)),
            Some(s) => {
                if s.len() == 0 || check_clean(s.as_slice()) {
                    Ok(Draft { criteria: Some(copy_bytes(s)), ensure, directives })
                } else {
                    Err(schema_error(SerializationReason::BadText))
                }
            },
        }
    } else if bytes_eq(key.as_slice(), "_ensure".as_bytes()) {
        if ensure.is_some() {
            return Err(schema_error(SerializationReason::DuplicateKey));
        }
        match ensure_from_json(value) {
            Err(e) => Err(e),
            Ok(flag) => Ok(Draft { criteria, ensure: Some(flag), directives }),
        }
    } else {
        match directive_from_json(directives, key, value) {
            Err(e) => Err(e),
            Ok(ds) => Ok(Draft { criteria, ensure, directives: ds }),
        }
    }
}

/// Reads a block of `category` from a JSON value.
pub fn block_from_json(category: &Vec<u8>, item: &JsonValue) -> (r: Result<
    MatchBlock,
    ConfigError,
>)
    ensures
        match r {
            Ok(b) => read_block(category@, item@) == Ok::<BlockModel, ErrorModel>(b@),
            Err(e) => read_block(category@, item@) == Err::<BlockModel, ErrorModel>(e@),
        },
{
    let ms = match item.members() {
        None => {
            return Err(schema_error(SerializationReason::MatchShape));
        },
        Some(ms) => ms,
    };
    let mut draft = Draft { criteria: None, ensure: None, directives: Vec::new() };
    assert(draft@.directives =~= Seq::<DirectiveModel>::empty());
    let mut i: usize = 0;
    while i < ms.len()
        invariant
            0 <= i <= ms@.len(),
            item@ == JsonModel::Object(views(ms@)),
            read_block_members(views(ms@), 0, empty_draft()) == read_block_members(
                views(ms@),
                i as int,
                draft@,
            ),
        decreases ms@.len() - i,
    {
        assert(views(ms@)[i as int] == ms@[i as int]@);
        match block_member_from_json(draft, &ms[i].key, &ms[i].value) {
            Err(e) => {
                return Err(e);
            },
            Ok(next) => {
                draft = next;
            },
        }
        i += 1;
    }
    let Draft { criteria, ensure, directives } = draft;
    match criteria {
        None => Err(schema_error(SerializationReason::MissingCriteria)),
        Some(c) => Ok(
            MatchBlock { category: copy_bytes(category), criteria: c, directives, ensure },
        ),
    }
}

fn blocks_from_json(category: &Vec<u8>, items: &Vec<JsonValue>, acc: Vec<MatchBlock>) -> (r:
    Result<Vec<MatchBlock>, ConfigError>)
    ensures
        match r {
            Ok(bs) => read_blocks(category@, views(items@), 0, views(acc@)) == Ok::<
                Seq<BlockModel>,
                ErrorModel,
            >(views(bs@)),
            Err(e) => read_blocks(category@, views(items@), 0, views(acc@)) == Err::<
                Seq<BlockModel>,
                ErrorModel,
            >(e@),
        },
{
    let ghost start = views(acc@);
    let mut out = acc;
    let mut i: usize = 0;
    while i < items.len()
        invariant
            0 <= i <= items@.len(),
            start == views(acc@),
            read_blocks(category@, views(items@), 0, start) == read_blocks(
                category@,
                views(items@),
                i as int,
                views(out@),
            ),
        decreases items@.len() - i,
    {
        assert(views(items@)[i as int] == items@[i as int]@);
        match block_from_json(category, &items[i]) {
            Err(e) => {
                return Err(e);
            },
            Ok(b) => {
                proof {
                    lemma_views_push(out@, b);
                }
                out.push(b);
            },
        }
        i += 1;
    }
    Ok(out)
}

/// Whether `s` is a match category.
pub fn check_category(s: &[u8]) -> (r: bool)
    ensures
        r == is_category(s@),
{
    if !check_word(s) {
        return false;
    }
    let folded = to_lower(s);
    bytes_eq(folded.as_slice(), s)
}

fn groups_from_json(gs: &Vec<Member>, acc: Vec<MatchBlock>) -> (r: Result<
    Vec<MatchBlock>,
    ConfigError,
>)
    ensures
        match r {
            Ok(bs) => read_groups(views(gs@), 0, views(acc@)) == Ok::<
                Seq<BlockModel>,
                ErrorModel,
            >(views(bs@)),
            Err(e) => read_groups(views(gs@), 0, views(acc@)) == Err::<
                Seq<BlockModel>,
                ErrorModel,
            >(e@),
        },
{
    let ghost start = views(acc@);
    let mut out = acc;
    let mut i: usize = 0;
    while i < gs.len()
        invariant
            0 <= i <= gs@.len(),
            start == views(acc@),
            read_groups(views(gs@), 0, start) == read_groups(views(gs@), i as int, views(out@)),
        decreases gs@.len() - i,
    {
        assert(views(gs@)[i as int] == gs@[i as int]@);
        if !check_category(gs[i].key.as_slice()) {
            return Err(schema_error(SerializationReason::BadCategory));
        }
        let items = match gs[i].value.items() {
            None => {
                return Err(schema_error(SerializationReason::MatchShape));
            },
            Some(items) => items,
        };
        match blocks_from_json(&gs[i].key, items, out) {
            Err(e) => {
                return Err(e);
            },
            Ok(next) => {
                out = next;
            },
        }
        i += 1;
    }
    Ok(out)
}

fn member_from_json(doc: ConfigDocument, key: &Vec<u8>, value: &JsonValue) -> (r: Result<
    ConfigDocument,
    ConfigError,
>)
    ensures
        match r {
            Ok(next) => read_member(doc@, key@, value@) == Ok::<DocumentModel, ErrorModel>(
                next@,
            ),
            Err(e) => read_member(doc@, key@, value@) == Err::<DocumentModel, ErrorModel>(e@),
        },
{
    let ConfigDocument { directives, blocks } = doc;
    if bytes_eq(key.as_slice(), "match".as_bytes()) {
        let gs = match value.members() {
            None => {
                return Err(schema_error(SerializationReason::MatchShape));
            },
            Some(gs) => gs,
        };
        match groups_from_json(gs, blocks) {
            Err(e) => Err(e),
            Ok(bs) => Ok(ConfigDocument { directives, blocks: bs }),
        }
    } else {
        match directive_from_json(directives, key, value) {
            Err(e) => Err(e),
            Ok(ds) => Ok(ConfigDocument { directives: ds, blocks }),
        }
    }
}

/// Reads a document from its JSON form.
///
/// The result is the document that the members of the root object build up
/// one after the other, or the error of the first member that is refused.
pub fn from_json(j: &JsonValue) -> (r: Result<ConfigDocument, ConfigError>)
    ensures
        match r {
            Ok(doc) => json_document(j@) == Ok::<DocumentModel, ErrorModel>(doc@) && well_formed(
                doc@,
            ),
            Err(e) => json_document(j@) == Err::<DocumentModel, ErrorModel>(e@),
        },
{
    proof {
        if json_document(j@) is Ok {
            law_json_document_well_formed(j@);
        }
    }
    let ms = match j.members() {
        None => {
            return Err(schema_error(SerializationReason::RootNotObject));
        },
        Some(ms) => ms,
    };
    let mut doc = ConfigDocument::new();
    let ghost start = doc@;
    let mut i: usize = 0;
    while i < ms.len()
        invariant
            0 <= i <= ms@.len(),
            start == (DocumentModel { directives: Seq::empty(), blocks: Seq::empty() }),
            j@ == JsonModel::Object(views(ms@)),
            read_members(views(ms@), 0, start) == read_members(views(ms@), i as int, doc@),
        decreases ms@.len() - i,
    {
        assert(views(ms@)[i as int] == ms@[i as int]@);
        match member_from_json(doc, &ms[i].key, &ms[i].value) {
            Err(e) => {
                return Err(e);
            },
            Ok(next) => {
                doc = next;
            },
        }
        i += 1;
    }
    Ok(doc)
}

} // verus!
