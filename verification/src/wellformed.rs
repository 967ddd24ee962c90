//! Well-formed documents: what the parser and the JSON reader give, and
//! what can be written to a file and read back.

use vstd::prelude::*;
use crate::bytes::{bytes_eq, check_clean, check_word, is_clean, is_word, lower_seq, to_lower};
use crate::model::{
    views, BlockModel, ConfigDocument, Directive, DirectiveModel, DocumentModel, MatchBlock,
    PairModel, Value, ValueModel,
};
use crate::registry::{
    lookup_canonical, lookup_lower, validate, validation_failure, KeywordSpec, ValueKind,
};

verus! {

/// A string that can be a value of a keyword: clean, and accepted by the
/// keyword's validator.
pub open spec fn good_text(spec: KeywordSpec, s: Seq<u8>) -> bool {
    is_clean(s) && validation_failure(spec.validator, s) is None
}

/// A pair that can be a value of a keyword: the name one word, the value a
/// good text.
pub open spec fn good_pair(spec: KeywordSpec, p: PairModel) -> bool {
    is_word(p.name) && good_text(spec, p.value)
}

/// A value of the kind that the keyword has, made of good texts; a list is
/// not empty, and has one item where the keyword may occur only once.
pub open spec fn good_value(spec: KeywordSpec, v: ValueModel) -> bool {
    match v {
        ValueModel::Scalar(s) => spec.kind == ValueKind::Scalar && good_text(spec, s),
        ValueModel::List(items) => {
            &&& spec.kind == ValueKind::List
            &&& items.len() > 0
            &&& (spec.repeatable || items.len() == 1)
            &&& forall|i: int| 0 <= i < items.len() ==> good_text(spec, #[trigger] items[i])
        },
        ValueModel::ObjectList(pairs) => {
            &&& spec.kind == ValueKind::ObjectList
            &&& pairs.len() > 0
            &&& (spec.repeatable || pairs.len() == 1)
            &&& forall|i: int| 0 <= i < pairs.len() ==> good_pair(spec, #[trigger] pairs[i])
        },
    }
}

/// A directive of a registered keyword with a good value.
pub open spec fn good_directive(d: DirectiveModel) -> bool {
    lookup_canonical(d.keyword) is Some && good_value(lookup_canonical(d.keyword).unwrap(), d.value)
}

/// A scope of good directives, no two with the same keyword.
pub open spec fn good_scope(ds: Seq<DirectiveModel>) -> bool {
    &&& forall|i: int| 0 <= i < ds.len() ==> good_directive(#[trigger] ds[i])
    &&& forall|i: int, j: int|
        0 <= i < ds.len() && 0 <= j < ds.len() && i != j ==> (#[trigger] ds[i]).keyword != (
        #[trigger] ds[j]).keyword
}

/// A match category: one word in lower case.
pub open spec fn is_category(s: Seq<u8>) -> bool {
    is_word(s) && lower_seq(s) == s
}

/// A block with a category, clean or empty criteria, and a good scope.
pub open spec fn good_block(b: BlockModel) -> bool {
    &&& is_category(b.category)
    &&& (b.criteria.len() == 0 || is_clean(b.criteria))
    &&& good_scope(b.directives)
}

/// A well-formed document: a good scope at the top level, and good blocks.
pub open spec fn well_formed(doc: DocumentModel) -> bool {
    &&& good_scope(doc.directives)
    &&& forall|i: int| 0 <= i < doc.blocks.len() ==> good_block(#[trigger] doc.blocks[i])
}

/// The blocks of each category stand together.
pub open spec fn grouped(bs: Seq<BlockModel>) -> bool {
    forall|i: int, j: int, k: int|
        0 <= i < j < k < bs.len() && (#[trigger] bs[i]).category == (#[trigger] bs[k]).category
            ==> (#[trigger] bs[j]).category == bs[i].category
}

/// No block has an ensure flag: the document is a configuration, not a
/// desired state.
pub open spec fn no_flags(bs: Seq<BlockModel>) -> bool {
    forall|i: int| 0 <= i < bs.len() ==> (#[trigger] bs[i]).ensure is None
}

/// Whether `s` can be a value of a keyword.
pub fn text_is_good(spec: KeywordSpec, s: &Vec<u8>) -> (r: bool)
    ensures
        r == good_text(spec, s@),
{
    check_clean(s.as_slice()) && validate(spec.validator, s.as_slice()).is_none()
}

/// Whether `v` is a good value of a keyword.
pub fn value_is_good(spec: KeywordSpec, v: &Value) -> (r: bool)
    ensures
        r == good_value(spec, v@),
{
    match v {
        Value::Scalar(s) => spec.kind == ValueKind::Scalar && text_is_good(spec, s),
        Value::List(items) => {
            if !(spec.kind == ValueKind::List) || items.len() == 0 || !(spec.repeatable
                || items.len() == 1) {
                return false;
            }
            let mut i: usize = 0;
            while i < items.len()
                invariant
                    0 <= i <= items@.len(),
                    v@ == ValueModel::List(views(items@)),
                    spec.kind == ValueKind::List,
                    items@.len() > 0,
                    spec.repeatable || items@.len() == 1,
                    forall|k: int| 0 <= k < i ==> good_text(spec, #[trigger] views(items@)[k]),
                decreases items@.len() - i,
            {
                assert(views(items@)[i as int] == items@[i as int]@);
                if !text_is_good(spec, &items[i]) {
                    return false;
                }
                i += 1;
            }
            true
        },
        Value::ObjectList(pairs) => {
            if !(spec.kind == ValueKind::ObjectList) || pairs.len() == 0 || !(spec.repeatable
                || pairs.len() == 1) {
                return false;
            }
            let mut i: usize = 0;
            while i < pairs.len()
                invariant
                    0 <= i <= pairs@.len(),
                    v@ == ValueModel::ObjectList(views(pairs@)),
                    spec.kind == ValueKind::ObjectList,
                    pairs@.len() > 0,
                    spec.repeatable || pairs@.len() == 1,
                    forall|k: int| 0 <= k < i ==> good_pair(spec, #[trigger] views(pairs@)[k]),
                decreases pairs@.len() - i,
            {
                assert(views(pairs@)[i as int] == pairs@[i as int]@);
                if !check_word(pairs[i].name.as_slice()) || !text_is_good(spec, &pairs[i].value) {
                    return false;
                }
                i += 1;
            }
            true
        },
    }
}

/// Whether `ds` is a good scope.
pub fn scope_is_good(ds: &Vec<Directive>) -> (r: bool)
    ensures
        r == good_scope(views(ds@)),
{
    let ghost all = views(ds@);
    let mut i: usize = 0;
    while i < ds.len()
        invariant
            0 <= i <= ds@.len(),
            all == views(ds@),
            forall|k: int| 0 <= k < i ==> good_directive(#[trigger] all[k]),
            forall|a: int, b: int|
                0 <= a < i && 0 <= b < ds@.len() && a != b ==> (#[trigger] all[a]).keyword != (
                #[trigger] all[b]).keyword,
        decreases ds@.len() - i,
    {
        let d = &ds[i];
        assert(all[i as int] == d@);
        let found = match lookup_lower(d.keyword.as_slice()) {
            None => false,
            Some(spec) => value_is_good(spec, &d.value),
        };
        if !found {
            assert(!good_directive(all[i as int]));
            return false;
        }
        // No directive before this one has its keyword; none behind it may
        // have it either.
        let mut j: usize = i + 1;
        while j < ds.len()
            invariant
                i < j <= ds@.len(),
                all == views(ds@),
                d@ == all[i as int],
                forall|b: int| i < b < j ==> (#[trigger] all[b]).keyword != d@.keyword,
            decreases ds@.len() - j,
        {
            assert(all[j as int] == ds@[j as int]@);
            if bytes_eq(ds[j].keyword.as_slice(), d.keyword.as_slice()) {
                assert(all[i as int].keyword == all[j as int].keyword);
                return false;
            }
            j += 1;
        }
        i += 1;
    }
    true
}

/// Whether `b` is a good block.
pub fn block_is_good(b: &MatchBlock) -> (r: bool)
    ensures
        r == good_block(b@),
{
    let folded = to_lower(b.category.as_slice());
    check_word(b.category.as_slice()) && bytes_eq(folded.as_slice(), b.category.as_slice()) && (
    b.criteria.len() == 0 || check_clean(b.criteria.as_slice())) && scope_is_good(&b.directives)
}

impl ConfigDocument {
    /// Whether this document is well-formed: every keyword registered and
    /// declared once in its scope, every value of the keyword's kind,
    /// accepted by its validator and fit to stand on a line of the file.
    pub fn is_well_formed(&self) -> (r: bool)
        ensures
            r == well_formed(self@),
    {
        if !scope_is_good(&self.directives) {
            return false;
        }
        let mut i: usize = 0;
        while i < self.blocks.len()
            invariant
                0 <= i <= self.blocks@.len(),
                good_scope(self@.directives),
                forall|k: int| 0 <= k < i ==> good_block(#[trigger] self@.blocks[k]),
            decreases self.blocks@.len() - i,
        {
            assert(self@.blocks[i as int] == self.blocks@[i as int]@);
            if !block_is_good(&self.blocks[i]) {
                return false;
            }
            i += 1;
        }
        true
    }
}

} // verus!
