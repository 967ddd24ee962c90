//! Well-formedness is established by the two readers and kept by `set`.

use vstd::prelude::*;
use vstd::string::StringSliceAdditionalSpecFns;
use crate::bytes::{
    is_space, is_word, leading_spaces, lemma_leading_spaces, lemma_line_len, lemma_trailing_spaces,
    lemma_word_len, line_len, lines, lower_seq, trailing_spaces, trim, trim_start, word_len,
    NEWLINE,
};
use crate::parser::{
    merge_value, opened_block, parse_line, parse_lines, parse_text, scope_with_line, single_value,
    HASH,
};
use crate::text_laws::one_line;
use crate::engine::{
    apply_block, apply_blocks, apply_document, apply_scope, declared_before, put, remove_blocks,
};

use crate::json::{JsonModel, MemberModel};
use crate::model::{
    block_position, lemma_block_position, lemma_position, position, BlockModel, DirectiveModel,
    DocumentModel, PairModel, ValueModel,
};
use crate::registry::{lookup_canonical, KeywordSpec, ValueKind};
use crate::serializer::{
    empty_draft, item_text, json_document, read_block, read_block_member, read_block_members,
    read_blocks, read_directive, read_groups, read_items, read_member, read_members, read_pair,
    read_pairs, read_value, DraftModel,
};
use crate::wellformed::{
    good_block, good_directive, good_pair, good_scope, good_text, good_value, is_category,
    no_flags, well_formed,
};

verus! {

/// The strings that are read from a JSON array are good texts.
pub proof fn lemma_read_items_good(
    kw: Seq<u8>,
    spec: KeywordSpec,
    items: Seq<JsonModel>,
    i: int,
    acc: Seq<Seq<u8>>,
)
    requires
        0 <= i <= items.len(),
        read_items(kw, spec.validator, items, i, acc) is Ok,
        forall|k: int| 0 <= k < acc.len() ==> good_text(spec, #[trigger] acc[k]),
    ensures
        forall|k: int|
            0 <= k < read_items(kw, spec.validator, items, i, acc)->Ok_0.len() ==> good_text(
                spec,
                #[trigger] read_items(kw, spec.validator, items, i, acc)->Ok_0[k],
            ),
        read_items(kw, spec.validator, items, i, acc)->Ok_0.len() == acc.len() + items.len() - i,
    decreases items.len() - i,
{
    if i < items.len() {
        let s = item_text(items[i])->Some_0;
        let next = acc.push(s);
        assert forall|k: int| 0 <= k < next.len() implies good_text(spec, #[trigger] next[k]) by {
            if k < acc.len() {
                assert(next[k] == acc[k]);
            }
        }
        lemma_read_items_good(kw, spec, items, i + 1, next);
    }
}

/// The pairs that are read from a JSON array are good pairs.
pub proof fn lemma_read_pairs_good(
    kw: Seq<u8>,
    spec: KeywordSpec,
    items: Seq<JsonModel>,
    i: int,
    acc: Seq<PairModel>,
)
    requires
        0 <= i <= items.len(),
        read_pairs(kw, spec.validator, items, i, acc) is Ok,
        forall|k: int| 0 <= k < acc.len() ==> good_pair(spec, #[trigger] acc[k]),
    ensures
        forall|k: int|
            0 <= k < read_pairs(kw, spec.validator, items, i, acc)->Ok_0.len() ==> good_pair(
                spec,
                #[trigger] read_pairs(kw, spec.validator, items, i, acc)->Ok_0[k],
            ),
        read_pairs(kw, spec.validator, items, i, acc)->Ok_0.len() == acc.len() + items.len() - i,
    decreases items.len() - i,
{
    if i < items.len() {
        let p = read_pair(kw, spec.validator, items[i])->Ok_0;
        let next = acc.push(p);
        assert(good_pair(spec, p));
        assert forall|k: int| 0 <= k < next.len() implies good_pair(spec, #[trigger] next[k]) by {
            if k < acc.len() {
                assert(next[k] == acc[k]);
            }
        }
        lemma_read_pairs_good(kw, spec, items, i + 1, next);
    }
}

/// A value that is read from JSON is a good value.
pub proof fn lemma_read_value_good(kw: Seq<u8>, spec: KeywordSpec, value: JsonModel)
    requires
        read_value(kw, spec, value) is Ok,
    ensures
        good_value(spec, read_value(kw, spec, value)->Ok_0),
{
    match spec.kind {
        ValueKind::Scalar => {},
        ValueKind::List => {
            let items = value->Array_0;
            lemma_read_items_good(kw, spec, items, 0, Seq::empty());
        },
        ValueKind::ObjectList => {
            let items = value->Array_0;
            lemma_read_pairs_good(kw, spec, items, 0, Seq::empty());
        },
    }
}

/// A good scope with one more good directive of a new keyword is a good
/// scope.
pub proof fn lemma_push_good(ds: Seq<DirectiveModel>, d: DirectiveModel)
    requires
        good_scope(ds),
        good_directive(d),
        position(ds, d.keyword) >= ds.len(),
    ensures
        good_scope(ds.push(d)),
{
    let out = ds.push(d);
    lemma_position(ds, d.keyword);
    assert forall|i: int| 0 <= i < out.len() implies good_directive(#[trigger] out[i]) by {
        if i < ds.len() {
            assert(out[i] == ds[i]);
        }
    }
    assert forall|i: int, j: int|
        0 <= i < out.len() && 0 <= j < out.len() && i != j implies (#[trigger] out[i]).keyword != (
    #[trigger] out[j]).keyword by {
        if i < ds.len() {
            assert(out[i] == ds[i]);
        }
        if j < ds.len() {
            assert(out[j] == ds[j]);
        }
    }
}

/// A good scope with a good directive in place of one of the same keyword
/// is a good scope.
pub proof fn lemma_update_good(ds: Seq<DirectiveModel>, p: int, d: DirectiveModel)
    requires
        good_scope(ds),
        good_directive(d),
        0 <= p < ds.len(),
        ds[p].keyword == d.keyword,
    ensures
        good_scope(ds.update(p, d)),
{
    let out = ds.update(p, d);
    assert forall|i: int| 0 <= i < out.len() implies good_directive(#[trigger] out[i]) by {
        if i != p {
            assert(out[i] == ds[i]);
        }
    }
    assert forall|i: int, j: int|
        0 <= i < out.len() && 0 <= j < out.len() && i != j implies (#[trigger] out[i]).keyword != (
    #[trigger] out[j]).keyword by {
        assert(out[i].keyword == ds[i].keyword);
        assert(out[j].keyword == ds[j].keyword);
    }
}

/// A directive that is read from JSON into a good scope leaves a good
/// scope.
pub proof fn lemma_read_directive_good(ds: Seq<DirectiveModel>, key: Seq<u8>, value: JsonModel)
    requires
        good_scope(ds),
        read_directive(ds, key, value) is Ok,
    ensures
        good_scope(read_directive(ds, key, value)->Ok_0),
{
    let kw = crate::bytes::lower_seq(key);
    let spec = lookup_canonical(kw)->Some_0;
    lemma_read_value_good(kw, spec, value);
    let d = DirectiveModel { keyword: kw, value: read_value(kw, spec, value)->Ok_0 };
    lemma_push_good(ds, d);
}

/// A draft whose members so far were good.
pub open spec fn good_draft(draft: DraftModel) -> bool {
    &&& good_scope(draft.directives)
    &&& match draft.criteria {
        Some(c) => c.len() == 0 || crate::bytes::is_clean(c),
        None => true,
    }
}

/// The members of a block that are read from JSON leave a good draft.
pub proof fn lemma_read_block_members_good(ms: Seq<MemberModel>, i: int, draft: DraftModel)
    requires
        0 <= i <= ms.len(),
        good_draft(draft),
        read_block_members(ms, i, draft) is Ok,
    ensures
        good_draft(read_block_members(ms, i, draft)->Ok_0),
    decreases ms.len() - i,
{
    if i < ms.len() {
        let next = read_block_member(draft, ms[i].key, ms[i].value)->Ok_0;
        if ms[i].key != "criteria".spec_bytes() && ms[i].key != "_ensure".spec_bytes() {
            lemma_read_directive_good(draft.directives, ms[i].key, ms[i].value);
        }
        lemma_read_block_members_good(ms, i + 1, next);
    }
}

/// The blocks that are read from a JSON array under a category are good
/// blocks.
pub proof fn lemma_read_blocks_good(
    category: Seq<u8>,
    items: Seq<JsonModel>,
    i: int,
    acc: Seq<BlockModel>,
)
    requires
        0 <= i <= items.len(),
        is_category(category),
        forall|k: int| 0 <= k < acc.len() ==> good_block(#[trigger] acc[k]),
        read_blocks(category, items, i, acc) is Ok,
    ensures
        forall|k: int|
            0 <= k < read_blocks(category, items, i, acc)->Ok_0.len() ==> good_block(
                #[trigger] read_blocks(category, items, i, acc)->Ok_0[k],
            ),
    decreases items.len() - i,
{
    if i < items.len() {
        let b = read_block(category, items[i])->Ok_0;
        let ms = items[i]->Object_0;
        assert(good_scope(empty_draft().directives));
        lemma_read_block_members_good(ms, 0, empty_draft());
        assert(good_block(b));
        let next = acc.push(b);
        assert forall|k: int| 0 <= k < next.len() implies good_block(#[trigger] next[k]) by {
            if k < acc.len() {
                assert(next[k] == acc[k]);
            }
        }
        lemma_read_blocks_good(category, items, i + 1, next);
    }
}

/// The blocks that are read from the groups of `match` are good blocks.
pub proof fn lemma_read_groups_good(gs: Seq<MemberModel>, i: int, acc: Seq<BlockModel>)
    requires
        0 <= i <= gs.len(),
        forall|k: int| 0 <= k < acc.len() ==> good_block(#[trigger] acc[k]),
        read_groups(gs, i, acc) is Ok,
    ensures
        forall|k: int|
            0 <= k < read_groups(gs, i, acc)->Ok_0.len() ==> good_block(
                #[trigger] read_groups(gs, i, acc)->Ok_0[k],
            ),
    decreases gs.len() - i,
{
    if i < gs.len() {
        let items = gs[i].value->Array_0;
        lemma_read_blocks_good(gs[i].key, items, 0, acc);
        lemma_read_groups_good(gs, i + 1, read_blocks(gs[i].key, items, 0, acc)->Ok_0);
    }
}

/// The members of a document that are read from JSON leave a well-formed
/// document.
pub proof fn lemma_read_members_good(ms: Seq<MemberModel>, i: int, doc: DocumentModel)
    requires
        0 <= i <= ms.len(),
        well_formed(doc),
        read_members(ms, i, doc) is Ok,
    ensures
        well_formed(read_members(ms, i, doc)->Ok_0),
    decreases ms.len() - i,
{
    if i < ms.len() {
        let next = read_member(doc, ms[i].key, ms[i].value)->Ok_0;
        if ms[i].key == "match".spec_bytes() {
            lemma_read_groups_good(ms[i].value->Object_0, 0, doc.blocks);
        } else {
            lemma_read_directive_good(doc.directives, ms[i].key, ms[i].value);
        }
        lemma_read_members_good(ms, i + 1, next);
    }
}

/// What is read from JSON is well-formed.
pub proof fn law_json_document_well_formed(j: JsonModel)
    requires
        json_document(j) is Ok,
    ensures
        well_formed(json_document(j)->Ok_0),
{
    let start = DocumentModel { directives: Seq::empty(), blocks: Seq::empty() };
    assert(well_formed(start));
    lemma_read_members_good(j->Object_0, 0, start);
}

/// A good directive put into a good scope leaves a good scope.
pub proof fn lemma_put_good(ds: Seq<DirectiveModel>, d: DirectiveModel)
    requires
        good_scope(ds),
        good_directive(d),
    ensures
        good_scope(put(ds, d)),
{
    lemma_position(ds, d.keyword);
    let p = position(ds, d.keyword);
    if p < ds.len() {
        lemma_update_good(ds, p, d);
    } else {
        lemma_push_good(ds, d);
    }
}

/// Good directives applied to a good scope leave a good scope.
pub proof fn lemma_apply_scope_good(current: Seq<DirectiveModel>, desired: Seq<DirectiveModel>)
    requires
        good_scope(current),
        forall|i: int| 0 <= i < desired.len() ==> good_directive(#[trigger] desired[i]),
    ensures
        good_scope(apply_scope(current, desired)),
    decreases desired.len(),
{
    if desired.len() > 0 {
        let rest = desired.drop_last();
        assert forall|i: int| 0 <= i < rest.len() implies good_directive(#[trigger] rest[i]) by {
            assert(rest[i] == desired[i]);
        }
        lemma_apply_scope_good(current, rest);
        assert(good_directive(desired[desired.len() - 1]));
        lemma_put_good(apply_scope(current, rest), desired.last());
    }
}

/// Good blocks without flags.
pub open spec fn plain_blocks(bs: Seq<BlockModel>) -> bool {
    no_flags(bs) && forall|k: int| 0 <= k < bs.len() ==> good_block(#[trigger] bs[k])
}

/// What is left of good blocks without flags when blocks are removed.
pub proof fn lemma_remove_blocks_good(bs: Seq<BlockModel>, category: Seq<u8>, criteria: Seq<u8>)
    requires
        plain_blocks(bs),
    ensures
        plain_blocks(remove_blocks(bs, category, criteria)),
    decreases bs.len(),
{
    if bs.len() > 0 {
        let rest = bs.drop_last();
        assert(plain_blocks(rest)) by {
            assert forall|k: int| 0 <= k < rest.len() implies good_block(#[trigger] rest[k])
                && rest[k].ensure is None by {
                assert(rest[k] == bs[k]);
            }
        }
        lemma_remove_blocks_good(rest, category, criteria);
        let sub = remove_blocks(rest, category, criteria);
        let out = remove_blocks(bs, category, criteria);
        assert(good_block(bs[bs.len() - 1]) && bs[bs.len() - 1].ensure is None);
        assert forall|k: int| 0 <= k < out.len() implies good_block(#[trigger] out[k])
            && out[k].ensure is None by {
            if k < sub.len() {
                assert(out[k] == sub[k]);
            }
        }
    }
}

/// A good declared block applied to good blocks without flags leaves good
/// blocks without flags.
pub proof fn lemma_apply_block_good(bs: Seq<BlockModel>, b: BlockModel)
    requires
        plain_blocks(bs),
        good_block(b),
    ensures
        plain_blocks(apply_block(bs, b)),
{
    let out = apply_block(bs, b);
    let p = block_position(bs, b.category, b.criteria);
    lemma_block_position(bs, b.category, b.criteria);
    if b.ensure == Some(crate::model::Ensure::Absent) {
        lemma_remove_blocks_good(bs, b.category, b.criteria);
    } else if p < bs.len() {
        assert(good_block(bs[p]) && bs[p].ensure is None);
        lemma_apply_scope_good(bs[p].directives, b.directives);
        assert forall|k: int| 0 <= k < out.len() implies good_block(#[trigger] out[k])
            && out[k].ensure is None by {
            if k != p {
                assert(out[k] == bs[k]);
            }
        }
    } else {
        assert(good_scope(Seq::<DirectiveModel>::empty()));
        lemma_apply_scope_good(Seq::empty(), b.directives);
        assert forall|k: int| 0 <= k < out.len() implies good_block(#[trigger] out[k])
            && out[k].ensure is None by {
            if k < bs.len() {
                assert(out[k] == bs[k]);
            }
        }
    }
}

/// Good declared blocks applied to good blocks without flags leave good
/// blocks without flags.
pub proof fn lemma_apply_blocks_good(current: Seq<BlockModel>, desired: Seq<BlockModel>)
    requires
        plain_blocks(current),
        forall|k: int| 0 <= k < desired.len() ==> good_block(#[trigger] desired[k]),
    ensures
        plain_blocks(apply_blocks(current, desired)),
    decreases desired.len(),
{
    if desired.len() > 0 {
        let rest = desired.drop_last();
        assert forall|k: int| 0 <= k < rest.len() implies good_block(#[trigger] rest[k]) by {
            assert(rest[k] == desired[k]);
        }
        lemma_apply_blocks_good(current, rest);
        assert(good_block(desired[desired.len() - 1]));
        if !declared_before(desired, desired.len() - 1) {
            lemma_apply_block_good(apply_blocks(current, rest), desired.last());
        }
    }
}

/// `set` keeps a configuration well-formed: a well-formed desired state
/// applied to a well-formed configuration without flags leaves a
/// well-formed configuration without flags.
pub proof fn law_apply_well_formed(current: DocumentModel, desired: DocumentModel)
    requires
        well_formed(current),
        no_flags(current.blocks),
        well_formed(desired),
    ensures
        well_formed(apply_document(current, desired)),
        no_flags(apply_document(current, desired).blocks),
{
    lemma_apply_scope_good(current.directives, desired.directives);
    lemma_apply_blocks_good(current.blocks, desired.blocks);
}

/// Each line of a text is one line.
pub proof fn lemma_lines_one_line(text: Seq<u8>)
    ensures
        forall|i: int| 0 <= i < lines(text).len() ==> one_line(#[trigger] lines(text)[i]),
    decreases text.len(),
{
    if text.len() > 0 {
        let k = line_len(text);
        lemma_line_len(text);
        if k < text.len() {
            let first = text.take(k);
            let rest = text.skip(k + 1);
            lemma_lines_one_line(rest);
            assert forall|i: int| 0 <= i < lines(text).len() implies one_line(
                #[trigger] lines(text)[i],
            ) by {
                if i == 0 {
                    assert(lines(text)[0] == first);
                    assert forall|m: int| 0 <= m < first.len() implies #[trigger] first[m]
                        != NEWLINE by {
                        assert(first[m] == text[m]);
                    }
                } else {
                    assert(lines(text)[i] == lines(rest)[i - 1]);
                }
            }
        } else {
            assert(lines(text) =~= seq![text]);
        }
    }
}

/// What is left of a line after trimming begins and ends with no
/// whitespace, and is one line where the line is.
pub proof fn lemma_trim_tidy(line: Seq<u8>)
    ensures
        trim(line).len() > 0 ==> !is_space(trim(line)[0]) && !is_space(trim(line).last()),
        one_line(line) ==> one_line(trim(line)),
{
    let a = trim_start(line);
    lemma_leading_spaces(line);
    lemma_trailing_spaces(a);
    let t = trim(line);
    if t.len() > 0 {
        assert(t[0] == a[0]);
        assert(a[0] == line[leading_spaces(line)]);
        assert(t.last() == a[a.len() - trailing_spaces(a) - 1]);
    }
    if one_line(line) {
        assert forall|m: int| 0 <= m < t.len() implies #[trigger] t[m] != NEWLINE by {
            assert(t[m] == a[m]);
            assert(a[m] == line[m + leading_spaces(line)]);
        }
    }
}

/// The first word of a trimmed line is a word, and what follows it, where
/// anything does, begins and ends with no whitespace.
pub proof fn lemma_split_tidy(t: Seq<u8>)
    requires
        t.len() > 0,
        !is_space(t[0]),
        !is_space(t.last()),
        one_line(t),
    ensures
        is_word(t.take(word_len(t))),
        trim_start(t.skip(word_len(t))).len() > 0 ==> {
            &&& !is_space(trim_start(t.skip(word_len(t)))[0])
            &&& !is_space(trim_start(t.skip(word_len(t))).last())
            &&& one_line(trim_start(t.skip(word_len(t))))
        },
{
    let k = word_len(t);
    lemma_word_len(t);
    let word = t.take(k);
    assert(k > 0);
    assert forall|i: int| 0 <= i < word.len() implies !is_space(#[trigger] word[i]) && word[i]
        != NEWLINE by {
        assert(word[i] == t[i]);
    }
    let tail = t.skip(k);
    lemma_leading_spaces(tail);
    let rest = trim_start(tail);
    if rest.len() > 0 {
        assert(rest[0] == tail[leading_spaces(tail)]);
        assert(rest.last() == t.last());
        assert forall|m: int| 0 <= m < rest.len() implies #[trigger] rest[m] != NEWLINE by {
            assert(rest[m] == t[m + leading_spaces(tail) + k]);
        }
    }
}

/// The lower case of a word is a category.
pub proof fn lemma_lower_word(w: Seq<u8>)
    requires
        is_word(w),
    ensures
        is_category(lower_seq(w)),
{
    let c = lower_seq(w);
    assert forall|i: int| 0 <= i < c.len() implies !is_space(#[trigger] c[i]) && c[i]
        != NEWLINE by {
        assert(!is_space(w[i]) && w[i] != NEWLINE);
    }
    assert(lower_seq(c) =~= c);
}

/// A line of a registered keyword that is accepted into a good scope
/// leaves a good scope.
pub proof fn lemma_scope_with_line_good(
    ds: Seq<DirectiveModel>,
    kw: Seq<u8>,
    rest: Seq<u8>,
    number: int,
)
    requires
        good_scope(ds),
        lookup_canonical(kw) is Some,
        rest.len() > 0 ==> !is_space(rest[0]) && !is_space(rest.last()) && one_line(rest),
        scope_with_line(ds, kw, lookup_canonical(kw)->Some_0, rest, number) is Ok,
    ensures
        good_scope(scope_with_line(ds, kw, lookup_canonical(kw)->Some_0, rest, number)->Ok_0),
{
    let spec = lookup_canonical(kw)->Some_0;
    let made = single_value(spec.kind, rest);
    let p = position(ds, kw);
    lemma_position(ds, kw);
    assert(good_value(spec, made)) by {
        match spec.kind {
            ValueKind::Scalar => {},
            ValueKind::List => {},
            ValueKind::ObjectList => {
                lemma_split_tidy(rest);
            },
        }
    }
    if p >= ds.len() {
        lemma_push_good(ds, DirectiveModel { keyword: kw, value: made });
    } else {
        let had = ds[p].value;
        assert(good_directive(ds[p]));
        let joined = merge_value(had, made);
        assert(good_value(spec, joined)) by {
            match had {
                ValueModel::Scalar(s) => {},
                ValueModel::List(a) => {
                    let b = made->List_0;
                    let all = a + b;
                    assert forall|i: int| 0 <= i < all.len() implies good_text(
                        spec,
                        #[trigger] all[i],
                    ) by {
                        if i < a.len() {
                            assert(all[i] == a[i]);
                        } else {
                            assert(all[i] == b[i - a.len()]);
                        }
                    }
                },
                ValueModel::ObjectList(a) => {
                    let b = made->ObjectList_0;
                    let all = a + b;
                    assert forall|i: int| 0 <= i < all.len() implies good_pair(
                        spec,
                        #[trigger] all[i],
                    ) by {
                        if i < a.len() {
                            assert(all[i] == a[i]);
                        } else {
                            assert(all[i] == b[i - a.len()]);
                        }
                    }
                },
            }
        }
        lemma_update_good(ds, p, DirectiveModel { keyword: kw, value: joined });
    }
}

/// A line that is accepted into a well-formed configuration without flags
/// leaves one.
pub proof fn lemma_parse_line_good(doc: DocumentModel, line: Seq<u8>, number: int)
    requires
        well_formed(doc),
        no_flags(doc.blocks),
        one_line(line),
        parse_line(doc, line, number) is Ok,
    ensures
        well_formed(parse_line(doc, line, number)->Ok_0),
        no_flags(parse_line(doc, line, number)->Ok_0.blocks),
{
    let t = trim(line);
    let out = parse_line(doc, line, number)->Ok_0;
    lemma_trim_tidy(line);
    if t.len() == 0 || t[0] == HASH {
    } else {
        lemma_split_tidy(t);
        let kw = lower_seq(t.take(word_len(t)));
        let rest = trim_start(t.skip(word_len(t)));
        if kw == "match".spec_bytes() {
            lemma_split_tidy(rest);
            lemma_lower_word(rest.take(word_len(rest)));
            let b = opened_block(rest);
            assert(good_scope(b.directives));
            assert(good_block(b));
            assert forall|k: int| 0 <= k < out.blocks.len() implies good_block(
                #[trigger] out.blocks[k],
            ) && out.blocks[k].ensure is None by {
                if k < doc.blocks.len() {
                    assert(out.blocks[k] == doc.blocks[k]);
                }
            }
        } else if doc.blocks.len() == 0 {
            lemma_scope_with_line_good(doc.directives, kw, rest, number);
        } else {
            let last = doc.blocks.last();
            assert(good_block(doc.blocks[doc.blocks.len() - 1]));
            assert(doc.blocks[doc.blocks.len() - 1].ensure is None);
            lemma_scope_with_line_good(last.directives, kw, rest, number);
            assert forall|k: int| 0 <= k < out.blocks.len() implies good_block(
                #[trigger] out.blocks[k],
            ) && out.blocks[k].ensure is None by {
                if k < doc.blocks.len() - 1 {
                    assert(out.blocks[k] == doc.blocks[k]);
                }
            }
        }
    }
}

/// The lines that are accepted leave a well-formed configuration without
/// flags.
pub proof fn lemma_parse_lines_good(ls: Seq<Seq<u8>>, n: int)
    requires
        0 <= n <= ls.len(),
        forall|i: int| 0 <= i < ls.len() ==> one_line(#[trigger] ls[i]),
        parse_lines(ls, n) is Ok,
    ensures
        well_formed(parse_lines(ls, n)->Ok_0),
        no_flags(parse_lines(ls, n)->Ok_0.blocks),
    decreases n,
{
    if n > 0 {
        lemma_parse_lines_good(ls, n - 1);
        assert(one_line(ls[n - 1]));
        lemma_parse_line_good(parse_lines(ls, n - 1)->Ok_0, ls[n - 1], n);
    }
}

/// What is parsed from a text is a well-formed configuration without
/// flags.
pub proof fn law_parse_well_formed(text: Seq<u8>)
    requires
        parse_text(text) is Ok,
    ensures
        well_formed(parse_text(text)->Ok_0),
        no_flags(parse_text(text)->Ok_0.blocks),
{
    lemma_lines_one_line(text);
    lemma_parse_lines_good(lines(text), lines(text).len() as int);
}

} // verus!
