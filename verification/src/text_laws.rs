//! The text round trip: parsing the text of a well-formed configuration
//! gives the configuration back.

use vstd::prelude::*;
use vstd::string::StringSliceAdditionalSpecFns;
use crate::bytes::{
    is_clean, is_space, lemma_leading_spaces_is, lemma_line_len_is, lemma_trailing_spaces_is,
    lemma_word_len_is, lines, lower_seq, trim, trim_end, trim_start, word_len, NEWLINE,
};
use crate::error::ErrorModel;
use crate::literals::lemma_match_word;
use crate::model::{
    lemma_position, lemma_position_is, position, BlockModel, DirectiveModel, DocumentModel,
    ValueModel,
};
use crate::parser::{
    merge_value, opened_block, parse_line, parse_lines, parse_text, payload, scope_with_line,
    single_value, HASH,
};
use crate::registry::{display_of, lemma_registered, lookup_canonical};
use crate::wellformed::{
    good_block, good_directive, good_pair, good_scope, good_text, is_category, no_flags,
    well_formed,
};
use crate::writer::{
    block_lines, blocks_lines, directive_line, document_lines, document_text, header_line,
    join_lines, pair_text, scope_lines, value_lines, SPACE,
};

verus! {

/// A line that the writer can end with a newline: it holds none itself.
pub open spec fn one_line(s: Seq<u8>) -> bool {
    forall|i: int| 0 <= i < s.len() ==> #[trigger] s[i] != NEWLINE
}

/// Joined lines begin with the first line and its newline.
pub proof fn lemma_join_front(first: Seq<u8>, rest: Seq<Seq<u8>>)
    ensures
        join_lines(seq![first] + rest) == first + seq![NEWLINE] + join_lines(rest),
    decreases rest.len(),
{
    let all = seq![first] + rest;
    if rest.len() == 0 {
        assert(all.drop_last() =~= Seq::<Seq<u8>>::empty());
        assert(join_lines(all.drop_last()) =~= Seq::<u8>::empty());
        assert(join_lines(all) =~= first + seq![NEWLINE] + join_lines(rest));
    } else {
        assert(all.drop_last() =~= seq![first] + rest.drop_last());
        assert(all.last() == rest.last());
        lemma_join_front(first, rest.drop_last());
        assert(join_lines(all) =~= first + seq![NEWLINE] + join_lines(rest));
    }
}

/// Splitting what the writer joined gives the lines back.
pub proof fn lemma_lines_of_join(ls: Seq<Seq<u8>>)
    requires
        forall|i: int| 0 <= i < ls.len() ==> one_line(#[trigger] ls[i]),
    ensures
        lines(join_lines(ls)) == ls,
    decreases ls.len(),
{
    if ls.len() == 0 {
        assert(lines(join_lines(ls)) =~= ls);
    } else {
        let first = ls[0];
        let rest = ls.skip(1);
        assert(ls =~= seq![first] + rest);
        lemma_join_front(first, rest);
        let text = join_lines(ls);
        let tail = join_lines(rest);
        assert(text == first + seq![NEWLINE] + tail);
        assert(one_line(first));
        assert forall|j: int| 0 <= j < first.len() implies #[trigger] text[j] != NEWLINE by {
            assert(text[j] == first[j]);
        }
        assert(text[first.len() as int] == NEWLINE);
        lemma_line_len_is(text, first.len() as int);
        assert(text.take(first.len() as int) =~= first);
        assert(text.skip((first.len() + 1) as int) =~= tail);
        assert forall|i: int| 0 <= i < rest.len() implies one_line(#[trigger] rest[i]) by {
            assert(rest[i] == ls[i + 1]);
        }
        lemma_lines_of_join(rest);
        assert(lines(text) =~= seq![first] + rest);
    }
}

/// The written form of a registered keyword is a word of letters, and the
/// keyword is its lower case.
pub proof fn lemma_display_word(kw: Seq<u8>)
    requires
        lookup_canonical(kw) is Some,
    ensures
        display_of(kw).len() > 0,
        forall|i: int|
            0 <= i < display_of(kw).len() ==> !is_space(#[trigger] display_of(kw)[i])
                && display_of(kw)[i] != NEWLINE && display_of(kw)[i] != HASH,
        lower_seq(display_of(kw)) == kw,
        kw != "match".spec_bytes(),
{
    lemma_registered(kw);
    let shown = display_of(kw);
    assert forall|i: int| 0 <= i < shown.len() implies !is_space(#[trigger] shown[i])
        && shown[i] != NEWLINE && shown[i] != HASH by {
        assert(lower_seq(shown)[i] == kw[i]);
        assert(97 <= kw[i] <= 122);
    }
}

/// A word, one blank and a clean remainder split into the word and the
/// remainder, and have nothing to trim.
pub proof fn lemma_split_line(word: Seq<u8>, rest: Seq<u8>)
    requires
        word.len() > 0,
        forall|i: int| 0 <= i < word.len() ==> !is_space(#[trigger] word[i]),
        rest.len() > 0,
        !is_space(rest[0]),
        !is_space(rest.last()),
    ensures
        trim(word + seq![SPACE] + rest) == word + seq![SPACE] + rest,
        word_len(word + seq![SPACE] + rest) == word.len(),
        (word + seq![SPACE] + rest).take(word.len() as int) == word,
        trim_start((word + seq![SPACE] + rest).skip(word.len() as int)) == rest,
{
    let line = word + seq![SPACE] + rest;
    assert(line[0] == word[0]);
    lemma_leading_spaces_is(line, 0);
    assert(trim_start(line) =~= line);
    assert(line.last() == rest.last());
    lemma_trailing_spaces_is(line, 0);
    assert(trim_end(line) =~= line);
    assert forall|j: int| 0 <= j < word.len() implies !is_space(#[trigger] line[j]) by {
        assert(line[j] == word[j]);
    }
    assert(line[word.len() as int] == SPACE);
    lemma_word_len_is(line, word.len() as int);
    assert(line.take(word.len() as int) =~= word);
    let tail = line.skip(word.len() as int);
    assert(tail =~= seq![SPACE] + rest);
    assert(tail[0] == SPACE);
    assert(tail[1] == rest[0]);
    assert forall|j: int| 0 <= j < 1 implies is_space(#[trigger] tail[j]) by {}
    lemma_leading_spaces_is(tail, 1);
    assert(tail.skip(1) =~= rest);
}

/// The scope that lines are read into: that of the block opened last, or
/// the top level while there is none.
pub open spec fn current_scope(doc: DocumentModel) -> Seq<DirectiveModel> {
    if doc.blocks.len() == 0 {
        doc.directives
    } else {
        doc.blocks.last().directives
    }
}

/// A document with the scope that lines are read into replaced.
pub open spec fn with_scope(doc: DocumentModel, ds: Seq<DirectiveModel>) -> DocumentModel {
    if doc.blocks.len() == 0 {
        DocumentModel { directives: ds, blocks: doc.blocks }
    } else {
        DocumentModel {
            directives: doc.directives,
            blocks: doc.blocks.drop_last().push(
                BlockModel {
                    category: doc.blocks.last().category,
                    criteria: doc.blocks.last().criteria,
                    directives: ds,
                    ensure: doc.blocks.last().ensure,
                },
            ),
        }
    }
}

/// The line that the writer makes of a registered keyword and a clean
/// remainder is read as that keyword with that remainder.
pub proof fn lemma_directive_line(doc: DocumentModel, kw: Seq<u8>, rest: Seq<u8>, number: int)
    requires
        lookup_canonical(kw) is Some,
        rest.len() > 0,
        !is_space(rest[0]),
        !is_space(rest.last()),
    ensures
        parse_line(doc, directive_line(kw, rest), number) == match scope_with_line(
            current_scope(doc),
            kw,
            lookup_canonical(kw).unwrap(),
            rest,
            number,
        ) {
            Err(e) => Err::<DocumentModel, ErrorModel>(e),
            Ok(ds) => Ok(with_scope(doc, ds)),
        },
{
    let shown = display_of(kw);
    let line = directive_line(kw, rest);
    lemma_display_word(kw);
    lemma_split_line(shown, rest);
    assert(line[0] == shown[0]);
}

/// The header that the writer makes of a good block opens that block.
pub proof fn lemma_header_line(doc: DocumentModel, b: BlockModel, number: int)
    requires
        is_category(b.category),
        b.criteria.len() == 0 || is_clean(b.criteria),
    ensures
        parse_line(doc, header_line(b), number) == Ok::<DocumentModel, ErrorModel>(
            DocumentModel {
                directives: doc.directives,
                blocks: doc.blocks.push(
                    BlockModel {
                        category: b.category,
                        criteria: b.criteria,
                        directives: Seq::empty(),
                        ensure: None,
                    },
                ),
            },
        ),
{
    let word = "Match".spec_bytes();
    lemma_match_word();
    let line = header_line(b);
    let rest = if b.criteria.len() == 0 {
        b.category
    } else {
        b.category + seq![SPACE] + b.criteria
    };
    assert(line =~= word + seq![SPACE] + rest);
    assert(rest[0] == b.category[0]);
    if b.criteria.len() == 0 {
        assert(rest.last() == b.category.last());
        lemma_word_len_is(rest, rest.len() as int);
        assert(rest.take(rest.len() as int) =~= b.category);
        assert(rest.skip(rest.len() as int) =~= Seq::<u8>::empty());
        lemma_leading_spaces_is(Seq::<u8>::empty(), 0);
        assert(trim_start(rest.skip(rest.len() as int)) =~= b.criteria);
    } else {
        assert(rest.last() == b.criteria.last());
        lemma_split_line(b.category, b.criteria);
    }
    lemma_split_line(word, rest);
    assert(line[0] == word[0]);
    assert(opened_block(rest).category == b.category);
    assert(opened_block(rest).criteria == b.criteria);
}

/// Whether reading all of the lines `ls` gives the document `doc`.
pub open spec fn reads_to(ls: Seq<Seq<u8>>, doc: DocumentModel) -> bool {
    parse_lines(ls, ls.len() as int) == Ok::<DocumentModel, ErrorModel>(doc)
}

/// What the first lines give does not depend on the lines after them.
pub proof fn lemma_parse_prefix(a: Seq<Seq<u8>>, b: Seq<Seq<u8>>, n: int)
    requires
        n <= a.len(),
    ensures
        parse_lines(a + b, n) == parse_lines(a, n),
    decreases n,
{
    if n > 0 {
        lemma_parse_prefix(a, b, n - 1);
        assert((a + b)[n - 1] == a[n - 1]);
    }
}

/// One more line that is accepted gives one more step.
pub proof fn lemma_parse_step(
    ls: Seq<Seq<u8>>,
    doc: DocumentModel,
    line: Seq<u8>,
    next: DocumentModel,
)
    requires
        reads_to(ls, doc),
        parse_line(doc, line, (ls.len() + 1) as int) == Ok::<DocumentModel, ErrorModel>(next),
    ensures
        reads_to(ls.push(line), next),
{
    assert(ls.push(line) =~= ls + seq![line]);
    lemma_parse_prefix(ls, seq![line], ls.len() as int);
}

/// The scope that lines are read into, after it was replaced.
pub proof fn lemma_with_scope(doc: DocumentModel, a: Seq<DirectiveModel>, b: Seq<DirectiveModel>)
    ensures
        current_scope(with_scope(doc, a)) == a,
        with_scope(with_scope(doc, a), b) == with_scope(doc, b),
        with_scope(doc, current_scope(doc)) == doc,
{
    if doc.blocks.len() > 0 {
        let last = doc.blocks.last();
        let first = with_scope(doc, a);
        assert(first.blocks.drop_last() =~= doc.blocks.drop_last());
        assert(with_scope(doc, current_scope(doc)).blocks =~= doc.blocks);
    }
}

/// The number of lines that a value is written on.
pub open spec fn line_count(v: ValueModel) -> int {
    match v {
        ValueModel::Scalar(_) => 1,
        ValueModel::List(items) => items.len() as int,
        ValueModel::ObjectList(pairs) => pairs.len() as int,
    }
}

/// The value that the first `k` lines of a value give.
pub open spec fn partial(v: ValueModel, k: int) -> ValueModel {
    match v {
        ValueModel::Scalar(s) => ValueModel::Scalar(s),
        ValueModel::List(items) => ValueModel::List(items.take(k)),
        ValueModel::ObjectList(pairs) => ValueModel::ObjectList(pairs.take(k)),
    }
}

/// What line `k` of a good directive holds behind the keyword, and what
/// the parser makes of it.
pub proof fn lemma_value_line(d: DirectiveModel, k: int)
    requires
        good_directive(d),
        0 <= k < line_count(d.value),
    ensures
        value_lines(d.keyword, d.value).len() == line_count(d.value),
        exists|rest: Seq<u8>|
            {
                &&& value_lines(d.keyword, d.value)[k] == directive_line(d.keyword, rest)
                &&& rest.len() > 0
                &&& !is_space(rest[0])
                &&& !is_space(rest.last())
                &&& one_line(rest)
                &&& payload(lookup_canonical(d.keyword).unwrap().kind, rest).len() > 0
                &&& crate::registry::validation_failure(
                    lookup_canonical(d.keyword).unwrap().validator,
                    payload(lookup_canonical(d.keyword).unwrap().kind, rest),
                ) is None
                &&& merge_value(
                    partial(d.value, k),
                    single_value(lookup_canonical(d.keyword).unwrap().kind, rest),
                ) == partial(d.value, k + 1)
                &&& k == 0 ==> single_value(lookup_canonical(d.keyword).unwrap().kind, rest)
                    == partial(d.value, 1)
            },
{
    let spec = lookup_canonical(d.keyword).unwrap();
    match d.value {
        ValueModel::Scalar(s) => {
            let rest = s;
            assert(value_lines(d.keyword, d.value)[k] == directive_line(d.keyword, rest));
            assert(one_line(rest));
        },
        ValueModel::List(items) => {
            let rest = items[k];
            assert(good_text(spec, items[k]));
            assert(value_lines(d.keyword, d.value)[k] == directive_line(d.keyword, rest));
            assert(one_line(rest));
            assert(items.take(k) + seq![rest] =~= items.take(k + 1));
            if k == 0 {
                assert(seq![rest] =~= items.take(1));
            }
        },
        ValueModel::ObjectList(pairs) => {
            let p = pairs[k];
            assert(good_pair(spec, p));
            let rest = pair_text(p);
            assert(value_lines(d.keyword, d.value)[k] == directive_line(d.keyword, rest));
            lemma_split_line(p.name, p.value);
            assert(rest[0] == p.name[0]);
            assert(rest.last() == p.value.last());
            assert(one_line(rest)) by {
                assert forall|i: int| 0 <= i < rest.len() implies #[trigger] rest[i]
                    != NEWLINE by {
                    if i < p.name.len() {
                        assert(rest[i] == p.name[i]);
                    } else if i > p.name.len() {
                        assert(rest[i] == p.value[i - p.name.len() - 1]);
                    }
                }
            }
            let made = single_value(spec.kind, rest);
            assert(made == ValueModel::ObjectList(seq![p]));
            assert(pairs.take(k) + seq![p] =~= pairs.take(k + 1));
            if k == 0 {
                assert(seq![p] =~= pairs.take(1));
            }
        },
    }
}

/// Reading the first `k` lines of a good directive whose keyword the scope
/// does not hold yet puts the directive behind the scope, with the value
/// that those lines give.
pub proof fn lemma_value_lines(ls: Seq<Seq<u8>>, doc: DocumentModel, d: DirectiveModel, k: int)
    requires
        reads_to(ls, doc),
        good_directive(d),
        position(current_scope(doc), d.keyword) >= current_scope(doc).len(),
        1 <= k <= line_count(d.value),
    ensures
        reads_to(
            ls + value_lines(d.keyword, d.value).take(k),
            with_scope(
                doc,
                current_scope(doc).push(
                    DirectiveModel { keyword: d.keyword, value: partial(d.value, k) },
                ),
            ),
        ),
    decreases k,
{
    let spec = lookup_canonical(d.keyword).unwrap();
    let all = value_lines(d.keyword, d.value);
    let scope = current_scope(doc);
    lemma_value_line(d, k - 1);
    let rest = choose|rest: Seq<u8>|
        {
            &&& all[k - 1] == directive_line(d.keyword, rest)
            &&& rest.len() > 0
            &&& !is_space(rest[0])
            &&& !is_space(rest.last())
            &&& one_line(rest)
            &&& payload(spec.kind, rest).len() > 0
            &&& crate::registry::validation_failure(spec.validator, payload(spec.kind, rest))
                is None
            &&& merge_value(partial(d.value, k - 1), single_value(spec.kind, rest)) == partial(
                d.value,
                k - 1 + 1,
            )
            &&& k - 1 == 0 ==> single_value(spec.kind, rest) == partial(d.value, 1)
        };
    let line = all[k - 1];
    let want = DirectiveModel { keyword: d.keyword, value: partial(d.value, k) };
    if k == 1 {
        lemma_directive_line(doc, d.keyword, rest, (ls.len() + 1) as int);
        lemma_parse_step(ls, doc, line, with_scope(doc, scope.push(want)));
        assert(ls.push(line) =~= ls + all.take(k));
    } else {
        lemma_value_lines(ls, doc, d, k - 1);
        let before = ls + all.take(k - 1);
        let had = DirectiveModel { keyword: d.keyword, value: partial(d.value, k - 1) };
        let mid = with_scope(doc, scope.push(had));
        lemma_with_scope(doc, scope.push(had), scope.push(want));
        lemma_directive_line(mid, d.keyword, rest, (before.len() + 1) as int);
        let held = scope.push(had);
        assert forall|j: int| 0 <= j < scope.len() implies (#[trigger] held[j]).keyword
            != d.keyword by {
            lemma_position(scope, d.keyword);
            assert(held[j] == scope[j]);
        }
        lemma_position_is(held, d.keyword, scope.len() as int);
        assert(spec.repeatable);
        assert(held.update(scope.len() as int, want) =~= scope.push(want));
        lemma_parse_step(before, mid, line, with_scope(doc, scope.push(want)));
        assert(before.push(line) =~= ls + all.take(k));
    }
}

/// Reading the lines of the first `i` directives of a good scope into an
/// empty scope gives those directives.
pub proof fn lemma_scope_lines(
    ls: Seq<Seq<u8>>,
    doc: DocumentModel,
    ds: Seq<DirectiveModel>,
    i: int,
)
    requires
        reads_to(ls, doc),
        current_scope(doc) == Seq::<DirectiveModel>::empty(),
        good_scope(ds),
        0 <= i <= ds.len(),
    ensures
        reads_to(ls + scope_lines(ds.take(i)), with_scope(doc, ds.take(i))),
    decreases i,
{
    if i == 0 {
        assert(ds.take(0) =~= Seq::<DirectiveModel>::empty());
        assert(ls + scope_lines(ds.take(0)) =~= ls);
        lemma_with_scope(doc, ds.take(0), ds.take(0));
    } else {
        lemma_scope_lines(ls, doc, ds, i - 1);
        let before = ls + scope_lines(ds.take(i - 1));
        let scope = ds.take(i - 1);
        let mid = with_scope(doc, scope);
        let d = ds[i - 1];
        lemma_with_scope(doc, scope, ds.take(i));
        assert(good_directive(d));
        assert forall|j: int| 0 <= j < scope.len() implies (#[trigger] scope[j]).keyword
            != d.keyword by {
            assert(scope[j] == ds[j]);
        }
        lemma_position_is(scope, d.keyword, scope.len() as int);
        lemma_value_line(d, 0);
        let count = line_count(d.value);
        lemma_value_lines(before, mid, d, count);
        let all = value_lines(d.keyword, d.value);
        assert(all.take(count) =~= all);
        assert(partial(d.value, count) == d.value) by {
            match d.value {
                ValueModel::Scalar(s) => {},
                ValueModel::List(items) => {
                    assert(items.take(count) =~= items);
                },
                ValueModel::ObjectList(pairs) => {
                    assert(pairs.take(count) =~= pairs);
                },
            }
        }
        assert(scope.push(d) =~= ds.take(i));
        let next = ds.take(i);
        assert(next.drop_last() =~= scope);
        assert(next.last() == d);
        assert(before + all =~= ls + scope_lines(next));
    }
}

/// Reading the lines of the first `j` of a list of good blocks without
/// flags puts those blocks behind the blocks of the document.
pub proof fn lemma_blocks_lines(
    ls: Seq<Seq<u8>>,
    doc: DocumentModel,
    bs: Seq<BlockModel>,
    j: int,
)
    requires
        reads_to(ls, doc),
        forall|k: int| 0 <= k < bs.len() ==> good_block(#[trigger] bs[k]),
        no_flags(bs),
        0 <= j <= bs.len(),
    ensures
        reads_to(
            ls + blocks_lines(bs.take(j)),
            DocumentModel { directives: doc.directives, blocks: doc.blocks + bs.take(j) },
        ),
    decreases j,
{
    if j == 0 {
        assert(bs.take(0) =~= Seq::<BlockModel>::empty());
        assert(ls + blocks_lines(bs.take(0)) =~= ls);
        assert(doc.blocks + bs.take(0) =~= doc.blocks);
    } else {
        lemma_blocks_lines(ls, doc, bs, j - 1);
        let before = ls + blocks_lines(bs.take(j - 1));
        let held = doc.blocks + bs.take(j - 1);
        let mid = DocumentModel { directives: doc.directives, blocks: held };
        let b = bs[j - 1];
        assert(good_block(b));
        assert(b.ensure is None);
        let opened = BlockModel {
            category: b.category,
            criteria: b.criteria,
            directives: Seq::empty(),
            ensure: None,
        };
        let open = DocumentModel { directives: doc.directives, blocks: held.push(opened) };
        lemma_header_line(mid, b, (before.len() + 1) as int);
        lemma_parse_step(before, mid, header_line(b), open);
        let headed = before.push(header_line(b));
        lemma_scope_lines(headed, open, b.directives, b.directives.len() as int);
        assert(b.directives.take(b.directives.len() as int) =~= b.directives);
        let done = with_scope(open, b.directives);
        assert(open.blocks.drop_last() =~= held);
        assert(done.blocks =~= doc.blocks + bs.take(j));
        let next = bs.take(j);
        assert(next.drop_last() =~= bs.take(j - 1));
        assert(next.last() == b);
        assert(headed + scope_lines(b.directives) =~= ls + blocks_lines(next));
    }
}

/// Each line of a good scope is one line.
pub proof fn lemma_scope_one_line(ds: Seq<DirectiveModel>)
    requires
        forall|i: int| 0 <= i < ds.len() ==> good_directive(#[trigger] ds[i]),
    ensures
        forall|i: int| 0 <= i < scope_lines(ds).len() ==> one_line(#[trigger] scope_lines(ds)[i]),
    decreases ds.len(),
{
    if ds.len() > 0 {
        let rest = ds.drop_last();
        let d = ds.last();
        assert forall|i: int| 0 <= i < rest.len() implies good_directive(#[trigger] rest[i]) by {
            assert(rest[i] == ds[i]);
        }
        lemma_scope_one_line(rest);
        let front = scope_lines(rest);
        let all = value_lines(d.keyword, d.value);
        assert(good_directive(d));
        lemma_display_word(d.keyword);
        assert forall|i: int| 0 <= i < scope_lines(ds).len() implies one_line(
            #[trigger] scope_lines(ds)[i],
        ) by {
            if i < front.len() {
                assert(scope_lines(ds)[i] == front[i]);
            } else {
                let k = i - front.len();
                lemma_value_line(d, 0);
                assert(scope_lines(ds)[i] == all[k]);
                lemma_value_line(d, k);
                let r = choose|r: Seq<u8>| all[k] == directive_line(d.keyword, r) && one_line(r);
                let shown = display_of(d.keyword);
                let line = all[k];
                assert forall|m: int| 0 <= m < line.len() implies #[trigger] line[m]
                    != NEWLINE by {
                    if m < shown.len() {
                        assert(line[m] == shown[m]);
                    } else if m > shown.len() {
                        assert(line[m] == r[m - shown.len() - 1]);
                    }
                }
            }
        }
    }
}

/// Each line of a list of good blocks is one line.
pub proof fn lemma_blocks_one_line(bs: Seq<BlockModel>)
    requires
        forall|k: int| 0 <= k < bs.len() ==> good_block(#[trigger] bs[k]),
    ensures
        forall|i: int| 0 <= i < blocks_lines(bs).len() ==> one_line(#[trigger] blocks_lines(bs)[i]),
    decreases bs.len(),
{
    if bs.len() > 0 {
        let rest = bs.drop_last();
        let b = bs.last();
        assert forall|k: int| 0 <= k < rest.len() implies good_block(#[trigger] rest[k]) by {
            assert(rest[k] == bs[k]);
        }
        lemma_blocks_one_line(rest);
        assert(good_block(b));
        lemma_scope_one_line(b.directives);
        lemma_match_word();
        let head = header_line(b);
        let word = "Match".spec_bytes();
        assert forall|m: int| 0 <= m < head.len() implies #[trigger] head[m] != NEWLINE by {
            if m < 5 {
                assert(head[m] == word[m]);
            } else if m == 5 {
            } else if m < 6 + b.category.len() {
                assert(head[m] == b.category[m - 6]);
            } else if b.criteria.len() > 0 && m > 6 + b.category.len() {
                assert(head[m] == b.criteria[m - 7 - b.category.len()]);
            }
        }
        let front = blocks_lines(rest);
        let own = block_lines(b);
        assert forall|i: int| 0 <= i < blocks_lines(bs).len() implies one_line(
            #[trigger] blocks_lines(bs)[i],
        ) by {
            if i < front.len() {
                assert(blocks_lines(bs)[i] == front[i]);
            } else if i == front.len() {
                assert(blocks_lines(bs)[i] == head);
            } else {
                assert(blocks_lines(bs)[i] == scope_lines(b.directives)[i - front.len() - 1]);
            }
        }
    }
}

/// Text round trip. Parsing the text that the writer makes of a
/// well-formed configuration gives the configuration back. Comments, blank
/// lines and spacing are no part of a configuration: the writer makes none.
pub proof fn law_text_round_trip(doc: DocumentModel)
    requires
        well_formed(doc),
        no_flags(doc.blocks),
    ensures
        parse_text(document_text(doc)) == Ok::<DocumentModel, ErrorModel>(doc),
{
    let ds = doc.directives;
    let bs = doc.blocks;
    let none = Seq::<Seq<u8>>::empty();
    let start = DocumentModel { directives: Seq::empty(), blocks: Seq::empty() };
    assert(reads_to(none, start));
    lemma_scope_lines(none, start, ds, ds.len() as int);
    assert(ds.take(ds.len() as int) =~= ds);
    assert(none + scope_lines(ds) =~= scope_lines(ds));
    let top = DocumentModel { directives: ds, blocks: Seq::empty() };
    assert(with_scope(start, ds) == top);
    lemma_blocks_lines(scope_lines(ds), top, bs, bs.len() as int);
    assert(bs.take(bs.len() as int) =~= bs);
    assert(top.blocks + bs =~= bs);
    let all = document_lines(doc);
    assert(reads_to(all, doc));
    lemma_scope_one_line(ds);
    lemma_blocks_one_line(bs);
    assert forall|i: int| 0 <= i < all.len() implies one_line(#[trigger] all[i]) by {
        if i < scope_lines(ds).len() {
            assert(all[i] == scope_lines(ds)[i]);
        } else {
            assert(all[i] == blocks_lines(bs)[i - scope_lines(ds).len()]);
        }
    }
    lemma_lines_of_join(all);
}

} // verus!
