//! The writer: a document to configuration text.
//!
//! A document is written one value per line: the keyword in the registry's
//! spelling, one blank, the value. Comments, blank lines and the spacing of
//! the text that a document was read from are not kept.

use vstd::prelude::*;
use vstd::string::StringSliceAdditionalSpecFns;
use crate::bytes::NEWLINE;
use crate::model::{
    lemma_views_push, views, BlockModel, ConfigDocument, Directive, DirectiveModel, DocumentModel,
    MatchBlock, PairModel, Value, ValueModel,
};
use crate::registry::{display_name, display_of};

verus! {

/// The blank between the words of a written line.
pub const SPACE: u8 = 32;

/// The line that gives keyword `kw` the value `rest`.
pub open spec fn directive_line(kw: Seq<u8>, rest: Seq<u8>) -> Seq<u8> {
    display_of(kw) + seq![SPACE] + rest
}

/// A name / value pair as it stands behind its keyword.
pub open spec fn pair_text(p: PairModel) -> Seq<u8> {
    p.name + seq![SPACE] + p.value
}

/// The lines of one directive: one for a scalar, one for each item of a
/// list.
pub open spec fn value_lines(kw: Seq<u8>, value: ValueModel) -> Seq<Seq<u8>> {
    match value {
        ValueModel::Scalar(s) => seq![directive_line(kw, s)],
        ValueModel::List(items) => Seq::new(items.len(), |i: int| directive_line(kw, items[i])),
        ValueModel::ObjectList(pairs) => Seq::new(
            pairs.len(),
            |i: int| directive_line(kw, pair_text(pairs[i])),
        ),
    }
}

/// The lines of a scope: those of its directives, in order.
pub open spec fn scope_lines(ds: Seq<DirectiveModel>) -> Seq<Seq<u8>>
    decreases ds.len(),
{
    if ds.len() == 0 {
        Seq::empty()
    } else {
        scope_lines(ds.drop_last()) + value_lines(ds.last().keyword, ds.last().value)
    }
}

/// The line that opens a block.
pub open spec fn header_line(b: BlockModel) -> Seq<u8> {
    if b.criteria.len() == 0 {
        "Match".spec_bytes() + seq![SPACE] + b.category
    } else {
        "Match".spec_bytes() + seq![SPACE] + b.category + seq![SPACE] + b.criteria
    }
}

/// The lines of a block: its header, then its directives.
pub open spec fn block_lines(b: BlockModel) -> Seq<Seq<u8>> {
    seq![header_line(b)] + scope_lines(b.directives)
}

/// The lines of a list of blocks, in order.
pub open spec fn blocks_lines(bs: Seq<BlockModel>) -> Seq<Seq<u8>>
    decreases bs.len(),
{
    if bs.len() == 0 {
        Seq::empty()
    } else {
        blocks_lines(bs.drop_last()) + block_lines(bs.last())
    }
}

/// The lines of a document: the top-level directives, then the blocks.
pub open spec fn document_lines(doc: DocumentModel) -> Seq<Seq<u8>> {
    scope_lines(doc.directives) + blocks_lines(doc.blocks)
}

/// Lines joined into a text, each ended by a newline.
pub open spec fn join_lines(ls: Seq<Seq<u8>>) -> Seq<u8>
    decreases ls.len(),
{
    if ls.len() == 0 {
        Seq::empty()
    } else {
        join_lines(ls.drop_last()) + ls.last() + seq![NEWLINE]
    }
}

/// The text of a document.
pub open spec fn document_text(doc: DocumentModel) -> Seq<u8> {
    join_lines(document_lines(doc))
}

/// Appends the bytes of `s` to `out`.
pub fn push_bytes(out: &mut Vec<u8>, s: &[u8])
    ensures
        final(out)@ == old(out)@ + s@,
{
    let ghost before = out@;
    let mut i: usize = 0;
    while i < s.len()
        invariant
            0 <= i <= s@.len(),
            out@ == before + s@.take(i as int),
        decreases s@.len() - i,
    {
        out.push(s[i]);
        assert(out@ =~= before + s@.take(i + 1));
        i += 1;
    }
    assert(s@.take(i as int) =~= s@);
}

fn make_line(shown: &Vec<u8>, rest: &[u8]) -> (r: Vec<u8>)
    ensures
        r@ == shown@ + seq![SPACE] + rest@,
{
    let mut line: Vec<u8> = Vec::new();
    push_bytes(&mut line, shown.as_slice());
    line.push(SPACE);
    push_bytes(&mut line, rest);
    assert(line@ =~= shown@ + seq![SPACE] + rest@);
    line
}

/// Appends the lines of one directive to `out`.
pub fn push_value_lines(out: &mut Vec<Vec<u8>>, d: &Directive)
    ensures
        views(final(out)@) == views(old(out)@) + value_lines(d@.keyword, d@.value),
{
    let ghost before = views(out@);
    let ghost kw = d@.keyword;
    let shown = display_name(d.keyword.as_slice());
    match &d.value {
        Value::Scalar(s) => {
            let line = make_line(&shown, s.as_slice());
            proof {
                lemma_views_push(out@, line);
                assert(before.push(line@) =~= before + value_lines(kw, d@.value));
            }
            out.push(line);
        },
        Value::List(items) => {
            let mut i: usize = 0;
            assert(views(out@) =~= before + value_lines(kw, d@.value).take(0));
            while i < items.len()
                invariant
                    0 <= i <= items@.len(),
                    shown@ == display_of(kw),
                    d@.value == ValueModel::List(views(items@)),
                    views(out@) == before + value_lines(kw, d@.value).take(i as int),
                decreases items@.len() - i,
            {
                let line = make_line(&shown, items[i].as_slice());
                proof {
                    lemma_views_push(out@, line);
                    assert(views(items@)[i as int] == items@[i as int]@);
                    assert((before + value_lines(kw, d@.value).take(i as int)).push(line@)
                        =~= before + value_lines(kw, d@.value).take(i + 1));
                }
                out.push(line);
                i += 1;
            }
            assert(value_lines(kw, d@.value).take(i as int) =~= value_lines(kw, d@.value));
        },
        Value::ObjectList(pairs) => {
            let mut i: usize = 0;
            assert(views(out@) =~= before + value_lines(kw, d@.value).take(0));
            while i < pairs.len()
                invariant
                    0 <= i <= pairs@.len(),
                    shown@ == display_of(kw),
                    d@.value == ValueModel::ObjectList(views(pairs@)),
                    views(out@) == before + value_lines(kw, d@.value).take(i as int),
                decreases pairs@.len() - i,
            {
                let mut rest: Vec<u8> = Vec::new();
                push_bytes(&mut rest, pairs[i].name.as_slice());
                rest.push(SPACE);
                push_bytes(&mut rest, pairs[i].value.as_slice());
                let line = make_line(&shown, rest.as_slice());
                proof {
                    lemma_views_push(out@, line);
                    assert(views(pairs@)[i as int] == pairs@[i as int]@);
                    assert(rest@ =~= pair_text(pairs@[i as int]@));
                    assert((before + value_lines(kw, d@.value).take(i as int)).push(line@)
                        =~= before + value_lines(kw, d@.value).take(i + 1));
                }
                out.push(line);
                i += 1;
            }
            assert(value_lines(kw, d@.value).take(i as int) =~= value_lines(kw, d@.value));
        },
    }
}

/// Appends the lines of a scope to `out`.
pub fn push_scope_lines(out: &mut Vec<Vec<u8>>, ds: &Vec<Directive>)
    ensures
        views(final(out)@) == views(old(out)@) + scope_lines(views(ds@)),
{
    let ghost before = views(out@);
    let mut i: usize = 0;
    assert(views(out@) =~= before + scope_lines(views(ds@).take(0)));
    while i < ds.len()
        invariant
            0 <= i <= ds@.len(),
            views(out@) == before + scope_lines(views(ds@).take(i as int)),
        decreases ds@.len() - i,
    {
        push_value_lines(out, &ds[i]);
        proof {
            let next = views(ds@).take(i + 1);
            assert(next.drop_last() =~= views(ds@).take(i as int));
            assert(next.last() == ds@[i as int]@);
            assert(views(out@) =~= before + scope_lines(next));
        }
        i += 1;
    }
    assert(views(ds@).take(i as int) =~= views(ds@));
}

/// Appends the lines of a block to `out`.
pub fn push_block_lines(out: &mut Vec<Vec<u8>>, b: &MatchBlock)
    ensures
        views(final(out)@) == views(old(out)@) + block_lines(b@),
{
    let ghost before = views(out@);
    let mut header: Vec<u8> = Vec::new();
    push_bytes(&mut header, "Match".as_bytes());
    header.push(SPACE);
    push_bytes(&mut header, b.category.as_slice());
    if b.criteria.len() != 0 {
        header.push(SPACE);
        push_bytes(&mut header, b.criteria.as_slice());
    }
    proof {
        assert(header@ =~= header_line(b@));
        lemma_views_push(out@, header);
    }
    out.push(header);
    push_scope_lines(out, &b.directives);
    assert(views(out@) =~= before + block_lines(b@));
}

/// The lines of a document.
pub fn to_lines(doc: &ConfigDocument) -> (r: Vec<Vec<u8>>)
    ensures
        views(r@) == document_lines(doc@),
{
    let mut out: Vec<Vec<u8>> = Vec::new();
    push_scope_lines(&mut out, &doc.directives);
    let ghost top = views(out@);
    assert(top =~= scope_lines(doc@.directives));
    let mut i: usize = 0;
    assert(views(out@) =~= top + blocks_lines(views(doc.blocks@).take(0)));
    while i < doc.blocks.len()
        invariant
            0 <= i <= doc.blocks@.len(),
            views(out@) == top + blocks_lines(views(doc.blocks@).take(i as int)),
        decreases doc.blocks@.len() - i,
    {
        push_block_lines(&mut out, &doc.blocks[i]);
        proof {
            let next = views(doc.blocks@).take(i + 1);
            assert(next.drop_last() =~= views(doc.blocks@).take(i as int));
            assert(next.last() == doc.blocks@[i as int]@);
            assert(views(out@) =~= top + blocks_lines(next));
        }
        i += 1;
    }
    assert(views(doc.blocks@).take(i as int) =~= views(doc.blocks@));
    out
}

/// Joins lines into a text, each ended by a newline.
pub fn join(ls: &Vec<Vec<u8>>) -> (r: Vec<u8>)
    ensures
        r@ == join_lines(views(ls@)),
{
    let mut out: Vec<u8> = Vec::new();
    let mut i: usize = 0;
    assert(out@ =~= join_lines(views(ls@).take(0)));
    while i < ls.len()
        invariant
            0 <= i <= ls@.len(),
            out@ == join_lines(views(ls@).take(i as int)),
        decreases ls@.len() - i,
    {
        push_bytes(&mut out, ls[i].as_slice());
        out.push(NEWLINE);
        proof {
            let next = views(ls@).take(i + 1);
            assert(next.drop_last() =~= views(ls@).take(i as int));
            assert(next.last() == ls@[i as int]@);
            assert(out@ =~= join_lines(next));
        }
        i += 1;
    }
    assert(views(ls@).take(i as int) =~= views(ls@));
    out
}

/// Writes a document as configuration text.
pub fn serialize(doc: &ConfigDocument) -> (r: Vec<u8>)
    ensures
        r@ == document_text(doc@),
{
    let ls = to_lines(doc);
    join(&ls)
}

} // verus!
