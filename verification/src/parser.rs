//! The grammar parser: configuration text to a document.

use vstd::prelude::*;
use vstd::string::StringSliceAdditionalSpecFns;
use crate::bytes::{
    bytes_eq, lines, lower_seq, split_lines, split_word, to_lower, trim, trim_start, trimmed,
    word_len,
};
use crate::error::{ConfigError, ErrorModel, ParseReason};
use crate::model::{
    find_directive, lemma_views_push, position, views, BlockModel, ConfigDocument, Directive,
    DirectiveModel, DocumentModel, MatchBlock, NamedValue, PairModel, Value, ValueModel,
};
use crate::wellformed::{no_flags, well_formed};
use crate::wf_laws::law_parse_well_formed;
use crate::registry::{
    lookup_canonical, lookup_lower, validate, validation_failure, KeywordSpec, ValueKind,
};

verus! {

/// The byte that opens a comment line.
pub const HASH: u8 = 35;

/// The value that one line gives a keyword of this kind: for a name / value
/// keyword the first word is the name and what follows it the value.
pub open spec fn single_value(kind: ValueKind, rest: Seq<u8>) -> ValueModel {
    match kind {
        ValueKind::Scalar => ValueModel::Scalar(rest),
        ValueKind::List => ValueModel::List(seq![rest]),
        ValueKind::ObjectList => ValueModel::ObjectList(
            seq![
                PairModel {
                    name: rest.take(word_len(rest)),
                    value: trim_start(rest.skip(word_len(rest))),
                },
            ],
        ),
    }
}

/// The part of a line's remainder that the validator sees.
pub open spec fn payload(kind: ValueKind, rest: Seq<u8>) -> Seq<u8> {
    match kind {
        ValueKind::ObjectList => trim_start(rest.skip(word_len(rest))),
        _ => rest,
    }
}

/// A later occurrence of a keyword: lists grow, a scalar is overwritten.
pub open spec fn merge_value(old: ValueModel, new: ValueModel) -> ValueModel {
    match (old, new) {
        (ValueModel::List(a), ValueModel::List(b)) => ValueModel::List(a + b),
        (ValueModel::ObjectList(a), ValueModel::ObjectList(b)) => ValueModel::ObjectList(a + b),
        _ => new,
    }
}

/// A scope after a line `kw rest` of a registered keyword.
pub open spec fn scope_with_line(
    ds: Seq<DirectiveModel>,
    kw: Seq<u8>,
    spec: KeywordSpec,
    rest: Seq<u8>,
    number: int,
) -> Result<Seq<DirectiveModel>, ErrorModel> {
    let p = position(ds, kw);
    if rest.len() == 0 {
        Err(ErrorModel::Parse { line: number, reason: ParseReason::MissingValue })
    } else if payload(spec.kind, rest).len() == 0 {
        Err(ErrorModel::Parse { line: number, reason: ParseReason::MissingObjectValue })
    } else if validation_failure(spec.validator, payload(spec.kind, rest)) is Some {
        Err(
            ErrorModel::Validation {
                keyword: kw,
                reason: validation_failure(spec.validator, payload(spec.kind, rest)).unwrap(),
            },
        )
    } else if p >= ds.len() {
        Ok(ds.push(DirectiveModel { keyword: kw, value: single_value(spec.kind, rest) }))
    } else if !spec.repeatable {
        Err(ErrorModel::Parse { line: number, reason: ParseReason::DuplicateKeyword })
    } else {
        Ok(
            ds.update(
                p,
                DirectiveModel {
                    keyword: kw,
                    value: merge_value(ds[p].value, single_value(spec.kind, rest)),
                },
            ),
        )
    }
}

/// The block that a line `Match rest` opens.
pub open spec fn opened_block(rest: Seq<u8>) -> BlockModel {
    BlockModel {
        category: lower_seq(rest.take(word_len(rest))),
        criteria: trim_start(rest.skip(word_len(rest))),
        directives: Seq::empty(),
        ensure: None,
    }
}

/// A document after one more line, whose number is `number`.
///
/// Blank lines and lines that begin with `#` change nothing. `Match` opens a
/// block. Any other keyword must be in the registry and goes to the block
/// that was opened last, or to the top level while there is none.
pub open spec fn parse_line(doc: DocumentModel, line: Seq<u8>, number: int) -> Result<
    DocumentModel,
    ErrorModel,
> {
    let t = trim(line);
    let kw = lower_seq(t.take(word_len(t)));
    let rest = trim_start(t.skip(word_len(t)));
    if t.len() == 0 || t[0] == HASH {
        Ok(doc)
    } else if kw == "match".spec_bytes() {
        if rest.len() == 0 {
            Err(ErrorModel::Parse { line: number, reason: ParseReason::MissingValue })
        } else {
            Ok(DocumentModel { directives: doc.directives, blocks: doc.blocks.push(opened_block(rest)) })
        }
    } else {
        match lookup_canonical(kw) {
            None => Err(ErrorModel::UnknownKeyword { keyword: kw }),
            Some(spec) => if doc.blocks.len() == 0 {
                match scope_with_line(doc.directives, kw, spec, rest, number) {
                    Err(e) => Err(e),
                    Ok(ds) => Ok(DocumentModel { directives: ds, blocks: doc.blocks }),
                }
            } else {
                let last = doc.blocks.last();
                match scope_with_line(last.directives, kw, spec, rest, number) {
                    Err(e) => Err(e),
                    Ok(ds) => Ok(
                        DocumentModel {
                            directives: doc.directives,
                            blocks: doc.blocks.drop_last().push(
                                BlockModel {
                                    category: last.category,
                                    criteria: last.criteria,
                                    directives: ds,
                                    ensure: last.ensure,
                                },
                            ),
                        },
                    ),
                }
            },
        }
    }
}

/// The document after the first `n` of `ls`, or the first error met.
pub open spec fn parse_lines(ls: Seq<Seq<u8>>, n: int) -> Result<DocumentModel, ErrorModel>
    decreases n,
{
    if n <= 0 {
        Ok(DocumentModel { directives: Seq::empty(), blocks: Seq::empty() })
    } else {
        match parse_lines(ls, n - 1) {
            Err(e) => Err(e),
            Ok(doc) => parse_line(doc, ls[n - 1], n),
        }
    }
}

/// The document that a text denotes, or the first error in it.
pub open spec fn parse_text(text: Seq<u8>) -> Result<DocumentModel, ErrorModel> {
    parse_lines(lines(text), lines(text).len() as int)
}

/// The view of a parser's result.
pub open spec fn document_result(r: Result<ConfigDocument, ConfigError>) -> Result<
    DocumentModel,
    ErrorModel,
> {
    match r {
        Ok(d) => Ok(d@),
        Err(e) => Err(e@),
    }
}

/// The view of a scope's result.
pub open spec fn scope_result(r: Result<Vec<Directive>, ConfigError>) -> Result<
    Seq<DirectiveModel>,
    ErrorModel,
> {
    match r {
        Ok(ds) => Ok(views(ds@)),
        Err(e) => Err(e@),
    }
}

/// Joins the value of a later occurrence to an earlier one.
pub fn merge(old: Value, new: Value) -> (r: Value)
    ensures
        r@ == merge_value(old@, new@),
{
    match old {
        Value::List(mut a) => match new {
            Value::List(mut b) => {
                let ghost a0 = a@;
                let ghost b0 = b@;
                a.append(&mut b);
                assert(views(a0 + b0) =~= views(a0) + views(b0));
                Value::List(a)
            },
            other => other,
        },
        Value::ObjectList(mut a) => match new {
            Value::ObjectList(mut b) => {
                let ghost a0 = a@;
                let ghost b0 = b@;
                a.append(&mut b);
                assert(views(a0 + b0) =~= views(a0) + views(b0));
                Value::ObjectList(a)
            },
            other => other,
        },
        Value::Scalar(_) => new,
    }
}

/// Adds the line `kw rest` of a registered keyword to a scope.
pub fn add_to_scope(
    ds: Vec<Directive>,
    kw: Vec<u8>,
    spec: KeywordSpec,
    rest: Vec<u8>,
    number: usize,
) -> (r: Result<Vec<Directive>, ConfigError>)
    ensures
        scope_result(r) == scope_with_line(views(ds@), kw@, spec, rest@, number as int),
{
    let mut ds = ds;
    if rest.len() == 0 {
        return Err(ConfigError::Parse { line: number, reason: ParseReason::MissingValue });
    }
    let value: Value;
    match spec.kind {
        ValueKind::Scalar => {
            if let Some(reason) = validate(spec.validator, rest.as_slice()) {
                return Err(ConfigError::Validation { keyword: kw, reason });
            }
            value = Value::Scalar(rest);
        },
        ValueKind::List => {
            if let Some(reason) = validate(spec.validator, rest.as_slice()) {
                return Err(ConfigError::Validation { keyword: kw, reason });
            }
            let mut items: Vec<Vec<u8>> = Vec::new();
            proof {
                lemma_views_push(items@, rest);
                assert(views(items@).push(rest@) =~= seq![rest@]);
            }
            items.push(rest);
            value = Value::List(items);
        },
        ValueKind::ObjectList => {
            let (name, v) = split_word(rest.as_slice());
            if v.len() == 0 {
                return Err(
                    ConfigError::Parse { line: number, reason: ParseReason::MissingObjectValue },
                );
            }
            if let Some(reason) = validate(spec.validator, v.as_slice()) {
                return Err(ConfigError::Validation { keyword: kw, reason });
            }
            let pair = NamedValue { name, value: v };
            let mut pairs: Vec<NamedValue> = Vec::new();
            proof {
                lemma_views_push(pairs@, pair);
                assert(views(pairs@).push(pair@) =~= seq![pair@]);
            }
            pairs.push(pair);
            value = Value::ObjectList(pairs);
        },
    }
    assert(value@ == single_value(spec.kind, rest@));
    let p = find_directive(&ds, kw.as_slice());
    if p >= ds.len() {
        let d = Directive { keyword: kw, value };
        proof {
            lemma_views_push(ds@, d);
        }
        ds.push(d);
        Ok(ds)
    } else if !spec.repeatable {
        Err(ConfigError::Parse { line: number, reason: ParseReason::DuplicateKeyword })
    } else {
        let ghost before = ds@;
        let old = ds.remove(p);
        let d = Directive { keyword: kw, value: merge(old.value, value) };
        ds.insert(p, d);
        assert(views(ds@) =~= views(before).update(p as int, d@));
        Ok(ds)
    }
}

/// Reads one line into a document.
pub fn read_line(doc: ConfigDocument, line: &[u8], number: usize) -> (r: Result<
    ConfigDocument,
    ConfigError,
>)
    ensures
        document_result(r) == parse_line(doc@, line@, number as int),
{
    let mut doc = doc;
    let t = trimmed(line);
    if t.len() == 0 || t[0] == HASH {
        return Ok(doc);
    }
    let (word, rest) = split_word(t.as_slice());
    let kw = to_lower(word.as_slice());
    if bytes_eq(kw.as_slice(), "match".as_bytes()) {
        if rest.len() == 0 {
            return Err(ConfigError::Parse { line: number, reason: ParseReason::MissingValue });
        }
        let (first, criteria) = split_word(rest.as_slice());
        let block = MatchBlock {
            category: to_lower(first.as_slice()),
            criteria,
            directives: Vec::new(),
            ensure: None,
        };
        proof {
            assert(block@.directives =~= Seq::<DirectiveModel>::empty());
            lemma_views_push(doc.blocks@, block);
        }
        doc.blocks.push(block);
        return Ok(doc);
    }
    let spec = match lookup_lower(kw.as_slice()) {
        None => {
            return Err(ConfigError::UnknownKeyword { keyword: kw });
        },
        Some(spec) => spec,
    };
    if doc.blocks.len() == 0 {
        let ConfigDocument { directives, blocks } = doc;
        match add_to_scope(directives, kw, spec, rest, number) {
            Err(e) => Err(e),
            Ok(ds) => Ok(ConfigDocument { directives: ds, blocks }),
        }
    } else {
        let ConfigDocument { directives, blocks } = doc;
        let mut blocks = blocks;
        let ghost before = blocks@;
        let last = blocks.pop().unwrap();
        let MatchBlock { category, criteria, directives: scope, ensure } = last;
        match add_to_scope(scope, kw, spec, rest, number) {
            Err(e) => Err(e),
            Ok(ds) => {
                let block = MatchBlock { category, criteria, directives: ds, ensure };
                proof {
                    lemma_views_push(blocks@, block);
                    assert(views(blocks@) =~= views(before).drop_last());
                }
                blocks.push(block);
                Ok(ConfigDocument { directives, blocks })
            },
        }
    }
}

/// The number of the first of the first `n` lines that is refused, counted
/// from one; `None` where all of them are accepted.
pub open spec fn refused_line(ls: Seq<Seq<u8>>, n: int) -> Option<int>
    decreases n,
{
    if n <= 0 {
        None
    } else {
        match refused_line(ls, n - 1) {
            Some(k) => Some(k),
            None => if parse_lines(ls, n) is Err {
                Some(n)
            } else {
                None
            },
        }
    }
}

/// Parses configuration text and, where a line is refused, says which.
///
/// The result is the document that the lines of `text` build up one after
/// the other, or the error of the first line that is refused together with
/// the number of that line, counted from one. The number is given with
/// every kind of error.
pub fn parse_located(text: &[u8]) -> (r: Result<ConfigDocument, (usize, ConfigError)>)
    ensures
        match r {
            Ok(doc) => {
                &&& parse_text(text@) == Ok::<DocumentModel, ErrorModel>(doc@)
                &&& refused_line(lines(text@), lines(text@).len() as int) is None
                &&& well_formed(doc@)
                &&& no_flags(doc@.blocks)
            },
            Err(e) => {
                &&& parse_text(text@) == Err::<DocumentModel, ErrorModel>(e.1@)
                &&& refused_line(lines(text@), lines(text@).len() as int) == Some(e.0 as int)
            },
        },
{
    proof {
        if parse_text(text@) is Ok {
            law_parse_well_formed(text@);
        }
    }
    let ls = split_lines(text);
    let mut doc = ConfigDocument::new();
    let mut i: usize = 0;
    while i < ls.len()
        invariant
            0 <= i <= ls@.len(),
            ls@.len() == lines(text@).len(),
            forall|k: int| 0 <= k < ls@.len() ==> (#[trigger] ls@[k])@ == lines(text@)[k],
            parse_lines(lines(text@), i as int) == Ok::<DocumentModel, ErrorModel>(doc@),
            refused_line(lines(text@), i as int) is None,
        decreases ls@.len() - i,
    {
        match read_line(doc, ls[i].as_slice(), i + 1) {
            Err(e) => {
                proof {
                    lemma_error_stays(lines(text@), i + 1, lines(text@).len() as int);
                    lemma_refused_stays(lines(text@), i + 1, lines(text@).len() as int);
                }
                return Err((i + 1, e));
            },
            Ok(next) => {
                doc = next;
            },
        }
        i += 1;
    }
    Ok(doc)
}

/// Parses configuration text.
///
/// The result is the document that the lines of `text` build up one after
/// the other, or the error of the first line that is refused.
pub fn parse(text: &[u8]) -> (r: Result<ConfigDocument, ConfigError>)
    ensures
        document_result(r) == parse_text(text@),
        match r {
            Ok(doc) => well_formed(doc@) && no_flags(doc@.blocks),
            Err(_) => true,
        },
{
    match parse_located(text) {
        Ok(doc) => Ok(doc),
        Err(refused) => Err(refused.1),
    }
}

/// Once a line is refused, it stays the first that is.
pub proof fn lemma_refused_stays(ls: Seq<Seq<u8>>, m: int, n: int)
    requires
        m <= n,
        refused_line(ls, m) is Some,
    ensures
        refused_line(ls, n) == refused_line(ls, m),
    decreases n - m,
{
    if m < n {
        lemma_refused_stays(ls, m, n - 1);
    }
}

/// Once a line is refused, the lines after it change nothing.
pub proof fn lemma_error_stays(ls: Seq<Seq<u8>>, m: int, n: int)
    requires
        m <= n,
        parse_lines(ls, m) is Err,
    ensures
        parse_lines(ls, n) == parse_lines(ls, m),
    decreases n - m,
{
    if m < n {
        lemma_error_stays(ls, m, n - 1);
    }
}

} // verus!
