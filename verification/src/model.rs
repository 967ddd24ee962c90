//! The document model: directives, match blocks and documents, each with the
//! mathematical value that contracts speak of.

use vstd::prelude::*;
use crate::bytes::bytes_eq;

verus! {

/// The views of the items of a sequence, in order.
pub open spec fn views<T: View>(s: Seq<T>) -> Seq<T::V> {
    Seq::new(s.len(), |i: int| s[i]@)
}

/// The views of a sequence with one more item are the views with one more
/// view.
pub proof fn lemma_views_push<T: View>(s: Seq<T>, x: T)
    ensures
        views(s.push(x)) == views(s).push(x@),
{
    assert(views(s.push(x)) =~= views(s).push(x@));
}

/// A name / value pair as a mathematical value.
pub struct PairModel {
    pub name: Seq<u8>,
    pub value: Seq<u8>,
}

/// A directive's value as a mathematical value.
pub enum ValueModel {
    Scalar(Seq<u8>),
    List(Seq<Seq<u8>>),
    ObjectList(Seq<PairModel>),
}

/// A directive as a mathematical value.
pub struct DirectiveModel {
    pub keyword: Seq<u8>,
    pub value: ValueModel,
}

/// A match block as a mathematical value.
pub struct BlockModel {
    pub category: Seq<u8>,
    pub criteria: Seq<u8>,
    pub directives: Seq<DirectiveModel>,
    pub ensure: Option<Ensure>,
}

/// A document as a mathematical value.
pub struct DocumentModel {
    pub directives: Seq<DirectiveModel>,
    pub blocks: Seq<BlockModel>,
}

/// One entry of an object-list value, such as `Subsystem sftp /usr/lib/sftp`.
#[derive(Debug, Clone, PartialEq, Eq)]
pub struct NamedValue {
    pub name: Vec<u8>,
    pub value: Vec<u8>,
}

/// The value of a directive.
#[derive(Debug, Clone, PartialEq, Eq)]
pub enum Value {
    Scalar(Vec<u8>),
    List(Vec<Vec<u8>>),
    ObjectList(Vec<NamedValue>),
}

/// One keyword with its value.
#[derive(Debug, Clone, PartialEq, Eq)]
pub struct Directive {
    /// The keyword in canonical (lower-case) form.
    pub keyword: Vec<u8>,
    pub value: Value,
}

/// Whether a desired entry is to exist or to be gone.
#[derive(Debug, Clone, Copy, PartialEq, Eq, Structural)]
pub enum Ensure {
    Present,
    Absent,
}

/// A conditional scope: `Match <category> <criteria>` and the directives
/// that follow it.
#[derive(Debug, Clone, PartialEq, Eq)]
pub struct MatchBlock {
    /// The first word after `Match`, in lower case, such as `group`.
    pub category: Vec<u8>,
    /// What follows the category, such as `administrators`.
    pub criteria: Vec<u8>,
    pub directives: Vec<Directive>,
    /// Set only on an entry of a desired state.
    pub ensure: Option<Ensure>,
}

/// The top-level directives of a file, then its match blocks, in order.
#[derive(Debug, Clone, PartialEq, Eq)]
pub struct ConfigDocument {
    pub directives: Vec<Directive>,
    pub blocks: Vec<MatchBlock>,
}

impl View for NamedValue {
    type V = PairModel;

    open spec fn view(&self) -> PairModel {
        PairModel { name: self.name@, value: self.value@ }
    }
}

impl View for Value {
    type V = ValueModel;

    open spec fn view(&self) -> ValueModel {
        match self {
            Value::Scalar(s) => ValueModel::Scalar(s@),
            Value::List(items) => ValueModel::List(views(items@)),
            Value::ObjectList(pairs) => ValueModel::ObjectList(views(pairs@)),
        }
    }
}

impl View for Directive {
    type V = DirectiveModel;

    open spec fn view(&self) -> DirectiveModel {
        DirectiveModel { keyword: self.keyword@, value: self.value@ }
    }
}

impl View for MatchBlock {
    type V = BlockModel;

    open spec fn view(&self) -> BlockModel {
        BlockModel {
            category: self.category@,
            criteria: self.criteria@,
            directives: views(self.directives@),
            ensure: self.ensure,
        }
    }
}

impl View for ConfigDocument {
    type V = DocumentModel;

    open spec fn view(&self) -> DocumentModel {
        DocumentModel { directives: views(self.directives@), blocks: views(self.blocks@) }
    }
}

/// The index of the first directive of `ds` with keyword `kw`; the length
/// of `ds` where there is none.
pub open spec fn position(ds: Seq<DirectiveModel>, kw: Seq<u8>) -> int
    decreases ds.len(),
{
    if ds.len() == 0 {
        0
    } else {
        let p = position(ds.drop_last(), kw);
        if p < ds.len() - 1 {
            p
        } else if ds.last().keyword == kw {
            ds.len() - 1
        } else {
            ds.len() as int
        }
    }
}

/// The index of the first block of `bs` with this category and criteria;
/// the length of `bs` where there is none.
pub open spec fn block_position(bs: Seq<BlockModel>, category: Seq<u8>, criteria: Seq<u8>) -> int
    decreases bs.len(),
{
    if bs.len() == 0 {
        0
    } else {
        let p = block_position(bs.drop_last(), category, criteria);
        if p < bs.len() - 1 {
            p
        } else if bs.last().category == category && bs.last().criteria == criteria {
            bs.len() - 1
        } else {
            bs.len() as int
        }
    }
}

pub proof fn lemma_position(ds: Seq<DirectiveModel>, kw: Seq<u8>)
    ensures
        0 <= position(ds, kw) <= ds.len(),
        forall|j: int| 0 <= j < position(ds, kw) ==> (#[trigger] ds[j]).keyword != kw,
        position(ds, kw) < ds.len() ==> ds[position(ds, kw)].keyword == kw,
    decreases ds.len(),
{
    if ds.len() > 0 {
        let t = ds.drop_last();
        lemma_position(t, kw);
        assert forall|j: int| 0 <= j < position(ds, kw) implies (#[trigger] ds[j]).keyword
            != kw by {
            if j < t.len() {
                assert(ds[j] == t[j]);
            }
        }
        if position(t, kw) < t.len() {
            assert(ds[position(t, kw)] == t[position(t, kw)]);
        }
    }
}

pub proof fn lemma_position_is(ds: Seq<DirectiveModel>, kw: Seq<u8>, k: int)
    requires
        0 <= k <= ds.len(),
        forall|j: int| 0 <= j < k ==> (#[trigger] ds[j]).keyword != kw,
        k < ds.len() ==> ds[k].keyword == kw,
    ensures
        position(ds, kw) == k,
{
    lemma_position(ds, kw);
    let p = position(ds, kw);
    if p < k {
        assert(ds[p].keyword != kw);
    } else if k < p {
        assert(ds[k].keyword != kw);
    }
}

pub proof fn lemma_block_position(bs: Seq<BlockModel>, category: Seq<u8>, criteria: Seq<u8>)
    ensures
        0 <= block_position(bs, category, criteria) <= bs.len(),
        forall|j: int|
            0 <= j < block_position(bs, category, criteria) ==> !((#[trigger] bs[j]).category
                == category && bs[j].criteria == criteria),
        block_position(bs, category, criteria) < bs.len() ==> {
            &&& bs[block_position(bs, category, criteria)].category == category
            &&& bs[block_position(bs, category, criteria)].criteria == criteria
        },
    decreases bs.len(),
{
    if bs.len() > 0 {
        let t = bs.drop_last();
        lemma_block_position(t, category, criteria);
        let p = block_position(bs, category, criteria);
        assert forall|j: int| 0 <= j < p implies !((#[trigger] bs[j]).category == category
            && bs[j].criteria == criteria) by {
            if j < t.len() {
                assert(bs[j] == t[j]);
            }
        }
        let q = block_position(t, category, criteria);
        if q < t.len() {
            assert(bs[q] == t[q]);
        }
    }
}

pub proof fn lemma_block_position_is(
    bs: Seq<BlockModel>,
    category: Seq<u8>,
    criteria: Seq<u8>,
    k: int,
)
    requires
        0 <= k <= bs.len(),
        forall|j: int|
            0 <= j < k ==> !((#[trigger] bs[j]).category == category && bs[j].criteria
                == criteria),
        k < bs.len() ==> bs[k].category == category && bs[k].criteria == criteria,
    ensures
        block_position(bs, category, criteria) == k,
{
    lemma_block_position(bs, category, criteria);
    let p = block_position(bs, category, criteria);
    if p < k {
        assert(!(bs[p].category == category && bs[p].criteria == criteria));
    } else if k < p {
        assert(!(bs[k].category == category && bs[k].criteria == criteria));
    }
}

/// Finds the first directive with keyword `kw`.
pub fn find_directive(ds: &Vec<Directive>, kw: &[u8]) -> (r: usize)
    ensures
        r == position(views(ds@), kw@),
{
    let mut i: usize = 0;
    while i < ds.len()
        invariant
            0 <= i <= ds@.len(),
            forall|j: int| 0 <= j < i ==> (#[trigger] views(ds@)[j]).keyword != kw@,
        decreases ds@.len() - i,
    {
        if bytes_eq(ds[i].keyword.as_slice(), kw) {
            proof {
                lemma_position_is(views(ds@), kw@, i as int);
            }
            return i;
        }
        i += 1;
    }
    proof {
        lemma_position_is(views(ds@), kw@, i as int);
    }
    i
}

/// Finds the first block with this category and criteria.
pub fn find_block(bs: &Vec<MatchBlock>, category: &[u8], criteria: &[u8]) -> (r: usize)
    ensures
        r == block_position(views(bs@), category@, criteria@),
{
    let mut i: usize = 0;
    while i < bs.len()
        invariant
            0 <= i <= bs@.len(),
            forall|j: int|
                0 <= j < i ==> !((#[trigger] views(bs@)[j]).category == category@ && views(
                    bs@,
                )[j].criteria == criteria@),
        decreases bs@.len() - i,
    {
        if bytes_eq(bs[i].category.as_slice(), category) && bytes_eq(
            bs[i].criteria.as_slice(),
            criteria,
        ) {
            proof {
                lemma_block_position_is(views(bs@), category@, criteria@, i as int);
            }
            return i;
        }
        i += 1;
    }
    proof {
        lemma_block_position_is(views(bs@), category@, criteria@, i as int);
    }
    i
}

/// A copy of a byte string.
pub fn copy_bytes(s: &Vec<u8>) -> (r: Vec<u8>)
    ensures
        r@ == s@,
{
    let r = crate::bytes::copy_range(s.as_slice(), 0, s.len());
    assert(r@ =~= s@);
    r
}

impl NamedValue {
    /// A copy of this pair.
    pub fn duplicate(&self) -> (r: NamedValue)
        ensures
            r@ == self@,
    {
        NamedValue { name: copy_bytes(&self.name), value: copy_bytes(&self.value) }
    }
}

impl Value {
    /// A copy of this value.
    pub fn duplicate(&self) -> (r: Value)
        ensures
            r@ == self@,
    {
        match self {
            Value::Scalar(s) => Value::Scalar(copy_bytes(s)),
            Value::List(items) => {
                let mut out: Vec<Vec<u8>> = Vec::new();
                let mut i: usize = 0;
                while i < items.len()
                    invariant
                        0 <= i <= items@.len(),
                        views(out@) == views(items@).take(i as int),
                    decreases items@.len() - i,
                {
                    let item = copy_bytes(&items[i]);
                    proof {
                        lemma_views_push(out@, item);
                        assert(views(items@).take(i as int).push(item@) =~= views(items@).take(i + 1));
                    }
                    out.push(item);
                    i += 1;
                }
                assert(views(out@) =~= views(items@));
                Value::List(out)
            },
            Value::ObjectList(pairs) => {
                let mut out: Vec<NamedValue> = Vec::new();
                let mut i: usize = 0;
                while i < pairs.len()
                    invariant
                        0 <= i <= pairs@.len(),
                        views(out@) == views(pairs@).take(i as int),
                    decreases pairs@.len() - i,
                {
                    let item = pairs[i].duplicate();
                    proof {
                        lemma_views_push(out@, item);
                        assert(views(pairs@).take(i as int).push(item@) =~= views(pairs@).take(i + 1));
                    }
                    out.push(item);
                    i += 1;
                }
                assert(views(out@) =~= views(pairs@));
                Value::ObjectList(out)
            },
        }
    }

    /// Whether two values hold the same strings in the same order.
    pub fn same(&self, other: &Value) -> (r: bool)
        ensures
            r == (self@ == other@),
    {
        match self {
            Value::Scalar(a) => match other {
                Value::Scalar(b) => bytes_eq(a.as_slice(), b.as_slice()),
                _ => false,
            },
            Value::List(a) => match other {
                Value::List(b) => {
                    if a.len() != b.len() {
                        assert(views(a@).len() != views(b@).len());
                        return false;
                    }
                    let mut i: usize = 0;
                    while i < a.len()
                        invariant
                            0 <= i <= a@.len(),
                            a@.len() == b@.len(),
                            self@ == ValueModel::List(views(a@)),
                            other@ == ValueModel::List(views(b@)),
                            forall|j: int| 0 <= j < i ==> views(a@)[j] == views(b@)[j],
                        decreases a@.len() - i,
                    {
                        if !bytes_eq(a[i].as_slice(), b[i].as_slice()) {
                            assert(views(a@)[i as int] != views(b@)[i as int]);
                            return false;
                        }
                        i += 1;
                    }
                    assert(views(a@) =~= views(b@));
                    true
                },
                _ => false,
            },
            Value::ObjectList(a) => match other {
                Value::ObjectList(b) => {
                    if a.len() != b.len() {
                        assert(views(a@).len() != views(b@).len());
                        return false;
                    }
                    let mut i: usize = 0;
                    while i < a.len()
                        invariant
                            0 <= i <= a@.len(),
                            a@.len() == b@.len(),
                            self@ == ValueModel::ObjectList(views(a@)),
                            other@ == ValueModel::ObjectList(views(b@)),
                            forall|j: int| 0 <= j < i ==> views(a@)[j] == views(b@)[j],
                        decreases a@.len() - i,
                    {
                        if !bytes_eq(a[i].name.as_slice(), b[i].name.as_slice()) || !bytes_eq(
                            a[i].value.as_slice(),
                            b[i].value.as_slice(),
                        ) {
                            assert(views(a@)[i as int] != views(b@)[i as int]);
                            return false;
                        }
                        i += 1;
                    }
                    assert(views(a@) =~= views(b@));
                    true
                },
                _ => false,
            },
        }
    }
}

impl Directive {
    /// A copy of this directive.
    pub fn duplicate(&self) -> (r: Directive)
        ensures
            r@ == self@,
    {
        Directive { keyword: copy_bytes(&self.keyword), value: self.value.duplicate() }
    }
}

/// A copy of a list of directives.
pub fn copy_directives(ds: &Vec<Directive>) -> (r: Vec<Directive>)
    ensures
        views(r@) == views(ds@),
{
    let mut out: Vec<Directive> = Vec::new();
    let mut i: usize = 0;
    while i < ds.len()
        invariant
            0 <= i <= ds@.len(),
            views(out@) == views(ds@).take(i as int),
        decreases ds@.len() - i,
    {
        let item = ds[i].duplicate();
        proof {
            lemma_views_push(out@, item);
            assert(views(ds@).take(i as int).push(item@) =~= views(ds@).take(i + 1));
        }
        out.push(item);
        i += 1;
    }
    assert(views(out@) =~= views(ds@));
    out
}

impl MatchBlock {
    /// A copy of this block.
    pub fn duplicate(&self) -> (r: MatchBlock)
        ensures
            r@ == self@,
    {
        MatchBlock {
            category: copy_bytes(&self.category),
            criteria: copy_bytes(&self.criteria),
            directives: copy_directives(&self.directives),
            ensure: self.ensure,
        }
    }
}

impl ConfigDocument {
    /// The document without directives or blocks.
    pub fn new() -> (r: ConfigDocument)
        ensures
            r@ == (DocumentModel { directives: Seq::empty(), blocks: Seq::empty() }),
    {
        let r = ConfigDocument { directives: Vec::new(), blocks: Vec::new() };
        assert(r@.directives =~= Seq::<DirectiveModel>::empty());
        assert(r@.blocks =~= Seq::<BlockModel>::empty());
        r
    }

    /// A copy of this document.
    pub fn duplicate(&self) -> (r: ConfigDocument)
        ensures
            r@ == self@,
    {
        let mut blocks: Vec<MatchBlock> = Vec::new();
        let mut i: usize = 0;
        while i < self.blocks.len()
            invariant
                0 <= i <= self.blocks@.len(),
                views(blocks@) == views(self.blocks@).take(i as int),
            decreases self.blocks@.len() - i,
        {
            let item = self.blocks[i].duplicate();
            proof {
                lemma_views_push(blocks@, item);
                assert(views(self.blocks@).take(i as int).push(item@) =~= views(self.blocks@).take(i + 1));
            }
            blocks.push(item);
            i += 1;
        }
        assert(views(blocks@) =~= views(self.blocks@));
        ConfigDocument { directives: copy_directives(&self.directives), blocks }
    }
}

} // verus!
