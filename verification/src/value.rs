use vstd::prelude::*;

verus! {

/// The abstract shape of a stored value: an integer, a truth value, a piece
/// of text, an ordered sequence, or a record of named fields.  Contracts all
/// over the library speak of values in this form.
#[verifier::ext_equal]
pub enum Val {
    Int(int),
    Flag(bool),
    Text(Seq<char>),
    Items(Seq<Val>),
    Fields(Seq<(Seq<char>, Val)>),
}

impl Val {
    /// A value is representable when every integer in it fits a machine
    /// integer, so that decoding can hand it back.
    pub open spec fn wf(self) -> bool
        decreases self,
    {
        match self {
            Val::Int(i) => i64::MIN <= i <= i64::MAX,
            Val::Flag(_) => true,
            Val::Text(_) => true,
            Val::Items(vs) => forall|i: int| #![trigger vs[i]] 0 <= i < vs.len() ==> vs[i].wf(),
            Val::Fields(fs) => forall|i: int| #![trigger fs[i]] 0 <= i < fs.len() ==> fs[i].1.wf(),
        }
    }
}

/// A structured value as callers build it: scalars, text, ordered
/// sequences, and records of named fields, nested arbitrarily.
#[derive(Debug, PartialEq, Eq)]
pub enum Value {
    Int(i64),
    Flag(bool),
    Text(String),
    Items(Vec<Value>),
    Fields(Vec<(String, Value)>),
}

/// The abstract form of a sequence of values.
pub open spec fn view_items(vs: Seq<Value>) -> Seq<Val>
    decreases vs,
{
    if vs.len() == 0 {
        Seq::empty()
    } else {
        seq![vs.first()@] + view_items(vs.drop_first())
    }
}

/// The abstract form of a sequence of named fields.
pub open spec fn view_fields(fs: Seq<(String, Value)>) -> Seq<(Seq<char>, Val)>
    decreases fs,
{
    if fs.len() == 0 {
        Seq::empty()
    } else {
        seq![(fs.first().0@, fs.first().1@)] + view_fields(fs.drop_first())
    }
}

impl View for Value {
    type V = Val;

    open spec fn view(&self) -> Val
        decreases self,
    {
        match self {
            Value::Int(i) => Val::Int(*i as int),
            Value::Flag(b) => Val::Flag(*b),
            Value::Text(s) => Val::Text(s@),
            Value::Items(vs) => Val::Items(view_items(vs@)),
            Value::Fields(fs) => Val::Fields(view_fields(fs@)),
        }
    }
}

/// `view_items` maps the sequence element by element.
pub proof fn lemma_view_items_index(vs: Seq<Value>)
    ensures
        view_items(vs).len() == vs.len(),
        forall|i: int| 0 <= i < vs.len() ==> view_items(vs)[i] == #[trigger] vs[i]@,
    decreases vs,
{
    if vs.len() > 0 {
        lemma_view_items_index(vs.drop_first());
        assert(view_items(vs) == seq![vs.first()@] + view_items(vs.drop_first()));
        assert forall|i: int| 0 <= i < vs.len() implies view_items(vs)[i] == #[trigger] vs[i]@ by {
            if i > 0 {
                assert(view_items(vs)[i] == view_items(vs.drop_first())[i - 1]);
                assert(vs.drop_first()[i - 1] == vs[i]);
            }
        }
    }
}

/// `view_fields` maps the sequence element by element.
pub proof fn lemma_view_fields_index(fs: Seq<(String, Value)>)
    ensures
        view_fields(fs).len() == fs.len(),
        forall|i: int| 0 <= i < fs.len() ==> view_fields(fs)[i] == (#[trigger] fs[i].0@, fs[i].1@),
    decreases fs,
{
    if fs.len() > 0 {
        lemma_view_fields_index(fs.drop_first());
        assert(view_fields(fs) == seq![(fs.first().0@, fs.first().1@)] + view_fields(
            fs.drop_first(),
        ));
        assert forall|i: int| 0 <= i < fs.len() implies view_fields(fs)[i] == (
            #[trigger] fs[i].0@,
            fs[i].1@,
        ) by {
            if i > 0 {
                assert(view_fields(fs)[i] == view_fields(fs.drop_first())[i - 1]);
                assert(fs.drop_first()[i - 1] == fs[i]);
            }
        }
    }
}

/// The view of every buildable value is representable.
pub proof fn lemma_value_view_wf(v: &Value)
    ensures
        v@.wf(),
    decreases v,
{
    match v {
        Value::Int(_) => {}
        Value::Flag(_) => {}
        Value::Text(_) => {}
        Value::Items(vs) => {
            lemma_view_items_index(vs@);
            assert forall|i: int| 0 <= i < view_items(vs@).len() implies (#[trigger] view_items(
                vs@,
            )[i]).wf() by {
                lemma_value_view_wf(&vs[i]);
            }
        }
        Value::Fields(fs) => {
            lemma_view_fields_index(fs@);
            assert forall|i: int| 0 <= i < view_fields(fs@).len() implies (#[trigger] view_fields(
                fs@,
            )[i]).1.wf() by {
                assert(view_fields(fs@)[i] == (fs@[i].0@, fs@[i].1@));
                lemma_value_view_wf(&fs[i].1);
            }
        }
    }
}

} // verus!
