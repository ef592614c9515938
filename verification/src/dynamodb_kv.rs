use vstd::prelude::*;

use crate::codec::{decode, encode, encoding};
use crate::errors::KVError;
use crate::value::{Val, Value};
use crate::KeyString;

verus! {

/// One attribute of a remote table item, as this layer reads it: the
/// backend stores every payload as text, so any other shape of attribute
/// only matters as "not text".
#[derive(Debug, PartialEq, Eq)]
pub enum Attr {
    Text(String),
    Other,
}

/// The first attribute named `name` among `fields`, if any.
pub open spec fn lookup(fields: Seq<(String, Attr)>, name: Seq<char>) -> Option<Attr>
    decreases fields.len(),
{
    if fields.len() == 0 {
        None
    } else if fields.first().0@ == name {
        Some(fields.first().1)
    } else {
        lookup(fields.drop_first(), name)
    }
}

/// A lookup that matches nothing in the first `i` fields starts at `i`.
proof fn lemma_lookup_skip(fields: Seq<(String, Attr)>, name: Seq<char>, i: int)
    requires
        0 <= i <= fields.len(),
        forall|j: int| 0 <= j < i ==> (#[trigger] fields[j]).0@ != name,
    ensures
        lookup(fields, name) == lookup(fields.skip(i), name),
    decreases i,
{
    if i == 0 {
        assert(fields.skip(0) =~= fields);
    }
    if i > 0 {
        assert(fields.first().0@ != name);
        assert(fields.drop_first() =~= fields.skip(1));
        lemma_lookup_skip(fields.skip(1), name, i - 1);
        assert(fields.skip(1).skip(i - 1) =~= fields.skip(i));
        assert forall|j: int| 0 <= j < i - 1 implies (#[trigger] fields.skip(1)[j]).0@ != name by {
            assert(fields.skip(1)[j] == fields[j + 1]);
        }
    }
}

/// The managed table backend's fixed shape: which table it writes, and the
/// names of the two attributes every record is stored under.  The names are
/// chosen at construction, not hard-coded, so one backend implementation
/// can target tables that name their columns differently.
pub struct TableBinding {
    pub table_name: String,
    pub partition_key: String,
    pub value_key: String,
}

impl TableBinding {
    /// Bind a table and its two attribute names.
    pub fn new(table_name: String, partition_key: String, value_key: String) -> (t: Self)
        ensures
            t.table_name == table_name,
            t.partition_key == partition_key,
            t.value_key == value_key,
    {
        TableBinding { table_name, partition_key, value_key }
    }

    /// The two attributes a `put` writes: the canonical key under the
    /// partition-key attribute, and the payload of `value` under the value
    /// attribute.
    pub fn write_item<K: KeyString>(&self, key: &K, value: &Value) -> (item: Vec<(String, Attr)>)
        ensures
            item@.len() == 2,
            item@[0].0@ == self.partition_key@,
            item@[0].1 matches Attr::Text(k) && k@ == key.key_view(),
            item@[1].0@ == self.value_key@,
            item@[1].1 matches Attr::Text(p) && p@ == encoding(value@),
    {
        let mut item: Vec<(String, Attr)> = Vec::new();
        item.push((self.partition_key.as_str().to_owned(), Attr::Text(key.as_str())));
        item.push((self.value_key.as_str().to_owned(), Attr::Text(encode(value))));
        item
    }

    /// What `get` makes of a point lookup's outcome.  No item at all is
    /// absence, `Ok(None)`.  An item without the value attribute, or with
    /// one that is not text, is a schema error naming the attribute: the
    /// record exists but is structurally unusable, which must never be
    /// conflated with absence.  A text payload is decoded in full.
    #[verifier::loop_isolation(false)]
    pub fn read_item(&self, outcome: Option<Vec<(String, Attr)>>) -> (r: Result<
        Option<Value>,
        KVError,
    >)
        ensures
            match outcome {
                None => r == Ok::<Option<Value>, KVError>(None),
                Some(item) => match lookup(item@, self.value_key@) {
                    None => r matches Err(e) && e matches KVError::Schema(a) && a@
                        == self.value_key@,
                    Some(at) => match at {
                        Attr::Other => r matches Err(e) && e matches KVError::Schema(a) && a@
                            == self.value_key@,
                        Attr::Text(p) => {
                            &&& (forall|m: Val|
                                m.wf() && p@ == encoding(m) ==> (r matches Ok(Some(w)) && w@ == m))
                            &&& (r matches Ok(Some(w)) ==> p@ == encoding(w@) && w@.wf())
                            &&& (r matches Err(e) ==> e is Decode)
                        },
                    },
                },
            },
    {
        let item = match outcome {
            None => {
                return Ok(None);
            },
            Some(item) => item,
        };
        let mut i: usize = 0;
        while i < item.len()
            invariant
                0 <= i <= item@.len(),
                forall|j: int| 0 <= j < i ==> (#[trigger] item@[j]).0@ != self.value_key@,
            decreases item@.len() - i,
        {
            if item[i].0 == self.value_key {
                proof {
                    lemma_lookup_skip(item@, self.value_key@, i as int);
                    assert(item@.skip(i as int).first() == item@[i as int]);
                    assert(item@.skip(i as int).len() > 0);
                }
                match &item[i].1 {
                    Attr::Other => {
                        return Err(
                            KVError::Schema(self.value_key.as_str().to_owned()),
                        );
                    },
                    Attr::Text(p) => {
                        match decode(p.as_str()) {
                            Ok(w) => {
                                return Ok(Some(w));
                            },
                            Err(e) => {
                                return Err(KVError::Decode(e));
                            },
                        }
                    },
                }
            }
            i = i + 1;
        }
        proof {
            lemma_lookup_skip(item@, self.value_key@, item@.len() as int);
            assert(item@.skip(item@.len() as int).len() == 0);
        }
        Err(KVError::Schema(self.value_key.as_str().to_owned()))
    }
}

/// What `contains_key` makes of the same point lookup: the item's presence
/// alone, its content ignored.
pub fn item_present(outcome: &Option<Vec<(String, Attr)>>) -> (r: bool)
    ensures
        r == (outcome is Some),
{
    outcome.is_some()
}

} // verus!
