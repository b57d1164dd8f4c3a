use vstd::prelude::*;
use crate::naming::{pow10, lemma_decimal_len_bound, push_zero_padded, zero_padded, lemma_zero_padded_injective, lemma_zero_padded_value};

verus! {

/// Kind of space object: a functional satellite or a piece of debris.
#[derive(Debug, Clone, Copy, PartialEq, Eq, Structural)]
pub enum ObjectType {
    Satellite,
    Debris,
}

/// Catalog name of the object with identifier `id`: objects are numbered
/// from one in their names, so the name is `OBJ_` followed by `id + 1` in
/// decimal, zero-padded to six digits (the object with identifier 0 is
/// `OBJ_000001`).
pub open spec fn object_name(id: nat) -> Seq<char> {
    "OBJ_"@ + zero_padded(id + 1, 6)
}

/// Identity of the simulated objects: for each object index, its
/// sequential identifier and its kind.
pub struct ObjectPool {
    pub id: Vec<usize>,
    pub object_type: Vec<ObjectType>,
}

impl ObjectPool {
    /// Identifier of the object at index `idx`.
    pub fn get_id(&self, idx: usize) -> (id: usize)
        requires
            idx < self.id@.len(),
        ensures
            id == self.id@[idx as int],
    {
        self.id[idx]
    }

    /// Catalog name of the object at index `idx`.
    pub fn get_name(&self, idx: usize) -> (name: String)
        requires
            idx < self.id@.len(),
            self.id@[idx as int] < u64::MAX,
        ensures
            name@ == object_name(self.id@[idx as int] as nat),
    {
        let mut name = String::from_str("OBJ_");
        push_zero_padded(&mut name, self.id[idx] as u64 + 1, 6);
        name
    }

    /// Number of objects.
    pub fn len(&self) -> (n: usize)
        ensures
            n == self.id@.len(),
    {
        self.id.len()
    }

    /// Whether there are no objects.
    pub fn is_empty(&self) -> (b: bool)
        ensures
            b == (self.id@.len() == 0),
    {
        self.id.len() == 0
    }

    /// Kind of the object at index `idx`.
    pub fn get_object_type(&self, idx: usize) -> (t: ObjectType)
        requires
            idx < self.object_type@.len(),
        ensures
            t == self.object_type@[idx as int],
    {
        self.object_type[idx]
    }
}

/// Objects with different identifiers have different catalog names, so a
/// catalog keyed by name holds one entry per object.
pub proof fn lemma_object_name_injective(a: nat, b: nat)
    requires
        object_name(a) == object_name(b),
    ensures
        a == b,
{
    reveal_strlit("OBJ_");
    let pa = zero_padded(a + 1, 6);
    let pb = zero_padded(b + 1, 6);
    assert(object_name(a).subrange(4, object_name(a).len() as int) =~= pa);
    assert(object_name(b).subrange(4, object_name(b).len() as int) =~= pb);
    lemma_zero_padded_injective(a + 1, b + 1, 6);
}

/// A catalog name is `OBJ_` followed by at least six characters, exactly six
/// when the identifier is below 999,999 (names up to `OBJ_999999`).
pub proof fn lemma_object_name_shape(id: nat)
    ensures
        object_name(id).len() >= 10,
        object_name(id).subrange(0, 4) == "OBJ_"@,
        id < 999999 ==> object_name(id).len() == 10,
{
    reveal_strlit("OBJ_");
    lemma_zero_padded_value(id + 1, 6);
    assert(object_name(id).subrange(0, 4) =~= "OBJ_"@);
    if id < 999999 {
        lemma_short_decimal(id + 1);
    }
}

proof fn lemma_short_decimal(id: nat)
    requires
        id < 1000000,
    ensures
        zero_padded(id, 6).len() == 6,
{
    reveal_with_fuel(pow10, 7);
    lemma_decimal_len_bound(id, 6);
}

} // verus!
