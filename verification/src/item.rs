//! The item codec: a (field, value-id) pair packed into one 64-bit key.

use vstd::prelude::*;
use vstd::arithmetic::div_mod::lemma_fundamental_div_mod;
use vstd::arithmetic::div_mod::lemma_fundamental_div_mod_converse;
use crate::{Field, Value};

verus! {

/// An opaque 64-bit key uniquely decodable to (field, value-id). Two items
/// are equal iff their keys are equal; an item is only meaningful relative to
/// the log whose lexicon produced it.
#[derive(Debug, Clone, Copy, PartialEq, Eq, Hash, Structural)]
pub struct Item(pub u64);

/// The packing rule: `key = value * 2^32 + field`.
pub open spec fn spec_encode_item(field: Field, val: Value) -> u64 {
    (val * 0x1_0000_0000 + field) as u64
}

/// The field number held in a key: its low 32 bits.
pub open spec fn spec_item_field(key: u64) -> Field {
    (key % 0x1_0000_0000) as Field
}

/// The value id held in a key: its high 32 bits.
pub open spec fn spec_item_val(key: u64) -> Value {
    (key / 0x1_0000_0000) as Value
}

/// Decoding inverts encoding: for any value id small enough to be packed,
/// the key built from (field, value) gives both back.
pub proof fn lemma_encode_decode(field: Field, val: Value)
    requires
        val < 0x1_0000_0000,
    ensures
        spec_item_field(spec_encode_item(field, val)) == field,
        spec_item_val(spec_encode_item(field, val)) == val,
{
    let key = val * 0x1_0000_0000 + field;
    assert(0 <= key < 0x1_0000_0000_0000_0000) by (nonlinear_arith)
        requires
            val < 0x1_0000_0000,
            field < 0x1_0000_0000,
            key == val * 0x1_0000_0000 + field,
    {
    }
    lemma_fundamental_div_mod_converse(key as int, 0x1_0000_0000, val as int, field as int);
}

/// Encoding inverts decoding: every key equals the key rebuilt from the
/// (field, value-id) pair it decodes to. With `lemma_encode_decode` this
/// makes the codec a bijection: two items are equal iff they decode to the
/// same pair.
pub proof fn lemma_decode_encode(key: u64)
    ensures
        spec_encode_item(spec_item_field(key), spec_item_val(key)) == key,
        spec_item_val(key) < 0x1_0000_0000,
{
    lemma_fundamental_div_mod(key as int, 0x1_0000_0000);
    assert(key / 0x1_0000_0000 < 0x1_0000_0000) by (nonlinear_arith)
        requires
            key < 0x1_0000_0000_0000_0000,
    {
    }
}

impl Item {
    /// Pack a field number and a value id into an item.
    pub fn encode(field: Field, val: Value) -> (r: Item)
        requires
            val < 0x1_0000_0000,
        ensures
            r.0 == spec_encode_item(field, val),
            spec_item_field(r.0) == field,
            spec_item_val(r.0) == val,
    {
        proof {
            lemma_encode_decode(field, val);
            assert(val * 0x1_0000_0000 + field <= 0xFFFF_FFFF * 0x1_0000_0000 + 0xFFFF_FFFFu64)
                by (nonlinear_arith)
                requires
                    val < 0x1_0000_0000,
                    field < 0x1_0000_0000,
            {
            }
        }
        Item(val * 0x1_0000_0000 + (field as u64))
    }

    /// The field number this item belongs to.
    pub fn field(&self) -> (r: Field)
        ensures
            r == spec_item_field(self.0),
    {
        (self.0 % 0x1_0000_0000) as u32
    }

    /// The value id this item carries; 0 means "no value".
    pub fn val(&self) -> (r: Value)
        ensures
            r == spec_item_val(self.0),
    {
        self.0 / 0x1_0000_0000
    }
}

} // verus!
