//! Laws relating writing and reading: a bit stream packed from values decodes
//! back to the same values, field by field.

use crate::bits::{bits_int, lemma_low_bits_int, low_bits};
use vstd::arithmetic::power2::pow2;
use vstd::prelude::*;

verus! {

/// Round trip: a stream that begins with the low `nbits` bits of `value`
/// decodes, over its first `nbits` bits, to `value` masked to those bits —
/// whatever padding or further fields follow. Writing `value` with
/// `write_bits(nbits, value)`, flushing, and reading `nbits` bits back
/// therefore yields `value % pow2(nbits)`.
pub proof fn lemma_round_trip(nbits: nat, value: u64, rest: Seq<bool>)
    requires
        nbits <= 64,
    ensures
        bits_int((low_bits(value as nat, nbits) + rest).take(nbits as int)) == (value as nat)
            % pow2(nbits),
{
    assert((low_bits(value as nat, nbits) + rest).take(nbits as int) =~= low_bits(
        value as nat,
        nbits,
    ));
    lemma_low_bits_int(value as nat, nbits);
}

/// The bit stream that an ordered sequence of `(nbits, value)` fields packs:
/// each field contributes the low `nbits` bits of its value, in order.
pub open spec fn fields_bits(fields: Seq<(u8, u64)>) -> Seq<bool>
    decreases fields.len(),
{
    if fields.len() == 0 {
        Seq::empty()
    } else {
        low_bits(fields[0].1 as nat, fields[0].0 as nat) + fields_bits(fields.skip(1))
    }
}

/// Where field `i` begins in that stream: the widths of the fields before it.
pub open spec fn fields_offset(fields: Seq<(u8, u64)>, i: int) -> int
    decreases i,
{
    if i <= 0 {
        0
    } else {
        fields[0].0 + fields_offset(fields.skip(1), i - 1)
    }
}

/// Dropping the first `i` fields' bits leaves the stream of the other fields.
pub proof fn lemma_fields_suffix(fields: Seq<(u8, u64)>, i: int)
    requires
        0 <= i <= fields.len(),
    ensures
        0 <= fields_offset(fields, i) <= fields_bits(fields).len(),
        fields_bits(fields).skip(fields_offset(fields, i)) == fields_bits(fields.skip(i)),
    decreases i,
{
    if i == 0 {
        assert(fields.skip(0) =~= fields);
        assert(fields_bits(fields).skip(0) =~= fields_bits(fields));
    } else {
        lemma_fields_suffix(fields.skip(1), i - 1);
        assert(fields.skip(1).skip(i - 1) =~= fields.skip(i));
        let head = low_bits(fields[0].1 as nat, fields[0].0 as nat);
        let tail = fields_bits(fields.skip(1));
        let off = fields_offset(fields.skip(1), i - 1);
        assert(fields_bits(fields) == head + tail);
        assert(fields_offset(fields, i) == fields[0].0 + off);
        assert((head + tail).skip(fields[0].0 + off) =~= tail.skip(off));
    }
}

/// Sequence round trip: pack an ordered sequence of `(nbits, value)` fields,
/// follow the stream with anything — flush padding included — and read the
/// same widths back in order. Field `i`, read at its offset, decodes to
/// `value_i` masked to its `nbits_i` bits, and the cursor then stands exactly
/// where field `i + 1` begins: no bit is skipped, duplicated, or misaligned.
pub proof fn lemma_sequence_round_trip(fields: Seq<(u8, u64)>, rest: Seq<bool>, i: int)
    requires
        0 <= i < fields.len(),
        forall|j: int| 0 <= j < fields.len() ==> (#[trigger] fields[j].0) <= 64,
    ensures
        ({
            let s = (fields_bits(fields) + rest).skip(fields_offset(fields, i));
            &&& bits_int(s.take(fields[i].0 as int)) == (fields[i].1 as nat) % pow2(
                fields[i].0 as nat,
            )
            &&& s.skip(fields[i].0 as int) == (fields_bits(fields) + rest).skip(
                fields_offset(fields, i + 1),
            )
        }),
{
    lemma_fields_suffix(fields, i);
    lemma_fields_suffix(fields, i + 1);
    let s = (fields_bits(fields) + rest).skip(fields_offset(fields, i));
    let head = low_bits(fields[i].1 as nat, fields[i].0 as nat);
    assert(fields.skip(i)[0] == fields[i]);
    assert(fields.skip(i).skip(1) =~= fields.skip(i + 1));
    assert(fields_bits(fields.skip(i)) == head + fields_bits(fields.skip(i + 1)));
    assert(s =~= fields_bits(fields.skip(i)) + rest);
    assert(s.take(fields[i].0 as int) =~= head);
    lemma_low_bits_int(fields[i].1 as nat, fields[i].0 as nat);
    assert(s.skip(fields[i].0 as int) =~= fields_bits(fields.skip(i + 1)) + rest);
    assert((fields_bits(fields) + rest).skip(fields_offset(fields, i + 1)) =~= fields_bits(
        fields.skip(i + 1),
    ) + rest);
}

} // verus!
