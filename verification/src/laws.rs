use vstd::prelude::*;
use crate::deserialize::{spec_deserialize, MAX_HEADER_LEN};
use crate::encoding::spec_serialize;
use crate::error::SafeTensorError;
use crate::model::{ContainerModel, EntryModel, HeaderModel};
use crate::parsing::sp_header;
use crate::validate::{entry_offsets_ok, entry_size_ok, first_entry_error, has_dup};

verus! {

/// Serializing is deterministic: equal containers yield byte-identical
/// output, since the output is a function of the container's content alone.
pub proof fn lemma_serialize_deterministic(c1: ContainerModel, c2: ContainerModel)
    requires
        c1 == c2,
    ensures
        spec_serialize(c1) == spec_serialize(c2),
{
}

/// Both access modes expose identical logical tensors: whatever two results
/// the one deserialization pipeline admits for the same bytes are equal.
pub proof fn lemma_borrowed_equivalence(bytes: Seq<u8>, o: ContainerModel, b: ContainerModel)
    requires
        spec_deserialize(bytes) == Ok::<ContainerModel, SafeTensorError>(o),
        spec_deserialize(bytes) == Ok::<ContainerModel, SafeTensorError>(b),
    ensures
        o == b,
{
}

/// A buffer shorter than 8 bytes, or shorter than the declared header
/// length plus 8, fails with `TruncatedHeader`.
pub proof fn lemma_truncation(bytes: Seq<u8>)
    ensures
        bytes.len() < 8 ==> spec_deserialize(bytes) == Err::<ContainerModel, SafeTensorError>(
            SafeTensorError::TruncatedHeader,
        ),
        bytes.len() >= 8 && 8 + vstd::bytes::spec_u64_from_le_bytes(bytes.take(8)) as int
            > bytes.len() ==> spec_deserialize(bytes) == Err::<ContainerModel, SafeTensorError>(
            SafeTensorError::TruncatedHeader,
        ),
{
}

/// An entry that breaks the per-entry checks makes the whole pass fail with
/// `InvalidOffsets` or `SizeMismatch`.
proof fn lemma_first_error_from_witness(es: Seq<EntryModel>, data_len: nat, i: int)
    requires
        0 <= i < es.len(),
        !(entry_offsets_ok(es[i], data_len) && entry_size_ok(es[i])),
    ensures
        first_entry_error(es, data_len) == Some(SafeTensorError::InvalidOffsets)
            || first_entry_error(es, data_len) == Some(SafeTensorError::SizeMismatch),
    decreases i,
{
    if entry_offsets_ok(es[0], data_len) && entry_size_ok(es[0]) {
        assert(es.skip(1)[i - 1] == es[i]);
        lemma_first_error_from_witness(es.skip(1), data_len, i - 1);
    }
}

/// Offset safety: when a parsed header declares a range whose end lies past
/// the data section, deserialization fails with `InvalidOffsets` or
/// `SizeMismatch`; no view is ever built over such a header.
pub proof fn lemma_offset_safety(bytes: Seq<u8>, h: HeaderModel, i: int)
    requires
        spec_decoded_header(bytes) == Some(h),
        0 <= i < h.entries.len(),
        h.entries[i].end > data_section_len(bytes),
    ensures
        spec_deserialize(bytes) == Err::<ContainerModel, SafeTensorError>(
            SafeTensorError::InvalidOffsets,
        ) || spec_deserialize(bytes) == Err::<ContainerModel, SafeTensorError>(
            SafeTensorError::SizeMismatch,
        ),
{
    lemma_first_error_from_witness(h.entries, data_section_len(bytes), i);
}

/// Size consistency: when every range lies inside the data section but some
/// entry's range length differs from `shape_product * byte_width`,
/// deserialization fails with `SizeMismatch`.
pub proof fn lemma_size_consistency(bytes: Seq<u8>, h: HeaderModel, i: int)
    requires
        spec_decoded_header(bytes) == Some(h),
        0 <= i < h.entries.len(),
        forall|k: int| 0 <= k < h.entries.len()
            ==> entry_offsets_ok(#[trigger] h.entries[k], data_section_len(bytes)),
        !entry_size_ok(h.entries[i]),
    ensures
        spec_deserialize(bytes) == Err::<ContainerModel, SafeTensorError>(
            SafeTensorError::SizeMismatch,
        ),
{
    lemma_size_error_from_witness(h.entries, data_section_len(bytes), i);
}

/// With offsets in bounds everywhere, a size mismatch is what the pass
/// reports.
proof fn lemma_size_error_from_witness(es: Seq<EntryModel>, data_len: nat, i: int)
    requires
        0 <= i < es.len(),
        forall|k: int| 0 <= k < es.len() ==> entry_offsets_ok(#[trigger] es[k], data_len),
        !entry_size_ok(es[i]),
    ensures
        first_entry_error(es, data_len) == Some(SafeTensorError::SizeMismatch),
    decreases i,
{
    if i > 0 && entry_size_ok(es[0]) {
        assert forall|k: int| 0 <= k < es.skip(1).len()
            implies entry_offsets_ok(#[trigger] es.skip(1)[k], data_len) by {
            assert(es.skip(1)[k] == es[k + 1]);
        }
        assert(es.skip(1)[i - 1] == es[i]);
        lemma_size_error_from_witness(es.skip(1), data_len, i - 1);
    }
}

/// Duplicate name rejection: a parsed header with two entries sharing a
/// name, whose per-entry checks all pass, fails with `DuplicateName`.
pub proof fn lemma_duplicate_name(bytes: Seq<u8>, h: HeaderModel)
    requires
        spec_decoded_header(bytes) == Some(h),
        has_dup(h.entries),
        first_entry_error(h.entries, data_section_len(bytes)) is None,
    ensures
        spec_deserialize(bytes) == Err::<ContainerModel, SafeTensorError>(
            SafeTensorError::DuplicateName,
        ),
{
}

/// The header a buffer's frame declares and parses to, before validation,
/// if the frame itself is sound.
pub open spec fn spec_decoded_header(bytes: Seq<u8>) -> Option<HeaderModel> {
    if bytes.len() < 8 {
        None
    } else {
        let nlen = vstd::bytes::spec_u64_from_le_bytes(bytes.take(8)) as int;
        if 8 + nlen > bytes.len() || nlen > MAX_HEADER_LEN {
            None
        } else {
            match sp_header(bytes.subrange(8, 8 + nlen)) {
                Ok(h) => Some(h),
                Err(_) => None,
            }
        }
    }
}

/// The length of the data section a sound frame declares.
pub open spec fn data_section_len(bytes: Seq<u8>) -> nat {
    (bytes.len() - 8 - vstd::bytes::spec_u64_from_le_bytes(bytes.take(8)) as int) as nat
}

} // verus!
