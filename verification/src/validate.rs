use vstd::prelude::*;
use crate::error::SafeTensorError;
use crate::model::{byte_len, checked_byte_len, EntryModel, HeaderModel};
use crate::parser::RawHeader;

verus! {

/// Both ends of the range lie inside the data section, in order.
pub open spec fn entry_offsets_ok(e: EntryModel, data_len: nat) -> bool {
    e.start <= e.end <= data_len
}

/// The range is exactly as long as the shape and dtype imply.
pub open spec fn entry_size_ok(e: EntryModel) -> bool {
    e.end - e.start == byte_len(e.dtype, e.shape)
}

/// The first per-entry failure, in header order: offsets first, then size.
pub open spec fn first_entry_error(es: Seq<EntryModel>, data_len: nat) -> Option<SafeTensorError>
    decreases es.len(),
{
    if es.len() == 0 {
        None
    } else if !entry_offsets_ok(es[0], data_len) {
        Some(SafeTensorError::InvalidOffsets)
    } else if !entry_size_ok(es[0]) {
        Some(SafeTensorError::SizeMismatch)
    } else {
        first_entry_error(es.skip(1), data_len)
    }
}

/// Two entries share a name.
pub open spec fn has_dup(es: Seq<EntryModel>) -> bool {
    exists|i: int, j: int| 0 <= i < j < es.len() && es[i].name == es[j].name
}

/// The ranges tile the data section in header order: the first starts at
/// zero, each next starts where the previous ended, the last ends at the
/// section's end.
pub open spec fn contiguous_ok(es: Seq<EntryModel>, data_len: nat) -> bool {
    if es.len() == 0 {
        data_len == 0
    } else {
        &&& es[0].start == 0
        &&& es[es.len() - 1].end == data_len
        &&& forall|i: int| 0 <= i < es.len() - 1 ==> es[i + 1].start == es[i].end
    }
}

/// Everything the validation engine checks on a decoded header, and the
/// error each failure reports, in a fixed order.
pub open spec fn sp_validate(h: HeaderModel, data_len: nat) -> Option<SafeTensorError> {
    match first_entry_error(h.entries, data_len) {
        Some(e) => Some(e),
        None => if has_dup(h.entries) {
            Some(SafeTensorError::DuplicateName)
        } else if !contiguous_ok(h.entries, data_len) {
            Some(SafeTensorError::OffsetsNotContiguous)
        } else {
            None
        },
    }
}

/// A header that validates has every entry within bounds and sized right.
pub proof fn lemma_entries_all_ok(es: Seq<EntryModel>, data_len: nat)
    requires
        first_entry_error(es, data_len) is None,
    ensures
        forall|i: int| 0 <= i < es.len()
            ==> entry_offsets_ok(#[trigger] es[i], data_len) && entry_size_ok(es[i]),
    decreases es.len(),
{
    if es.len() > 0 {
        lemma_entries_all_ok(es.skip(1), data_len);
        assert forall|i: int| 0 <= i < es.len()
            implies entry_offsets_ok(#[trigger] es[i], data_len) && entry_size_ok(es[i]) by {
            if i > 0 {
                assert(es.skip(1)[i - 1] == es[i]);
            }
        }
    }
}

/// Per-entry checks passing up to `i` leave the outcome to the rest.
proof fn lemma_first_error_step(es: Seq<EntryModel>, data_len: nat, i: int)
    requires
        0 <= i < es.len(),
        entry_offsets_ok(es[i], data_len),
        entry_size_ok(es[i]),
    ensures
        first_entry_error(es.skip(i), data_len) == first_entry_error(es.skip(i + 1), data_len),
{
    assert(es.skip(i)[0] == es[i]);
    assert(es.skip(i).skip(1) =~= es.skip(i + 1));
}

/// Checks a decoded header against the data section length, reporting the
/// first failure in the fixed order of [`sp_validate`].
pub fn validate(h: &RawHeader, data_len: usize) -> (r: Result<(), SafeTensorError>)
    ensures
        match r {
            Ok(_) => sp_validate(h@, data_len as nat) is None,
            Err(e) => sp_validate(h@, data_len as nat) == Some(e),
        },
{
    let n = h.entries.len();
    let ghost es = h@.entries;
    proof {
        assert(es.skip(0) =~= es);
    }
    // Per-entry checks: offsets in range, then size.
    let mut i: usize = 0;
    while i < n
        invariant
            n == es.len(),
            es == h@.entries,
            i <= n,
            first_entry_error(es, data_len as nat) == first_entry_error(
                es.skip(i as int),
                data_len as nat,
            ),
        decreases n - i,
    {
        let e = &h.entries[i];
        proof {
            assert(es[i as int] == h.entries@[i as int]@);
            assert(es.skip(i as int)[0] == es[i as int]);
        }
        if !(e.start <= e.end && e.end <= data_len) {
            return Err(SafeTensorError::InvalidOffsets);
        }
        let range = e.end - e.start;
        match checked_byte_len(&e.dtype, &e.shape) {
            Some(bl) => {
                if range != bl {
                    return Err(SafeTensorError::SizeMismatch);
                }
            },
            None => {
                // The implied size exceeds the machine, so no range in a
                // real buffer can match it.
                return Err(SafeTensorError::SizeMismatch);
            },
        }
        proof {
            lemma_first_error_step(es, data_len as nat, i as int);
        }
        i += 1;
    }
    proof {
        assert(es.skip(n as int) =~= Seq::<EntryModel>::empty());
    }
    // Duplicate names.
    let mut a: usize = 0;
    while a < n
        invariant
            n == es.len(),
            es == h@.entries,
            a <= n,
            forall|x: int, y: int| 0 <= x < y < n && x < a ==> es[x].name != es[y].name,
            first_entry_error(es, data_len as nat) is None,
        decreases n - a,
    {
        let mut b: usize = a + 1;
        while b < n
            invariant
                n == es.len(),
                es == h@.entries,
                a < b || b == a + 1,
                a < n,
                a + 1 <= b <= n,
                forall|y: int| a < y < b ==> es[a as int].name != es[y].name,
                forall|x: int, y: int| 0 <= x < y < n && x < a ==> es[x].name != es[y].name,
                first_entry_error(es, data_len as nat) is None,
            decreases n - b,
        {
            proof {
                assert(es[a as int] == h.entries@[a as int]@);
                assert(es[b as int] == h.entries@[b as int]@);
            }
            if crate::parser::names_equal(&h.entries[a].name, &h.entries[b].name) {
                proof {
                    assert(es[a as int].name == es[b as int].name);
                    assert(has_dup(es));
                }
                return Err(SafeTensorError::DuplicateName);
            }
            b += 1;
        }
        a += 1;
    }
    proof {
        assert(!has_dup(es));
    }
    // Strict contiguity.
    if n == 0 {
        if data_len != 0 {
            return Err(SafeTensorError::OffsetsNotContiguous);
        }
        return Ok(());
    }
    proof {
        assert(es[0] == h.entries@[0]@);
        assert(es[n - 1] == h.entries@[n - 1]@);
    }
    if h.entries[0].start != 0 {
        return Err(SafeTensorError::OffsetsNotContiguous);
    }
    if h.entries[n - 1].end != data_len {
        return Err(SafeTensorError::OffsetsNotContiguous);
    }
    let mut k: usize = 0;
    while k + 1 < n
        invariant
            n == es.len(),
            es == h@.entries,
            n >= 1,
            k < n,
            forall|i: int| 0 <= i < k ==> es[i + 1].start == es[i].end,
            first_entry_error(es, data_len as nat) is None,
            !has_dup(es),
            es[0].start == 0,
            es[n - 1].end == data_len as nat,
        decreases n - k,
    {
        proof {
            assert(es[k as int] == h.entries@[k as int]@);
            assert(es[k + 1] == h.entries@[k + 1]@);
        }
        if h.entries[k + 1].start != h.entries[k].end {
            proof {
                assert(es[k + 1].start != es[k as int].end);
                assert(!contiguous_ok(es, data_len as nat));
            }
            return Err(SafeTensorError::OffsetsNotContiguous);
        }
        k += 1;
    }
    proof {
        assert(contiguous_ok(es, data_len as nat));
    }
    Ok(())
}

} // verus!
