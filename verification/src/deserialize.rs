use vstd::prelude::*;
use vstd::bytes::{spec_u64_from_le_bytes, u64_from_le_bytes};
use vstd::slice::{slice_subrange, slice_to_vec};
use vstd::utf8::{decode_utf8, encode_utf8, valid_utf8};
use crate::error::SafeTensorError;
use crate::model::{ContainerModel, HeaderModel, TensorData};
use crate::parser::p_header;
use crate::parsing::sp_header;
use crate::tensor::{Container, Tensor};
use crate::validate::{lemma_entries_all_ok, sp_validate, validate};

verus! {

/// The safety ceiling on a declared header length: a hostile prefix cannot
/// demand an absurd allocation.
pub const MAX_HEADER_LEN: u64 = 100000000;

/// Reading a buffer's frame: the 8-byte little-endian header length, the
/// header document parsed and validated against the data section length,
/// and the data section itself.
pub open spec fn spec_decoded(bytes: Seq<u8>) -> Result<(HeaderModel, Seq<u8>), SafeTensorError> {
    if bytes.len() < 8 {
        Err(SafeTensorError::TruncatedHeader)
    } else {
        let nlen = spec_u64_from_le_bytes(bytes.take(8)) as int;
        if 8 + nlen > bytes.len() {
            Err(SafeTensorError::TruncatedHeader)
        } else if nlen > MAX_HEADER_LEN {
            Err(SafeTensorError::HeaderTooLarge)
        } else {
            match sp_header(bytes.subrange(8, 8 + nlen)) {
                Err(e) => Err(e),
                Ok(h) => match sp_validate(h, (bytes.len() - 8 - nlen) as nat) {
                    Some(e) => Err(e),
                    None => Ok((h, bytes.skip(8 + nlen))),
                },
            }
        }
    }
}

/// Every entry name is valid UTF-8.
pub open spec fn entries_utf8_ok(es: Seq<crate::model::EntryModel>) -> bool {
    forall|i: int| 0 <= i < es.len() ==> valid_utf8(#[trigger] es[i].name)
}

/// Every metadata key and value is valid UTF-8.
pub open spec fn meta_utf8_ok(m: Seq<(Seq<u8>, Seq<u8>)>) -> bool {
    forall|i: int| #![trigger m[i]] 0 <= i < m.len() ==> valid_utf8(m[i].0) && valid_utf8(m[i].1)
}

/// Every name and metadata string in the header is valid UTF-8.
pub open spec fn header_utf8_ok(h: HeaderModel) -> bool {
    &&& entries_utf8_ok(h.entries)
    &&& (h.metadata matches Some(m) ==> meta_utf8_ok(m))
}

/// The container a validated header describes over a data section: each
/// entry's name decoded from UTF-8 and its bytes cut at the declared range.
pub open spec fn container_of(h: HeaderModel, data: Seq<u8>) -> ContainerModel {
    ContainerModel {
        tensors: Seq::new(
            h.entries.len(),
            |i: int| (
                decode_utf8(h.entries[i].name),
                TensorData {
                    dtype: h.entries[i].dtype,
                    shape: h.entries[i].shape,
                    data: data.subrange(h.entries[i].start as int, h.entries[i].end as int),
                },
            ),
        ),
        metadata: match h.metadata {
            None => None,
            Some(m) => Some(Seq::new(m.len(), |i: int| (decode_utf8(m[i].0), decode_utf8(m[i].1)))),
        },
    }
}

/// One built pair matches one validated entry over the data section.
pub open spec fn tensor_pair_ok(pr: (String, Tensor), e: crate::model::EntryModel, data: Seq<u8>) -> bool {
    pr.0@ == decode_utf8(e.name) && pr.1@ == (TensorData {
        dtype: e.dtype,
        shape: e.shape,
        data: data.subrange(e.start as int, e.end as int),
    })
}

/// One built metadata pair matches one decoded pair.
pub open spec fn meta_pair_ok(pr: (String, String), src: (Seq<u8>, Seq<u8>)) -> bool {
    pr.0@ == decode_utf8(src.0) && pr.1@ == decode_utf8(src.1)
}

/// The whole deserialization pipeline: frame, parse, validate, decode the
/// names, and cut each tensor's bytes out of the data section. Both access
/// modes return exactly this, or exactly this error.
pub open spec fn spec_deserialize(bytes: Seq<u8>) -> Result<ContainerModel, SafeTensorError> {
    match spec_decoded(bytes) {
        Err(e) => Err(e),
        Ok((h, data)) => if !header_utf8_ok(h) {
            Err(SafeTensorError::MalformedHeader)
        } else {
            Ok(container_of(h, data))
        },
    }
}

/// Relies on String::from_utf8: a valid UTF-8 byte run converts to the
/// string whose bytes it is, and anything else is rejected.
#[verifier::external_body]
fn string_from_utf8(v: &[u8]) -> (r: Option<String>)
    ensures
        match r {
            Some(s) => encode_utf8(s@) == v@,
            None => !valid_utf8(v@),
        },
{
    match std::string::String::from_utf8(v.to_vec()) {
        Ok(s) => Some(s),
        Err(_) => None,
    }
}

/// Reads the frame and runs parse and validation; shared by both access
/// modes. On success returns the decoded header and the data section's
/// position.
fn decode_frame(bytes: &[u8]) -> (r: Result<(crate::parser::RawHeader, usize), SafeTensorError>)
    ensures
        match r {
            Ok((h, doff)) => spec_decoded(bytes@) == Ok::<(HeaderModel, Seq<u8>), SafeTensorError>(
                (h@, bytes@.skip(doff as int)),
            ) && 8 <= doff <= bytes@.len(),
            Err(e) => spec_decoded(bytes@) == Err::<(HeaderModel, Seq<u8>), SafeTensorError>(e),
        },
{
    let n = bytes.len();
    if n < 8 {
        return Err(SafeTensorError::TruncatedHeader);
    }
    let prefix = slice_subrange(bytes, 0, 8);
    proof {
        assert(prefix@ =~= bytes@.take(8));
    }
    let hl64 = u64_from_le_bytes(prefix);
    if hl64 > (n - 8) as u64 {
        return Err(SafeTensorError::TruncatedHeader);
    }
    if hl64 > MAX_HEADER_LEN {
        return Err(SafeTensorError::HeaderTooLarge);
    }
    let hl = hl64 as usize;
    let hb = slice_subrange(bytes, 8, 8 + hl);
    let raw = match p_header(hb) {
        Err(e) => {
            return Err(e);
        },
        Ok(h) => h,
    };
    let data_len = n - 8 - hl;
    match validate(&raw, data_len) {
        Err(e) => {
            return Err(e);
        },
        Ok(_) => {},
    }
    Ok((raw, 8 + hl))
}

/// Deserializes a buffer into a container that owns every tensor's bytes:
/// the result outlives the input. Fails, and never reads out of bounds,
/// on any malformed, truncated or inconsistent input.
#[verifier::rlimit(100)]
pub fn deserialize_owned(bytes: &[u8]) -> (r: Result<Container, SafeTensorError>)
    ensures
        match r {
            Ok(c) => spec_deserialize(bytes@) == Ok::<ContainerModel, SafeTensorError>(c@),
            Err(e) => spec_deserialize(bytes@) == Err::<ContainerModel, SafeTensorError>(e),
        },
{
    let n = bytes.len();
    let (raw, doff) = match decode_frame(bytes) {
        Err(e) => {
            return Err(e);
        },
        Ok(v) => v,
    };
    let ghost hm = raw@;
    let ghost data = bytes@.skip(doff as int);
    let data_slice = slice_subrange(bytes, doff, n);
    proof {
        assert(data_slice@ =~= data);
        lemma_entries_all_ok(hm.entries, data.len());
    }
    let m = raw.entries.len();
    let mut tensors: Vec<(String, Tensor)> = Vec::new();
    let mut i: usize = 0;
    while i < m
        invariant
            m == hm.entries.len(),
            hm == raw@,
            spec_decoded(bytes@) == Ok::<(HeaderModel, Seq<u8>), SafeTensorError>((hm, data)),
            data_slice@ == data,
            data.len() == data_slice@.len(),
            forall|k: int| 0 <= k < m
                ==> crate::validate::entry_offsets_ok(#[trigger] hm.entries[k], data.len()),
            i <= m,
            tensors@.len() == i,
            forall|k: int| 0 <= k < i ==> valid_utf8(#[trigger] hm.entries[k].name),
            forall|k: int| 0 <= k < i ==> tensor_pair_ok(#[trigger] tensors@[k], hm.entries[k], data),
        decreases m - i,
    {
        let e = &raw.entries[i];
        proof {
            assert(hm.entries[i as int] == raw.entries@[i as int]@);
        }
        let name = match string_from_utf8(e.name.as_slice()) {
            None => {
                proof {
                    assert(!valid_utf8(hm.entries[i as int].name));
                    assert(!entries_utf8_ok(hm.entries));
                }
                return Err(SafeTensorError::MalformedHeader);
            },
            Some(s) => s,
        };
        proof {
            vstd::utf8::encode_utf8_valid_utf8(name@);
            vstd::utf8::encode_utf8_decode_utf8(name@);
        }
        proof {
            assert(crate::validate::entry_offsets_ok(hm.entries[i as int], data.len()));
        }
        let shape = slice_to_vec(e.shape.as_slice());
        let td = slice_to_vec(slice_subrange(data_slice, e.start, e.end));
        let t = Tensor { dtype: e.dtype, shape, data: td };
        let ghost gname = name@;
        let ghost gt = t@;
        let ghost t0 = tensors@;
        tensors.push((name, t));
        proof {
            assert(valid_utf8(hm.entries[i as int].name));
            assert(decode_utf8(hm.entries[i as int].name) == gname);
            assert(gt =~= (TensorData {
                dtype: hm.entries[i as int].dtype,
                shape: hm.entries[i as int].shape,
                data: data.subrange(
                    hm.entries[i as int].start as int,
                    hm.entries[i as int].end as int,
                ),
            }));
            assert(tensors@ == t0.push((tensors@[i as int].0, tensors@[i as int].1)));
            assert(tensors@[i as int].0@ == gname && tensors@[i as int].1@ == gt);
            assert(tensor_pair_ok(tensors@[i as int], hm.entries[i as int], data));
            assert forall|k: int| 0 <= k < i + 1 implies tensor_pair_ok(
                #[trigger] tensors@[k],
                hm.entries[k],
                data,
            ) by {
                if k < i as int {
                    assert(tensors@[k] == t0[k]);
                    assert(tensor_pair_ok(t0[k], hm.entries[k], data));
                }
            }
        }
        i += 1;
    }
    let metadata: Option<Vec<(String, String)>> = match &raw.metadata {
        None => None,
        Some(mv) => {
            let ghost mm = (match hm.metadata {
                Some(x) => x,
                None => Seq::empty(),
            });
            proof {
                assert(hm.metadata == Some(mm));
            }
            let p = mv.len();
            let mut md: Vec<(String, String)> = Vec::new();
            let mut j: usize = 0;
            while j < p
                invariant
                    p == mm.len(),
                    hm.metadata == Some(mm),
                    spec_decoded(bytes@) == Ok::<(HeaderModel, Seq<u8>), SafeTensorError>((hm, data)),
                    hm == raw@,
                    raw.metadata matches Some(q) && q == *mv,
                    p == mv@.len(),
                    j <= p,
                    md@.len() == j,
                    forall|k: int| 0 <= k < j
                        ==> valid_utf8(#[trigger] mm[k].0) && valid_utf8(mm[k].1),
                    forall|k: int| 0 <= k < j ==> meta_pair_ok(#[trigger] md@[k], mm[k]),
                decreases p - j,
            {
                proof {
                    assert(mm[j as int] == (mv@[j as int].0@, mv@[j as int].1@));
                }
                let k = match string_from_utf8(mv[j].0.as_slice()) {
                    None => {
                        proof {
                            assert(!valid_utf8(mm[j as int].0));
                            assert(!meta_utf8_ok(mm));
                        }
                        return Err(SafeTensorError::MalformedHeader);
                    },
                    Some(s) => s,
                };
                let v = match string_from_utf8(mv[j].1.as_slice()) {
                    None => {
                        proof {
                            assert(!valid_utf8(mm[j as int].1));
                            assert(!meta_utf8_ok(mm));
                        }
                        return Err(SafeTensorError::MalformedHeader);
                    },
                    Some(s) => s,
                };
                proof {
                    vstd::utf8::encode_utf8_valid_utf8(k@);
                    vstd::utf8::encode_utf8_decode_utf8(k@);
                    vstd::utf8::encode_utf8_valid_utf8(v@);
                    vstd::utf8::encode_utf8_decode_utf8(v@);
                }
                let ghost gk = k@;
                let ghost gv = v@;
                let ghost md0 = md@;
                md.push((k, v));
                proof {
                    assert(valid_utf8(mm[j as int].0) && valid_utf8(mm[j as int].1));
                    assert(md@[j as int].0@ == gk && md@[j as int].1@ == gv);
                    assert(decode_utf8(mm[j as int].0) == gk);
                    assert(decode_utf8(mm[j as int].1) == gv);
                    assert(meta_pair_ok(md@[j as int], mm[j as int]));
                    assert forall|k2: int| 0 <= k2 < j + 1 implies meta_pair_ok(
                        #[trigger] md@[k2],
                        mm[k2],
                    ) by {
                        if k2 < j as int {
                            assert(md@[k2] == md0[k2]);
                            assert(meta_pair_ok(md0[k2], mm[k2]));
                        }
                    }
                }
                j += 1;
            }
            Some(md)
        },
    };
    let c = Container { tensors, metadata };
    proof {
        assert(header_utf8_ok(hm));
        assert(c@.tensors =~= container_of(hm, data).tensors);
        match hm.metadata {
            Some(mm2) => {
                match c@.metadata {
                    Some(cm) => {
                        assert(cm =~= (match container_of(hm, data).metadata {
                            Some(x) => x,
                            None => Seq::empty(),
                        }));
                    },
                    None => {
                        assert(false);
                    },
                }
            },
            None => {},
        }
        assert(c@ =~= container_of(hm, data));
    }
    Ok(c)
}

/// One tensor exposed as a zero-copy view: its bytes alias the buffer the
/// container was deserialized from, which must outlive the view.
pub struct TensorView<'a> {
    /// The element type.
    pub dtype: crate::dtype::Dtype,
    /// One extent per dimension.
    pub shape: Vec<usize>,
    /// The tensor's bytes, borrowed from the source buffer.
    pub data: &'a [u8],
}

impl<'a> View for TensorView<'a> {
    type V = TensorData;

    open spec fn view(&self) -> TensorData {
        TensorData { dtype: self.dtype, shape: self.shape@, data: self.data@ }
    }
}

/// A deserialized container whose tensor data aliases the source buffer:
/// nothing is copied, so the buffer must outlive this value.
pub struct SafeTensors<'a> {
    /// The tensors in header order.
    pub tensors: Vec<(String, TensorView<'a>)>,
    /// The metadata block, if the header carried one.
    pub metadata: Option<Vec<(String, String)>>,
}

impl<'a> View for SafeTensors<'a> {
    type V = ContainerModel;

    open spec fn view(&self) -> ContainerModel {
        ContainerModel {
            tensors: Seq::new(
                self.tensors@.len(),
                |i: int| (self.tensors@[i].0@, self.tensors@[i].1@),
            ),
            metadata: match self.metadata {
                Some(m) => Some(Seq::new(m@.len(), |i: int| (m@[i].0@, m@[i].1@))),
                None => None,
            },
        }
    }
}

impl<'a> SafeTensors<'a> {
    /// The number of tensors held.
    pub fn len(&self) -> (r: usize)
        ensures
            r == self@.tensors.len(),
    {
        self.tensors.len()
    }

    /// The tensor names, in header order.
    pub fn names(&self) -> (r: Vec<&String>)
        ensures
            r@.len() == self@.tensors.len(),
            forall|i: int| 0 <= i < r@.len() ==> (#[trigger] r@[i])@ == self@.tensors[i].0,
    {
        let n = self.tensors.len();
        let mut out: Vec<&String> = Vec::new();
        let mut i: usize = 0;
        while i < n
            invariant
                n == self@.tensors.len(),
                n == self.tensors@.len(),
                i <= n,
                out@.len() == i,
                forall|k: int| 0 <= k < i ==> (#[trigger] out@[k])@ == self@.tensors[k].0,
            decreases n - i,
        {
            out.push(&self.tensors[i].0);
            i += 1;
        }
        out
    }

    /// The view stored under this name, if any.
    pub fn get(&self, name: &String) -> (r: Option<&TensorView<'a>>)
        ensures
            match r {
                Some(t) => exists|i: int|
                    0 <= i < self@.tensors.len() && self@.tensors[i] == (name@, t@),
                None => forall|i: int|
                    0 <= i < self@.tensors.len() ==> self@.tensors[i].0 != name@,
            },
    {
        let n = self.tensors.len();
        let mut i: usize = 0;
        while i < n
            invariant
                n == self@.tensors.len(),
                n == self.tensors@.len(),
                i <= n,
                forall|k: int| 0 <= k < i ==> self@.tensors[k].0 != name@,
            decreases n - i,
        {
            if self.tensors[i].0 == *name {
                proof {
                    assert(self@.tensors[i as int] == (name@, self.tensors@[i as int].1@));
                }
                return Some(&self.tensors[i].1);
            }
            i += 1;
        }
        None
    }

    /// The metadata block, if one was present.
    pub fn metadata(&self) -> (r: &Option<Vec<(String, String)>>)
        ensures
            match r {
                Some(m) => self@.metadata == Some(
                    Seq::new(m@.len(), |i: int| (m@[i].0@, m@[i].1@)),
                ),
                None => self@.metadata is None,
            },
    {
        &self.metadata
    }
}

/// Deserializes a buffer into zero-copy views: the same pipeline and the
/// same logical result as [`deserialize_owned`], but each tensor's data is
/// a slice into `bytes` at its validated range. Fails, and never reads out
/// of bounds, on any malformed, truncated or inconsistent input.
#[verifier::rlimit(100)]
pub fn deserialize_borrowed<'a>(bytes: &'a [u8]) -> (r: Result<SafeTensors<'a>, SafeTensorError>)
    ensures
        match r {
            Ok(v) => spec_deserialize(bytes@) == Ok::<ContainerModel, SafeTensorError>(v@),
            Err(e) => spec_deserialize(bytes@) == Err::<ContainerModel, SafeTensorError>(e),
        },
{
    let n = bytes.len();
    let (raw, doff) = match decode_frame(bytes) {
        Err(e) => {
            return Err(e);
        },
        Ok(v) => v,
    };
    let ghost hm = raw@;
    let ghost data = bytes@.skip(doff as int);
    let data_slice = slice_subrange(bytes, doff, n);
    proof {
        assert(data_slice@ =~= data);
        lemma_entries_all_ok(hm.entries, data.len());
    }
    let m = raw.entries.len();
    let mut tensors: Vec<(String, TensorView<'a>)> = Vec::new();
    let mut i: usize = 0;
    while i < m
        invariant
            m == hm.entries.len(),
            hm == raw@,
            spec_decoded(bytes@) == Ok::<(HeaderModel, Seq<u8>), SafeTensorError>((hm, data)),
            data_slice@ == data,
            data.len() == data_slice@.len(),
            forall|k: int| 0 <= k < m
                ==> crate::validate::entry_offsets_ok(#[trigger] hm.entries[k], data.len()),
            i <= m,
            tensors@.len() == i,
            forall|k: int| 0 <= k < i ==> valid_utf8(#[trigger] hm.entries[k].name),
            forall|k: int| 0 <= k < i ==> view_pair_ok(#[trigger] tensors@[k], hm.entries[k], data),
        decreases m - i,
    {
        let e = &raw.entries[i];
        proof {
            assert(hm.entries[i as int] == raw.entries@[i as int]@);
        }
        let name = match string_from_utf8(e.name.as_slice()) {
            None => {
                proof {
                    assert(!valid_utf8(hm.entries[i as int].name));
                    assert(!entries_utf8_ok(hm.entries));
                }
                return Err(SafeTensorError::MalformedHeader);
            },
            Some(s) => s,
        };
        proof {
            vstd::utf8::encode_utf8_valid_utf8(name@);
            vstd::utf8::encode_utf8_decode_utf8(name@);
            assert(crate::validate::entry_offsets_ok(hm.entries[i as int], data.len()));
        }
        let shape = slice_to_vec(e.shape.as_slice());
        let td: &'a [u8] = slice_subrange(data_slice, e.start, e.end);
        let t = TensorView { dtype: e.dtype, shape, data: td };
        let ghost gname = name@;
        let ghost gt = t@;
        let ghost t0 = tensors@;
        tensors.push((name, t));
        proof {
            assert(decode_utf8(hm.entries[i as int].name) == gname);
            assert(gt =~= (TensorData {
                dtype: hm.entries[i as int].dtype,
                shape: hm.entries[i as int].shape,
                data: data.subrange(
                    hm.entries[i as int].start as int,
                    hm.entries[i as int].end as int,
                ),
            }));
            assert(tensors@[i as int].0@ == gname && tensors@[i as int].1@ == gt);
            assert(view_pair_ok(tensors@[i as int], hm.entries[i as int], data));
            assert forall|k: int| 0 <= k < i + 1 implies view_pair_ok(
                #[trigger] tensors@[k],
                hm.entries[k],
                data,
            ) by {
                if k < i as int {
                    assert(tensors@[k] == t0[k]);
                    assert(view_pair_ok(t0[k], hm.entries[k], data));
                }
            }
        }
        i += 1;
    }
    let metadata: Option<Vec<(String, String)>> = match &raw.metadata {
        None => None,
        Some(mv) => {
            let ghost mm = (match hm.metadata {
                Some(x) => x,
                None => Seq::empty(),
            });
            proof {
                assert(hm.metadata == Some(mm));
            }
            let p = mv.len();
            let mut md: Vec<(String, String)> = Vec::new();
            let mut j: usize = 0;
            while j < p
                invariant
                    p == mm.len(),
                    hm.metadata == Some(mm),
                    spec_decoded(bytes@) == Ok::<(HeaderModel, Seq<u8>), SafeTensorError>((
                        hm,
                        data,
                    )),
                    hm == raw@,
                    raw.metadata matches Some(q) && q == *mv,
                    p == mv@.len(),
                    j <= p,
                    md@.len() == j,
                    forall|k: int| 0 <= k < j
                        ==> valid_utf8(#[trigger] mm[k].0) && valid_utf8(mm[k].1),
                    forall|k: int| 0 <= k < j ==> meta_pair_ok(#[trigger] md@[k], mm[k]),
                decreases p - j,
            {
                proof {
                    assert(mm[j as int] == (mv@[j as int].0@, mv@[j as int].1@));
                }
                let k = match string_from_utf8(mv[j].0.as_slice()) {
                    None => {
                        proof {
                            assert(!valid_utf8(mm[j as int].0));
                            assert(!meta_utf8_ok(mm));
                        }
                        return Err(SafeTensorError::MalformedHeader);
                    },
                    Some(s) => s,
                };
                let v = match string_from_utf8(mv[j].1.as_slice()) {
                    None => {
                        proof {
                            assert(!valid_utf8(mm[j as int].1));
                            assert(!meta_utf8_ok(mm));
                        }
                        return Err(SafeTensorError::MalformedHeader);
                    },
                    Some(s) => s,
                };
                proof {
                    vstd::utf8::encode_utf8_valid_utf8(k@);
                    vstd::utf8::encode_utf8_decode_utf8(k@);
                    vstd::utf8::encode_utf8_valid_utf8(v@);
                    vstd::utf8::encode_utf8_decode_utf8(v@);
                }
                let ghost gk = k@;
                let ghost gv = v@;
                let ghost md0 = md@;
                md.push((k, v));
                proof {
                    assert(valid_utf8(mm[j as int].0) && valid_utf8(mm[j as int].1));
                    assert(md@[j as int].0@ == gk && md@[j as int].1@ == gv);
                    assert(decode_utf8(mm[j as int].0) == gk);
                    assert(decode_utf8(mm[j as int].1) == gv);
                    assert(meta_pair_ok(md@[j as int], mm[j as int]));
                    assert forall|k2: int| 0 <= k2 < j + 1 implies meta_pair_ok(
                        #[trigger] md@[k2],
                        mm[k2],
                    ) by {
                        if k2 < j as int {
                            assert(md@[k2] == md0[k2]);
                            assert(meta_pair_ok(md0[k2], mm[k2]));
                        }
                    }
                }
                j += 1;
            }
            Some(md)
        },
    };
    let c = SafeTensors { tensors, metadata };
    proof {
        assert(header_utf8_ok(hm));
        assert(c@.tensors =~= container_of(hm, data).tensors);
        match hm.metadata {
            Some(mm2) => {
                match c@.metadata {
                    Some(cm) => {
                        assert(cm =~= (match container_of(hm, data).metadata {
                            Some(x) => x,
                            None => Seq::empty(),
                        }));
                    },
                    None => {
                        assert(false);
                    },
                }
            },
            None => {},
        }
        assert(c@ =~= container_of(hm, data));
    }
    Ok(c)
}

/// One built view pair matches one validated entry over the data section.
pub open spec fn view_pair_ok(
    pr: (String, TensorView), e: crate::model::EntryModel, data: Seq<u8>,
) -> bool {
    pr.0@ == decode_utf8(e.name) && pr.1@ == (TensorData {
        dtype: e.dtype,
        shape: e.shape,
        data: data.subrange(e.start as int, e.end as int),
    })
}

} // verus!
