use vstd::prelude::*;
use crate::dtype::Dtype;

verus! {

/// The element count of a shape: the product of all its extents.
/// An empty shape is a scalar and counts one element.
pub open spec fn shape_product(shape: Seq<usize>) -> nat
    decreases shape.len(),
{
    if shape.len() == 0 {
        1
    } else {
        shape_product(shape.drop_last()) * (shape.last() as nat)
    }
}

/// The exact number of data bytes a tensor of this dtype and shape holds.
pub open spec fn byte_len(dtype: Dtype, shape: Seq<usize>) -> nat {
    shape_product(shape) * dtype.width()
}

/// The logical content of one tensor: its element type, its shape, and its
/// raw little-endian bytes.
#[verifier::ext_equal]
pub ghost struct TensorData {
    pub dtype: Dtype,
    pub shape: Seq<usize>,
    pub data: Seq<u8>,
}

/// A tensor's data is exactly as long as its shape and dtype imply.
pub open spec fn tensor_wf(t: TensorData) -> bool {
    t.data.len() == byte_len(t.dtype, t.shape)
}

/// The logical content of a whole container: named tensors in order, and
/// the optional free-form metadata block.
#[verifier::ext_equal]
pub ghost struct ContainerModel {
    pub tensors: Seq<(Seq<char>, TensorData)>,
    pub metadata: Option<Seq<(Seq<char>, Seq<char>)>>,
}

/// The reserved header key under which the metadata block is stored; no
/// tensor may carry it as a name.
pub open spec fn reserved_key() -> Seq<char> {
    "__metadata__"@
}

/// Well-formedness of a container: unique names, none reserved, and every
/// tensor's data length matching its shape and dtype.
pub open spec fn container_wf(c: ContainerModel) -> bool {
    &&& forall|i: int, j: int|
        0 <= i < j < c.tensors.len() ==> c.tensors[i].0 != c.tensors[j].0
    &&& forall|i: int| 0 <= i < c.tensors.len() ==> c.tensors[i].0 != reserved_key()
    &&& forall|i: int| 0 <= i < c.tensors.len() ==> tensor_wf(c.tensors[i].1)
}

/// One decoded header entry: the tensor's name as the byte run that stood
/// in the header, its dtype and shape, and its byte range in the data
/// section.
#[verifier::ext_equal]
pub ghost struct EntryModel {
    pub name: Seq<u8>,
    pub dtype: Dtype,
    pub shape: Seq<usize>,
    pub start: nat,
    pub end: nat,
}

/// A decoded header: the tensor entries in header order, and the metadata
/// pairs as byte runs, if the block was present.
#[verifier::ext_equal]
pub ghost struct HeaderModel {
    pub entries: Seq<EntryModel>,
    pub metadata: Option<Seq<(Seq<u8>, Seq<u8>)>>,
}

/// A shape with a zero extent holds no elements.
pub proof fn lemma_product_zero(shape: Seq<usize>, i: int)
    requires
        0 <= i < shape.len(),
        shape[i] == 0,
    ensures
        shape_product(shape) == 0,
    decreases shape.len(),
{
    if i == shape.len() - 1 {
        assert(shape.last() == 0);
        assert(shape_product(shape) == shape_product(shape.drop_last()) * (shape.last() as nat));
        assert(shape_product(shape.drop_last()) * 0 == 0) by (nonlinear_arith);
    } else {
        lemma_product_zero(shape.drop_last(), i);
        assert(shape_product(shape) == shape_product(shape.drop_last()) * (shape.last() as nat));
        assert(0 * (shape.last() as nat) == 0) by (nonlinear_arith);
    }
}

/// Extending a prefix by one extent multiplies its element count.
pub proof fn lemma_product_take_step(shape: Seq<usize>, i: int)
    requires
        0 <= i < shape.len(),
    ensures
        shape_product(shape.take(i + 1)) == shape_product(shape.take(i)) * shape[i],
{
    assert(shape.take(i + 1).drop_last() =~= shape.take(i));
    assert(shape.take(i + 1).last() == shape[i]);
}

/// With every remaining extent positive, a prefix never counts more
/// elements than the whole shape.
pub proof fn lemma_product_prefix_bound(shape: Seq<usize>, i: int)
    requires
        0 <= i <= shape.len(),
        forall|k: int| i <= k < shape.len() ==> shape[k] >= 1,
    ensures
        shape_product(shape.take(i)) <= shape_product(shape),
    decreases shape.len() - i,
{
    if i == shape.len() {
        assert(shape.take(i) =~= shape);
    } else {
        lemma_product_take_step(shape, i);
        assert(shape_product(shape.take(i + 1)) == shape_product(shape.take(i)) * shape[i]);
        assert(shape_product(shape.take(i)) * shape[i] >= shape_product(shape.take(i)) * 1)
            by (nonlinear_arith)
            requires shape[i] >= 1;
        lemma_product_prefix_bound(shape, i + 1);
    }
}

/// The byte length of a tensor, or `None` when it does not fit the machine.
pub fn checked_byte_len(dtype: &Dtype, shape: &Vec<usize>) -> (r: Option<usize>)
    ensures
        match r {
            Some(n) => n as nat == byte_len(*dtype, shape@),
            None => byte_len(*dtype, shape@) > usize::MAX,
        },
{
    let n = shape.len();
    let mut i: usize = 0;
    // A zero extent makes the whole product zero, whatever the rest holds.
    while i < n
        invariant
            n == shape@.len(),
            i <= n,
            forall|k: int| 0 <= k < i ==> shape@[k] >= 1,
        decreases n - i,
    {
        if shape[i] == 0 {
            proof {
                lemma_product_zero(shape@, i as int);
            }
            return Some(0);
        }
        i += 1;
    }
    // All extents are positive: fold the product with overflow checks.
    let mut acc: usize = 1;
    let mut j: usize = 0;
    while j < n
        invariant
            n == shape@.len(),
            j <= n,
            forall|k: int| 0 <= k < n ==> shape@[k] >= 1,
            acc as nat == shape_product(shape@.take(j as int)),
        decreases n - j,
    {
        proof {
            lemma_product_take_step(shape@, j as int);
        }
        match acc.checked_mul(shape[j]) {
            Some(v) => {
                acc = v;
            },
            None => {
                proof {
                    lemma_product_prefix_bound(shape@, j as int + 1);
                    assert(shape_product(shape@) >= shape_product(shape@.take(j as int + 1)));
                    assert(byte_len(*dtype, shape@) >= shape_product(shape@) * 1)
                        by (nonlinear_arith)
                        requires dtype.width() >= 1, byte_len(*dtype, shape@) == shape_product(shape@) * dtype.width();
                }
                return None;
            },
        }
        j += 1;
    }
    proof {
        assert(shape@.take(n as int) =~= shape@);
    }
    let w = dtype.byte_width();
    match acc.checked_mul(w) {
        Some(v) => Some(v),
        None => {
            proof {
                assert(byte_len(*dtype, shape@) > usize::MAX);
            }
            None
        },
    }
}

} // verus!
