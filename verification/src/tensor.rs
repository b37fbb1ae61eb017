use vstd::prelude::*;
use vstd::string::StringExecFns;
use crate::dtype::Dtype;
use crate::model::{byte_len, checked_byte_len, container_wf, reserved_key, tensor_wf, ContainerModel, TensorData};

verus! {

/// One named array's content: dtype, shape, and its raw bytes, owned.
///
/// A `Tensor` built through [`Tensor::new`] always satisfies [`tensor_wf`]:
/// its data is exactly `shape_product(shape) * width(dtype)` bytes long.
pub struct Tensor {
    /// The element type.
    pub dtype: Dtype,
    /// One extent per dimension.
    pub shape: Vec<usize>,
    /// The raw little-endian bytes, `byte_len(dtype, shape)` of them in a
    /// well-formed tensor.
    pub data: Vec<u8>,
}

impl View for Tensor {
    type V = TensorData;

    open spec fn view(&self) -> TensorData {
        TensorData { dtype: self.dtype, shape: self.shape@, data: self.data@ }
    }
}

impl Tensor {
    /// Builds a tensor, rejecting data whose length does not match the
    /// shape-implied byte length.
    pub fn new(data: Vec<u8>, dtype: Dtype, shape: Vec<usize>) -> (r: Option<Tensor>)
        ensures
            match r {
                Some(t) => t@ == (TensorData { dtype, shape: shape@, data: data@ })
                    && tensor_wf(t@),
                None => data@.len() != byte_len(dtype, shape@),
            },
    {
        let dl = data.len();
        match checked_byte_len(&dtype, &shape) {
            Some(n) => {
                if dl == n {
                    let t = Tensor { dtype, shape, data };
                    proof {
                        assert(t@ =~= (TensorData { dtype, shape: t.shape@, data: t.data@ }));
                    }
                    Some(t)
                } else {
                    None
                }
            },
            None => None,
        }
    }

    /// The element type.
    pub fn dtype(&self) -> (r: Dtype)
        ensures
            r == self@.dtype,
    {
        self.dtype
    }

    /// The shape, one extent per dimension.
    pub fn shape(&self) -> (r: &Vec<usize>)
        ensures
            r@ == self@.shape,
    {
        &self.shape
    }

    /// The raw bytes.
    pub fn data(&self) -> (r: &Vec<u8>)
        ensures
            r@ == self@.data,
    {
        &self.data
    }
}

/// A named set of tensors plus an optional string-to-string metadata block.
///
/// Names are unique, never the reserved metadata key, and insertion order
/// is kept: it decides the layout of the serialized data section.
pub struct Container {
    /// The tensors in insertion order; names are unique in a well-formed
    /// container.
    pub tensors: Vec<(String, Tensor)>,
    /// The optional free-form metadata block.
    pub metadata: Option<Vec<(String, String)>>,
}

impl View for Container {
    type V = ContainerModel;

    open spec fn view(&self) -> ContainerModel {
        ContainerModel {
            tensors: Seq::new(
                self.tensors@.len(),
                |i: int| (self.tensors@[i].0@, self.tensors@[i].1@),
            ),
            metadata: match self.metadata {
                Some(m) => Some(
                    Seq::new(m@.len(), |i: int| (m@[i].0@, m@[i].1@)),
                ),
                None => None,
            },
        }
    }
}

impl Container {
    /// An empty container: no tensors, no metadata block.
    pub fn new() -> (c: Container)
        ensures
            c@.tensors.len() == 0,
            c@.metadata is None,
            container_wf(c@),
    {
        Container { tensors: Vec::new(), metadata: None }
    }

    /// The number of tensors held.
    pub fn len(&self) -> (r: usize)
        ensures
            r == self@.tensors.len(),
    {
        self.tensors.len()
    }

    /// True when some tensor already carries this name.
    pub fn contains_name(&self, name: &String) -> (r: bool)
        ensures
            r == exists|i: int| 0 <= i < self@.tensors.len() && self@.tensors[i].0 == name@,
    {
        let n = self.tensors.len();
        let mut i: usize = 0;
        while i < n
            invariant
                n == self@.tensors.len(),
                i <= n,
                forall|k: int| 0 <= k < i ==> self@.tensors[k].0 != name@,
            decreases n - i,
        {
            if self.tensors[i].0 == *name {
                proof {
                    assert(self@.tensors[i as int].0 == name@);
                }
                return true;
            }
            i += 1;
        }
        false
    }

    /// Adds a tensor under a fresh, non-reserved name, keeping insertion
    /// order; returns false and changes nothing when the name is taken or
    /// reserved.
    pub fn insert(&mut self, name: String, tensor: Tensor) -> (r: bool)
        requires
            container_wf(old(self)@),
            tensor_wf(tensor@),
        ensures
            container_wf(final(self)@),
            ({
                let fresh = name@ != reserved_key()
                    && forall|i: int| 0 <= i < old(self)@.tensors.len()
                        ==> old(self)@.tensors[i].0 != name@;
                if fresh {
                    r && final(self)@.tensors == old(self)@.tensors.push((name@, tensor@))
                        && final(self)@.metadata == old(self)@.metadata
                } else {
                    !r && final(self)@ == old(self)@
                }
            }),
    {
        let reserved: String = "__metadata__".to_owned();
        if name == reserved {
            proof {
                assert(self@ =~= old(self)@);
            }
            return false;
        }
        if self.contains_name(&name) {
            proof {
                assert(self@ =~= old(self)@);
            }
            return false;
        }
        self.tensors.push((name, tensor));
        proof {
            assert(self@.tensors =~= old(self)@.tensors.push((name@, tensor@)));
            assert(self@.metadata == old(self)@.metadata);
        }
        true
    }

    /// Replaces the metadata block.
    pub fn set_metadata(&mut self, metadata: Vec<(String, String)>)
        ensures
            final(self)@.tensors == old(self)@.tensors,
            final(self)@.metadata == Some(
                Seq::new(metadata@.len(), |i: int| (metadata@[i].0@, metadata@[i].1@)),
            ),
    {
        self.metadata = Some(metadata);
        proof {
            assert(self@.tensors =~= old(self)@.tensors);
        }
    }

    /// The tensor stored under this name, if any.
    pub fn get(&self, name: &String) -> (r: Option<&Tensor>)
        ensures
            match r {
                Some(t) => exists|i: int|
                    0 <= i < self@.tensors.len() && self@.tensors[i] == (name@, t@),
                None => forall|i: int|
                    0 <= i < self@.tensors.len() ==> self@.tensors[i].0 != name@,
            },
    {
        let n = self.tensors.len();
        let mut i: usize = 0;
        while i < n
            invariant
                n == self@.tensors.len(),
                i <= n,
                forall|k: int| 0 <= k < i ==> self@.tensors[k].0 != name@,
            decreases n - i,
        {
            if self.tensors[i].0 == *name {
                proof {
                    assert(self@.tensors[i as int] == (name@, self.tensors@[i as int].1@));
                }
                return Some(&self.tensors[i].1);
            }
            i += 1;
        }
        None
    }

    /// The tensors in insertion order, by reference.
    pub fn entries(&self) -> (r: &Vec<(String, Tensor)>)
        ensures
            r@.len() == self@.tensors.len(),
            forall|i: int| 0 <= i < r@.len()
                ==> (r@[i].0@, r@[i].1@) == self@.tensors[i],
    {
        &self.tensors
    }

    /// The metadata block, if one was set.
    pub fn metadata(&self) -> (r: &Option<Vec<(String, String)>>)
        ensures
            match r {
                Some(m) => self@.metadata == Some(
                    Seq::new(m@.len(), |i: int| (m@[i].0@, m@[i].1@)),
                ),
                None => self@.metadata is None,
            },
    {
        &self.metadata
    }
}

} // verus!
