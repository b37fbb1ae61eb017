use vstd::prelude::*;
use crate::error::SafeTensorError;

verus! {

/// The closed set of element types a tensor may hold.
///
/// Each variant has a fixed byte width and a canonical name; both are part
/// of the wire format and never change for an existing variant.
#[derive(Clone, Copy, Debug, PartialEq, Eq, Structural)]
pub enum Dtype {
    /// One-byte boolean.
    Bool,
    /// Unsigned 8-bit integer.
    U8,
    /// Signed 8-bit integer.
    I8,
    /// Unsigned 16-bit integer.
    U16,
    /// Signed 16-bit integer.
    I16,
    /// 16-bit float.
    F16,
    /// Unsigned 32-bit integer.
    U32,
    /// Signed 32-bit integer.
    I32,
    /// 32-bit float.
    F32,
    /// Unsigned 64-bit integer.
    U64,
    /// Signed 64-bit integer.
    I64,
    /// 64-bit float.
    F64,
}

impl Dtype {
    /// The byte width of one element of this type.
    pub open spec fn width(self) -> nat {
        match self {
            Dtype::Bool => 1,
            Dtype::U8 => 1,
            Dtype::I8 => 1,
            Dtype::U16 => 2,
            Dtype::I16 => 2,
            Dtype::F16 => 2,
            Dtype::U32 => 4,
            Dtype::I32 => 4,
            Dtype::F32 => 4,
            Dtype::U64 => 8,
            Dtype::I64 => 8,
            Dtype::F64 => 8,
        }
    }

    /// The canonical name of this type, as the byte run that stands in a
    /// header document.
    pub open spec fn name_bytes(self) -> Seq<u8> {
        match self {
            Dtype::Bool => seq![66u8, 79, 79, 76],
            Dtype::U8 => seq![85, 56],
            Dtype::I8 => seq![73, 56],
            Dtype::U16 => seq![85, 49, 54],
            Dtype::I16 => seq![73, 49, 54],
            Dtype::F16 => seq![70, 49, 54],
            Dtype::U32 => seq![85, 51, 50],
            Dtype::I32 => seq![73, 51, 50],
            Dtype::F32 => seq![70, 51, 50],
            Dtype::U64 => seq![85, 54, 52],
            Dtype::I64 => seq![73, 54, 52],
            Dtype::F64 => seq![70, 54, 52],
        }
    }

    /// Executable byte width, equal to [`Dtype::width`].
    pub fn byte_width(&self) -> (r: usize)
        ensures
            r as nat == self.width(),
            1 <= r <= 8,
    {
        match self {
            Dtype::Bool => 1,
            Dtype::U8 => 1,
            Dtype::I8 => 1,
            Dtype::U16 => 2,
            Dtype::I16 => 2,
            Dtype::F16 => 2,
            Dtype::U32 => 4,
            Dtype::I32 => 4,
            Dtype::F32 => 4,
            Dtype::U64 => 8,
            Dtype::I64 => 8,
            Dtype::F64 => 8,
        }
    }

    /// Appends the canonical name of this type to `out`.
    pub fn push_name(&self, out: &mut Vec<u8>)
        ensures
            final(out)@ == old(out)@ + self.name_bytes(),
    {
        match self {
            Dtype::Bool => {
                out.push(66u8);
                out.push(79);
                out.push(79);
                out.push(76);
            },
            Dtype::U8 => {
                out.push(85);
                out.push(56);
            },
            Dtype::I8 => {
                out.push(73);
                out.push(56);
            },
            Dtype::U16 => {
                out.push(85);
                out.push(49);
                out.push(54);
            },
            Dtype::I16 => {
                out.push(73);
                out.push(49);
                out.push(54);
            },
            Dtype::F16 => {
                out.push(70);
                out.push(49);
                out.push(54);
            },
            Dtype::U32 => {
                out.push(85);
                out.push(51);
                out.push(50);
            },
            Dtype::I32 => {
                out.push(73);
                out.push(51);
                out.push(50);
            },
            Dtype::F32 => {
                out.push(70);
                out.push(51);
                out.push(50);
            },
            Dtype::U64 => {
                out.push(85);
                out.push(54);
                out.push(52);
            },
            Dtype::I64 => {
                out.push(73);
                out.push(54);
                out.push(52);
            },
            Dtype::F64 => {
                out.push(70);
                out.push(54);
                out.push(52);
            },
        }
        proof {
            assert(out@ =~= old(out)@ + self.name_bytes());
        }
    }
}

/// The dtype whose canonical name is the byte run `v`, if there is one.
pub open spec fn spec_parse_dtype(v: Seq<u8>) -> Option<Dtype> {
    if v == Dtype::Bool.name_bytes() {
        Some(Dtype::Bool)
    } else if v == Dtype::U8.name_bytes() {
        Some(Dtype::U8)
    } else if v == Dtype::I8.name_bytes() {
        Some(Dtype::I8)
    } else if v == Dtype::U16.name_bytes() {
        Some(Dtype::U16)
    } else if v == Dtype::I16.name_bytes() {
        Some(Dtype::I16)
    } else if v == Dtype::F16.name_bytes() {
        Some(Dtype::F16)
    } else if v == Dtype::U32.name_bytes() {
        Some(Dtype::U32)
    } else if v == Dtype::I32.name_bytes() {
        Some(Dtype::I32)
    } else if v == Dtype::F32.name_bytes() {
        Some(Dtype::F32)
    } else if v == Dtype::U64.name_bytes() {
        Some(Dtype::U64)
    } else if v == Dtype::I64.name_bytes() {
        Some(Dtype::I64)
    } else if v == Dtype::F64.name_bytes() {
        Some(Dtype::F64)
    } else {
        None
    }
}

/// True when `v` differs from `pat` (length or some position).
fn bytes_differ(v: &[u8], pat: &[u8]) -> (r: bool)
    ensures
        r == (v@ != pat@),
{
    if v.len() != pat.len() {
        assert(v@ != pat@);
        return true;
    }
    let n = v.len();
    let mut i: usize = 0;
    while i < n
        invariant
            n == v@.len() == pat@.len(),
            i <= n,
            forall|k: int| 0 <= k < i ==> v@[k] == pat@[k],
        decreases n - i,
    {
        if v[i] != pat[i] {
            return true;
        }
        i += 1;
    }
    proof {
        assert(v@ =~= pat@);
    }
    false
}

/// Resolves a byte run to a dtype, as the decoder meets it in a header.
pub fn parse_dtype_bytes(v: &[u8]) -> (r: Result<Dtype, SafeTensorError>)
    ensures
        r == (match spec_parse_dtype(v@) {
            Some(d) => Ok::<Dtype, SafeTensorError>(d),
            None => Err(SafeTensorError::UnsupportedDtype),
        }),
{
    if !bytes_differ(v, &[66u8, 79, 79, 76]) {
        Ok(Dtype::Bool)
    } else if !bytes_differ(v, &[85, 56]) {
        Ok(Dtype::U8)
    } else if !bytes_differ(v, &[73, 56]) {
        Ok(Dtype::I8)
    } else if !bytes_differ(v, &[85, 49, 54]) {
        Ok(Dtype::U16)
    } else if !bytes_differ(v, &[73, 49, 54]) {
        Ok(Dtype::I16)
    } else if !bytes_differ(v, &[70, 49, 54]) {
        Ok(Dtype::F16)
    } else if !bytes_differ(v, &[85, 51, 50]) {
        Ok(Dtype::U32)
    } else if !bytes_differ(v, &[73, 51, 50]) {
        Ok(Dtype::I32)
    } else if !bytes_differ(v, &[70, 51, 50]) {
        Ok(Dtype::F32)
    } else if !bytes_differ(v, &[85, 54, 52]) {
        Ok(Dtype::U64)
    } else if !bytes_differ(v, &[73, 54, 52]) {
        Ok(Dtype::I64)
    } else if !bytes_differ(v, &[70, 54, 52]) {
        Ok(Dtype::F64)
    } else {
        Err(SafeTensorError::UnsupportedDtype)
    }
}

/// Every dtype parses back from its own canonical name.
pub proof fn lemma_dtype_name_round_trip(d: Dtype)
    ensures
        spec_parse_dtype(d.name_bytes()) == Some(d),
{
    match d {
        Dtype::Bool => {},
        Dtype::U8 => {},
        Dtype::I8 => {},
        Dtype::U16 => {},
        Dtype::I16 => {},
        Dtype::F16 => {},
        Dtype::U32 => {},
        Dtype::I32 => {},
        Dtype::F32 => {},
        Dtype::U64 => {},
        Dtype::I64 => {},
        Dtype::F64 => {},
    }
}


/// The canonical name of each dtype, as characters; its UTF-8 bytes are
/// [`Dtype::name_bytes`] (see [`lemma_name_chars_utf8`]).
pub open spec fn name_chars(d: Dtype) -> Seq<char> {
    match d {
        Dtype::Bool => "BOOL"@,
        Dtype::U8 => "U8"@,
        Dtype::I8 => "I8"@,
        Dtype::U16 => "U16"@,
        Dtype::I16 => "I16"@,
        Dtype::F16 => "F16"@,
        Dtype::U32 => "U32"@,
        Dtype::I32 => "I32"@,
        Dtype::F32 => "F32"@,
        Dtype::U64 => "U64"@,
        Dtype::I64 => "I64"@,
        Dtype::F64 => "F64"@,
    }
}

/// Each canonical name's characters encode to its byte run.
pub proof fn lemma_name_chars_utf8(d: Dtype)
    ensures
        vstd::utf8::encode_utf8(name_chars(d)) == d.name_bytes(),
{
    reveal_strlit("BOOL");
    reveal_strlit("U8");
    reveal_strlit("I8");
    reveal_strlit("U16");
    reveal_strlit("I16");
    reveal_strlit("F16");
    reveal_strlit("U32");
    reveal_strlit("I32");
    reveal_strlit("F32");
    reveal_strlit("U64");
    reveal_strlit("I64");
    reveal_strlit("F64");
    let ck = name_chars(d);
    assert(vstd::utf8::is_ascii_chars(ck)) by {
        assert forall|i: int| 0 <= i < ck.len() implies '\0' <= #[trigger] ck[i] <= '\u{7f}' by {
        }
    }
    vstd::utf8::is_ascii_chars_encode_utf8(ck);
    assert(vstd::utf8::encode_utf8(ck) =~= d.name_bytes());
}

impl Dtype {
    /// The canonical name, the exact inverse of [`parse_dtype`].
    pub fn canonical_name(&self) -> (r: &'static str)
        ensures
            r@ == name_chars(*self),
            vstd::utf8::encode_utf8(r@) == self.name_bytes(),
    {
        proof {
            lemma_name_chars_utf8(*self);
        }
        match self {
            Dtype::Bool => "BOOL",
            Dtype::U8 => "U8",
            Dtype::I8 => "I8",
            Dtype::U16 => "U16",
            Dtype::I16 => "I16",
            Dtype::F16 => "F16",
            Dtype::U32 => "U32",
            Dtype::I32 => "I32",
            Dtype::F32 => "F32",
            Dtype::U64 => "U64",
            Dtype::I64 => "I64",
            Dtype::F64 => "F64",
        }
    }
}

/// Resolves a dtype name given as a string; fails on anything outside the
/// registered set.
pub fn parse_dtype(name: &str) -> (r: Result<Dtype, SafeTensorError>)
    ensures
        r == (match spec_parse_dtype(vstd::utf8::encode_utf8(name@)) {
            Some(d) => Ok::<Dtype, SafeTensorError>(d),
            None => Err(SafeTensorError::UnsupportedDtype),
        }),
        r matches Ok(d) ==> name@ == name_chars(d),
{
    let r = parse_dtype_bytes(name.as_bytes());
    proof {
        match spec_parse_dtype(vstd::utf8::encode_utf8(name@)) {
            Some(d) => {
                lemma_name_chars_utf8(d);
                vstd::utf8::encode_utf8_decode_utf8(name@);
                vstd::utf8::encode_utf8_decode_utf8(name_chars(d));
            },
            None => {},
        }
    }
    r
}

} // verus!
