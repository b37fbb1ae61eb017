use vstd::prelude::*;
use crate::dtype::{parse_dtype_bytes, Dtype};
use crate::encoding::{BACKSLASH, COLON, COMMA, LBRACE, LBRACK, MINUS, QUOTE, RBRACE, RBRACK};
use crate::error::SafeTensorError;
use crate::model::{EntryModel, HeaderModel};
use crate::parsing::{
    digit_run, is_digit, lemma_digit_run_exact, lemma_digit_run_props, lemma_sp_num_le,
    lemma_sp_string_le, lemma_val_prefix_le, lemma_val_take_step, lit_meta_key, sp_dims,
    sp_dtype, sp_entries, sp_entry, sp_header, sp_lit, sp_meta_obj, sp_meta_pairs, sp_num,
    sp_offsets, sp_shape, sp_str_body, sp_string, sp_tensor_body, val_of, NumParse,
};

verus! {

/// Skipping twice is skipping once by the sum.
proof fn lemma_skip_skip(s: Seq<u8>, a: int, b: int)
    requires
        0 <= a,
        0 <= b,
        a + b <= s.len(),
    ensures
        s.skip(a).skip(b) == s.skip(a + b),
{
    assert(s.skip(a).skip(b) =~= s.skip(a + b));
}

/// Parses a canonical decimal number at `i`; `Err(true)` means the number
/// does not fit the machine, `Err(false)` that none stands there.
fn p_num(s: &[u8], i: usize) -> (r: Result<(usize, usize), bool>)
    requires
        i <= s@.len(),
    ensures
        match r {
            Ok((v, j)) => i <= j <= s@.len()
                && sp_num(s@.skip(i as int)) == NumParse::Value(v as nat, s@.skip(j as int)),
            Err(over) => sp_num(s@.skip(i as int)) == (if over {
                NumParse::Oversize
            } else {
                NumParse::Missing
            }),
        },
{
    let ghost u = s@.skip(i as int);
    let n = s.len();
    if i >= n {
        return Err(false);
    }
    let b0 = s[i];
    if b0 < 48 || b0 > 57 {
        assert(u[0] == s@[i as int]);
        return Err(false);
    }
    if b0 == 48 {
        if i + 1 < n && 48 <= s[i + 1] && s[i + 1] <= 57 {
            // A leading zero: not canonical.
            proof {
                assert(u.skip(1)[0] == s@[i + 1]);
                lemma_digit_run_props(u.skip(1));
                assert(digit_run(u) >= 2);
            }
            return Err(false);
        }
        proof {
            assert(forall|m: int| 0 <= m < 1 ==> is_digit(u[m]));
            if 1 < u.len() {
                assert(u[1] == s@[i + 1]);
            }
            lemma_digit_run_exact(u, 1);
            assert(u.take(1).drop_last() =~= Seq::<u8>::empty());
            assert(u.take(1).last() == u[0]);
            assert(u[0] == s@[i as int]);
            assert(u[0] == 48);
            assert(val_of(Seq::<u8>::empty()) == 0);
            assert(val_of(u.take(1)) == 0);
            lemma_skip_skip(s@, i as int, 1);
        }
        return Ok((0, i + 1));
    }
    let mut acc: usize = 0;
    let mut j: usize = i;
    loop
        invariant
            i <= j <= n,
            i < n,
            n == s@.len(),
            u == s@.skip(i as int),
            s@[i as int] == b0,
            48 < b0 <= 57,
            forall|m: int| i <= m < j ==> is_digit(s@[m]),
            forall|m: int| 0 <= m < j - i ==> is_digit(u[m]),
            acc as int == val_of(u.take(j - i)),
        ensures
            i <= j <= n,
            forall|m: int| 0 <= m < j - i ==> is_digit(u[m]),
            acc as int == val_of(u.take(j - i)),
            j == n || !is_digit(s@[j as int]),
        decreases n - j,
    {
        if j >= n {
            break;
        }
        let c = s[j];
        if c < 48 || c > 57 {
            break;
        }
        let d = (c - 48) as usize;
        proof {
            assert(u[j - i] == s@[j as int]);
            lemma_val_take_step(u, j - i);
        }
        let next = match acc.checked_mul(10) {
            Some(a10) => a10.checked_add(d),
            None => None,
        };
        match next {
            Some(v) => {
                acc = v;
            },
            None => {
                // The run's value has already outgrown the machine; the
                // full run can only be at least as large.
                proof {
                    assert(val_of(u.take(j - i + 1)) > usize::MAX);
                    lemma_digit_run_props(u);
                    let k = digit_run(u);
                    if k < j - i + 1 {
                        assert(is_digit(u[k]));
                        assert(false);
                    }
                    let w = u.take(k);
                    assert(forall|m: int| 0 <= m < w.len() ==> is_digit(#[trigger] w[m]));
                    lemma_val_prefix_le(w, j - i + 1, k);
                    assert(w.take(j - i + 1) =~= u.take(j - i + 1));
                    assert(w.take(k) =~= u.take(k));
                    assert(val_of(u.take(k)) > usize::MAX);
                    assert(u[0] == s@[i as int]);
                }
                return Err(true);
            },
        }
        proof {
            assert(u[j - i] == s@[j as int]);
        }
        j += 1;
    }
    proof {
        if (j - i) < u.len() {
            assert(u[j - i] == s@[j as int]);
        }
        lemma_digit_run_exact(u, j - i);
        assert(u[0] == s@[i as int]);
        assert(digit_run(u) >= 1);
        lemma_skip_skip(s@, i as int, j - i);
    }
    Ok((acc, j))
}

/// Matches the literal `lit` at `i`.
fn p_lit(s: &[u8], i: usize, lit: &[u8]) -> (r: Result<usize, ()>)
    requires
        i <= s@.len(),
    ensures
        match r {
            Ok(j) => i <= j <= s@.len()
                && sp_lit(s@.skip(i as int), lit@) == Ok::<Seq<u8>, ()>(s@.skip(j as int)),
            Err(_) => sp_lit(s@.skip(i as int), lit@) is Err,
        },
{
    let ghost u = s@.skip(i as int);
    let n = s.len();
    let l = lit.len();
    if n - i < l {
        return Err(());
    }
    let mut m: usize = 0;
    while m < l
        invariant
            i <= s@.len(),
            u == s@.skip(i as int),
            n == s@.len(),
            l == lit@.len(),
            l <= n - i,
            m <= l,
            forall|k: int| 0 <= k < m ==> u[k] == lit@[k],
        decreases l - m,
    {
        if s[i + m] != lit[m] {
            proof {
                assert(u[m as int] == s@[i + m]);
                assert(u.take(l as int)[m as int] == u[m as int]);
                assert(u.take(l as int) != lit@);
            }
            return Err(());
        }
        proof {
            assert(u[m as int] == s@[i + m]);
        }
        m += 1;
    }
    proof {
        assert(u.take(l as int) =~= lit@);
        lemma_skip_skip(s@, i as int, l as int);
    }
    Ok(i + l)
}

/// Parses a quoted string at `i`, returning its unescaped bytes.
fn p_string(s: &[u8], i: usize) -> (r: Result<(Vec<u8>, usize), ()>)
    requires
        i <= s@.len(),
    ensures
        match r {
            Ok((v, j)) => i < j <= s@.len()
                && sp_string(s@.skip(i as int)) == Ok::<(Seq<u8>, Seq<u8>), ()>((
                    v@,
                    s@.skip(j as int),
                )),
            Err(_) => sp_string(s@.skip(i as int)) is Err,
        },
{
    let n = s.len();
    if i >= n || s[i] != QUOTE {
        proof {
            if i < n {
                assert(s@.skip(i as int)[0] == s@[i as int]);
            }
        }
        return Err(());
    }
    let ghost start = i + 1;
    proof {
        lemma_skip_skip(s@, i as int, 1);
        assert(s@.skip(i as int)[0] == s@[i as int]);
    }
    let mut acc: Vec<u8> = Vec::new();
    let mut cur: usize = i + 1;
    loop
        invariant
            i + 1 <= cur <= n,
            n == s@.len(),
            start == i + 1,
            sp_string(s@.skip(i as int)) == sp_str_body(s@.skip(start)),
            sp_str_body(s@.skip(start)) == (match sp_str_body(s@.skip(cur as int)) {
                Ok((t, rest)) => Ok::<(Seq<u8>, Seq<u8>), ()>((acc@ + t, rest)),
                Err(e) => Err(e),
            }),
        decreases n - cur,
    {
        if cur >= n {
            // No closing quote.
            return Err(());
        }
        let b = s[cur];
        proof {
            assert(s@.skip(cur as int)[0] == s@[cur as int]);
        }
        if b == QUOTE {
            proof {
                lemma_skip_skip(s@, cur as int, 1);
                assert(acc@ + Seq::<u8>::empty() =~= acc@);
            }
            return Ok((acc, cur + 1));
        }
        if b == BACKSLASH {
            if cur + 1 >= n {
                return Err(());
            }
            let e = s[cur + 1];
            proof {
                assert(s@.skip(cur as int)[1] == s@[cur + 1]);
            }
            if e == QUOTE || e == BACKSLASH {
                let ghost acc0 = acc@;
                acc.push(e);
                proof {
                    lemma_skip_skip(s@, cur as int, 2);
                    match sp_str_body(s@.skip(cur + 2)) {
                        Ok((t, rest)) => {
                            assert(acc@ + t =~= acc0 + (seq![s@[cur + 1]] + t));
                        },
                        Err(_) => {},
                    }
                }
                cur = cur + 2;
            } else {
                return Err(());
            }
        } else {
            let ghost acc0 = acc@;
            acc.push(b);
            proof {
                lemma_skip_skip(s@, cur as int, 1);
                match sp_str_body(s@.skip(cur + 1)) {
                    Ok((t, rest)) => {
                        assert(acc@ + t =~= acc0 + (seq![s@[cur as int]] + t));
                    },
                    Err(_) => {},
                }
            }
            cur = cur + 1;
        }
    }
}

/// True when `a` holds exactly the bytes of `pat`.
fn bytes_eq(a: &[u8], pat: &[u8]) -> (r: bool)
    ensures
        r == (a@ == pat@),
{
    if a.len() != pat.len() {
        return false;
    }
    let n = a.len();
    let mut i: usize = 0;
    while i < n
        invariant
            n == a@.len() == pat@.len(),
            i <= n,
            forall|k: int| 0 <= k < i ==> a@[k] == pat@[k],
        decreases n - i,
    {
        if a[i] != pat[i] {
            return false;
        }
        i += 1;
    }
    proof {
        assert(a@ =~= pat@);
    }
    true
}

/// Parses a quoted dtype name at `i`.
fn p_dtype(s: &[u8], i: usize) -> (r: Result<(Dtype, usize), SafeTensorError>)
    requires
        i <= s@.len(),
    ensures
        match r {
            Ok((d, j)) => i <= j <= s@.len()
                && sp_dtype(s@.skip(i as int)) == Ok::<(Dtype, Seq<u8>), SafeTensorError>((
                    d,
                    s@.skip(j as int),
                )),
            Err(e) => sp_dtype(s@.skip(i as int)) == Err::<(Dtype, Seq<u8>), SafeTensorError>(e),
        },
{
    match p_string(s, i) {
        Err(_) => Err(SafeTensorError::MalformedHeader),
        Ok((v, j)) => match parse_dtype_bytes(v.as_slice()) {
            Ok(d) => Ok((d, j)),
            Err(e) => Err(e),
        },
    }
}

/// Parses the shape extents after the opening bracket.
fn p_dims(s: &[u8], i: usize) -> (r: Result<(Vec<usize>, usize), SafeTensorError>)
    requires
        i <= s@.len(),
    ensures
        match r {
            Ok((dims, j)) => i <= j <= s@.len()
                && sp_dims(s@.skip(i as int)) == Ok::<(Seq<usize>, Seq<u8>), SafeTensorError>((
                    dims@,
                    s@.skip(j as int),
                )),
            Err(e) => sp_dims(s@.skip(i as int)) == Err::<(Seq<usize>, Seq<u8>), SafeTensorError>(
                e,
            ),
        },
    decreases s@.len() - i,
{
    let n = s.len();
    if i < n && s[i] == MINUS {
        proof {
            assert(s@.skip(i as int)[0] == s@[i as int]);
        }
        return Err(SafeTensorError::InvalidShape);
    }
    proof {
        if i < n {
            assert(s@.skip(i as int)[0] == s@[i as int]);
        }
    }
    match p_num(s, i) {
        Err(over) => {
            if over {
                Err(SafeTensorError::InvalidShape)
            } else {
                Err(SafeTensorError::MalformedHeader)
            }
        },
        Ok((v, j)) => {
            proof {
                lemma_sp_num_le(s@.skip(i as int));
                if j < n {
                    assert(s@.skip(j as int)[0] == s@[j as int]);
                }
            }
            if j >= n {
                return Err(SafeTensorError::MalformedHeader);
            }
            let c = s[j];
            if c == COMMA {
                proof {
                    lemma_skip_skip(s@, j as int, 1);
                }
                match p_dims(s, j + 1) {
                    Err(e) => Err(e),
                    Ok((mut dims, j2)) => {
                        let ghost tail = dims@;
                        dims.insert(0, v);
                        proof {
                            assert(dims@ =~= seq![v] + tail);
                        }
                        Ok((dims, j2))
                    },
                }
            } else if c == RBRACK {
                proof {
                    lemma_skip_skip(s@, j as int, 1);
                }
                let mut dims: Vec<usize> = Vec::new();
                dims.push(v);
                proof {
                    assert(dims@ =~= seq![v]);
                }
                Ok((dims, j + 1))
            } else {
                Err(SafeTensorError::MalformedHeader)
            }
        },
    }
}

/// Parses a bracketed shape list at `i`.
fn p_shape(s: &[u8], i: usize) -> (r: Result<(Vec<usize>, usize), SafeTensorError>)
    requires
        i <= s@.len(),
    ensures
        match r {
            Ok((dims, j)) => i <= j <= s@.len()
                && sp_shape(s@.skip(i as int)) == Ok::<(Seq<usize>, Seq<u8>), SafeTensorError>((
                    dims@,
                    s@.skip(j as int),
                )),
            Err(e) => sp_shape(s@.skip(i as int)) == Err::<(Seq<usize>, Seq<u8>), SafeTensorError>(
                e,
            ),
        },
{
    let n = s.len();
    if i >= n || s[i] != LBRACK {
        proof {
            if i < n {
                assert(s@.skip(i as int)[0] == s@[i as int]);
            }
        }
        return Err(SafeTensorError::MalformedHeader);
    }
    proof {
        assert(s@.skip(i as int)[0] == s@[i as int]);
        lemma_skip_skip(s@, i as int, 1);
        if i + 1 < n {
            assert(s@.skip(i + 1)[0] == s@[i + 1]);
        }
    }
    if i + 1 < n && s[i + 1] == RBRACK {
        let dims: Vec<usize> = Vec::new();
        proof {
            lemma_skip_skip(s@, i + 1, 1);
            assert(dims@ =~= Seq::<usize>::empty());
        }
        return Ok((dims, i + 2));
    }
    p_dims(s, i + 1)
}

/// Parses `[start,end]` at `i`.
fn p_offsets(s: &[u8], i: usize) -> (r: Result<((usize, usize), usize), SafeTensorError>)
    requires
        i <= s@.len(),
    ensures
        match r {
            Ok(((a, b), j)) => i <= j <= s@.len()
                && sp_offsets(s@.skip(i as int)) == Ok::<((nat, nat), Seq<u8>), SafeTensorError>((
                    (a as nat, b as nat),
                    s@.skip(j as int),
                )),
            Err(e) => sp_offsets(s@.skip(i as int)) == Err::<((nat, nat), Seq<u8>), SafeTensorError>(
                e,
            ),
        },
{
    let n = s.len();
    if i >= n || s[i] != LBRACK {
        proof {
            if i < n {
                assert(s@.skip(i as int)[0] == s@[i as int]);
            }
        }
        return Err(SafeTensorError::MalformedHeader);
    }
    proof {
        assert(s@.skip(i as int)[0] == s@[i as int]);
        lemma_skip_skip(s@, i as int, 1);
        if i + 1 < n {
            assert(s@.skip(i + 1)[0] == s@[i + 1]);
        }
    }
    if i + 1 < n && s[i + 1] == MINUS {
        return Err(SafeTensorError::InvalidOffsets);
    }
    match p_num(s, i + 1) {
        Err(over) => {
            if over {
                Err(SafeTensorError::InvalidOffsets)
            } else {
                Err(SafeTensorError::MalformedHeader)
            }
        },
        Ok((a, j1)) => {
            proof {
                if j1 < n {
                    assert(s@.skip(j1 as int)[0] == s@[j1 as int]);
                }
            }
            if j1 >= n || s[j1] != COMMA {
                return Err(SafeTensorError::MalformedHeader);
            }
            proof {
                lemma_skip_skip(s@, j1 as int, 1);
                if j1 + 1 < n {
                    assert(s@.skip(j1 + 1)[0] == s@[j1 + 1]);
                }
            }
            if j1 + 1 < n && s[j1 + 1] == MINUS {
                return Err(SafeTensorError::InvalidOffsets);
            }
            match p_num(s, j1 + 1) {
                Err(over) => {
                    if over {
                        Err(SafeTensorError::InvalidOffsets)
                    } else {
                        Err(SafeTensorError::MalformedHeader)
                    }
                },
                Ok((b, j2)) => {
                    proof {
                        if j2 < n {
                            assert(s@.skip(j2 as int)[0] == s@[j2 as int]);
                        }
                    }
                    if j2 >= n || s[j2] != RBRACK {
                        return Err(SafeTensorError::MalformedHeader);
                    }
                    proof {
                        lemma_skip_skip(s@, j2 as int, 1);
                    }
                    Ok(((a, b), j2 + 1))
                },
            }
        },
    }
}

/// Parses one tensor's object at `i`.
fn p_tensor_body(s: &[u8], i: usize) -> (r: Result<((Dtype, Vec<usize>, usize, usize), usize), SafeTensorError>)
    requires
        i <= s@.len(),
    ensures
        match r {
            Ok(((d, shape, a, b), j)) => i <= j <= s@.len()
                && sp_tensor_body(s@.skip(i as int)) == Ok::<
                    ((Dtype, Seq<usize>, nat, nat), Seq<u8>),
                    SafeTensorError,
                >(((d, shape@, a as nat, b as nat), s@.skip(j as int))),
            Err(e) => sp_tensor_body(s@.skip(i as int)) == Err::<
                ((Dtype, Seq<usize>, nat, nat), Seq<u8>),
                SafeTensorError,
            >(e),
        },
{
    let n = s.len();
    if i >= n || s[i] != LBRACE {
        proof {
            if i < n {
                assert(s@.skip(i as int)[0] == s@[i as int]);
            }
        }
        return Err(SafeTensorError::MalformedHeader);
    }
    proof {
        assert(s@.skip(i as int)[0] == s@[i as int]);
        lemma_skip_skip(s@, i as int, 1);
    }
    let dkey: &[u8] = &[QUOTE, 100, 116, 121, 112, 101, QUOTE, COLON];
    proof {
        assert(dkey@ =~= crate::encoding::lit_dtype_key());
    }
    let j1 = match p_lit(s, i + 1, dkey) {
        Err(_) => {
            return Err(SafeTensorError::MalformedHeader);
        },
        Ok(j) => j,
    };
    let (dt, j2) = match p_dtype(s, j1) {
        Err(e) => {
            return Err(e);
        },
        Ok(v) => v,
    };
    proof {
        if j2 < n {
            assert(s@.skip(j2 as int)[0] == s@[j2 as int]);
        }
    }
    if j2 >= n || s[j2] != COMMA {
        return Err(SafeTensorError::MalformedHeader);
    }
    proof {
        lemma_skip_skip(s@, j2 as int, 1);
    }
    let skey: &[u8] = &[QUOTE, 115, 104, 97, 112, 101, QUOTE, COLON];
    proof {
        assert(skey@ =~= crate::encoding::lit_shape_key());
    }
    let j3 = match p_lit(s, j2 + 1, skey) {
        Err(_) => {
            return Err(SafeTensorError::MalformedHeader);
        },
        Ok(j) => j,
    };
    let (shape, j4) = match p_shape(s, j3) {
        Err(e) => {
            return Err(e);
        },
        Ok(v) => v,
    };
    proof {
        if j4 < n {
            assert(s@.skip(j4 as int)[0] == s@[j4 as int]);
        }
    }
    if j4 >= n || s[j4] != COMMA {
        return Err(SafeTensorError::MalformedHeader);
    }
    proof {
        lemma_skip_skip(s@, j4 as int, 1);
    }
    let okey: &[u8] = &[QUOTE, 100, 97, 116, 97, 95, 111, 102, 102, 115, 101, 116, 115, QUOTE, COLON];
    proof {
        assert(okey@ =~= crate::encoding::lit_offsets_key());
    }
    let j5 = match p_lit(s, j4 + 1, okey) {
        Err(_) => {
            return Err(SafeTensorError::MalformedHeader);
        },
        Ok(j) => j,
    };
    let ((a, b), j6) = match p_offsets(s, j5) {
        Err(e) => {
            return Err(e);
        },
        Ok(v) => v,
    };
    proof {
        if j6 < n {
            assert(s@.skip(j6 as int)[0] == s@[j6 as int]);
        }
    }
    if j6 >= n || s[j6] != RBRACE {
        return Err(SafeTensorError::MalformedHeader);
    }
    proof {
        lemma_skip_skip(s@, j6 as int, 1);
    }
    Ok(((dt, shape, a, b), j6 + 1))
}

/// One decoded header entry, before validation: the name as raw bytes, the
/// dtype, the shape, and the declared byte range.
pub struct RawEntry {
    /// The tensor's name, as the byte run that stood in the header.
    pub name: Vec<u8>,
    /// The element type.
    pub dtype: Dtype,
    /// One extent per dimension.
    pub shape: Vec<usize>,
    /// Where the range starts, relative to the data section.
    pub start: usize,
    /// Where the range ends (exclusive).
    pub end: usize,
}

impl View for RawEntry {
    type V = EntryModel;

    open spec fn view(&self) -> EntryModel {
        EntryModel {
            name: self.name@,
            dtype: self.dtype,
            shape: self.shape@,
            start: self.start as nat,
            end: self.end as nat,
        }
    }
}

/// A decoded header, before validation.
pub struct RawHeader {
    /// The tensor entries in header order.
    pub entries: Vec<RawEntry>,
    /// The metadata pairs, if the block was present.
    pub metadata: Option<Vec<(Vec<u8>, Vec<u8>)>>,
}

impl View for RawHeader {
    type V = HeaderModel;

    open spec fn view(&self) -> HeaderModel {
        HeaderModel {
            entries: Seq::new(self.entries@.len(), |k: int| self.entries@[k]@),
            metadata: match self.metadata {
                Some(m) => Some(Seq::new(m@.len(), |k: int| (m@[k].0@, m@[k].1@))),
                None => None,
            },
        }
    }
}

/// Parses one tensor entry (name, colon, object) at `i`.
fn p_entry(s: &[u8], i: usize) -> (r: Result<(RawEntry, usize), SafeTensorError>)
    requires
        i <= s@.len(),
    ensures
        match r {
            Ok((e, j)) => i <= j <= s@.len()
                && sp_entry(s@.skip(i as int)) == Ok::<(EntryModel, Seq<u8>), SafeTensorError>((
                    e@,
                    s@.skip(j as int),
                )),
            Err(e) => sp_entry(s@.skip(i as int)) == Err::<(EntryModel, Seq<u8>), SafeTensorError>(
                e,
            ),
        },
{
    let n = s.len();
    let (name, j1) = match p_string(s, i) {
        Err(_) => {
            return Err(SafeTensorError::MalformedHeader);
        },
        Ok(v) => v,
    };
    let reserved: &[u8] = &[95, 95, 109, 101, 116, 97, 100, 97, 116, 97, 95, 95];
    proof {
        assert(reserved@ =~= crate::encoding::reserved_key_bytes());
    }
    if bytes_eq(name.as_slice(), reserved) {
        return Err(SafeTensorError::MalformedHeader);
    }
    proof {
        if j1 < n {
            assert(s@.skip(j1 as int)[0] == s@[j1 as int]);
        }
    }
    if j1 >= n || s[j1] != COLON {
        return Err(SafeTensorError::MalformedHeader);
    }
    proof {
        lemma_skip_skip(s@, j1 as int, 1);
    }
    match p_tensor_body(s, j1 + 1) {
        Err(e) => Err(e),
        Ok(((dt, shape, a, b), j2)) => {
            let e = RawEntry { name, dtype: dt, shape, start: a, end: b };
            proof {
                assert(e@ =~= (match sp_entry(s@.skip(i as int)) {
                    Ok((em, _)) => em,
                    Err(_) => e@,
                }));
            }
            Ok((e, j2))
        },
    }
}

/// Parses one or more comma-separated tensor entries at `i`.
fn p_entries(s: &[u8], i: usize) -> (r: Result<(Vec<RawEntry>, usize), SafeTensorError>)
    requires
        i <= s@.len(),
    ensures
        match r {
            Ok((es, j)) => i <= j <= s@.len()
                && sp_entries(s@.skip(i as int)) == Ok::<(Seq<EntryModel>, Seq<u8>), SafeTensorError>((
                    Seq::new(es@.len(), |k: int| es@[k]@),
                    s@.skip(j as int),
                )),
            Err(e) => sp_entries(s@.skip(i as int)) == Err::<
                (Seq<EntryModel>, Seq<u8>),
                SafeTensorError,
            >(e),
        },
    decreases s@.len() - i,
{
    let n = s.len();
    let (e1, j1) = match p_entry(s, i) {
        Err(e) => {
            return Err(e);
        },
        Ok(v) => v,
    };
    proof {
        crate::parsing::lemma_sp_entry_le(s@.skip(i as int));
        if j1 < n {
            assert(s@.skip(j1 as int)[0] == s@[j1 as int]);
        }
    }
    if j1 < n && s[j1] == COMMA {
        proof {
            lemma_skip_skip(s@, j1 as int, 1);
        }
        match p_entries(s, j1 + 1) {
            Err(e) => Err(e),
            Ok((mut es, j2)) => {
                let ghost tail = Seq::new(es@.len(), |k: int| es@[k]@);
                es.insert(0, e1);
                proof {
                    assert(Seq::new(es@.len(), |k: int| es@[k]@) =~= seq![es@[0]@] + tail);
                }
                Ok((es, j2))
            },
        }
    } else {
        let mut es: Vec<RawEntry> = Vec::new();
        es.push(e1);
        proof {
            assert(Seq::new(es@.len(), |k: int| es@[k]@) =~= seq![es@[0]@]);
        }
        Ok((es, j1))
    }
}

/// Parses one or more comma-separated metadata pairs at `i`.
fn p_meta_pairs(s: &[u8], i: usize) -> (r: Result<(Vec<(Vec<u8>, Vec<u8>)>, usize), SafeTensorError>)
    requires
        i <= s@.len(),
    ensures
        match r {
            Ok((ps, j)) => i <= j <= s@.len()
                && sp_meta_pairs(s@.skip(i as int)) == Ok::<
                    (Seq<(Seq<u8>, Seq<u8>)>, Seq<u8>),
                    SafeTensorError,
                >((Seq::new(ps@.len(), |k: int| (ps@[k].0@, ps@[k].1@)), s@.skip(j as int))),
            Err(e) => sp_meta_pairs(s@.skip(i as int)) == Err::<
                (Seq<(Seq<u8>, Seq<u8>)>, Seq<u8>),
                SafeTensorError,
            >(e),
        },
    decreases s@.len() - i,
{
    let n = s.len();
    let (k, j1) = match p_string(s, i) {
        Err(_) => {
            return Err(SafeTensorError::MalformedHeader);
        },
        Ok(v) => v,
    };
    proof {
        crate::parsing::lemma_sp_string_le(s@.skip(i as int));
        if j1 < n {
            assert(s@.skip(j1 as int)[0] == s@[j1 as int]);
        }
    }
    if j1 >= n || s[j1] != COLON {
        return Err(SafeTensorError::MalformedHeader);
    }
    proof {
        lemma_skip_skip(s@, j1 as int, 1);
    }
    let (v, j2) = match p_string(s, j1 + 1) {
        Err(_) => {
            return Err(SafeTensorError::MalformedHeader);
        },
        Ok(p) => p,
    };
    proof {
        crate::parsing::lemma_sp_string_le(s@.skip(j1 + 1));
        if j2 < n {
            assert(s@.skip(j2 as int)[0] == s@[j2 as int]);
        }
    }
    if j2 < n && s[j2] == COMMA {
        proof {
            lemma_skip_skip(s@, j2 as int, 1);
        }
        match p_meta_pairs(s, j2 + 1) {
            Err(e) => Err(e),
            Ok((mut ps, j3)) => {
                let ghost tail = Seq::new(ps@.len(), |m: int| (ps@[m].0@, ps@[m].1@));
                ps.insert(0, (k, v));
                proof {
                    assert(Seq::new(ps@.len(), |m: int| (ps@[m].0@, ps@[m].1@)) =~= seq![
                        (ps@[0].0@, ps@[0].1@),
                    ] + tail);
                }
                Ok((ps, j3))
            },
        }
    } else {
        let mut ps: Vec<(Vec<u8>, Vec<u8>)> = Vec::new();
        ps.push((k, v));
        proof {
            assert(Seq::new(ps@.len(), |m: int| (ps@[m].0@, ps@[m].1@)) =~= seq![
                (ps@[0].0@, ps@[0].1@),
            ]);
        }
        Ok((ps, j2))
    }
}

/// Parses the metadata object at `i`.
fn p_meta_obj(s: &[u8], i: usize) -> (r: Result<(Vec<(Vec<u8>, Vec<u8>)>, usize), SafeTensorError>)
    requires
        i <= s@.len(),
    ensures
        match r {
            Ok((ps, j)) => i <= j <= s@.len()
                && sp_meta_obj(s@.skip(i as int)) == Ok::<
                    (Seq<(Seq<u8>, Seq<u8>)>, Seq<u8>),
                    SafeTensorError,
                >((Seq::new(ps@.len(), |k: int| (ps@[k].0@, ps@[k].1@)), s@.skip(j as int))),
            Err(e) => sp_meta_obj(s@.skip(i as int)) == Err::<
                (Seq<(Seq<u8>, Seq<u8>)>, Seq<u8>),
                SafeTensorError,
            >(e),
        },
{
    let n = s.len();
    if i >= n || s[i] != LBRACE {
        proof {
            if i < n {
                assert(s@.skip(i as int)[0] == s@[i as int]);
            }
        }
        return Err(SafeTensorError::MalformedHeader);
    }
    proof {
        assert(s@.skip(i as int)[0] == s@[i as int]);
        lemma_skip_skip(s@, i as int, 1);
        if i + 1 < n {
            assert(s@.skip(i + 1)[0] == s@[i + 1]);
        }
    }
    if i + 1 < n && s[i + 1] == RBRACE {
        let ps: Vec<(Vec<u8>, Vec<u8>)> = Vec::new();
        proof {
            lemma_skip_skip(s@, i + 1, 1);
            assert(Seq::new(ps@.len(), |k: int| (ps@[k].0@, ps@[k].1@)) =~= Seq::<
                (Seq<u8>, Seq<u8>),
            >::empty());
        }
        return Ok((ps, i + 2));
    }
    match p_meta_pairs(s, i + 1) {
        Err(e) => Err(e),
        Ok((ps, j)) => {
            proof {
                if j < n {
                    assert(s@.skip(j as int)[0] == s@[j as int]);
                }
            }
            if j < n && s[j] == RBRACE {
                proof {
                    lemma_skip_skip(s@, j as int, 1);
                }
                Ok((ps, j + 1))
            } else {
                Err(SafeTensorError::MalformedHeader)
            }
        },
    }
}

/// Parses a whole header document; the buffer must hold exactly the header.
pub fn p_header(s: &[u8]) -> (r: Result<RawHeader, SafeTensorError>)
    ensures
        match r {
            Ok(h) => sp_header(s@) == Ok::<HeaderModel, SafeTensorError>(h@),
            Err(e) => sp_header(s@) == Err::<HeaderModel, SafeTensorError>(e),
        },
{
    let n = s.len();
    proof {
        assert(s@.skip(0) =~= s@);
    }
    if n == 0 || s[0] != LBRACE {
        return Err(SafeTensorError::MalformedHeader);
    }
    proof {
        lemma_skip_skip(s@, 0, 1);
        if 1 < n {
            assert(s@.skip(1)[0] == s@[1]);
        }
    }
    if n >= 2 && s[1] == RBRACE {
        if n == 2 {
            let h = RawHeader { entries: Vec::new(), metadata: None };
            proof {
                assert(h@ =~= (HeaderModel { entries: Seq::empty(), metadata: None }));
            }
            return Ok(h);
        } else {
            return Err(SafeTensorError::MalformedHeader);
        }
    }
    let mkey: &[u8] = &[QUOTE, 95, 95, 109, 101, 116, 97, 100, 97, 116, 97, 95, 95, QUOTE, COLON];
    proof {
        assert(mkey@ =~= lit_meta_key());
    }
    match p_lit(s, 1, mkey) {
        Ok(j) => {
            let (meta, j2) = match p_meta_obj(s, j) {
                Err(e) => {
                    return Err(e);
                },
                Ok(v) => v,
            };
            proof {
                if j2 < n {
                    assert(s@.skip(j2 as int)[0] == s@[j2 as int]);
                }
            }
            if j2 == n - 1 && s[j2] == RBRACE {
                let h = RawHeader { entries: Vec::new(), metadata: Some(meta) };
                proof {
                    assert(s@.skip(j2 as int).len() == 1);
                    assert(h@ =~= (match sp_header(s@) {
                        Ok(hm) => hm,
                        Err(_) => h@,
                    }));
                }
                return Ok(h);
            }
            if j2 < n && s[j2] == COMMA {
                proof {
                    lemma_skip_skip(s@, j2 as int, 1);
                }
                match p_entries(s, j2 + 1) {
                    Err(e) => Err(e),
                    Ok((es, j3)) => {
                        proof {
                            if j3 < n {
                                assert(s@.skip(j3 as int)[0] == s@[j3 as int]);
                            }
                        }
                        if j3 == n - 1 && s[j3] == RBRACE {
                            let h = RawHeader { entries: es, metadata: Some(meta) };
                            proof {
                                assert(s@.skip(j3 as int).len() == 1);
                                assert(h@ =~= (match sp_header(s@) {
                                    Ok(hm) => hm,
                                    Err(_) => h@,
                                }));
                            }
                            Ok(h)
                        } else {
                            Err(SafeTensorError::MalformedHeader)
                        }
                    },
                }
            } else {
                Err(SafeTensorError::MalformedHeader)
            }
        },
        Err(_) => {
            match p_entries(s, 1) {
                Err(e) => Err(e),
                Ok((es, j)) => {
                    proof {
                        if j < n {
                            assert(s@.skip(j as int)[0] == s@[j as int]);
                        }
                    }
                    if j == n - 1 && s[j] == RBRACE {
                        let h = RawHeader { entries: es, metadata: None };
                        proof {
                            assert(s@.skip(j as int).len() == 1);
                            assert(h@ =~= (match sp_header(s@) {
                                Ok(hm) => hm,
                                Err(_) => h@,
                            }));
                        }
                        Ok(h)
                    } else {
                        Err(SafeTensorError::MalformedHeader)
                    }
                },
            }
        },
    }
}


/// True when two raw names hold the same bytes.
pub fn names_equal(a: &Vec<u8>, b: &Vec<u8>) -> (r: bool)
    ensures
        r == (a@ == b@),
{
    bytes_eq(a.as_slice(), b.as_slice())
}

} // verus!
