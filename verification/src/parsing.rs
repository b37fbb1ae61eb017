use vstd::prelude::*;
use crate::dtype::{spec_parse_dtype, Dtype};
use crate::encoding::{
    reserved_key_bytes, lit_dtype_key, lit_offsets_key, lit_shape_key, BACKSLASH, COLON, COMMA,
    LBRACE, LBRACK, MINUS, QUOTE, RBRACE, RBRACK,
};
use crate::error::SafeTensorError;
use crate::model::{EntryModel, HeaderModel};

verus! {

/// An ASCII decimal digit.
pub open spec fn is_digit(b: u8) -> bool {
    48 <= b <= 57
}

/// The length of the digit run at the front of `s`.
pub open spec fn digit_run(s: Seq<u8>) -> int
    decreases s.len(),
{
    if s.len() == 0 || !is_digit(s[0]) {
        0
    } else {
        1 + digit_run(s.skip(1))
    }
}

/// The value of a run of decimal digits.
pub open spec fn val_of(d: Seq<u8>) -> int
    decreases d.len(),
{
    if d.len() == 0 {
        0
    } else {
        val_of(d.drop_last()) * 10 + (d.last() - 48)
    }
}

/// What parsing a number at the front of `s` can come to.
pub ghost enum NumParse {
    /// A canonical number and what follows it.
    Value(nat, Seq<u8>),
    /// No canonical number stands at the front.
    Missing,
    /// The number does not fit the machine.
    Oversize,
}

/// Parses a canonical decimal number: a nonempty digit run with no leading
/// zero, valued within `usize`.
pub open spec fn sp_num(s: Seq<u8>) -> NumParse {
    let k = digit_run(s);
    if k == 0 {
        NumParse::Missing
    } else if s[0] == 48 && k > 1 {
        NumParse::Missing
    } else if val_of(s.take(k)) > usize::MAX {
        NumParse::Oversize
    } else {
        NumParse::Value(val_of(s.take(k)) as nat, s.skip(k))
    }
}

/// The digit run is within bounds, all digits, and ends at a non-digit.
pub proof fn lemma_digit_run_props(s: Seq<u8>)
    ensures
        0 <= digit_run(s) <= s.len(),
        forall|m: int| 0 <= m < digit_run(s) ==> is_digit(s[m]),
        digit_run(s) < s.len() ==> !is_digit(s[digit_run(s)]),
    decreases s.len(),
{
    if s.len() > 0 && is_digit(s[0]) {
        lemma_digit_run_props(s.skip(1));
        assert forall|m: int| 0 <= m < digit_run(s) implies is_digit(s[m]) by {
            if m > 0 {
                assert(s.skip(1)[m - 1] == s[m]);
            }
        }
        if digit_run(s) < s.len() {
            assert(s.skip(1)[digit_run(s) - 1] == s[digit_run(s)]);
        }
    }
}

/// A run of digits ending at a non-digit is the digit run.
pub proof fn lemma_digit_run_exact(s: Seq<u8>, k: int)
    requires
        0 <= k <= s.len(),
        forall|m: int| 0 <= m < k ==> is_digit(s[m]),
        k < s.len() ==> !is_digit(s[k]),
    ensures
        digit_run(s) == k,
    decreases s.len(),
{
    if k == 0 {
    } else {
        assert(is_digit(s[0]));
        assert forall|m: int| 0 <= m < k - 1 implies is_digit(s.skip(1)[m]) by {
            assert(s.skip(1)[m] == s[m + 1]);
        }
        if k - 1 < s.skip(1).len() {
            assert(s.skip(1)[k - 1] == s[k]);
        }
        lemma_digit_run_exact(s.skip(1), k - 1);
    }
}

/// The value of a run of digits is nonnegative.
pub proof fn lemma_val_nonneg(d: Seq<u8>)
    requires
        forall|m: int| 0 <= m < d.len() ==> is_digit(d[m]),
    ensures
        val_of(d) >= 0,
    decreases d.len(),
{
    if d.len() > 0 {
        assert(forall|m: int| 0 <= m < d.drop_last().len() ==> is_digit(#[trigger] d.drop_last()[m]));
        lemma_val_nonneg(d.drop_last());
    }
}

/// Extending a digit run by one digit.
pub proof fn lemma_val_take_step(d: Seq<u8>, m: int)
    requires
        0 <= m < d.len(),
    ensures
        val_of(d.take(m + 1)) == val_of(d.take(m)) * 10 + (d[m] - 48),
{
    assert(d.take(m + 1).drop_last() =~= d.take(m));
    assert(d.take(m + 1).last() == d[m]);
}

/// A longer digit run never has a smaller value (digits are nonnegative
/// after the run's first position in a canonical number).
pub proof fn lemma_val_prefix_le(d: Seq<u8>, a: int, b: int)
    requires
        0 <= a <= b <= d.len(),
        forall|m: int| 0 <= m < d.len() ==> is_digit(d[m]),
    ensures
        val_of(d.take(a)) <= val_of(d.take(b)),
    decreases b - a,
{
    if a < b {
        lemma_val_prefix_le(d, a, b - 1);
        lemma_val_take_step(d, b - 1);
        assert(forall|m: int| 0 <= m < d.take(b - 1).len() ==> is_digit(#[trigger] d.take(b - 1)[m]));
        lemma_val_nonneg(d.take(b - 1));
    }
}

/// Parsing a string body after the opening quote: bytes up to the closing
/// quote, with `\"` and `\\` unescaped; anything else after a backslash,
/// or a missing closing quote, is an error.
pub open spec fn sp_str_body(s: Seq<u8>) -> Result<(Seq<u8>, Seq<u8>), ()>
    decreases s.len(),
{
    if s.len() == 0 {
        Err(())
    } else if s[0] == QUOTE {
        Ok((Seq::empty(), s.skip(1)))
    } else if s[0] == BACKSLASH {
        if s.len() < 2 || (s[1] != QUOTE && s[1] != BACKSLASH) {
            Err(())
        } else {
            match sp_str_body(s.skip(2)) {
                Ok((t, rest)) => Ok((seq![s[1]] + t, rest)),
                Err(e) => Err(e),
            }
        }
    } else {
        match sp_str_body(s.skip(1)) {
            Ok((t, rest)) => Ok((seq![s[0]] + t, rest)),
            Err(e) => Err(e),
        }
    }
}

/// Parses a quoted string.
pub open spec fn sp_string(s: Seq<u8>) -> Result<(Seq<u8>, Seq<u8>), ()> {
    if s.len() == 0 || s[0] != QUOTE {
        Err(())
    } else {
        sp_str_body(s.skip(1))
    }
}

/// A parsed string body lies strictly inside what it was parsed from.
pub proof fn lemma_sp_str_body_le(s: Seq<u8>)
    ensures
        sp_str_body(s) matches Ok((t, rest)) ==> rest.len() < s.len(),
    decreases s.len(),
{
    if s.len() > 0 && s[0] != QUOTE {
        if s[0] == BACKSLASH {
            if s.len() >= 2 && (s[1] == QUOTE || s[1] == BACKSLASH) {
                lemma_sp_str_body_le(s.skip(2));
            }
        } else {
            lemma_sp_str_body_le(s.skip(1));
        }
    }
}

/// A parsed string lies strictly inside what it was parsed from.
pub proof fn lemma_sp_string_le(s: Seq<u8>)
    ensures
        sp_string(s) matches Ok((t, rest)) ==> rest.len() < s.len(),
{
    if s.len() > 0 && s[0] == QUOTE {
        lemma_sp_str_body_le(s.skip(1));
    }
}

/// What a parsed number leaves is strictly shorter.
pub proof fn lemma_sp_num_le(s: Seq<u8>)
    ensures
        sp_num(s) matches NumParse::Value(v, rest) ==> rest.len() < s.len(),
{
    lemma_digit_run_props(s);
}

/// Parses an expected literal byte run.
pub open spec fn sp_lit(s: Seq<u8>, lit: Seq<u8>) -> Result<Seq<u8>, ()> {
    if lit.len() <= s.len() && s.take(lit.len() as int) == lit {
        Ok(s.skip(lit.len() as int))
    } else {
        Err(())
    }
}

/// Parses a quoted dtype name.
pub open spec fn sp_dtype(s: Seq<u8>) -> Result<(Dtype, Seq<u8>), SafeTensorError> {
    match sp_string(s) {
        Err(_) => Err(SafeTensorError::MalformedHeader),
        Ok((b, rest)) => match spec_parse_dtype(b) {
            Some(d) => Ok((d, rest)),
            None => Err(SafeTensorError::UnsupportedDtype),
        },
    }
}

/// Parses the extents after `[`, one number then `,` or `]`, until the
/// closing bracket.
pub open spec fn sp_dims(s: Seq<u8>) -> Result<(Seq<usize>, Seq<u8>), SafeTensorError>
    decreases s.len(),
    via sp_dims_dec
{
    if s.len() > 0 && s[0] == MINUS {
        Err(SafeTensorError::InvalidShape)
    } else {
        match sp_num(s) {
            NumParse::Missing => Err(SafeTensorError::MalformedHeader),
            NumParse::Oversize => Err(SafeTensorError::InvalidShape),
            NumParse::Value(v, rest) => {
                if rest.len() == 0 {
                    Err(SafeTensorError::MalformedHeader)
                } else if rest[0] == COMMA {
                    match sp_dims(rest.skip(1)) {
                        Ok((dims, r2)) => Ok((seq![v as usize] + dims, r2)),
                        Err(e) => Err(e),
                    }
                } else if rest[0] == RBRACK {
                    Ok((seq![v as usize], rest.skip(1)))
                } else {
                    Err(SafeTensorError::MalformedHeader)
                }
            },
        }
    }
}

#[via_fn]
proof fn sp_dims_dec(s: Seq<u8>) {
    lemma_sp_num_le(s);
}

/// Parses a bracketed shape list.
pub open spec fn sp_shape(s: Seq<u8>) -> Result<(Seq<usize>, Seq<u8>), SafeTensorError> {
    if s.len() == 0 || s[0] != LBRACK {
        Err(SafeTensorError::MalformedHeader)
    } else {
        let t = s.skip(1);
        if t.len() > 0 && t[0] == RBRACK {
            Ok((Seq::empty(), t.skip(1)))
        } else {
            sp_dims(t)
        }
    }
}

/// Parses `[start,end]`.
pub open spec fn sp_offsets(s: Seq<u8>) -> Result<((nat, nat), Seq<u8>), SafeTensorError> {
    if s.len() == 0 || s[0] != LBRACK {
        Err(SafeTensorError::MalformedHeader)
    } else {
        let t = s.skip(1);
        if t.len() > 0 && t[0] == MINUS {
            Err(SafeTensorError::InvalidOffsets)
        } else {
            match sp_num(t) {
                NumParse::Missing => Err(SafeTensorError::MalformedHeader),
                NumParse::Oversize => Err(SafeTensorError::InvalidOffsets),
                NumParse::Value(a, r1) => {
                    if r1.len() == 0 || r1[0] != COMMA {
                        Err(SafeTensorError::MalformedHeader)
                    } else {
                        let t2 = r1.skip(1);
                        if t2.len() > 0 && t2[0] == MINUS {
                            Err(SafeTensorError::InvalidOffsets)
                        } else {
                            match sp_num(t2) {
                                NumParse::Missing => Err(SafeTensorError::MalformedHeader),
                                NumParse::Oversize => Err(SafeTensorError::InvalidOffsets),
                                NumParse::Value(b, r2) => {
                                    if r2.len() == 0 || r2[0] != RBRACK {
                                        Err(SafeTensorError::MalformedHeader)
                                    } else {
                                        Ok(((a, b), r2.skip(1)))
                                    }
                                },
                            }
                        }
                    }
                },
            }
        }
    }
}

/// Parses one tensor's object: fixed keys in fixed order, no padding.
pub open spec fn sp_tensor_body(s: Seq<u8>) -> Result<
    ((Dtype, Seq<usize>, nat, nat), Seq<u8>),
    SafeTensorError,
> {
    if s.len() == 0 || s[0] != LBRACE {
        Err(SafeTensorError::MalformedHeader)
    } else {
        match sp_lit(s.skip(1), lit_dtype_key()) {
            Err(_) => Err(SafeTensorError::MalformedHeader),
            Ok(r1) => match sp_dtype(r1) {
                Err(e) => Err(e),
                Ok((dt, r2)) => {
                    if r2.len() == 0 || r2[0] != COMMA {
                        Err(SafeTensorError::MalformedHeader)
                    } else {
                        match sp_lit(r2.skip(1), lit_shape_key()) {
                            Err(_) => Err(SafeTensorError::MalformedHeader),
                            Ok(r3) => match sp_shape(r3) {
                                Err(e) => Err(e),
                                Ok((shape, r4)) => {
                                    if r4.len() == 0 || r4[0] != COMMA {
                                        Err(SafeTensorError::MalformedHeader)
                                    } else {
                                        match sp_lit(r4.skip(1), lit_offsets_key()) {
                                            Err(_) => Err(SafeTensorError::MalformedHeader),
                                            Ok(r5) => match sp_offsets(r5) {
                                                Err(e) => Err(e),
                                                Ok(((a, b), r6)) => {
                                                    if r6.len() == 0 || r6[0] != RBRACE {
                                                        Err(SafeTensorError::MalformedHeader)
                                                    } else {
                                                        Ok(((dt, shape, a, b), r6.skip(1)))
                                                    }
                                                },
                                            },
                                        }
                                    }
                                },
                            },
                        }
                    }
                },
            },
        }
    }
}

/// A parsed shape list leaves less than it was given.
pub proof fn lemma_sp_dims_le(s: Seq<u8>)
    ensures
        sp_dims(s) matches Ok((dims, rest)) ==> rest.len() < s.len(),
    decreases s.len(),
{
    lemma_sp_num_le(s);
    if !(s.len() > 0 && s[0] == MINUS) {
        match sp_num(s) {
            NumParse::Value(v, r) => {
                if r.len() > 0 && r[0] == COMMA {
                    lemma_sp_dims_le(r.skip(1));
                }
            },
            _ => {},
        }
    }
}

/// A parsed tensor object leaves less than it was given.
pub proof fn lemma_sp_tensor_body_le(s: Seq<u8>)
    ensures
        sp_tensor_body(s) matches Ok((v, rest)) ==> rest.len() < s.len(),
{
    if s.len() > 0 && s[0] == LBRACE {
        match sp_lit(s.skip(1), lit_dtype_key()) {
            Ok(r1) => {
                lemma_sp_string_le(r1);
                match sp_dtype(r1) {
                    Ok((dt, r2)) => {
                        if r2.len() > 0 && r2[0] == COMMA {
                            match sp_lit(r2.skip(1), lit_shape_key()) {
                                Ok(r3) => {
                                    lemma_sp_dims_le(r3.skip(1));
                                    match sp_shape(r3) {
                                        Ok((shape, r4)) => {
                                            if r4.len() > 0 && r4[0] == COMMA {
                                                match sp_lit(r4.skip(1), lit_offsets_key()) {
                                                    Ok(r5) => {
                                                        if r5.len() > 0 && r5[0] == LBRACK {
                                                            lemma_sp_num_le(r5.skip(1));
                                                            match sp_num(r5.skip(1)) {
                                                                NumParse::Value(a, q1) => {
                                                                    if q1.len() > 0 && q1[0] == COMMA {
                                                                        lemma_sp_num_le(q1.skip(1));
                                                                    }
                                                                },
                                                                _ => {},
                                                            }
                                                        }
                                                    },
                                                    Err(_) => {},
                                                }
                                            }
                                        },
                                        Err(_) => {},
                                    }
                                },
                                Err(_) => {},
                            }
                        }
                    },
                    Err(_) => {},
                }
            },
            Err(_) => {},
        }
    }
}

/// One tensor entry: its quoted name (never the reserved key), a colon, and
/// the tensor object.
pub open spec fn sp_entry(s: Seq<u8>) -> Result<(EntryModel, Seq<u8>), SafeTensorError> {
    match sp_string(s) {
        Err(_) => Err(SafeTensorError::MalformedHeader),
        Ok((name, r)) => {
            if name == reserved_key_bytes() {
                Err(SafeTensorError::MalformedHeader)
            } else if r.len() == 0 || r[0] != COLON {
                Err(SafeTensorError::MalformedHeader)
            } else {
                match sp_tensor_body(r.skip(1)) {
                    Err(e) => Err(e),
                    Ok(((dt, shape, a, b), r2)) => Ok((
                        EntryModel { name, dtype: dt, shape, start: a, end: b },
                        r2,
                    )),
                }
            }
        },
    }
}

/// A parsed entry leaves less than it was given.
pub proof fn lemma_sp_entry_le(s: Seq<u8>)
    ensures
        sp_entry(s) matches Ok((e, rest)) ==> rest.len() < s.len(),
{
    lemma_sp_string_le(s);
    match sp_string(s) {
        Ok((name, r)) => {
            if name != reserved_key_bytes() && r.len() > 0 && r[0] == COLON {
                lemma_sp_tensor_body_le(r.skip(1));
            }
        },
        Err(_) => {},
    }
}

/// One or more tensor entries, comma-separated.
pub open spec fn sp_entries(s: Seq<u8>) -> Result<(Seq<EntryModel>, Seq<u8>), SafeTensorError>
    decreases s.len(),
    via sp_entries_dec
{
    match sp_entry(s) {
        Err(e) => Err(e),
        Ok((e1, r)) => {
            if r.len() > 0 && r[0] == COMMA {
                match sp_entries(r.skip(1)) {
                    Ok((list, r2)) => Ok((seq![e1] + list, r2)),
                    Err(e) => Err(e),
                }
            } else {
                Ok((seq![e1], r))
            }
        },
    }
}

#[via_fn]
proof fn sp_entries_dec(s: Seq<u8>) {
    lemma_sp_entry_le(s);
}

/// One or more metadata pairs, comma-separated.
pub open spec fn sp_meta_pairs(s: Seq<u8>) -> Result<
    (Seq<(Seq<u8>, Seq<u8>)>, Seq<u8>),
    SafeTensorError,
>
    decreases s.len(),
    via sp_meta_pairs_dec
{
    match sp_string(s) {
        Err(_) => Err(SafeTensorError::MalformedHeader),
        Ok((k, r)) => {
            if r.len() == 0 || r[0] != COLON {
                Err(SafeTensorError::MalformedHeader)
            } else {
                match sp_string(r.skip(1)) {
                    Err(_) => Err(SafeTensorError::MalformedHeader),
                    Ok((v, r2)) => {
                        if r2.len() > 0 && r2[0] == COMMA {
                            match sp_meta_pairs(r2.skip(1)) {
                                Ok((pairs, r3)) => Ok((seq![(k, v)] + pairs, r3)),
                                Err(e) => Err(e),
                            }
                        } else {
                            Ok((seq![(k, v)], r2))
                        }
                    },
                }
            }
        },
    }
}

#[via_fn]
proof fn sp_meta_pairs_dec(s: Seq<u8>) {
    lemma_sp_string_le(s);
    match sp_string(s) {
        Ok((k, r)) => {
            if r.len() > 0 && r[0] == COLON {
                lemma_sp_string_le(r.skip(1));
            }
        },
        Err(_) => {},
    }
}

/// The metadata object: `{}` or `{pairs}`.
pub open spec fn sp_meta_obj(s: Seq<u8>) -> Result<
    (Seq<(Seq<u8>, Seq<u8>)>, Seq<u8>),
    SafeTensorError,
> {
    if s.len() == 0 || s[0] != LBRACE {
        Err(SafeTensorError::MalformedHeader)
    } else {
        let t = s.skip(1);
        if t.len() > 0 && t[0] == RBRACE {
            Ok((Seq::empty(), t.skip(1)))
        } else {
            match sp_meta_pairs(t) {
                Err(e) => Err(e),
                Ok((pairs, r)) => {
                    if r.len() > 0 && r[0] == RBRACE {
                        Ok((pairs, r.skip(1)))
                    } else {
                        Err(SafeTensorError::MalformedHeader)
                    }
                },
            }
        }
    }
}

/// The bytes of the quoted reserved key followed by its colon.
pub open spec fn lit_meta_key() -> Seq<u8> {
    seq![QUOTE] + reserved_key_bytes() + seq![QUOTE, COLON]
}

/// Parses a whole header document: outer braces, the metadata block first
/// when present, then the tensor entries; nothing may follow the closing
/// brace.
pub open spec fn sp_header(s: Seq<u8>) -> Result<HeaderModel, SafeTensorError> {
    if s.len() == 0 || s[0] != LBRACE {
        Err(SafeTensorError::MalformedHeader)
    } else {
        let t = s.skip(1);
        if t.len() > 0 && t[0] == RBRACE {
            if t.len() == 1 {
                Ok(HeaderModel { entries: Seq::empty(), metadata: None })
            } else {
                Err(SafeTensorError::MalformedHeader)
            }
        } else {
            match sp_lit(t, lit_meta_key()) {
                Ok(r) => match sp_meta_obj(r) {
                    Err(e) => Err(e),
                    Ok((meta, r2)) => {
                        if r2.len() == 1 && r2[0] == RBRACE {
                            Ok(HeaderModel { entries: Seq::empty(), metadata: Some(meta) })
                        } else if r2.len() > 0 && r2[0] == COMMA {
                            match sp_entries(r2.skip(1)) {
                                Err(e) => Err(e),
                                Ok((es, r3)) => {
                                    if r3.len() == 1 && r3[0] == RBRACE {
                                        Ok(HeaderModel { entries: es, metadata: Some(meta) })
                                    } else {
                                        Err(SafeTensorError::MalformedHeader)
                                    }
                                },
                            }
                        } else {
                            Err(SafeTensorError::MalformedHeader)
                        }
                    },
                },
                Err(_) => match sp_entries(t) {
                    Err(e) => Err(e),
                    Ok((es, r)) => {
                        if r.len() == 1 && r[0] == RBRACE {
                            Ok(HeaderModel { entries: es, metadata: None })
                        } else {
                            Err(SafeTensorError::MalformedHeader)
                        }
                    },
                },
            }
        }
    }
}

} // verus!
