use vstd::prelude::*;
use crate::dtype::{lemma_dtype_name_round_trip, Dtype};
use crate::encoding::{
    dec_digits, enc_entries, enc_entry, enc_header, enc_meta, enc_meta_items, enc_shape,
    enc_shape_items, enc_str, esc, lemma_esc_plain, lit_dtype_key, lit_offsets_key, lit_shape_key,
    reserved_key_bytes, BACKSLASH, COLON, COMMA, LBRACE, LBRACK, QUOTE, RBRACE, RBRACK,
};
use crate::error::SafeTensorError;
use crate::parsing::{
    digit_run, is_digit, lemma_digit_run_exact, lit_meta_key, sp_dims, sp_dtype, sp_entries,
    sp_entry, sp_header, sp_lit, sp_meta_obj, sp_meta_pairs, sp_num, sp_offsets, sp_shape,
    sp_str_body, sp_string, sp_tensor_body, val_of, NumParse,
};


verus! {

/// The digits of a number: at least one, all digits, and no leading zero
/// unless the number is zero itself.
pub proof fn lemma_dec_digits_props(n: nat)
    ensures
        dec_digits(n).len() >= 1,
        forall|m: int| 0 <= m < dec_digits(n).len() ==> is_digit(#[trigger] dec_digits(n)[m]),
        n > 0 ==> dec_digits(n)[0] != 48,
        n == 0 ==> dec_digits(n) == seq![48u8],
    decreases n,
{
    if n < 10 {
        assert(dec_digits(n) =~= seq![(48 + n) as u8]);
    } else {
        lemma_dec_digits_props(n / 10);
        assert forall|m: int| 0 <= m < dec_digits(n).len()
            implies is_digit(#[trigger] dec_digits(n)[m]) by {
            if m < dec_digits(n / 10).len() {
                assert(dec_digits(n)[m] == dec_digits(n / 10)[m]);
            } else {
                assert(dec_digits(n)[m] == (48 + n % 10) as u8);
            }
        }
        assert(dec_digits(n)[0] == dec_digits(n / 10)[0]);
    }
}

/// Digits evaluate back to the number they were printed from.
pub proof fn lemma_val_dec_digits(n: nat)
    ensures
        val_of(dec_digits(n)) == n,
    decreases n,
{
    if n < 10 {
        assert(dec_digits(n).drop_last() =~= Seq::<u8>::empty());
        assert(val_of(Seq::<u8>::empty()) == 0);
    } else {
        lemma_val_dec_digits(n / 10);
        assert(dec_digits(n).drop_last() =~= dec_digits(n / 10));
        assert(dec_digits(n).last() == (48 + n % 10) as u8);
    }
}

/// A printed number followed by a non-digit parses back to itself.
pub proof fn lemma_parse_num(n: nat, rest: Seq<u8>)
    requires
        n <= usize::MAX,
        rest.len() == 0 || !is_digit(rest[0]),
    ensures
        sp_num(dec_digits(n) + rest) == NumParse::Value(n, rest),
{
    let d = dec_digits(n);
    let s = d + rest;
    lemma_dec_digits_props(n);
    assert forall|m: int| 0 <= m < d.len() implies is_digit(s[m]) by {
        assert(s[m] == d[m]);
    }
    if d.len() < s.len() {
        assert(s[d.len() as int] == rest[0]);
    }
    lemma_digit_run_exact(s, d.len() as int);
    assert(s[0] == d[0]);
    if n == 0 {
        assert(d.len() == 1);
    } else {
        assert(s[0] != 48);
    }
    assert(s.take(d.len() as int) =~= d);
    lemma_val_dec_digits(n);
    assert(val_of(s.take(digit_run(s))) == n);
    assert(s.skip(d.len() as int) =~= rest);
}

/// An escaped string body followed by its closing quote parses back to the
/// bytes that were escaped.
pub proof fn lemma_parse_str_body(b: Seq<u8>, rest: Seq<u8>)
    ensures
        sp_str_body(esc(b) + seq![QUOTE] + rest) == Ok::<(Seq<u8>, Seq<u8>), ()>((b, rest)),
    decreases b.len(),
{
    let s = esc(b) + seq![QUOTE] + rest;
    if b.len() == 0 {
        assert(esc(b) =~= Seq::<u8>::empty());
        assert(s =~= seq![QUOTE] + rest);
        assert(s[0] == QUOTE);
        assert(s.skip(1) =~= rest);
        assert(Seq::<u8>::empty() =~= b);
    } else {
        lemma_parse_str_body(b.skip(1), rest);
        if b[0] == QUOTE || b[0] == BACKSLASH {
            assert(esc(b) =~= seq![BACKSLASH, b[0]] + esc(b.skip(1)));
            assert(s[0] == BACKSLASH);
            assert(s[1] == b[0]);
            assert(s.len() >= 2);
            assert(s.skip(2) =~= esc(b.skip(1)) + seq![QUOTE] + rest);
            assert(seq![s[1]] + b.skip(1) =~= b);
        } else {
            assert(esc(b) =~= seq![b[0]] + esc(b.skip(1)));
            assert(s[0] == b[0]);
            assert(s[0] != QUOTE && s[0] != BACKSLASH);
            assert(s.skip(1) =~= esc(b.skip(1)) + seq![QUOTE] + rest);
            assert(seq![s[0]] + b.skip(1) =~= b);
        }
    }
}

/// A printed string parses back to the bytes it quoted.
pub proof fn lemma_parse_string(b: Seq<u8>, rest: Seq<u8>)
    ensures
        sp_string(enc_str(b) + rest) == Ok::<(Seq<u8>, Seq<u8>), ()>((b, rest)),
{
    let s = enc_str(b) + rest;
    assert(s[0] == QUOTE);
    assert(s.skip(1) =~= esc(b) + seq![QUOTE] + rest);
    lemma_parse_str_body(b, rest);
}

/// A literal at the front of what it prefixes parses past itself.
pub proof fn lemma_parse_lit(lit: Seq<u8>, rest: Seq<u8>)
    ensures
        sp_lit(lit + rest, lit) == Ok::<Seq<u8>, ()>(rest),
{
    let s = lit + rest;
    assert(s.take(lit.len() as int) =~= lit);
    assert(s.skip(lit.len() as int) =~= rest);
}

/// A printed dtype name parses back to its dtype.
pub proof fn lemma_parse_dtype(d: Dtype, rest: Seq<u8>)
    ensures
        sp_dtype(enc_str(d.name_bytes()) + rest) == Ok::<(Dtype, Seq<u8>), SafeTensorError>((
            d,
            rest,
        )),
{
    lemma_parse_string(d.name_bytes(), rest);
    lemma_dtype_name_round_trip(d);
}

/// A printed pair of offsets parses back to its two numbers.
pub proof fn lemma_parse_offsets(a: nat, b: nat, rest: Seq<u8>)
    requires
        a <= usize::MAX,
        b <= usize::MAX,
    ensures
        sp_offsets(seq![LBRACK] + dec_digits(a) + seq![COMMA] + dec_digits(b) + seq![RBRACK] + rest)
            == Ok::<((nat, nat), Seq<u8>), SafeTensorError>(((a, b), rest)),
{
    let s = seq![LBRACK] + dec_digits(a) + seq![COMMA] + dec_digits(b) + seq![RBRACK] + rest;
    assert(s[0] == LBRACK);
    let t = s.skip(1);
    assert(t =~= dec_digits(a) + (seq![COMMA] + dec_digits(b) + seq![RBRACK] + rest));
    lemma_dec_digits_props(a);
    lemma_dec_digits_props(b);
    assert(t[0] == dec_digits(a)[0]);
    lemma_parse_num(a, seq![COMMA] + dec_digits(b) + seq![RBRACK] + rest);
    let r1 = seq![COMMA] + dec_digits(b) + seq![RBRACK] + rest;
    assert(r1[0] == COMMA);
    let t2 = r1.skip(1);
    assert(t2 =~= dec_digits(b) + (seq![RBRACK] + rest));
    assert(t2[0] == dec_digits(b)[0]);
    lemma_parse_num(b, seq![RBRACK] + rest);
    let r2 = seq![RBRACK] + rest;
    assert(r2[0] == RBRACK);
    assert(r2.skip(1) =~= rest);
}

/// The encoded shape list, read from the front.
pub proof fn lemma_shape_items_front(shape: Seq<usize>)
    requires
        shape.len() >= 1,
    ensures
        enc_shape_items(shape) == dec_digits(shape[0] as nat) + (if shape.len() == 1 {
            Seq::<u8>::empty()
        } else {
            seq![COMMA] + enc_shape_items(shape.skip(1))
        }),
    decreases shape.len(),
{
    if shape.len() == 1 {
        assert(enc_shape_items(shape) =~= dec_digits(shape[0] as nat) + Seq::<u8>::empty());
    } else {
        lemma_shape_items_front(shape.drop_last());
        assert(shape.drop_last()[0] == shape[0]);
        if shape.len() == 2 {
            assert(shape.drop_last().len() == 1);
            assert(shape.skip(1) =~= seq![shape[1]]);
            assert(enc_shape_items(shape.skip(1)) =~= dec_digits(shape[1] as nat));
            assert(enc_shape_items(shape) =~= dec_digits(shape[0] as nat) + (seq![COMMA]
                + enc_shape_items(shape.skip(1))));
        } else {
            assert(shape.drop_last().skip(1) =~= shape.skip(1).drop_last());
            assert(shape.skip(1).last() == shape.last());
            assert(shape.skip(1).len() >= 2);
            assert(enc_shape_items(shape.skip(1)) == enc_shape_items(shape.skip(1).drop_last())
                + seq![COMMA] + dec_digits(shape.skip(1).last() as nat));
            assert(enc_shape_items(shape) =~= dec_digits(shape[0] as nat) + (seq![COMMA]
                + enc_shape_items(shape.skip(1))));
        }
    }
}

/// A printed, nonempty extent list followed by the closing bracket parses
/// back to itself.
pub proof fn lemma_parse_dims(shape: Seq<usize>, rest: Seq<u8>)
    requires
        shape.len() >= 1,
    ensures
        sp_dims(enc_shape_items(shape) + seq![RBRACK] + rest) == Ok::<
            (Seq<usize>, Seq<u8>),
            SafeTensorError,
        >((shape, rest)),
    decreases shape.len(),
{
    lemma_shape_items_front(shape);
    lemma_dec_digits_props(shape[0] as nat);
    let s = enc_shape_items(shape) + seq![RBRACK] + rest;
    assert(s[0] == dec_digits(shape[0] as nat)[0]);
    assert(is_digit(s[0]));
    if shape.len() == 1 {
        assert(s =~= dec_digits(shape[0] as nat) + (seq![RBRACK] + rest));
        lemma_parse_num(shape[0] as nat, seq![RBRACK] + rest);
        let r = seq![RBRACK] + rest;
        assert(r[0] == RBRACK);
        assert(r.skip(1) =~= rest);
        assert(seq![shape[0]] =~= shape);
    } else {
        let tail = seq![COMMA] + (enc_shape_items(shape.skip(1)) + seq![RBRACK] + rest);
        assert(s =~= dec_digits(shape[0] as nat) + tail);
        lemma_parse_num(shape[0] as nat, tail);
        assert(tail[0] == COMMA);
        assert(tail.skip(1) =~= enc_shape_items(shape.skip(1)) + seq![RBRACK] + rest);
        lemma_parse_dims(shape.skip(1), rest);
        assert(seq![shape[0]] + shape.skip(1) =~= shape);
    }
}

/// A printed shape parses back to itself.
pub proof fn lemma_parse_shape(shape: Seq<usize>, rest: Seq<u8>)
    ensures
        sp_shape(enc_shape(shape) + rest) == Ok::<(Seq<usize>, Seq<u8>), SafeTensorError>((
            shape,
            rest,
        )),
{
    let s = enc_shape(shape) + rest;
    assert(s[0] == LBRACK);
    let t = s.skip(1);
    assert(t =~= enc_shape_items(shape) + seq![RBRACK] + rest);
    if shape.len() == 0 {
        assert(enc_shape_items(shape) =~= Seq::<u8>::empty());
        assert(t =~= seq![RBRACK] + rest);
        assert(t[0] == RBRACK);
        assert(t.skip(1) =~= rest);
        assert(Seq::<usize>::empty() =~= shape);
    } else {
        lemma_shape_items_front(shape);
        lemma_dec_digits_props(shape[0] as nat);
        assert(t[0] == dec_digits(shape[0] as nat)[0]);
        assert(is_digit(t[0]));
        assert(t[0] != RBRACK);
        lemma_parse_dims(shape, rest);
    }
}

/// The bytes of one tensor's object, without its name and colon.
pub open spec fn enc_body(e: crate::model::EntryModel) -> Seq<u8> {
    seq![LBRACE] + lit_dtype_key() + enc_str(e.dtype.name_bytes()) + seq![COMMA] + lit_shape_key()
        + enc_shape(e.shape) + seq![COMMA] + lit_offsets_key() + seq![LBRACK]
        + dec_digits(e.start) + seq![COMMA] + dec_digits(e.end) + seq![RBRACK, RBRACE]
}

/// An entry is its quoted name, a colon, and its object.
pub proof fn lemma_enc_entry_split(e: crate::model::EntryModel)
    ensures
        enc_entry(e) == enc_str(e.name) + seq![COLON] + enc_body(e),
{
    assert(enc_entry(e) =~= enc_str(e.name) + seq![COLON] + enc_body(e));
}

/// A printed tensor object parses back to its fields.
#[verifier::rlimit(100)]
pub proof fn lemma_parse_body(e: crate::model::EntryModel, rest: Seq<u8>)
    requires
        e.start <= usize::MAX,
        e.end <= usize::MAX,
    ensures
        sp_tensor_body(enc_body(e) + rest) == Ok::<
            ((Dtype, Seq<usize>, nat, nat), Seq<u8>),
            SafeTensorError,
        >(((e.dtype, e.shape, e.start, e.end), rest)),
{
    let s = enc_body(e) + rest;
    assert(s[0] == LBRACE);
    let t1 = s.skip(1);
    let after_dkey = enc_str(e.dtype.name_bytes()) + (seq![COMMA] + lit_shape_key()
        + enc_shape(e.shape) + seq![COMMA] + lit_offsets_key() + seq![LBRACK]
        + dec_digits(e.start) + seq![COMMA] + dec_digits(e.end) + seq![RBRACK, RBRACE] + rest);
    assert(t1 =~= lit_dtype_key() + after_dkey);
    lemma_parse_lit(lit_dtype_key(), after_dkey);
    let after_dtype = seq![COMMA] + (lit_shape_key() + enc_shape(e.shape) + seq![COMMA]
        + lit_offsets_key() + seq![LBRACK] + dec_digits(e.start) + seq![COMMA]
        + dec_digits(e.end) + seq![RBRACK, RBRACE] + rest);
    assert(after_dkey =~= enc_str(e.dtype.name_bytes()) + after_dtype);
    lemma_parse_dtype(e.dtype, after_dtype);
    assert(after_dtype[0] == COMMA);
    let after_comma1 = after_dtype.skip(1);
    let after_skey = enc_shape(e.shape) + (seq![COMMA] + lit_offsets_key() + seq![LBRACK]
        + dec_digits(e.start) + seq![COMMA] + dec_digits(e.end) + seq![RBRACK, RBRACE] + rest);
    assert(after_comma1 =~= lit_shape_key() + after_skey);
    lemma_parse_lit(lit_shape_key(), after_skey);
    let after_shape = seq![COMMA] + (lit_offsets_key() + (seq![LBRACK] + dec_digits(e.start)
        + seq![COMMA] + dec_digits(e.end) + seq![RBRACK] + (seq![RBRACE] + rest)));
    assert(after_skey =~= enc_shape(e.shape) + after_shape);
    lemma_parse_shape(e.shape, after_shape);
    assert(after_shape[0] == COMMA);
    let after_comma2 = after_shape.skip(1);
    let offs = seq![LBRACK] + dec_digits(e.start) + seq![COMMA] + dec_digits(e.end)
        + seq![RBRACK] + (seq![RBRACE] + rest);
    assert(after_comma2 =~= lit_offsets_key() + offs);
    lemma_parse_lit(lit_offsets_key(), offs);
    lemma_parse_offsets(e.start, e.end, seq![RBRACE] + rest);
    let fin = seq![RBRACE] + rest;
    assert(fin[0] == RBRACE);
    assert(fin.skip(1) =~= rest);
}

/// A printed entry parses back to itself, for a name that is not reserved.
pub proof fn lemma_parse_entry(e: crate::model::EntryModel, rest: Seq<u8>)
    requires
        e.name != reserved_key_bytes(),
        e.start <= usize::MAX,
        e.end <= usize::MAX,
    ensures
        sp_entry(enc_entry(e) + rest) == Ok::<
            (crate::model::EntryModel, Seq<u8>),
            SafeTensorError,
        >((e, rest)),
{
    lemma_enc_entry_split(e);
    let s = enc_entry(e) + rest;
    let after_name = seq![COLON] + (enc_body(e) + rest);
    assert(s =~= enc_str(e.name) + after_name);
    lemma_parse_string(e.name, after_name);
    assert(after_name[0] == COLON);
    assert(after_name.skip(1) =~= enc_body(e) + rest);
    lemma_parse_body(e, rest);
    assert((crate::model::EntryModel {
        name: e.name,
        dtype: e.dtype,
        shape: e.shape,
        start: e.start,
        end: e.end,
    }) =~= e);
}

/// The encoded entry list, read from the front.
pub proof fn lemma_entries_front(es: Seq<crate::model::EntryModel>)
    requires
        es.len() >= 1,
    ensures
        enc_entries(es) == enc_entry(es[0]) + (if es.len() == 1 {
            Seq::<u8>::empty()
        } else {
            seq![COMMA] + enc_entries(es.skip(1))
        }),
    decreases es.len(),
{
    if es.len() == 1 {
        assert(enc_entries(es) =~= enc_entry(es[0]) + Seq::<u8>::empty());
    } else {
        lemma_entries_front(es.drop_last());
        assert(es.drop_last()[0] == es[0]);
        if es.len() == 2 {
            assert(es.skip(1) =~= seq![es[1]]);
            assert(enc_entries(es.skip(1)) =~= enc_entry(es[1]));
            assert(enc_entries(es) =~= enc_entry(es[0]) + (seq![COMMA] + enc_entries(es.skip(1))));
        } else {
            assert(es.drop_last().skip(1) =~= es.skip(1).drop_last());
            assert(es.skip(1).last() == es.last());
            assert(es.skip(1).len() >= 2);
            assert(enc_entries(es.skip(1)) == enc_entries(es.skip(1).drop_last()) + seq![COMMA]
                + enc_entry(es.skip(1).last()));
            assert(enc_entries(es) =~= enc_entry(es[0]) + (seq![COMMA] + enc_entries(es.skip(1))));
        }
    }
}

/// A printed, nonempty entry list parses back to itself when followed by
/// anything that is not a comma.
pub proof fn lemma_parse_entries(es: Seq<crate::model::EntryModel>, rest: Seq<u8>)
    requires
        es.len() >= 1,
        rest.len() >= 1,
        rest[0] != COMMA,
        forall|i: int| 0 <= i < es.len() ==> (#[trigger] es[i]).name != reserved_key_bytes(),
        forall|i: int| 0 <= i < es.len() ==> (#[trigger] es[i]).start <= usize::MAX
            && es[i].end <= usize::MAX,
    ensures
        sp_entries(enc_entries(es) + rest) == Ok::<
            (Seq<crate::model::EntryModel>, Seq<u8>),
            SafeTensorError,
        >((es, rest)),
    decreases es.len(),
{
    lemma_entries_front(es);
    let s = enc_entries(es) + rest;
    if es.len() == 1 {
        assert(s =~= enc_entry(es[0]) + rest);
        lemma_parse_entry(es[0], rest);
        assert(seq![es[0]] =~= es);
    } else {
        let tail = seq![COMMA] + (enc_entries(es.skip(1)) + rest);
        assert(s =~= enc_entry(es[0]) + tail);
        lemma_parse_entry(es[0], tail);
        assert(tail[0] == COMMA);
        assert(tail.skip(1) =~= enc_entries(es.skip(1)) + rest);
        assert forall|i: int| 0 <= i < es.skip(1).len()
            implies (#[trigger] es.skip(1)[i]).name != reserved_key_bytes() && es.skip(1)[i].start
            <= usize::MAX && es.skip(1)[i].end <= usize::MAX by {
            assert(es.skip(1)[i] == es[i + 1]);
        }
        lemma_parse_entries(es.skip(1), rest);
        assert(seq![es[0]] + es.skip(1) =~= es);
    }
}

/// The encoded metadata pairs, read from the front.
pub proof fn lemma_meta_items_front(m: Seq<(Seq<u8>, Seq<u8>)>)
    requires
        m.len() >= 1,
    ensures
        enc_meta_items(m) == (enc_str(m[0].0) + seq![COLON] + enc_str(m[0].1)) + (if m.len() == 1 {
            Seq::<u8>::empty()
        } else {
            seq![COMMA] + enc_meta_items(m.skip(1))
        }),
    decreases m.len(),
{
    if m.len() == 1 {
        assert(enc_meta_items(m) =~= (enc_str(m[0].0) + seq![COLON] + enc_str(m[0].1))
            + Seq::<u8>::empty());
    } else {
        lemma_meta_items_front(m.drop_last());
        assert(m.drop_last()[0] == m[0]);
        if m.len() == 2 {
            assert(m.skip(1) =~= seq![m[1]]);
            assert(enc_meta_items(m.skip(1)) =~= enc_str(m[1].0) + seq![COLON] + enc_str(m[1].1));
            assert(enc_meta_items(m) =~= (enc_str(m[0].0) + seq![COLON] + enc_str(m[0].1))
                + (seq![COMMA] + enc_meta_items(m.skip(1))));
        } else {
            assert(m.drop_last().skip(1) =~= m.skip(1).drop_last());
            assert(m.skip(1).last() == m.last());
            assert(m.skip(1).len() >= 2);
            assert(enc_meta_items(m.skip(1)) == enc_meta_items(m.skip(1).drop_last())
                + seq![COMMA] + enc_str(m.skip(1).last().0) + seq![COLON]
                + enc_str(m.skip(1).last().1));
            assert(enc_meta_items(m) =~= (enc_str(m[0].0) + seq![COLON] + enc_str(m[0].1))
                + (seq![COMMA] + enc_meta_items(m.skip(1))));
        }
    }
}

/// Printed, nonempty metadata pairs parse back to themselves when followed
/// by anything that is not a comma.
pub proof fn lemma_parse_meta_pairs(m: Seq<(Seq<u8>, Seq<u8>)>, rest: Seq<u8>)
    requires
        m.len() >= 1,
        rest.len() >= 1,
        rest[0] != COMMA,
    ensures
        sp_meta_pairs(enc_meta_items(m) + rest) == Ok::<
            (Seq<(Seq<u8>, Seq<u8>)>, Seq<u8>),
            SafeTensorError,
        >((m, rest)),
    decreases m.len(),
{
    lemma_meta_items_front(m);
    let s = enc_meta_items(m) + rest;
    let tail: Seq<u8> = if m.len() == 1 {
        rest
    } else {
        seq![COMMA] + (enc_meta_items(m.skip(1)) + rest)
    };
    let after_key = seq![COLON] + (enc_str(m[0].1) + tail);
    assert(s =~= enc_str(m[0].0) + after_key);
    lemma_parse_string(m[0].0, after_key);
    assert(after_key[0] == COLON);
    assert(after_key.skip(1) =~= enc_str(m[0].1) + tail);
    lemma_parse_string(m[0].1, tail);
    if m.len() == 1 {
        assert(seq![(m[0].0, m[0].1)] =~= m);
    } else {
        assert(tail[0] == COMMA);
        assert(tail.skip(1) =~= enc_meta_items(m.skip(1)) + rest);
        lemma_parse_meta_pairs(m.skip(1), rest);
        assert(seq![(m[0].0, m[0].1)] + m.skip(1) =~= m);
    }
}

/// A printed metadata object parses back to its pairs.
pub proof fn lemma_parse_meta_obj(m: Seq<(Seq<u8>, Seq<u8>)>, rest: Seq<u8>)
    ensures
        sp_meta_obj(seq![LBRACE] + enc_meta_items(m) + seq![RBRACE] + rest) == Ok::<
            (Seq<(Seq<u8>, Seq<u8>)>, Seq<u8>),
            SafeTensorError,
        >((m, rest)),
{
    let s = seq![LBRACE] + enc_meta_items(m) + seq![RBRACE] + rest;
    assert(s[0] == LBRACE);
    let t = s.skip(1);
    assert(t =~= enc_meta_items(m) + (seq![RBRACE] + rest));
    if m.len() == 0 {
        assert(enc_meta_items(m) =~= Seq::<u8>::empty());
        assert(t =~= seq![RBRACE] + rest);
        assert(t[0] == RBRACE);
        assert(t.skip(1) =~= rest);
        assert(Seq::<(Seq<u8>, Seq<u8>)>::empty() =~= m);
    } else {
        lemma_meta_items_front(m);
        assert(t[0] == enc_str(m[0].0)[0]);
        assert(t[0] == QUOTE);
        assert(t[0] != RBRACE);
        let r = seq![RBRACE] + rest;
        lemma_parse_meta_pairs(m, r);
        assert(r[0] == RBRACE);
        assert(r.skip(1) =~= rest);
    }
}

/// The first key of an entries-first document is not the reserved key, so
/// the metadata literal does not match there.
#[verifier::rlimit(100)]
#[verifier::spinoff_prover]
proof fn lemma_no_meta_prefix(es: Seq<crate::model::EntryModel>)
    requires
        es.len() >= 1,
        es[0].name != reserved_key_bytes(),
    ensures
        sp_lit(enc_entries(es) + seq![RBRACE], lit_meta_key()) is Err,
{
    lemma_entries_front(es);
    lemma_enc_entry_split(es[0]);
    lemma_esc_plain(reserved_key_bytes());
    let t = enc_entries(es) + seq![RBRACE];
    match sp_lit(t, lit_meta_key()) {
        Ok(_) => {
            assert(t.take(lit_meta_key().len() as int) == lit_meta_key());
            assert(t =~= lit_meta_key() + t.skip(lit_meta_key().len() as int));
            let rest2 = seq![COLON] + t.skip(lit_meta_key().len() as int);
            assert(t.skip(1) =~= reserved_key_bytes() + seq![QUOTE] + rest2);
            lemma_parse_str_body(reserved_key_bytes(), rest2);
            let after0 = seq![COLON] + (enc_body(es[0]) + (if es.len() == 1 {
                Seq::<u8>::empty()
            } else {
                seq![COMMA] + enc_entries(es.skip(1))
            } + seq![RBRACE]));
            assert(t =~= enc_str(es[0].name) + after0);
            lemma_parse_string(es[0].name, after0);
            assert(es[0].name == reserved_key_bytes());
            assert(false);
        },
        Err(_) => {},
    }
}

/// A document without a metadata block parses back to its entries.
proof fn lemma_parse_header_plain(h: crate::model::HeaderModel)
    requires
        h.metadata is None,
        h.entries.len() >= 1,
        forall|i: int| 0 <= i < h.entries.len() ==> (#[trigger] h.entries[i]).name
            != reserved_key_bytes(),
        forall|i: int| 0 <= i < h.entries.len() ==> (#[trigger] h.entries[i]).start <= usize::MAX
            && h.entries[i].end <= usize::MAX,
    ensures
        sp_header(enc_header(h)) == Ok::<crate::model::HeaderModel, SafeTensorError>(h),
{
    let s = enc_header(h);
    let es = h.entries;
    assert(s[0] == LBRACE);
    let t = s.skip(1);
    lemma_entries_front(es);
    lemma_enc_entry_split(es[0]);
    assert(t =~= enc_entries(es) + seq![RBRACE]);
    assert(t[0] == enc_str(es[0].name)[0]);
    assert(t[0] == QUOTE);
    assert(t[0] != RBRACE);
    lemma_no_meta_prefix(es);
    lemma_parse_entries(es, seq![RBRACE]);
    assert((seq![RBRACE]).len() == 1 && (seq![RBRACE])[0] == RBRACE);
    assert((crate::model::HeaderModel { entries: es, metadata: None }) =~= h);
}

/// A document with a metadata block parses back to its block and entries.
proof fn lemma_parse_header_meta(h: crate::model::HeaderModel, m: Seq<(Seq<u8>, Seq<u8>)>)
    requires
        h.metadata == Some(m),
        forall|i: int| 0 <= i < h.entries.len() ==> (#[trigger] h.entries[i]).name
            != reserved_key_bytes(),
        forall|i: int| 0 <= i < h.entries.len() ==> (#[trigger] h.entries[i]).start <= usize::MAX
            && h.entries[i].end <= usize::MAX,
    ensures
        sp_header(enc_header(h)) == Ok::<crate::model::HeaderModel, SafeTensorError>(h),
{
    let s = enc_header(h);
    let es = h.entries;
    assert(s[0] == LBRACE);
    let t = s.skip(1);
    lemma_esc_plain(reserved_key_bytes());
    let obj = seq![LBRACE] + enc_meta_items(m) + seq![RBRACE];
    assert(enc_meta(m) =~= lit_meta_key() + obj);
    if es.len() == 0 {
        assert(t =~= enc_meta(m) + seq![RBRACE]);
        assert(t[0] == QUOTE && t[0] != RBRACE);
        assert(t =~= lit_meta_key() + (obj + seq![RBRACE]));
        lemma_parse_lit(lit_meta_key(), obj + seq![RBRACE]);
        assert(obj + seq![RBRACE] =~= seq![LBRACE] + enc_meta_items(m) + seq![RBRACE]
            + seq![RBRACE]);
        lemma_parse_meta_obj(m, seq![RBRACE]);
        assert((seq![RBRACE]).len() == 1 && (seq![RBRACE])[0] == RBRACE);
        assert((crate::model::HeaderModel { entries: Seq::empty(), metadata: Some(m) }) =~= h);
    } else {
        let after_meta = seq![COMMA] + (enc_entries(es) + seq![RBRACE]);
        assert(t =~= enc_meta(m) + after_meta);
        assert(t[0] == QUOTE && t[0] != RBRACE);
        assert(t =~= lit_meta_key() + (obj + after_meta));
        lemma_parse_lit(lit_meta_key(), obj + after_meta);
        assert(obj + after_meta =~= seq![LBRACE] + enc_meta_items(m) + seq![RBRACE] + after_meta);
        lemma_parse_meta_obj(m, after_meta);
        assert(after_meta[0] == COMMA);
        assert(after_meta.len() > 1);
        assert(after_meta.skip(1) =~= enc_entries(es) + seq![RBRACE]);
        lemma_parse_entries(es, seq![RBRACE]);
        assert((seq![RBRACE]).len() == 1 && (seq![RBRACE])[0] == RBRACE);
        assert((crate::model::HeaderModel { entries: es, metadata: Some(m) }) =~= h);
    }
}

/// A printed header document parses back to its model, for names that are
/// never the reserved key and offsets that fit the machine.
pub proof fn lemma_parse_header(h: crate::model::HeaderModel)
    requires
        forall|i: int| 0 <= i < h.entries.len() ==> (#[trigger] h.entries[i]).name
            != reserved_key_bytes(),
        forall|i: int| 0 <= i < h.entries.len() ==> (#[trigger] h.entries[i]).start <= usize::MAX
            && h.entries[i].end <= usize::MAX,
    ensures
        sp_header(enc_header(h)) == Ok::<crate::model::HeaderModel, SafeTensorError>(h),
{
    match h.metadata {
        None => {
            if h.entries.len() == 0 {
                let s = enc_header(h);
                assert(s[0] == LBRACE);
                let t = s.skip(1);
                assert(t =~= seq![RBRACE]);
                assert(t[0] == RBRACE && t.len() == 1);
                assert((crate::model::HeaderModel {
                    entries: Seq::empty(),
                    metadata: None,
                }) =~= h);
            } else {
                lemma_parse_header_plain(h);
            }
        },
        Some(m) => {
            lemma_parse_header_meta(h, m);
        },
    }
}

/// Entries that all pass the per-entry checks raise no per-entry error.
proof fn lemma_no_entry_error(es: Seq<crate::model::EntryModel>, data_len: nat)
    requires
        forall|i: int| 0 <= i < es.len()
            ==> crate::validate::entry_offsets_ok(#[trigger] es[i], data_len)
                && crate::validate::entry_size_ok(es[i]),
    ensures
        crate::validate::first_entry_error(es, data_len) is None,
    decreases es.len(),
{
    if es.len() > 0 {
        assert forall|i: int| 0 <= i < es.skip(1).len()
            implies crate::validate::entry_offsets_ok(#[trigger] es.skip(1)[i], data_len)
                && crate::validate::entry_size_ok(es.skip(1)[i]) by {
            assert(es.skip(1)[i] == es[i + 1]);
        }
        lemma_no_entry_error(es.skip(1), data_len);
    }
}

/// The UTF-8 encoding of the reserved key's characters is the reserved
/// byte run.
pub proof fn lemma_reserved_utf8()
    ensures
        vstd::utf8::encode_utf8(crate::model::reserved_key()) == reserved_key_bytes(),
{
    reveal_strlit("__metadata__");
    let ck = crate::model::reserved_key();
    assert(ck.len() == 12);
    assert(ck =~= seq!['_', '_', 'm', 'e', 't', 'a', 'd', 'a', 't', 'a', '_', '_']);
    assert(vstd::utf8::is_ascii_chars(ck)) by {
        assert forall|i: int| 0 <= i < ck.len() implies '\0' <= #[trigger] ck[i] <= '\u{7f}' by {
        }
    }
    vstd::utf8::is_ascii_chars_encode_utf8(ck);
    assert(vstd::utf8::encode_utf8(ck) =~= reserved_key_bytes());
}

/// The header a well-formed container generates passes validation against
/// its own data section.
pub proof fn lemma_header_of_validates(c: crate::model::ContainerModel)
    requires
        crate::model::container_wf(c),
    ensures
        crate::validate::sp_validate(
            crate::encoding::header_of(c),
            crate::encoding::data_concat(c.tensors).len(),
        ) is None,
{
    broadcast use vstd::utf8::encode_utf8_decode_utf8;

    let h = crate::encoding::header_of(c);
    let ts = c.tensors;
    let n = ts.len() as int;
    crate::encoding::lemma_data_concat_len(ts);
    let dl = crate::encoding::data_concat(ts).len();
    assert(dl == crate::encoding::offset_at(ts, n));
    assert forall|i: int| 0 <= i < n
        implies crate::validate::entry_offsets_ok(#[trigger] h.entries[i], dl)
            && crate::validate::entry_size_ok(h.entries[i]) by {
        crate::encoding::lemma_offset_mono(ts, i + 1, n);
        assert(crate::model::tensor_wf(ts[i].1));
    }
    lemma_no_entry_error(h.entries, dl);
    if crate::validate::has_dup(h.entries) {
        let (i, j) = choose|i: int, j: int|
            0 <= i < j < h.entries.len() && #[trigger] h.entries[i].name
                == #[trigger] h.entries[j].name;
        assert(vstd::utf8::decode_utf8(vstd::utf8::encode_utf8(ts[i].0)) == ts[i].0);
        assert(vstd::utf8::decode_utf8(vstd::utf8::encode_utf8(ts[j].0)) == ts[j].0);
        assert(ts[i].0 == ts[j].0);
        assert(false);
    }
    assert(crate::validate::contiguous_ok(h.entries, dl)) by {
        if n > 0 {
            assert(h.entries[0].start == crate::encoding::offset_at(ts, 0));
            assert(h.entries[n - 1].end == crate::encoding::offset_at(ts, n));
            assert forall|i: int| 0 <= i < n - 1 implies h.entries[i + 1].start
                == h.entries[i].end by {
            }
        }
    }
}

/// The data section cut at a tensor's range gives exactly that tensor's
/// bytes.
pub proof fn lemma_data_slice(ts: Seq<(Seq<char>, crate::model::TensorData)>, i: int)
    requires
        0 <= i < ts.len(),
    ensures
        crate::encoding::data_concat(ts).subrange(
            crate::encoding::offset_at(ts, i) as int,
            (crate::encoding::offset_at(ts, i) + ts[i].1.data.len()) as int,
        ) == ts[i].1.data,
    decreases ts.len(),
{
    let full = crate::encoding::data_concat(ts);
    let pre = crate::encoding::data_concat(ts.drop_last());
    crate::encoding::lemma_data_concat_len(ts.drop_last());
    crate::encoding::lemma_offset_take_agree(ts, i);
    if i == ts.len() - 1 {
        assert(pre.len() == crate::encoding::offset_at(ts, i));
        assert(full =~= pre + ts[i].1.data);
        assert(full.subrange(pre.len() as int, (pre.len() + ts[i].1.data.len()) as int)
            =~= ts[i].1.data);
    } else {
        crate::encoding::lemma_offset_take_agree(ts, i + 1);
        lemma_data_slice(ts.drop_last(), i);
        crate::encoding::lemma_offset_mono(ts.drop_last(), i + 1, ts.len() - 1);
        assert(crate::encoding::offset_at(ts, i) + ts[i].1.data.len()
            == crate::encoding::offset_at(ts, i + 1));
        assert(ts.drop_last()[i] == ts[i]);
        assert(full.subrange(
            crate::encoding::offset_at(ts, i) as int,
            (crate::encoding::offset_at(ts, i) + ts[i].1.data.len()) as int,
        ) =~= pre.subrange(
            crate::encoding::offset_at(ts, i) as int,
            (crate::encoding::offset_at(ts, i) + ts[i].1.data.len()) as int,
        ));
    }
}

/// Round trip: serializing a well-formed container and deserializing the
/// bytes gives back a container with the same names, dtypes, shapes, data
/// and metadata. The container's data section must fit the machine and its
/// header document must fit the header-length ceiling.
#[verifier::rlimit(100)]
pub proof fn lemma_round_trip(c: crate::model::ContainerModel)
    requires
        crate::model::container_wf(c),
        crate::encoding::total_data_len(c) <= usize::MAX,
        crate::encoding::enc_header(crate::encoding::header_of(c)).len()
            <= crate::deserialize::MAX_HEADER_LEN,
    ensures
        crate::deserialize::spec_deserialize(crate::encoding::spec_serialize(c)) == Ok::<
            crate::model::ContainerModel,
            SafeTensorError,
        >(c),
{
    broadcast use vstd::utf8::encode_utf8_decode_utf8;
    broadcast use vstd::utf8::encode_utf8_valid_utf8;

    let h = crate::encoding::header_of(c);
    let hb = crate::encoding::enc_header(h);
    let data = crate::encoding::data_concat(c.tensors);
    let bytes = crate::encoding::spec_serialize(c);
    let ts = c.tensors;
    let n = ts.len() as int;
    vstd::bytes::lemma_auto_spec_u64_to_from_le_bytes();
    crate::encoding::lemma_data_concat_len(ts);
    let prefix = vstd::bytes::spec_u64_to_le_bytes(hb.len() as u64);
    assert(prefix.len() == 8);
    assert(bytes =~= prefix + hb + data);
    assert(bytes.take(8) =~= prefix);
    let nlen = vstd::bytes::spec_u64_from_le_bytes(bytes.take(8)) as int;
    assert(nlen == hb.len());
    assert(bytes.len() == 8 + hb.len() + data.len());
    assert(bytes.subrange(8, 8 + nlen) =~= hb);
    assert(bytes.skip(8 + nlen) =~= data);
    // The printed header parses back to the header model.
    lemma_reserved_utf8();
    assert forall|i: int| 0 <= i < h.entries.len() implies (#[trigger] h.entries[i]).name
        != reserved_key_bytes() && h.entries[i].start <= usize::MAX && h.entries[i].end
        <= usize::MAX by {
        if h.entries[i].name == reserved_key_bytes() {
            assert(vstd::utf8::decode_utf8(vstd::utf8::encode_utf8(ts[i].0)) == ts[i].0);
            assert(vstd::utf8::decode_utf8(
                vstd::utf8::encode_utf8(crate::model::reserved_key()),
            ) == crate::model::reserved_key());
            assert(ts[i].0 == crate::model::reserved_key());
            assert(false);
        }
        crate::encoding::lemma_offset_mono(ts, i + 1, n);
        crate::encoding::lemma_offset_mono(ts, i, n);
    }
    lemma_parse_header(h);
    // The header validates against its own data section.
    lemma_header_of_validates(c);
    assert((bytes.len() - 8 - nlen) as nat == data.len());
    assert(crate::deserialize::spec_decoded(bytes) == Ok::<
        (crate::model::HeaderModel, Seq<u8>),
        SafeTensorError,
    >((h, data)));
    // Every name and metadata string came from a string, so it is valid
    // UTF-8 and decodes back to it.
    assert(crate::deserialize::header_utf8_ok(h)) by {
        assert forall|i: int| 0 <= i < h.entries.len()
            implies vstd::utf8::valid_utf8(#[trigger] h.entries[i].name) by {
            assert(h.entries[i].name == vstd::utf8::encode_utf8(ts[i].0));
        }
        match h.metadata {
            Some(hm) => {
                assert forall|i: int| 0 <= i < hm.len()
                    implies vstd::utf8::valid_utf8((#[trigger] hm[i]).0)
                        && vstd::utf8::valid_utf8(hm[i].1) by {
                    match c.metadata {
                        Some(cm) => {
                            assert(hm[i] == (
                                vstd::utf8::encode_utf8(cm[i].0),
                                vstd::utf8::encode_utf8(cm[i].1),
                            ));
                        },
                        None => {},
                    }
                }
            },
            None => {},
        }
    }
    // Cutting the data section at each validated range gives each tensor's
    // own bytes back.
    let back = crate::deserialize::container_of(h, data);
    assert forall|i: int| 0 <= i < n implies back.tensors[i] == ts[i] by {
        lemma_data_slice(ts, i);
        assert(vstd::utf8::decode_utf8(vstd::utf8::encode_utf8(ts[i].0)) == ts[i].0);
        assert(back.tensors[i].1 =~= ts[i].1);
    }
    assert(back.tensors =~= ts);
    match c.metadata {
        Some(cm) => {
            match back.metadata {
                Some(bm) => {
                    assert forall|i: int| 0 <= i < bm.len() implies bm[i] == cm[i] by {
                        assert(vstd::utf8::decode_utf8(vstd::utf8::encode_utf8(cm[i].0))
                            == cm[i].0);
                        assert(vstd::utf8::decode_utf8(vstd::utf8::encode_utf8(cm[i].1))
                            == cm[i].1);
                    }
                    assert(bm =~= cm);
                },
                None => {
                    assert(false);
                },
            }
        },
        None => {
            assert(back.metadata is None);
        },
    }
    assert(back =~= c);
}


/// Metadata passthrough: a well-formed container's metadata block survives
/// a serialize/deserialize round trip unchanged.
pub proof fn lemma_metadata_passthrough(c: crate::model::ContainerModel)
    requires
        crate::model::container_wf(c),
        crate::encoding::total_data_len(c) <= usize::MAX,
        crate::encoding::enc_header(crate::encoding::header_of(c)).len()
            <= crate::deserialize::MAX_HEADER_LEN,
    ensures
        crate::deserialize::spec_deserialize(crate::encoding::spec_serialize(c)) matches Ok(c2)
            && c2.metadata == c.metadata,
{
    lemma_round_trip(c);
}

} // verus!
