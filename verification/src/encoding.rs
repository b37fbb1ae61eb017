use vstd::prelude::*;
use vstd::utf8::encode_utf8;
use crate::model::{ContainerModel, EntryModel, HeaderModel, TensorData};
use crate::tensor::Container;

verus! {

// The ASCII bytes the header grammar is built from.
pub const QUOTE: u8 = 34;
pub const BACKSLASH: u8 = 92;
pub const LBRACE: u8 = 123;
pub const RBRACE: u8 = 125;
pub const LBRACK: u8 = 91;
pub const RBRACK: u8 = 93;
pub const COLON: u8 = 58;
pub const COMMA: u8 = 44;
pub const MINUS: u8 = 45;

/// A string's bytes as they stand inside quotes: a quote or a backslash is
/// preceded by a backslash, every other byte passes through.
pub open spec fn esc(b: Seq<u8>) -> Seq<u8>
    decreases b.len(),
{
    if b.len() == 0 {
        Seq::empty()
    } else {
        let head = if b[0] == QUOTE || b[0] == BACKSLASH {
            seq![BACKSLASH, b[0]]
        } else {
            seq![b[0]]
        };
        head + esc(b.skip(1))
    }
}

/// A quoted, escaped string.
pub open spec fn enc_str(b: Seq<u8>) -> Seq<u8> {
    seq![QUOTE] + esc(b) + seq![QUOTE]
}

/// The canonical decimal digits of `n`: no sign, no leading zero.
pub open spec fn dec_digits(n: nat) -> Seq<u8>
    decreases n,
{
    if n < 10 {
        seq![(48 + n) as u8]
    } else {
        dec_digits(n / 10) + seq![(48 + n % 10) as u8]
    }
}

/// The shape extents, comma-separated.
pub open spec fn enc_shape_items(shape: Seq<usize>) -> Seq<u8>
    decreases shape.len(),
{
    if shape.len() == 0 {
        Seq::empty()
    } else if shape.len() == 1 {
        dec_digits(shape[0] as nat)
    } else {
        enc_shape_items(shape.drop_last()) + seq![COMMA] + dec_digits(shape.last() as nat)
    }
}

/// A bracketed shape list.
pub open spec fn enc_shape(shape: Seq<usize>) -> Seq<u8> {
    seq![LBRACK] + enc_shape_items(shape) + seq![RBRACK]
}

/// The bytes of `"dtype":` (quotes and colon included).
pub open spec fn lit_dtype_key() -> Seq<u8> {
    seq![QUOTE, 100, 116, 121, 112, 101, QUOTE, COLON]
}

/// The bytes of `"shape":`.
pub open spec fn lit_shape_key() -> Seq<u8> {
    seq![QUOTE, 115, 104, 97, 112, 101, QUOTE, COLON]
}

/// The bytes of `"data_offsets":`.
pub open spec fn lit_offsets_key() -> Seq<u8> {
    seq![QUOTE, 100, 97, 116, 97, 95, 111, 102, 102, 115, 101, 116, 115, QUOTE, COLON]
}

/// The byte run of the reserved metadata key, unquoted.
pub open spec fn reserved_key_bytes() -> Seq<u8> {
    seq![95, 95, 109, 101, 116, 97, 100, 97, 116, 97, 95, 95]
}

/// One tensor entry: `"name":{"dtype":D,"shape":S,"data_offsets":[a,b]}`.
pub open spec fn enc_entry(e: EntryModel) -> Seq<u8> {
    enc_str(e.name) + seq![COLON, LBRACE] + lit_dtype_key() + enc_str(e.dtype.name_bytes())
        + seq![COMMA] + lit_shape_key() + enc_shape(e.shape) + seq![COMMA] + lit_offsets_key()
        + seq![LBRACK] + dec_digits(e.start) + seq![COMMA] + dec_digits(e.end)
        + seq![RBRACK, RBRACE]
}

/// The tensor entries, comma-separated.
pub open spec fn enc_entries(es: Seq<EntryModel>) -> Seq<u8>
    decreases es.len(),
{
    if es.len() == 0 {
        Seq::empty()
    } else if es.len() == 1 {
        enc_entry(es[0])
    } else {
        enc_entries(es.drop_last()) + seq![COMMA] + enc_entry(es.last())
    }
}

/// The metadata pairs, comma-separated `"key":"value"` items.
pub open spec fn enc_meta_items(m: Seq<(Seq<u8>, Seq<u8>)>) -> Seq<u8>
    decreases m.len(),
{
    if m.len() == 0 {
        Seq::empty()
    } else if m.len() == 1 {
        enc_str(m[0].0) + seq![COLON] + enc_str(m[0].1)
    } else {
        enc_meta_items(m.drop_last()) + seq![COMMA] + enc_str(m.last().0) + seq![COLON]
            + enc_str(m.last().1)
    }
}

/// The metadata block: `"__metadata__":{pairs}`.
pub open spec fn enc_meta(m: Seq<(Seq<u8>, Seq<u8>)>) -> Seq<u8> {
    enc_str(reserved_key_bytes()) + seq![COLON, LBRACE] + enc_meta_items(m) + seq![RBRACE]
}

/// Everything between the header's outer braces: the metadata block first
/// if present, then the tensor entries.
pub open spec fn enc_header_items(h: HeaderModel) -> Seq<u8> {
    match h.metadata {
        None => enc_entries(h.entries),
        Some(m) => if h.entries.len() == 0 {
            enc_meta(m)
        } else {
            enc_meta(m) + seq![COMMA] + enc_entries(h.entries)
        },
    }
}

/// The whole header document.
pub open spec fn enc_header(h: HeaderModel) -> Seq<u8> {
    seq![LBRACE] + enc_header_items(h) + seq![RBRACE]
}

/// Where tensor `i`'s bytes start in the data section: the sum of the data
/// lengths of the tensors before it.
pub open spec fn offset_at(ts: Seq<(Seq<char>, TensorData)>, i: int) -> nat
    decreases i,
{
    if i <= 0 {
        0
    } else {
        offset_at(ts, i - 1) + ts[i - 1].1.data.len()
    }
}

/// The length of the whole data section.
pub open spec fn total_data_len(c: ContainerModel) -> nat {
    offset_at(c.tensors, c.tensors.len() as int)
}

/// The header a container serializes to: names become their UTF-8 bytes,
/// and each tensor's byte range follows the one before it with no gap.
pub open spec fn header_of(c: ContainerModel) -> HeaderModel {
    HeaderModel {
        entries: Seq::new(
            c.tensors.len(),
            |i: int| EntryModel {
                name: encode_utf8(c.tensors[i].0),
                dtype: c.tensors[i].1.dtype,
                shape: c.tensors[i].1.shape,
                start: offset_at(c.tensors, i),
                end: offset_at(c.tensors, i) + c.tensors[i].1.data.len(),
            },
        ),
        metadata: match c.metadata {
            None => None,
            Some(m) => Some(
                Seq::new(m.len(), |i: int| (encode_utf8(m[i].0), encode_utf8(m[i].1))),
            ),
        },
    }
}

/// The data section: every tensor's bytes, in container order.
pub open spec fn data_concat(ts: Seq<(Seq<char>, TensorData)>) -> Seq<u8>
    decreases ts.len(),
{
    if ts.len() == 0 {
        Seq::empty()
    } else {
        data_concat(ts.drop_last()) + ts.last().1.data
    }
}

/// The full serialized form of a container: 8-byte little-endian header
/// length, the header document, then the data section.
pub open spec fn spec_serialize(c: ContainerModel) -> Seq<u8> {
    let hb = enc_header(header_of(c));
    vstd::bytes::spec_u64_to_le_bytes(hb.len() as u64) + hb + data_concat(c.tensors)
}

/// Offsets never shrink as the index grows.
pub proof fn lemma_offset_mono(ts: Seq<(Seq<char>, TensorData)>, i: int, j: int)
    requires
        0 <= i <= j,
    ensures
        offset_at(ts, i) <= offset_at(ts, j),
    decreases j - i,
{
    if i < j {
        lemma_offset_mono(ts, i, j - 1);
    }
}

/// The data section is exactly as long as the offsets say.
pub proof fn lemma_data_concat_len(ts: Seq<(Seq<char>, TensorData)>)
    ensures
        data_concat(ts).len() == offset_at(ts, ts.len() as int),
    decreases ts.len(),
{
    if ts.len() > 0 {
        lemma_data_concat_len(ts.drop_last());
        assert(offset_at(ts.drop_last(), ts.len() - 1) == offset_at(ts, ts.len() - 1)) by {
            lemma_offset_take_agree(ts, ts.len() - 1);
        }
    }
}

/// Offsets up to `i` do not depend on the entries from `i` on.
pub proof fn lemma_offset_take_agree(ts: Seq<(Seq<char>, TensorData)>, i: int)
    requires
        0 <= i < ts.len(),
    ensures
        offset_at(ts.drop_last(), i) == offset_at(ts, i),
    decreases i,
{
    if i > 0 {
        lemma_offset_take_agree(ts, i - 1);
    }
}

/// Escaping distributes over concatenation.
pub proof fn lemma_esc_append(a: Seq<u8>, b: Seq<u8>)
    ensures
        esc(a + b) == esc(a) + esc(b),
    decreases a.len(),
{
    if a.len() == 0 {
        assert(a + b =~= b);
        assert(esc(a) + esc(b) =~= esc(b));
    } else {
        assert((a + b)[0] == a[0]);
        assert((a + b).skip(1) =~= a.skip(1) + b);
        lemma_esc_append(a.skip(1), b);
        assert(esc(a + b) =~= esc(a) + esc(b));
    }
}


/// Escaping changes nothing in a run without quotes or backslashes.
pub proof fn lemma_esc_plain(b: Seq<u8>)
    requires
        forall|k: int| 0 <= k < b.len() ==> b[k] != QUOTE && b[k] != BACKSLASH,
    ensures
        esc(b) == b,
    decreases b.len(),
{
    if b.len() > 0 {
        lemma_esc_plain(b.skip(1));
        assert(esc(b) =~= b);
    }
}

/// Appends `src` unchanged.
pub fn push_bytes(out: &mut Vec<u8>, src: &[u8])
    ensures
        final(out)@ == old(out)@ + src@,
{
    let n = src.len();
    let mut i: usize = 0;
    while i < n
        invariant
            n == src@.len(),
            i <= n,
            out@ == old(out)@ + src@.take(i as int),
        decreases n - i,
    {
        out.push(src[i]);
        proof {
            assert(src@.take(i + 1) =~= src@.take(i as int).push(src@[i as int]));
            assert(out@ =~= old(out)@ + src@.take(i + 1));
        }
        i += 1;
    }
    proof {
        assert(src@.take(n as int) =~= src@);
    }
}

/// Appends `src` with quotes and backslashes escaped.
fn push_escaped(out: &mut Vec<u8>, src: &[u8])
    ensures
        final(out)@ == old(out)@ + esc(src@),
{
    let n = src.len();
    let mut i: usize = 0;
    while i < n
        invariant
            n == src@.len(),
            i <= n,
            out@ == old(out)@ + esc(src@.take(i as int)),
        decreases n - i,
    {
        let b = src[i];
        proof {
            let single = seq![src@[i as int]];
            assert(single.len() == 1);
            assert(single[0] == src@[i as int]);
            assert(single.skip(1) =~= Seq::<u8>::empty());
            assert(esc(Seq::<u8>::empty()) =~= Seq::<u8>::empty());
            if src@[i as int] == QUOTE || src@[i as int] == BACKSLASH {
                assert(esc(single) =~= seq![BACKSLASH, src@[i as int]]);
            } else {
                assert(esc(single) =~= seq![src@[i as int]]);
            }
            assert(src@.take(i + 1) =~= src@.take(i as int) + single);
            lemma_esc_append(src@.take(i as int), single);
        }
        if b == QUOTE || b == BACKSLASH {
            out.push(BACKSLASH);
            out.push(b);
        } else {
            out.push(b);
        }
        proof {
            assert(out@ =~= old(out)@ + esc(src@.take(i + 1)));
        }
        i += 1;
    }
    proof {
        assert(src@.take(n as int) =~= src@);
    }
}

/// Appends `src` as a quoted, escaped string.
fn push_quoted(out: &mut Vec<u8>, src: &[u8])
    ensures
        final(out)@ == old(out)@ + enc_str(src@),
{
    out.push(QUOTE);
    push_escaped(out, src);
    out.push(QUOTE);
    proof {
        assert(out@ =~= old(out)@ + enc_str(src@));
    }
}

/// Appends the canonical decimal digits of `n`.
pub fn push_decimal(out: &mut Vec<u8>, n: usize)
    ensures
        final(out)@ == old(out)@ + dec_digits(n as nat),
    decreases n,
{
    if n < 10 {
        out.push(48 + (n as u8));
        proof {
            assert(out@ =~= old(out)@ + dec_digits(n as nat));
        }
    } else {
        push_decimal(out, n / 10);
        out.push(48 + ((n % 10) as u8));
        proof {
            assert(out@ =~= old(out)@ + dec_digits(n as nat));
        }
    }
}

/// How one more extent extends the encoded shape list.
proof fn lemma_shape_items_step(shape: Seq<usize>, i: int)
    requires
        0 <= i < shape.len(),
    ensures
        enc_shape_items(shape.take(i + 1)) == if i == 0 {
            dec_digits(shape[0] as nat)
        } else {
            enc_shape_items(shape.take(i)) + seq![COMMA] + dec_digits(shape[i] as nat)
        },
{
    let t = shape.take(i + 1);
    assert(t.len() == i + 1);
    if i == 0 {
        assert(t[0] == shape[0]);
    } else {
        assert(t.drop_last() =~= shape.take(i));
        assert(t.last() == shape[i]);
    }
}

/// Appends the bracketed shape list.
fn push_shape(out: &mut Vec<u8>, shape: &Vec<usize>)
    ensures
        final(out)@ == old(out)@ + enc_shape(shape@),
{
    out.push(LBRACK);
    let n = shape.len();
    let mut i: usize = 0;
    while i < n
        invariant
            n == shape@.len(),
            i <= n,
            out@ == old(out)@ + seq![LBRACK] + enc_shape_items(shape@.take(i as int)),
        decreases n - i,
    {
        if i > 0 {
            out.push(COMMA);
        }
        push_decimal(out, shape[i]);
        proof {
            lemma_shape_items_step(shape@, i as int);
            assert(out@ =~= old(out)@ + seq![LBRACK] + enc_shape_items(shape@.take(i + 1)));
        }
        i += 1;
    }
    out.push(RBRACK);
    proof {
        assert(shape@.take(n as int) =~= shape@);
        assert(out@ =~= old(out)@ + enc_shape(shape@));
    }
}

/// Appends `"dtype":`.
fn push_dtype_key(out: &mut Vec<u8>)
    ensures
        final(out)@ == old(out)@ + lit_dtype_key(),
{
    out.push(QUOTE);
    out.push(100);
    out.push(116);
    out.push(121);
    out.push(112);
    out.push(101);
    out.push(QUOTE);
    out.push(COLON);
    proof {
        assert(out@ =~= old(out)@ + lit_dtype_key());
    }
}

/// Appends `"shape":`.
fn push_shape_key(out: &mut Vec<u8>)
    ensures
        final(out)@ == old(out)@ + lit_shape_key(),
{
    out.push(QUOTE);
    out.push(115);
    out.push(104);
    out.push(97);
    out.push(112);
    out.push(101);
    out.push(QUOTE);
    out.push(COLON);
    proof {
        assert(out@ =~= old(out)@ + lit_shape_key());
    }
}

/// Appends `"data_offsets":`.
fn push_offsets_key(out: &mut Vec<u8>)
    ensures
        final(out)@ == old(out)@ + lit_offsets_key(),
{
    out.push(QUOTE);
    out.push(100);
    out.push(97);
    out.push(116);
    out.push(97);
    out.push(95);
    out.push(111);
    out.push(102);
    out.push(102);
    out.push(115);
    out.push(101);
    out.push(116);
    out.push(115);
    out.push(QUOTE);
    out.push(COLON);
    proof {
        assert(out@ =~= old(out)@ + lit_offsets_key());
    }
}

/// Appends `"__metadata__"` (quoted; its bytes need no escaping).
fn push_reserved_key(out: &mut Vec<u8>)
    ensures
        final(out)@ == old(out)@ + enc_str(reserved_key_bytes()),
{
    out.push(QUOTE);
    out.push(95);
    out.push(95);
    out.push(109);
    out.push(101);
    out.push(116);
    out.push(97);
    out.push(100);
    out.push(97);
    out.push(116);
    out.push(97);
    out.push(95);
    out.push(95);
    out.push(QUOTE);
    proof {
        lemma_esc_plain(reserved_key_bytes());
        assert(out@ =~= old(out)@ + enc_str(reserved_key_bytes()));
    }
}

/// Appends one tensor entry with the given byte range.
#[verifier::rlimit(60)]
fn push_entry(out: &mut Vec<u8>, name: &str, dtype: &crate::dtype::Dtype, shape: &Vec<usize>,
    start: usize, end: usize)
    ensures
        final(out)@ == old(out)@ + enc_entry(EntryModel {
            name: encode_utf8(name@),
            dtype: *dtype,
            shape: shape@,
            start: start as nat,
            end: end as nat,
        }),
{
    push_quoted(out, name.as_bytes());
    out.push(COLON);
    out.push(LBRACE);
    push_dtype_key(out);
    out.push(QUOTE);
    dtype.push_name(out);
    out.push(QUOTE);
    out.push(COMMA);
    push_shape_key(out);
    push_shape(out, shape);
    out.push(COMMA);
    push_offsets_key(out);
    out.push(LBRACK);
    push_decimal(out, start);
    out.push(COMMA);
    push_decimal(out, end);
    out.push(RBRACK);
    out.push(RBRACE);
    proof {
        lemma_esc_plain(dtype.name_bytes());
        assert(out@ =~= old(out)@ + enc_entry(EntryModel {
            name: encode_utf8(name@),
            dtype: *dtype,
            shape: shape@,
            start: start as nat,
            end: end as nat,
        }));
    }
}

/// How one more pair extends the encoded metadata items.
proof fn lemma_meta_items_step(m: Seq<(Seq<u8>, Seq<u8>)>, i: int)
    requires
        0 <= i < m.len(),
    ensures
        enc_meta_items(m.take(i + 1)) == if i == 0 {
            enc_str(m[0].0) + seq![COLON] + enc_str(m[0].1)
        } else {
            enc_meta_items(m.take(i)) + seq![COMMA] + enc_str(m[i].0) + seq![COLON]
                + enc_str(m[i].1)
        },
{
    let t = m.take(i + 1);
    assert(t.len() == i + 1);
    if i == 0 {
        assert(t[0] == m[0]);
    } else {
        assert(t.drop_last() =~= m.take(i));
        assert(t.last() == m[i]);
    }
}

/// Appends the metadata block for these pairs.
fn push_meta(out: &mut Vec<u8>, m: &Vec<(String, String)>)
    ensures
        final(out)@ == old(out)@ + enc_meta(
            Seq::new(m@.len(), |i: int| (encode_utf8(m@[i].0@), encode_utf8(m@[i].1@))),
        ),
{
    let ghost pairs: Seq<(Seq<u8>, Seq<u8>)> =
        Seq::new(m@.len(), |i: int| (encode_utf8(m@[i].0@), encode_utf8(m@[i].1@)));
    push_reserved_key(out);
    out.push(COLON);
    out.push(LBRACE);
    let n = m.len();
    let mut i: usize = 0;
    while i < n
        invariant
            n == m@.len(),
            i <= n,
            pairs == Seq::new(m@.len(), |k: int| (encode_utf8(m@[k].0@), encode_utf8(m@[k].1@))),
            out@ == old(out)@ + enc_str(reserved_key_bytes()) + seq![COLON, LBRACE]
                + enc_meta_items(pairs.take(i as int)),
        decreases n - i,
    {
        if i > 0 {
            out.push(COMMA);
        }
        push_quoted(out, m[i].0.as_str().as_bytes());
        out.push(COLON);
        push_quoted(out, m[i].1.as_str().as_bytes());
        proof {
            lemma_meta_items_step(pairs, i as int);
            assert(pairs[i as int] == (encode_utf8(m@[i as int].0@), encode_utf8(m@[i as int].1@)));
            assert(out@ =~= old(out)@ + enc_str(reserved_key_bytes()) + seq![COLON, LBRACE]
                + enc_meta_items(pairs.take(i + 1)));
        }
        i += 1;
    }
    out.push(RBRACE);
    proof {
        assert(pairs.take(n as int) =~= pairs);
        assert(out@ =~= old(out)@ + enc_meta(pairs));
    }
}

/// The header items once the first `i` tensor entries are in place.
pub open spec fn enc_items_prefix(h: HeaderModel, i: int) -> Seq<u8> {
    match h.metadata {
        None => enc_entries(h.entries.take(i)),
        Some(m) => if i == 0 {
            enc_meta(m)
        } else {
            enc_meta(m) + seq![COMMA] + enc_entries(h.entries.take(i))
        },
    }
}

/// How one more entry extends the encoded entry list.
proof fn lemma_entries_step(es: Seq<EntryModel>, i: int)
    requires
        0 <= i < es.len(),
    ensures
        enc_entries(es.take(i + 1)) == if i == 0 {
            enc_entry(es[0])
        } else {
            enc_entries(es.take(i)) + seq![COMMA] + enc_entry(es[i])
        },
{
    let t = es.take(i + 1);
    assert(t.len() == i + 1);
    if i == 0 {
        assert(t[0] == es[0]);
    } else {
        assert(t.drop_last() =~= es.take(i));
        assert(t.last() == es[i]);
    }
}

/// Builds the header document for a container: metadata block first if
/// present, then one entry per tensor, with contiguous byte ranges starting
/// at zero.
#[verifier::rlimit(60)]
pub fn encode_header(c: &Container) -> (r: Vec<u8>)
    requires
        total_data_len(c@) <= usize::MAX,
    ensures
        r@ == enc_header(header_of(c@)),
{
    let ghost h = header_of(c@);
    let mut out: Vec<u8> = Vec::new();
    out.push(LBRACE);
    let mut has_meta: bool = false;
    match &c.metadata {
        Some(m) => {
            push_meta(&mut out, m);
            has_meta = true;
            proof {
                match h.metadata {
                    Some(hm) => {
                        assert(hm =~= Seq::new(
                            m@.len(),
                            |i: int| (encode_utf8(m@[i].0@), encode_utf8(m@[i].1@)),
                        ));
                    },
                    None => {
                        assert(false);
                    },
                }
                assert(h.entries.take(0) =~= Seq::<EntryModel>::empty());
                assert(out@ =~= seq![LBRACE] + enc_items_prefix(h, 0));
            }
        },
        None => {
            proof {
                assert(h.entries.take(0) =~= Seq::<EntryModel>::empty());
                assert(out@ =~= seq![LBRACE] + enc_items_prefix(h, 0));
            }
        },
    }
    let n = c.tensors.len();
    let mut off: usize = 0;
    let mut i: usize = 0;
    while i < n
        invariant
            n == c@.tensors.len(),
            h == header_of(c@),
            total_data_len(c@) <= usize::MAX,
            i <= n,
            off as nat == offset_at(c@.tensors, i as int),
            has_meta == (h.metadata is Some),
            out@ == seq![LBRACE] + enc_items_prefix(h, i as int),
        decreases n - i,
    {
        if has_meta || i > 0 {
            out.push(COMMA);
        }
        let pair = &c.tensors[i];
        let dlen = pair.1.data.len();
        proof {
            assert(c@.tensors[i as int] == (pair.0@, pair.1@));
            assert(offset_at(c@.tensors, i as int + 1)
                == offset_at(c@.tensors, i as int) + c@.tensors[i as int].1.data.len());
            lemma_offset_mono(c@.tensors, i as int + 1, n as int);
        }
        let end = off + dlen;
        push_entry(&mut out, pair.0.as_str(), &pair.1.dtype, &pair.1.shape, off, end);
        proof {
            lemma_entries_step(h.entries, i as int);
            assert(h.entries[i as int] =~= (EntryModel {
                name: encode_utf8(pair.0@),
                dtype: pair.1@.dtype,
                shape: pair.1@.shape,
                start: off as nat,
                end: end as nat,
            }));
            assert(out@ =~= seq![LBRACE] + enc_items_prefix(h, i as int + 1));
        }
        off = end;
        i += 1;
    }
    out.push(RBRACE);
    proof {
        assert(h.entries.take(n as int) =~= h.entries);
        if h.entries.len() == 0 {
            assert(enc_items_prefix(h, n as int) == enc_header_items(h));
        }
        assert(out@ =~= enc_header(h));
    }
    out
}

/// Serializes a container: the 8-byte little-endian header length, the
/// header document, then every tensor's bytes in container order. The same
/// container always yields the same bytes.
pub fn serialize(c: &Container) -> (r: Vec<u8>)
    requires
        spec_serialize(c@).len() <= usize::MAX,
    ensures
        r@ == spec_serialize(c@),
{
    proof {
        lemma_data_concat_len(c@.tensors);
        vstd::bytes::lemma_auto_spec_u64_to_from_le_bytes();
    }
    let hb = encode_header(c);
    let hlen = hb.len();
    let len_u64: u64 = hlen as u64;
    proof {
        assert(usize::MAX <= u64::MAX);
        assert(hb@.len() == enc_header(header_of(c@)).len());
        assert(len_u64 == enc_header(header_of(c@)).len() as u64);
    }
    let mut out = vstd::bytes::u64_to_le_bytes(len_u64);
    push_bytes(&mut out, hb.as_slice());
    let ghost head = vstd::bytes::spec_u64_to_le_bytes(
        enc_header(header_of(c@)).len() as u64,
    ) + enc_header(header_of(c@));
    let n = c.tensors.len();
    let mut i: usize = 0;
    while i < n
        invariant
            n == c@.tensors.len(),
            i <= n,
            head == vstd::bytes::spec_u64_to_le_bytes(enc_header(header_of(c@)).len() as u64)
                + enc_header(header_of(c@)),
            out@ == head + data_concat(c@.tensors.take(i as int)),
        decreases n - i,
    {
        let pair = &c.tensors[i];
        push_bytes(&mut out, pair.1.data.as_slice());
        proof {
            assert(c@.tensors[i as int] == (pair.0@, pair.1@));
            let t = c@.tensors.take(i + 1);
            assert(t.drop_last() =~= c@.tensors.take(i as int));
            assert(t.last() == c@.tensors[i as int]);
            assert(out@ =~= head + data_concat(c@.tensors.take(i + 1)));
        }
        i += 1;
    }
    proof {
        assert(c@.tensors.take(n as int) =~= c@.tensors);
        assert(out@ =~= head + data_concat(c@.tensors));
        assert(head + data_concat(c@.tensors) =~= spec_serialize(c@));
    }
    out
}

} // verus!
