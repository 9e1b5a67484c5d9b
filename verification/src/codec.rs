use vstd::prelude::*;
use vstd::bytes::*;
use vstd::utf8::*;
use crate::models::{val_of, DocModel, NVDocument, NVField, NVValue, Val};

verus! {

broadcast use {
    vstd::std_specs::vec::axiom_vec_index_decreases,
    vstd::std_specs::vec::axiom_vec_decreases_to_view,
    vstd::seq::axiom_seq_index_decreases,
    vstd::seq::axiom_seq_subrange_decreases,
};

// ---------------------------------------------------------------------------
// Encoding, in specification
// ---------------------------------------------------------------------------

/// Liveness/boolean marker byte.
pub open spec fn enc_bool(b: bool) -> u8 {
    if b {
        1u8
    } else {
        0u8
    }
}

/// A string encodes as its UTF-8 byte length, little-endian on four bytes,
/// followed by its UTF-8 bytes.
pub open spec fn enc_str(s: Seq<char>) -> Seq<u8> {
    spec_u32_to_le_bytes(encode_utf8(s).len() as u32) + encode_utf8(s)
}

/// A string whose UTF-8 byte length fits the four-byte length field.
pub open spec fn str_fits(s: Seq<char>) -> bool {
    encode_utf8(s).len() <= u32::MAX
}

/// A value encodes as a one-byte tag followed by its content.
pub open spec fn enc_val(v: Val) -> Seq<u8>
    decreases v,
{
    match v {
        Val::Null => seq![0u8],
        Val::Bool { b } => seq![1u8, enc_bool(b)],
        Val::Num { n } => seq![2u8] + spec_u64_to_le_bytes(n as u64),
        Val::Str { s } => seq![3u8] + enc_str(s),
        Val::Arr { items } => seq![4u8] + spec_u32_to_le_bytes(items.len() as u32) + enc_vals(
            items,
        ),
        Val::Obj { fields } => seq![5u8] + spec_u32_to_le_bytes(fields.len() as u32) + enc_entries(
            fields,
        ),
    }
}

/// Concatenated encodings of a value sequence.
pub open spec fn enc_vals(items: Seq<Val>) -> Seq<u8>
    decreases items,
{
    if items.len() == 0 {
        Seq::empty()
    } else {
        enc_val(items[0]) + enc_vals(items.drop_first())
    }
}

/// Concatenated encodings of an entry sequence: each key then its value.
pub open spec fn enc_entries(fields: Seq<(Seq<char>, Val)>) -> Seq<u8>
    decreases fields,
{
    if fields.len() == 0 {
        Seq::empty()
    } else {
        enc_str(fields[0].0) + enc_val(fields[0].1) + enc_entries(fields.drop_first())
    }
}

/// A value all of whose strings and element counts fit their length fields.
pub open spec fn val_fits(v: Val) -> bool
    decreases v,
{
    match v {
        Val::Null => true,
        Val::Bool { b } => true,
        Val::Num { n } => true,
        Val::Str { s } => str_fits(s),
        Val::Arr { items } => items.len() <= u32::MAX && vals_fit(items),
        Val::Obj { fields } => fields.len() <= u32::MAX && entries_fit(fields),
    }
}

/// Every value of the sequence fits.
pub open spec fn vals_fit(items: Seq<Val>) -> bool
    decreases items,
{
    items.len() == 0 || (val_fits(items[0]) && vals_fit(items.drop_first()))
}

/// Every entry of the sequence fits.
pub open spec fn entries_fit(fields: Seq<(Seq<char>, Val)>) -> bool
    decreases fields,
{
    fields.len() == 0 || (str_fits(fields[0].0) && val_fits(fields[0].1) && entries_fit(
        fields.drop_first(),
    ))
}

/// A document all of whose strings and counts fit their length fields.
pub open spec fn doc_fits(d: DocModel) -> bool {
    str_fits(d.id) && str_fits(d.collection) && d.data.len() <= u32::MAX && entries_fit(d.data)
}

/// A document encodes as identifier, collection, both timestamps, the
/// liveness flag, and the field map prefixed with its entry count.
pub open spec fn enc_doc(d: DocModel) -> Seq<u8> {
    enc_str(d.id) + enc_str(d.collection) + spec_u64_to_le_bytes(d.created_at as u64)
        + spec_u64_to_le_bytes(d.updated_at as u64) + seq![enc_bool(d.deleted)]
        + spec_u32_to_le_bytes(d.data.len() as u32) + enc_entries(d.data)
}

// ---------------------------------------------------------------------------
// Decoding, in specification
// ---------------------------------------------------------------------------

/// Four little-endian bytes read at a position, with the next position.
pub open spec fn dec_u32(s: Seq<u8>, pos: int) -> Option<(u32, int)> {
    if 0 <= pos && pos + 4 <= s.len() {
        Some((spec_u32_from_le_bytes(s.subrange(pos, pos + 4)), pos + 4))
    } else {
        None
    }
}

/// Eight little-endian bytes read at a position, with the next position.
pub open spec fn dec_u64(s: Seq<u8>, pos: int) -> Option<(u64, int)> {
    if 0 <= pos && pos + 8 <= s.len() {
        Some((spec_u64_from_le_bytes(s.subrange(pos, pos + 8)), pos + 8))
    } else {
        None
    }
}

/// A length-prefixed UTF-8 string read at a position.
pub open spec fn dec_str(s: Seq<u8>, pos: int) -> Option<(Seq<char>, int)> {
    match dec_u32(s, pos) {
        Some((n, p)) => {
            if p + n <= s.len() && valid_utf8(s.subrange(p, p + n)) {
                Some((decode_utf8(s.subrange(p, p + n)), p + n))
            } else {
                None
            }
        },
        None => None,
    }
}

/// A tagged value read at a position, with the next position.
pub open spec fn dec_val(s: Seq<u8>, pos: int) -> Option<(Val, int)>
    decreases s.len() - pos, 0int, 0int,
{
    if pos < 0 || pos >= s.len() {
        None
    } else if s[pos] == 0 {
        Some((Val::Null, pos + 1))
    } else if s[pos] == 1 {
        if pos + 2 <= s.len() && s[pos + 1] <= 1 {
            Some((Val::Bool { b: s[pos + 1] == 1 }, pos + 2))
        } else {
            None
        }
    } else if s[pos] == 2 {
        match dec_u64(s, pos + 1) {
            Some((x, p)) => Some((Val::Num { n: x as i64 }, p)),
            None => None,
        }
    } else if s[pos] == 3 {
        match dec_str(s, pos + 1) {
            Some((str0, p)) => Some((Val::Str { s: str0 }, p)),
            None => None,
        }
    } else if s[pos] == 4 {
        match dec_u32(s, pos + 1) {
            Some((n, p)) => match dec_vals(s, p, n as nat) {
                Some((items, p2)) => Some((Val::Arr { items }, p2)),
                None => None,
            },
            None => None,
        }
    } else if s[pos] == 5 {
        match dec_u32(s, pos + 1) {
            Some((n, p)) => match dec_entries(s, p, n as nat) {
                Some((fields, p2)) => Some((Val::Obj { fields }, p2)),
                None => None,
            },
            None => None,
        }
    } else {
        None
    }
}

/// A run of `count` values read at a position.
pub open spec fn dec_vals(s: Seq<u8>, pos: int, count: nat) -> Option<(Seq<Val>, int)>
    decreases s.len() - pos, 1int, count,
{
    if pos < 0 || pos > s.len() {
        None
    } else if count == 0 {
        Some((Seq::empty(), pos))
    } else {
        match dec_val(s, pos) {
            Some((v, p)) => {
                if pos < p <= s.len() {
                    match dec_vals(s, p, (count - 1) as nat) {
                        Some((rest, p2)) => Some((seq![v] + rest, p2)),
                        None => None,
                    }
                } else {
                    None
                }
            },
            None => None,
        }
    }
}

/// A run of `count` key/value entries read at a position.
pub open spec fn dec_entries(s: Seq<u8>, pos: int, count: nat) -> Option<
    (Seq<(Seq<char>, Val)>, int),
>
    decreases s.len() - pos, 1int, count,
{
    if pos < 0 || pos > s.len() {
        None
    } else if count == 0 {
        Some((Seq::empty(), pos))
    } else {
        match dec_str(s, pos) {
            Some((key, p)) => {
                if pos < p <= s.len() {
                    match dec_val(s, p) {
                        Some((v, p2)) => {
                            if p < p2 <= s.len() {
                                match dec_entries(s, p2, (count - 1) as nat) {
                                    Some((rest, p3)) => Some((seq![(key, v)] + rest, p3)),
                                    None => None,
                                }
                            } else {
                                None
                            }
                        },
                        None => None,
                    }
                } else {
                    None
                }
            },
            None => None,
        }
    }
}

/// A whole document payload: every byte of `s` must be consumed.
pub open spec fn dec_doc(s: Seq<u8>) -> Option<DocModel> {
    match dec_str(s, 0) {
        Some((id, p1)) => match dec_str(s, p1) {
            Some((collection, p2)) => match dec_u64(s, p2) {
                Some((created, p3)) => match dec_u64(s, p3) {
                    Some((updated, p4)) => {
                        if p4 + 1 <= s.len() && s[p4] <= 1 {
                            match dec_u32(s, p4 + 1) {
                                Some((n, p5)) => match dec_entries(s, p5, n as nat) {
                                    Some((fields, p6)) => {
                                        if p6 == s.len() {
                                            Some(
                                                DocModel {
                                                    id,
                                                    collection,
                                                    data: fields,
                                                    created_at: created as i64,
                                                    updated_at: updated as i64,
                                                    deleted: s[p4] == 1,
                                                },
                                            )
                                        } else {
                                            None
                                        }
                                    },
                                    None => None,
                                },
                                None => None,
                            }
                        } else {
                            None
                        }
                    },
                    None => None,
                },
                None => None,
            },
            None => None,
        },
        None => None,
    }
}

// ---------------------------------------------------------------------------
// Round trip: decoding an encoding gives the encoded value back
// ---------------------------------------------------------------------------

/// Reading four little-endian bytes embedded at `pos` gives the written
/// word back.
proof fn lemma_dec_enc_u32(x: u32, s: Seq<u8>, pos: int)
    requires
        0 <= pos,
        pos + 4 <= s.len(),
        s.subrange(pos, pos + 4) == spec_u32_to_le_bytes(x),
    ensures
        dec_u32(s, pos) == Some((x, pos + 4)),
{
    lemma_auto_spec_u32_to_from_le_bytes();
    assert(spec_u32_to_le_bytes(x).len() == 4);
    assert(spec_u32_from_le_bytes(spec_u32_to_le_bytes(x)) == x);
}

/// Reading eight little-endian bytes embedded at `pos` gives the written
/// word back.
proof fn lemma_dec_enc_u64(x: u64, s: Seq<u8>, pos: int)
    requires
        0 <= pos,
        pos + 8 <= s.len(),
        s.subrange(pos, pos + 8) == spec_u64_to_le_bytes(x),
    ensures
        dec_u64(s, pos) == Some((x, pos + 8)),
{
    lemma_auto_spec_u64_to_from_le_bytes();
    assert(spec_u64_to_le_bytes(x).len() == 8);
    assert(spec_u64_from_le_bytes(spec_u64_to_le_bytes(x)) == x);
}

/// Reading a string embedded at `pos` gives the written string back.
proof fn lemma_dec_enc_str(t: Seq<char>, s: Seq<u8>, pos: int)
    requires
        str_fits(t),
        0 <= pos,
        pos + enc_str(t).len() <= s.len(),
        s.subrange(pos, pos + enc_str(t).len()) == enc_str(t),
    ensures
        dec_str(s, pos) == Some((t, pos + enc_str(t).len())),
{
    broadcast use {encode_utf8_valid_utf8, encode_utf8_decode_utf8};

    let bs = encode_utf8(t);
    let n = bs.len() as u32;
    let e = enc_str(t);
    assert(e.len() == 4 + bs.len()) by {
        lemma_auto_spec_u32_to_from_le_bytes();
    }
    assert(s.subrange(pos, pos + 4) =~= e.subrange(0, 4));
    assert(e.subrange(0, 4) =~= spec_u32_to_le_bytes(n));
    lemma_dec_enc_u32(n, s, pos);
    assert(s.subrange(pos + 4, pos + 4 + n) =~= e.subrange(4, e.len() as int));
    assert(e.subrange(4, e.len() as int) =~= bs);
}

/// Reading a value embedded at `pos` gives the written value back.
#[verifier::rlimit(50)]
proof fn lemma_dec_enc_val(v: Val, s: Seq<u8>, pos: int)
    requires
        val_fits(v),
        0 <= pos,
        pos + enc_val(v).len() <= s.len(),
        s.subrange(pos, pos + enc_val(v).len()) == enc_val(v),
    ensures
        dec_val(s, pos) == Some((v, pos + enc_val(v).len())),
    decreases v, 0int, 0int,
{
    let e = enc_val(v);
    assert(e.len() >= 1) by {
        lemma_auto_spec_u32_to_from_le_bytes();
        lemma_auto_spec_u64_to_from_le_bytes();
    }
    assert(s[pos] == e[0]);
    match v {
        Val::Null => {},
        Val::Bool { b } => {
            assert(s[pos + 1] == e[1]);
        },
        Val::Num { n } => {
            lemma_auto_spec_u64_to_from_le_bytes();
            assert(s.subrange(pos + 1, pos + 9) =~= e.subrange(1, 9));
            assert(e.subrange(1, 9) =~= spec_u64_to_le_bytes(n as u64));
            lemma_dec_enc_u64(n as u64, s, pos + 1);
            let ni: i64 = n;
            assert((ni as u64) as i64 == ni) by (bit_vector);
        },
        Val::Str { s: t } => {
            assert(s.subrange(pos + 1, pos + 1 + enc_str(t).len()) =~= e.subrange(
                1,
                e.len() as int,
            ));
            assert(e.subrange(1, e.len() as int) =~= enc_str(t));
            lemma_dec_enc_str(t, s, pos + 1);
        },
        Val::Arr { items } => {
            lemma_auto_spec_u32_to_from_le_bytes();
            assert(s.subrange(pos + 1, pos + 5) =~= e.subrange(1, 5));
            assert(e.subrange(1, 5) =~= spec_u32_to_le_bytes(items.len() as u32));
            lemma_dec_enc_u32(items.len() as u32, s, pos + 1);
            assert(s.subrange(pos + 5, pos + 5 + enc_vals(items).len()) =~= e.subrange(
                5,
                e.len() as int,
            ));
            assert(e.subrange(5, e.len() as int) =~= enc_vals(items));
            assert((items.len() as u32) as nat == items.len());
            lemma_dec_enc_vals(items, s, pos + 5);
        },
        Val::Obj { fields } => {
            lemma_auto_spec_u32_to_from_le_bytes();
            assert(s.subrange(pos + 1, pos + 5) =~= e.subrange(1, 5));
            assert(e.subrange(1, 5) =~= spec_u32_to_le_bytes(fields.len() as u32));
            lemma_dec_enc_u32(fields.len() as u32, s, pos + 1);
            assert(s.subrange(pos + 5, pos + 5 + enc_entries(fields).len()) =~= e.subrange(
                5,
                e.len() as int,
            ));
            assert(e.subrange(5, e.len() as int) =~= enc_entries(fields));
            assert((fields.len() as u32) as nat == fields.len());
            lemma_dec_enc_entries(fields, s, pos + 5);
        },
    }
}

/// Reading a run of values embedded at `pos` gives the written run back.
proof fn lemma_dec_enc_vals(items: Seq<Val>, s: Seq<u8>, pos: int)
    requires
        vals_fit(items),
        0 <= pos,
        pos + enc_vals(items).len() <= s.len(),
        s.subrange(pos, pos + enc_vals(items).len()) == enc_vals(items),
    ensures
        dec_vals(s, pos, items.len()) == Some((items, pos + enc_vals(items).len())),
    decreases items, 1int, 0int,
{
    if items.len() == 0 {
        assert(dec_vals(s, pos, 0) == Some((Seq::<Val>::empty(), pos)));
        assert(items =~= Seq::<Val>::empty());
    } else {
        let e = enc_vals(items);
        let e0 = enc_val(items[0]);
        let rest = items.drop_first();
        assert(e =~= e0 + enc_vals(rest));
        assert(s.subrange(pos, pos + e0.len()) =~= e.subrange(0, e0.len() as int));
        assert(e.subrange(0, e0.len() as int) =~= e0);
        lemma_dec_enc_val(items[0], s, pos);
        assert(e0.len() >= 1) by {
            lemma_auto_spec_u32_to_from_le_bytes();
            lemma_auto_spec_u64_to_from_le_bytes();
        }
        let p = pos + e0.len();
        assert(s.subrange(p, p + enc_vals(rest).len()) =~= e.subrange(
            e0.len() as int,
            e.len() as int,
        ));
        assert(e.subrange(e0.len() as int, e.len() as int) =~= enc_vals(rest));
        lemma_dec_enc_vals(rest, s, p);
        assert(seq![items[0]] + rest =~= items);
    }
}

/// Reading a run of entries embedded at `pos` gives the written run back.
proof fn lemma_dec_enc_entries(fields: Seq<(Seq<char>, Val)>, s: Seq<u8>, pos: int)
    requires
        entries_fit(fields),
        0 <= pos,
        pos + enc_entries(fields).len() <= s.len(),
        s.subrange(pos, pos + enc_entries(fields).len()) == enc_entries(fields),
    ensures
        dec_entries(s, pos, fields.len()) == Some((fields, pos + enc_entries(fields).len())),
    decreases fields, 1int, 0int,
{
    if fields.len() == 0 {
        assert(fields =~= Seq::<(Seq<char>, Val)>::empty());
    } else {
        let e = enc_entries(fields);
        let ek = enc_str(fields[0].0);
        let ev = enc_val(fields[0].1);
        let rest = fields.drop_first();
        assert(e =~= ek + ev + enc_entries(rest));
        assert(ek.len() >= 4 && ev.len() >= 1) by {
            lemma_auto_spec_u32_to_from_le_bytes();
            lemma_auto_spec_u64_to_from_le_bytes();
        }
        assert(s.subrange(pos, pos + ek.len()) =~= e.subrange(0, ek.len() as int));
        assert(e.subrange(0, ek.len() as int) =~= ek);
        lemma_dec_enc_str(fields[0].0, s, pos);
        let p = pos + ek.len();
        assert(s.subrange(p, p + ev.len()) =~= e.subrange(ek.len() as int, (ek.len() + ev.len()) as int));
        assert(e.subrange(ek.len() as int, (ek.len() + ev.len()) as int) =~= ev);
        lemma_dec_enc_val(fields[0].1, s, p);
        let p2 = p + ev.len();
        assert(s.subrange(p2, p2 + enc_entries(rest).len()) =~= e.subrange(
            (ek.len() + ev.len()) as int,
            e.len() as int,
        ));
        assert(e.subrange((ek.len() + ev.len()) as int, e.len() as int) =~= enc_entries(rest));
        lemma_dec_enc_entries(rest, s, p2);
        assert(seq![fields[0]] + rest =~= fields);
    }
}

/// Round trip: decoding the encoding of any document that fits its length
/// fields gives the identical document back, field map and identifiers
/// included.
pub proof fn lemma_dec_enc_doc(d: DocModel)
    requires
        doc_fits(d),
    ensures
        dec_doc(enc_doc(d)) == Some(d),
{
    lemma_auto_spec_u32_to_from_le_bytes();
    lemma_auto_spec_u64_to_from_le_bytes();
    let s = enc_doc(d);
    let eid = enc_str(d.id);
    let ecol = enc_str(d.collection);
    let ec = spec_u64_to_le_bytes(d.created_at as u64);
    let eu = spec_u64_to_le_bytes(d.updated_at as u64);
    let ef = enc_entries(d.data);
    let p1 = eid.len() as int;
    let p2 = p1 + ecol.len();
    let p3 = p2 + 8;
    let p4 = p3 + 8;
    let p5 = p4 + 1 + 4;
    assert(s.len() == p5 + ef.len());
    assert(s.subrange(0, p1) =~= eid);
    lemma_dec_enc_str(d.id, s, 0);
    assert(s.subrange(p1, p2) =~= ecol);
    lemma_dec_enc_str(d.collection, s, p1);
    assert(s.subrange(p2, p3) =~= ec);
    lemma_dec_enc_u64(d.created_at as u64, s, p2);
    assert(s.subrange(p3, p4) =~= eu);
    lemma_dec_enc_u64(d.updated_at as u64, s, p3);
    assert(s[p4] == enc_bool(d.deleted));
    assert(s.subrange(p4 + 1, p4 + 5) =~= spec_u32_to_le_bytes(d.data.len() as u32));
    lemma_dec_enc_u32(d.data.len() as u32, s, p4 + 1);
    assert(s.subrange(p5, p5 + ef.len()) =~= ef);
    assert((d.data.len() as u32) as nat == d.data.len());
    lemma_dec_enc_entries(d.data, s, p5);
    let ca: i64 = d.created_at;
    let ua: i64 = d.updated_at;
    assert((ca as u64) as i64 == ca) by (bit_vector);
    assert((ua as u64) as i64 == ua) by (bit_vector);
}

// ---------------------------------------------------------------------------
// Progress: a successful read always advances, and never past the end
// ---------------------------------------------------------------------------

/// A decoded value occupies at least one byte and ends inside the input.
proof fn lemma_dec_val_advances(s: Seq<u8>, pos: int)
    ensures
        dec_val(s, pos) matches Some((v, p)) ==> pos < p <= s.len(),
    decreases s.len() - pos, 0int, 0int,
{
    if 0 <= pos < s.len() && (s[pos] == 4 || s[pos] == 5) {
        if let Some((n, p)) = dec_u32(s, pos + 1) {
            lemma_dec_vals_advances(s, p, n as nat);
            lemma_dec_entries_advances(s, p, n as nat);
        }
    }
}

/// A decoded run of values never moves backward, and ends inside the input.
proof fn lemma_dec_vals_advances(s: Seq<u8>, pos: int, count: nat)
    ensures
        dec_vals(s, pos, count) matches Some((vs, p)) ==> pos <= p <= s.len(),
    decreases s.len() - pos, 1int, count,
{
    if !(pos < 0 || pos > s.len()) && count > 0 {
        lemma_dec_val_advances(s, pos);
        if let Some((v, p)) = dec_val(s, pos) {
            if pos < p <= s.len() {
                lemma_dec_vals_advances(s, p, (count - 1) as nat);
            }
        }
    }
}

/// A decoded run of entries never moves backward, and ends inside the input.
proof fn lemma_dec_entries_advances(s: Seq<u8>, pos: int, count: nat)
    ensures
        dec_entries(s, pos, count) matches Some((fs, p)) ==> pos <= p <= s.len(),
    decreases s.len() - pos, 1int, count,
{
    if !(pos < 0 || pos > s.len()) && count > 0 {
        if let Some((key, p)) = dec_str(s, pos) {
            if pos < p <= s.len() {
                lemma_dec_val_advances(s, p);
                if let Some((v, p2)) = dec_val(s, p) {
                    if p < p2 <= s.len() {
                        lemma_dec_entries_advances(s, p2, (count - 1) as nat);
                    }
                }
            }
        }
    }
}

// ---------------------------------------------------------------------------
// Executable encoding
// ---------------------------------------------------------------------------

/// Appends a byte slice.
pub(crate) fn push_bytes(out: &mut Vec<u8>, bytes: &[u8])
    ensures
        final(out)@ == old(out)@ + bytes@,
{
    let mut i: usize = 0;
    while i < bytes.len()
        invariant
            i <= bytes@.len(),
            out@ == old(out)@ + bytes@.take(i as int),
        decreases bytes@.len() - i,
    {
        out.push(bytes[i]);
        proof {
            assert(old(out)@ + bytes@.take(i as int) + seq![bytes@[i as int]] =~= old(out)@
                + bytes@.take(i + 1));
        }
        i = i + 1;
    }
    proof {
        assert(bytes@.take(bytes@.len() as int) =~= bytes@);
    }
}

/// Appends a 32-bit word, little-endian.
pub(crate) fn push_u32(out: &mut Vec<u8>, x: u32)
    ensures
        final(out)@ == old(out)@ + spec_u32_to_le_bytes(x),
{
    let mut b = u32_to_le_bytes(x);
    out.append(&mut b);
}

/// Appends a 64-bit word, little-endian.
pub(crate) fn push_u64(out: &mut Vec<u8>, x: u64)
    ensures
        final(out)@ == old(out)@ + spec_u64_to_le_bytes(x),
{
    let mut b = u64_to_le_bytes(x);
    out.append(&mut b);
}

/// Appends a length-prefixed string.
fn push_str(out: &mut Vec<u8>, s: &String)
    requires
        str_fits(s@),
    ensures
        final(out)@ == old(out)@ + enc_str(s@),
{
    let bs: &[u8] = s.as_str().as_bytes();
    push_u32(out, bs.len() as u32);
    push_bytes(out, bs);
    proof {
        assert(out@ =~= old(out)@ + enc_str(s@));
    }
}

/// Whether every string and element count of the sequence fits, element by
/// element.
proof fn lemma_vals_fit_iff(items: Seq<Val>)
    ensures
        vals_fit(items) <==> forall|i: int| 0 <= i < items.len() ==> val_fits(#[trigger] items[i]),
    decreases items.len(),
{
    if items.len() > 0 {
        lemma_vals_fit_iff(items.drop_first());
        if val_fits(items[0]) && vals_fit(items.drop_first()) {
            assert forall|i: int| 0 <= i < items.len() implies val_fits(#[trigger] items[i]) by {
                if i > 0 {
                    assert(items[i] == items.drop_first()[i - 1]);
                }
            }
        }
        if forall|i: int| 0 <= i < items.len() ==> val_fits(#[trigger] items[i]) {
            assert forall|i: int|
                0 <= i < items.drop_first().len() implies val_fits(
                #[trigger] items.drop_first()[i],
            ) by {
                assert(items.drop_first()[i] == items[i + 1]);
            }
        }
    }
}

/// Whether every entry of the sequence fits, entry by entry.
proof fn lemma_entries_fit_iff(fields: Seq<(Seq<char>, Val)>)
    ensures
        entries_fit(fields) <==> forall|i: int|
            0 <= i < fields.len() ==> str_fits(#[trigger] fields[i].0) && val_fits(fields[i].1),
    decreases fields.len(),
{
    if fields.len() > 0 {
        lemma_entries_fit_iff(fields.drop_first());
        if str_fits(fields[0].0) && val_fits(fields[0].1) && entries_fit(fields.drop_first()) {
            assert forall|i: int|
                0 <= i < fields.len() implies str_fits(#[trigger] fields[i].0) && val_fits(
                fields[i].1,
            ) by {
                if i > 0 {
                    assert(fields[i] == fields.drop_first()[i - 1]);
                }
            }
        }
        if forall|i: int|
            0 <= i < fields.len() ==> str_fits(#[trigger] fields[i].0) && val_fits(fields[i].1) {
            assert forall|i: int|
                0 <= i < fields.drop_first().len() implies str_fits(
                #[trigger] fields.drop_first()[i].0,
            ) && val_fits(fields.drop_first()[i].1) by {
                assert(fields.drop_first()[i] == fields[i + 1]);
            }
        }
    }
}

/// Whether a string's UTF-8 byte length fits the four-byte length field.
fn string_fits(s: &String) -> (r: bool)
    ensures
        r == str_fits(s@),
{
    s.as_str().as_bytes().len() <= 0xffff_ffff
}

/// Whether a value can be encoded: every string and element count fits its
/// length field.
#[verifier::loop_isolation(false)]
#[verifier::rlimit(80)]
fn value_fits(v: &NVValue) -> (r: bool)
    ensures
        r == val_fits(v@),
    decreases v,
{
    match v {
        NVValue::Null => true,
        NVValue::Bool(b) => true,
        NVValue::Number(n) => true,
        NVValue::String(s) => string_fits(s),
        NVValue::Array(items) => {
            proof {
                crate::models::lemma_vals_of_len(items@);
                lemma_vals_fit_iff(vals_of_view(items@));
            }
            if items.len() > 0xffff_ffff {
                return false;
            }
            let mut i: usize = 0;
            while i < items.len()
                invariant
                    i <= items.len(),
                    forall|k: int| 0 <= k < i ==> val_fits(#[trigger] val_of(items@[k])),
                decreases items.len() - i,
            {
                proof {
                    assert(*items == v->Array_0);
                    assert(decreases_to!(*v => v->Array_0@[i as int]));
                    assert(vals_of_view(items@)[i as int] == val_of(items@[i as int]));
                }
                if !value_fits(&items[i]) {
                    proof {
                        assert(!vals_fit(vals_of_view(items@)));
                    }
                    return false;
                }
                i = i + 1;
            }
            proof {
                assert forall|k: int| 0 <= k < vals_of_view(items@).len() implies val_fits(
                    #[trigger] vals_of_view(items@)[k],
                ) by {
                    assert(vals_of_view(items@)[k] == val_of(items@[k]));
                }
            }
            true
        },
        NVValue::Object(fields) => {
            proof {
                crate::models::lemma_entries_of_len(fields@);
                lemma_entries_fit_iff(crate::models::entries_of(fields@));
            }
            if fields.len() > 0xffff_ffff {
                return false;
            }
            let mut i: usize = 0;
            while i < fields.len()
                invariant
                    i <= fields.len(),
                    forall|k: int| 0 <= k < i ==> str_fits(#[trigger] fields@[k].key@),
                    forall|k: int|
                        0 <= k < i ==> val_fits(#[trigger] val_of(fields@[k].value)),
                decreases fields.len() - i,
            {
                proof {
                    assert(*fields == v->Object_0);
                    assert(decreases_to!(*v => v->Object_0@[i as int].value));
                    assert(crate::models::entries_of(fields@)[i as int].0 == fields@[i as int].key@
                        && crate::models::entries_of(fields@)[i as int].1 == val_of(
                        fields@[i as int].value,
                    ));
                }
                if !string_fits(&fields[i].key) {
                    proof {
                        assert(!entries_fit(crate::models::entries_of(fields@)));
                    }
                    return false;
                }
                if !value_fits(&fields[i].value) {
                    proof {
                        assert(!entries_fit(crate::models::entries_of(fields@)));
                    }
                    return false;
                }
                proof {
                    assert(str_fits(fields@[i as int].key@));
                    assert(val_fits(val_of(fields@[i as int].value)));
                }
                i = i + 1;
            }
            proof {
                assert forall|k: int|
                    0 <= k < crate::models::entries_of(fields@).len() implies str_fits(
                    #[trigger] crate::models::entries_of(fields@)[k].0,
                ) && val_fits(crate::models::entries_of(fields@)[k].1) by {
                    assert(crate::models::entries_of(fields@)[k].0 == fields@[k].key@
                        && crate::models::entries_of(fields@)[k].1 == val_of(fields@[k].value));
                }
            }
            true
        },
    }
}

/// Abbreviation used by loop invariants: the models of a value vector.
pub open spec fn vals_of_view(items: Seq<NVValue>) -> Seq<Val> {
    crate::models::vals_of(items)
}

/// Encoding one more value extends the run's encoding by that value's.
proof fn lemma_enc_vals_snoc(items: Seq<Val>, i: int)
    requires
        0 <= i < items.len(),
    ensures
        enc_vals(items.take(i + 1)) == enc_vals(items.take(i)) + enc_val(items[i]),
    decreases i,
{
    if i == 0 {
        assert(items.take(0) =~= Seq::<Val>::empty());
        let s0 = items.take(1);
        assert(s0.len() == 1 && s0[0] == items[0]);
        assert(s0.drop_first() =~= Seq::<Val>::empty());
        assert(enc_vals(s0) == enc_val(items[0]) + enc_vals(Seq::<Val>::empty()));
        assert(enc_vals(Seq::<Val>::empty()) =~= Seq::<u8>::empty());
        assert(enc_vals(items.take(1)) =~= enc_vals(items.take(0)) + enc_val(items[0]));
    } else {
        lemma_enc_vals_snoc(items.drop_first(), i - 1);
        assert(items.take(i + 1).drop_first() =~= items.drop_first().take(i));
        assert(items.take(i).drop_first() =~= items.drop_first().take(i - 1));
        assert(items.take(i + 1)[0] == items[0]);
        assert(items.take(i)[0] == items[0]);
        assert(items.drop_first()[i - 1] == items[i]);
        assert(enc_vals(items.take(i + 1)) =~= enc_vals(items.take(i)) + enc_val(items[i]));
    }
}

/// Encoding one more entry extends the run's encoding by that entry's.
proof fn lemma_enc_entries_snoc(fields: Seq<(Seq<char>, Val)>, i: int)
    requires
        0 <= i < fields.len(),
    ensures
        enc_entries(fields.take(i + 1)) == enc_entries(fields.take(i)) + enc_str(fields[i].0)
            + enc_val(fields[i].1),
    decreases i,
{
    if i == 0 {
        assert(fields.take(0) =~= Seq::<(Seq<char>, Val)>::empty());
        let s0 = fields.take(1);
        assert(s0.len() == 1 && s0[0] == fields[0]);
        assert(s0.drop_first() =~= Seq::<(Seq<char>, Val)>::empty());
        assert(enc_entries(s0) == enc_str(fields[0].0) + enc_val(fields[0].1) + enc_entries(
            Seq::<(Seq<char>, Val)>::empty(),
        ));
        assert(enc_entries(Seq::<(Seq<char>, Val)>::empty()) =~= Seq::<u8>::empty());
        assert(enc_entries(fields.take(1)) =~= enc_entries(fields.take(0)) + enc_str(fields[0].0)
            + enc_val(fields[0].1));
    } else {
        lemma_enc_entries_snoc(fields.drop_first(), i - 1);
        assert(fields.take(i + 1).drop_first() =~= fields.drop_first().take(i));
        assert(fields.take(i).drop_first() =~= fields.drop_first().take(i - 1));
        assert(fields.take(i + 1)[0] == fields[0]);
        assert(fields.take(i)[0] == fields[0]);
        assert(fields.drop_first()[i - 1] == fields[i]);
        assert(enc_entries(fields.take(i + 1)) =~= enc_entries(fields.take(i)) + enc_str(
            fields[i].0,
        ) + enc_val(fields[i].1));
    }
}

/// Appends the encoding of a value.
#[verifier::loop_isolation(false)]
#[verifier::rlimit(50)]
fn encode_value_into(v: &NVValue, out: &mut Vec<u8>)
    requires
        val_fits(v@),
    ensures
        final(out)@ == old(out)@ + enc_val(v@),
    decreases v,
{
    match v {
        NVValue::Null => {
            out.push(0u8);
            proof {
                assert(out@ =~= old(out)@ + enc_val(v@));
            }
        },
        NVValue::Bool(b) => {
            out.push(1u8);
            out.push(if *b {
                1u8
            } else {
                0u8
            });
            proof {
                assert(out@ =~= old(out)@ + enc_val(v@));
            }
        },
        NVValue::Number(n) => {
            out.push(2u8);
            push_u64(out, #[verifier::truncate] (*n as u64));
            proof {
                assert(out@ =~= old(out)@ + enc_val(v@));
            }
        },
        NVValue::String(s) => {
            out.push(3u8);
            push_str(out, s);
            proof {
                assert(out@ =~= old(out)@ + enc_val(v@));
            }
        },
        NVValue::Array(items) => {
            proof {
                crate::models::lemma_vals_of_len(items@);
                lemma_vals_fit_iff(vals_of_view(items@));
            }
            out.push(4u8);
            push_u32(out, items.len() as u32);
            let ghost base = out@;
            let mut i: usize = 0;
            proof {
                assert(vals_of_view(items@).take(0) =~= Seq::<Val>::empty());
            }
            while i < items.len()
                invariant
                    i <= items.len(),
                    out@ == base + enc_vals(vals_of_view(items@).take(i as int)),
                decreases items.len() - i,
            {
                proof {
                    assert(*items == v->Array_0);
                    assert(decreases_to!(*v => v->Array_0@[i as int]));
                    assert(val_fits(vals_of_view(items@)[i as int]));
                }
                encode_value_into(&items[i], out);
                proof {
                    lemma_enc_vals_snoc(vals_of_view(items@), i as int);
                    assert(out@ =~= base + enc_vals(vals_of_view(items@).take(i + 1)));
                }
                i = i + 1;
            }
            proof {
                assert(vals_of_view(items@).take(items@.len() as int) =~= vals_of_view(items@));
                assert(out@ =~= old(out)@ + enc_val(v@));
            }
        },
        NVValue::Object(fields) => {
            proof {
                crate::models::lemma_entries_of_len(fields@);
                lemma_entries_fit_iff(crate::models::entries_of(fields@));
            }
            out.push(5u8);
            push_u32(out, fields.len() as u32);
            let ghost base = out@;
            let mut i: usize = 0;
            proof {
                assert(crate::models::entries_of(fields@).take(0) =~= Seq::<
                    (Seq<char>, Val),
                >::empty());
            }
            while i < fields.len()
                invariant
                    i <= fields.len(),
                    out@ == base + enc_entries(crate::models::entries_of(fields@).take(i as int)),
                decreases fields.len() - i,
            {
                proof {
                    assert(*fields == v->Object_0);
                    assert(decreases_to!(*v => v->Object_0@[i as int].value));
                    assert(str_fits(crate::models::entries_of(fields@)[i as int].0));
                    assert(val_fits(crate::models::entries_of(fields@)[i as int].1));
                }
                push_str(out, &fields[i].key);
                encode_value_into(&fields[i].value, out);
                proof {
                    lemma_enc_entries_snoc(crate::models::entries_of(fields@), i as int);
                    assert(out@ =~= base + enc_entries(
                        crate::models::entries_of(fields@).take(i + 1),
                    ));
                }
                i = i + 1;
            }
            proof {
                assert(crate::models::entries_of(fields@).take(fields@.len() as int)
                    =~= crate::models::entries_of(fields@));
                assert(out@ =~= old(out)@ + enc_val(v@));
            }
        },
    }
}

/// Whether a document can be encoded: every string and count fits its
/// length field.
#[verifier::loop_isolation(false)]
pub fn document_fits(doc: &NVDocument) -> (r: bool)
    ensures
        r == doc_fits(doc@),
{
    proof {
        crate::models::lemma_entries_of_len(doc.data@);
        lemma_entries_fit_iff(crate::models::entries_of(doc.data@));
    }
    if !string_fits(&doc.id) {
        return false;
    }
    if !string_fits(&doc.collection) {
        return false;
    }
    if doc.data.len() > 0xffff_ffff {
        return false;
    }
    let mut i: usize = 0;
    while i < doc.data.len()
        invariant
            i <= doc.data@.len(),
            str_fits(doc.id@),
            str_fits(doc.collection@),
            doc.data@.len() <= 0xffff_ffff,
            forall|k: int| 0 <= k < i ==> str_fits(#[trigger] doc.data@[k].key@),
            forall|k: int| 0 <= k < i ==> val_fits(#[trigger] val_of(doc.data@[k].value)),
        decreases doc.data@.len() - i,
    {
        proof {
            assert(crate::models::entries_of(doc.data@)[i as int].0 == doc.data@[i as int].key@
                && crate::models::entries_of(doc.data@)[i as int].1 == val_of(
                doc.data@[i as int].value,
            ));
        }
        if !string_fits(&doc.data[i].key) {
            proof {
                assert(!entries_fit(crate::models::entries_of(doc.data@)));
            }
            return false;
        }
        if !value_fits(&doc.data[i].value) {
            proof {
                assert(!entries_fit(crate::models::entries_of(doc.data@)));
            }
            return false;
        }
        i = i + 1;
    }
    proof {
        assert forall|k: int|
            0 <= k < crate::models::entries_of(doc.data@).len() implies str_fits(
            #[trigger] crate::models::entries_of(doc.data@)[k].0,
        ) && val_fits(crate::models::entries_of(doc.data@)[k].1) by {
            assert(crate::models::entries_of(doc.data@)[k].0 == doc.data@[k].key@
                && crate::models::entries_of(doc.data@)[k].1 == val_of(doc.data@[k].value));
        }
    }
    true
}

/// Encodes a document into its payload bytes.  Returns nothing exactly when
/// some string or count of the document overflows its length field.
#[verifier::loop_isolation(false)]
#[verifier::rlimit(80)]
pub fn encode_document(doc: &NVDocument) -> (r: Option<Vec<u8>>)
    ensures
        match r {
            Some(bytes) => doc_fits(doc@) && bytes@ == enc_doc(doc@),
            None => !doc_fits(doc@),
        },
{
    if !document_fits(doc) {
        return None;
    }
    proof {
        crate::models::lemma_entries_of_len(doc.data@);
        lemma_entries_fit_iff(crate::models::entries_of(doc.data@));
    }
    let mut out: Vec<u8> = Vec::new();
    push_str(&mut out, &doc.id);
    push_str(&mut out, &doc.collection);
    push_u64(&mut out, #[verifier::truncate] (doc.created_at as u64));
    push_u64(&mut out, #[verifier::truncate] (doc.updated_at as u64));
    out.push(if doc.deleted {
        1u8
    } else {
        0u8
    });
    push_u32(&mut out, doc.data.len() as u32);
    let ghost base = out@;
    let mut i: usize = 0;
    proof {
        assert(crate::models::entries_of(doc.data@).take(0) =~= Seq::<(Seq<char>, Val)>::empty());
        assert forall|k: int|
            0 <= k < crate::models::entries_of(doc.data@).len() implies val_fits(
            #[trigger] crate::models::entries_of(doc.data@)[k].1,
        ) by {
            assert(str_fits(crate::models::entries_of(doc.data@)[k].0));
        }
    }
    while i < doc.data.len()
        invariant
            i <= doc.data@.len(),
            entries_fit(crate::models::entries_of(doc.data@)),
            crate::models::entries_of(doc.data@).len() == doc.data@.len(),
            forall|k: int|
                0 <= k < doc.data@.len() ==> crate::models::entries_of(doc.data@)[k] == (
                doc.data@[k].key@,
                val_of(doc.data@[k].value),
                ),
            forall|k: int|
                0 <= k < doc.data@.len() ==> str_fits(
                    #[trigger] crate::models::entries_of(doc.data@)[k].0,
                ),
            forall|k: int|
                0 <= k < doc.data@.len() ==> val_fits(
                    #[trigger] crate::models::entries_of(doc.data@)[k].1,
                ),
            out@ == base + enc_entries(crate::models::entries_of(doc.data@).take(i as int)),
        decreases doc.data@.len() - i,
    {
        proof {
            assert(crate::models::entries_of(doc.data@)[i as int].0 == doc.data@[i as int].key@
                && crate::models::entries_of(doc.data@)[i as int].1 == val_of(
                doc.data@[i as int].value,
            ));
        }
        push_str(&mut out, &doc.data[i].key);
        encode_value_into(&doc.data[i].value, &mut out);
        proof {
            lemma_enc_entries_snoc(crate::models::entries_of(doc.data@), i as int);
            assert(out@ =~= base + enc_entries(
                crate::models::entries_of(doc.data@).take(i + 1),
            ));
        }
        i = i + 1;
    }
    proof {
        assert(crate::models::entries_of(doc.data@).take(doc.data@.len() as int)
            =~= crate::models::entries_of(doc.data@));
        assert(out@ =~= enc_doc(doc@));
    }
    Some(out)
}

// ---------------------------------------------------------------------------
// Executable decoding
// ---------------------------------------------------------------------------

/// Relies on core::str::from_utf8: it returns a string exactly when the
/// bytes are valid UTF-8, and that string's characters are the decoding of
/// the bytes.
#[verifier::external_body]
fn utf8_to_string(bytes: &[u8]) -> (r: Option<String>)
    ensures
        r is Some <==> valid_utf8(bytes@),
        r matches Some(s) ==> s@ == decode_utf8(bytes@),
{
    match core::str::from_utf8(bytes) {
        Ok(s) => Some(s.to_owned()),
        Err(_) => None,
    }
}

/// Reads a little-endian 32-bit word.
fn read_u32_at(bytes: &[u8], pos: usize) -> (r: Option<(u32, usize)>)
    ensures
        match r {
            Some((x, p)) => dec_u32(bytes@, pos as int) == Some((x, p as int)) && pos < p
                <= bytes@.len(),
            None => dec_u32(bytes@, pos as int) is None,
        },
{
    if bytes.len() < 4 || pos > bytes.len() - 4 {
        return None;
    }
    let sub = vstd::slice::slice_subrange(bytes, pos, pos + 4);
    let x = u32_from_le_bytes(sub);
    Some((x, pos + 4))
}

/// Reads a little-endian 64-bit word.
fn read_u64_at(bytes: &[u8], pos: usize) -> (r: Option<(u64, usize)>)
    ensures
        match r {
            Some((x, p)) => dec_u64(bytes@, pos as int) == Some((x, p as int)) && pos < p
                <= bytes@.len(),
            None => dec_u64(bytes@, pos as int) is None,
        },
{
    if bytes.len() < 8 || pos > bytes.len() - 8 {
        return None;
    }
    let sub = vstd::slice::slice_subrange(bytes, pos, pos + 8);
    let x = u64_from_le_bytes(sub);
    Some((x, pos + 8))
}

/// Reads a length-prefixed UTF-8 string.
fn read_str_at(bytes: &[u8], pos: usize) -> (r: Option<(String, usize)>)
    ensures
        match r {
            Some((s, p)) => dec_str(bytes@, pos as int) == Some((s@, p as int)) && pos < p
                <= bytes@.len(),
            None => dec_str(bytes@, pos as int) is None,
        },
{
    match read_u32_at(bytes, pos) {
        Some((n, p)) => {
            if (n as usize) > bytes.len() - p {
                return None;
            }
            let sub = vstd::slice::slice_subrange(bytes, p, p + n as usize);
            match utf8_to_string(sub) {
                Some(s) => Some((s, p + n as usize)),
                None => None,
            }
        },
        None => None,
    }
}

/// Splices a decoded prefix onto the rest of a decoded run of values.
pub open spec fn compose_vals(prefix: Seq<Val>, rest: Option<(Seq<Val>, int)>) -> Option<
    (Seq<Val>, int),
> {
    match rest {
        Some((vs, p)) => Some((prefix + vs, p)),
        None => None,
    }
}

/// Splices a decoded prefix onto the rest of a decoded run of entries.
pub open spec fn compose_entries(
    prefix: Seq<(Seq<char>, Val)>,
    rest: Option<(Seq<(Seq<char>, Val)>, int)>,
) -> Option<(Seq<(Seq<char>, Val)>, int)> {
    match rest {
        Some((fs, p)) => Some((prefix + fs, p)),
        None => None,
    }
}

/// Reads a run of `count` values.
#[verifier::loop_isolation(false)]
fn decode_vals_run(bytes: &[u8], start: usize, count: u32) -> (r: Option<(Vec<NVValue>, usize)>)
    requires
        start <= bytes@.len(),
    ensures
        match r {
            Some((vs, p)) => dec_vals(bytes@, start as int, count as nat) == Some(
                (vals_of_view(vs@), p as int),
            ) && start <= p <= bytes@.len(),
            None => dec_vals(bytes@, start as int, count as nat) is None,
        },
    decreases bytes@.len() - start, 1int,
{
    let ghost s = bytes@;
    let mut out: Vec<NVValue> = Vec::new();
    let mut cur: usize = start;
    let mut j: u32 = 0;
    proof {
        crate::models::lemma_vals_of_len(out@);
        assert(vals_of_view(out@) =~= Seq::<Val>::empty());
        assert(compose_vals(vals_of_view(out@), dec_vals(s, cur as int, (count - j) as nat))
            == dec_vals(s, start as int, count as nat));
    }
    while j < count
        invariant
            j <= count,
            start <= cur <= s.len(),
            j > 0 ==> start < cur,
            out@.len() == j,
            dec_vals(s, start as int, count as nat) == compose_vals(
                vals_of_view(out@),
                dec_vals(s, cur as int, (count - j) as nat),
            ),
        decreases count - j,
    {
        let res = decode_value_at(bytes, cur);
        match res {
            None => {
                return None;
            },
            Some((v, p2)) => {
                proof {
                    let pre = vals_of_view(out@);
                    if let Some((vs2, pp)) = dec_vals(s, p2 as int, (count - j - 1) as nat) {
                        assert((pre + seq![v@]) + vs2 =~= pre + (seq![v@] + vs2));
                    }
                    crate::models::lemma_vals_of_len(out@);
                    crate::models::lemma_vals_of_len(out@.push(v));
                    assert(vals_of_view(out@.push(v)) =~= pre + seq![v@]);
                }
                out.push(v);
                cur = p2;
                j = j + 1;
            },
        }
    }
    proof {
        assert(dec_vals(s, cur as int, 0) == Some((Seq::<Val>::empty(), cur as int)));
        assert(vals_of_view(out@) + Seq::<Val>::empty() =~= vals_of_view(out@));
    }
    Some((out, cur))
}

/// Reads a run of `count` key/value entries.
#[verifier::loop_isolation(false)]
fn decode_entries_run(bytes: &[u8], start: usize, count: u32) -> (r: Option<
    (Vec<NVField>, usize),
>)
    requires
        start <= bytes@.len(),
    ensures
        match r {
            Some((fs, p)) => dec_entries(bytes@, start as int, count as nat) == Some(
                (crate::models::entries_of(fs@), p as int),
            ) && start <= p <= bytes@.len(),
            None => dec_entries(bytes@, start as int, count as nat) is None,
        },
    decreases bytes@.len() - start, 1int,
{
    let ghost s = bytes@;
    let mut out: Vec<NVField> = Vec::new();
    let mut cur: usize = start;
    let mut j: u32 = 0;
    proof {
        crate::models::lemma_entries_of_len(out@);
        assert(crate::models::entries_of(out@) =~= Seq::<(Seq<char>, Val)>::empty());
        assert(compose_entries(
            crate::models::entries_of(out@),
            dec_entries(s, cur as int, (count - j) as nat),
        ) == dec_entries(s, start as int, count as nat));
    }
    while j < count
        invariant
            j <= count,
            start <= cur <= s.len(),
            out@.len() == j,
            dec_entries(s, start as int, count as nat) == compose_entries(
                crate::models::entries_of(out@),
                dec_entries(s, cur as int, (count - j) as nat),
            ),
        decreases count - j,
    {
        let key_res = read_str_at(bytes, cur);
        match key_res {
            None => {
                return None;
            },
            Some((key, pm)) => {
                let val_res = decode_value_at(bytes, pm);
                match val_res {
                    None => {
                        return None;
                    },
                    Some((v, p2)) => {
                        proof {
                            let pre = crate::models::entries_of(out@);
                            if let Some((fs2, pp)) = dec_entries(
                                s,
                                p2 as int,
                                (count - j - 1) as nat,
                            ) {
                                assert((pre + seq![(key@, v@)]) + fs2 =~= pre + (seq![(key@, v@)]
                                    + fs2));
                            }
                            crate::models::lemma_entries_of_len(out@);
                            crate::models::lemma_entries_of_len(
                                out@.push(NVField { key, value: v }),
                            );
                            assert(crate::models::entries_of(out@.push(NVField { key, value: v }))
                                =~= pre + seq![(key@, v@)]);
                        }
                        out.push(NVField { key, value: v });
                        cur = p2;
                        j = j + 1;
                    },
                }
            },
        }
    }
    proof {
        assert(dec_entries(s, cur as int, 0) == Some(
            (Seq::<(Seq<char>, Val)>::empty(), cur as int),
        ));
        assert(crate::models::entries_of(out@) + Seq::<(Seq<char>, Val)>::empty()
            =~= crate::models::entries_of(out@));
    }
    Some((out, cur))
}

/// Reads one tagged value.
#[verifier::loop_isolation(false)]
fn decode_value_at(bytes: &[u8], pos: usize) -> (r: Option<(NVValue, usize)>)
    ensures
        match r {
            Some((v, p)) => dec_val(bytes@, pos as int) == Some((v@, p as int)) && pos < p
                <= bytes@.len(),
            None => dec_val(bytes@, pos as int) is None,
        },
    decreases bytes@.len() - pos, 0int,
{
    if pos >= bytes.len() {
        return None;
    }
    let tag = bytes[pos];
    if tag == 0 {
        Some((NVValue::Null, pos + 1))
    } else if tag == 1 {
        if bytes.len() - pos < 2 {
            return None;
        }
        let b = bytes[pos + 1];
        if b > 1 {
            return None;
        }
        Some((NVValue::Bool(b == 1), pos + 2))
    } else if tag == 2 {
        match read_u64_at(bytes, pos + 1) {
            Some((x, p)) => Some((NVValue::Number(#[verifier::truncate] (x as i64)), p)),
            None => None,
        }
    } else if tag == 3 {
        match read_str_at(bytes, pos + 1) {
            Some((st, p)) => Some((NVValue::String(st), p)),
            None => None,
        }
    } else if tag == 4 {
        match read_u32_at(bytes, pos + 1) {
            Some((n, p)) => {
                match decode_vals_run(bytes, p, n) {
                    Some((vs, p2)) => Some((NVValue::Array(vs), p2)),
                    None => None,
                }
            },
            None => None,
        }
    } else if tag == 5 {
        match read_u32_at(bytes, pos + 1) {
            Some((n, p)) => {
                match decode_entries_run(bytes, p, n) {
                    Some((fs, p2)) => Some((NVValue::Object(fs), p2)),
                    None => None,
                }
            },
            None => None,
        }
    } else {
        None
    }
}

/// Decodes a whole payload into a document.  Returns nothing exactly when
/// the bytes are not a well-formed payload consumed to its end.
pub fn decode_document(bytes: &[u8]) -> (r: Option<NVDocument>)
    ensures
        match r {
            Some(d) => dec_doc(bytes@) == Some(d@),
            None => dec_doc(bytes@) is None,
        },
{
    let id_res = read_str_at(bytes, 0);
    let (id, p1) = match id_res {
        Some(x) => x,
        None => {
            return None;
        },
    };
    let col_res = read_str_at(bytes, p1);
    let (collection, p2) = match col_res {
        Some(x) => x,
        None => {
            return None;
        },
    };
    let created_res = read_u64_at(bytes, p2);
    let (created, p3) = match created_res {
        Some(x) => x,
        None => {
            return None;
        },
    };
    let updated_res = read_u64_at(bytes, p3);
    let (updated, p4) = match updated_res {
        Some(x) => x,
        None => {
            return None;
        },
    };
    if p4 >= bytes.len() {
        return None;
    }
    let del = bytes[p4];
    if del > 1 {
        return None;
    }
    let count_res = read_u32_at(bytes, p4 + 1);
    let (n, p5) = match count_res {
        Some(x) => x,
        None => {
            return None;
        },
    };
    let run_res = decode_entries_run(bytes, p5, n);
    let (fields, p6) = match run_res {
        Some(x) => x,
        None => {
            return None;
        },
    };
    if p6 != bytes.len() {
        return None;
    }
    Some(
        NVDocument {
            id,
            collection,
            data: fields,
            created_at: #[verifier::truncate] (created as i64),
            updated_at: #[verifier::truncate] (updated as i64),
            deleted: del == 1,
        },
    )
}

} // verus!
