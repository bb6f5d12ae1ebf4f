//! The self-framing binary encoding of descriptors. A decoder finds the end
//! of each record from the record's own bytes — a tag byte selects the
//! variant, fixed-width fields follow, and the script carries its own
//! one-byte length — so independently produced records can be concatenated
//! into one blob and later split back, with no outer length table.

use crate::bytes::{
    be_bytes, be_val, copy_range, lemma_be_bytes_len, lemma_be_roundtrip, lemma_be_val_bound,
    lemma_pow256_values, push_be_bytes, read_be_u64,
};
use crate::descriptor::{
    models_of, valid_descriptor, DescModel, Descriptor, TAG_DELAYED, TAG_OFFERED, TAG_STATIC,
};
use crate::errors::SweepError;
use vstd::prelude::*;

verus! {

/// The encoding of an optional token classification: a presence byte, then
/// four value bytes when present.
pub open spec fn token_bytes(t: Option<u32>) -> Seq<u8> {
    match t {
        Option::None => seq![0u8],
        Option::Some(c) => seq![1u8] + be_bytes(c as int, 4),
    }
}

/// The encoding of a script: its length in one byte, then its bytes.
pub open spec fn script_bytes(s: Seq<u8>) -> Seq<u8> {
    seq![s.len() as u8] + s
}

/// The self-framed encoding of one descriptor.
pub open spec fn spec_encode(d: DescModel) -> Seq<u8> {
    match d {
        DescModel::StaticKey { value_sats, token, script } => seq![TAG_STATIC] + be_bytes(
            value_sats as int,
            8,
        ) + token_bytes(token) + script_bytes(script),
        DescModel::Delayed { value_sats, delay, token, script } => seq![TAG_DELAYED] + be_bytes(
            value_sats as int,
            8,
        ) + be_bytes(delay as int, 2) + token_bytes(token) + script_bytes(script),
        DescModel::Offered { value_sats, token, script } => seq![TAG_OFFERED] + be_bytes(
            value_sats as int,
            8,
        ) + token_bytes(token) + script_bytes(script),
    }
}

/// The concatenated encoding of a sequence of descriptors.
pub open spec fn spec_encode_seq(ds: Seq<DescModel>) -> Seq<u8>
    decreases ds.len(),
{
    if ds.len() == 0 {
        Seq::empty()
    } else {
        spec_encode(ds[0]) + spec_encode_seq(ds.drop_first())
    }
}

/// Parses the script field at `pos` and finishes one record. `None` when the
/// bytes end before the script does.
pub open spec fn spec_decode_script(
    b: Seq<u8>,
    tag: u8,
    value: u64,
    delay: u16,
    token: Option<u32>,
    pos: int,
) -> Option<(DescModel, int)> {
    if b.len() < pos + 1 {
        Option::None
    } else {
        let n = b[pos] as int;
        if b.len() < pos + 1 + n {
            Option::None
        } else {
            let script = b.subrange(pos + 1, pos + 1 + n);
            Option::Some((mk_model(tag, value, delay, token, script), pos + 1 + n))
        }
    }
}

/// The record a parse of `tag` and the following fields denotes.
pub open spec fn mk_model(tag: u8, value: u64, delay: u16, token: Option<u32>, script: Seq<u8>)
    -> DescModel {
    if tag == TAG_STATIC {
        DescModel::StaticKey { value_sats: value, token, script }
    } else if tag == TAG_DELAYED {
        DescModel::Delayed { value_sats: value, delay, token, script }
    } else {
        DescModel::Offered { value_sats: value, token, script }
    }
}

/// Parses the optional token field at `pos`, then the script.
pub open spec fn spec_decode_token(b: Seq<u8>, tag: u8, value: u64, delay: u16, pos: int) -> Option<
    (DescModel, int),
> {
    if b.len() < pos + 1 {
        Option::None
    } else {
        let flag = b[pos];
        if flag == 0 {
            spec_decode_script(b, tag, value, delay, Option::None, pos + 1)
        } else if flag == 1 {
            if b.len() < pos + 5 {
                Option::None
            } else {
                let c = be_val(b.subrange(pos + 1, pos + 5)) as u32;
                spec_decode_script(b, tag, value, delay, Option::Some(c), pos + 5)
            }
        } else {
            Option::None
        }
    }
}

/// Parses one self-framed descriptor from the front of `b`: the decoded
/// record and how many bytes it occupied. `None` when the front of `b` is
/// not a whole valid record.
pub open spec fn spec_decode_one(b: Seq<u8>) -> Option<(DescModel, int)> {
    if b.len() < 9 {
        Option::None
    } else {
        let tag = b[0];
        let value = be_val(b.subrange(1, 9)) as u64;
        if tag == TAG_DELAYED {
            if b.len() < 11 {
                Option::None
            } else {
                let delay = be_val(b.subrange(9, 11)) as u16;
                spec_decode_token(b, tag, value, delay, 11)
            }
        } else if tag == TAG_STATIC || tag == TAG_OFFERED {
            spec_decode_token(b, tag, value, 0, 9)
        } else {
            Option::None
        }
    }
}

/// A parsed record occupies at least one and at most all of the bytes.
pub proof fn lemma_decode_one_consumes(b: Seq<u8>)
    ensures
        spec_decode_one(b) matches Option::Some((d, n)) ==> 0 < n <= b.len(),
{
}

/// Splits `b` into the descriptors it concatenates: `None` when any record
/// is cut short, malformed, or followed by trailing garbage.
pub open spec fn spec_decode_all(b: Seq<u8>) -> Option<Seq<DescModel>>
    decreases b.len(),
{
    if b.len() == 0 {
        Option::Some(Seq::empty())
    } else {
        match spec_decode_one(b) {
            Option::None => Option::None,
            Option::Some((d, n)) => if 0 < n <= b.len() {
                match spec_decode_all(b.skip(n)) {
                    Option::None => Option::None,
                    Option::Some(ds) => Option::Some(seq![d] + ds),
                }
            } else {
                Option::None
            },
        }
    }
}

/// Appends the self-framed encoding of `d` to `out`.
pub fn encode_descriptor_into(out: &mut Vec<u8>, d: &Descriptor)
    requires
        valid_descriptor(d@),
    ensures
        final(out)@ == old(out)@ + spec_encode(d@),
{
    proof {
        lemma_pow256_values();
    }
    match d {
        Descriptor::StaticKey { value_sats, token, script } => {
            out.push(TAG_STATIC);
            push_be_bytes(out, *value_sats, 8);
            push_token(out, token);
            push_script(out, script);
        },
        Descriptor::Delayed { value_sats, delay, token, script } => {
            out.push(TAG_DELAYED);
            push_be_bytes(out, *value_sats, 8);
            push_be_bytes(out, *delay as u64, 2);
            push_token(out, token);
            push_script(out, script);
        },
        Descriptor::Offered { value_sats, token, script } => {
            out.push(TAG_OFFERED);
            push_be_bytes(out, *value_sats, 8);
            push_token(out, token);
            push_script(out, script);
        },
    }
    assert(final(out)@ =~= old(out)@ + spec_encode(d@));
}

/// The self-framed encoding of one descriptor.
pub fn encode_descriptor(d: &Descriptor) -> (r: Vec<u8>)
    requires
        valid_descriptor(d@),
    ensures
        r@ == spec_encode(d@),
{
    let mut r: Vec<u8> = Vec::new();
    encode_descriptor_into(&mut r, d);
    assert(r@ =~= spec_encode(d@));
    r
}

/// Every valid record's encoding is at least the nine header bytes long.
pub proof fn lemma_encode_len(d: DescModel)
    ensures
        spec_encode(d).len() > 9,
{
    match d {
        DescModel::StaticKey { value_sats, token, script } => {
            lemma_be_bytes_len(value_sats as int, 8);
        },
        DescModel::Delayed { value_sats, delay, token, script } => {
            lemma_be_bytes_len(value_sats as int, 8);
            lemma_be_bytes_len(delay as int, 2);
        },
        DescModel::Offered { value_sats, token, script } => {
            lemma_be_bytes_len(value_sats as int, 8);
        },
    }
}

proof fn lemma_decode_script_of_bytes(
    b: Seq<u8>,
    tag: u8,
    value: u64,
    delay: u16,
    token: Option<u32>,
    pos: int,
    s: Seq<u8>,
)
    requires
        s.len() <= 255,
        0 <= pos,
        pos + 1 + s.len() <= b.len(),
        b.subrange(pos, pos + 1 + s.len()) == script_bytes(s),
    ensures
        spec_decode_script(b, tag, value, delay, token, pos) == Option::Some(
            (mk_model(tag, value, delay, token, s), pos + 1 + s.len()),
        ),
{
    let win = b.subrange(pos, pos + 1 + s.len());
    assert(b[pos] == win[0]);
    assert(b[pos] == s.len() as u8);
    let n = b[pos] as int;
    assert(n == s.len());
    assert(b.subrange(pos + 1, pos + 1 + n) =~= s) by {
        assert forall|i: int| 0 <= i < n implies b.subrange(pos + 1, pos + 1 + n)[i] == s[i] by {
            assert(b.subrange(pos + 1, pos + 1 + n)[i] == b[pos + 1 + i]);
            assert(b[pos + 1 + i] == win[1 + i]);
            assert(win[1 + i] == script_bytes(s)[1 + i]);
        }
    }
}

proof fn lemma_decode_token_of_bytes(
    b: Seq<u8>,
    tag: u8,
    value: u64,
    delay: u16,
    pos: int,
    token: Option<u32>,
    s: Seq<u8>,
)
    requires
        s.len() <= 255,
        0 <= pos,
        pos + token_bytes(token).len() + 1 + s.len() <= b.len(),
        b.subrange(pos, pos + token_bytes(token).len() + 1 + s.len()) == token_bytes(token)
            + script_bytes(s),
    ensures
        spec_decode_token(b, tag, value, delay, pos) == Option::Some(
            (mk_model(tag, value, delay, token, s), pos + token_bytes(token).len() + 1 + s.len()),
        ),
{
    let tb = token_bytes(token);
    let win = b.subrange(pos, pos + tb.len() + 1 + s.len());
    assert(b[pos] == win[0]);
    assert(win[0] == (tb + script_bytes(s))[0]);
    match token {
        Option::None => {
            assert(b[pos] == 0);
            assert(b.subrange(pos + 1, pos + 1 + 1 + s.len()) =~= script_bytes(s)) by {
                assert forall|i: int| 0 <= i < 1 + s.len() implies b.subrange(
                    pos + 1,
                    pos + 1 + 1 + s.len(),
                )[i] == script_bytes(s)[i] by {
                    assert(b[pos + 1 + i] == win[1 + i]);
                    assert(win[1 + i] == (tb + script_bytes(s))[1 + i]);
                }
            }
            lemma_decode_script_of_bytes(b, tag, value, delay, token, pos + 1, s);
        },
        Option::Some(c) => {
            assert(b[pos] == 1);
            lemma_be_bytes_len(c as int, 4);
            assert(b.subrange(pos + 1, pos + 5) =~= be_bytes(c as int, 4)) by {
                assert forall|i: int| 0 <= i < 4 implies b.subrange(pos + 1, pos + 5)[i]
                    == be_bytes(c as int, 4)[i] by {
                    assert(b[pos + 1 + i] == win[1 + i]);
                    assert(win[1 + i] == (tb + script_bytes(s))[1 + i]);
                    assert((tb + script_bytes(s))[1 + i] == tb[1 + i]);
                    assert(tb[1 + i] == be_bytes(c as int, 4)[i]);
                }
            }
            lemma_pow256_values();
            lemma_be_roundtrip(c as int, 4);
            assert(be_val(b.subrange(pos + 1, pos + 5)) as u32 == c);
            assert(b.subrange(pos + 5, pos + 5 + 1 + s.len()) =~= script_bytes(s)) by {
                assert forall|i: int| 0 <= i < 1 + s.len() implies b.subrange(
                    pos + 5,
                    pos + 5 + 1 + s.len(),
                )[i] == script_bytes(s)[i] by {
                    assert(b[pos + 5 + i] == win[5 + i]);
                    assert(win[5 + i] == (tb + script_bytes(s))[5 + i]);
                }
            }
            lemma_decode_script_of_bytes(b, tag, value, delay, token, pos + 5, s);
        },
    }
}

/// The framing law for one record: a parse of a valid record's encoding,
/// whatever bytes follow it, returns exactly that record and consumes
/// exactly its encoding.
pub proof fn lemma_decode_one_of_encode(d: DescModel, rest: Seq<u8>)
    requires
        valid_descriptor(d),
    ensures
        spec_decode_one(spec_encode(d) + rest) == Option::Some(
            (d, spec_encode(d).len() as int),
        ),
{
    let e = spec_encode(d);
    let b = e + rest;
    lemma_pow256_values();
    match d {
        DescModel::StaticKey { value_sats, token, script } => {
            lemma_be_bytes_len(value_sats as int, 8);
            let tb = token_bytes(token);
            if token is Some {
                lemma_be_bytes_len(token->0 as int, 4);
            }
            assert(b[0] == TAG_STATIC);
            assert(b.subrange(1, 9) =~= be_bytes(value_sats as int, 8));
            lemma_be_roundtrip(value_sats as int, 8);
            assert(b.subrange(9, 9 + tb.len() + 1 + script.len() as int) =~= tb + script_bytes(script));
            lemma_decode_token_of_bytes(b, TAG_STATIC, value_sats, 0, 9, token, script);
            assert(9 + tb.len() + 1 + script.len() == e.len());
        },
        DescModel::Delayed { value_sats, delay, token, script } => {
            lemma_be_bytes_len(value_sats as int, 8);
            lemma_be_bytes_len(delay as int, 2);
            let tb = token_bytes(token);
            if token is Some {
                lemma_be_bytes_len(token->0 as int, 4);
            }
            assert(b[0] == TAG_DELAYED);
            assert(b.subrange(1, 9) =~= be_bytes(value_sats as int, 8));
            lemma_be_roundtrip(value_sats as int, 8);
            assert(b.subrange(9, 11) =~= be_bytes(delay as int, 2));
            lemma_be_roundtrip(delay as int, 2);
            assert(b.subrange(11, 11 + tb.len() + 1 + script.len() as int) =~= tb + script_bytes(
                script,
            ));
            lemma_decode_token_of_bytes(b, TAG_DELAYED, value_sats, delay, 11, token, script);
            assert(11 + tb.len() + 1 + script.len() == e.len());
        },
        DescModel::Offered { value_sats, token, script } => {
            lemma_be_bytes_len(value_sats as int, 8);
            let tb = token_bytes(token);
            if token is Some {
                lemma_be_bytes_len(token->0 as int, 4);
            }
            assert(b[0] == TAG_OFFERED);
            assert(b.subrange(1, 9) =~= be_bytes(value_sats as int, 8));
            lemma_be_roundtrip(value_sats as int, 8);
            assert(b.subrange(9, 9 + tb.len() + 1 + script.len() as int) =~= tb + script_bytes(script));
            lemma_decode_token_of_bytes(b, TAG_OFFERED, value_sats, 0, 9, token, script);
            assert(9 + tb.len() + 1 + script.len() == e.len());
        },
    }
}

/// The round trip for whole batches: the concatenated encoding of any
/// sequence of valid descriptors decodes back to exactly that sequence.
pub proof fn lemma_decode_all_of_encode_seq(ds: Seq<DescModel>)
    requires
        forall|i: int| 0 <= i < ds.len() ==> valid_descriptor(#[trigger] ds[i]),
    ensures
        spec_decode_all(spec_encode_seq(ds)) == Option::Some(ds),
    decreases ds.len(),
{
    if ds.len() == 0 {
        assert(spec_decode_all(spec_encode_seq(ds)) == Option::Some(Seq::<DescModel>::empty()));
        assert(Seq::<DescModel>::empty() =~= ds);
    } else {
        let d0 = ds[0];
        let tail = ds.drop_first();
        let e0 = spec_encode(d0);
        let b = spec_encode_seq(ds);
        lemma_encode_len(d0);
        lemma_decode_one_of_encode(d0, spec_encode_seq(tail));
        assert(b == e0 + spec_encode_seq(tail));
        assert(b.skip(e0.len() as int) =~= spec_encode_seq(tail));
        assert(forall|i: int| 0 <= i < tail.len() ==> valid_descriptor(#[trigger] tail[i]));
        lemma_decode_all_of_encode_seq(tail);
        assert(seq![d0] + tail =~= ds);
    }
}

/// Law: decoding the byte concatenation of two validly framed descriptors
/// yields exactly the two original records, in their original order, with
/// no third spurious record.
pub proof fn lemma_two_record_roundtrip(d1: DescModel, d2: DescModel)
    requires
        valid_descriptor(d1),
        valid_descriptor(d2),
    ensures
        spec_decode_all(spec_encode(d1) + spec_encode(d2)) == Option::Some(seq![d1, d2]),
{
    let ds = seq![d1, d2];
    assert(spec_encode_seq(ds) =~= spec_encode(d1) + spec_encode(d2)) by {
        assert(ds.drop_first() =~= seq![d2]);
        assert(seq![d2].drop_first() =~= Seq::<DescModel>::empty());
        assert(spec_encode_seq(seq![d2]) == spec_encode(d2) + spec_encode_seq(
            Seq::<DescModel>::empty(),
        ));
        assert(spec_encode(d2) + Seq::<u8>::empty() =~= spec_encode(d2));
    }
    lemma_decode_all_of_encode_seq(ds);
}

/// Concatenating batch encodings encodes the concatenated batch.
pub proof fn lemma_encode_seq_concat(a: Seq<DescModel>, b: Seq<DescModel>)
    ensures
        spec_encode_seq(a + b) == spec_encode_seq(a) + spec_encode_seq(b),
    decreases a.len(),
{
    if a.len() == 0 {
        assert(a + b =~= b);
        assert(spec_encode_seq(a) + spec_encode_seq(b) =~= spec_encode_seq(b));
    } else {
        assert((a + b).drop_first() =~= a.drop_first() + b);
        lemma_encode_seq_concat(a.drop_first(), b);
        assert(spec_encode_seq(a + b) == spec_encode((a + b)[0]) + spec_encode_seq(
            (a + b).drop_first(),
        ));
        assert((a + b)[0] == a[0]);
        assert(spec_encode(a[0]) + (spec_encode_seq(a.drop_first()) + spec_encode_seq(b)) =~= (
        spec_encode(a[0]) + spec_encode_seq(a.drop_first())) + spec_encode_seq(b));
    }
}

fn decode_script_at(
    b: &Vec<u8>,
    base: usize,
    tag: u8,
    value: u64,
    delay: u16,
    token: Option<u32>,
    pos: usize,
) -> (r: Option<(Descriptor, usize)>)
    requires
        base <= pos <= b.len(),
    ensures
        match r {
            Option::Some((d, next)) => pos < next <= b.len() && spec_decode_script(
                b@.skip(base as int),
                tag,
                value,
                delay,
                token,
                pos - base,
            ) == Option::Some((d@, next - base)),
            Option::None => spec_decode_script(
                b@.skip(base as int),
                tag,
                value,
                delay,
                token,
                pos - base,
            ) is None,
        },
{
    let ghost s = b@.skip(base as int);
    if b.len() - pos < 1 {
        return Option::None;
    }
    let n = b[pos] as usize;
    assert(s[pos - base] == b@[pos as int]);
    if b.len() - pos - 1 < n {
        return Option::None;
    }
    let script = copy_range(b, pos + 1, pos + 1 + n);
    assert(script@ =~= s.subrange(pos - base + 1, pos - base + 1 + n));
    let d = if tag == TAG_STATIC {
        Descriptor::StaticKey { value_sats: value, token, script }
    } else if tag == TAG_DELAYED {
        Descriptor::Delayed { value_sats: value, delay, token, script }
    } else {
        Descriptor::Offered { value_sats: value, token, script }
    };
    let next = pos + 1 + n;
    assert(spec_decode_script(s, tag, value, delay, token, pos - base) == Option::Some(
        (d@, next - base),
    ));
    Option::Some((d, next))
}

fn decode_token_at(b: &Vec<u8>, base: usize, tag: u8, value: u64, delay: u16, pos: usize) -> (r:
    Option<(Descriptor, usize)>)
    requires
        base <= pos <= b.len(),
    ensures
        match r {
            Option::Some((d, next)) => pos < next <= b.len() && spec_decode_token(
                b@.skip(base as int),
                tag,
                value,
                delay,
                pos - base,
            ) == Option::Some((d@, next - base)),
            Option::None => spec_decode_token(
                b@.skip(base as int),
                tag,
                value,
                delay,
                pos - base,
            ) is None,
        },
{
    let ghost s = b@.skip(base as int);
    if b.len() - pos < 1 {
        return Option::None;
    }
    let flag = b[pos];
    assert(s[pos - base] == b@[pos as int]);
    if flag == 0 {
        decode_script_at(b, base, tag, value, delay, Option::None, pos + 1)
    } else if flag == 1 {
        if b.len() - pos < 5 {
            return Option::None;
        }
        let cv = read_be_u64(b, pos + 1, 4);
        proof {
            assert(b@.subrange((pos + 1) as int, (pos + 5) as int) =~= s.subrange(
                pos - base + 1,
                pos - base + 5,
            ));
            lemma_be_val_bound(s.subrange(pos - base + 1, pos - base + 5));
            lemma_pow256_values();
        }
        let c = cv as u32;
        decode_script_at(b, base, tag, value, delay, Option::Some(c), pos + 5)
    } else {
        Option::None
    }
}

/// Parses the self-framed descriptor that starts at `start`: the record and
/// the position just past it.
pub fn decode_one_at(b: &Vec<u8>, start: usize) -> (r: Option<(Descriptor, usize)>)
    requires
        start <= b.len(),
    ensures
        match r {
            Option::Some((d, next)) => start < next <= b.len() && spec_decode_one(
                b@.skip(start as int),
            ) == Option::Some((d@, next - start)),
            Option::None => spec_decode_one(b@.skip(start as int)) is None,
        },
{
    let ghost s = b@.skip(start as int);
    if b.len() - start < 9 {
        return Option::None;
    }
    let tag = b[start];
    assert(s[0] == b@[start as int]);
    let value = read_be_u64(b, start + 1, 8);
    proof {
        assert(b@.subrange((start + 1) as int, (start + 9) as int) =~= s.subrange(1, 9));
        lemma_be_val_bound(s.subrange(1, 9));
        lemma_pow256_values();
    }
    if tag == TAG_DELAYED {
        if b.len() - start < 11 {
            return Option::None;
        }
        let dv = read_be_u64(b, start + 9, 2);
        proof {
            assert(b@.subrange((start + 9) as int, (start + 11) as int) =~= s.subrange(9, 11));
            lemma_be_val_bound(s.subrange(9, 11));
        }
        let delay = dv as u16;
        decode_token_at(b, start, tag, value, delay, start + 11)
    } else if tag == TAG_STATIC || tag == TAG_OFFERED {
        decode_token_at(b, start, tag, value, 0, start + 9)
    } else {
        Option::None
    }
}

/// Splits a claim batch back into the descriptors it concatenates. An error
/// means the bytes are not a whole number of valid records.
pub fn decode_descriptors(b: &Vec<u8>) -> (r: Result<Vec<Descriptor>, SweepError>)
    ensures
        match r {
            Result::Ok(ds) => spec_decode_all(b@) == Option::Some(models_of(ds@)),
            Result::Err(e) => spec_decode_all(b@) is None && e
                == SweepError::MalformedDescriptor,
        },
{
    let mut acc: Vec<Descriptor> = Vec::new();
    let mut pos: usize = 0;
    proof {
        assert(b@.skip(0) =~= b@);
        assert forall|t: Seq<DescModel>| #[trigger] (models_of(acc@) + t) =~= t by {
            assert(models_of(acc@).len() == 0);
        }
    }
    while pos < b.len()
        invariant
            pos <= b.len(),
            spec_decode_all(b@) == match spec_decode_all(b@.skip(pos as int)) {
                Option::Some(t) => Option::Some(models_of(acc@) + t),
                Option::None => Option::None::<Seq<DescModel>>,
            },
        decreases b.len() - pos,
    {
        let ghost rest = b@.skip(pos as int);
        match decode_one_at(b, pos) {
            Option::None => {
                assert(rest.len() > 0);
                return Result::Err(SweepError::MalformedDescriptor);
            },
            Option::Some((d, next)) => {
                proof {
                    assert(rest.len() > 0);
                    assert(rest.skip(next - pos) =~= b@.skip(next as int));
                }
                let ghost old_acc = acc@;
                acc.push(d);
                proof {
                    assert(models_of(acc@) =~= models_of(old_acc).push(d@));
                    assert forall|t: Seq<DescModel>|
                        models_of(acc@) + t =~= models_of(old_acc) + (seq![d@] + t) by {
                        assert(models_of(old_acc).push(d@) + t =~= models_of(old_acc) + (seq![d@]
                            + t));
                    }
                }
                pos = next;
            },
        }
    }
    proof {
        assert(b@.skip(pos as int) =~= Seq::<u8>::empty());
        assert(models_of(acc@) + Seq::<DescModel>::empty() =~= models_of(acc@));
    }
    Result::Ok(acc)
}

fn push_token(out: &mut Vec<u8>, token: &Option<u32>)
    ensures
        final(out)@ == old(out)@ + token_bytes(*token),
{
    proof {
        lemma_pow256_values();
    }
    match token {
        Option::None => {
            out.push(0);
            assert(final(out)@ =~= old(out)@ + token_bytes(Option::None));
        },
        Option::Some(c) => {
            out.push(1);
            push_be_bytes(out, *c as u64, 4);
            assert(final(out)@ =~= old(out)@ + token_bytes(Option::Some(*c)));
        },
    }
}

fn push_script(out: &mut Vec<u8>, script: &Vec<u8>)
    requires
        script@.len() <= 255,
    ensures
        final(out)@ == old(out)@ + script_bytes(script@),
{
    out.push(script.len() as u8);
    let mut i: usize = 0;
    while i < script.len()
        invariant
            i <= script.len(),
            out@ == old(out)@ + seq![script@.len() as u8] + script@.subrange(0, i as int),
        decreases script.len() - i,
    {
        out.push(script[i]);
        assert(out@ =~= old(out)@ + seq![script@.len() as u8] + script@.subrange(
            0,
            (i + 1) as int,
        ));
        i = i + 1;
    }
    assert(final(out)@ =~= old(out)@ + script_bytes(script@));
}

} // verus!
