//! Log records and their byte encoding.
//!
//! A log file is a concatenation of self-delimiting JSON values, one per
//! record, with no separators.  The encoding and decoding are done by
//! `serde_json`; the bytes of a record are named by the uninterpreted
//! function [`rec_bytes`], and every verified fact about the log goes
//! through that name.

use vstd::prelude::*;

use serde_json::Value;

use crate::error::KvsError;

verus! {

/// Ghost model of one log record: what the record means, independent of
/// the bytes that carry it.
pub enum RecModel {
    /// Bind `key` to `value`.
    SetRec { key: Seq<char>, value: Seq<char> },
    /// A tombstone: unbind `key`.
    RmRec { key: Seq<char> },
}

/// One record of the append-only log.
#[derive(Debug, Clone, PartialEq, Eq)]
pub enum Command {
    /// Bind `key` to `value`.
    SetCmd { key: String, value: String },
    /// A tombstone: unbind `key`.
    RmCmd { key: String },
}

impl View for Command {
    type V = RecModel;

    open spec fn view(&self) -> RecModel {
        match self {
            Command::SetCmd { key, value } => (RecModel::SetRec { key: key@, value: value@ }),
            Command::RmCmd { key } => (RecModel::RmRec { key: key@ }),
        }
    }
}

impl Command {
    /// Builds a `Set` record.
    pub fn set(key: String, value: String) -> (c: Command)
        ensures
            c@ == (RecModel::SetRec { key: key@, value: value@ }),
    {
        Command::SetCmd { key, value }
    }

    /// Builds a `Remove` record.
    pub fn remove(key: String) -> (c: Command)
        ensures
            c@ == (RecModel::RmRec { key: key@ }),
    {
        Command::RmCmd { key }
    }
}

/// The position of one record's bytes: file generation, byte offset, and
/// byte length.
#[derive(Debug, Clone, Copy, PartialEq, Eq, Structural)]
pub struct CommandPos {
    /// Generation of the log file holding the record.
    pub gen: u64,
    /// Byte offset of the record's first byte in that file.
    pub pos: u64,
    /// Length of the record in bytes.
    pub len: u64,
}

impl CommandPos {
    /// The position covering bytes `[start, end)` of file `gen`.
    pub fn new(gen: u64, start: u64, end: u64) -> (p: CommandPos)
        requires
            start <= end,
        ensures
            p == (CommandPos { gen, pos: start, len: (end - start) as u64 }),
    {
        CommandPos { gen, pos: start, len: end - start }
    }
}

/// The serialized bytes of one record: a `Set` record for `Some` values, a
/// `Remove` record for `None`.  Uninterpreted; it stands for the output of
/// `serde_json::to_vec` on the record.
pub uninterp spec fn rec_bytes(key: Seq<char>, value: Option<Seq<char>>) -> Seq<u8>;

/// The record model carrying `key` and, for a `Set`, `value`.
pub open spec fn rec_of(key: Seq<char>, value: Option<Seq<char>>) -> RecModel {
    match value {
        Some(v) => RecModel::SetRec { key, value: v },
        None => RecModel::RmRec { key },
    }
}

/// The serialized bytes of a record model.
pub open spec fn model_bytes(r: RecModel) -> Seq<u8> {
    match r {
        RecModel::SetRec { key, value } => rec_bytes(key, Some(value)),
        RecModel::RmRec { key } => rec_bytes(key, None),
    }
}

/// The concatenated bytes of a sequence of records, in order.
pub open spec fn cat_bytes(rs: Seq<RecModel>) -> Seq<u8>
    decreases rs.len(),
{
    if rs.len() == 0 {
        Seq::empty()
    } else {
        cat_bytes(rs.drop_last()) + model_bytes(rs.last())
    }
}

/// `spans` are consecutive non-empty byte ranges starting at offset 0 and
/// staying within a buffer of length `len`.
pub open spec fn spans_ok(spans: Seq<(usize, usize)>, len: nat) -> bool {
    &&& (spans.len() > 0 ==> spans[0].0 == 0)
    &&& (forall|i: int|
        0 <= i < spans.len() ==> (#[trigger] spans[i]).0 < spans[i].1 && spans[i].1 <= len)
    &&& (forall|i: int| 0 < i < spans.len() ==> (#[trigger] spans[i]).0 == spans[i - 1].1)
}

/// Appending one record's bytes extends the concatenation by exactly those
/// bytes.
pub proof fn lemma_cat_push(rs: Seq<RecModel>, r: RecModel)
    ensures
        cat_bytes(rs.push(r)) == cat_bytes(rs) + model_bytes(r),
{
    assert(rs.push(r).drop_last() =~= rs);
    assert(rs.push(r).last() == r);
}

/// One more record of a prefix adds exactly that record's bytes.
pub proof fn lemma_cat_take_succ(rs: Seq<RecModel>, i: int)
    requires
        0 <= i < rs.len(),
    ensures
        cat_bytes(rs.take(i + 1)) == cat_bytes(rs.take(i)) + model_bytes(rs[i]),
{
    assert(rs.take(i + 1).drop_last() =~= rs.take(i));
    assert(rs.take(i + 1).last() == rs[i]);
}

/// The whole sequence is its own full prefix.
pub proof fn lemma_cat_take_all(rs: Seq<RecModel>)
    ensures
        cat_bytes(rs.take(rs.len() as int)) == cat_bytes(rs),
{
    assert(rs.take(rs.len() as int) =~= rs);
}

/// The second half of a concatenation is recovered by `subrange`.
pub proof fn lemma_concat_subrange(a: Seq<u8>, b: Seq<u8>)
    ensures
        (a + b).subrange(a.len() as int, (a.len() + b.len()) as int) == b,
        (a + b).take(a.len() as int) == a,
{
    assert((a + b).subrange(a.len() as int, (a.len() + b.len()) as int) =~= b);
    assert((a + b).take(a.len() as int) =~= a);
}

/// A concatenation splits at any record boundary.
pub proof fn lemma_cat_split(rs: Seq<RecModel>, t: int)
    requires
        0 <= t <= rs.len(),
    ensures
        cat_bytes(rs) == cat_bytes(rs.take(t)) + cat_bytes(rs.skip(t)),
    decreases rs.len(),
{
    if t == rs.len() {
        assert(rs.take(t) =~= rs);
        assert(rs.skip(t) =~= Seq::<RecModel>::empty());
        assert(cat_bytes(rs) =~= cat_bytes(rs.take(t)) + cat_bytes(rs.skip(t)));
    } else {
        let dl = rs.drop_last();
        lemma_cat_split(dl, t);
        assert(dl.take(t) =~= rs.take(t));
        assert(rs.skip(t) =~= dl.skip(t).push(rs.last()));
        lemma_cat_push(dl.skip(t), rs.last());
        assert(cat_bytes(rs) =~= cat_bytes(rs.take(t)) + cat_bytes(rs.skip(t)));
    }
}

/// The bytes of one record inside a concatenation are the `subrange`
/// between its canonical offsets.
pub proof fn lemma_cat_slice(rs: Seq<RecModel>, i: int)
    requires
        0 <= i < rs.len(),
    ensures
        cat_bytes(rs.take(i)).len() + model_bytes(rs[i]).len() == cat_bytes(rs.take(i + 1)).len(),
        cat_bytes(rs.take(i + 1)).len() <= cat_bytes(rs).len(),
        cat_bytes(rs).subrange(
            cat_bytes(rs.take(i)).len() as int,
            cat_bytes(rs.take(i + 1)).len() as int,
        ) == model_bytes(rs[i]),
{
    lemma_cat_take_succ(rs, i);
    lemma_cat_split(rs, i + 1);
    lemma_cat_split(rs.take(i + 1), i);
    assert(rs.take(i + 1).take(i) =~= rs.take(i));
    assert(cat_bytes(rs).subrange(
        cat_bytes(rs.take(i)).len() as int,
        cat_bytes(rs.take(i + 1)).len() as int,
    ) =~= model_bytes(rs[i]));
}

/// Compares two byte strings.
pub fn bytes_eq(a: &[u8], b: &[u8]) -> (r: bool)
    ensures
        r == (a@ == b@),
{
    if a.len() != b.len() {
        assert(a@ != b@);
        return false;
    }
    let mut i: usize = 0;
    while i < a.len()
        invariant
            i <= a@.len(),
            a@.len() == b@.len(),
            forall|t: int| 0 <= t < i ==> a@[t] == b@[t],
        decreases a@.len() - i,
    {
        if *vstd::slice::slice_index_get(a, i) != *vstd::slice::slice_index_get(b, i) {
            assert(a@ != b@);
            return false;
        }
        i += 1;
    }
    assert(a@ =~= b@);
    true
}

/// Relies on `serde_json::to_vec`: the record is serialized as one JSON
/// value whose bytes depend on the key and value alone and are never empty.
/// Serializing a JSON value with string keys cannot fail.
#[verifier::external_body]
pub fn encode_command(cmd: &Command) -> (r: Vec<u8>)
    ensures
        r@ == model_bytes(cmd@),
        r@.len() > 0,
{
    let fields = match cmd {
        Command::SetCmd { key, value } => vec![("key".to_owned(), Value::String(key.clone())), ("value".to_owned(), Value::String(value.clone()))],
        Command::RmCmd { key } => vec![("key".to_owned(), Value::String(key.clone()))],
    };
    let tag = if matches!(cmd, Command::SetCmd { .. }) { "Set" } else { "Remove" };
    let inner = Value::Object(fields.into_iter().collect());
    let outer = Value::Object([(tag.to_owned(), inner)].into_iter().collect());
    serde_json::to_vec(&outer).expect("serializing a JSON value cannot fail")
}

/// Relies on `serde_json::from_slice`: parsing the serialized bytes of a
/// record yields that record back.
#[verifier::external_body]
pub fn decode_command(bytes: &[u8]) -> (r: Result<Command, KvsError>)
    ensures
        forall|k: Seq<char>, v: Option<Seq<char>>|
            bytes@ == #[trigger] rec_bytes(k, v) ==> match r {
                Ok(c) => c@ == rec_of(k, v),
                Err(_) => false,
            },
{
    let v: Value = match serde_json::from_slice(bytes) {
        Ok(v) => v, Err(e) => return Err(KvsError::Serde { message: e.to_string() }),
    };
    let key = v.pointer("/Set/key").and_then(Value::as_str);
    let val = v.pointer("/Set/value").and_then(Value::as_str);
    if let (Some(k), Some(val)) = (key, val) {
        return Ok(Command::SetCmd { key: k.to_owned(), value: val.to_owned() });
    }
    if let Some(k) = v.pointer("/Remove/key").and_then(Value::as_str) {
        return Ok(Command::RmCmd { key: k.to_owned() });
    }
    Err(KvsError::Serde { message: "unrecognized record shape".to_owned() })
}

/// Relies on `serde_json::StreamDeserializer` and its `byte_offset`: the
/// buffer is cut into the byte spans of its consecutive JSON values.  On the
/// concatenation of serialized records it returns exactly the spans of those
/// records; on other input it returns consecutive spans of whatever JSON
/// values it finds, or an error.
#[verifier::external_body]
pub fn split_records(bytes: &[u8]) -> (r: Result<Vec<(usize, usize)>, KvsError>)
    ensures
        match r {
            Ok(spans) => spans_ok(spans@, bytes@.len()),
            Err(_) => true,
        },
        forall|rs: Seq<RecModel>|
            bytes@ == #[trigger] cat_bytes(rs) ==> match r {
                Ok(spans) => spans@.len() == rs.len() && forall|i: int|
                    0 <= i < rs.len() ==> (#[trigger] spans@[i]).0 == cat_bytes(
                        rs.take(i),
                    ).len() && spans@[i].1 == cat_bytes(rs.take(i + 1)).len(),
                Err(_) => false,
            },
{
    let mut it = serde_json::Deserializer::from_slice(bytes).into_iter::<serde_json::Value>();
    let mut spans: Vec<(usize, usize)> = Vec::new();
    let mut start: usize = 0;
    while let Some(item) = it.next() {
        if let Err(e) = item {
            return Err(KvsError::Serde { message: e.to_string() });
        }
        let end = it.byte_offset();
        spans.push((start, end));
        start = end;
    }
    Ok(spans)
}

} // verus!
