//! The log-structured storage engine.
//!
//! The store keeps every log file in memory as a byte buffer together with
//! the ghost sequence of records those bytes encode.  The in-memory index
//! maps each live key to the position of the `Set` record holding its
//! current value.  A caller that persists the store mirrors the byte
//! buffers to numbered log files on disk; reopening the store from those
//! files replays the records and rebuilds the same bindings.

use vstd::prelude::*;

use crate::command::{
    bytes_eq, cat_bytes, decode_command, encode_command, lemma_cat_push, lemma_cat_slice,
    lemma_cat_take_all, lemma_concat_subrange, model_bytes, rec_bytes, rec_of, split_records,
    spans_ok, Command, CommandPos, RecModel,
};
use crate::error::KvsError;
use crate::index::{
    index_contains, index_entries, index_get, index_insert, index_model, index_new, index_remove,
    Index,
};

verus! {

/// Compaction is triggered once more than this many dead bytes have
/// accumulated.
pub const COMPACTION_THRESHOLD: u64 = 1024 * 1024;

/// One log file held in memory: its generation, its bytes, and the records
/// those bytes encode.
pub struct LogFile {
    /// The file's generation number.
    pub gen: u64,
    /// The file's bytes.
    pub data: Vec<u8>,
    /// The records the bytes encode, in order.
    pub recs: Ghost<Seq<RecModel>>,
}

/// The visible content of a set of log files: each generation with its
/// bytes.
pub open spec fn disk_of(files: Seq<LogFile>) -> Seq<(u64, Seq<u8>)> {
    files.map_values(|f: LogFile| (f.gen, f.data@))
}

/// All records of a sequence of log files, oldest file first.
pub open spec fn all_recs(files: Seq<LogFile>) -> Seq<RecModel>
    decreases files.len(),
{
    if files.len() == 0 {
        Seq::empty()
    } else {
        all_recs(files.drop_last()) + files.last().recs@
    }
}

/// The concatenation of several record sequences, in order.
pub open spec fn cat_recs(rss: Seq<Seq<RecModel>>) -> Seq<RecModel>
    decreases rss.len(),
{
    if rss.len() == 0 {
        Seq::empty()
    } else {
        cat_recs(rss.drop_last()) + rss.last()
    }
}

/// The bindings left after replaying a sequence of records in order: each
/// `Set` binds its key, each `Remove` unbinds it.
pub open spec fn live_map(rs: Seq<RecModel>) -> Map<Seq<char>, Seq<char>>
    decreases rs.len(),
{
    if rs.len() == 0 {
        Map::empty()
    } else {
        let m = live_map(rs.drop_last());
        match rs.last() {
            RecModel::SetRec { key, value } => m.insert(key, value),
            RecModel::RmRec { key } => m.remove(key),
        }
    }
}

/// Position `p` points, on the files of `d`, at exactly the bytes of the
/// `Set` record binding `k` to `v`.
pub open spec fn entry_points_to(
    d: Seq<(u64, Seq<u8>)>,
    p: CommandPos,
    k: Seq<char>,
    v: Seq<char>,
) -> bool {
    exists|j: int|
        0 <= j < d.len() && (#[trigger] d[j]).0 == p.gen && p.pos + p.len <= d[j].1.len()
            && d[j].1.subrange(p.pos as int, p.pos + p.len) == rec_bytes(k, Some(v))
}

/// The total number of bytes across the files of `d`.
pub open spec fn disk_bytes(d: Seq<(u64, Seq<u8>)>) -> nat
    decreases d.len(),
{
    if d.len() == 0 {
        0
    } else {
        disk_bytes(d.drop_last()) + d.last().1.len()
    }
}

/// `a + b`, capped at the largest `u64`.
pub open spec fn sat_add(a: u64, b: nat) -> u64 {
    if a + b > u64::MAX {
        u64::MAX
    } else {
        (a + b) as u64
    }
}

/// Replaying a pushed record changes the bindings by that record alone.
pub proof fn lemma_live_push(rs: Seq<RecModel>, r: RecModel)
    ensures
        live_map(rs.push(r)) == (match r {
            RecModel::SetRec { key, value } => live_map(rs).insert(key, value),
            RecModel::RmRec { key } => live_map(rs).remove(key),
        }),
{
    assert(rs.push(r).drop_last() =~= rs);
    assert(rs.push(r).last() == r);
}

/// One more file adds its records at the end.
pub proof fn lemma_all_recs_push(files: Seq<LogFile>, f: LogFile)
    ensures
        all_recs(files.push(f)) == all_recs(files) + f.recs@,
{
    assert(files.push(f).drop_last() =~= files);
    assert(files.push(f).last() == f);
}

/// One more record sequence of a prefix appends exactly those records.
pub proof fn lemma_cat_recs_take_succ(rss: Seq<Seq<RecModel>>, i: int)
    requires
        0 <= i < rss.len(),
    ensures
        cat_recs(rss.take(i + 1)) == cat_recs(rss.take(i)) + rss[i],
{
    assert(rss.take(i + 1).drop_last() =~= rss.take(i));
    assert(rss.take(i + 1).last() == rss[i]);
}

/// A position that points into `d` still points into `d` with one more
/// file behind it.
pub proof fn lemma_entry_push(
    d: Seq<(u64, Seq<u8>)>,
    extra: (u64, Seq<u8>),
    p: CommandPos,
    k: Seq<char>,
    v: Seq<char>,
)
    requires
        entry_points_to(d, p, k, v),
    ensures
        entry_points_to(d.push(extra), p, k, v),
{
    let j = choose|j: int|
        0 <= j < d.len() && (#[trigger] d[j]).0 == p.gen && p.pos + p.len <= d[j].1.len()
            && d[j].1.subrange(p.pos as int, p.pos + p.len) == rec_bytes(k, Some(v));
    assert(d.push(extra)[j] == d[j]);
}

/// The byte contents of generation-numbered files handed to `open`.
pub open spec fn pairs_view(files: Seq<(u64, Vec<u8>)>) -> Seq<(u64, Seq<u8>)> {
    files.map_values(|p: (u64, Vec<u8>)| (p.0, p.1@))
}

/// The files' bytes are exactly the concatenated records of `rss`, file by
/// file.
pub open spec fn files_canonical(files: Seq<(u64, Seq<u8>)>, rss: Seq<Seq<RecModel>>) -> bool {
    &&& rss.len() == files.len()
    &&& forall|i: int| 0 <= i < rss.len() ==> files[i].1 == cat_bytes(#[trigger] rss[i])
}

/// The record sequences of a list of files, concatenated, are all its
/// records.
pub proof fn lemma_cat_recs_files(files: Seq<LogFile>)
    ensures
        cat_recs(files.map_values(|f: LogFile| f.recs@)) == all_recs(files),
    decreases files.len(),
{
    let rss = files.map_values(|f: LogFile| f.recs@);
    if files.len() == 0 {
        assert(rss =~= Seq::<Seq<RecModel>>::empty());
    } else {
        lemma_cat_recs_files(files.drop_last());
        assert(files.drop_last().map_values(|f: LogFile| f.recs@) =~= rss.drop_last());
        assert(rss.last() == files.last().recs@);
    }
}

/// Every canonical reading of the files begins with exactly `acc` over the
/// first `i` of them.
#[verifier::opaque]
spec fn acc_matches(files: Seq<(u64, Seq<u8>)>, acc: Seq<RecModel>, i: int) -> bool {
    forall|rss: Seq<Seq<RecModel>>|
        #[trigger] files_canonical(files, rss) ==> acc == cat_recs(rss.take(i))
}

/// Every canonical reading of `data` has exactly these spans.
#[verifier::opaque]
spec fn spans_canonical(data: Seq<u8>, spans: Seq<(usize, usize)>) -> bool {
    forall|rs: Seq<RecModel>|
        data == #[trigger] cat_bytes(rs) ==> spans.len() == rs.len() && (forall|t: int|
            0 <= t < rs.len() ==> (#[trigger] spans[t]).0 == cat_bytes(rs.take(t)).len()
                && spans[t].1 == cat_bytes(rs.take(t + 1)).len())
}

/// Every canonical reading of `data` begins with exactly `recs`.
#[verifier::opaque]
spec fn recs_prefix_of(data: Seq<u8>, recs: Seq<RecModel>, i: int) -> bool {
    forall|rs: Seq<RecModel>| data == #[trigger] cat_bytes(rs) ==> recs == rs.take(i)
}

/// Replays one log file into the index.  Every record must be the exact
/// serialization of its decoded form; otherwise the file is rejected as
/// malformed.  Returns the file together with the dead bytes its replay
/// uncovered.
#[verifier::rlimit(100)]
fn load(
    gen: u64,
    data: Vec<u8>,
    index: &mut Index,
    prior: Ghost<Seq<RecModel>>,
    prior_disk: Ghost<Seq<(u64, Seq<u8>)>>,
) -> (r: Result<(LogFile, u64), KvsError>)
    requires
        index_model(*old(index)).dom() == live_map(prior@).dom(),
        forall|k: Seq<char>|
            #[trigger] index_model(*old(index)).dom().contains(k) ==> entry_points_to(
                prior_disk@,
                index_model(*old(index))[k],
                k,
                live_map(prior@)[k],
            ),
    ensures
        match r {
            Ok(out) => {
                &&& out.0.gen == gen
                &&& out.0.data@ == data@
                &&& data@ == cat_bytes(out.0.recs@)
                &&& index_model(*final(index)).dom() == live_map(prior@ + out.0.recs@).dom()
                &&& forall|k: Seq<char>|
                    #[trigger] index_model(*final(index)).dom().contains(k) ==> entry_points_to(
                        prior_disk@.push((gen, data@)),
                        index_model(*final(index))[k],
                        k,
                        live_map(prior@ + out.0.recs@)[k],
                    )
            },
            Err(_) => true,
        },
        forall|rs: Seq<RecModel>|
            data@ == #[trigger] cat_bytes(rs) ==> (r matches Ok(out) && out.0.recs@ == rs),
{
    let spans = match split_records(data.as_slice()) {
        Ok(s) => s,
        Err(e) => {
            return Err(e);
        },
    };
    proof {
        assert(spans_canonical(data@, spans@)) by {
            reveal(spans_canonical);
        }
    }
    let n = spans.len();
    let covered = if n == 0 {
        data.len() == 0
    } else {
        spans[n - 1].1 == data.len()
    };
    if !covered {
        proof {
            assert forall|rs: Seq<RecModel>| data@ == #[trigger] cat_bytes(rs) implies false by {
                reveal(spans_canonical);
                if rs.len() == 0 {
                    assert(data@.len() == 0);
                } else {
                    assert((#[trigger] spans@[rs.len() - 1]).1 == cat_bytes(
                        rs.take(rs.len() - 1 + 1),
                    ).len());
                    lemma_cat_take_all(rs);
                    assert(rs.take(rs.len() - 1 + 1) =~= rs.take(rs.len() as int));
                }
            }
        }
        let msg: &str = "log holds bytes after its last record";
        return Err(KvsError::Serde { message: msg.to_owned() });
    }
    let mut unc: u64 = 0;
    let ghost mut recs: Seq<RecModel> = Seq::empty();
    let mut prev_end: usize = 0;
    let mut i: usize = 0;
    proof {
        assert(prior@ + recs =~= prior@);
        assert(data@.take(0) =~= Seq::<u8>::empty());
        assert forall|k: Seq<char>|
            #[trigger] index_model(*index).dom().contains(k) implies entry_points_to(
            prior_disk@.push((gen, data@)),
            index_model(*index)[k],
            k,
            live_map(prior@ + recs)[k],
        ) by {
            lemma_entry_push(
                prior_disk@,
                (gen, data@),
                index_model(*index)[k],
                k,
                live_map(prior@)[k],
            );
        }
        assert(recs_prefix_of(data@, recs, 0)) by {
            reveal(recs_prefix_of);
            assert forall|rs: Seq<RecModel>|
                data@ == #[trigger] cat_bytes(rs) implies recs == rs.take(0) by {
                assert(rs.take(0) =~= Seq::<RecModel>::empty());
            }
        }
    }
    while i < spans.len()
        invariant
            i <= spans@.len(),
            spans_ok(spans@, data@.len()),
            spans@.len() == 0 ==> data@.len() == 0,
            spans@.len() > 0 ==> spans@[spans@.len() - 1].1 == data@.len(),
            recs.len() == i,
            i == 0 ==> prev_end == 0,
            i > 0 ==> prev_end == spans@[i - 1].1,
            prev_end <= data@.len(),
            cat_bytes(recs) == data@.take(prev_end as int),
            index_model(*index).dom() == live_map(prior@ + recs).dom(),
            forall|k: Seq<char>|
                #[trigger] index_model(*index).dom().contains(k) ==> entry_points_to(
                    prior_disk@.push((gen, data@)),
                    index_model(*index)[k],
                    k,
                    live_map(prior@ + recs)[k],
                ),
            spans_canonical(data@, spans@),
            recs_prefix_of(data@, recs, i as int),
        decreases spans@.len() - i,
    {
        let (s, e) = spans[i];
        proof {
            assert((#[trigger] spans@[i as int]).0 == s);
            assert(s == prev_end);
            assert(s < e && e <= data@.len());
        }
        let slice = vstd::slice::slice_subrange(data.as_slice(), s, e);
        let decoded = decode_command(slice);
        proof {
            assert forall|rs: Seq<RecModel>|
                data@ == #[trigger] cat_bytes(rs) implies {
                &&& slice@ == model_bytes(rs[i as int])
                &&& (decoded matches Ok(c) && c@ == rs[i as int])
            } by {
                reveal(spans_canonical);
                assert((#[trigger] spans@[i as int]).0 == cat_bytes(rs.take(i as int)).len());
                assert(spans@[i as int].1 == cat_bytes(rs.take(i as int + 1)).len());
                lemma_cat_slice(rs, i as int);
                match rs[i as int] {
                    RecModel::SetRec { key, value } => {
                        assert(slice@ == rec_bytes(key, Some(value)));
                    },
                    RecModel::RmRec { key } => {
                        assert(slice@ == rec_bytes(key, None));
                    },
                }
            }
        }
        let cmd = match decoded {
            Ok(c) => c,
            Err(err) => {
                return Err(err);
            },
        };
        let enc = encode_command(&cmd);
        if !bytes_eq(enc.as_slice(), slice) {
            let msg: &str = "log record is not in canonical form";
            return Err(KvsError::Serde { message: msg.to_owned() });
        }
        assert(slice@ == model_bytes(cmd@));
        let ghost old_recs = recs;
        let ghost old_idx = index_model(*index);
        match &cmd {
            Command::SetCmd { key, value } => {
                if let Some(old_pos) = index_get(index, key) {
                    unc = unc.saturating_add(old_pos.len);
                }
                let pos = CommandPos { gen, pos: s as u64, len: (e - s) as u64 };
                index_insert(index, key.clone(), pos);
            },
            Command::RmCmd { key } => {
                if let Some(old_pos) = index_remove(index, key) {
                    unc = unc.saturating_add(old_pos.len);
                }
                unc = unc.saturating_add((e - s) as u64);
            },
        }
        proof {
            let c = cmd@;
            recs = recs.push(c);
            assert(prior@ + recs =~= (prior@ + old_recs).push(c));
            lemma_live_push(prior@ + old_recs, c);
            lemma_cat_push(old_recs, c);
            assert(data@.take(e as int) =~= data@.take(s as int) + data@.subrange(
                s as int,
                e as int,
            ));
            let d = prior_disk@.push((gen, data@));
            let lm0 = live_map(prior@ + old_recs);
            let lm1 = live_map(prior@ + recs);
            match c {
                RecModel::SetRec { key, value } => {
                    assert(index_model(*index) == old_idx.insert(key, (CommandPos {
                        gen,
                        pos: s as u64,
                        len: (e - s) as u64,
                    })));
                    assert(index_model(*index).dom() =~= lm1.dom());
                    assert forall|k: Seq<char>|
                        #[trigger] index_model(*index).dom().contains(k) implies entry_points_to(
                        d,
                        index_model(*index)[k],
                        k,
                        lm1[k],
                    ) by {
                        if k == key {
                            let j = d.len() - 1;
                            assert(d[j] == (gen, data@));
                            assert(d[j].1.subrange(s as int, e as int) == rec_bytes(
                                key,
                                Some(value),
                            ));
                        } else {
                            assert(old_idx.dom().contains(k));
                            assert(index_model(*index)[k] == old_idx[k]);
                            assert(lm1[k] == lm0[k]);
                        }
                    }
                },
                RecModel::RmRec { key } => {
                    assert(index_model(*index) == old_idx.remove(key));
                    assert(index_model(*index).dom() =~= lm1.dom());
                    assert forall|k: Seq<char>|
                        #[trigger] index_model(*index).dom().contains(k) implies entry_points_to(
                        d,
                        index_model(*index)[k],
                        k,
                        lm1[k],
                    ) by {
                        assert(old_idx.dom().contains(k));
                        assert(index_model(*index)[k] == old_idx[k]);
                        assert(lm1[k] == lm0[k]);
                    }
                },
            }
            assert(recs_prefix_of(data@, recs, i as int + 1)) by {
                reveal(recs_prefix_of);
                assert forall|rs: Seq<RecModel>|
                    data@ == #[trigger] cat_bytes(rs) implies recs == rs.take(i as int + 1) by {
                    reveal(spans_canonical);
                    assert(rs.len() == spans@.len());
                    assert(old_recs == rs.take(i as int));
                    assert(rs.take(i as int + 1) =~= rs.take(i as int).push(rs[i as int]));
                }
            }
        }
        prev_end = e;
        i += 1;
    }
    proof {
        if spans@.len() == 0 {
            assert(data@.take(0) =~= Seq::<u8>::empty());
            assert(data@ =~= Seq::<u8>::empty());
        }
        assert(cat_bytes(recs) == data@.take(data@.len() as int));
        assert(data@.take(data@.len() as int) =~= data@);
        assert forall|rs: Seq<RecModel>|
            data@ == #[trigger] cat_bytes(rs) implies recs == rs by {
            reveal(recs_prefix_of);
            reveal(spans_canonical);
            assert(recs == rs.take(spans@.len() as int));
            assert(rs.take(rs.len() as int) =~= rs);
        }
    }
    let file = LogFile { gen, data, recs: Ghost(recs) };
    Ok((file, unc))
}

/// The key a record speaks of.
pub open spec fn rec_key(r: RecModel) -> Seq<char> {
    match r {
        RecModel::SetRec { key, .. } => key,
        RecModel::RmRec { key } => key,
    }
}

/// `rs` is a snapshot of the bindings `m`: one `Set` record per binding,
/// keys unrepeated, every binding covered.
pub open spec fn snapshot_of(rs: Seq<RecModel>, m: Map<Seq<char>, Seq<char>>) -> bool {
    &&& (forall|i: int|
        0 <= i < rs.len() ==> ((#[trigger] rs[i]) matches RecModel::SetRec { key, value }
            && m.dom().contains(key) && m[key] == value))
    &&& (forall|i: int, j: int|
        0 <= i < j < rs.len() ==> rec_key(#[trigger] rs[i]) != rec_key(#[trigger] rs[j]))
    &&& (forall|k: Seq<char>|
        #[trigger] m.dom().contains(k) ==> exists|i: int|
            0 <= i < rs.len() && rec_key(#[trigger] rs[i]) == k)
}

/// Replaying a snapshot of `m` yields exactly `m`.
pub proof fn lemma_live_map_snapshot(rs: Seq<RecModel>, m: Map<Seq<char>, Seq<char>>)
    requires
        snapshot_of(rs, m),
    ensures
        live_map(rs) == m,
    decreases rs.len(),
{
    if rs.len() == 0 {
        assert forall|k: Seq<char>| !(#[trigger] m.dom().contains(k)) by {
            if m.dom().contains(k) {
                let i = choose|i: int| 0 <= i < rs.len() && rec_key(#[trigger] rs[i]) == k;
                assert(false);
            }
        }
        assert(m =~= live_map(rs));
    } else {
        let last = rs.last();
        let kl = rec_key(last);
        assert(rs[rs.len() - 1] == last);
        let vl = m[kl];
        let dl = rs.drop_last();
        let m2 = m.remove(kl);
        assert forall|i: int|
            0 <= i < dl.len() implies ((#[trigger] dl[i]) matches RecModel::SetRec { key, value }
            && m2.dom().contains(key) && m2[key] == value) by {
            assert(dl[i] == rs[i]);
            assert(rec_key(rs[i]) != rec_key(rs[rs.len() - 1]));
        }
        assert forall|k: Seq<char>|
            #[trigger] m2.dom().contains(k) implies exists|i: int|
            0 <= i < dl.len() && rec_key(#[trigger] dl[i]) == k by {
            assert(m.dom().contains(k));
            let i = choose|i: int| 0 <= i < rs.len() && rec_key(#[trigger] rs[i]) == k;
            assert(k != kl);
            assert(i < rs.len() - 1);
            assert(dl[i] == rs[i]);
            assert(rec_key(dl[i]) == k);
        }
        assert(snapshot_of(dl, m2));
        lemma_live_map_snapshot(dl, m2);
        assert(live_map(rs) == m2.insert(kl, vl));
        assert(m2.insert(kl, vl) =~= m);
    }
}

/// The byte buffers after appending `bytes` to the active (last) file.
pub open spec fn append_to_active(d: Seq<(u64, Seq<u8>)>, bytes: Seq<u8>) -> Seq<(u64, Seq<u8>)>
    recommends
        d.len() > 0,
{
    d.update(d.len() - 1, (d.last().0, d.last().1 + bytes))
}

/// The shape a store has right after a compaction: no dead bytes, the
/// generation advanced by two, and exactly two files on disk — a
/// compaction file holding one `Set` record per live binding of `m`, and
/// an empty active file.
pub open spec fn compacted_from(s: KvStore, m: Map<Seq<char>, Seq<char>>, old_gen: u64) -> bool {
    &&& s.spec_uncompacted() == 0
    &&& s.spec_current_gen() == (old_gen + 2) as u64
    &&& s.disk().len() == 2
    &&& s.disk()[0].0 == (old_gen + 1) as u64
    &&& s.disk()[1] == (((old_gen + 2) as u64, Seq::<u8>::empty()))
    &&& (exists|rs: Seq<RecModel>|
        #[trigger] snapshot_of(rs, m) && s.disk()[0].1 == cat_bytes(rs))
    &&& s.total_bytes() == s.disk()[0].1.len()
}

/// A subrange of a prefix survives appending.
pub proof fn lemma_prefix_subrange(a: Seq<u8>, b: Seq<u8>, x: int, y: int)
    requires
        0 <= x <= y <= a.len(),
    ensures
        (a + b).subrange(x, y) == a.subrange(x, y),
{
    assert((a + b).subrange(x, y) =~= a.subrange(x, y));
}

/// A position that points into `d` still points into `d` after bytes are
/// appended to the last file.
pub proof fn lemma_entry_append_active(
    d: Seq<(u64, Seq<u8>)>,
    bytes: Seq<u8>,
    p: CommandPos,
    k: Seq<char>,
    v: Seq<char>,
)
    requires
        d.len() > 0,
        entry_points_to(d, p, k, v),
    ensures
        entry_points_to(append_to_active(d, bytes), p, k, v),
{
    let j = choose|j: int|
        0 <= j < d.len() && (#[trigger] d[j]).0 == p.gen && p.pos + p.len <= d[j].1.len()
            && d[j].1.subrange(p.pos as int, p.pos + p.len) == rec_bytes(k, Some(v));
    let d2 = append_to_active(d, bytes);
    if j == d.len() - 1 {
        assert(d2[j] == (d.last().0, d.last().1 + bytes));
        lemma_prefix_subrange(d.last().1, bytes, p.pos as int, p.pos + p.len);
    } else {
        assert(d2[j] == d[j]);
    }
}

/// Finds the file with the given generation, if any.
fn find_file(files: &Vec<LogFile>, gen: u64) -> (r: Option<usize>)
    ensures
        match r {
            Some(j) => j < files@.len() && files@[j as int].gen == gen,
            None => forall|j: int| 0 <= j < files@.len() ==> (#[trigger] files@[j]).gen != gen,
        },
{
    let mut j: usize = 0;
    while j < files.len()
        invariant
            j <= files@.len(),
            forall|t: int| 0 <= t < j ==> (#[trigger] files@[t]).gen != gen,
        decreases files@.len() - j,
    {
        if files[j].gen == gen {
            return Some(j);
        }
        j += 1;
    }
    None
}

/// The persistent key-value store: in-memory log files, the index over
/// them, the active generation, and the dead-byte counter.
pub struct KvStore {
    files: Vec<LogFile>,
    index: Index,
    current_gen: u64,
    uncompacted: u64,
}

impl KvStore {
    /// The generations and bytes of the store's log files, ascending by
    /// generation; a caller that persists the store keeps exactly these
    /// files on disk.
    pub closed spec fn disk(self) -> Seq<(u64, Seq<u8>)> {
        disk_of(self.files@)
    }

    /// The records of all log files, oldest first.
    pub closed spec fn recs(self) -> Seq<RecModel> {
        all_recs(self.files@)
    }

    /// The abstract content of the store: the live bindings.
    pub open spec fn model(self) -> Map<Seq<char>, Seq<char>> {
        live_map(self.recs())
    }

    /// The generation currently appended to.
    pub closed spec fn spec_current_gen(self) -> u64 {
        self.current_gen
    }

    /// The dead bytes accumulated since the last compaction.
    pub closed spec fn spec_uncompacted(self) -> u64 {
        self.uncompacted
    }

    /// The total bytes across all log files.
    pub open spec fn total_bytes(self) -> nat {
        disk_bytes(self.disk())
    }

    /// The length of the record holding `k`'s current value, or zero if
    /// `k` is unbound.
    pub open spec fn live_rec_len(self, k: Seq<char>) -> nat {
        if self.model().dom().contains(k) {
            rec_bytes(k, Some(self.model()[k])).len()
        } else {
            0
        }
    }

    spec fn idx(self) -> Map<Seq<char>, CommandPos> {
        index_model(self.index)
    }

    /// The file part of the invariant: at least one file, each holding
    /// exactly the bytes of its records, generations strictly ascending,
    /// and the last file being the active generation.
    spec fn files_wf(self) -> bool {
        &&& self.files@.len() > 0
        &&& (forall|i: int|
            0 <= i < self.files@.len() ==> (#[trigger] self.files@[i]).data@ == cat_bytes(
                self.files@[i].recs@,
            ))
        &&& (forall|i: int, j: int|
            0 <= i < j < self.files@.len() ==> (#[trigger] self.files@[i]).gen < (
            #[trigger] self.files@[j]).gen)
        &&& self.files@.last().gen == self.current_gen
    }

    /// The store's invariant: files are ascending by generation and hold
    /// exactly the bytes of their records, the last file is the active
    /// generation, and the index binds exactly the live keys, each to the
    /// position of the `Set` record holding its current value.
    pub closed spec fn wf(self) -> bool {
        &&& self.files_wf()
        &&& self.idx().dom() == self.model().dom()
        &&& (forall|k: Seq<char>|
            #[trigger] self.idx().dom().contains(k) ==> entry_points_to(
                self.disk(),
                self.idx()[k],
                k,
                self.model()[k],
            ))
    }

    /// Opens a store from the log files found in a directory: each
    /// generation with its bytes, ascending by generation.  Every file is
    /// replayed in order to rebuild the index; a fresh, empty active
    /// generation is then opened after the last one on disk (or generation
    /// 1 on an empty directory).  Fails exactly when some file is not a
    /// concatenation of serialized records.
    #[verifier::rlimit(100)]
    pub fn open(files: Vec<(u64, Vec<u8>)>) -> (r: Result<KvStore, KvsError>)
        requires
            forall|i: int, j: int|
                0 <= i < j < files@.len() ==> (#[trigger] files@[i]).0 < (#[trigger] files@[j]).0,
            forall|i: int| 0 <= i < files@.len() ==> (#[trigger] files@[i]).0 < u64::MAX,
        ensures
            match r {
                Ok(s) => {
                    &&& s.wf()
                    &&& s.spec_current_gen() == (if files@.len() == 0 {
                        1u64
                    } else {
                        (files@.last().0 + 1) as u64
                    })
                    &&& s.disk() == pairs_view(files@).push(
                        (s.spec_current_gen(), Seq::<u8>::empty()),
                    )
                    &&& exists|rss: Seq<Seq<RecModel>>|
                        files_canonical(pairs_view(files@), rss) && s.model() == live_map(
                            #[trigger] cat_recs(rss),
                        )
                },
                Err(_) => true,
            },
            forall|rss: Seq<Seq<RecModel>>|
                #[trigger] files_canonical(pairs_view(files@), rss) ==> (r matches Ok(s)
                    && s.model() == live_map(cat_recs(rss))),
    {
        let ghost fdisk = pairs_view(files@);
        let mut index = index_new();
        let mut store_files: Vec<LogFile> = Vec::new();
        let mut uncompacted: u64 = 0;
        let ghost mut acc: Seq<RecModel> = Seq::empty();
        let mut i: usize = 0;
        proof {
            assert(index_model(index).dom() =~= live_map(acc).dom());
            assert(acc_matches(fdisk, acc, 0)) by {
                reveal(acc_matches);
                assert forall|rss: Seq<Seq<RecModel>>|
                    #[trigger] files_canonical(fdisk, rss) implies acc == cat_recs(rss.take(0)) by {
                    assert(rss.take(0) =~= Seq::<Seq<RecModel>>::empty());
                }
            }
        }
        while i < files.len()
            invariant
                i <= files@.len(),
                forall|x: int, y: int|
                    0 <= x < y < files@.len() ==> (#[trigger] files@[x]).0 < (
                    #[trigger] files@[y]).0,
                forall|x: int| 0 <= x < files@.len() ==> (#[trigger] files@[x]).0 < u64::MAX,
                store_files@.len() == i,
                forall|j: int|
                    0 <= j < i ==> (#[trigger] store_files@[j]).gen == files@[j].0
                        && store_files@[j].data@ == files@[j].1@ && store_files@[j].data@
                        == cat_bytes(store_files@[j].recs@),
                acc == all_recs(store_files@),
                index_model(index).dom() == live_map(acc).dom(),
                forall|k: Seq<char>|
                    #[trigger] index_model(index).dom().contains(k) ==> entry_points_to(
                        disk_of(store_files@),
                        index_model(index)[k],
                        k,
                        live_map(acc)[k],
                    ),
                fdisk == pairs_view(files@),
                acc_matches(fdisk, acc, i as int),
            decreases files@.len() - i,
        {
            let gen = files[i].0;
            let data = vstd::slice::slice_to_vec(files[i].1.as_slice());
            let ghost gdata = data@;
            let ghost prior_disk = disk_of(store_files@);
            let ghost old_acc = acc;
            let ghost old_sf = store_files@;
            let res = load(gen, data, &mut index, Ghost(acc), Ghost(prior_disk));
            match res {
                Ok(out) => {
                    let (file, unc) = out;
                    let ghost frecs = file.recs@;
                    uncompacted = uncompacted.saturating_add(unc);
                    store_files.push(file);
                    proof {
                        acc = acc + frecs;
                        assert(store_files@ == old_sf.push(
                            (LogFile { gen, data: store_files@[i as int].data, recs: Ghost(frecs) }),
                        ));
                        assert(disk_of(store_files@) =~= prior_disk.push((gen, gdata)));
                        lemma_all_recs_push(old_sf, store_files@.last());
                        assert(acc == all_recs(store_files@));
                        assert(acc_matches(fdisk, acc, i as int + 1)) by {
                            reveal(acc_matches);
                            assert forall|rss: Seq<Seq<RecModel>>|
                                #[trigger] files_canonical(fdisk, rss) implies acc == cat_recs(
                                rss.take(i as int + 1),
                            ) by {
                                assert(files_canonical(fdisk, rss));
                                assert(fdisk[i as int] == (files@[i as int].0, files@[i as int].1@));
                                assert(fdisk[i as int].1 == cat_bytes(rss[i as int]));
                                assert(gdata == cat_bytes(rss[i as int]));
                                assert(frecs == rss[i as int]);
                                assert(old_acc == cat_recs(rss.take(i as int)));
                                lemma_cat_recs_take_succ(rss, i as int);
                            }
                        }
                    }
                },
                Err(e) => {
                    proof {
                        assert forall|rss: Seq<Seq<RecModel>>|
                            #[trigger] files_canonical(fdisk, rss) implies false by {
                            assert(fdisk[i as int] == (files@[i as int].0, files@[i as int].1@));
                            assert(fdisk[i as int].1 == cat_bytes(rss[i as int]));
                            assert(gdata == cat_bytes(rss[i as int]));
                        }
                    }
                    return Err(e);
                },
            }
            i += 1;
        }
        let current_gen: u64 = if files.len() == 0 {
            1
        } else {
            files[files.len() - 1].0 + 1
        };
        let ghost old_sf = store_files@;
        let active = LogFile { gen: current_gen, data: Vec::new(), recs: Ghost(Seq::empty()) };
        store_files.push(active);
        let store = KvStore { files: store_files, index, current_gen, uncompacted };
        proof {
            assert(store.files@ == old_sf.push(store.files@.last()));
            assert(store.files@.last().gen == current_gen && store.files@.last().data@
                =~= Seq::<u8>::empty() && store.files@.last().recs@ =~= Seq::<RecModel>::empty());
            lemma_all_recs_push(old_sf, store.files@.last());
            assert(cat_bytes(Seq::<RecModel>::empty()) =~= Seq::<u8>::empty());
            assert(acc + Seq::<RecModel>::empty() =~= acc);
            assert(store.recs() == acc);
            assert(disk_of(old_sf) =~= pairs_view(files@));
            assert(store.disk() =~= pairs_view(files@).push((current_gen, Seq::<u8>::empty())));
            assert forall|x: int, y: int|
                0 <= x < y < store.files@.len() implies (#[trigger] store.files@[x]).gen < (
            #[trigger] store.files@[y]).gen by {
                if y == store.files@.len() - 1 {
                    if x < files@.len() - 1 {
                        assert(files@[x].0 < files@[files@.len() - 1].0);
                    }
                }
            }
            assert forall|k: Seq<char>|
                #[trigger] store.idx().dom().contains(k) implies entry_points_to(
                store.disk(),
                store.idx()[k],
                k,
                store.model()[k],
            ) by {
                lemma_entry_push(
                    disk_of(old_sf),
                    (current_gen, Seq::<u8>::empty()),
                    index_model(store.index)[k],
                    k,
                    live_map(acc)[k],
                );
            }
            assert(store.wf());
            let rss0 = old_sf.map_values(|f: LogFile| f.recs@);
            lemma_cat_recs_files(old_sf);
            assert(files_canonical(pairs_view(files@), rss0));
            assert(store.model() == live_map(cat_recs(rss0)));
            assert forall|rss: Seq<Seq<RecModel>>|
                #[trigger] files_canonical(pairs_view(files@), rss) implies store.model()
                == live_map(cat_recs(rss)) by {
                reveal(acc_matches);
                assert(files_canonical(fdisk, rss));
                assert(acc == cat_recs(rss.take(files@.len() as int)));
                assert(rss.take(rss.len() as int) =~= rss);
            }
        }
        Ok(store)
    }

    /// Looks up a key: its current value, or nothing if it is unbound.
    pub fn get(&self, key: String) -> (r: Result<Option<String>, KvsError>)
        requires
            self.wf(),
        ensures
            match r {
                Ok(v) => if self.model().dom().contains(key@) {
                    v matches Some(s) && s@ == self.model()[key@]
                } else {
                    v is None
                },
                Err(_) => false,
            },
    {
        let p = match index_get(&self.index, &key) {
            Some(p) => p,
            None => {
                return Ok(None);
            },
        };
        proof {
            assert(self.idx().dom().contains(key@));
        }
        let ghost v = self.model()[key@];
        let ghost jw = choose|j: int|
            0 <= j < self.disk().len() && (#[trigger] self.disk()[j]).0 == p.gen && p.pos + p.len
                <= self.disk()[j].1.len() && self.disk()[j].1.subrange(p.pos as int, p.pos + p.len)
                == rec_bytes(key@, Some(v));
        let j = match find_file(&self.files, p.gen) {
            Some(j) => j,
            None => {
                proof {
                    assert(self.disk()[jw].0 == self.files@[jw].gen);
                    assert(false);
                }
                return Err(KvsError::UnexpectedCommandType);
            },
        };
        proof {
            assert(self.disk()[jw].0 == self.files@[jw].gen);
            if jw != j {
                assert(self.files@[jw].gen != self.files@[j as int].gen);
                assert(false);
            }
            assert(p.pos + p.len <= self.files@[j as int].data@.len());
        }
        let dlen = self.files[j].data.len();
        proof {
            assert(p.pos + p.len <= dlen);
        }
        let start = p.pos as usize;
        let end = start + (p.len as usize);
        let slice = vstd::slice::slice_subrange(self.files[j].data.as_slice(), start, end);
        proof {
            assert(slice@ == rec_bytes(key@, Some(v)));
        }
        match decode_command(slice) {
            Ok(cmd) => {
                proof {
                    assert(cmd@ == rec_of(key@, Some(v)));
                }
                match cmd {
                    Command::SetCmd { key: k, value } => Ok(Some(value)),
                    Command::RmCmd { .. } => {
                        proof {
                            assert(false);
                        }
                        Err(KvsError::UnexpectedCommandType)
                    },
                }
            },
            Err(e) => {
                proof {
                    assert(false);
                }
                Err(e)
            },
        }
    }

    /// Appends one record to the active file, returning its position.
    fn append_record(&mut self, cmd: &Command) -> (p: CommandPos)
        requires
            old(self).files_wf(),
        ensures
            final(self).files_wf(),
            final(self).idx() == old(self).idx(),
            final(self).spec_current_gen() == old(self).spec_current_gen(),
            final(self).spec_uncompacted() == old(self).spec_uncompacted(),
            final(self).recs() == old(self).recs().push(cmd@),
            final(self).disk() == append_to_active(old(self).disk(), model_bytes(cmd@)),
            final(self).disk().len() == old(self).disk().len(),
            p.gen == old(self).spec_current_gen(),
            p.pos == old(self).disk().last().1.len(),
            p.len == model_bytes(cmd@).len(),
            p.pos + p.len == final(self).disk().last().1.len(),
            final(self).disk().last().1.subrange(p.pos as int, p.pos + p.len) == model_bytes(
                cmd@,
            ),
            final(self).disk().last().0 == old(self).spec_current_gen(),
    {
        let enc = encode_command(cmd);
        let rec_len: u64 = enc.len() as u64;
        let ghost genc = enc@;
        let ghost old_files = self.files@;
        let mut active = match self.files.pop() {
            Some(f) => f,
            None => {
                proof {
                    assert(false);
                }
                return CommandPos { gen: 0, pos: 0, len: 0 };
            },
        };
        let start = active.data.len();
        let pos_u64 = start as u64;
        let ghost old_arecs = active.recs@;
        let ghost old_adata = active.data@;
        let mut tmp = enc;
        active.data.append(&mut tmp);
        active.recs = Ghost(old_arecs.push(cmd@));
        self.files.push(active);
        let p = CommandPos { gen: self.current_gen, pos: pos_u64, len: rec_len };
        proof {
            let dl = old_files.drop_last();
            let newlast = self.files@.last();
            assert(self.files@ == dl.push(newlast));
            assert(newlast.data@ == old_adata + genc);
            assert(newlast.recs@ == old_arecs.push(cmd@));
            lemma_cat_push(old_arecs, cmd@);
            lemma_all_recs_push(dl, newlast);
            assert(all_recs(old_files) == all_recs(dl) + old_arecs);
            assert(self.recs() =~= old(self).recs().push(cmd@));
            assert forall|j: int| 0 <= j < dl.len() implies self.files@[j] == old_files[j] by {
                assert(dl[j] == old_files[j]);
            }
            assert(self.disk() =~= append_to_active(old(self).disk(), model_bytes(cmd@)));
            lemma_concat_subrange(old_adata, genc);
            assert(old(self).disk().last().1 == old_adata);
            assert(self.files_wf());
        }
        p
    }

    /// Binds `key` to `value`: appends a `Set` record to the active file,
    /// points the index at it, and adds the replaced record's bytes (if
    /// any) to the dead-byte counter.  Compacts once the counter passes
    /// the threshold.
    #[verifier::rlimit(100)]
    pub fn set(&mut self, key: String, value: String) -> (r: Result<(), KvsError>)
        requires
            old(self).wf(),
            old(self).spec_current_gen() <= u64::MAX - 2,
        ensures
            r is Ok,
            final(self).wf(),
            final(self).model() == old(self).model().insert(key@, value@),
            ({
                let grown = sat_add(old(self).spec_uncompacted(), old(self).live_rec_len(key@));
                let rec = (RecModel::SetRec { key: key@, value: value@ });
                if grown > COMPACTION_THRESHOLD {
                    compacted_from(
                        *final(self),
                        old(self).model().insert(key@, value@),
                        old(self).spec_current_gen(),
                    )
                } else {
                    final(self).spec_uncompacted() == grown && final(self).spec_current_gen()
                        == old(self).spec_current_gen() && final(self).disk() == append_to_active(
                        old(self).disk(),
                        model_bytes(rec),
                    )
                }
            }),
    {
        let cmd = Command::set(key.clone(), value.clone());
        let old_pos = index_get(&self.index, &key);
        proof {
            if old_pos is Some {
                assert(self.idx().dom().contains(key@));
                let jw = choose|j: int|
                    0 <= j < self.disk().len() && (#[trigger] self.disk()[j]).0 == self.idx()[key@].gen && self.idx()[key@].pos + self.idx()[key@].len <= self.disk()[j].1.len()
                        && self.disk()[j].1.subrange(
                        self.idx()[key@].pos as int,
                        self.idx()[key@].pos + self.idx()[key@].len,
                    ) == rec_bytes(key@, Some(self.model()[key@]));
                assert(old_pos.unwrap().len == old(self).live_rec_len(key@));
            }
        }
        if let Some(op) = old_pos {
            self.uncompacted = self.uncompacted.saturating_add(op.len);
        }
        let ghost mid_unc = self.uncompacted;
        let p = self.append_record(&cmd);
        index_insert(&mut self.index, key, p);
        proof {
            lemma_live_push(old(self).recs(), cmd@);
            assert(self.model() == old(self).model().insert(key@, value@));
            assert(self.idx().dom() =~= self.model().dom());
            assert forall|k: Seq<char>|
                #[trigger] self.idx().dom().contains(k) implies entry_points_to(
                self.disk(),
                self.idx()[k],
                k,
                self.model()[k],
            ) by {
                if k == key@ {
                    let j = self.disk().len() - 1;
                    assert(self.disk()[j] == self.disk().last());
                } else {
                    assert(old(self).idx().dom().contains(k));
                    lemma_entry_append_active(
                        old(self).disk(),
                        model_bytes(cmd@),
                        old(self).idx()[k],
                        k,
                        old(self).model()[k],
                    );
                    assert(self.model()[k] == old(self).model()[k]);
                }
            }
            assert(self.wf());
            assert(self.spec_uncompacted() == sat_add(
                old(self).spec_uncompacted(),
                old(self).live_rec_len(key@),
            ));
        }
        if self.uncompacted > COMPACTION_THRESHOLD {
            match self.compact() {
                Ok(_) => {},
                Err(e) => {
                    proof {
                        assert(false);
                    }
                    return Err(e);
                },
            }
        }
        Ok(())
    }

    /// Unbinds `key`: appends a tombstone to the active file, removes the
    /// index entry, and adds both the replaced record's and the
    /// tombstone's bytes to the dead-byte counter.  Fails with
    /// `KeyNotFound`, writing nothing, when the key is unbound.  Compacts
    /// once the counter passes the threshold.
    #[verifier::rlimit(100)]
    pub fn remove(&mut self, key: String) -> (r: Result<(), KvsError>)
        requires
            old(self).wf(),
            old(self).spec_current_gen() <= u64::MAX - 2,
        ensures
            final(self).wf(),
            !old(self).model().dom().contains(key@) ==> r == Err::<(), KvsError>(
                KvsError::KeyNotFound,
            ) && *final(self) == *old(self),
            old(self).model().dom().contains(key@) ==> r is Ok && final(self).model() == old(
                self,
            ).model().remove(key@) && ({
                let rec = (RecModel::RmRec { key: key@ });
                let grown = sat_add(
                    sat_add(old(self).spec_uncompacted(), old(self).live_rec_len(key@)),
                    model_bytes(rec).len(),
                );
                if grown > COMPACTION_THRESHOLD {
                    compacted_from(
                        *final(self),
                        old(self).model().remove(key@),
                        old(self).spec_current_gen(),
                    )
                } else {
                    final(self).spec_uncompacted() == grown && final(self).spec_current_gen()
                        == old(self).spec_current_gen() && final(self).disk() == append_to_active(
                        old(self).disk(),
                        model_bytes(rec),
                    )
                }
            }),
    {
        if !index_contains(&self.index, &key) {
            return Err(KvsError::KeyNotFound);
        }
        let cmd = Command::remove(key.clone());
        let old_pos = index_remove(&mut self.index, &key);
        proof {
            assert(old(self).idx().dom().contains(key@));
            let jw = choose|j: int|
                0 <= j < old(self).disk().len() && (#[trigger] old(self).disk()[j]).0 == old(
                    self,
                ).idx()[key@].gen && old(self).idx()[key@].pos + old(self).idx()[key@].len <= old(
                    self,
                ).disk()[j].1.len() && old(self).disk()[j].1.subrange(
                    old(self).idx()[key@].pos as int,
                    old(self).idx()[key@].pos + old(self).idx()[key@].len,
                ) == rec_bytes(key@, Some(old(self).model()[key@]));
            assert(old_pos.unwrap().len == old(self).live_rec_len(key@));
        }
        let op = match old_pos {
            Some(op) => op,
            None => {
                proof {
                    assert(false);
                }
                return Err(KvsError::KeyNotFound);
            },
        };
        self.uncompacted = self.uncompacted.saturating_add(op.len);
        let p = self.append_record(&cmd);
        let tomb_len = p.len;
        self.uncompacted = self.uncompacted.saturating_add(tomb_len);
        proof {
            lemma_live_push(old(self).recs(), cmd@);
            assert(self.model() == old(self).model().remove(key@));
            assert(self.idx().dom() =~= self.model().dom());
            assert forall|k: Seq<char>|
                #[trigger] self.idx().dom().contains(k) implies entry_points_to(
                self.disk(),
                self.idx()[k],
                k,
                self.model()[k],
            ) by {
                assert(old(self).idx().dom().contains(k));
                lemma_entry_append_active(
                    old(self).disk(),
                    model_bytes(cmd@),
                    old(self).idx()[k],
                    k,
                    old(self).model()[k],
                );
                assert(self.model()[k] == old(self).model()[k]);
            }
            assert(self.wf());
            assert(self.spec_uncompacted() == sat_add(
                sat_add(old(self).spec_uncompacted(), old(self).live_rec_len(key@)),
                model_bytes(cmd@).len(),
            ));
        }
        if self.uncompacted > COMPACTION_THRESHOLD {
            match self.compact() {
                Ok(_) => {},
                Err(e) => {
                    proof {
                        assert(false);
                    }
                    return Err(e);
                },
            }
        }
        Ok(())
    }

    /// Rewrites every live record into a fresh compaction file, points the
    /// index at it, opens a new active generation two above the old one,
    /// and resets the dead-byte counter.  The bindings are unchanged.
    #[verifier::rlimit(100)]
    pub fn compact(&mut self) -> (r: Result<(), KvsError>)
        requires
            old(self).wf(),
            old(self).spec_current_gen() <= u64::MAX - 2,
        ensures
            r is Ok,
            final(self).wf(),
            final(self).model() == old(self).model(),
            compacted_from(*final(self), old(self).model(), old(self).spec_current_gen()),
    {
        let ghost m0 = self.model();
        let compaction_gen = self.current_gen + 1;
        let new_gen = self.current_gen + 2;
        let entries = index_entries(&self.index);
        let ghost idx0 = index_model(self.index);
        let mut new_data: Vec<u8> = Vec::new();
        let mut new_pairs: Vec<(String, CommandPos)> = Vec::new();
        let ghost mut new_recs: Seq<RecModel> = Seq::empty();
        let mut t: usize = 0;
        while t < entries.len()
            invariant
                t <= entries@.len(),
                *self == *old(self),
                self.wf(),
                self.spec_current_gen() <= u64::MAX - 2,
                m0 == self.model(),
                idx0 == index_model(self.index),
                compaction_gen == self.spec_current_gen() + 1,
                forall|x: int|
                    0 <= x < entries@.len() ==> idx0.dom().contains((#[trigger] entries@[x]).0@)
                        && idx0[entries@[x].0@] == entries@[x].1,
                forall|k: Seq<char>|
                    idx0.dom().contains(k) ==> exists|x: int|
                        0 <= x < entries@.len() && (#[trigger] entries@[x]).0@ == k,
                forall|x: int, y: int|
                    0 <= x < y < entries@.len() ==> (#[trigger] entries@[x]).0@ != (
                    #[trigger] entries@[y]).0@,
                new_recs.len() == t,
                new_pairs@.len() == t,
                new_data@ == cat_bytes(new_recs),
                forall|x: int|
                    0 <= x < t ==> new_recs[x] == (RecModel::SetRec {
                        key: entries@[x].0@,
                        value: m0[entries@[x].0@],
                    }),
                forall|x: int|
                    0 <= x < t ==> (#[trigger] new_pairs@[x]).0@ == entries@[x].0@
                        && new_pairs@[x].1.gen == compaction_gen && new_pairs@[x].1.pos
                        + new_pairs@[x].1.len <= new_data@.len() && new_data@.subrange(
                        new_pairs@[x].1.pos as int,
                        new_pairs@[x].1.pos + new_pairs@[x].1.len,
                    ) == rec_bytes(entries@[x].0@, Some(m0[entries@[x].0@])),
            decreases entries@.len() - t,
        {
            let p = entries[t].1;
            proof {
                assert((#[trigger] entries@[t as int]).0@ == entries@[t as int].0@);
                assert(self.idx().dom().contains(entries@[t as int].0@));
            }
            let ghost gk = entries@[t as int].0@;
            let ghost v = m0[gk];
            let ghost jw = choose|j: int|
                0 <= j < self.disk().len() && (#[trigger] self.disk()[j]).0 == p.gen && p.pos
                    + p.len <= self.disk()[j].1.len() && self.disk()[j].1.subrange(
                    p.pos as int,
                    p.pos + p.len,
                ) == rec_bytes(gk, Some(v));
            let j = match find_file(&self.files, p.gen) {
                Some(j) => j,
                None => {
                    proof {
                        assert(self.disk()[jw].0 == self.files@[jw].gen);
                        assert(false);
                    }
                    return Err(KvsError::UnexpectedCommandType);
                },
            };
            proof {
                assert(self.disk()[jw].0 == self.files@[jw].gen);
                if jw != j {
                    assert(self.files@[jw].gen != self.files@[j as int].gen);
                    assert(false);
                }
            }
            let dlen = self.files[j].data.len();
            proof {
                assert(p.pos + p.len <= dlen);
            }
            let start = p.pos as usize;
            let end = start + (p.len as usize);
            let slice = vstd::slice::slice_subrange(self.files[j].data.as_slice(), start, end);
            proof {
                assert(slice@ == rec_bytes(gk, Some(v)));
            }
            let newpos = CommandPos { gen: compaction_gen, pos: new_data.len() as u64, len: p.len };
            let mut tmp = vstd::slice::slice_to_vec(slice);
            let ghost old_nd = new_data@;
            let ghost old_recs = new_recs;
            new_data.append(&mut tmp);
            let key_copy = entries[t].0.clone();
            new_pairs.push((key_copy, newpos));
            proof {
                let rec = RecModel::SetRec { key: gk, value: v };
                new_recs = new_recs.push(rec);
                lemma_cat_push(old_recs, rec);
                assert(new_data@ == cat_bytes(new_recs));
                lemma_concat_subrange(old_nd, slice@);
                assert forall|x: int|
                    0 <= x < t + 1 implies (#[trigger] new_pairs@[x]).0@ == entries@[x].0@
                    && new_pairs@[x].1.gen == compaction_gen && new_pairs@[x].1.pos
                    + new_pairs@[x].1.len <= new_data@.len() && new_data@.subrange(
                    new_pairs@[x].1.pos as int,
                    new_pairs@[x].1.pos + new_pairs@[x].1.len,
                ) == rec_bytes(entries@[x].0@, Some(m0[entries@[x].0@])) by {
                    if x < t {
                        lemma_prefix_subrange(
                            old_nd,
                            slice@,
                            new_pairs@[x].1.pos as int,
                            new_pairs@[x].1.pos + new_pairs@[x].1.len,
                        );
                    }
                }
            }
            t += 1;
        }
        let mut nf: Vec<LogFile> = Vec::new();
        nf.push(LogFile { gen: compaction_gen, data: new_data, recs: Ghost(new_recs) });
        nf.push(LogFile { gen: new_gen, data: Vec::new(), recs: Ghost(Seq::empty()) });
        let ghost nfv = nf@;
        self.files = nf;
        self.current_gen = new_gen;
        self.uncompacted = 0;
        proof {
            assert(self.files@ == nfv);
            assert(self.files@.len() == 2);
            assert(snapshot_of(new_recs, m0)) by {
                assert forall|i: int, j2: int|
                    0 <= i < j2 < new_recs.len() implies rec_key(#[trigger] new_recs[i]) != rec_key(
                    #[trigger] new_recs[j2],
                ) by {
                    assert(entries@[i].0@ != entries@[j2].0@);
                }
                assert forall|k: Seq<char>|
                    #[trigger] m0.dom().contains(k) implies exists|i: int|
                    0 <= i < new_recs.len() && rec_key(#[trigger] new_recs[i]) == k by {
                    let x = choose|x: int|
                        0 <= x < entries@.len() && (#[trigger] entries@[x]).0@ == k;
                    assert(rec_key(new_recs[x]) == k);
                }
            }
            lemma_live_map_snapshot(new_recs, m0);
            let fs = self.files@;
            assert(fs.last() == fs[1] && fs[1].recs@ == Seq::<RecModel>::empty());
            assert(fs.drop_last() =~= seq![fs[0]]);
            assert(all_recs(fs) == all_recs(seq![fs[0]]) + fs[1].recs@);
            assert(seq![fs[0]].last() == fs[0]);
            assert(seq![fs[0]].drop_last() =~= Seq::<LogFile>::empty());
            assert(all_recs(seq![fs[0]]) == all_recs(Seq::<LogFile>::empty()) + fs[0].recs@);
            assert(all_recs(Seq::<LogFile>::empty()) == Seq::<RecModel>::empty());
            assert(all_recs(fs) =~= new_recs);
            assert(self.model() == m0);
            assert(cat_bytes(Seq::<RecModel>::empty()) =~= Seq::<u8>::empty());
        }
        let mut t2: usize = 0;
        while t2 < new_pairs.len()
            invariant
                t2 <= new_pairs@.len(),
                self.files@.len() == 2,
                self.files@[0].gen == compaction_gen,
                self.files@[0].data@ == cat_bytes(new_recs),
                self.files@[0].recs@ == new_recs,
                self.files@[1].gen == self.current_gen,
                self.files@[1].data@ == Seq::<u8>::empty(),
                self.files@[1].recs@ == Seq::<RecModel>::empty(),
                self.current_gen == compaction_gen + 1,
                self.uncompacted == 0,
                self.model() == m0,
                idx0.dom() == m0.dom(),
                new_pairs@.len() == entries@.len(),
                forall|x: int|
                    0 <= x < entries@.len() ==> idx0.dom().contains((#[trigger] entries@[x]).0@),
                forall|k: Seq<char>|
                    idx0.dom().contains(k) ==> exists|x: int|
                        0 <= x < entries@.len() && (#[trigger] entries@[x]).0@ == k,
                forall|x: int, y: int|
                    0 <= x < y < entries@.len() ==> (#[trigger] entries@[x]).0@ != (
                    #[trigger] entries@[y]).0@,
                forall|x: int|
                    0 <= x < new_pairs@.len() ==> (#[trigger] new_pairs@[x]).0@ == entries@[x].0@
                        && new_pairs@[x].1.gen == compaction_gen && new_pairs@[x].1.pos
                        + new_pairs@[x].1.len <= self.files@[0].data@.len()
                        && self.files@[0].data@.subrange(
                        new_pairs@[x].1.pos as int,
                        new_pairs@[x].1.pos + new_pairs@[x].1.len,
                    ) == rec_bytes(entries@[x].0@, Some(m0[entries@[x].0@])),
                index_model(self.index).dom() == idx0.dom(),
                forall|x: int|
                    0 <= x < t2 ==> index_model(self.index)[(#[trigger] new_pairs@[x]).0@]
                        == new_pairs@[x].1,
            decreases new_pairs@.len() - t2,
        {
            let key_copy = new_pairs[t2].0.clone();
            let p2 = new_pairs[t2].1;
            proof {
                assert((#[trigger] new_pairs@[t2 as int]).0@ == entries@[t2 as int].0@);
                assert(idx0.dom().contains(entries@[t2 as int].0@));
            }
            let ghost before = index_model(self.index);
            index_insert(&mut self.index, key_copy, p2);
            proof {
                assert(index_model(self.index).dom() =~= idx0.dom());
                assert forall|x: int|
                    0 <= x < t2 + 1 implies index_model(self.index)[(
                #[trigger] new_pairs@[x]).0@] == new_pairs@[x].1 by {
                    if x < t2 {
                        assert(entries@[x].0@ != entries@[t2 as int].0@);
                    }
                }
            }
            t2 += 1;
        }
        proof {
            assert forall|k: Seq<char>|
                #[trigger] self.idx().dom().contains(k) implies entry_points_to(
                self.disk(),
                self.idx()[k],
                k,
                self.model()[k],
            ) by {
                let x = choose|x: int| 0 <= x < entries@.len() && (#[trigger] entries@[x]).0@ == k;
                assert(self.idx()[k] == new_pairs@[x].1);
                let j: int = 0;
                assert(self.disk()[j].0 == compaction_gen);
                assert(self.disk()[j].1 == self.files@[0].data@);
            }
            assert(self.idx().dom() == self.model().dom());
            assert(self.wf());
            assert(self.disk()[1] =~= (((self.current_gen) as u64, Seq::<u8>::empty())));
            let d = self.disk();
            assert(d.last() == d[1] && d[1].1.len() == 0);
            assert(d.drop_last() =~= seq![d[0]]);
            assert(disk_bytes(d) == disk_bytes(seq![d[0]]) + d[1].1.len());
            assert(seq![d[0]].last() == d[0]);
            assert(seq![d[0]].drop_last() =~= Seq::<(u64, Seq<u8>)>::empty());
            assert(disk_bytes(seq![d[0]]) == disk_bytes(Seq::<(u64, Seq<u8>)>::empty()) + d[0].1.len());
            assert(self.total_bytes() == self.disk()[0].1.len());
            assert(compacted_from(*self, m0, old(self).spec_current_gen()));
        }
        Ok(())
    }

    /// The generation currently appended to.
    pub fn current_generation(&self) -> (r: u64)
        ensures
            r == self.spec_current_gen(),
    {
        self.current_gen
    }

    /// The dead bytes accumulated since the last compaction.
    pub fn uncompacted_bytes(&self) -> (r: u64)
        ensures
            r == self.spec_uncompacted(),
    {
        self.uncompacted
    }

    /// The store's log files as a caller must keep them on disk: each
    /// generation with its bytes, ascending by generation.
    pub fn files_snapshot(&self) -> (r: Vec<(u64, Vec<u8>)>)
        ensures
            pairs_view(r@) == self.disk(),
    {
        let mut out: Vec<(u64, Vec<u8>)> = Vec::new();
        let mut i: usize = 0;
        while i < self.files.len()
            invariant
                i <= self.files@.len(),
                out@.len() == i,
                forall|j: int|
                    0 <= j < i ==> (#[trigger] out@[j]).0 == self.files@[j].gen && out@[j].1@
                        == self.files@[j].data@,
            decreases self.files@.len() - i,
        {
            let gen = self.files[i].gen;
            let data = vstd::slice::slice_to_vec(self.files[i].data.as_slice());
            out.push((gen, data));
            i += 1;
        }
        proof {
            assert(pairs_view(out@) =~= self.disk());
        }
        out
    }

    /// The files of a well-formed store are each exactly the bytes of
    /// their records, and replaying those records yields exactly the
    /// store's bindings.  Together with `open`'s contract this says that
    /// reopening a store's files rebuilds every binding it held: the
    /// witness produced here satisfies `open`'s hypothesis for the same
    /// byte contents, and `open` then promises a store with this model.
    pub proof fn lemma_restart_rebuilds_model(self)
        requires
            self.wf(),
        ensures
            exists|rss: Seq<Seq<RecModel>>|
                #[trigger] files_canonical(self.disk(), rss) && live_map(cat_recs(rss))
                    == self.model(),
    {
        let rss = self.files@.map_values(|f: LogFile| f.recs@);
        lemma_cat_recs_files(self.files@);
        assert(files_canonical(self.disk(), rss));
    }

    /// Every live key's index entry points, inside a file that the store
    /// still holds, at exactly the bytes of the `Set` record binding that
    /// key to its current value.
    pub proof fn lemma_index_points_at_live_records(self)
        requires
            self.wf(),
        ensures
            forall|k: Seq<char>|
                #[trigger] self.model().dom().contains(k) ==> exists|p: CommandPos|
                    entry_points_to(self.disk(), p, k, self.model()[k]),
    {
        assert forall|k: Seq<char>|
            #[trigger] self.model().dom().contains(k) implies exists|p: CommandPos|
            entry_points_to(self.disk(), p, k, self.model()[k]) by {
            assert(self.idx().dom().contains(k));
            let p = self.idx()[k];
            assert(entry_points_to(self.disk(), p, k, self.model()[k]));
        }
    }
}

/// Binding a key and reading it back yields the bound value: `set`
/// leaves `model().insert(k, v)`, on which `get` returns exactly `v`.
pub proof fn lemma_set_get_roundtrip(m: Map<Seq<char>, Seq<char>>, k: Seq<char>, v: Seq<char>)
    ensures
        m.insert(k, v).dom().contains(k),
        m.insert(k, v)[k] == v,
{
}

/// Binding the same pair again leaves the bindings unchanged, and the
/// dead bytes the second `set` adds are exactly one record's worth: the
/// length of the record the first `set` wrote.
pub proof fn lemma_set_idempotent(s1: KvStore, k: Seq<char>, v: Seq<char>)
    requires
        s1.model().dom().contains(k),
        s1.model()[k] == v,
    ensures
        s1.model().insert(k, v) == s1.model(),
        s1.live_rec_len(k) == rec_bytes(k, Some(v)).len(),
{
    assert(s1.model().insert(k, v) =~= s1.model());
}

/// A key that was just removed is unbound, so a second `remove` finds
/// nothing and fails with `KeyNotFound` by `remove`'s contract.
pub proof fn lemma_remove_twice_fails(m: Map<Seq<char>, Seq<char>>, k: Seq<char>)
    ensures
        !m.remove(k).dom().contains(k),
{
}

/// After a compaction the log holds exactly one `Set` record per live
/// binding and an empty active file: the bytes on disk are exactly the
/// live records' encodings.
pub proof fn lemma_compaction_total_is_live(s: KvStore, m: Map<Seq<char>, Seq<char>>, g: u64)
    requires
        compacted_from(s, m, g),
    ensures
        exists|rs: Seq<RecModel>|
            #[trigger] snapshot_of(rs, m) && s.total_bytes() == cat_bytes(rs).len(),
{
}

/// A directory with no log files opens to a store with no bindings: the
/// empty reading satisfies `open`'s hypothesis, so `open` succeeds and
/// every `get` misses.
pub proof fn lemma_open_empty_is_empty()
    ensures
        files_canonical(
            pairs_view(Seq::<(u64, Vec<u8>)>::empty()),
            Seq::<Seq<RecModel>>::empty(),
        ),
        live_map(cat_recs(Seq::<Seq<RecModel>>::empty())) == Map::<Seq<char>, Seq<char>>::empty(),
{
    assert(pairs_view(Seq::<(u64, Vec<u8>)>::empty()) =~= Seq::<(u64, Seq<u8>)>::empty());
}

/// One store mutation, as it acts on the abstract bindings: exactly what
/// `set` and `remove` leave behind by their contracts.
pub enum StoreOp {
    /// A `set(key, value)`.
    SetOp { key: Seq<char>, value: Seq<char> },
    /// A successful `remove(key)`.
    RmOp { key: Seq<char> },
}

/// The bindings after one operation.
pub open spec fn apply_op(m: Map<Seq<char>, Seq<char>>, op: StoreOp) -> Map<Seq<char>, Seq<char>> {
    match op {
        StoreOp::SetOp { key, value } => m.insert(key, value),
        StoreOp::RmOp { key } => m.remove(key),
    }
}

/// The bindings after a sequence of operations, applied in order.
pub open spec fn apply_ops(m: Map<Seq<char>, Seq<char>>, ops: Seq<StoreOp>) -> Map<
    Seq<char>,
    Seq<char>,
>
    decreases ops.len(),
{
    if ops.len() == 0 {
        m
    } else {
        apply_op(apply_ops(m, ops.drop_last()), ops.last())
    }
}

/// Whether the operation binds or unbinds `k`.
pub open spec fn touches(op: StoreOp, k: Seq<char>) -> bool {
    match op {
        StoreOp::SetOp { key, .. } => key == k,
        StoreOp::RmOp { key } => key == k,
    }
}

/// After `set(k, v)`, any run of operations with no intervening
/// `remove(k)` or `set(k, _)` leaves `k` bound to `v`, so `get(k)`
/// returns `v` by `get`'s contract.
pub proof fn lemma_get_after_most_recent_set(
    m: Map<Seq<char>, Seq<char>>,
    k: Seq<char>,
    v: Seq<char>,
    ops: Seq<StoreOp>,
)
    requires
        forall|i: int| 0 <= i < ops.len() ==> !touches(#[trigger] ops[i], k),
    ensures
        apply_ops(m.insert(k, v), ops).dom().contains(k),
        apply_ops(m.insert(k, v), ops)[k] == v,
    decreases ops.len(),
{
    if ops.len() > 0 {
        assert(forall|i: int| 0 <= i < ops.len() - 1 ==> ops.drop_last()[i] == #[trigger] ops[i]);
        lemma_get_after_most_recent_set(m, k, v, ops.drop_last());
        assert(!touches(ops[ops.len() - 1], k));
    }
}

/// After a `remove(k)`, any run of operations that do not touch `k`
/// leaves it unbound, so `get(k)` misses by `get`'s contract.
pub proof fn lemma_get_after_remove(m: Map<Seq<char>, Seq<char>>, k: Seq<char>, ops: Seq<StoreOp>)
    requires
        forall|i: int| 0 <= i < ops.len() ==> !touches(#[trigger] ops[i], k),
    ensures
        !apply_ops(m.remove(k), ops).dom().contains(k),
    decreases ops.len(),
{
    if ops.len() > 0 {
        assert(forall|i: int| 0 <= i < ops.len() - 1 ==> ops.drop_last()[i] == #[trigger] ops[i]);
        lemma_get_after_remove(m, k, ops.drop_last());
        assert(!touches(ops[ops.len() - 1], k));
    }
}


} // verus!
