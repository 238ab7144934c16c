//! The log-structured store. Segments live in memory as byte images; every
//! mutation appends one framed record to the active segment, the index maps
//! each live key to its last `Set` record, and compaction rewrites the live
//! records into a fresh segment. File traffic is not done here: each
//! mutation queues the file operations it implies, and the caller applies
//! them to the directory.

use vstd::prelude::*;

use crossbeam_skiplist::SkipMap;

use crate::codec::{bytes_to_string, match_bytes};
use crate::error::KVError;
use crate::model::{
    apply_record, initial_state, kv_of, loc_of, locs_valid, locs_view, replay_log, replay_records,
    replay_segs, seg_has, seg_has_witness, stale_cap, sum_locs, lemma_replay_log_append,
    lemma_replay_segs_push, lemma_replay_segs_valid, lemma_sum_locs_insert_fresh, LoadState,
    LocEntry,
};
use crate::COMPACTION_THRESHOLD;
use crate::records::{
    decode_command, encode_command, records_from, log_end, spec_decode, spec_encode_bytes,
    lemma_spec_decode_canonical, lemma_spec_decode_encode, Command, CommandV,
};

verus! {

#[verifier::external_type_specification]
#[verifier::external_body]
#[verifier::reject_recursive_types(K)]
#[verifier::reject_recursive_types(V)]
pub struct ExSkipMap<K, V>(SkipMap<K, V>);

/// A locator: the gen, byte offset and byte length of a record.
pub type Loc = (u64, u64, u64);

/// The concurrent ordered index over live keys.
pub type Index = SkipMap<String, Loc>;

/// What the index holds: each key's locator `(gen, pos, len)`.
pub uninterp spec fn skipmap_entries(m: SkipMap<String, Loc>) -> Map<
    Seq<char>,
    Loc,
>;

/// The view of an index with no entries.
pub open spec fn empty_index_view() -> Map<Seq<char>, Loc> {
    Map::empty()
}

/// Relies on crossbeam_skiplist's SkipMap::new: the new map is empty.
#[verifier::external_body]
fn index_new() -> (created: Index)
    ensures
        skipmap_entries(created) == empty_index_view(),
{
    SkipMap::new()
}

/// Relies on crossbeam_skiplist's SkipMap::get, which looks a key up by
/// `String`'s `Ord`; equal order is equal character content.
#[verifier::external_body]
fn index_get(m: &SkipMap<String, Loc>, key: &String) -> (r: Option<Loc>)
    ensures
        r == if skipmap_entries(*m).contains_key(key@) {
            Some(skipmap_entries(*m)[key@])
        } else {
            None::<Loc>
        },
{
    m.get(key).map(|e| *e.value())
}

/// Relies on crossbeam_skiplist's SkipMap::insert, which replaces any
/// existing entry with the same key.
#[verifier::external_body]
fn index_insert(m: &mut SkipMap<String, Loc>, key: String, loc: Loc)
    ensures
        skipmap_entries(*final(m)) == skipmap_entries(*old(m)).insert(key@, loc),
{
    m.insert(key, loc);
}

/// Relies on crossbeam_skiplist's SkipMap::remove, which removes the entry
/// with this key and returns it.
#[verifier::external_body]
fn index_remove(m: &mut SkipMap<String, Loc>, key: &String) -> (r: Option<
    Loc,
>)
    ensures
        r == if skipmap_entries(*old(m)).contains_key(key@) {
            Some(skipmap_entries(*old(m))[key@])
        } else {
            None::<Loc>
        },
        skipmap_entries(*final(m)) == skipmap_entries(*old(m)).remove(key@),
{
    m.remove(key).map(|e| *e.value())
}

/// Relies on crossbeam_skiplist's SkipMap::iter, which yields each live
/// entry exactly once.
#[verifier::external_body]
fn index_entries(m: &SkipMap<String, Loc>) -> (r: Vec<(String, Loc)>)
    ensures
        forall|a: int, b: int| 0 <= a < b < r@.len() ==> r@[a].0@ != r@[b].0@,
        forall|a: int|
            0 <= a < r@.len() ==> skipmap_entries(*m).contains_key(#[trigger] r@[a].0@)
                && skipmap_entries(*m)[r@[a].0@] == r@[a].1,
        forall|k: Seq<char>|
            skipmap_entries(*m).contains_key(k) ==> exists|a: int|
                0 <= a < r@.len() && #[trigger] r@[a].0@ == k,
{
    m.iter().map(|e| (e.key().clone(), *e.value())).collect()
}

/// Saturating add: the stale-byte counter may stick at the top, never wrap.
fn sat_add(a: u64, b: u64) -> (r: u64)
    ensures
        r as int == if a + b <= u64::MAX {
            a + b
        } else {
            u64::MAX as int
        },
{
    if a > u64::MAX - b {
        u64::MAX
    } else {
        a + b
    }
}

/// One segment file image: its gen and its bytes.
pub struct Segment {
    pub gen: u64,
    pub data: Vec<u8>,
}

impl View for Segment {
    type V = (u64, Seq<u8>);

    open spec fn view(&self) -> (u64, Seq<u8>) {
        (self.gen, self.data@)
    }
}

/// A file operation the store asks its caller to perform on the directory.
pub enum FileOp {
    /// Create (or truncate) `<gen>.log` as an empty file.
    Create { gen: u64 },
    /// Append these bytes to `<gen>.log`.
    Append { gen: u64, bytes: Vec<u8> },
    /// Unlink `<gen>.log`.
    Delete { gen: u64 },
}

/// A directory as a mapping from gen to file contents.
pub open spec fn segs_map(segs: Seq<(u64, Seq<u8>)>) -> Map<u64, Seq<u8>>
    decreases segs.len(),
{
    if segs.len() == 0 {
        Map::empty()
    } else {
        segs_map(segs.drop_last()).insert(segs.last().0, segs.last().1)
    }
}

/// The effect of one queued file operation on a directory.
pub open spec fn apply_op(m: Map<u64, Seq<u8>>, op: FileOp) -> Map<u64, Seq<u8>> {
    match op {
        FileOp::Create { gen } => m.insert(gen, Seq::empty()),
        FileOp::Append { gen, bytes } => m.insert(
            gen,
            (if m.contains_key(gen) {
                m[gen]
            } else {
                Seq::empty()
            }) + bytes@,
        ),
        FileOp::Delete { gen } => m.remove(gen),
    }
}

pub open spec fn apply_ops(m: Map<u64, Seq<u8>>, ops: Seq<FileOp>) -> Map<u64, Seq<u8>>
    decreases ops.len(),
{
    if ops.len() == 0 {
        m
    } else {
        apply_ops(apply_op(m, ops[0]), ops.drop_first())
    }
}

pub proof fn lemma_apply_ops_snoc(m: Map<u64, Seq<u8>>, ops: Seq<FileOp>, op: FileOp)
    ensures
        apply_ops(m, ops.push(op)) == apply_op(apply_ops(m, ops), op),
    decreases ops.len(),
{
    if ops.len() == 0 {
        assert(ops.push(op)[0] == op);
        assert(ops.push(op).drop_first() =~= Seq::<FileOp>::empty());
        assert(apply_ops(apply_op(m, op), Seq::empty()) == apply_op(m, op));
    } else {
        assert(ops.push(op)[0] == ops[0]);
        assert(ops.push(op).drop_first() =~= ops.drop_first().push(op));
        lemma_apply_ops_snoc(apply_op(m, ops[0]), ops.drop_first(), op);
    }
}

pub proof fn lemma_segs_map_push(segs: Seq<(u64, Seq<u8>)>, s: (u64, Seq<u8>))
    ensures
        segs_map(segs.push(s)) == segs_map(segs).insert(s.0, s.1),
{
    assert(segs.push(s).drop_last() =~= segs);
    assert(segs.push(s).last() == s);
}

/// Total byte size of a directory of segments.
pub open spec fn total_bytes(segs: Seq<(u64, Seq<u8>)>) -> int
    decreases segs.len(),
{
    if segs.len() == 0 {
        0
    } else {
        total_bytes(segs.drop_last()) + segs.last().1.len()
    }
}

/// Appending one segment adds its size to the directory total.
pub proof fn lemma_total_bytes_push(segs: Seq<(u64, Seq<u8>)>, s: (u64, Seq<u8>))
    ensures
        total_bytes(segs.push(s)) == total_bytes(segs) + s.1.len(),
{
    assert(segs.push(s).drop_last() =~= segs);
    assert(segs.push(s).last() == s);
}

/// The views of a run of segments.
pub open spec fn seg_views(segs: Seq<Segment>) -> Seq<(u64, Seq<u8>)> {
    segs.map_values(|s: Segment| s@)
}

/// A verified byte-for-byte copy.
fn dup_bytes(src: &Vec<u8>) -> (out: Vec<u8>)
    ensures
        out@ == src@,
{
    let mut out: Vec<u8> = Vec::new();
    let mut i: usize = 0;
    while i < src.len()
        invariant
            i <= src.len(),
            out@ == src@.subrange(0, i as int),
        decreases src.len() - i,
    {
        out.push(src[i]);
        assert(out@ =~= src@.subrange(0, i + 1));
        i += 1;
    }
    assert(src@.subrange(0, src@.len() as int) =~= src@);
    out
}

/// The append handle over the active segment: a growing byte buffer and the
/// cursor where the next record lands.
pub struct KVDiskWriter {
    data: Vec<u8>,
    cursor: u64,
}

impl KVDiskWriter {
    pub closed spec fn wf(&self) -> bool {
        self.cursor == self.data@.len()
    }

    pub closed spec fn bytes(&self) -> Seq<u8> {
        self.data@
    }

    pub fn new() -> (r: Result<KVDiskWriter, KVError>)
        ensures
            r is Ok,
            r->Ok_0.wf(),
            r->Ok_0.bytes() == Seq::<u8>::empty(),
    {
        Ok(KVDiskWriter { data: Vec::new(), cursor: 0 })
    }

    /// Append one serialized record; return the cursor before the write and
    /// the record's byte length.
    pub fn write_entry(&mut self, serialized: Vec<u8>) -> (r: Result<(u64, u64), KVError>)
        requires
            old(self).wf(),
        ensures
            final(self).wf(),
            final(self).bytes() == old(self).bytes() + serialized@,
            final(self).bytes().len() <= u64::MAX,
            r == Ok::<(u64, u64), KVError>(
                (old(self).bytes().len() as u64, serialized@.len() as u64),
            ),
    {
        let old_pos = self.cursor;
        let mut s = serialized;
        self.data.append(&mut s);
        let n = self.data.len();
        self.cursor = n as u64;
        Ok((old_pos, n as u64 - old_pos))
    }
}

/// A loaded segment image being replayed into the index.
pub struct KVDiskReader {
    pub data: Vec<u8>,
}

impl KVDiskReader {
    pub fn new(inner: Vec<u8>) -> (r: Result<KVDiskReader, KVError>)
        ensures
            r is Ok,
            r->Ok_0.data@ == inner@,
            r->Ok_0.data@.len() <= u64::MAX,
    {
        let n = inner.len();
        Ok(KVDiskReader { data: inner })
    }

    /// Replay this segment's records into the index: later records shadow
    /// earlier ones, and decoding stops at the first malformed byte. Returns
    /// the stale bytes this segment's replay accounted (saturated at the
    /// top of `u64`).
    pub fn load_log_from_disk(
        &self,
        map: &mut SkipMap<String, Loc>,
        fgen: u64,
        st0: Ghost<LoadState>,
    ) -> (r: Result<u64, KVError>)
        requires
            skipmap_entries(*old(map)) == locs_view(st0@.locs),
            forall|k: Seq<char>| #[trigger]
                st0@.locs.contains_key(k) ==> 0 <= st0@.locs[k].pos <= u64::MAX && 0
                    < st0@.locs[k].len <= u64::MAX,
        ensures
            ({
                let st1 = replay_log(st0@, fgen, self.data@);
                &&& r is Ok
                &&& skipmap_entries(*final(map)) == locs_view(st1.locs)
                &&& r->Ok_0 as int == stale_cap(st1.stale - st0@.stale)
                &&& st1.stale >= st0@.stale
                &&& forall|k: Seq<char>| #[trigger]
                    st1.locs.contains_key(k) ==> 0 <= st1.locs[k].pos <= u64::MAX && 0
                        < st1.locs[k].len <= u64::MAX
            }),
    {
        let d = &self.data;
        let n = d.len();
        let mut pos: usize = 0;
        let mut need: u64 = 0;
        let ghost mut st = st0@;
        loop
            invariant
                d@ == self.data@,
                pos <= n == d@.len(),
                skipmap_entries(*map) == locs_view(st.locs),
                forall|k: Seq<char>| #[trigger]
                    st.locs.contains_key(k) ==> 0 <= st.locs[k].pos <= u64::MAX && 0
                        < st.locs[k].len <= u64::MAX,
                st.stale >= st0@.stale,
                need as int == stale_cap(st.stale - st0@.stale),
                replay_records(st, fgen, records_from(d@, pos as int)) == replay_log(
                    st0@,
                    fgen,
                    d@,
                ),
            decreases n - pos,
        {
            let next = decode_command(d, pos);
            match next {
                None => {
                    proof {
                        assert(records_from(d@, pos as int) =~= Seq::<(int, int, CommandV)>::empty());
                        assert(replay_records(st, fgen, records_from(d@, pos as int)) == st);
                        assert(st == replay_log(st0@, fgen, self.data@));
                    }
                    return Ok(need);
                },
                Some((cmd, end)) => {
                    proof {
                        lemma_spec_decode_canonical(d@, pos as int);
                    }
                    let ghost cv = cmd@;
                    let len_u = (end - pos) as u64;
                    let ghost st_next = apply_record(
                        st,
                        fgen,
                        pos as int,
                        end - pos as int,
                        cv,
                    );
                    proof {
                        let rs = records_from(d@, pos as int);
                        assert(rs[0] == (pos as int, end - pos as int, cv));
                        assert(rs.drop_first() =~= records_from(d@, end as int));
                        assert(replay_records(st, fgen, rs) == replay_records(
                            st_next,
                            fgen,
                            records_from(d@, end as int),
                        ));
                    }
                    match cmd {
                        Command::Put { key, value } => {
                            let prev = index_get(map, &key);
                            if let Some(l) = prev {
                                need = sat_add(need, l.2);
                            }
                            index_insert(map, key, (fgen, pos as u64, len_u));
                            proof {
                                assert(skipmap_entries(*map) =~= locs_view(st_next.locs));
                                st = st_next;
                            }
                        },
                        Command::Remove { key } => {
                            let prev = index_remove(map, &key);
                            if let Some(l) = prev {
                                need = sat_add(need, l.2);
                            }
                            need = sat_add(need, len_u);
                            proof {
                                assert(skipmap_entries(*map) =~= locs_view(st_next.locs));
                                st = st_next;
                            }
                        },
                    }
                    pos = end;
                },
            }
        }
    }
}

/// Composing the file-operation suffixes of two consecutive mutations.
proof fn lemma_compose_ops(segs0: Seq<(u64, Seq<u8>)>, mid: KvStore, fin: KvStore, base: int)
    requires
        0 <= base <= mid.pending_ops().len() <= fin.pending_ops().len(),
        mid.pending_ops() == fin.pending_ops().subrange(0, mid.pending_ops().len() as int),
        segs_map(mid.all_segs()) == apply_ops(segs_map(segs0), mid.pending_ops().skip(base)),
        segs_map(fin.all_segs()) == apply_ops(
            segs_map(mid.all_segs()),
            fin.pending_ops().skip(mid.pending_ops().len() as int),
        ),
    ensures
        fin.pending_ops().subrange(0, base) == mid.pending_ops().subrange(0, base),
        segs_map(fin.all_segs()) == apply_ops(segs_map(segs0), fin.pending_ops().skip(base)),
{
    let a = mid.pending_ops().skip(base);
    let b = fin.pending_ops().skip(mid.pending_ops().len() as int);
    assert(fin.pending_ops().skip(base) =~= a + b);
    lemma_apply_ops_concat(segs_map(segs0), a, b);
    assert(fin.pending_ops().subrange(0, base) =~= mid.pending_ops().subrange(0, base));
}

/// The log-structured store over in-memory segment images.
pub struct KvStore {
    index: Index,
    segments: Vec<Segment>,
    writer: KVDiskWriter,
    curr_gen: u64,
    need_compact: u64,
    pending: Vec<FileOp>,
}

impl KvStore {
    /// All segments in gen order, the active one last.
    pub closed spec fn all_segs(&self) -> Seq<(u64, Seq<u8>)> {
        seg_views(self.segments@).push((self.curr_gen, self.writer.bytes()))
    }

    /// The replay of the segments: the store's model.
    pub closed spec fn st(&self) -> LoadState {
        replay_segs(self.all_segs())
    }

    /// The visible key-value mapping.
    pub closed spec fn kv_map(&self) -> Map<Seq<char>, Seq<char>> {
        kv_of(self.st())
    }

    /// The gen of the active segment.
    pub closed spec fn gen(&self) -> u64 {
        self.curr_gen
    }

    /// The file operations queued for the caller to apply.
    pub closed spec fn pending_ops(&self) -> Seq<FileOp> {
        self.pending@
    }

    /// The store's invariant: segments strictly ordered by gen with the
    /// active one largest, the active image fully decodable, the index equal
    /// to the replay's locator map, and the stale counter equal to the
    /// replay's stale count (saturated).
    pub closed spec fn inv(&self) -> bool {
        &&& forall|i: int, j: int|
            0 <= i < j < self.all_segs().len() ==> (#[trigger] self.all_segs()[i]).0 < (
            #[trigger] self.all_segs()[j]).0
        &&& forall|i: int|
            0 <= i < self.all_segs().len() ==> (#[trigger] self.all_segs()[i]).1.len()
                <= u64::MAX
        &&& self.writer.wf()
        &&& log_end(self.writer.bytes(), 0) == self.writer.bytes().len()
        &&& skipmap_entries(self.index) == locs_view(self.st().locs)
        &&& self.need_compact == stale_cap(self.st().stale)
    }

    /// Open a store over the segment images read from a directory, given in
    /// ascending gen order. Records of later segments shadow earlier ones; a
    /// malformed tail ends a segment's records without failing the open. A
    /// fresh empty segment becomes the active one, and its creation is the
    /// one queued file operation.
    pub fn open(segs: Vec<Segment>) -> (r: Result<KvStore, KVError>)
        requires
            forall|i: int, j: int|
                0 <= i < j < segs@.len() ==> (#[trigger] segs@[i]).gen < (#[trigger] segs@[j]).gen,
            forall|i: int| 0 <= i < segs@.len() ==> (#[trigger] segs@[i]).gen < u64::MAX,
        ensures
            r is Ok,
            ({
                let s = r->Ok_0;
                &&& s.inv()
                &&& s.st() == replay_segs(seg_views(segs@))
                &&& s.kv_map() == kv_of(replay_segs(seg_views(segs@)))
                &&& segs_map(s.all_segs()) == apply_ops(
                    segs_map(seg_views(segs@)),
                    s.pending_ops(),
                )
                &&& s.gen() == (if segs@.len() == 0 {
                    1u64
                } else {
                    (segs@.last().gen + 1) as u64
                })
            }),
    {
        let ghost input = seg_views(segs@);
        let mut rest = segs;
        let mut segments: Vec<Segment> = Vec::new();
        let mut index = index_new();
        let mut need: u64 = 0;
        let mut curr: u64 = 1;
        let ghost mut st = initial_state();
        proof {
            assert(seg_views(segments@) =~= input.subrange(0, 0));
            assert(seg_views(rest@) =~= input.subrange(0, input.len() as int));
        }
        while rest.len() > 0
            invariant
                seg_views(segments@) == input.subrange(0, segments@.len() as int),
                seg_views(rest@) == input.subrange(segments@.len() as int, input.len() as int),
                segments@.len() + rest@.len() == input.len(),
                forall|i: int, j: int|
                    0 <= i < j < input.len() ==> (#[trigger] input[i]).0 < (#[trigger] input[j]).0,
                forall|i: int| 0 <= i < input.len() ==> (#[trigger] input[i]).0 < u64::MAX,
                st == replay_segs(seg_views(segments@)),
                skipmap_entries(index) == locs_view(st.locs),
                forall|k: Seq<char>| #[trigger]
                    st.locs.contains_key(k) ==> 0 <= st.locs[k].pos <= u64::MAX && 0
                        < st.locs[k].len <= u64::MAX,
                st.stale >= 0,
                need as int == stale_cap(st.stale),
                forall|i: int|
                    0 <= i < segments@.len() ==> (#[trigger] segments@[i]).data@.len()
                        <= u64::MAX,
                curr as int == (if segments@.len() == 0 {
                    1int
                } else {
                    input[segments@.len() - 1].0 + 1
                }),
            decreases rest.len(),
        {
            let ghost segments_pre = segments@;
            let ghost rest_pre = rest@;
            let seg = rest.remove(0);
            let gen = seg.gen;
            proof {
                assert(seg == rest_pre[0]);
                assert(seg@ == seg_views(rest_pre)[0]);
                assert(seg@ == input[segments_pre.len() as int]);
                assert(rest@ =~= rest_pre.drop_first());
                assert(seg_views(rest@) =~= input.subrange(
                    segments_pre.len() as int + 1,
                    input.len() as int,
                )) by {
                    assert(forall|i: int|
                        0 <= i < rest@.len() ==> #[trigger] seg_views(rest@)[i] == seg_views(
                            rest_pre,
                        )[i + 1]);
                    assert(forall|i: int|
                        0 <= i < rest_pre.len() ==> #[trigger] seg_views(rest_pre)[i]
                            == input.subrange(
                            segments_pre.len() as int,
                            input.len() as int,
                        )[i]);
                };
            }
            let reader = match KVDiskReader::new(seg.data) {
                Ok(rd) => rd,
                Err(e) => {
                    return Err(e);
                },
            };
            let delta = match reader.load_log_from_disk(&mut index, gen, Ghost(st)) {
                Ok(d) => d,
                Err(e) => {
                    return Err(e);
                },
            };
            need = sat_add(need, delta);
            proof {
                let ghost st_next = replay_log(st, gen, reader.data@);
                lemma_replay_segs_push(seg_views(segments_pre), (gen, reader.data@));
                st = st_next;
            }
            let KVDiskReader { data } = reader;
            segments.push(Segment { gen, data });
            curr = gen + 1;
            proof {
                assert(seg_views(segments@) =~= seg_views(segments_pre).push((gen, data@)));
                assert(seg_views(segments@) =~= input.subrange(0, segments@.len() as int));
            }
        }
        let writer = match KVDiskWriter::new() {
            Ok(w) => w,
            Err(e) => {
                return Err(e);
            },
        };
        let mut pending: Vec<FileOp> = Vec::new();
        pending.push(FileOp::Create { gen: curr });
        let store = KvStore { index, segments, writer, curr_gen: curr, need_compact: need, pending };
        proof {
            assert(input.subrange(0, input.len() as int) =~= input);
            assert(seg_views(store.segments@) == input);
            assert(store.all_segs() == input.push((curr, Seq::<u8>::empty())));
            lemma_replay_segs_push(input, (curr, Seq::<u8>::empty()));
            assert(spec_decode(Seq::<u8>::empty(), 0) is None);
            assert(records_from(Seq::<u8>::empty(), 0) =~= Seq::<(int, int, CommandV)>::empty());
            assert(replay_records(st, curr, records_from(Seq::<u8>::empty(), 0)) == st);
            assert(store.st() == st);
            assert(log_end(Seq::<u8>::empty(), 0) == 0);
            assert(store.inv()) by {
                assert(forall|i: int|
                    0 <= i < input.len() ==> #[trigger] store.all_segs()[i] == input[i]);
                assert(store.all_segs().last() == (curr, Seq::<u8>::empty()));
            };
            // the queued create turns the directory that was read into the
            // directory the store now models
            lemma_segs_map_push(input, (curr, Seq::<u8>::empty()));
            assert(store.pending@ =~= seq![FileOp::Create { gen: curr }]);
            assert(store.pending@[0] == FileOp::Create { gen: curr });
            assert(store.pending@.drop_first() =~= Seq::<FileOp>::empty());
            assert(apply_ops(
                apply_op(segs_map(input), FileOp::Create { gen: curr }),
                store.pending@.drop_first(),
            ) == apply_op(segs_map(input), FileOp::Create { gen: curr }));
            assert(apply_ops(segs_map(input), store.pending@) == apply_op(
                segs_map(input),
                FileOp::Create { gen: curr },
            ));
            assert(store.kv_map() == kv_of(replay_segs(input)));
        }
        Ok(store)
    }

    /// The position of the retired segment carrying gen `g`.
    fn find_segment_idx(&self, g: u64) -> (i: usize)
        requires
            exists|si: int|
                0 <= si < self.segments@.len() && (#[trigger] self.segments@[si]).gen == g,
        ensures
            i < self.segments@.len(),
            self.segments@[i as int].gen == g,
    {
        let ghost si = choose|si: int|
            0 <= si < self.segments@.len() && (#[trigger] self.segments@[si]).gen == g;
        let n = self.segments.len();
        let mut i: usize = 0;
        while i < n
            invariant
                i <= n == self.segments@.len(),
                0 <= si < self.segments@.len(),
                self.segments@[si].gen == g,
                forall|m: int| 0 <= m < i ==> (#[trigger] self.segments@[m]).gen != g,
            decreases n - i,
        {
            if self.segments[i].gen == g {
                return i;
            }
            i += 1;
        }
        proof {
            assert(false);
        }
        0
    }

    /// A verbatim copy of one record's bytes out of the segment its locator
    /// names.
    fn copy_record(&self, g: u64, p: u64, l: u64, c: Ghost<CommandV>) -> (out: Vec<u8>)
        requires
            forall|i: int, j: int|
                0 <= i < j < self.all_segs().len() ==> (#[trigger] self.all_segs()[i]).0 < (
                #[trigger] self.all_segs()[j]).0,
            seg_has(self.all_segs(), g, p as int, l as int, c@),
        ensures
            out@ == spec_encode_bytes(c@),
            out@.len() == l as int,
    {
        let ghost si = seg_has_witness(self.all_segs(), g, p as int, l as int, c@);
        proof {
            lemma_spec_decode_canonical(self.all_segs()[si].1, p as int);
        }
        let data: &Vec<u8> = if g == self.curr_gen {
            proof {
                assert(si == self.all_segs().len() - 1) by {
                    if si < self.all_segs().len() - 1 {
                        assert(self.all_segs()[si].0 < self.all_segs().last().0);
                    }
                };
                assert(self.all_segs().last() == (self.curr_gen, self.writer.bytes()));
            }
            &self.writer.data
        } else {
            proof {
                assert(si < self.all_segs().len() - 1) by {
                    assert(self.all_segs().last().0 == self.curr_gen);
                };
                assert(self.all_segs()[si] == seg_views(self.segments@)[si]);
                assert(self.segments@[si].gen == g);
            }
            let i = self.find_segment_idx(g);
            proof {
                // gens are strictly ordered, so the found slot is the witness
                let fi = i as int;
                assert(fi == si) by {
                    assert(self.all_segs()[fi] == seg_views(self.segments@)[fi]);
                    if fi < si {
                        assert(self.all_segs()[fi].0 < self.all_segs()[si].0);
                    }
                    if si < fi {
                        assert(self.all_segs()[si].0 < self.all_segs()[fi].0);
                    }
                };
            }
            &self.segments[i].data
        };
        proof {
            assert(data@ == self.all_segs()[si].1);
        }
        let n = data.len();
        let start = p as usize;
        let end = start + l as usize;
        let mut out: Vec<u8> = Vec::new();
        let mut j: usize = start;
        while j < end
            invariant
                start <= j <= end <= data@.len(),
                out@ == data@.subrange(start as int, j as int),
            decreases end - j,
        {
            out.push(data[j]);
            assert(out@ =~= data@.subrange(start as int, j + 1));
            j += 1;
        }
        proof {
            assert(out@ == data@.subrange(p as int, p + l));
        }
        out
    }

    /// Gets the value of a key straight from the segment bytes its locator
    /// names: the locator is looked up, the record's bytes are re-read and
    /// re-decoded, and its value is returned.
    pub fn get(&self, key: String) -> (r: Result<Option<String>, KVError>)
        requires
            self.inv(),
        ensures
            match r {
                Ok(Some(v)) => self.kv_map().contains_key(key@) && v@ == self.kv_map()[key@],
                Ok(None) => !self.kv_map().contains_key(key@),
                Err(_) => false,
            },
    {
        let loc = index_get(&self.index, &key);
        proof {
            lemma_replay_segs_valid(self.all_segs());
        }
        match loc {
            None => {
                assert(!self.kv_map().contains_key(key@));
                Ok(None)
            },
            Some((g, p, l)) => {
                let ghost entry = self.st().locs[key@];
                let ghost cmd = CommandV::Put { key: key@, value: entry.value };
                proof {
                    assert(self.st().locs.contains_key(key@));
                    assert((g, p, l) == loc_of(entry));
                }
                let bytes = self.copy_record(g, p, l, Ghost(cmd));
                proof {
                    assert(bytes@.subrange(0, spec_encode_bytes(cmd).len() as int) =~= bytes@);
                    lemma_spec_decode_encode(bytes@, 0, cmd);
                }
                match decode_command(&bytes, 0) {
                    Some((Command::Put { key: _found_key, value }, _end)) => {
                        assert(value@ == entry.value);
                        assert(self.kv_map()[key@] == entry.value);
                        Ok(Some(value))
                    },
                    Some((Command::Remove { .. }, _end)) => {
                        // unreachable: the locator names a Set record
                        assert(false);
                        Err(KVError::GetMethodError)
                    },
                    None => {
                        assert(false);
                        Err(KVError::Serde)
                    },
                }
            },
        }
    }


    /// The gen of the active segment.
    pub fn current_gen(&self) -> (r: u64)
        ensures
            r == self.gen(),
    {
        self.curr_gen
    }

    /// The stale-byte counter, as the writer holds it.
    pub fn stale_bytes(&self) -> (r: u64)
        requires
            self.inv(),
        ensures
            r == stale_cap(self.st().stale),
    {
        self.need_compact
    }

    /// The gen and byte size of every segment, the active one last.
    pub fn segment_sizes(&self) -> (r: Vec<(u64, u64)>)
        requires
            self.inv(),
        ensures
            r@.len() == self.all_segs().len(),
            forall|i: int|
                0 <= i < r@.len() ==> (#[trigger] r@[i]).0 == self.all_segs()[i].0 && r@[i].1
                    as int == self.all_segs()[i].1.len(),
    {
        let mut r: Vec<(u64, u64)> = Vec::new();
        let mut i: usize = 0;
        let n = self.segments.len();
        while i < n
            invariant
                self.inv(),
                i <= n == self.segments@.len(),
                r@.len() == i,
                forall|m: int|
                    0 <= m < i ==> (#[trigger] r@[m]).0 == self.all_segs()[m].0 && r@[m].1 as int
                        == self.all_segs()[m].1.len(),
            decreases n - i,
        {
            let len = self.segments[i].data.len();
            r.push((self.segments[i].gen, len as u64));
            proof {
                assert(self.all_segs()[i as int] == seg_views(self.segments@)[i as int]);
            }
            i += 1;
        }
        let alen = self.writer.data.len();
        r.push((self.curr_gen, alen as u64));
        r
    }

    /// A copy of every segment image, in gen order, the active one last:
    /// what a caller persists or reopens from.
    pub fn export_segments(&self) -> (r: Vec<Segment>)
        requires
            self.inv(),
        ensures
            seg_views(r@) == self.all_segs(),
    {
        let mut r: Vec<Segment> = Vec::new();
        let mut i: usize = 0;
        let n = self.segments.len();
        while i < n
            invariant
                self.inv(),
                i <= n == self.segments@.len(),
                seg_views(r@) == self.all_segs().subrange(0, i as int),
            decreases n - i,
        {
            let ghost r_pre = r@;
            let data = dup_bytes(&self.segments[i].data);
            r.push(Segment { gen: self.segments[i].gen, data });
            proof {
                assert(seg_views(r_pre).len() == r_pre.len());
                assert(r_pre.len() == i as int);
                assert(self.all_segs()[i as int] == seg_views(self.segments@)[i as int]);
                assert(forall|m: int|
                    0 <= m < r_pre.len() ==> #[trigger] seg_views(r@)[m] == seg_views(r_pre)[m]);
                assert(seg_views(r@)[i as int] == r@[i as int]@);
                assert(r@[i as int]@ == (self.segments@[i as int].gen, self.segments@[i as int].data@));
                assert(seg_views(r@) =~= self.all_segs().subrange(0, i + 1));
            }
            i += 1;
        }
        let ghost r_pre = r@;
        let data = dup_bytes(&self.writer.data);
        r.push(Segment { gen: self.curr_gen, data });
        proof {
            assert(seg_views(r_pre).len() == r_pre.len());
            assert(r_pre.len() == self.segments@.len());
            assert(forall|m: int|
                0 <= m < r_pre.len() ==> #[trigger] seg_views(r@)[m] == seg_views(r_pre)[m]);
            assert(seg_views(r@)[r_pre.len() as int] == r@[r_pre.len() as int]@);
            assert(r@[r_pre.len() as int]@ == (self.curr_gen, self.writer.bytes()));
            assert(seg_views(r@) =~= self.all_segs());
        }
        r
    }

    /// Sets the value of a key: the `Set` record is appended to the active
    /// segment and queued for the file, the displaced locator's bytes are
    /// accounted stale, the index is re-pointed, and compaction runs if the
    /// stale count has passed the threshold (and two fresh gens still fit).
    pub fn set(&mut self, key: String, value: String) -> (r: Result<(), KVError>)
        requires
            old(self).inv(),
        ensures
            final(self).inv(),
            r is Ok,
            final(self).kv_map() == old(self).kv_map().insert(key@, value@),
            final(self).gen() >= old(self).gen(),
            old(self).pending_ops().is_prefix_of(final(self).pending_ops()),
            segs_map(final(self).all_segs()) == apply_ops(
                segs_map(old(self).all_segs()),
                final(self).pending_ops().skip(old(self).pending_ops().len() as int),
            ),
            ({
                let stale1 = old(self).st().stale + (if old(self).st().locs.contains_key(key@) {
                    old(self).st().locs[key@].len
                } else {
                    0
                });
                let appended = spec_encode_bytes(CommandV::Put { key: key@, value: value@ });
                let entry = (LocEntry {
                    gen: old(self).gen(),
                    pos: old(self).all_segs().last().1.len() as int,
                    len: appended.len() as int,
                    value: value@,
                });
                &&& (stale_cap(stale1) > COMPACTION_THRESHOLD && old(self).gen() + 2 <= u64::MAX
                    ==> final(self).gen() == old(self).gen() + 2 && final(self).st().stale == 0
                    && total_bytes(final(self).all_segs()) == sum_locs(final(self).st().locs)
                    && (forall|k: Seq<char>| #[trigger]
                        final(self).st().locs.contains_key(k) ==> final(self).st().locs[k].gen
                            == old(self).gen() + 1))
                &&& (!(stale_cap(stale1) > COMPACTION_THRESHOLD && old(self).gen() + 2
                    <= u64::MAX) ==> final(self).gen() == old(self).gen() && final(self).st().stale
                    == stale1 && final(self).st().locs == old(self).st().locs.insert(key@, entry)
                    && final(self).all_segs().last() == (old(self).gen(), old(
                        self,
                    ).all_segs().last().1 + appended) && final(self).all_segs().drop_last() == old(
                    self,
                ).all_segs().drop_last() && total_bytes(final(self).all_segs()) == total_bytes(
                    old(self).all_segs(),
                ) + appended.len())
            }),
    {
        let ghost st0 = self.st();
        let ghost segs0 = self.all_segs();
        let ghost pending0 = self.pending@;
        proof {
            lemma_replay_segs_valid(segs0);
        }
        let cmd = Command::Put { key: key.clone(), value };
        let enc = encode_command(&cmd);
        let file_bytes = dup_bytes(&enc);
        let ghost d0 = self.writer.bytes();
        let (pos, len) = match self.writer.write_entry(enc) {
            Ok(pl) => pl,
            Err(_) => {
                proof {
                    assert(false);
                }
                return Err(KVError::Io);
            },
        };
        let ghost cv = cmd@;
        let ghost st1 = apply_record(st0, self.curr_gen, pos as int, len as int, cv);
        proof {
            assert(segs0 =~= seg_views(self.segments@).push((self.curr_gen, d0)));
            lemma_append_active(seg_views(self.segments@), self.curr_gen, d0, cv);
            assert(self.all_segs() =~= seg_views(self.segments@).push(
                (self.curr_gen, d0 + spec_encode_bytes(cv)),
            ));
            assert(self.st() == st1);
        }
        self.pending.push(FileOp::Append { gen: self.curr_gen, bytes: file_bytes });
        let prev = index_get(&self.index, &key);
        if let Some(l) = prev {
            self.need_compact = sat_add(self.need_compact, l.2);
        }
        index_insert(&mut self.index, key, (self.curr_gen, pos, len));
        proof {
            assert(skipmap_entries(self.index) =~= locs_view(st1.locs));
            assert(self.need_compact == stale_cap(st1.stale));
            assert(self.inv()) by {
                assert(forall|i: int|
                    0 <= i < segs0.len() ==> (#[trigger] self.all_segs()[i]).0 == segs0[i].0);
            };
            assert(self.kv_map() =~= old(self).kv_map().insert(key@, value@));
            // the new locator names the cursor before the append and the
            // record's exact size; only the active segment grew
            assert(segs0.last() == (old(self).curr_gen, d0));
            assert(st1.locs == st0.locs.insert(
                key@,
                LocEntry {
                    gen: old(self).gen(),
                    pos: d0.len() as int,
                    len: spec_encode_bytes(cv).len() as int,
                    value: value@,
                },
            ));
            assert(self.all_segs().last() == (old(self).gen(), d0 + spec_encode_bytes(cv)));
            assert(self.all_segs().drop_last() =~= seg_views(self.segments@));
            assert(segs0.drop_last() =~= seg_views(self.segments@));
            lemma_total_bytes_push(seg_views(self.segments@), (self.curr_gen, d0));
            lemma_total_bytes_push(
                seg_views(self.segments@),
                (self.curr_gen, d0 + spec_encode_bytes(cv)),
            );
            assert(total_bytes(self.all_segs()) == total_bytes(segs0) + spec_encode_bytes(
                cv,
            ).len());
            // the one queued append turns the old directory into the new one
            let m0 = segs_map(segs0);
            let op = FileOp::Append { gen: self.curr_gen, bytes: file_bytes };
            assert(self.pending@.skip(pending0.len() as int) =~= seq![op]);
            lemma_segs_map_push(seg_views(self.segments@), (self.curr_gen, d0));
            lemma_segs_map_push(
                seg_views(self.segments@),
                (self.curr_gen, d0 + spec_encode_bytes(cv)),
            );
            assert(segs_map(self.all_segs()) =~= apply_op(m0, op));
            assert(seq![op].drop_first() =~= Seq::<FileOp>::empty());
            assert(apply_ops(apply_op(m0, op), seq![op].drop_first()) == apply_op(m0, op));
            assert(apply_ops(m0, seq![op]) == apply_op(m0, op));
        }
        if self.need_compact > COMPACTION_THRESHOLD && self.curr_gen <= u64::MAX - 2 {
            let ghost mid = *self;
            match self.compact() {
                Ok(()) => {},
                Err(_) => {
                    proof {
                        assert(false);
                    }
                    return Err(KVError::Io);
                },
            }
            proof {
                lemma_compose_ops(segs0, mid, *self, pending0.len() as int);
            }
        }
        Ok(())
    }

    /// Removes a key. Where the key is absent nothing is written and
    /// key-not-found is returned; otherwise a `Remove` record is appended and
    /// queued, the locator is dropped, both its bytes and the new record's
    /// own bytes are accounted stale, and compaction may run.
    pub fn remove(&mut self, key: String) -> (r: Result<(), KVError>)
        requires
            old(self).inv(),
        ensures
            final(self).inv(),
            final(self).gen() >= old(self).gen(),
            old(self).pending_ops().is_prefix_of(final(self).pending_ops()),
            segs_map(final(self).all_segs()) == apply_ops(
                segs_map(old(self).all_segs()),
                final(self).pending_ops().skip(old(self).pending_ops().len() as int),
            ),
            !old(self).kv_map().contains_key(key@) ==> r == Err::<(), KVError>(
                KVError::KeyNoExist,
            ) && *final(self) == *old(self),
            old(self).kv_map().contains_key(key@) ==> r is Ok && final(self).kv_map() == old(
                self,
            ).kv_map().remove(key@) && ({
                let appended = spec_encode_bytes(CommandV::Remove { key: key@ });
                let stale1 = old(self).st().stale + old(self).st().locs[key@].len
                    + appended.len();
                &&& (stale_cap(stale1) > COMPACTION_THRESHOLD && old(self).gen() + 2 <= u64::MAX
                    ==> final(self).gen() == old(self).gen() + 2 && final(self).st().stale == 0
                    && total_bytes(final(self).all_segs()) == sum_locs(final(self).st().locs)
                    && (forall|k: Seq<char>| #[trigger]
                        final(self).st().locs.contains_key(k) ==> final(self).st().locs[k].gen
                            == old(self).gen() + 1))
                &&& (!(stale_cap(stale1) > COMPACTION_THRESHOLD && old(self).gen() + 2
                    <= u64::MAX) ==> final(self).gen() == old(self).gen() && final(self).st().stale
                    == stale1 && final(self).st().locs == old(self).st().locs.remove(key@)
                    && final(self).all_segs().last() == (old(self).gen(), old(
                        self,
                    ).all_segs().last().1 + appended) && final(self).all_segs().drop_last() == old(
                    self,
                ).all_segs().drop_last() && total_bytes(final(self).all_segs()) == total_bytes(
                    old(self).all_segs(),
                ) + appended.len())
            }),
    {
        let ghost st0 = self.st();
        let ghost segs0 = self.all_segs();
        let ghost pending0 = self.pending@;
        proof {
            lemma_replay_segs_valid(segs0);
        }
        let prev = index_get(&self.index, &key);
        if prev.is_none() {
            assert(!self.kv_map().contains_key(key@));
            return Err(KVError::KeyNoExist);
        }
        let prev_loc = prev.unwrap();
        let cmd = Command::Remove { key: key.clone() };
        let enc = encode_command(&cmd);
        let file_bytes = dup_bytes(&enc);
        let ghost d0 = self.writer.bytes();
        let (pos, len) = match self.writer.write_entry(enc) {
            Ok(pl) => pl,
            Err(_) => {
                proof {
                    assert(false);
                }
                return Err(KVError::Io);
            },
        };
        let ghost cv = cmd@;
        let ghost st1 = apply_record(st0, self.curr_gen, pos as int, len as int, cv);
        proof {
            assert(segs0 =~= seg_views(self.segments@).push((self.curr_gen, d0)));
            lemma_append_active(seg_views(self.segments@), self.curr_gen, d0, cv);
            assert(self.all_segs() =~= seg_views(self.segments@).push(
                (self.curr_gen, d0 + spec_encode_bytes(cv)),
            ));
            assert(self.st() == st1);
        }
        self.pending.push(FileOp::Append { gen: self.curr_gen, bytes: file_bytes });
        let removed = index_remove(&mut self.index, &key);
        self.need_compact = sat_add(self.need_compact, prev_loc.2);
        self.need_compact = sat_add(self.need_compact, len);
        proof {
            assert(skipmap_entries(self.index) =~= locs_view(st1.locs));
            assert(self.need_compact == stale_cap(st1.stale));
            assert(self.inv()) by {
                assert(forall|i: int|
                    0 <= i < segs0.len() ==> (#[trigger] self.all_segs()[i]).0 == segs0[i].0);
            };
            assert(self.kv_map() =~= old(self).kv_map().remove(key@));
            // the remove record's exact encoding went to the active segment;
            // only that segment grew, and only this key's locator left
            assert(segs0.last() == (old(self).curr_gen, d0));
            assert(st1.locs == st0.locs.remove(key@));
            assert(self.all_segs().last() == (old(self).gen(), d0 + spec_encode_bytes(cv)));
            assert(self.all_segs().drop_last() =~= seg_views(self.segments@));
            assert(segs0.drop_last() =~= seg_views(self.segments@));
            lemma_total_bytes_push(seg_views(self.segments@), (self.curr_gen, d0));
            lemma_total_bytes_push(
                seg_views(self.segments@),
                (self.curr_gen, d0 + spec_encode_bytes(cv)),
            );
            assert(total_bytes(self.all_segs()) == total_bytes(segs0) + spec_encode_bytes(
                cv,
            ).len());
            let m0 = segs_map(segs0);
            let op = FileOp::Append { gen: self.curr_gen, bytes: file_bytes };
            assert(self.pending@.skip(pending0.len() as int) =~= seq![op]);
            lemma_segs_map_push(seg_views(self.segments@), (self.curr_gen, d0));
            lemma_segs_map_push(
                seg_views(self.segments@),
                (self.curr_gen, d0 + spec_encode_bytes(cv)),
            );
            assert(segs_map(self.all_segs()) =~= apply_op(m0, op));
            assert(seq![op].drop_first() =~= Seq::<FileOp>::empty());
            assert(apply_ops(apply_op(m0, op), seq![op].drop_first()) == apply_op(m0, op));
            assert(apply_ops(m0, seq![op]) == apply_op(m0, op));
        }
        if self.need_compact > COMPACTION_THRESHOLD && self.curr_gen <= u64::MAX - 2 {
            let ghost mid = *self;
            match self.compact() {
                Ok(()) => {},
                Err(_) => {
                    proof {
                        assert(false);
                    }
                    return Err(KVError::Io);
                },
            }
            proof {
                lemma_compose_ops(segs0, mid, *self, pending0.len() as int);
            }
        }
        Ok(())
    }

    /// Compaction: copy every live record verbatim into a fresh segment
    /// `curr_gen + 1`, re-point the index at the copies, make `curr_gen + 2`
    /// the new active segment, queue the deletion of everything older, and
    /// reset the stale count. The visible mapping does not change, and
    /// afterwards the segments hold exactly the live records.
    fn compact(&mut self) -> (r: Result<(), KVError>)
        requires
            old(self).inv(),
            old(self).gen() + 2 <= u64::MAX,
        ensures
            final(self).inv(),
            r is Ok,
            final(self).kv_map() == old(self).kv_map(),
            final(self).st().stale == 0,
            final(self).need_compact == 0,
            final(self).gen() == old(self).gen() + 2,
            old(self).pending_ops().is_prefix_of(final(self).pending_ops()),
            segs_map(final(self).all_segs()) == apply_ops(
                segs_map(old(self).all_segs()),
                final(self).pending_ops().skip(old(self).pending_ops().len() as int),
            ),
            total_bytes(final(self).all_segs()) == sum_locs(final(self).st().locs),
            forall|k: Seq<char>| #[trigger]
                final(self).st().locs.contains_key(k) ==> final(self).st().locs[k].gen == old(
                    self,
                ).gen() + 1,
    {
        let ghost st0 = self.st();
        let ghost segs0 = self.all_segs();
        let ghost pending0 = self.pending@;
        let ghost self0 = *self;
        proof {
            lemma_replay_segs_valid(segs0);
        }
        let gen_compact = self.curr_gen + 1;
        let next_gen = self.curr_gen + 2;
        let entries = index_entries(&self.index);
        proof {
            // the listing speaks of the replay's locators
            assert(forall|a: int|
                0 <= a < entries@.len() ==> st0.locs.contains_key(#[trigger] entries@[a].0@)
                    && loc_of(st0.locs[entries@[a].0@]) == entries@[a].1);
        }
        let mut compact_writer = match KVDiskWriter::new() {
            Ok(w) => w,
            Err(_) => {
                proof {
                    assert(false);
                }
                return Err(KVError::Io);
            },
        };
        proof {
            assert(log_end(Seq::<u8>::empty(), 0) == 0);
            assert(records_from(Seq::<u8>::empty(), 0) =~= Seq::<(int, int, CommandV)>::empty());
            assert(replay_log(initial_state(), gen_compact, Seq::<u8>::empty())
                == initial_state());
            assert(sum_locs(initial_state().locs) == 0) by {
                assert(initial_state().locs.dom() =~= Set::<Seq<char>>::empty());
            };
        }
        let ghost mut cst = initial_state();
        let mut i: usize = 0;
        let n = entries.len();
        while i < n
            invariant
                i <= n == entries@.len(),
                self.segments == self0.segments,
                self.writer == self0.writer,
                self.curr_gen == self0.curr_gen,
                self.pending == self0.pending,
                self.need_compact == self0.need_compact,
                self.all_segs() == segs0,
                self0.inv(),
                st0 == replay_segs(segs0),
                st0 == self0.st(),
                locs_valid(segs0, st0.locs),
                gen_compact == self.curr_gen + 1,
                next_gen == self.curr_gen + 2,
                forall|a: int, b: int| 0 <= a < b < entries@.len() ==> entries@[a].0@ != entries@[b].0@,
                forall|a: int|
                    0 <= a < entries@.len() ==> st0.locs.contains_key(#[trigger] entries@[a].0@)
                        && loc_of(st0.locs[entries@[a].0@]) == entries@[a].1,
                compact_writer.wf(),
                log_end(compact_writer.bytes(), 0) == compact_writer.bytes().len(),
                compact_writer.bytes().len() <= u64::MAX,
                cst == replay_log(initial_state(), gen_compact, compact_writer.bytes()),
                cst.stale == 0,
                cst.locs.dom().finite(),
                sum_locs(cst.locs) == compact_writer.bytes().len(),
                forall|k: Seq<char>|
                    cst.locs.contains_key(k) <==> exists|a: int|
                        0 <= a < i && (#[trigger] entries@[a].0)@ == k,
                forall|k: Seq<char>| #[trigger]
                    cst.locs.contains_key(k) ==> st0.locs.contains_key(k) && cst.locs[k].value
                        == st0.locs[k].value && cst.locs[k].gen == gen_compact && 0
                        <= cst.locs[k].pos && 0 < cst.locs[k].len && cst.locs[k].pos
                        + cst.locs[k].len <= compact_writer.bytes().len(),
                skipmap_entries(self.index) == locs_view(st0.locs).union_prefer_right(
                    locs_view(cst.locs),
                ),
            decreases n - i,
        {
            let k = entries[i].0.clone();
            let (g, p, l) = entries[i].1;
            let ghost kv_i = entries@[i as int].0@;
            let ghost e0 = st0.locs[kv_i];
            let ghost cmd_i = CommandV::Put { key: kv_i, value: e0.value };
            proof {
                assert(st0.locs.contains_key(kv_i) && loc_of(e0) == (g, p, l));
                assert(seg_has(segs0, e0.gen, e0.pos, e0.len, cmd_i));
                assert(g == e0.gen && p as int == e0.pos && l as int == e0.len);
            }
            let bytes = self.copy_record(g, p, l, Ghost(cmd_i));
            let ghost d_pre = compact_writer.bytes();
            let (cpos, clen) = match compact_writer.write_entry(bytes) {
                Ok(x) => x,
                Err(_) => {
                    proof {
                        assert(false);
                    }
                    return Err(KVError::Io);
                },
            };
            index_insert(&mut self.index, k, (gen_compact, cpos, clen));
            let ghost e_new = LocEntry {
                gen: gen_compact,
                pos: cpos as int,
                len: clen as int,
                value: e0.value,
            };
            let ghost cst_next = apply_record(cst, gen_compact, cpos as int, clen as int, cmd_i);
            proof {
                lemma_replay_log_append(initial_state(), gen_compact, d_pre, cmd_i);
                assert(!cst.locs.contains_key(kv_i));
                assert(cst_next.locs == cst.locs.insert(kv_i, e_new));
                assert(cst_next.stale == 0);
                lemma_sum_locs_insert_fresh(cst.locs, kv_i, e_new);
                assert(skipmap_entries(self.index) =~= locs_view(st0.locs).union_prefer_right(
                    locs_view(cst_next.locs),
                ));
                assert(forall|k2: Seq<char>|
                    cst_next.locs.contains_key(k2) <==> exists|a: int|
                        0 <= a < i + 1 && (#[trigger] entries@[a].0)@ == k2) by {
                    assert(forall|k2: Seq<char>| #[trigger]
                        cst.locs.contains_key(k2) ==> exists|a: int|
                            0 <= a < i + 1 && (#[trigger] entries@[a].0)@ == k2);
                    assert((entries@[i as int].0)@ == kv_i);
                };
                cst = cst_next;
            }
            i += 1;
        }
        proof {
            // every live key was listed, so the new locators cover exactly
            // the old ones, with the same values
            assert forall|k: Seq<char>| #[trigger] st0.locs.contains_key(k) implies
                cst.locs.contains_key(k) by {
                assert(locs_view(st0.locs).contains_key(k));
                let a = choose|a: int| 0 <= a < entries@.len() && (#[trigger] entries@[a].0@) == k;
                assert(0 <= a < entries@.len() && (entries@[a].0)@ == k);
            };
            assert(kv_of(cst) =~= kv_of(st0));
            assert(skipmap_entries(self.index) =~= locs_view(cst.locs));
        }
        // queue the file operations this compaction implies
        let ghost m0 = segs_map(segs0);
        let ghost base = pending0.len() as int;
        proof {
            lemma_segs_map_char(segs0);
            assert(self.pending@.skip(base) =~= Seq::<FileOp>::empty());
        }
        let ghost mut dm = m0;
        let op1 = FileOp::Create { gen: next_gen };
        self.pending.push(op1);
        proof {
            assert(self.pending@.skip(base) =~= Seq::<FileOp>::empty().push(op1));
            lemma_apply_ops_snoc(m0, Seq::<FileOp>::empty(), op1);
            dm = apply_op(dm, op1);
        }
        let op2 = FileOp::Create { gen: gen_compact };
        let ghost suffix1 = self.pending@.skip(base);
        self.pending.push(op2);
        proof {
            assert(self.pending@.skip(base) =~= suffix1.push(op2));
            lemma_apply_ops_snoc(m0, suffix1, op2);
            dm = apply_op(dm, op2);
        }
        let KVDiskWriter { data: cdata, cursor: _ccur } = compact_writer;
        let file_copy = dup_bytes(&cdata);
        let op3 = FileOp::Append { gen: gen_compact, bytes: file_copy };
        let ghost suffix2 = self.pending@.skip(base);
        self.pending.push(op3);
        proof {
            assert(self.pending@.skip(base) =~= suffix2.push(op3));
            lemma_apply_ops_snoc(m0, suffix2, op3);
            dm = apply_op(dm, op3);
            assert(Seq::<u8>::empty() + cdata@ =~= cdata@);
            assert(dm == m0.insert(next_gen, Seq::<u8>::empty()).insert(
                gen_compact,
                Seq::<u8>::empty(),
            ).insert(gen_compact, cdata@));
        }
        let ghost dm3 = dm;
        let mut di: usize = 0;
        let segs_count = self.segments.len();
        while di < segs_count
            invariant
                di <= segs_count == self.segments@.len(),
                self.segments == self0.segments,
                self.writer == self0.writer,
                self.curr_gen == self0.curr_gen,
                self.need_compact == self0.need_compact,
                skipmap_entries(self.index) == locs_view(cst.locs),
                self.all_segs() == segs0,
                0 <= base <= self.pending@.len(),
                self.pending@.subrange(0, base) == pending0,
                dm == apply_ops(m0, self.pending@.skip(base)),
                forall|g: u64| #[trigger]
                    dm.contains_key(g) <==> (dm3.contains_key(g) && !(exists|mi: int|
                        0 <= mi < di && (#[trigger] self.segments@[mi]).gen == g)),
                forall|g: u64| #[trigger] dm.contains_key(g) ==> dm[g] == dm3[g],
            decreases segs_count - di,
        {
            let g_d = self.segments[di].gen;
            let op = FileOp::Delete { gen: g_d };
            let ghost suffix_pre = self.pending@.skip(base);
            let ghost dm_pre = dm;
            self.pending.push(op);
            proof {
                assert(self.pending@.skip(base) =~= suffix_pre.push(op));
                lemma_apply_ops_snoc(m0, suffix_pre, op);
                dm = apply_op(dm, op);
                assert(self.segments@[di as int].gen == g_d);
                assert forall|g: u64| #[trigger]
                    dm.contains_key(g) <==> (dm3.contains_key(g) && !(exists|mi: int|
                        0 <= mi < di + 1 && (#[trigger] self.segments@[mi]).gen == g)) by {
                    if dm.contains_key(g) {
                        assert(dm_pre.contains_key(g) && g != g_d);
                        if exists|mi: int|
                            0 <= mi < di + 1 && (#[trigger] self.segments@[mi]).gen == g {
                            let mi = choose|mi: int|
                                0 <= mi < di + 1 && (#[trigger] self.segments@[mi]).gen == g;
                            assert(mi < di);
                            assert(exists|mj: int|
                                0 <= mj < di && (#[trigger] self.segments@[mj]).gen == g);
                            assert(false);
                        }
                    } else if dm3.contains_key(g) && !(exists|mi: int|
                        0 <= mi < di + 1 && (#[trigger] self.segments@[mi]).gen == g) {
                        assert(!(exists|mj: int|
                            0 <= mj < di && (#[trigger] self.segments@[mj]).gen == g)) by {
                            if exists|mj: int|
                                0 <= mj < di && (#[trigger] self.segments@[mj]).gen == g {
                                let mj = choose|mj: int|
                                    0 <= mj < di && (#[trigger] self.segments@[mj]).gen == g;
                                assert(0 <= mj < di + 1 && self.segments@[mj].gen == g);
                                assert(false);
                            }
                        };
                        assert(dm_pre.contains_key(g));
                        assert(g != g_d) by {
                            if g == g_d {
                                assert(0 <= di < di + 1 && self.segments@[di as int].gen == g);
                            }
                        };
                        assert(false);
                    }
                };
            }
            di += 1;
        }
        let old_active = self.curr_gen;
        let op_last = FileOp::Delete { gen: old_active };
        let ghost suffix_pre = self.pending@.skip(base);
        let ghost dm_pre = dm;
        self.pending.push(op_last);
        proof {
            assert(self.pending@.skip(base) =~= suffix_pre.push(op_last));
            lemma_apply_ops_snoc(m0, suffix_pre, op_last);
            dm = apply_op(dm, op_last);
        }
        // install the new active segment and the compacted one
        let new_writer = match KVDiskWriter::new() {
            Ok(w) => w,
            Err(_) => {
                proof {
                    assert(false);
                }
                return Err(KVError::Io);
            },
        };
        self.writer = new_writer;
        self.curr_gen = next_gen;
        self.need_compact = 0;
        let mut new_segments: Vec<Segment> = Vec::new();
        new_segments.push(Segment { gen: gen_compact, data: cdata });
        self.segments = new_segments;
        proof {
            // the store now models exactly the two fresh segments
            assert(self.all_segs() =~= seq![
                (gen_compact, cdata@),
                (next_gen, Seq::<u8>::empty()),
            ]) by {
                assert(seg_views(self.segments@) =~= seq![(gen_compact, cdata@)]);
            };
            let two = self.all_segs();
            let one = seq![(gen_compact, cdata@)];
            assert(two.len() == 2 && two[0] == (gen_compact, cdata@) && two[1] == (
                next_gen,
                Seq::<u8>::empty(),
            ));
            assert(two.drop_last() =~= one);
            assert(two.last() == (next_gen, Seq::<u8>::empty()));
            assert(one.drop_last() =~= Seq::<(u64, Seq<u8>)>::empty());
            assert(one.last() == (gen_compact, cdata@));
            assert(replay_segs(Seq::<(u64, Seq<u8>)>::empty()) == initial_state());
            assert(replay_segs(one) == replay_log(initial_state(), gen_compact, cdata@));
            assert(records_from(Seq::<u8>::empty(), 0) =~= Seq::<(int, int, CommandV)>::empty());
            assert(replay_segs(two) == replay_log(cst, next_gen, Seq::<u8>::empty()));
            assert(replay_records(cst, next_gen, records_from(Seq::<u8>::empty(), 0)) == cst);
            assert(self.st() == cst);
            assert(skipmap_entries(self.index) == locs_view(cst.locs));
            assert(locs_view(cst.locs) == locs_view(self.st().locs));
            assert(self.inv()) by {
                assert(log_end(Seq::<u8>::empty(), 0) == 0);
            };
            assert(self.kv_map() =~= self0.kv_map());
            // the queued operations rebuild this directory from the old one
            assert(total_bytes(two) == cdata@.len()) by {
                assert(total_bytes(Seq::<(u64, Seq<u8>)>::empty()) == 0);
                assert(total_bytes(one) == total_bytes(one.drop_last()) + cdata@.len());
                assert(total_bytes(two) == total_bytes(two.drop_last()) + 0);
            };
            assert(pending0.is_prefix_of(self.pending@)) by {
                assert(pending0 =~= self.pending@.subrange(0, base));
            };
            assert(segs_map(self.all_segs()) =~= dm) by {
                // old gens all lie below the compacted gen and are deleted
                assert(forall|si: int|
                    0 <= si < segs0.len() ==> (#[trigger] segs0[si]).0 < gen_compact) by {
                    assert(segs0[segs0.len() - 1].0 == self0.curr_gen);
                    assert(forall|si: int|
                        0 <= si < segs0.len() - 1 ==> (#[trigger] segs0[si]).0 < segs0[segs0.len()
                            - 1].0);
                };
                assert(forall|mi: int|
                    0 <= mi < self0.segments@.len() ==> (#[trigger] self0.segments@[mi]).gen
                        == segs0[mi].0);
                lemma_segs_map_push(one, (next_gen, Seq::<u8>::empty()));
                lemma_segs_map_push(Seq::<(u64, Seq<u8>)>::empty(), (gen_compact, cdata@));
                assert(one.drop_last() =~= Seq::<(u64, Seq<u8>)>::empty());
                let target = Map::<u64, Seq<u8>>::empty().insert(gen_compact, cdata@).insert(
                    next_gen,
                    Seq::<u8>::empty(),
                );
                assert(segs_map(self.all_segs()) == target) by {
                    assert(segs_map(one.push((next_gen, Seq::<u8>::empty()))) == segs_map(
                        one,
                    ).insert(next_gen, Seq::<u8>::empty()));
                    assert(self.all_segs() =~= one.push((next_gen, Seq::<u8>::empty())));
                    assert(segs_map(one) == segs_map(one.drop_last()).insert(
                        gen_compact,
                        cdata@,
                    ));
                    assert(segs_map(Seq::<(u64, Seq<u8>)>::empty()) == Map::<u64, Seq<u8>>::empty());
                };
                assert(dm == dm_pre.remove(old_active));
                assert(dm3[gen_compact] == cdata@);
                assert(dm3[next_gen] == Seq::<u8>::empty());
                assert(old_active == segs0[segs0.len() - 1].0);
                assert forall|g: u64| #[trigger] dm.contains_key(g) <==> target.contains_key(g) by {
                    if g == gen_compact || g == next_gen {
                        assert(!(exists|mi: int|
                            0 <= mi < segs_count && (#[trigger] self0.segments@[mi]).gen == g)) by {
                            if exists|mi: int|
                                0 <= mi < segs_count && (#[trigger] self0.segments@[mi]).gen == g {
                                let mi = choose|mi: int|
                                    0 <= mi < segs_count && (#[trigger] self0.segments@[mi]).gen
                                        == g;
                                assert(segs0[mi].0 == g && segs0[mi].0 < gen_compact);
                            }
                        };
                        assert(dm_pre.contains_key(g));
                        assert(g != old_active);
                        assert(dm.contains_key(g));
                    } else {
                        assert(!target.contains_key(g));
                        if dm.contains_key(g) {
                            assert(dm_pre.contains_key(g) && g != old_active);
                            assert(dm3.contains_key(g));
                            assert(m0.contains_key(g));
                            let si = choose|si: int|
                                0 <= si < segs0.len() && (#[trigger] segs0[si]).0 == g;
                            if si < segs0.len() - 1 {
                                assert(self0.segments@[si].gen == g);
                                assert(exists|mi: int|
                                    0 <= mi < segs_count && (#[trigger] self0.segments@[mi]).gen
                                        == g);
                                assert(false);
                            } else {
                                assert(g == old_active);
                                assert(false);
                            }
                        }
                    }
                };
                assert(gen_compact != old_active && next_gen != old_active) by {
                    assert(old_active == self0.curr_gen);
                };
                assert(dm.contains_key(gen_compact) && dm.contains_key(next_gen));
                assert(dm_pre.contains_key(gen_compact) && dm_pre.contains_key(next_gen));
                assert(dm[gen_compact] == dm_pre[gen_compact] && dm_pre[gen_compact]
                    == dm3[gen_compact]);
                assert(dm[next_gen] == dm_pre[next_gen] && dm_pre[next_gen] == dm3[next_gen]);
                assert(dm[gen_compact] == cdata@);
                assert(dm[next_gen] == Seq::<u8>::empty());
                assert(dm =~= target);
            };
        }
        Ok(())
    }

    /// Hand over the queued file operations and clear the queue; nothing
    /// else changes.
    pub fn take_pending(&mut self) -> (ops: Vec<FileOp>)
        ensures
            ops@ == old(self).pending_ops(),
            final(self).pending_ops() == Seq::<FileOp>::empty(),
            final(self).all_segs() == old(self).all_segs(),
            final(self).gen() == old(self).gen(),
            final(self).inv() == old(self).inv(),
            final(self).kv_map() == old(self).kv_map(),
            final(self).st() == old(self).st(),
    {
        let mut ops: Vec<FileOp> = Vec::new();
        core::mem::swap(&mut ops, &mut self.pending);
        ops
    }
}

/// Applying a run of operations and then another is applying their
/// concatenation.
pub proof fn lemma_apply_ops_concat(m: Map<u64, Seq<u8>>, a: Seq<FileOp>, b: Seq<FileOp>)
    ensures
        apply_ops(m, a + b) == apply_ops(apply_ops(m, a), b),
    decreases a.len(),
{
    if a.len() == 0 {
        assert(a + b =~= b);
    } else {
        assert((a + b)[0] == a[0]);
        assert((a + b).drop_first() =~= a.drop_first() + b);
        lemma_apply_ops_concat(apply_op(m, a[0]), a.drop_first(), b);
    }
}

/// A gen is a key of the directory map exactly when some segment carries it.
pub proof fn lemma_segs_map_char(segs: Seq<(u64, Seq<u8>)>)
    ensures
        forall|g: u64| #[trigger]
            segs_map(segs).contains_key(g) <==> exists|si: int|
                0 <= si < segs.len() && (#[trigger] segs[si]).0 == g,
    decreases segs.len(),
{
    if segs.len() > 0 {
        let pre = segs.drop_last();
        lemma_segs_map_char(pre);
        assert(forall|si: int| 0 <= si < pre.len() ==> pre[si] == segs[si]);
        assert(segs_map(segs) == segs_map(pre).insert(segs.last().0, segs.last().1));
        assert forall|g: u64| #[trigger] segs_map(segs).contains_key(g) implies exists|si: int|
            0 <= si < segs.len() && (#[trigger] segs[si]).0 == g by {
            if g == segs.last().0 {
                assert(segs[segs.len() - 1].0 == g);
            } else {
                assert(segs_map(pre).contains_key(g));
                let si = choose|si: int| 0 <= si < pre.len() && (#[trigger] pre[si]).0 == g;
                assert(segs[si].0 == g);
            }
        };
        assert forall|g: u64|
            (exists|si: int|
                0 <= si < segs.len() && (#[trigger] segs[si]).0 == g) implies #[trigger] segs_map(
            segs,
        ).contains_key(g) by {
            let si = choose|si: int| 0 <= si < segs.len() && (#[trigger] segs[si]).0 == g;
            if si < segs.len() - 1 {
                assert(pre[si].0 == g);
                assert(segs_map(pre).contains_key(g));
            }
        };
    }
}

/// Appending one record's encoding to the active segment applies exactly
/// that record to the store's replay.
proof fn lemma_append_active(pre: Seq<(u64, Seq<u8>)>, gen: u64, d: Seq<u8>, c: CommandV)
    requires
        log_end(d, 0) == d.len(),
    ensures
        replay_segs(pre.push((gen, d + spec_encode_bytes(c)))) == apply_record(
            replay_segs(pre.push((gen, d))),
            gen,
            d.len() as int,
            spec_encode_bytes(c).len() as int,
            c,
        ),
        log_end(d + spec_encode_bytes(c), 0) == d.len() + spec_encode_bytes(c).len(),
{
    lemma_replay_segs_push(pre, (gen, d));
    lemma_replay_segs_push(pre, (gen, d + spec_encode_bytes(c)));
    lemma_replay_log_append(replay_segs(pre), gen, d, c);
}

/// The store's model equations, exported: the replay of a store's own
/// segments is its own state, the visible map is that state's value
/// projection, and under the invariant the stale count is never negative.
pub proof fn lemma_store_model(s: KvStore)
    ensures
        s.st() == replay_segs(s.all_segs()),
        s.kv_map() == kv_of(s.st()),
        s.inv() ==> s.st().stale >= 0,
{
    if s.inv() {
        lemma_replay_segs_valid(s.all_segs());
    }
}

/// Close-and-reopen is a no-op on observable state: a store whose replay
/// state is the replay of another store's segments — what `KvStore::open`
/// yields on that store's exported segments — shows the same mapping and the
/// same stale count, so no `get` result changes.
pub proof fn lemma_close_reopen_no_op(s: KvStore, t: KvStore)
    requires
        t.st() == replay_segs(s.all_segs()),
    ensures
        t.kv_map() == s.kv_map(),
        t.st().stale == s.st().stale,
{
}

/// Gens are strictly increasing: every segment of a well-formed store has a
/// gen strictly below the next one's, and the active segment's gen is the
/// largest. Mutations only ever raise the active gen.
pub proof fn lemma_gens_strictly_increasing(s: KvStore)
    requires
        s.inv(),
    ensures
        forall|i: int, j: int|
            0 <= i < j < s.all_segs().len() ==> (#[trigger] s.all_segs()[i]).0 < (
            #[trigger] s.all_segs()[j]).0,
        forall|i: int|
            0 <= i < s.all_segs().len() - 1 ==> (#[trigger] s.all_segs()[i]).0 < s.gen(),
{
    let last = s.all_segs().len() - 1;
    assert(s.all_segs()[last].0 == s.gen());
    assert(forall|i: int|
        0 <= i < last ==> (#[trigger] s.all_segs()[i]).0 < s.all_segs()[last].0);
}

impl crate::engines::KvsEngine for KvStore {
    open spec fn wf(&self) -> bool {
        self.inv()
    }

    open spec fn kv(&self) -> Map<Seq<char>, Seq<char>> {
        self.kv_map()
    }

    fn set(&mut self, key: String, value: String) -> (r: Result<(), KVError>) {
        KvStore::set(self, key, value)
    }

    fn get(&mut self, key: String) -> (r: Result<Option<String>, KVError>) {
        KvStore::get(self, key)
    }

    fn remove(&mut self, key: String) -> (r: Result<(), KVError>) {
        KvStore::remove(self, key)
    }
}

/// `.log`
pub open spec fn dot_log() -> Seq<u8> {
    seq![46u8, 108u8, 111u8, 103u8]
}

pub open spec fn is_digits(s: Seq<u8>) -> bool {
    forall|i: int| 0 <= i < s.len() ==> 48 <= #[trigger] s[i] <= 57
}

/// The value of a run of decimal digit bytes.
pub open spec fn digits_val(s: Seq<u8>) -> int
    decreases s.len(),
{
    if s.len() == 0 {
        0
    } else {
        digits_val(s.drop_last()) * 10 + (s.last() - 48)
    }
}

/// The gen a `<gen>.log` file name carries, if it is one.
pub open spec fn parse_log_name(name: Seq<u8>) -> Option<u64> {
    if name.len() >= 5 && name.subrange(name.len() - 4, name.len() as int) == dot_log() {
        let stem = name.subrange(0, name.len() - 4);
        if is_digits(stem) && digits_val(stem) <= u64::MAX {
            Some(digits_val(stem) as u64)
        } else {
            None
        }
    } else {
        None
    }
}

proof fn lemma_digits_val_nonneg(s: Seq<u8>)
    requires
        is_digits(s),
    ensures
        digits_val(s) >= 0,
    decreases s.len(),
{
    if s.len() > 0 {
        assert(is_digits(s.drop_last())) by {
            assert(forall|i: int| 0 <= i < s.len() - 1 ==> s.drop_last()[i] == s[i]);
        };
        lemma_digits_val_nonneg(s.drop_last());
        assert(48 <= s.last() <= 57);
        assert(digits_val(s.drop_last()) * 10 >= 0) by (nonlinear_arith)
            requires
                digits_val(s.drop_last()) >= 0,
        ;
    }
}

/// A digit run's value only grows as digits are appended.
proof fn lemma_digits_val_prefix(s: Seq<u8>, k: int)
    requires
        is_digits(s),
        0 <= k <= s.len(),
    ensures
        digits_val(s.subrange(0, k)) <= digits_val(s),
    decreases s.len() - k,
{
    if k == s.len() {
        assert(s.subrange(0, k) =~= s);
    } else {
        lemma_digits_val_prefix(s, k + 1);
        let p1 = s.subrange(0, k + 1);
        assert(p1.drop_last() =~= s.subrange(0, k));
        assert(is_digits(s.subrange(0, k))) by {
            assert(forall|i: int| 0 <= i < k ==> s.subrange(0, k)[i] == s[i]);
        };
        lemma_digits_val_nonneg(s.subrange(0, k));
        assert(digits_val(p1) == digits_val(s.subrange(0, k)) * 10 + (p1.last() - 48));
        assert(digits_val(s.subrange(0, k)) * 10 >= digits_val(s.subrange(0, k))) by (
        nonlinear_arith)
            requires
                digits_val(s.subrange(0, k)) >= 0,
        ;
        assert(48 <= p1.last() <= 57);
    }
}

/// Parse one file name: the decimal gen before a `.log` suffix.
pub fn parse_log_gen(name: &String) -> (r: Option<u64>)
    ensures
        r == parse_log_name(vstd::utf8::encode_utf8(name@)),
{
    let bytes = name.as_str().as_bytes_vec();
    let n = bytes.len();
    if n < 5 {
        return None;
    }
    let suffix: Vec<u8> = vec![46u8, 108u8, 111u8, 103u8];
    proof {
        assert(suffix@ =~= dot_log());
    }
    if !match_bytes(&bytes, n - 4, &suffix) {
        proof {
            assert(bytes@.subrange(n - 4, n as int) != dot_log()) by {
                if bytes@.subrange(n - 4, n as int) == dot_log() {
                    assert(crate::codec::match_at(bytes@, n - 4, dot_log()));
                }
            };
        }
        return None;
    }
    let ghost stem = bytes@.subrange(0, n - 4);
    let stem_len = n - 4;
    let mut acc: u64 = 0;
    let mut i: usize = 0;
    while i < stem_len
        invariant
            bytes@ == vstd::utf8::encode_utf8(name@),
            n == bytes@.len(),
            5 <= n,
            stem_len == n - 4,
            stem == bytes@.subrange(0, n - 4),
            bytes@.subrange(n - 4, n as int) == dot_log(),
            i <= stem_len,
            is_digits(stem.subrange(0, i as int)),
            acc as int == digits_val(stem.subrange(0, i as int)),
        decreases stem_len - i,
    {
        let b = bytes[i];
        assert(b == stem[i as int]);
        if b < 48 || b > 57 {
            proof {
                assert(!is_digits(stem));
            }
            return None;
        }
        let d = b - 48;
        if acc > (u64::MAX - d as u64) / 10 {
            proof {
                let p1 = stem.subrange(0, i + 1);
                assert(p1.drop_last() =~= stem.subrange(0, i as int));
                assert(is_digits(p1)) by {
                    assert(forall|m: int| 0 <= m < i + 1 ==> p1[m] == stem[m]);
                };
                assert(digits_val(p1) == acc * 10 + d);
                assert(acc * 10 + d > u64::MAX) by (nonlinear_arith)
                    requires
                        acc > (u64::MAX - d as u64) / 10,
                        0 <= d <= 9,
                        acc >= 0,
                ;
                if is_digits(stem) {
                    lemma_digits_val_prefix(stem, i + 1);
                    assert(digits_val(stem) > u64::MAX);
                }
            }
            return None;
        }
        proof {
            assert(acc * 10 + d <= u64::MAX) by (nonlinear_arith)
                requires
                    acc <= (u64::MAX - d as u64) / 10,
                    0 <= d <= 9,
                    acc >= 0,
            ;
            let p1 = stem.subrange(0, i + 1);
            assert(p1.drop_last() =~= stem.subrange(0, i as int));
            assert(p1.last() == b);
            assert(is_digits(p1)) by {
                assert(forall|m: int| 0 <= m < i + 1 ==> p1[m] == stem[m]);
            };
        }
        acc = acc * 10 + d as u64;
        i += 1;
    }
    proof {
        assert(stem.subrange(0, stem_len as int) =~= stem);
        assert(is_digits(stem) && digits_val(stem) == acc as int);
    }
    Some(acc)
}

/// The position where `g` belongs in a sorted run of gens.
fn lower_bound(v: &Vec<u64>, g: u64) -> (i: usize)
    requires
        forall|a: int, b: int| 0 <= a < b < v@.len() ==> v@[a] < v@[b],
    ensures
        i <= v@.len(),
        forall|m: int| 0 <= m < i ==> v@[m] < g,
        i < v@.len() ==> v@[i as int] >= g,
{
    let mut i: usize = 0;
    while i < v.len()
        invariant
            i <= v@.len(),
            forall|m: int| 0 <= m < i ==> v@[m] < g,
        decreases v@.len() - i,
    {
        if v[i] >= g {
            return i;
        }
        i += 1;
    }
    i
}

/// The gens named by a directory's file names, each once, in ascending
/// order: every `<gen>.log` name contributes its gen, other names are
/// ignored.
pub fn collect_file_identifiers(names: &Vec<String>) -> (r: Vec<u64>)
    ensures
        forall|a: int, b: int| 0 <= a < b < r@.len() ==> r@[a] < r@[b],
        forall|g: u64|
            r@.contains(g) <==> exists|i: int|
                0 <= i < names@.len() && parse_log_name(
                    vstd::utf8::encode_utf8((#[trigger] names@[i])@),
                ) == Some(g),
{
    let mut r: Vec<u64> = Vec::new();
    let mut i: usize = 0;
    let n = names.len();
    while i < n
        invariant
            i <= n == names@.len(),
            forall|a: int, b: int| 0 <= a < b < r@.len() ==> r@[a] < r@[b],
            forall|g: u64|
                r@.contains(g) <==> exists|m: int|
                    0 <= m < i && parse_log_name(
                        vstd::utf8::encode_utf8((#[trigger] names@[m])@),
                    ) == Some(g),
        decreases n - i,
    {
        let ghost r_pre = r@;
        match parse_log_gen(&names[i]) {
            Some(g) => {
                let pos = lower_bound(&r, g);
                let present = pos < r.len() && r[pos] == g;
                if !present {
                    r.insert(pos, g);
                    proof {
                        assert(forall|m: int| 0 <= m < pos ==> r@[m] == r_pre[m]);
                        assert(r@[pos as int] == g);
                        assert(forall|m: int|
                            pos < m < r@.len() ==> r@[m] == r_pre[m - 1]);
                        assert forall|m: int| pos < m < r@.len() implies r@[m] > g by {
                            assert(r_pre[m - 1] >= g);
                            if r_pre[m - 1] == g {
                                assert(r_pre.contains(g)) by {
                                    assert(r_pre[m - 1] == g);
                                };
                            }
                        };
                    }
                }
                proof {
                    assert forall|g2: u64| r@.contains(g2) implies exists|m: int|
                        0 <= m < i + 1 && parse_log_name(
                            vstd::utf8::encode_utf8((#[trigger] names@[m])@),
                        ) == Some(g2) by {
                        if g2 == g {
                            assert(parse_log_name(vstd::utf8::encode_utf8(names@[i as int]@))
                                == Some(g2));
                        } else {
                            assert(r_pre.contains(g2)) by {
                                let x = choose|x: int| 0 <= x < r@.len() && r@[x] == g2;
                                if !present {
                                    if x < pos {
                                        assert(r_pre[x] == g2);
                                    } else {
                                        assert(r_pre[x - 1] == g2);
                                    }
                                }
                            };
                        }
                    };
                    assert forall|g2: u64|
                        exists|m: int|
                            0 <= m < i + 1 && parse_log_name(
                                vstd::utf8::encode_utf8((#[trigger] names@[m])@),
                            ) == Some(g2) implies r@.contains(g2) by {
                        let m = choose|m: int|
                            0 <= m < i + 1 && parse_log_name(
                                vstd::utf8::encode_utf8((#[trigger] names@[m])@),
                            ) == Some(g2);
                        if m < i {
                            assert(r_pre.contains(g2));
                            let x = choose|x: int| 0 <= x < r_pre.len() && r_pre[x] == g2;
                            if !present {
                                if x < pos {
                                    assert(r@[x] == g2);
                                } else {
                                    assert(r@[x + 1] == g2);
                                }
                            } else {
                                assert(r@[x] == g2);
                            }
                        } else {
                            if present {
                                assert(r@[pos as int] == g2);
                            } else {
                                assert(r@[pos as int] == g2);
                            }
                        }
                    };
                }
            },
            None => {
                proof {
                    assert forall|g2: u64| r@.contains(g2) implies exists|m: int|
                        0 <= m < i + 1 && parse_log_name(
                            vstd::utf8::encode_utf8((#[trigger] names@[m])@),
                        ) == Some(g2) by {
                        assert(r_pre.contains(g2));
                    };
                }
            },
        }
        i += 1;
    }
    r
}

} // verus!
