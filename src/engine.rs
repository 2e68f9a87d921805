//! The log-structured store: the index, the accounting of stale bytes, and
//! what each operation appends to the log. The files themselves are read and
//! written by the caller, which hands the store plain bytes and positions.
use vstd::prelude::*;
use crate::codec::{decode_command, encode_command, lemma_parse_record, lit_at, parse_record, record};
use crate::command::{Command, CommandModel, CommandPos};
use crate::error::KvsError;
use crate::replay::{lemma_parse_segment, parse_segment, all_parse, index_ok, lemma_replay_onto, load_all, load_cmd, loaded_history, loaded_segments, parsed, replay_onto};
use crate::live::{lemma_listed_prefix, lemma_listed_live, lemma_live_insert, lemma_live_remove, lemma_live_same_lens, listed_bytes, live_bytes};
use crate::index::{key_less, index_entries, index_get, index_insert, index_map, index_new, index_remove, Index};

verus! {

/// When the bytes held by stale records pass this, the log is compacted.
pub const COMPACTION_THRESHOLD: u64 = 1048576;

/// The key-value map after one more command.
pub open spec fn apply(m: Map<Seq<char>, Seq<char>>, c: CommandModel) -> Map<Seq<char>, Seq<char>> {
    match c {
        CommandModel::Put { key, value } => m.insert(key, value),
        CommandModel::Remove { key } => m.remove(key),
    }
}

/// The key-value map that a sequence of commands leaves, from an empty one.
pub open spec fn replay(cs: Seq<CommandModel>) -> Map<Seq<char>, Seq<char>>
    decreases cs.len(),
{
    if cs.len() == 0 {
        Map::empty()
    } else {
        apply(replay(cs.drop_last()), cs.last())
    }
}

/// The bytes of a segment that holds the commands `cs`, in order.
pub open spec fn records(cs: Seq<CommandModel>) -> Seq<u8>
    decreases cs.len(),
{
    if cs.len() == 0 {
        seq![]
    } else {
        records(cs.drop_last()) + record(cs.last())
    }
}

/// The commands of the segments `lo ..= hi`, in ascending order of generation.
pub open spec fn history(segments: Map<u64, Seq<CommandModel>>, lo: int, hi: int) -> Seq<CommandModel>
    decreases hi - lo + 1,
{
    if hi < lo {
        seq![]
    } else {
        history(segments, lo, hi - 1) + (if segments.contains_key(hi as u64) {
            segments[hi as u64]
        } else {
            seq![]
        })
    }
}

pub proof fn lemma_records_push(cs: Seq<CommandModel>, c: CommandModel)
    ensures
        records(cs.push(c)) == records(cs) + record(c),
{
    assert(cs.push(c).drop_last() =~= cs);
}

pub proof fn lemma_records_concat(a: Seq<CommandModel>, b: Seq<CommandModel>)
    ensures
        records(a + b) == records(a) + records(b),
    decreases b.len(),
{
    if b.len() == 0 {
        assert(a + b =~= a);
        assert(records(a) + records(b) =~= records(a));
    } else {
        lemma_records_concat(a, b.drop_last());
        assert((a + b).drop_last() =~= a + b.drop_last());
        assert((a + b).last() == b.last());
        assert(records(a + b) =~= records(a) + records(b));
    }
}

pub open spec fn saturating_sum(a: int, b: int) -> int {
    if a + b > u64::MAX {
        u64::MAX as int
    } else {
        a + b
    }
}

/// The value that a record holds, as `get` reads it: the bytes must be
/// exactly one `Set` command; anything else at an index position (a
/// tombstone, trailing bytes, garbage) is an internal inconsistency.
pub open spec fn record_value(b: Seq<u8>) -> Result<Seq<char>, KvsError> {
    match parse_record(b, 0) {
        Some((CommandModel::Put { value, .. }, e)) => if e == b.len() {
            Ok(value)
        } else {
            Err(KvsError::UnexpectedCommandType)
        },
        _ => Err(KvsError::UnexpectedCommandType),
    }
}

/// The store's state between two operations. The segment files hold what
/// `segment_bytes` says; the caller writes them as the operations direct.
pub struct KvStore {
    index: Index,
    current_gen: u64,
    writer_pos: u64,
    uncompacted: u64,
    safe_point: u64,
    segments: Ghost<Map<u64, Seq<CommandModel>>>,
    contents: Ghost<Map<Seq<char>, Seq<char>>>,
    stale: Ghost<int>,
}

impl KvStore {
    /// The keys and their values.
    pub closed spec fn view(&self) -> Map<Seq<char>, Seq<char>> {
        self.contents@
    }

    /// The commands of each segment that exists, by generation.
    pub closed spec fn segments(&self) -> Map<u64, Seq<CommandModel>> {
        self.segments@
    }

    /// Key to the position of its live `Set` record.
    pub closed spec fn index(&self) -> Map<Seq<char>, CommandPos> {
        index_map(self.index)
    }

    /// The generation of the segment being written.
    pub closed spec fn current_gen(&self) -> u64 {
        self.current_gen
    }

    /// Where the next record goes in the segment being written.
    pub closed spec fn writer_pos(&self) -> u64 {
        self.writer_pos
    }

    /// Bytes of records that a compaction would drop.
    pub closed spec fn uncompacted(&self) -> u64 {
        self.uncompacted
    }

    /// The lowest generation that is still needed.
    pub closed spec fn safe_point(&self) -> u64 {
        self.safe_point
    }

    /// Bytes of stale records in the log, counted without a bound.
    pub closed spec fn stale(&self) -> int {
        self.stale@
    }

    /// The bytes of all segments together.
    pub open spec fn log_size(&self) -> int {
        records(history(self.segments(), self.safe_point() as int, self.current_gen() as int)).len() as int
    }

    pub open spec fn segment_bytes(&self, gen: u64) -> Seq<u8> {
        records(self.segments()[gen])
    }

    /// The bytes at a position.
    pub open spec fn bytes_at(&self, p: CommandPos) -> Seq<u8> {
        self.segment_bytes(p.gen).subrange(p.pos as int, p.end())
    }

    /// `p` is a position of the live record of `k`.
    pub open spec fn points_at(&self, k: Seq<char>, p: CommandPos) -> bool {
        &&& self.segments().contains_key(p.gen)
        &&& self.safe_point() <= p.gen <= self.current_gen()
        &&& p.end() <= self.segment_bytes(p.gen).len()
        &&& self.bytes_at(p) == record(CommandModel::Put { key: k, value: self.view()[k] })
    }

    pub open spec fn wf(&self) -> bool {
        &&& self.segments().contains_key(self.current_gen())
        &&& self.writer_pos() == self.segment_bytes(self.current_gen()).len()
        &&& self.safe_point() <= self.current_gen()
        &&& forall|g: u64| #[trigger]
            self.segments().contains_key(g) ==> self.safe_point() <= g <= self.current_gen()
        &&& self.index().dom() == self.view().dom()
        &&& forall|k: Seq<char>| #[trigger]
            self.index().contains_key(k) ==> self.points_at(k, self.index()[k])
        &&& replay(history(self.segments(), self.safe_point() as int, self.current_gen() as int))
            == self.view()
        &&& self.index().dom().finite()
        &&& self.stale() >= 0
        &&& self.uncompacted() == saturating_sum(0, self.stale())
        &&& self.log_size() == live_bytes(self.index()) + self.stale()
    }

    /// What `get` finds for `k`: nothing where the index has no entry, else
    /// what the record at the entry's position holds.
    pub open spec fn get_spec(&self, k: Seq<char>) -> Option<Result<Seq<char>, KvsError>> {
        if self.index().contains_key(k) {
            Some(record_value(self.bytes_at(self.index()[k])))
        } else {
            None
        }
    }

    /// The effect of `set`.
    pub open spec fn set_post(self, next: KvStore, k: Seq<char>, v: Seq<char>) -> bool {
        let c = CommandModel::Put { key: k, value: v };
        let stale = if self.index().contains_key(k) {
            self.index()[k].len as int
        } else {
            0
        };
        &&& next.wf()
        &&& next.view() == self.view().insert(k, v)
        &&& next.current_gen() == self.current_gen()
        &&& next.safe_point() == self.safe_point()
        &&& next.segments() == self.segments().insert(
            self.current_gen(),
            self.segments()[self.current_gen()].push(c),
        )
        &&& next.index() == self.index().insert(
            k,
            CommandPos { gen: self.current_gen(), pos: self.writer_pos(), len: record(c).len() as u64 },
        )
        &&& next.uncompacted() == saturating_sum(self.uncompacted() as int, stale)
    }

    /// The effect of `remove`.
    pub open spec fn remove_post(self, next: KvStore, k: Seq<char>) -> bool {
        let c = CommandModel::Remove { key: k };
        &&& next.wf()
        &&& next.view() == self.view().remove(k)
        &&& next.current_gen() == self.current_gen()
        &&& next.safe_point() == self.safe_point()
        &&& next.segments() == self.segments().insert(
            self.current_gen(),
            self.segments()[self.current_gen()].push(c),
        )
        &&& next.index() == self.index().remove(k)
        &&& next.uncompacted() == saturating_sum(
            saturating_sum(self.uncompacted() as int, self.index()[k].len as int),
            record(c).len() as int,
        )
    }

    proof fn lemma_history_push(segments: Map<u64, Seq<CommandModel>>, lo: int, hi: u64, c: CommandModel)
        requires
            segments.contains_key(hi),
            0 <= lo <= hi,
            forall|g: u64| #[trigger] segments.contains_key(g) ==> g <= hi,
        ensures
            history(segments.insert(hi, segments[hi].push(c)), lo, hi as int) == history(segments, lo, hi as int).push(c),
    {
        let next = segments.insert(hi, segments[hi].push(c));
        Self::lemma_history_same(segments, next, lo, hi - 1);
    }

    /// `history` reads only the segments in its range.
    proof fn lemma_history_same(a: Map<u64, Seq<CommandModel>>, b: Map<u64, Seq<CommandModel>>, lo: int, hi: int)
        requires
            0 <= lo,
            hi <= u64::MAX,
            forall|g: u64| lo <= g <= hi ==> (#[trigger] a.contains_key(g) <==> b.contains_key(g)),
            forall|g: u64| lo <= g <= hi && #[trigger] a.contains_key(g) ==> a[g] == b[g],
        ensures
            history(a, lo, hi) == history(b, lo, hi),
        decreases hi - lo + 1,
    {
        if hi >= lo {
            Self::lemma_history_same(a, b, lo, hi - 1);
        }
    }

    /// Segments with no generation in `a + 1 ..= b` add nothing to `history`.
    proof fn lemma_history_gap(segments: Map<u64, Seq<CommandModel>>, lo: int, a: int, b: int)
        requires
            0 <= lo,
            lo - 1 <= a <= b <= u64::MAX,
            forall|g: u64| #[trigger] segments.contains_key(g) ==> !(a < g <= b),
        ensures
            history(segments, lo, b) == history(segments, lo, a),
        decreases b - a,
    {
        if b > a {
            assert(!segments.contains_key(b as u64));
            Self::lemma_history_gap(segments, lo, a, b - 1);
            assert(history(segments, lo, b) =~= history(segments, lo, b - 1));
        }
    }

    /// Opens a store on the segments found on disk, listed in ascending order
    /// of generation with their bytes. Each is replayed in turn, and writing goes
    /// on in a new, empty segment after the last. Fails, with a decode error,
    /// where a segment does not decode.
    pub fn open(segments: &Vec<(u64, Vec<u8>)>) -> (r: Result<KvStore, KvsError>)
        requires
            (forall|i: int, j: int| 0 <= i < j < segments@.len() ==> segments@[i].0 < segments@[j].0),
            segments@.len() > 0 ==> segments@.last().0 + 3 <= u64::MAX,
        ensures
            r is Ok <==> all_parse(segments@),
            r is Err ==> r->Err_0 is Serde,
            r is Ok ==> ({
                let s = r->Ok_0;
                &&& s.wf()
                &&& s.current_gen() == (if segments@.len() == 0 {
                    1
                } else {
                    segments@.last().0 + 1
                })
                &&& s.safe_point() == 0
                &&& s.writer_pos() == 0
                &&& s.segments() == loaded_segments(segments@).insert(s.current_gen(), seq![])
                &&& s.view() == replay(loaded_history(segments@))
                &&& (s.index(), s.uncompacted() as int) == load_all(segments@)
            }),
    {
        let mut index = index_new();
        let mut uncompacted: u64 = 0;
        proof {
            assert(index_map(index).dom() =~= Set::<Seq<char>>::empty());
            assert(live_bytes(index_map(index)) == 0);
        }
        let ghost mut segs: Map<u64, Seq<CommandModel>> = Map::empty();
        let ghost mut contents: Map<Seq<char>, Seq<char>> = Map::empty();
        let ghost mut total: int = 0;
        let mut i: usize = 0;
        proof {
            assert(segments@.take(0) =~= Seq::<(u64, Vec<u8>)>::empty());
            assert(index_map(index) =~= Map::<Seq<char>, CommandPos>::empty());
        }
        while i < segments.len()
            invariant
                0 <= i <= segments@.len(),
                (forall|a: int, b: int| 0 <= a < b < segments@.len() ==> segments@[a].0 < segments@[b].0),
                segs == loaded_segments(segments@.take(i as int)),
                contents == replay(loaded_history(segments@.take(i as int))),
                (index_map(index), uncompacted as int) == load_all(segments@.take(i as int)),
                index_ok(index_map(index), contents, segs),
                all_parse(segments@.take(i as int)),
                forall|g: u64| #[trigger] segs.contains_key(g) ==> i > 0 && g <= segments@[i - 1].0,
                i > 0 ==> history(segs, 0, segments@[i - 1].0 as int) == loaded_history(segments@.take(i as int)),
                index_map(index).dom().finite(),
                total >= 0,
                uncompacted == saturating_sum(0, total),
                live_bytes(index_map(index)) + total == records(loaded_history(segments@.take(i as int))).len(),
            decreases segments@.len() - i,
        {
            let gen = segments[i].0;
            let ghost prefix = segments@.take(i as int);
            let ghost next = segments@.take(i + 1);
            let ghost live_before = live_bytes(index_map(index));
            proof {
                assert(next.drop_last() =~= prefix);
                assert(next.last() == segments@[i as int]);
            }
            match load_cmd(gen, segments[i].1.as_slice(), &mut index, Ghost(contents), Ghost(segs)) {
                Err(e) => {
                    proof {
                        assert(parse_segment(segments@[i as int].1@, 0) is None);
                        assert(!all_parse(segments@));
                    }
                    return Err(e);
                },
                Ok(stale) => {
                    uncompacted = uncompacted.saturating_add(stale);
                    proof {
                        let cs = parsed(segments@, i as int);
                        assert(parsed(next, i as int) == cs);
                        lemma_records_concat(loaded_history(prefix), cs);
                        total = total + (live_before + segments@[i as int].1@.len() - live_bytes(index_map(index)));
                        lemma_replay_onto(loaded_history(prefix), cs);
                        let new_segs = segs.insert(gen, cs);
                        if i > 0 {
                            Self::lemma_history_same(segs, new_segs, 0, gen - 1);
                            Self::lemma_history_gap(segs, 0, segments@[i - 1].0 as int, gen - 1);
                        } else {
                            Self::lemma_history_same(segs, new_segs, 0, gen - 1);
                            Self::lemma_history_gap(segs, 0, -1, gen - 1);
                        }
                        assert forall|j: int| 0 <= j < next.len() implies (#[trigger] parse_segment(
                            next[j].1@,
                            0,
                        )) is Some by {
                            if j < i {
                                assert(next[j] == prefix[j]);
                                assert(parse_segment(prefix[j].1@, 0) is Some);
                            }
                        }
                        segs = new_segs;
                        contents = replay_onto(contents, cs);
                    }
                },
            }
            i = i + 1;
        }
        let current_gen: u64 = if segments.len() == 0 {
            1
        } else {
            segments[segments.len() - 1].0 + 1
        };
        let ghost final_segs = segs.insert(current_gen, seq![]);
        proof {
            assert(segments@.take(i as int) =~= segments@);
            Self::lemma_history_same(segs, final_segs, 0, current_gen - 1);
            if i > 0 {
                assert(history(final_segs, 0, current_gen as int) =~= history(segs, 0, current_gen - 1));
            } else {
                Self::lemma_history_gap(segs, 0, -1, 0);
                assert(history(final_segs, 0, current_gen as int) =~= Seq::<CommandModel>::empty());
                assert(replay(Seq::<CommandModel>::empty()) =~= contents);
            }
            assert(records(seq![]) == Seq::<u8>::empty());
        }
        let s = KvStore {
            index,
            current_gen,
            writer_pos: 0,
            uncompacted,
            safe_point: 0,
            segments: Ghost(final_segs),
            contents: Ghost(contents),
            stale: Ghost(total),
        };
        proof {
            assert forall|k: Seq<char>| #[trigger] s.index().contains_key(k) implies s.points_at(k, s.index()[k]) by {
                let p = s.index()[k];
                assert(segs.contains_key(p.gen));
                assert(final_segs[p.gen] == segs[p.gen]);
            }
        }
        Ok(s)
    }

    /// The generation of the segment being written.
    pub fn current_generation(&self) -> (r: u64)
        ensures
            r == self.current_gen(),
    {
        self.current_gen
    }

    /// The lowest generation still needed: segments and reader handles below
    /// it are stale.
    pub fn safe_generation(&self) -> (r: u64)
        ensures
            r == self.safe_point(),
    {
        self.safe_point
    }

    /// Where the next record goes in the segment being written.
    pub fn write_offset(&self) -> (r: u64)
        ensures
            r == self.writer_pos(),
    {
        self.writer_pos
    }

    /// Bytes of stale records in the log.
    pub fn stale_bytes(&self) -> (r: u64)
        ensures
            r == self.uncompacted(),
    {
        self.uncompacted
    }

    /// Every entry of a well-formed store reads back as its key's value.
    pub proof fn lemma_get_spec(self, k: Seq<char>)
        requires
            self.wf(),
        ensures
            self.get_spec(k) == (if self.view().contains_key(k) {
                Some(Ok::<Seq<char>, KvsError>(self.view()[k]))
            } else {
                None
            }),
    {
        if self.index().contains_key(k) {
            let c = CommandModel::Put { key: k, value: self.view()[k] };
            let b = self.bytes_at(self.index()[k]);
            assert(lit_at(b, 0, record(c))) by {
                assert(b.subrange(0, record(c).len() as int) =~= b);
            }
            lemma_parse_record(b, 0, c);
        }
    }

    /// The position of `key`'s live record, if the key is in the store.
    pub fn locate(&self, key: &String) -> (r: Option<CommandPos>)
        requires
            self.wf(),
        ensures
            r == (if self.index().contains_key(key@) {
                Some(self.index()[key@])
            } else {
                None
            }),
            r is Some <==> self.view().contains_key(key@),
            r is Some ==> self.bytes_at(r->0) == record(
                CommandModel::Put { key: key@, value: self.view()[key@] },
            ),
    {
        index_get(&self.index, key)
    }

    /// The value held by the bytes of one record, which `get` reads at the
    /// position that `locate` gives: `UnexpectedCommandType` where they are not
    /// exactly one `Set` record.
    pub fn read_value(bytes: &[u8]) -> (r: Result<String, KvsError>)
        ensures
            match (r, record_value(bytes@)) {
                (Ok(v), Ok(w)) => v@ == w,
                (Err(KvsError::UnexpectedCommandType), Err(KvsError::UnexpectedCommandType)) => true,
                _ => false,
            },
    {
        match decode_command(bytes, 0) {
            Some((Command::Put { value, .. }, e)) => {
                if e == bytes.len() {
                    Ok(value)
                } else {
                    Err(KvsError::UnexpectedCommandType)
                }
            },
            _ => Err(KvsError::UnexpectedCommandType),
        }
    }

    /// The record that `set(key, value)` appends.
    pub fn set_record(key: &String, value: &String) -> (r: Vec<u8>)
        ensures
            r@ == record(CommandModel::Put { key: key@, value: value@ }),
    {
        encode_command(&Command::set(key.clone(), value.clone()))
    }

    /// Records that `written`, the record of `Set(key, value)`, was appended
    /// to the current segment. Returns whether the log is now due for compaction.
    pub fn set(&mut self, key: String, value: String, written: &[u8]) -> (compact: bool)
        requires
            old(self).wf(),
            written@ == record(CommandModel::Put { key: key@, value: value@ }),
            old(self).writer_pos() + written@.len() <= u64::MAX,
        ensures
            old(self).set_post(*final(self), key@, value@),
            compact == (final(self).uncompacted() > COMPACTION_THRESHOLD),
    {
        let ghost c = CommandModel::Put { key: key@, value: value@ };
        let ghost k = key@;
        let pos = CommandPos { gen: self.current_gen, pos: self.writer_pos, len: written.len() as u64 };
        let stale = match index_get(&self.index, &key) {
            Some(p) => p.len,
            None => 0,
        };
        proof {
            lemma_records_push(self.segments@[self.current_gen], c);
            Self::lemma_history_push(self.segments@, self.safe_point as int, self.current_gen, c);
        }
        let ghost before = *self;
        self.writer_pos = self.writer_pos + written.len() as u64;
        self.uncompacted = self.uncompacted.saturating_add(stale);
        index_insert(&mut self.index, key, pos);
        self.segments = Ghost(self.segments@.insert(self.current_gen, self.segments@[self.current_gen].push(c)));
        self.contents = Ghost(self.contents@.insert(k, value@));
        self.stale = Ghost(self.stale@ + stale as int);
        proof {
            lemma_live_insert(before.index(), k, pos);
            let hb = history(before.segments(), before.safe_point() as int, before.current_gen() as int);
            lemma_records_push(hb, c);
            assert forall|j: Seq<char>| #[trigger] self.index().contains_key(j) implies self.points_at(j, self.index()[j]) by {
                let p = self.index()[j];
                if j != k {
                    assert(before.points_at(j, p));
                    if p.gen == self.current_gen {
                        let old_bytes = before.segment_bytes(p.gen);
                        assert(self.segment_bytes(p.gen).subrange(p.pos as int, p.end()) =~= old_bytes.subrange(p.pos as int, p.end()));
                    }
                } else {
                    let old_bytes = before.segment_bytes(self.current_gen);
                    assert(self.segment_bytes(self.current_gen) == old_bytes + record(c));
                    assert(self.bytes_at(p) =~= record(c));
                }
            }
            assert(self.index().dom() =~= self.view().dom());
            let h = history(before.segments(), before.safe_point() as int, before.current_gen() as int);
            assert(h.push(c).drop_last() =~= h);
            assert(replay(h.push(c)) == self.view());
            assert(forall|g: u64| #[trigger] self.segments().contains_key(g) ==> before.segments().contains_key(g));
            assert(self.segments().contains_key(self.current_gen()));
            assert(self.writer_pos() == self.segment_bytes(self.current_gen()).len());
            assert(self.wf());
        }
        self.uncompacted > COMPACTION_THRESHOLD
    }

    /// The tombstone that `remove(key)` appends; `KeyNotFound` where the key
    /// is not in the store, and then nothing is to be written.
    pub fn remove_record(&self, key: &String) -> (r: Result<Vec<u8>, KvsError>)
        requires
            self.wf(),
        ensures
            r is Err <==> !self.view().contains_key(key@),
            r is Err ==> r->Err_0 is KeyNotFound,
            r is Ok ==> r->Ok_0@ == record(CommandModel::Remove { key: key@ }),
    {
        match index_get(&self.index, key) {
            Some(_) => Ok(encode_command(&Command::remove(key.clone()))),
            None => Err(KvsError::KeyNotFound),
        }
    }

    /// Records that `written`, the tombstone of `key`, was appended to the
    /// current segment. Returns whether the log is now due for compaction.
    pub fn remove(&mut self, key: String, written: &[u8]) -> (compact: bool)
        requires
            old(self).wf(),
            old(self).view().contains_key(key@),
            written@ == record(CommandModel::Remove { key: key@ }),
            old(self).writer_pos() + written@.len() <= u64::MAX,
        ensures
            old(self).remove_post(*final(self), key@),
            compact == (final(self).uncompacted() > COMPACTION_THRESHOLD),
    {
        let ghost c = CommandModel::Remove { key: key@ };
        let ghost k = key@;
        proof {
            lemma_records_push(self.segments@[self.current_gen], c);
            Self::lemma_history_push(self.segments@, self.safe_point as int, self.current_gen, c);
        }
        let ghost before = *self;
        let stale = match index_remove(&mut self.index, &key) {
            Some(p) => p.len,
            None => 0,
        };
        self.writer_pos = self.writer_pos + written.len() as u64;
        self.uncompacted = self.uncompacted.saturating_add(stale).saturating_add(written.len() as u64);
        self.segments = Ghost(self.segments@.insert(self.current_gen, self.segments@[self.current_gen].push(c)));
        self.contents = Ghost(self.contents@.remove(k));
        self.stale = Ghost(self.stale@ + stale as int + written@.len() as int);
        proof {
            lemma_live_remove(before.index(), k);
            let hb = history(before.segments(), before.safe_point() as int, before.current_gen() as int);
            lemma_records_push(hb, c);
            assert forall|j: Seq<char>| #[trigger] self.index().contains_key(j) implies self.points_at(j, self.index()[j]) by {
                let p = self.index()[j];
                assert(before.points_at(j, p));
                if p.gen == self.current_gen {
                    let old_bytes = before.segment_bytes(p.gen);
                    assert(self.segment_bytes(p.gen).subrange(p.pos as int, p.end()) =~= old_bytes.subrange(p.pos as int, p.end()));
                }
            }
            assert(self.index().dom() =~= self.view().dom());
            let h = history(before.segments(), before.safe_point() as int, before.current_gen() as int);
            assert(h.push(c).drop_last() =~= h);
            assert(replay(h.push(c)) == self.view());
            assert(forall|g: u64| #[trigger] self.segments().contains_key(g) ==> before.segments().contains_key(g));
            assert(self.wf());
        }
        self.uncompacted > COMPACTION_THRESHOLD
    }

    /// The effect of a compaction that moved the records as `moves` says.
    pub open spec fn compact_post(self, next: KvStore, moves: Seq<(String, CommandPos, CommandPos)>) -> bool {
        let cg = (self.current_gen() + 1) as u64;
        &&& next.wf()
        &&& next.view() == self.view()
        &&& next.current_gen() == self.current_gen() + 2
        &&& next.safe_point() == cg
        &&& next.uncompacted() == 0
        &&& next.writer_pos() == 0
        &&& next.segments().dom() == set![cg, next.current_gen()]
        &&& next.segment_bytes(next.current_gen()).len() == 0
        &&& next.index().dom() == self.index().dom()
        &&& forall|k: Seq<char>| #[trigger] self.index().contains_key(k) ==> next.index()[k].len == self.index()[k].len
        &&& moves.len() == self.index().len()
        &&& (forall|i: int, j: int| 0 <= i < j < moves.len() ==> key_less(#[trigger] moves[i].0@, #[trigger] moves[j].0@))
        &&& next.segment_bytes(cg).len() == (if moves.len() == 0 {
            0
        } else {
            moves.last().2.end()
        })
        &&& forall|i: int|
            0 <= i < moves.len() ==> {
                let (key, from, to) = #[trigger] moves[i];
                &&& self.index().contains_key(key@)
                &&& from == self.index()[key@]
                &&& next.index()[key@] == to
                &&& self.segments().contains_key(from.gen)
                &&& from.end() <= self.segment_bytes(from.gen).len()
                &&& to.gen == cg
                &&& to.len == from.len
                &&& to.pos == (if i == 0 {
                    0
                } else {
                    moves[i - 1].2.end()
                })
                &&& next.bytes_at(to) == self.bytes_at(from)
            }
    }

    /// Records laid back to back, at the positions `to`, are where `to` says.
    #[verifier::rlimit(100)]
    proof fn lemma_layout(cs: Seq<CommandModel>, to: Seq<CommandPos>)
        requires
            cs.len() == to.len(),
            forall|j: int| 0 <= j < to.len() ==> (#[trigger] to[j]).len == record(cs[j]).len(),
            forall|j: int|
                0 <= j < to.len() ==> (#[trigger] to[j]).pos == (if j == 0 {
                    0
                } else {
                    to[j - 1].end()
                }),
        ensures
            records(cs).len() == (if to.len() == 0 {
                0
            } else {
                to.last().end()
            }),
            forall|j: int| 0 <= j < to.len() ==> (#[trigger] to[j]).end() <= records(cs).len(),
            forall|j: int|
                0 <= j < to.len() ==> records(cs).subrange((#[trigger] to[j]).pos as int, to[j].end())
                    == record(cs[j]),
        decreases cs.len(),
    {
        if cs.len() > 0 {
            let n = cs.len() - 1;
            let a = cs.drop_last();
            let b = to.drop_last();
            assert forall|j: int| 0 <= j < b.len() implies (#[trigger] b[j]).len == record(a[j]).len() by {
                assert(b[j] == to[j]);
                assert(a[j] == cs[j]);
            }
            assert forall|j: int| 0 <= j < b.len() implies (#[trigger] b[j]).pos == (if j == 0 {
                0
            } else {
                b[j - 1].end()
            }) by {
                assert(b[j] == to[j]);
                if j > 0 {
                    assert(b[j - 1] == to[j - 1]);
                }
            }
            Self::lemma_layout(a, b);
            let ra = records(a);
            let rc = record(cs[n]);
            assert(records(cs) == ra + rc);
            if n > 0 {
                assert(b.last() == to[n - 1]);
            }
            assert(ra.len() == to[n].pos);
            assert forall|j: int| 0 <= j < to.len() implies (#[trigger] to[j]).end() <= records(cs).len()
                && records(cs).subrange(to[j].pos as int, to[j].end()) == record(cs[j]) by {
                if j < n {
                    assert(b[j] == to[j]);
                    assert(a[j] == cs[j]);
                    assert(records(cs).subrange(to[j].pos as int, to[j].end()) =~= ra.subrange(
                        to[j].pos as int,
                        to[j].end(),
                    ));
                } else {
                    assert(records(cs).subrange(to[j].pos as int, to[j].end()) =~= rc);
                }
            }
        }
    }

    /// Setting distinct keys to their values in `view`, in any order, leaves
    /// `view` cut down to those keys.
    proof fn lemma_replay_puts(view: Map<Seq<char>, Seq<char>>, keys: Seq<Seq<char>>)
        requires
            keys.no_duplicates(),
            forall|j: int| 0 <= j < keys.len() ==> view.contains_key(#[trigger] keys[j]),
        ensures
            replay(keys.map_values(|k: Seq<char>| CommandModel::Put { key: k, value: view[k] }))
                == view.restrict(keys.to_set()),
        decreases keys.len(),
    {
        let puts = keys.map_values(|k: Seq<char>| CommandModel::Put { key: k, value: view[k] });
        if keys.len() == 0 {
            assert(view.restrict(keys.to_set()) =~= Map::empty());
        } else {
            let front = keys.drop_last();
            Self::lemma_replay_puts(view, front);
            assert(puts.drop_last() =~= front.map_values(
                |k: Seq<char>| CommandModel::Put { key: k, value: view[k] },
            ));
            assert forall|x: Seq<char>| keys.contains(x) implies front.contains(x) || x == keys.last() by {
                let j = choose|j: int| 0 <= j < keys.len() && keys[j] == x;
                if j < keys.len() - 1 {
                    assert(front[j] == x);
                }
            }
            assert forall|x: Seq<char>| front.contains(x) implies keys.contains(x) by {
                let j = choose|j: int| 0 <= j < front.len() && front[j] == x;
                assert(keys[j] == x);
            }
            assert(keys[keys.len() - 1] == keys.last());
            assert(keys.to_set() =~= front.to_set().insert(keys.last()));
            assert(replay(puts) =~= view.restrict(keys.to_set()));
        }
    }

    /// A segment of `Set` records, one for each listed key, takes what the
    /// index gives those keys.
    proof fn lemma_records_listed(m: Map<Seq<char>, CommandPos>, view: Map<Seq<char>, Seq<char>>, keys: Seq<Seq<char>>)
        requires
            forall|j: int|
                0 <= j < keys.len() ==> record(CommandModel::Put { key: #[trigger] keys[j], value: view[keys[j]] }).len()
                    == m[keys[j]].len,
        ensures
            records(keys.map_values(|k: Seq<char>| CommandModel::Put { key: k, value: view[k] })).len()
                == listed_bytes(m, keys),
        decreases keys.len(),
    {
        let puts = keys.map_values(|k: Seq<char>| CommandModel::Put { key: k, value: view[k] });
        if keys.len() > 0 {
            let front = keys.drop_last();
            assert forall|j: int| 0 <= j < front.len() implies record(
                CommandModel::Put { key: #[trigger] front[j], value: view[front[j]] },
            ).len() == m[front[j]].len by {
                assert(front[j] == keys[j]);
            }
            Self::lemma_records_listed(m, view, front);
            assert(puts.drop_last() =~= front.map_values(|k: Seq<char>| CommandModel::Put { key: k, value: view[k] }));
            assert(keys.last() == keys[keys.len() - 1]);
        }
    }

    /// The keys of a listing of the whole index, each once.
    proof fn lemma_entries_keys(before: KvStore, entries: Seq<(String, CommandPos)>)
        requires
            before.wf(),
            forall|i: int|
                0 <= i < entries.len() ==> before.index().contains_key(#[trigger] entries[i].0@)
                    && before.index()[entries[i].0@] == entries[i].1,
            (forall|i: int, j: int|
                0 <= i < j < entries.len() ==> #[trigger] entries[i].0@ != #[trigger] entries[j].0@),
            forall|k: Seq<char>|
                before.index().contains_key(k) ==> exists|i: int| 0 <= i < entries.len() && #[trigger] entries[i].0@ == k,
        ensures
            entries.map_values(|e: (String, CommandPos)| e.0@).no_duplicates(),
            entries.map_values(|e: (String, CommandPos)| e.0@).to_set() == before.index().dom(),
            listed_bytes(before.index(), entries.map_values(|e: (String, CommandPos)| e.0@)) == live_bytes(before.index()),
    {
        let keys = entries.map_values(|e: (String, CommandPos)| e.0@);
        assert(keys.no_duplicates());
        assert(keys.to_set() =~= before.index().dom()) by {
            assert forall|k: Seq<char>| before.index().contains_key(k) implies keys.contains(k) by {
                let j = choose|j: int| 0 <= j < entries.len() && entries[j].0@ == k;
                assert(keys[j] == k);
            }
        }
        lemma_listed_live(before.index(), keys);
    }

    /// What the two loops of `compact` leave is the state that `compact_post` describes.
    #[verifier::rlimit(50)]
    proof fn lemma_compacted(
        before: KvStore,
        after: KvStore,
        entries: Seq<(String, CommandPos)>,
        moves: Seq<(String, CommandPos, CommandPos)>,
    )
        requires
            before.wf(),
            before.current_gen() + 2 <= u64::MAX,
            forall|i: int|
                0 <= i < entries.len() ==> before.index().contains_key(#[trigger] entries[i].0@)
                    && before.index()[entries[i].0@] == entries[i].1,
            (forall|i: int, j: int|
                0 <= i < j < entries.len() ==> #[trigger] entries[i].0@ != #[trigger] entries[j].0@),
            (forall|i: int, j: int|
                0 <= i < j < entries.len() ==> key_less(#[trigger] entries[i].0@, #[trigger] entries[j].0@)),
            forall|k: Seq<char>|
                before.index().contains_key(k) ==> exists|i: int| 0 <= i < entries.len() && #[trigger] entries[i].0@ == k,
            moves.len() == entries.len(),
            forall|j: int|
                0 <= j < moves.len() ==> {
                    let (key, from, to) = #[trigger] moves[j];
                    &&& key@ == entries[j].0@
                    &&& from == entries[j].1
                    &&& to.gen == before.current_gen() + 1
                    &&& to.len == from.len
                    &&& to.pos == (if j == 0 {
                        0
                    } else {
                        moves[j - 1].2.end()
                    })
                },
            after.index().dom() == before.index().dom(),
            forall|j: int| 0 <= j < moves.len() ==> after.index()[#[trigger] entries[j].0@] == moves[j].2,
            after.view() == before.view(),
            after.current_gen() == before.current_gen() + 2,
            after.safe_point() == before.current_gen() + 1,
            after.writer_pos() == 0,
            after.uncompacted() == 0,
            after.stale() == 0,
            after.segments() == Map::<u64, Seq<CommandModel>>::empty().insert(
                (before.current_gen() + 1) as u64,
                entries.map_values(|e: (String, CommandPos)| e.0@).map_values(
                    |k: Seq<char>| CommandModel::Put { key: k, value: before.view()[k] },
                ),
            ).insert(after.current_gen(), seq![]),
        ensures
            before.compact_post(after, moves),
    {
        let cg = (before.current_gen() + 1) as u64;
        let view = before.view();
        let keys = entries.map_values(|e: (String, CommandPos)| e.0@);
        let puts = keys.map_values(|k: Seq<char>| CommandModel::Put { key: k, value: view[k] });
        let tos = moves.map_values(|mv: (String, CommandPos, CommandPos)| mv.2);
        let new_segments = after.segments();
        assert forall|j: int| 0 <= j < tos.len() implies (#[trigger] tos[j]).len == record(puts[j]).len() by {
            let k = entries[j].0@;
            assert(before.points_at(k, before.index()[k]));
        }
        Self::lemma_layout(puts, tos);
        assert(keys.no_duplicates());
        Self::lemma_replay_puts(view, keys);
        assert(keys.to_set() =~= view.dom()) by {
            assert forall|k: Seq<char>| view.contains_key(k) implies keys.contains(k) by {
                assert(before.index().contains_key(k));
                let j = choose|j: int| 0 <= j < entries.len() && entries[j].0@ == k;
                assert(keys[j] == k);
            }
        }
        assert(view.restrict(keys.to_set()) =~= view);
        keys.unique_seq_to_set();
        assert forall|j: int| 0 <= j < keys.len() implies record(
            CommandModel::Put { key: #[trigger] keys[j], value: view[keys[j]] },
        ).len() == before.index()[keys[j]].len by {
            assert(puts[j] == CommandModel::Put { key: keys[j], value: view[keys[j]] });
            assert(tos[j].len == record(puts[j]).len());
        }
        Self::lemma_records_listed(before.index(), view, keys);
        assert(keys.to_set() == before.index().dom());
        lemma_listed_live(before.index(), keys);
        assert forall|k: Seq<char>| #[trigger] before.index().contains_key(k) implies before.index()[k].len
            == after.index()[k].len by {
            let j = choose|j: int| 0 <= j < entries.len() && entries[j].0@ == k;
            assert(after.index()[entries[j].0@] == moves[j].2);
        }
        lemma_live_same_lens(before.index(), after.index());
        assert forall|k: Seq<char>| #[trigger] after.index().contains_key(k) implies after.points_at(k, after.index()[k]) by {
            let j = choose|j: int| 0 <= j < entries.len() && entries[j].0@ == k;
            assert(after.index()[entries[j].0@] == moves[j].2);
            assert(tos[j] == moves[j].2);
        }
        assert(after.index().dom() =~= after.view().dom());
        assert(records(seq![]) == Seq::<u8>::empty());
        assert(history(new_segments, cg as int, cg as int - 1) == Seq::<CommandModel>::empty());
        assert(history(new_segments, cg as int, cg as int) =~= puts);
        assert(history(new_segments, cg as int, cg as int + 1) =~= puts);
        assert(after.segments().dom() =~= set![cg, after.current_gen()]);
        assert(after.wf());
        assert forall|j: int| 0 <= j < moves.len() implies {
            let (key, from, to) = #[trigger] moves[j];
            &&& before.index().contains_key(key@)
            &&& from == before.index()[key@]
            &&& after.index()[key@] == to
            &&& before.segments().contains_key(from.gen)
            &&& from.end() <= before.segment_bytes(from.gen).len()
            &&& after.bytes_at(to) == before.bytes_at(from)
        } by {
            let k = entries[j].0@;
            assert(before.points_at(k, before.index()[k]));
            assert(tos[j] == moves[j].2);
        }
        if moves.len() > 0 {
            assert(tos.last() == moves.last().2);
        }
        assert forall|k: Seq<char>| #[trigger] before.index().contains_key(k) implies after.index()[k].len
            == before.index()[k].len by {
            let j = choose|j: int| 0 <= j < entries.len() && entries[j].0@ == k;
            assert(after.index()[entries[j].0@] == moves[j].2);
        }
    }

    /// Rewrites the live records into segment `current_gen + 1`, in the order of
    /// the returned moves (each: where the record was, where it goes), and
    /// continues writing in segment `current_gen + 2`. Every segment below
    /// `current_gen + 1` is then stale and may be deleted. `None`, with nothing
    /// changed, where the live records would not fit in one segment.
    pub fn compact(&mut self) -> (r: Option<Vec<(String, CommandPos, CommandPos)>>)
        requires
            old(self).wf(),
            old(self).current_gen() + 2 <= u64::MAX,
        ensures
            r is None <==> live_bytes(old(self).index()) > u64::MAX,
            r is None ==> *final(self) == *old(self),
            r is Some ==> old(self).compact_post(*final(self), r->0@),
    {
        let entries = index_entries(&self.index);
        let cg = self.current_gen + 1;
        let ghost before = *self;
        let ghost keys = entries@.map_values(|e: (String, CommandPos)| e.0@);
        proof {
            Self::lemma_entries_keys(before, entries@);
            assert(keys.take(0) =~= Seq::<Seq<char>>::empty());
        }
        let mut moves: Vec<(String, CommandPos, CommandPos)> = Vec::new();
        let mut new_pos: u64 = 0;
        let mut i: usize = 0;
        while i < entries.len()
            invariant
                *self == before,
                0 <= i <= entries@.len(),
                moves@.len() == i,
                forall|j: int|
                    0 <= j < i ==> {
                        let (key, from, to) = #[trigger] moves@[j];
                        &&& key@ == entries@[j].0@
                        &&& from == entries@[j].1
                        &&& to.gen == cg
                        &&& to.len == from.len
                        &&& to.pos == (if j == 0 {
                            0
                        } else {
                            moves@[j - 1].2.end()
                        })
                    },
                new_pos == (if i == 0 {
                    0
                } else {
                    moves@[i - 1].2.end()
                }),
                new_pos == listed_bytes(before.index(), keys.take(i as int)),
                keys.len() == entries@.len(),
                forall|j: int| 0 <= j < keys.len() ==> #[trigger] keys[j] == entries@[j].0@,
                forall|j: int|
                    0 <= j < entries@.len() ==> before.index().contains_key(#[trigger] entries@[j].0@)
                        && before.index()[entries@[j].0@] == entries@[j].1,
                listed_bytes(before.index(), keys) == live_bytes(before.index()),
            decreases entries@.len() - i,
        {
            let from = entries[i].1;
            proof {
                assert(keys.take(i + 1).drop_last() =~= keys.take(i as int));
                assert(keys.take(i + 1).last() == keys[i as int]);
            }
            if new_pos > u64::MAX - from.len {
                proof {
                    lemma_listed_prefix(before.index(), keys, i + 1);
                }
                return None;
            }
            moves.push((entries[i].0.clone(), from, CommandPos { gen: cg, pos: new_pos, len: from.len }));
            new_pos = new_pos + from.len;
            i = i + 1;
        }
        proof {
            assert(keys.take(i as int) =~= keys);
        }
        let mut m: usize = 0;
        while m < moves.len()
            invariant
                0 <= m <= moves@.len(),
                moves@.len() == entries@.len(),
                self.contents == before.contents,
                self.index().dom() == before.index().dom(),
                forall|j: int|
                    0 <= j < m ==> self.index()[#[trigger] entries@[j].0@] == moves@[j].2,
                forall|j: int|
                    m <= j < entries@.len() ==> self.index()[#[trigger] entries@[j].0@]
                        == before.index()[entries@[j].0@],
                forall|j: int|
                    0 <= j < entries@.len() ==> before.index().contains_key(#[trigger] entries@[j].0@),
                (forall|a: int, b: int|
                    0 <= a < b < entries@.len() ==> #[trigger] entries@[a].0@ != #[trigger] entries@[b].0@),
            decreases moves@.len() - m,
        {
            let key = entries[m].0.clone();
            index_insert(&mut self.index, key, moves[m].2);
            proof {
                assert(self.index().dom() =~= before.index().dom());
            }
            m = m + 1;
        }
        let ghost puts = entries@.map_values(|e: (String, CommandPos)| e.0@).map_values(
            |k: Seq<char>| CommandModel::Put { key: k, value: before.view()[k] },
        );
        self.current_gen = cg + 1;
        self.safe_point = cg;
        self.writer_pos = 0;
        self.uncompacted = 0;
        self.segments = Ghost(
            Map::<u64, Seq<CommandModel>>::empty().insert(cg, puts).insert((cg + 1) as u64, seq![]),
        );
        self.stale = Ghost(0);
        proof {
            Self::lemma_compacted(before, *self, entries@, moves@);
        }
        Some(moves)
    }
}


/// After `set(k, v)`, `get(k)` gives `v`.
pub proof fn law_set_then_get(s: KvStore, t: KvStore, k: Seq<char>, v: Seq<char>)
    requires
        s.wf(),
        s.set_post(t, k, v),
    ensures
        t.get_spec(k) == Some(Ok::<Seq<char>, KvsError>(v)),
{
    t.lemma_get_spec(k);
}

/// After `set(k, v1)` and `set(k, v2)`, `get(k)` gives `v2`.
pub proof fn law_overwrite(s: KvStore, t: KvStore, u: KvStore, k: Seq<char>, v1: Seq<char>, v2: Seq<char>)
    requires
        s.wf(),
        s.set_post(t, k, v1),
        t.set_post(u, k, v2),
    ensures
        u.get_spec(k) == Some(Ok::<Seq<char>, KvsError>(v2)),
{
    u.lemma_get_spec(k);
}

/// After `set(k, v)` and `remove(k)`, `get(k)` finds nothing, and a second
/// `remove(k)` is refused: the key is no longer in the store.
pub proof fn law_tombstone(s: KvStore, t: KvStore, u: KvStore, k: Seq<char>, v: Seq<char>)
    requires
        s.wf(),
        s.set_post(t, k, v),
        t.remove_post(u, k),
    ensures
        t.view().contains_key(k),
        u.get_spec(k) is None,
        !u.view().contains_key(k),
{
    u.lemma_get_spec(k);
}

/// `history` up to the last listed generation is the listed segments' commands,
/// where the list holds every segment from `lo` on, in ascending order.
proof fn lemma_history_listing(m: Map<u64, Seq<CommandModel>>, lo: int, segs: Seq<(u64, Vec<u8>)>)
    requires
        0 <= lo,
        segs.len() > 0,
        (forall|i: int, j: int| 0 <= i < j < segs.len() ==> segs[i].0 < segs[j].0),
        forall|i: int|
            0 <= i < segs.len() ==> m.contains_key(#[trigger] segs[i].0) && lo <= segs[i].0
                && parsed(segs, i) == m[segs[i].0],
        forall|g: u64|
            #[trigger] m.contains_key(g) && lo <= g <= segs.last().0 ==> exists|i: int|
                0 <= i < segs.len() && segs[i].0 == g,
    ensures
        history(m, lo, segs.last().0 as int) == loaded_history(segs),
    decreases segs.len(),
{
    let n = segs.len() - 1;
    let last = segs[n].0;
    let front = segs.drop_last();
    assert(segs.last() == segs[n]);
    if n == 0 {
        assert forall|g: u64| #[trigger] m.contains_key(g) implies !(lo - 1 < g <= last - 1) by {
            if lo <= g <= last - 1 {
                let i = choose|i: int| 0 <= i < segs.len() && segs[i].0 == g;
            }
        }
        KvStore::lemma_history_gap(m, lo, lo - 1, last - 1);
        assert(front =~= Seq::<(u64, Vec<u8>)>::empty());
    } else {
        let prev = segs[n - 1].0;
        assert forall|g: u64| #[trigger] m.contains_key(g) implies !(prev < g <= last - 1) by {
            if prev < g <= last - 1 {
                let i = choose|i: int| 0 <= i < segs.len() && segs[i].0 == g;
                if i < n {
                    assert(segs[i].0 <= prev) by {
                        if i < n - 1 {
                            assert(segs[i].0 < segs[n - 1].0);
                        }
                    }
                }
            }
        }
        KvStore::lemma_history_gap(m, lo, prev as int, last - 1);
        assert forall|i: int| 0 <= i < front.len() implies m.contains_key(#[trigger] front[i].0) && lo <= front[i].0
            && parsed(front, i) == m[front[i].0] by {
            assert(front[i] == segs[i]);
        }
        assert forall|g: u64| #[trigger] m.contains_key(g) && lo <= g <= front.last().0 implies exists|i: int|
            0 <= i < front.len() && front[i].0 == g by {
            let i = choose|i: int| 0 <= i < segs.len() && segs[i].0 == g;
            assert(front.last() == segs[n - 1]);
            assert(i < n);
            assert(front[i] == segs[i]);
        }
        lemma_history_listing(m, lo, front);
        assert(front.last() == segs[n - 1]);
    }
    assert(parsed(segs, n) == m[last]);
    assert(history(m, lo, last as int) == history(m, lo, last - 1) + m[last]);
    assert(loaded_history(segs) == loaded_history(front) + parsed(segs, n));
}

/// Closing and reopening a store on its directory gives back the same keys
/// and values: every segment of a well-formed store decodes, and replaying all
/// of them in ascending order of generation, as `open` does, rebuilds the
/// store's contents.
pub proof fn law_reopen(s: KvStore, segs: Seq<(u64, Vec<u8>)>)
    requires
        s.wf(),
        (forall|i: int, j: int| 0 <= i < j < segs.len() ==> segs[i].0 < segs[j].0),
        forall|i: int|
            0 <= i < segs.len() ==> s.segments().contains_key(#[trigger] segs[i].0) && segs[i].1@
                == s.segment_bytes(segs[i].0),
        forall|g: u64| #[trigger]
            s.segments().contains_key(g) ==> exists|i: int| 0 <= i < segs.len() && segs[i].0 == g,
    ensures
        all_parse(segs),
        replay(loaded_history(segs)) == s.view(),
{
    let m = s.segments();
    assert forall|i: int| 0 <= i < segs.len() implies (#[trigger] parse_segment(segs[i].1@, 0)) == Some(
        m[segs[i].0],
    ) by {
        let b = segs[i].1@;
        assert(b.subrange(0, b.len() as int) =~= b);
        lemma_parse_segment(b, 0, m[segs[i].0]);
    }
    let cur = s.current_gen();
    let k = choose|i: int| 0 <= i < segs.len() && segs[i].0 == cur;
    let n = segs.len() - 1;
    assert(segs.last() == segs[n]);
    assert(segs[n].0 == cur) by {
        if k < n {
            assert(segs[k].0 < segs[n].0);
        }
    }
    lemma_history_listing(m, s.safe_point() as int, segs);
}

/// Compaction changes no value, and shrinks the log: afterwards every key
/// reads back as before, the segments hold the live records alone, and where
/// the log held stale records (as it does past the threshold) it is now
/// strictly smaller.
pub proof fn law_compaction(s: KvStore, t: KvStore, moves: Seq<(String, CommandPos, CommandPos)>, k: Seq<char>)
    requires
        s.wf(),
        s.compact_post(t, moves),
    ensures
        t.get_spec(k) == s.get_spec(k),
        moves.len() == s.view().len(),
        t.log_size() == live_bytes(s.index()),
        s.log_size() == live_bytes(s.index()) + s.stale(),
        s.uncompacted() > 0 ==> t.log_size() < s.log_size(),
{
    s.lemma_get_spec(k);
    t.lemma_get_spec(k);
    assert(s.index().dom() == s.view().dom());
    lemma_live_same_lens(s.index(), t.index());
}

/// A reader that took a key's position before a compaction, and reads the
/// bytes there afterwards (its handle keeps the old segment), finds the value
/// that `get` gives after the compaction.
pub proof fn law_read_across_compaction(
    s: KvStore,
    t: KvStore,
    moves: Seq<(String, CommandPos, CommandPos)>,
    k: Seq<char>,
)
    requires
        s.wf(),
        s.index().contains_key(k),
        s.compact_post(t, moves),
    ensures
        t.get_spec(k) == Some(record_value(s.bytes_at(s.index()[k]))),
{
    s.lemma_get_spec(k);
    t.lemma_get_spec(k);
}

} // verus!
