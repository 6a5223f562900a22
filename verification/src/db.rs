//! The database facade: an index over a store, kept in lock step.
//!
//! The on-disk log is authoritative: every mutation is appended to the
//! store first and only then mirrored in the index.  The facade's
//! well-formedness says exactly that — replaying everything on disk
//! rebuilds the current index — so closing and reopening a database
//! recovers the same state.

use vstd::prelude::*;
use crate::error::DBError;
use crate::index::{Index, bounded_pairs, map_of_pairs};
use crate::log::{
    LogItem, clean_log, file_items, files_items, lemma_clean_log_append_frame,
    lemma_file_items_bounded, lemma_files_items_all_ok_clean, lemma_files_items_snoc,
    lemma_frame_items, lemma_truncated_tail_corrupts,
};
use crate::record::{
    Action, RecordView, MAX_RECORD_SIZE, body_len, frame_bytes, frame_len,
};
use crate::store::{
    MAX_WAL_SIZE, Store, append_transition, copy_bytes, delete_record, lemma_rewrite_items,
    rewrite_bytes, set_record,
};

verus! {

/// What one record does to the map a replay builds.
pub open spec fn apply_record(m: Map<Seq<u8>, Seq<u8>>, r: RecordView) -> Map<Seq<u8>, Seq<u8>> {
    match r.action {
        Action::Put => m.insert(r.key, r.value),
        Action::Delete => m.remove(r.key),
    }
}

/// Replay items onto a starting map; the first error aborts.
pub open spec fn replay_from(m: Map<Seq<u8>, Seq<u8>>, items: Seq<LogItem>) -> Result<
    Map<Seq<u8>, Seq<u8>>,
    DBError,
>
    decreases items.len(),
{
    if items.len() == 0 {
        Ok(m)
    } else {
        match items[0] {
            Ok(p) => replay_from(apply_record(m, p.0), items.drop_first()),
            Err(e) => Err(e),
        }
    }
}

/// Replay a whole log from the empty map.
pub open spec fn replay(items: Seq<LogItem>) -> Result<Map<Seq<u8>, Seq<u8>>, DBError> {
    replay_from(Map::empty(), items)
}

/// Replaying a concatenation replays the first part, then the second.
pub proof fn lemma_replay_from_concat(m: Map<Seq<u8>, Seq<u8>>, i1: Seq<LogItem>, i2: Seq<LogItem>)
    ensures
        replay_from(m, i1 + i2) == (match replay_from(m, i1) {
            Ok(m1) => replay_from(m1, i2),
            Err(e) => Err(e),
        }),
    decreases i1.len(),
{
    if i1.len() == 0 {
        assert(i1 + i2 =~= i2);
    } else {
        assert((i1 + i2)[0] == i1[0]);
        assert((i1 + i2).drop_first() =~= i1.drop_first() + i2);
        match i1[0] {
            Ok(p) => {
                lemma_replay_from_concat(apply_record(m, p.0), i1.drop_first(), i2);
            },
            Err(_) => {},
        }
    }
}

/// Replaying one record applies it.
pub proof fn lemma_replay_from_one(m: Map<Seq<u8>, Seq<u8>>, r: RecordView, l: u32)
    ensures
        replay_from(m, seq![Ok::<(RecordView, u32), DBError>((r, l))]) == Ok::<
            Map<Seq<u8>, Seq<u8>>,
            DBError,
        >(apply_record(m, r)),
{
    let s = seq![Ok::<(RecordView, u32), DBError>((r, l))];
    assert(s.drop_first() =~= Seq::<LogItem>::empty());
    assert(s[0] == Ok::<(RecordView, u32), DBError>((r, l)));
    assert(replay_from(apply_record(m, r), Seq::<LogItem>::empty()) == Ok::<
        Map<Seq<u8>, Seq<u8>>,
        DBError,
    >(apply_record(m, r)));
    assert(replay_from(m, s) == replay_from(apply_record(m, r), s.drop_first()));
}

/// A replay that succeeds saw no error.
pub proof fn lemma_replay_ok_all_ok(m: Map<Seq<u8>, Seq<u8>>, items: Seq<LogItem>)
    requires
        replay_from(m, items) is Ok,
    ensures
        forall|k: int| 0 <= k < items.len() ==> (#[trigger] items[k]) is Ok,
    decreases items.len(),
{
    if items.len() > 0 {
        match items[0] {
            Ok(p) => {
                lemma_replay_ok_all_ok(apply_record(m, p.0), items.drop_first());
                assert forall|k: int| 0 <= k < items.len() implies (#[trigger] items[k]) is Ok by {
                    if k > 0 {
                        assert(items.drop_first()[k - 1] == items[k]);
                    }
                }
            },
            Err(_) => {
                assert(false);
            },
        }
    }
}

/// A run of error-free items replays without failing.
pub proof fn lemma_replay_all_ok_is_ok(m: Map<Seq<u8>, Seq<u8>>, items: Seq<LogItem>)
    requires
        forall|k: int| 0 <= k < items.len() ==> (#[trigger] items[k]) is Ok,
    ensures
        replay_from(m, items) is Ok,
    decreases items.len(),
{
    if items.len() > 0 {
        assert(items[0] is Ok);
        let p = items[0]->Ok_0;
        assert(forall|k: int|
            0 <= k < items.drop_first().len() ==> (#[trigger] items.drop_first()[k]) == items[k
                + 1]);
        lemma_replay_all_ok_is_ok(apply_record(m, p.0), items.drop_first());
    }
}

/// Inserting a run of pairs into a map, first pair first.
pub open spec fn insert_all(m: Map<Seq<u8>, Seq<u8>>, ps: Seq<(Seq<u8>, Seq<u8>)>) -> Map<
    Seq<u8>,
    Seq<u8>,
>
    decreases ps.len(),
{
    if ps.len() == 0 {
        m
    } else {
        insert_all(m, ps.drop_last()).insert(ps.last().0, ps.last().1)
    }
}

/// Inserting pairs into the empty map is the map of those pairs.
pub proof fn lemma_insert_all_empty(ps: Seq<(Seq<u8>, Seq<u8>)>)
    ensures
        insert_all(Map::empty(), ps) == map_of_pairs(ps),
    decreases ps.len(),
{
    if ps.len() > 0 {
        lemma_insert_all_empty(ps.drop_last());
    }
}

/// Replaying a rewrite's output rebuilds exactly the map of its pairs.
pub proof fn lemma_rewrite_replay(m: Map<Seq<u8>, Seq<u8>>, ps: Seq<(Seq<u8>, Seq<u8>)>)
    requires
        bounded_pairs(ps),
    ensures
        replay_from(m, file_items(rewrite_bytes(ps))) == Ok::<Map<Seq<u8>, Seq<u8>>, DBError>(
            insert_all(m, ps),
        ),
    decreases ps.len(),
{
    if ps.len() == 0 {
        assert(rewrite_bytes(ps) =~= Seq::<u8>::empty());
        assert(file_items(rewrite_bytes(ps)) =~= Seq::<LogItem>::empty());
    } else {
        let front = ps.drop_last();
        assert(bounded_pairs(front)) by {
            assert(forall|i: int| 0 <= i < front.len() ==> (#[trigger] front[i]) == ps[i]);
        }
        lemma_rewrite_replay(m, front);
        let last = set_record(ps.last().0, ps.last().1);
        assert(body_len(last) <= MAX_RECORD_SIZE) by {
            assert(ps[ps.len() - 1] == ps.last());
        }
        lemma_rewrite_items(front);
        lemma_clean_log_append_frame(rewrite_bytes(front), last);
        lemma_replay_from_concat(
            m,
            file_items(rewrite_bytes(front)),
            seq![Ok::<(RecordView, u32), DBError>((last, frame_len(last) as u32))],
        );
        lemma_replay_from_one(insert_all(m, front), last, frame_len(last) as u32);
    }
}

/// A successful append extends what the on-disk state reads as by exactly
/// the one appended record, and keeps every file clean.
pub proof fn lemma_append_items(pre: Store, post: Store, rv: RecordView)
    requires
        pre.wf(),
        post.wf(),
        forall|i: int| 0 <= i < pre.files().len() ==> clean_log(#[trigger] pre.files()[i]),
        body_len(rv) <= MAX_RECORD_SIZE,
        append_transition(pre, post, frame_bytes(rv), Ok::<(), DBError>(())),
    ensures
        post.all_items() == pre.all_items() + seq![
            Ok::<(RecordView, u32), DBError>((rv, frame_len(rv) as u32)),
        ],
        forall|i: int| 0 <= i < post.files().len() ==> clean_log(#[trigger] post.files()[i]),
{
    let frame = frame_bytes(rv);
    let rotating = pre.wal_size() + frame.len() >= MAX_WAL_SIZE;
    let renaming = rotating && pre.wal_view() is Some;
    let premap = pre.seg_views().map_values(|p: (u64, Seq<u8>)| p.1);
    let one = seq![Ok::<(RecordView, u32), DBError>((rv, frame_len(rv) as u32))];
    lemma_frame_items(rv);
    assert(pre.files() =~= premap.push(pre.wal_bytes()));
    lemma_files_items_snoc(premap, pre.wal_bytes());
    assert(pre.files()[premap.len() as int] == pre.wal_bytes());
    assert(clean_log(pre.wal_bytes()));
    assert(forall|i: int| 0 <= i < premap.len() ==> #[trigger] premap[i] == pre.files()[i]);
    assert(forall|i: int| 0 <= i < premap.len() ==> clean_log(#[trigger] premap[i]));
    if renaming {
        let w = pre.wal_view()->Some_0;
        assert(pre.wal_bytes() == w);
        let postmap = post.seg_views().map_values(|p: (u64, Seq<u8>)| p.1);
        assert(postmap =~= premap.push(w));
        assert(post.wal_bytes() == frame);
        assert(post.files() =~= premap.push(w).push(frame));
        lemma_files_items_snoc(premap.push(w), frame);
        assert(post.all_items() =~= (files_items(premap) + file_items(w)) + file_items(frame));
        assert(post.all_items() =~= pre.all_items() + one);
        assert forall|i: int| 0 <= i < post.files().len() implies clean_log(
            #[trigger] post.files()[i],
        ) by {
            if i < premap.len() {
                assert(post.files()[i] == premap[i]);
            } else if i == premap.len() {
                assert(post.files()[i] == w);
            } else {
                assert(post.files()[i] == frame);
            }
        }
    } else if rotating {
        // the WAL was absent: nothing to rename, the frame starts a new one
        assert(pre.wal_view() is None);
        assert(pre.wal_bytes() =~= Seq::<u8>::empty());
        assert(file_items(pre.wal_bytes()) =~= Seq::<LogItem>::empty());
        let postmap = post.seg_views().map_values(|p: (u64, Seq<u8>)| p.1);
        assert(postmap =~= premap);
        assert(post.wal_bytes() == frame);
        assert(post.files() =~= premap.push(frame));
        lemma_files_items_snoc(premap, frame);
        assert(pre.all_items() =~= files_items(premap));
        assert(post.all_items() =~= pre.all_items() + one);
        assert forall|i: int| 0 <= i < post.files().len() implies clean_log(
            #[trigger] post.files()[i],
        ) by {
            if i < premap.len() {
                assert(post.files()[i] == premap[i]);
            } else {
                assert(post.files()[i] == frame);
            }
        }
    } else {
        let w = pre.wal_bytes();
        lemma_clean_log_append_frame(w, rv);
        let postmap = post.seg_views().map_values(|p: (u64, Seq<u8>)| p.1);
        assert(postmap =~= premap);
        assert(post.wal_bytes() == w + frame);
        assert(post.files() =~= premap.push(w + frame));
        lemma_files_items_snoc(premap, w + frame);
        assert(post.all_items() =~= files_items(premap) + (file_items(w) + one));
        assert(post.all_items() =~= pre.all_items() + one);
        assert forall|i: int| 0 <= i < post.files().len() implies clean_log(
            #[trigger] post.files()[i],
        ) by {
            if i < premap.len() {
                assert(post.files()[i] == premap[i]);
            } else {
                assert(post.files()[i] == w + frame);
            }
        }
    }
}

/// The database facade: the store plus the index rebuilt from its log.
pub struct DB {
    data: Index,
    store: Store,
}

impl View for DB {
    type V = Map<Seq<u8>, Seq<u8>>;

    closed spec fn view(&self) -> Map<Seq<u8>, Seq<u8>> {
        self.data@
    }
}

impl DB {
    /// The underlying store.
    pub closed spec fn spec_store(self) -> Store {
        self.store
    }

    /// The in-memory index.
    pub closed spec fn spec_index(self) -> Index {
        self.data
    }

    /// The facade's integrity: the store is sound, every on-disk file is a
    /// clean log, replaying the whole log rebuilds exactly the index, the
    /// index has no duplicate keys, and everything in it fits in a frame.
    pub open spec fn wf(self) -> bool {
        &&& self.spec_store().wf()
        &&& self.spec_index().wf()
        &&& self@ == self.spec_index()@
        &&& forall|i: int|
            0 <= i < self.spec_store().files().len() ==> clean_log(
                #[trigger] self.spec_store().files()[i],
            )
        &&& replay(self.spec_store().all_items()) == Ok::<Map<Seq<u8>, Seq<u8>>, DBError>(self@)
        &&& bounded_pairs(self.spec_index().pairs())
    }

    /// Open a database over a store: replay all segments and the active
    /// WAL, oldest record first, to rebuild the index.  Any error found in
    /// the log aborts the open with that error.
    pub fn new(store: Store) -> (r: Result<DB, DBError>)
        requires
            store.wf(),
        ensures
            match replay(store.all_items()) {
                Ok(m) => r matches Ok(db) && db.wf() && db@ == m && db.spec_store() == store,
                Err(e) => r == Err::<DB, DBError>(e),
            },
    {
        let ghost all = store.all_items();
        let mut index = Index::new();
        let mut iter = store.iter_all();
        proof {
            lemma_files_items_bounded_all(store.files());
        }
        loop
            invariant
                iter.wf(),
                index.wf(),
                bounded_pairs(index.pairs()),
                all == store.all_items(),
                replay_from(index@, iter.remaining()) == replay(all),
                forall|k: int|
                    0 <= k < iter.remaining().len() ==> match #[trigger] iter.remaining()[k] {
                        Ok(p) => body_len(p.0) <= MAX_RECORD_SIZE,
                        Err(_) => true,
                    },
            ensures
                index.wf(),
                bounded_pairs(index.pairs()),
                replay(all) == Ok::<Map<Seq<u8>, Seq<u8>>, DBError>(index@),
            decreases iter.remaining().len(),
        {
            let ghost rem = iter.remaining();
            let item = iter.next();
            match item {
                None => {
                    proof {
                        assert(rem.len() == 0);
                        assert(replay_from(index@, rem) == Ok::<Map<Seq<u8>, Seq<u8>>, DBError>(
                            index@,
                        ));
                    }
                    break;
                },
                Some(Ok((rec, _frame_len))) => {
                    proof {
                        assert(rem.len() > 0);
                        assert(rem[0] matches Ok(p) && rec@ == p.0);
                    }
                    let ghost m_pre = index@;
                    let ghost ps_pre = index.pairs();
                    match rec.action {
                        Action::Put => {
                            index.insert(rec.key, rec.value);
                        },
                        Action::Delete => {
                            index.remove(&rec.key);
                        },
                    }
                    proof {
                        let p = rem[0]->Ok_0;
                        assert(index@ == apply_record(m_pre, p.0));
                        assert(replay_from(m_pre, rem) == replay_from(index@, rem.drop_first()));
                        assert(forall|k: int|
                            0 <= k < rem.drop_first().len() ==> (#[trigger] rem.drop_first()[k])
                                == rem[k + 1]);
                        assert(9 + p.0.key.len() + p.0.value.len() <= MAX_RECORD_SIZE);
                        assert(bounded_pairs(index.pairs()));
                    }
                },
                Some(Err(e)) => {
                    proof {
                        assert(rem.len() > 0);
                        assert(rem[0] matches Err(e2) && e2 == e);
                        assert(replay_from(index@, rem) == Err::<Map<Seq<u8>, Seq<u8>>, DBError>(
                            e,
                        ));
                    }
                    return Err(e);
                },
            }
        }
        let db = DB { data: index, store };
        proof {
            lemma_replay_ok_all_ok(Map::empty(), all);
            lemma_files_items_all_ok_clean(db.spec_store().files());
        }
        Ok(db)
    }

    /// Append a `Set` record to the store, then update the index.
    ///
    /// On success a later `get` of this key sees this value; the log order
    /// is the caller's operation order.  The only failure is exhaustion of
    /// the segment counter, which leaves everything unchanged.
    pub fn put(&mut self, key: Vec<u8>, value: Vec<u8>) -> (r: Result<(), DBError>)
        requires
            old(self).wf(),
            9 + key@.len() + value@.len() <= MAX_RECORD_SIZE,
        ensures
            final(self).wf(),
            append_transition(
                old(self).spec_store(),
                final(self).spec_store(),
                frame_bytes(set_record(key@, value@)),
                r,
            ),
            r is Ok ==> final(self)@ == old(self)@.insert(key@, value@),
            r matches Err(e) ==> e == DBError::Other && *final(self) == *old(self),
    {
        let key_copy = copy_bytes(&key);
        let value_copy = copy_bytes(&value);
        let ghost rv = set_record(key@, value@);
        match self.store.set(key, value) {
            Err(e) => {
                return Err(e);
            },
            Ok(()) => {},
        }
        let ghost m_pre = self.data@;
        let ghost ps_pre = self.data.pairs();
        self.data.insert(key_copy, value_copy);
        proof {
            lemma_append_items(old(self).spec_store(), self.spec_store(), rv);
            lemma_replay_from_concat(
                Map::empty(),
                old(self).spec_store().all_items(),
                seq![Ok::<(RecordView, u32), DBError>((rv, frame_len(rv) as u32))],
            );
            lemma_replay_from_one(m_pre, rv, frame_len(rv) as u32);
            assert(apply_record(m_pre, rv) == m_pre.insert(key@, value@));
            assert(bounded_pairs(self.data.pairs()));
        }
        Ok(())
    }

    /// Append a `Delete` tombstone to the store, then drop the key from
    /// the index.
    pub fn delete(&mut self, key: Vec<u8>) -> (r: Result<(), DBError>)
        requires
            old(self).wf(),
            9 + key@.len() <= MAX_RECORD_SIZE,
        ensures
            final(self).wf(),
            append_transition(
                old(self).spec_store(),
                final(self).spec_store(),
                frame_bytes(delete_record(key@)),
                r,
            ),
            r is Ok ==> final(self)@ == old(self)@.remove(key@),
            r matches Err(e) ==> e == DBError::Other && *final(self) == *old(self),
    {
        let key_copy = copy_bytes(&key);
        let ghost rv = delete_record(key@);
        match self.store.delete(key) {
            Err(e) => {
                return Err(e);
            },
            Ok(()) => {},
        }
        let ghost m_pre = self.data@;
        let ghost ps_pre = self.data.pairs();
        self.data.remove(&key_copy);
        proof {
            lemma_append_items(old(self).spec_store(), self.spec_store(), rv);
            lemma_replay_from_concat(
                Map::empty(),
                old(self).spec_store().all_items(),
                seq![Ok::<(RecordView, u32), DBError>((rv, frame_len(rv) as u32))],
            );
            lemma_replay_from_one(m_pre, rv, frame_len(rv) as u32);
            assert(apply_record(m_pre, rv) == m_pre.remove(key@));
            assert(bounded_pairs(self.data.pairs()));
        }
        Ok(())
    }

    /// The underlying store, for reading the on-disk state it models.
    pub fn store(&self) -> (s: &Store)
        ensures
            *s == self.spec_store(),
    {
        &self.store
    }

    /// Look a key up in the index; no disk is touched.
    pub fn get(&self, key: &Vec<u8>) -> (r: Option<&Vec<u8>>)
        requires
            self.wf(),
        ensures
            match r {
                Some(v) => self@.dom().contains(key@) && v@ == self@[key@],
                None => !self@.dom().contains(key@),
            },
    {
        self.data.get(key)
    }

    /// Fold the live data set into one rewritten file.
    ///
    /// The semantic content — which keys map to which values — is kept;
    /// tombstones and overwritten values are gone, and so are the prior
    /// segments.  With an unchanged index the output is byte-identical
    /// from one run to the next.
    pub fn run_compaction(&mut self) -> (r: Result<(), DBError>)
        requires
            old(self).wf(),
        ensures
            final(self).wf(),
            r == Ok::<(), DBError>(()),
            final(self)@ == old(self)@,
            final(self).spec_index() == old(self).spec_index(),
            final(self).spec_store().seg_views() == Seq::<(u64, Seq<u8>)>::empty(),
            final(self).spec_store().wal_view() == Some(
                rewrite_bytes(old(self).spec_index().pairs()),
            ),
    {
        let r = self.store.write_all(&self.data);
        proof {
            let ps = self.data.pairs();
            let f = rewrite_bytes(ps);
            lemma_rewrite_items(ps);
            assert(self.spec_store().files() =~= Seq::<Seq<u8>>::empty().push(f));
            lemma_files_items_snoc(Seq::<Seq<u8>>::empty(), f);
            assert(files_items(Seq::<Seq<u8>>::empty()) == Seq::<LogItem>::empty());
            assert(self.spec_store().all_items() =~= file_items(f));
            lemma_rewrite_replay(Map::empty(), ps);
            lemma_insert_all_empty(ps);
            self.data.lemma_view_is_pairs();
            assert forall|i: int| 0 <= i < self.spec_store().files().len() implies clean_log(
                #[trigger] self.spec_store().files()[i],
            ) by {
                assert(self.spec_store().files()[i] == f);
            }
        }
        r
    }
}

/// Every record anywhere in a run of files fits its frame.
proof fn lemma_files_items_bounded_all(fs: Seq<Seq<u8>>)
    ensures
        forall|k: int|
            0 <= k < files_items(fs).len() ==> match #[trigger] files_items(fs)[k] {
                Ok(p) => body_len(p.0) <= MAX_RECORD_SIZE,
                Err(_) => true,
            },
    decreases fs.len(),
{
    if fs.len() > 0 {
        lemma_file_items_bounded(fs[0]);
        lemma_files_items_bounded_all(fs.drop_first());
        assert(files_items(fs) == file_items(fs[0]) + files_items(fs.drop_first()));
        assert forall|k: int| 0 <= k < files_items(fs).len() implies match #[trigger] files_items(
            fs,
        )[k] {
            Ok(p) => body_len(p.0) <= MAX_RECORD_SIZE,
            Err(_) => true,
        } by {
            if k < file_items(fs[0]).len() {
                assert(files_items(fs)[k] == file_items(fs[0])[k]);
            } else {
                assert(files_items(fs)[k] == files_items(fs.drop_first())[k - file_items(
                    fs[0],
                ).len()]);
            }
        }
    }
}

/// A truncated tail — nonzero bytes short of one complete frame — at the
/// end of an otherwise clean WAL makes replay fail with a corruption
/// error, so opening such a database fails.
pub proof fn lemma_truncated_tail_fails_replay(b: Seq<u8>, tail: Seq<u8>)
    requires
        clean_log(b),
        tail.len() > 0,
        tail.len() < 4 || (vstd::bytes::spec_u32_from_le_bytes(tail.subrange(0, 4))
            <= MAX_RECORD_SIZE && tail.len() < 4 + vstd::bytes::spec_u32_from_le_bytes(
            tail.subrange(0, 4),
        )),
    ensures
        replay(file_items(b + tail)) == Err::<Map<Seq<u8>, Seq<u8>>, DBError>(
            DBError::CorruptedFile,
        ),
{
    lemma_truncated_tail_corrupts(b, tail);
    let one = seq![Err::<(RecordView, u32), DBError>(DBError::CorruptedFile)];
    lemma_replay_from_concat(Map::empty(), file_items(b), one);
    lemma_replay_all_ok_is_ok(Map::empty(), file_items(b));
    let m1 = replay_from(Map::empty(), file_items(b))->Ok_0;
    assert(replay_from(m1, one) == Err::<Map<Seq<u8>, Seq<u8>>, DBError>(DBError::CorruptedFile));
}

/// Reopening a database from its on-disk state rebuilds exactly the
/// in-memory index: for every key, what a fresh replay of the log yields
/// is what the running database holds.
pub proof fn lemma_recovery(db: DB)
    requires
        db.wf(),
    ensures
        replay(db.spec_store().all_items()) == Ok::<Map<Seq<u8>, Seq<u8>>, DBError>(db@),
{
}

} // verus!
