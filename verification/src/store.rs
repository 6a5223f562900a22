//! The persistence engine: the active WAL, the frozen segments, and the
//! atomic rewrite used by compaction.
//!
//! The store models the on-disk directory as plain bytes: the contents of
//! the active `wal.log` (absent before the first write), and the contents
//! of each frozen `segment_<ts>.log`, oldest first.  A host shim mirrors
//! every transition onto real files; each operation's contract states the
//! new bytes exactly, so the shim has nothing to decide.

use vstd::prelude::*;
use vstd::string::StringExecFns;
use vstd::multiset::Multiset;
use vstd::slice::slice_to_vec;
use crate::error::DBError;
use crate::index::{Index, bounded_pairs};
use crate::log::{
    LogItem, MultiFileRecordIter, clean_log, datas, file_items, files_items, items_frame_sum,
    lemma_clean_log_append_frame, lemma_clean_log_frame_sum,
};
use crate::record::{Action, Record, RecordView, MAX_RECORD_SIZE, body_len, frame_bytes, frame_len};

verus! {

/// When the next append would grow the active WAL to this size or beyond,
/// the WAL is rotated into a segment first.
pub const MAX_WAL_SIZE: u32 = 10 * 1024 * 1024;

/// A frozen, immutable former WAL: its timestamp suffix and its bytes.
pub struct Segment {
    pub ts: u64,
    pub data: Vec<u8>,
}

/// The persistence engine's state.
pub struct Store {
    path: String,
    segments: Vec<Segment>,
    wal: Option<Vec<u8>>,
    active_wal_size: u64,
    next_ts: u64,
}

/// Copy a byte vector.
pub(crate) fn copy_bytes(v: &Vec<u8>) -> (r: Vec<u8>)
    ensures
        r@ == v@,
{
    slice_to_vec(v.as_slice())
}

/// The timestamp and contents of each segment, in the order kept.
pub open spec fn seg_views_of(segments: Seq<Segment>) -> Seq<(u64, Seq<u8>)> {
    segments.map_values(|s: Segment| (s.ts, s.data@))
}

/// Decimal digit characters.
pub open spec fn digit_char(d: int) -> char {
    if d == 0 {
        '0'
    } else if d == 1 {
        '1'
    } else if d == 2 {
        '2'
    } else if d == 3 {
        '3'
    } else if d == 4 {
        '4'
    } else if d == 5 {
        '5'
    } else if d == 6 {
        '6'
    } else if d == 7 {
        '7'
    } else if d == 8 {
        '8'
    } else {
        '9'
    }
}

/// The decimal writing of a number, most significant digit first.
pub open spec fn spec_decimal(n: int) -> Seq<char>
    decreases n,
{
    if n < 10 {
        seq![digit_char(n)]
    } else {
        spec_decimal(n / 10).push(digit_char(n % 10))
    }
}

/// One decimal digit as a string.
fn digit_str(d: u64) -> (r: &'static str)
    requires
        d < 10,
    ensures
        r@ == seq![digit_char(d as int)],
{
    proof {
        reveal_strlit("0");
        reveal_strlit("1");
        reveal_strlit("2");
        reveal_strlit("3");
        reveal_strlit("4");
        reveal_strlit("5");
        reveal_strlit("6");
        reveal_strlit("7");
        reveal_strlit("8");
        reveal_strlit("9");
    }
    if d == 0 {
        "0"
    } else if d == 1 {
        "1"
    } else if d == 2 {
        "2"
    } else if d == 3 {
        "3"
    } else if d == 4 {
        "4"
    } else if d == 5 {
        "5"
    } else if d == 6 {
        "6"
    } else if d == 7 {
        "7"
    } else if d == 8 {
        "8"
    } else {
        "9"
    }
}

/// Write a number in decimal.
fn u64_decimal(n: u64) -> (r: String)
    ensures
        r@ == spec_decimal(n as int),
    decreases n,
{
    if n < 10 {
        String::from_str(digit_str(n))
    } else {
        let mut s = u64_decimal(n / 10);
        s.append(digit_str(n % 10));
        s
    }
}

impl Store {
    /// The directory this store owns.
    pub closed spec fn spec_path(self) -> Seq<char> {
        self.path@
    }

    /// The timestamp and contents of each frozen segment, oldest first.
    pub closed spec fn seg_views(self) -> Seq<(u64, Seq<u8>)> {
        seg_views_of(self.segments@)
    }

    /// The active WAL's contents; `None` when `wal.log` is absent.
    pub closed spec fn wal_view(self) -> Option<Seq<u8>> {
        match self.wal {
            Some(w) => Some(w@),
            None => None,
        }
    }

    /// The active WAL's contents, empty when absent.
    pub open spec fn wal_bytes(self) -> Seq<u8> {
        match self.wal_view() {
            Some(w) => w,
            None => Seq::empty(),
        }
    }

    /// The size counter for the active WAL.
    pub closed spec fn wal_size(self) -> u64 {
        self.active_wal_size
    }

    /// The next segment timestamp to be issued.
    pub closed spec fn spec_next_ts(self) -> u64 {
        self.next_ts
    }

    /// The file contents replay walks: segments in age order, then the WAL.
    pub open spec fn files(self) -> Seq<Seq<u8>> {
        self.seg_views().map_values(|p: (u64, Seq<u8>)| p.1) + seq![self.wal_bytes()]
    }

    /// Everything the on-disk state reads as, in replay order.
    pub open spec fn all_items(self) -> Seq<LogItem> {
        files_items(self.files())
    }

    /// The store's integrity: the size counter equals the WAL's length,
    /// segment timestamps strictly increase with age, and every issued
    /// timestamp is below the next one.
    pub open spec fn wf(self) -> bool {
        &&& (match self.wal_view() {
            Some(w) => self.wal_size() == w.len(),
            None => self.wal_size() == 0,
        })
        &&& (forall|i: int, j: int|
            0 <= i < j < self.seg_views().len() ==> (#[trigger] self.seg_views()[i]).0 < (
            #[trigger] self.seg_views()[j]).0)
        &&& (forall|i: int|
            0 <= i < self.seg_views().len() ==> (#[trigger] self.seg_views()[i]).0
                < self.spec_next_ts())
    }

    /// Open a store over a directory's contents.
    ///
    /// The host hands in whether the path is a directory, the segments it
    /// found (any order, timestamps pairwise distinct), the active WAL's
    /// bytes if `wal.log` exists, and the wall clock in milliseconds; the
    /// store orders the segments by age and seeds its counters.
    pub fn new(
        path: String,
        is_dir: bool,
        segments: Vec<Segment>,
        wal: Option<Vec<u8>>,
        now_ms: u64,
    ) -> (r: Result<Store, DBError>)
        requires
            forall|i: int, j: int|
                0 <= i < j < segments@.len() ==> (#[trigger] segments@[i]).ts != (
                #[trigger] segments@[j]).ts,
            forall|i: int| 0 <= i < segments@.len() ==> (#[trigger] segments@[i]).ts < u64::MAX,
        ensures
            !is_dir ==> r == Err::<Store, DBError>(DBError::InvalidPath),
            is_dir ==> (r matches Ok(s) && {
                &&& s.wf()
                &&& s.spec_path() == path@
                &&& s.seg_views().to_multiset() == seg_views_of(segments@).to_multiset()
                &&& s.wal_view() == (match wal {
                    Some(w) => Some(w@),
                    None => None::<Seq<u8>>,
                })
                &&& s.wal_size() == s.wal_bytes().len()
                &&& s.spec_next_ts() >= now_ms
            }),
    {
        if !is_dir {
            return Err(DBError::InvalidPath);
        }
        let ghost orig_views = seg_views_of(segments@);
        let sorted = sort_segments(segments);
        let mut next_ts: u64 = now_ms;
        if sorted.len() > 0 {
            let last_ts = sorted[sorted.len() - 1].ts;
            proof {
                // the maximal timestamp came from the input, so it is below
                // `u64::MAX` and has headroom for the successor
                let sv = seg_views_of(sorted@);
                sv.to_multiset_ensures();
                orig_views.to_multiset_ensures();
                let last = sv[sv.len() - 1];
                assert(sv.contains(last));
                assert(orig_views.to_multiset().count(last) > 0);
                assert(orig_views.contains(last));
                let j = choose|j: int| 0 <= j < orig_views.len() && orig_views[j] == last;
                assert(last.0 < u64::MAX);
                assert(last_ts < u64::MAX);
            }
            if last_ts >= next_ts {
                next_ts = last_ts + 1;
            }
        }
        let size: u64 = match &wal {
            Some(w) => w.len() as u64,
            None => 0,
        };
        let s = Store { path, segments: sorted, wal, active_wal_size: size, next_ts };
        proof {
            assert(forall|i: int|
                0 <= i < s.seg_views().len() ==> (#[trigger] s.seg_views()[i]).0
                    < s.spec_next_ts());
        }
        Ok(s)
    }

    /// Record the active WAL's size, as seeded from file metadata at open.
    pub fn set_wal_size(&mut self, size: u32)
        ensures
            final(self).wal_size() == size,
            final(self).spec_path() == old(self).spec_path(),
            final(self).seg_views() == old(self).seg_views(),
            final(self).wal_view() == old(self).wal_view(),
            final(self).spec_next_ts() == old(self).spec_next_ts(),
    {
        self.active_wal_size = size as u64;
    }

    /// The path of the active WAL file.
    pub fn wal_path(&self) -> (r: String)
        ensures
            r@ == self.spec_path() + "/wal.log"@,
    {
        self.path.clone().concat("/wal.log")
    }

    /// The path of the segment file with a timestamp suffix.
    pub fn segment_path(&self, ts: u64) -> (r: String)
        ensures
            r@ == self.spec_path() + "/segment_"@ + spec_decimal(ts as int) + ".log"@,
    {
        let mut s = self.path.clone();
        s.append("/segment_");
        let digits = u64_decimal(ts);
        s.append(digits.as_str());
        s.append(".log");
        s
    }
}

/// An ASCII decimal digit.
pub open spec fn is_digit(b: u8) -> bool {
    48 <= b <= 57
}

/// The number written by a run of decimal digits.
pub open spec fn digits_val(s: Seq<u8>) -> int
    decreases s.len(),
{
    if s.len() == 0 {
        0
    } else {
        digits_val(s.drop_last()) * 10 + (s.last() - 48)
    }
}

/// The bytes of `segment_`.
pub open spec fn seg_name_prefix() -> Seq<u8> {
    seq![115u8, 101u8, 103u8, 109u8, 101u8, 110u8, 116u8, 95u8]
}

/// The bytes of `.log`.
pub open spec fn seg_name_suffix() -> Seq<u8> {
    seq![46u8, 108u8, 111u8, 103u8]
}

/// The timestamp spelled in a segment file name: `segment_<digits>.log`
/// with at least one digit.  Anything else is not a segment's name.
pub open spec fn segment_name_ts(name: Seq<u8>) -> Option<int> {
    if name.len() >= 13 && name.subrange(0, 8) == seg_name_prefix() && name.subrange(
        name.len() - 4,
        name.len() as int,
    ) == seg_name_suffix() && (forall|j: int|
        8 <= j < name.len() - 4 ==> is_digit(#[trigger] name[j])) {
        Some(digits_val(name.subrange(8, name.len() - 4)))
    } else {
        None
    }
}

/// A run of digits writes a number at least zero.
proof fn lemma_digits_val_nonneg(s: Seq<u8>)
    requires
        forall|j: int| 0 <= j < s.len() ==> is_digit(#[trigger] s[j]),
    ensures
        digits_val(s) >= 0,
    decreases s.len(),
{
    if s.len() > 0 {
        assert(forall|j: int| 0 <= j < s.drop_last().len() ==> s.drop_last()[j] == s[j]);
        lemma_digits_val_nonneg(s.drop_last());
    }
}

/// Digits only grow the number they spell.
proof fn lemma_digits_val_prefix_le(s: Seq<u8>, i: int)
    requires
        forall|j: int| 0 <= j < s.len() ==> is_digit(#[trigger] s[j]),
        0 <= i <= s.len(),
    ensures
        digits_val(s.subrange(0, i)) <= digits_val(s),
    decreases s.len() - i,
{
    if i == s.len() {
        assert(s.subrange(0, i) =~= s);
    } else {
        let t = s.subrange(0, i + 1);
        assert(forall|j: int| 0 <= j < t.len() ==> t[j] == s[j]);
        assert(t.drop_last() =~= s.subrange(0, i));
        lemma_digits_val_nonneg(s.subrange(0, i));
        assert(digits_val(t) == digits_val(s.subrange(0, i)) * 10 + (s[i] - 48));
        assert(digits_val(s.subrange(0, i)) <= digits_val(t));
        lemma_digits_val_prefix_le(s, i + 1);
    }
}

/// Read the timestamp out of a segment file's name; `None` for any other
/// name, and for a timestamp too large for a `u64`.
pub fn segment_ts_of(name: &[u8]) -> (r: Option<u64>)
    ensures
        match segment_name_ts(name@) {
            Some(v) => if v <= u64::MAX {
                r == Some(v as u64)
            } else {
                r == None::<u64>
            },
            None => r == None::<u64>,
        },
{
    let n = name.len();
    if n < 13 {
        return None;
    }
    if name[0] != 115 || name[1] != 101 || name[2] != 103 || name[3] != 109 || name[4] != 101
        || name[5] != 110 || name[6] != 116 || name[7] != 95 {
        proof {
            assert(name@.subrange(0, 8) != seg_name_prefix());
        }
        return None;
    }
    if name[n - 4] != 46 || name[n - 3] != 108 || name[n - 2] != 111 || name[n - 1] != 103 {
        proof {
            assert(name@.subrange(n - 4, n as int) != seg_name_suffix());
        }
        return None;
    }
    proof {
        assert(name@.subrange(0, 8) =~= seg_name_prefix());
        assert(name@.subrange(n - 4, n as int) =~= seg_name_suffix());
    }
    let ghost mid = name@.subrange(8, n - 4);
    let mut acc: u64 = 0;
    let mut i: usize = 8;
    proof {
        assert(mid.subrange(0, 0) =~= Seq::<u8>::empty());
    }
    while i < n - 4
        invariant
            8 <= i <= n - 4,
            n == name@.len(),
            n >= 13,
            mid == name@.subrange(8, n - 4),
            forall|j: int| 8 <= j < i ==> is_digit(#[trigger] name@[j]),
            acc == digits_val(mid.subrange(0, i - 8)),
        decreases n - 4 - i,
    {
        let b = name[i];
        if b < 48 || b > 57 {
            proof {
                assert(!is_digit(name@[i as int]));
                assert(segment_name_ts(name@) is None);
            }
            return None;
        }
        let wide: u128 = acc as u128 * 10 + (b - 48) as u128;
        proof {
            let t = mid.subrange(0, i - 8 + 1);
            assert(t.drop_last() =~= mid.subrange(0, i - 8));
            assert(t.last() == name@[i as int]);
            assert(digits_val(t) == wide);
        }
        if wide > u64::MAX as u128 {
            proof {
                // every longer run of these digits spells something even
                // larger, so the name's timestamp cannot fit
                if segment_name_ts(name@) is Some {
                    assert(forall|j: int| 0 <= j < mid.len() ==> mid[j] == name@[j + 8]);
                    lemma_digits_val_prefix_le(mid, i - 8 + 1);
                    assert(segment_name_ts(name@)->Some_0 > u64::MAX);
                }
            }
            return None;
        }
        acc = wide as u64;
        i = i + 1;
    }
    proof {
        assert(mid.subrange(0, (n - 4 - 8) as int) =~= mid);
        assert(forall|j: int| 0 <= j < mid.len() ==> mid[j] == name@[j + 8]);
        assert(segment_name_ts(name@) == Some(digits_val(mid)));
    }
    Some(acc)
}

/// The active WAL's size counter accounts exactly for the frames in it:
/// it equals the sum of the frame lengths the WAL reads as, which is what
/// has been appended since the last rotation or rewrite.
pub proof fn lemma_wal_size_accounts_frames(s: Store)
    requires
        s.wf(),
        clean_log(s.wal_bytes()),
    ensures
        s.wal_size() == items_frame_sum(file_items(s.wal_bytes())),
{
    lemma_clean_log_frame_sum(s.wal_bytes());
}

/// The record a `set` writes.
pub open spec fn set_record(k: Seq<u8>, v: Seq<u8>) -> RecordView {
    RecordView { action: Action::Put, key: k, value: v }
}

/// The record a `delete` writes: a tombstone with an empty value.
pub open spec fn delete_record(k: Seq<u8>) -> RecordView {
    RecordView { action: Action::Delete, key: k, value: Seq::empty() }
}

/// The consolidated file a rewrite produces: one `Set` frame per pair, in
/// the order given.
pub open spec fn rewrite_bytes(ps: Seq<(Seq<u8>, Seq<u8>)>) -> Seq<u8>
    decreases ps.len(),
{
    if ps.len() == 0 {
        Seq::empty()
    } else {
        rewrite_bytes(ps.drop_last()) + frame_bytes(set_record(ps.last().0, ps.last().1))
    }
}

/// A rewrite's output reads as exactly one `Set` record per pair, in order.
pub proof fn lemma_rewrite_items(ps: Seq<(Seq<u8>, Seq<u8>)>)
    requires
        bounded_pairs(ps),
    ensures
        clean_log(rewrite_bytes(ps)),
        file_items(rewrite_bytes(ps)).len() == ps.len(),
        forall|i: int|
            0 <= i < ps.len() ==> file_items(rewrite_bytes(ps))[i] == Ok::<
                (RecordView, u32),
                DBError,
            >((
                set_record(ps[i].0, ps[i].1),
                frame_len(set_record(ps[i].0, ps[i].1)) as u32,
            )),
    decreases ps.len(),
{
    if ps.len() == 0 {
        assert(rewrite_bytes(ps) =~= Seq::<u8>::empty());
    } else {
        let front = ps.drop_last();
        assert(bounded_pairs(front)) by {
            assert(forall|i: int|
                0 <= i < front.len() ==> (#[trigger] front[i]) == ps[i]);
        }
        lemma_rewrite_items(front);
        let last = set_record(ps.last().0, ps.last().1);
        assert(body_len(last) <= MAX_RECORD_SIZE) by {
            assert(ps[ps.len() - 1] == ps.last());
        }
        lemma_clean_log_append_frame(rewrite_bytes(front), last);
        assert(forall|i: int|
            0 <= i < front.len() ==> (#[trigger] ps[i]) == front[i]);
    }
}

/// How one append changes the store: when the WAL would reach the size cap
/// it is first rotated into a segment, then the frame goes at the WAL's
/// end and the size counter moves with it.  The only failure is exhaustion
/// of the timestamp counter, which leaves the store unchanged.
pub open spec fn append_transition(
    pre: Store,
    post: Store,
    frame: Seq<u8>,
    r: Result<(), DBError>,
) -> bool {
    let rotating = pre.wal_size() + frame.len() >= MAX_WAL_SIZE;
    let renaming = rotating && pre.wal_view() is Some;
    if renaming && pre.spec_next_ts() == u64::MAX {
        &&& r == Err::<(), DBError>(DBError::Other)
        &&& post == pre
    } else {
        &&& r == Ok::<(), DBError>(())
        &&& post.spec_path() == pre.spec_path()
        &&& post.seg_views() == (if renaming {
            pre.seg_views().push((pre.spec_next_ts(), pre.wal_view()->Some_0))
        } else {
            pre.seg_views()
        })
        &&& post.spec_next_ts() == (if renaming {
            pre.spec_next_ts() + 1
        } else {
            pre.spec_next_ts() as int
        })
        &&& post.wal_view() == Some(
            if rotating {
                frame
            } else {
                pre.wal_bytes() + frame
            },
        )
        &&& post.wal_size() == (if rotating {
            frame.len() as int
        } else {
            pre.wal_size() + frame.len()
        })
    }
}

impl Store {
    /// Freeze the active WAL into a new segment and start afresh.
    ///
    /// The new segment's timestamp is the next one to be issued, so the
    /// segment order stays strictly increasing within a run.  Without an
    /// active WAL this does nothing.
    pub fn rotate_wal(&mut self) -> (r: Result<(), DBError>)
        requires
            old(self).wf(),
        ensures
            final(self).wf(),
            final(self).spec_path() == old(self).spec_path(),
            match old(self).wal_view() {
                None => r == Ok::<(), DBError>(()) && *final(self) == *old(self),
                Some(w) => {
                    if old(self).spec_next_ts() == u64::MAX {
                        r == Err::<(), DBError>(DBError::Other) && *final(self) == *old(self)
                    } else {
                        &&& r == Ok::<(), DBError>(())
                        &&& final(self).wal_view() is None
                        &&& final(self).wal_size() == 0
                        &&& final(self).seg_views() == old(self).seg_views().push((
                            old(self).spec_next_ts(),
                            w,
                        ))
                        &&& final(self).spec_next_ts() == old(self).spec_next_ts() + 1
                    }
                },
            },
    {
        if self.wal.is_none() {
            return Ok(());
        }
        if self.next_ts == u64::MAX {
            return Err(DBError::Other);
        }
        let w = self.wal.take().unwrap();
        let ghost old_segs = self.segments@;
        self.segments.push(Segment { ts: self.next_ts, data: w });
        proof {
            assert(self.seg_views() =~= seg_views_of(old_segs).push((
                self.next_ts,
                self.segments@.last().data@,
            )));
        }
        self.next_ts = self.next_ts + 1;
        self.active_wal_size = 0;
        proof {
            let pre = *old(self);
            let post = *self;
            assert(post.seg_views() == pre.seg_views().push((
                pre.spec_next_ts(),
                pre.wal_view()->Some_0,
            )));
            assert forall|i: int, j: int|
                0 <= i < j < post.seg_views().len() implies (#[trigger] post.seg_views()[i]).0 < (
            #[trigger] post.seg_views()[j]).0 by {
                if j < pre.seg_views().len() {
                    assert(pre.seg_views()[i].0 < pre.seg_views()[j].0);
                } else {
                    assert(post.seg_views()[j].0 == pre.spec_next_ts());
                    assert(pre.seg_views()[i].0 < pre.spec_next_ts());
                }
            }
            assert forall|i: int|
                0 <= i < post.seg_views().len() implies (#[trigger] post.seg_views()[i]).0
                < post.spec_next_ts() by {
                if i < pre.seg_views().len() {
                    assert(pre.seg_views()[i].0 < pre.spec_next_ts());
                }
            }
        }
        Ok(())
    }

    /// Append one frame to the active WAL, rotating first when the WAL
    /// would reach the size cap, and creating the WAL when absent.
    fn append_to_file(&mut self, data: Vec<u8>) -> (r: Result<(), DBError>)
        requires
            old(self).wf(),
            data@.len() <= MAX_RECORD_SIZE as int + 4,
        ensures
            final(self).wf(),
            append_transition(*old(self), *final(self), data@, r),
    {
        let ghost pre = *old(self);
        let mut data = data;
        let ghost d0 = data@;
        let flen = data.len();
        let rotating = (self.active_wal_size as u128) + (flen as u128) >= (MAX_WAL_SIZE as u128);
        if rotating {
            match self.rotate_wal() {
                Ok(()) => {},
                Err(e) => {
                    return Err(e);
                },
            }
            proof {
                assert(self.wal_view() is None ==> self.wal_size() == 0);
                assert(self.wal_size() == 0);
            }
        }
        let ghost mid = *self;
        let mut w: Vec<u8> = match self.wal.take() {
            Some(w0) => w0,
            None => Vec::new(),
        };
        let ghost w_pre = w@;
        proof {
            assert(w_pre == mid.wal_bytes());
            assert(mid.wal_size() == w_pre.len());
        }
        w.append(&mut data);
        self.wal = Some(w);
        self.active_wal_size = self.active_wal_size + flen as u64;
        proof {
            assert(self.wal_view() == Some(w_pre + d0));
            assert(self.wal_size() == mid.wal_size() + flen);
            if rotating {
                assert(w_pre =~= Seq::<u8>::empty());
                assert(w_pre + d0 =~= d0);
                assert(self.wal_view() == Some(d0));
            } else {
                assert(mid == pre);
                assert(w_pre == pre.wal_bytes());
            }
            assert(mid.wf());
            assert(self.seg_views() == mid.seg_views());
            assert(self.spec_next_ts() == mid.spec_next_ts());
        }
        Ok(())
    }

    /// Append a `Set` record for a key and value.
    pub fn set(&mut self, key: Vec<u8>, value: Vec<u8>) -> (r: Result<(), DBError>)
        requires
            old(self).wf(),
            9 + key@.len() + value@.len() <= MAX_RECORD_SIZE,
        ensures
            final(self).wf(),
            append_transition(
                *old(self),
                *final(self),
                frame_bytes(set_record(key@, value@)),
                r,
            ),
    {
        let record = Record::new(Action::Put, key, value);
        let frame = record.encode();
        self.append_to_file(frame)
    }

    /// Append a `Delete` tombstone for a key.
    pub fn delete(&mut self, key: Vec<u8>) -> (r: Result<(), DBError>)
        requires
            old(self).wf(),
            9 + key@.len() <= MAX_RECORD_SIZE,
        ensures
            final(self).wf(),
            append_transition(*old(self), *final(self), frame_bytes(delete_record(key@)), r),
    {
        let record = Record::new(Action::Delete, key, Vec::new());
        let frame = record.encode();
        self.append_to_file(frame)
    }

    /// Read everything: segments oldest first, then the active WAL.
    pub fn iter_all(&self) -> (it: MultiFileRecordIter)
        ensures
            it.wf(),
            it.remaining() == self.all_items(),
    {
        let mut files: Vec<Vec<u8>> = Vec::new();
        let mut i: usize = 0;
        proof {
            assert(datas(files@) =~= self.files().take(0));
        }
        while i < self.segments.len()
            invariant
                i <= self.segments@.len(),
                self.files().len() == self.seg_views().len() + 1,
                self.seg_views().len() == self.segments@.len(),
                datas(files@) == self.files().take(i as int),
            decreases self.segments@.len() - i,
        {
            let ghost fv = files@;
            files.push(copy_bytes(&self.segments[i].data));
            proof {
                assert(datas(files@) =~= datas(fv).push(self.segments@[i as int].data@));
                assert(self.files()[i as int] == self.segments@[i as int].data@);
                assert(datas(files@) =~= self.files().take(i as int + 1));
            }
            i = i + 1;
        }
        let ghost fv = files@;
        match &self.wal {
            Some(w) => {
                files.push(copy_bytes(w));
            },
            None => {
                files.push(Vec::new());
            },
        }
        proof {
            assert(datas(files@) =~= datas(fv).push(self.wal_bytes()));
            assert(self.files()[self.seg_views().len() as int] == self.wal_bytes());
            assert(datas(files@) =~= self.files());
        }
        MultiFileRecordIter::new(files)
    }

    /// Atomically replace all on-disk state with one consolidated file
    /// holding a `Set` record per pair of the snapshot, in entry order.
    /// Prior segments are gone afterwards; only the new WAL remains.
    pub fn write_all(&mut self, data: &Index) -> (r: Result<(), DBError>)
        requires
            old(self).wf(),
            data.wf(),
            bounded_pairs(data.pairs()),
        ensures
            final(self).wf(),
            r == Ok::<(), DBError>(()),
            final(self).spec_path() == old(self).spec_path(),
            final(self).spec_next_ts() == old(self).spec_next_ts(),
            final(self).seg_views() == Seq::<(u64, Seq<u8>)>::empty(),
            final(self).wal_view() == Some(rewrite_bytes(data.pairs())),
            final(self).wal_size() == rewrite_bytes(data.pairs()).len(),
    {
        let n = data.len();
        let mut out: Vec<u8> = Vec::new();
        let mut i: usize = 0;
        proof {
            assert(data.pairs().take(0) =~= Seq::<(Seq<u8>, Seq<u8>)>::empty());
            assert(out@ =~= rewrite_bytes(data.pairs().take(0)));
        }
        while i < n
            invariant
                i <= n,
                n == data.pairs().len(),
                bounded_pairs(data.pairs()),
                out@ == rewrite_bytes(data.pairs().take(i as int)),
            decreases n - i,
        {
            let e = data.entry_at(i);
            let record = Record::new(Action::Put, copy_bytes(&e.0), copy_bytes(&e.1));
            proof {
                assert(record@ == set_record(
                    data.pairs()[i as int].0,
                    data.pairs()[i as int].1,
                ));
            }
            let mut frame = record.encode();
            out.append(&mut frame);
            proof {
                assert(data.pairs().take(i as int + 1).drop_last() =~= data.pairs().take(
                    i as int,
                ));
                assert(data.pairs().take(i as int + 1).last() == data.pairs()[i as int]);
            }
            i = i + 1;
        }
        proof {
            assert(data.pairs().take(n as int) =~= data.pairs());
        }
        self.segments = Vec::new();
        self.active_wal_size = out.len() as u64;
        self.wal = Some(out);
        proof {
            assert(self.seg_views() =~= Seq::<(u64, Seq<u8>)>::empty());
        }
        Ok(())
    }

    /// How many frozen segments there are.
    pub fn segment_count(&self) -> (n: usize)
        ensures
            n == self.seg_views().len(),
    {
        self.segments.len()
    }

    /// The segment at a position, oldest first.
    pub fn segment_at(&self, i: usize) -> (s: &Segment)
        requires
            i < self.seg_views().len(),
        ensures
            (s.ts, s.data@) == self.seg_views()[i as int],
    {
        &self.segments[i]
    }

    /// The active WAL's bytes, if `wal.log` exists.
    pub fn wal_data(&self) -> (r: Option<&Vec<u8>>)
        ensures
            match r {
                Some(w) => self.wal_view() == Some(w@),
                None => self.wal_view() is None,
            },
    {
        match &self.wal {
            Some(w) => Some(w),
            None => None,
        }
    }
}

/// Order segments by timestamp, oldest first.
fn sort_segments(input: Vec<Segment>) -> (out: Vec<Segment>)
    requires
        forall|i: int, j: int|
            0 <= i < j < input@.len() ==> (#[trigger] input@[i]).ts != (#[trigger] input@[j]).ts,
    ensures
        seg_views_of(out@).to_multiset() == seg_views_of(input@).to_multiset(),
        forall|i: int, j: int|
            0 <= i < j < out@.len() ==> (#[trigger] out@[i]).ts < (#[trigger] out@[j]).ts,
{
    let ghost orig = input@;
    let mut rest = input;
    let mut out: Vec<Segment> = Vec::new();
    proof {
        assert(seg_views_of(out@) =~= Seq::<(u64, Seq<u8>)>::empty());
        seg_views_of(out@).to_multiset_ensures();
        assert(seg_views_of(out@).to_multiset() =~= Multiset::<(u64, Seq<u8>)>::empty());
        assert(seg_views_of(out@).to_multiset().add(seg_views_of(rest@).to_multiset())
            =~= seg_views_of(orig).to_multiset());
    }
    while rest.len() > 0
        invariant
            seg_views_of(out@).to_multiset().add(seg_views_of(rest@).to_multiset())
                == seg_views_of(orig).to_multiset(),
            forall|i: int, j: int|
                0 <= i < j < out@.len() ==> (#[trigger] out@[i]).ts < (#[trigger] out@[j]).ts,
            forall|i: int, j: int|
                0 <= i < out@.len() && 0 <= j < rest@.len() ==> (#[trigger] out@[i]).ts < (
                #[trigger] rest@[j]).ts,
            forall|i: int, j: int|
                0 <= i < j < rest@.len() ==> (#[trigger] rest@[i]).ts != (#[trigger] rest@[j]).ts,
        decreases rest@.len(),
    {
        let mut m: usize = 0;
        let mut k: usize = 1;
        while k < rest.len()
            invariant
                m < k <= rest@.len(),
                rest@.len() > 0,
                forall|j: int| 0 <= j < k ==> rest@[m as int].ts <= (#[trigger] rest@[j]).ts,
            decreases rest@.len() - k,
        {
            if rest[k].ts < rest[m].ts {
                m = k;
            }
            k = k + 1;
        }
        let ghost pre = rest@;
        let chosen = rest.remove(m);
        proof {
            pre.to_multiset_ensures();
            assert(rest@ =~= pre.remove(m as int));
            assert(seg_views_of(rest@) =~= seg_views_of(pre).remove(m as int));
            seg_views_of(pre).to_multiset_ensures();
            assert(seg_views_of(pre).remove(m as int).to_multiset() =~= seg_views_of(
                pre,
            ).to_multiset().remove(seg_views_of(pre)[m as int]));
        }
        let ghost out_pre = out@;
        out.push(chosen);
        proof {
            assert(out@ =~= out_pre.push(chosen));
            assert(seg_views_of(out@) =~= seg_views_of(out_pre).push((chosen.ts, chosen.data@)));
            seg_views_of(out_pre).to_multiset_ensures();
            assert(seg_views_of(out@).to_multiset() =~= seg_views_of(out_pre).to_multiset().insert(
                (chosen.ts, chosen.data@),
            ));
            assert(seg_views_of(out@).to_multiset().add(seg_views_of(rest@).to_multiset())
                =~= seg_views_of(orig).to_multiset());
            // the chosen minimum is strictly below everything left: timestamps
            // are pairwise distinct
            assert(forall|j: int|
                0 <= j < rest@.len() ==> chosen.ts < (#[trigger] rest@[j]).ts) by {
                assert(forall|j: int|
                    0 <= j < pre.len() && j != m ==> chosen.ts <= (#[trigger] pre[j]).ts
                        && chosen.ts != pre[j].ts);
            }
        }
    }
    proof {
        assert(seg_views_of(rest@) =~= Seq::<(u64, Seq<u8>)>::empty());
        assert(seg_views_of(rest@).to_multiset() =~= Multiset::<(u64, Seq<u8>)>::empty());
        assert(seg_views_of(out@).to_multiset().add(Multiset::<(u64, Seq<u8>)>::empty())
            =~= seg_views_of(out@).to_multiset());
    }
    out
}

} // verus!
