//! Parsing a log file into its sequence of records.
//!
//! A log file is a run of frames laid end to end.  `file_items` is the
//! mathematical reading of one file: each element is either a decoded
//! record with its frame length, or the error found at that position.
//! Corruption — a short length prefix, a length above the record-size cap,
//! or a truncated body — is terminal for the file; a body that merely
//! fails to decode is reported and skipped.

use vstd::prelude::*;
use vstd::bytes::*;
use crate::error::DBError;
use crate::record::{
    Action, Record, RecordView, MAX_RECORD_SIZE, action_tag, body_bytes, body_len, decode_body,
    decode_body_err, frame_bytes, frame_len, lemma_body_roundtrip,
};

verus! {

/// One thing a log yields: a record and its frame's byte length, or the
/// error at that position.
pub type LogItem = Result<(RecordView, u32), DBError>;

/// The sequence of records and errors read from one file's bytes.
pub open spec fn file_items(b: Seq<u8>) -> Seq<LogItem>
    decreases b.len(),
{
    if b.len() == 0 {
        Seq::empty()
    } else if b.len() < 4 {
        seq![Err(DBError::CorruptedFile)]
    } else {
        let n = spec_u32_from_le_bytes(b.subrange(0, 4)) as int;
        if n > MAX_RECORD_SIZE {
            seq![Err(DBError::CorruptedFile)]
        } else if b.len() < 4 + n {
            seq![Err(DBError::CorruptedFile)]
        } else {
            let body = b.subrange(4, 4 + n);
            let rest = b.subrange(4 + n, b.len() as int);
            match decode_body(body) {
                Some(r) => seq![Ok((r, (4 + n) as u32))] + file_items(rest),
                None => seq![Err(decode_body_err(body))] + file_items(rest),
            }
        }
    }
}

/// A log is clean when reading it reports no error.
pub open spec fn clean_log(b: Seq<u8>) -> bool {
    forall|i: int| 0 <= i < file_items(b).len() ==> (#[trigger] file_items(b)[i]) is Ok
}

/// A clean, non-empty log starts with a complete, well-formed frame.
pub proof fn lemma_clean_first_frame(b: Seq<u8>)
    requires
        clean_log(b),
        b.len() > 0,
    ensures
        b.len() >= 4,
        spec_u32_from_le_bytes(b.subrange(0, 4)) <= MAX_RECORD_SIZE,
        b.len() >= 4 + spec_u32_from_le_bytes(b.subrange(0, 4)),
        decode_body(b.subrange(4, 4 + spec_u32_from_le_bytes(b.subrange(0, 4)) as int)) is Some,
        file_items(b) == seq![
            Ok::<(RecordView, u32), DBError>((
                decode_body(
                    b.subrange(4, 4 + spec_u32_from_le_bytes(b.subrange(0, 4)) as int),
                )->Some_0,
                (4 + spec_u32_from_le_bytes(b.subrange(0, 4))) as u32,
            )),
        ] + file_items(b.subrange(4 + spec_u32_from_le_bytes(b.subrange(0, 4)) as int, b.len() as int)),
        clean_log(b.subrange(4 + spec_u32_from_le_bytes(b.subrange(0, 4)) as int, b.len() as int)),
{
    if b.len() < 4 {
        assert(file_items(b)[0] is Ok);
        assert(false);
    }
    let n = spec_u32_from_le_bytes(b.subrange(0, 4)) as int;
    if n > MAX_RECORD_SIZE {
        assert(file_items(b)[0] is Ok);
        assert(false);
    }
    if b.len() < 4 + n {
        assert(file_items(b)[0] is Ok);
        assert(false);
    }
    let body = b.subrange(4, 4 + n);
    let rest = b.subrange(4 + n, b.len() as int);
    if decode_body(body) is None {
        assert(file_items(b)[0] is Err);
        assert(file_items(b)[0] is Ok);
        assert(false);
    }
    let r = decode_body(body)->Some_0;
    assert(file_items(b) == seq![Ok::<(RecordView, u32), DBError>((r, (4 + n) as u32))]
        + file_items(rest));
    assert forall|i: int| 0 <= i < file_items(rest).len() implies (#[trigger] file_items(
        rest,
    )[i]) is Ok by {
        assert(file_items(b)[i + 1] == file_items(rest)[i]);
        assert(file_items(b)[i + 1] is Ok);
    }
}

/// Reading a clean log followed by anything reads the clean log's records
/// and then whatever follows.
pub proof fn lemma_clean_log_extend(b: Seq<u8>, tail: Seq<u8>)
    requires
        clean_log(b),
    ensures
        file_items(b + tail) == file_items(b) + file_items(tail),
    decreases b.len(),
{
    if b.len() == 0 {
        assert(b + tail =~= tail);
        assert(file_items(b) + file_items(tail) =~= file_items(tail));
    } else {
        lemma_clean_first_frame(b);
        let n = spec_u32_from_le_bytes(b.subrange(0, 4)) as int;
        let body = b.subrange(4, 4 + n);
        let rest = b.subrange(4 + n, b.len() as int);
        let r = decode_body(body)->Some_0;
        let c = b + tail;
        assert(c.len() >= 4 + n);
        assert(c.subrange(0, 4) =~= b.subrange(0, 4));
        assert(c.subrange(4, 4 + n) =~= body);
        assert(c.subrange(4 + n, c.len() as int) =~= rest + tail);
        assert(file_items(c) == seq![Ok::<(RecordView, u32), DBError>((r, (4 + n) as u32))]
            + file_items(rest + tail));
        lemma_clean_log_extend(rest, tail);
        assert(seq![Ok::<(RecordView, u32), DBError>((r, (4 + n) as u32))] + (file_items(rest)
            + file_items(tail)) =~= (seq![Ok::<(RecordView, u32), DBError>((r, (4 + n) as u32))]
            + file_items(rest)) + file_items(tail));
    }
}

/// A single well-formed frame reads as exactly its one record.
pub proof fn lemma_frame_items(r: RecordView)
    requires
        body_len(r) <= MAX_RECORD_SIZE,
    ensures
        file_items(frame_bytes(r)) == seq![
            Ok::<(RecordView, u32), DBError>((r, frame_len(r) as u32)),
        ],
        clean_log(frame_bytes(r)),
{
    lemma_auto_spec_u32_to_from_le_bytes();
    lemma_auto_spec_u64_to_from_le_bytes();
    let b = frame_bytes(r);
    let blen = body_len(r);
    assert(spec_u64_to_le_bytes(r.key.len() as u64).len() == 8);
    assert(spec_u32_to_le_bytes(blen as u32).len() == 4);
    assert(body_bytes(r).len() == blen);
    assert(b.len() == 4 + blen);
    assert(b.subrange(0, 4) =~= spec_u32_to_le_bytes(blen as u32));
    assert(spec_u32_from_le_bytes(b.subrange(0, 4)) == blen as u32);
    let n = spec_u32_from_le_bytes(b.subrange(0, 4)) as int;
    assert(n == blen);
    assert(b.subrange(4, 4 + n) =~= body_bytes(r));
    lemma_body_roundtrip(r);
    assert(decode_body(b.subrange(4, 4 + n)) == Some(r));
    let rest = b.subrange(4 + n, b.len() as int);
    assert(rest =~= Seq::<u8>::empty());
    assert(file_items(rest) =~= Seq::<LogItem>::empty());
    assert(file_items(b) =~= seq![Ok::<(RecordView, u32), DBError>((r, frame_len(r) as u32))]);
}

/// Appending a well-formed frame to a clean log appends its one record to
/// what the log reads as, and keeps the log clean.
pub proof fn lemma_clean_log_append_frame(b: Seq<u8>, r: RecordView)
    requires
        clean_log(b),
        body_len(r) <= MAX_RECORD_SIZE,
    ensures
        file_items(b + frame_bytes(r)) == file_items(b) + seq![
            Ok::<(RecordView, u32), DBError>((r, frame_len(r) as u32)),
        ],
        clean_log(b + frame_bytes(r)),
{
    lemma_clean_log_extend(b, frame_bytes(r));
    lemma_frame_items(r);
    let c = b + frame_bytes(r);
    assert forall|i: int| 0 <= i < file_items(c).len() implies (#[trigger] file_items(c)[i]) is Ok
        by {
        if i < file_items(b).len() {
            assert(file_items(c)[i] == file_items(b)[i]);
        } else {
            assert(file_items(c)[i] == Ok::<(RecordView, u32), DBError>((
                r,
                frame_len(r) as u32,
            )));
        }
    }
}

/// The total on-disk bytes of a run of read records: each record counts
/// its reported frame length.
pub open spec fn items_frame_sum(items: Seq<LogItem>) -> int
    decreases items.len(),
{
    if items.len() == 0 {
        0
    } else {
        (match items[0] {
            Ok(p) => p.1 as int,
            Err(_) => 0,
        }) + items_frame_sum(items.drop_first())
    }
}

/// The frame lengths a clean log reads as add up to the log's byte length.
pub proof fn lemma_clean_log_frame_sum(b: Seq<u8>)
    requires
        clean_log(b),
    ensures
        items_frame_sum(file_items(b)) == b.len(),
    decreases b.len(),
{
    if b.len() > 0 {
        lemma_clean_first_frame(b);
        let n = spec_u32_from_le_bytes(b.subrange(0, 4)) as int;
        let rest = b.subrange(4 + n, b.len() as int);
        lemma_clean_log_frame_sum(rest);
        assert(file_items(b).drop_first() =~= file_items(rest));
        assert(file_items(b)[0] matches Ok(p) && p.1 == (4 + n) as u32);
        assert(items_frame_sum(file_items(b)) == (4 + n) + items_frame_sum(file_items(rest)));
    }
}

/// Every record a file reads as came out of one well-formed frame: its
/// body fits the record-size cap and the reported length is the frame's.
pub proof fn lemma_file_items_bounded(b: Seq<u8>)
    ensures
        forall|k: int|
            0 <= k < file_items(b).len() ==> match #[trigger] file_items(b)[k] {
                Ok(p) => body_len(p.0) <= MAX_RECORD_SIZE && p.1 == frame_len(p.0),
                Err(_) => true,
            },
    decreases b.len(),
{
    if b.len() == 0 {
    } else if b.len() < 4 {
    } else {
        let n = spec_u32_from_le_bytes(b.subrange(0, 4)) as int;
        if n > MAX_RECORD_SIZE {
        } else if b.len() < 4 + n {
        } else {
            let body = b.subrange(4, 4 + n);
            let rest = b.subrange(4 + n, b.len() as int);
            lemma_file_items_bounded(rest);
            if decode_body(body) is Some {
                let r = decode_body(body)->Some_0;
                assert(body_len(r) == n);
                assert(file_items(b) == seq![Ok::<(RecordView, u32), DBError>((r, (4 + n) as u32))]
                    + file_items(rest));
                assert forall|k: int| 0 <= k < file_items(b).len() implies match #[trigger] file_items(
                    b,
                )[k] {
                    Ok(p) => body_len(p.0) <= MAX_RECORD_SIZE && p.1 == frame_len(p.0),
                    Err(_) => true,
                } by {
                    if k > 0 {
                        assert(file_items(b)[k] == file_items(rest)[k - 1]);
                    }
                }
            } else {
                assert forall|k: int| 0 <= k < file_items(b).len() implies match #[trigger] file_items(
                    b,
                )[k] {
                    Ok(p) => body_len(p.0) <= MAX_RECORD_SIZE && p.1 == frame_len(p.0),
                    Err(_) => true,
                } by {
                    if k > 0 {
                        assert(file_items(b)[k] == file_items(rest)[k - 1]);
                    }
                }
            }
        }
    }
}

/// A frame whose declared length exceeds the record-size cap reads as a
/// corruption error at its position, after the clean records before it.
pub proof fn lemma_oversize_frame_corrupts(b: Seq<u8>, tail: Seq<u8>)
    requires
        clean_log(b),
        tail.len() >= 4,
        spec_u32_from_le_bytes(tail.subrange(0, 4)) > MAX_RECORD_SIZE,
    ensures
        file_items(b + tail) == file_items(b) + seq![
            Err::<(RecordView, u32), DBError>(DBError::CorruptedFile),
        ],
{
    lemma_clean_log_extend(b, tail);
    assert(file_items(tail) =~= seq![Err::<(RecordView, u32), DBError>(DBError::CorruptedFile)]);
}

/// A truncated tail — nonzero bytes short of one complete frame — reads as
/// a corruption error at its position, after the clean records before it.
pub proof fn lemma_truncated_tail_corrupts(b: Seq<u8>, tail: Seq<u8>)
    requires
        clean_log(b),
        tail.len() > 0,
        tail.len() < 4 || (spec_u32_from_le_bytes(tail.subrange(0, 4)) <= MAX_RECORD_SIZE
            && tail.len() < 4 + spec_u32_from_le_bytes(tail.subrange(0, 4))),
    ensures
        file_items(b + tail) == file_items(b) + seq![
            Err::<(RecordView, u32), DBError>(DBError::CorruptedFile),
        ],
{
    lemma_clean_log_extend(b, tail);
    assert(file_items(tail) =~= seq![Err::<(RecordView, u32), DBError>(DBError::CorruptedFile)]);
}

/// Lazy reader of one log file's bytes.
///
/// `next` yields each record with its frame length; corruption ends the
/// iteration after the error is reported once, while a body that fails to
/// decode is reported and skipped.  A missing file is represented by empty
/// bytes and yields nothing.
pub struct RecordIter {
    data: Vec<u8>,
    pos: usize,
    failed: bool,
}

impl RecordIter {
    /// The reader's position never passes the end of its bytes.
    pub closed spec fn wf(self) -> bool {
        self.pos <= self.data@.len()
    }

    /// What is still to be yielded.
    pub closed spec fn remaining(self) -> Seq<LogItem> {
        if self.failed {
            Seq::empty()
        } else {
            file_items(self.data@.skip(self.pos as int))
        }
    }

    /// Start reading a file's bytes from the beginning.
    pub fn new(data: Vec<u8>) -> (it: RecordIter)
        ensures
            it.wf(),
            it.remaining() == file_items(data@),
    {
        let it = RecordIter { data, pos: 0, failed: false };
        proof {
            assert(it.data@.skip(0) =~= it.data@);
        }
        it
    }

    /// Read the next record, or the error at the current position.
    pub fn next(&mut self) -> (r: Option<Result<(Record, u32), DBError>>)
        requires
            old(self).wf(),
        ensures
            final(self).wf(),
            ({
                let rem = old(self).remaining();
                &&& rem.len() == 0 ==> r is None && final(self).remaining()
                    == Seq::<LogItem>::empty()
                &&& rem.len() > 0 ==> {
                    &&& final(self).remaining() == rem.drop_first()
                    &&& match rem[0] {
                        Ok(p) => r matches Some(Ok(q)) && q.0@ == p.0 && q.1 == p.1,
                        Err(e) => r == Some(Err::<(Record, u32), DBError>(e)),
                    }
                }
            }),
    {
        if self.failed {
            return None;
        }
        let len = self.data.len();
        if self.pos == len {
            proof {
                assert(self.data@.skip(self.pos as int) =~= Seq::<u8>::empty());
            }
            return None;
        }
        let ghost tail = self.data@.skip(self.pos as int);
        proof {
            assert(tail.len() == len - self.pos);
        }
        if len - self.pos < 4 {
            self.failed = true;
            proof {
                assert(file_items(tail) =~= seq![Err::<(RecordView, u32), DBError>(
                    DBError::CorruptedFile,
                )]);
            }
            return Some(Err(DBError::CorruptedFile));
        }
        let n32: u32 = u32_from_le_bytes(&self.data[self.pos..self.pos + 4]);
        proof {
            assert(self.data@.subrange(self.pos as int, self.pos as int + 4) =~= tail.subrange(
                0,
                4,
            ));
            assert(spec_u32_from_le_bytes(tail.subrange(0, 4)) == n32);
        }
        if n32 > MAX_RECORD_SIZE {
            self.failed = true;
            proof {
                assert(file_items(tail) =~= seq![Err::<(RecordView, u32), DBError>(
                    DBError::CorruptedFile,
                )]);
            }
            return Some(Err(DBError::CorruptedFile));
        }
        let n = n32 as usize;
        if len - self.pos - 4 < n {
            self.failed = true;
            proof {
                assert(tail.len() < 4 + n as int);
                assert(file_items(tail) =~= seq![Err::<(RecordView, u32), DBError>(
                    DBError::CorruptedFile,
                )]);
            }
            return Some(Err(DBError::CorruptedFile));
        }
        let body_start = self.pos + 4;
        let decoded = Record::decode(&self.data[body_start..body_start + n]);
        proof {
            assert(self.data@.subrange(body_start as int, body_start as int + n as int)
                =~= tail.subrange(4, 4 + n as int));
        }
        self.pos = body_start + n;
        proof {
            let n_int = n as int;
            let body = tail.subrange(4, 4 + n_int);
            let rest = tail.subrange(4 + n_int, tail.len() as int);
            assert(self.data@.skip(self.pos as int) =~= rest);
            match decode_body(body) {
                Some(rv) => {
                    assert(file_items(tail) == seq![Ok::<(RecordView, u32), DBError>((
                        rv,
                        (4 + n_int) as u32,
                    ))] + file_items(rest));
                    assert(file_items(tail).drop_first() =~= file_items(rest));
                    assert((4 + n_int) as u32 == 4 + n32);
                },
                None => {
                    assert(file_items(tail) == seq![Err::<(RecordView, u32), DBError>(
                        decode_body_err(body),
                    )] + file_items(rest));
                    assert(file_items(tail).drop_first() =~= file_items(rest));
                },
            }
        }
        match decoded {
            Ok(record) => Some(Ok((record, 4 + n32))),
            Err(e) => Some(Err(e)),
        }
    }
}

/// The views of a list of files' bytes.
pub open spec fn datas(fs: Seq<Vec<u8>>) -> Seq<Seq<u8>> {
    fs.map_values(|f: Vec<u8>| f@)
}

/// What a list of files reads as: each file's records in turn.
pub open spec fn files_items(fs: Seq<Seq<u8>>) -> Seq<LogItem>
    decreases fs.len(),
{
    if fs.len() == 0 {
        Seq::empty()
    } else {
        file_items(fs[0]) + files_items(fs.drop_first())
    }
}

/// Adding one more file at the end reads as the earlier files, then it.
pub proof fn lemma_files_items_snoc(fs: Seq<Seq<u8>>, x: Seq<u8>)
    ensures
        files_items(fs.push(x)) == files_items(fs) + file_items(x),
    decreases fs.len(),
{
    if fs.len() == 0 {
        assert(fs.push(x)[0] == x);
        assert(fs.push(x).drop_first() =~= Seq::<Seq<u8>>::empty());
        assert(files_items(Seq::<Seq<u8>>::empty()) == Seq::<LogItem>::empty());
        assert(files_items(fs.push(x)) =~= file_items(x));
        assert(files_items(fs) + file_items(x) =~= file_items(x));
    } else {
        assert(fs.push(x)[0] == fs[0]);
        assert(fs.push(x).drop_first() =~= fs.drop_first().push(x));
        lemma_files_items_snoc(fs.drop_first(), x);
        assert(file_items(fs[0]) + (files_items(fs.drop_first()) + file_items(x)) =~= (file_items(
            fs[0],
        ) + files_items(fs.drop_first())) + file_items(x));
    }
}

/// When a run of files reads without error, each file is a clean log.
pub proof fn lemma_files_items_all_ok_clean(fs: Seq<Seq<u8>>)
    requires
        forall|k: int| 0 <= k < files_items(fs).len() ==> (#[trigger] files_items(fs)[k]) is Ok,
    ensures
        forall|i: int| 0 <= i < fs.len() ==> clean_log(#[trigger] fs[i]),
    decreases fs.len(),
{
    if fs.len() > 0 {
        assert(files_items(fs) == file_items(fs[0]) + files_items(fs.drop_first()));
        assert forall|k: int| 0 <= k < file_items(fs[0]).len() implies (#[trigger] file_items(
            fs[0],
        )[k]) is Ok by {
            assert(files_items(fs)[k] == file_items(fs[0])[k]);
        }
        assert forall|k: int|
            0 <= k < files_items(fs.drop_first()).len() implies (#[trigger] files_items(
            fs.drop_first(),
        )[k]) is Ok by {
            assert(files_items(fs)[k + file_items(fs[0]).len()] == files_items(fs.drop_first())[k]);
        }
        lemma_files_items_all_ok_clean(fs.drop_first());
        assert forall|i: int| 0 <= i < fs.len() implies clean_log(#[trigger] fs[i]) by {
            if i > 0 {
                assert(fs.drop_first()[i - 1] == fs[i]);
            }
        }
    }
}

/// Reader over several files' bytes, oldest first, laid end to end.
///
/// A file's terminal error does not stop the files after it; the caller
/// chooses whether to go on.
pub struct MultiFileRecordIter {
    pending: Vec<Vec<u8>>,
    current: RecordIter,
}

impl MultiFileRecordIter {
    /// The current reader is well formed.
    pub closed spec fn wf(self) -> bool {
        self.current.wf()
    }

    /// What is still to be yielded: the rest of the current file, then the
    /// pending files.
    pub closed spec fn remaining(self) -> Seq<LogItem> {
        self.current.remaining() + files_items(datas(self.pending@))
    }

    /// Take the next pending file as the current reader.
    fn open_next(pending: &mut Vec<Vec<u8>>) -> (it: RecordIter)
        ensures
            it.wf(),
            old(pending)@.len() == 0 ==> it.remaining() == Seq::<LogItem>::empty()
                && final(pending)@ == old(pending)@,
            old(pending)@.len() > 0 ==> it.remaining() == file_items(old(pending)@[0]@)
                && final(pending)@ == old(pending)@.drop_first(),
    {
        if pending.len() == 0 {
            let it = RecordIter::new(Vec::new());
            proof {
                assert(file_items(Seq::<u8>::empty()) == Seq::<LogItem>::empty());
            }
            it
        } else {
            let first = pending.remove(0);
            proof {
                assert(pending@ =~= old(pending)@.drop_first());
            }
            RecordIter::new(first)
        }
    }

    /// Start reading a list of files, first file first.
    pub fn new(files: Vec<Vec<u8>>) -> (it: MultiFileRecordIter)
        ensures
            it.wf(),
            it.remaining() == files_items(datas(files@)),
    {
        let ghost orig = files@;
        let mut pending = files;
        let current = Self::open_next(&mut pending);
        let it = MultiFileRecordIter { pending, current };
        proof {
            if orig.len() == 0 {
                assert(datas(orig).len() == 0);
                assert(it.remaining() =~= files_items(datas(orig)));
            } else {
                assert(datas(it.pending@) =~= datas(orig).drop_first());
                assert(datas(orig)[0] == orig[0]@);
                assert(it.remaining() =~= files_items(datas(orig)));
            }
        }
        it
    }

    /// Read the next record or error, moving to the next file when the
    /// current one is exhausted.
    pub fn next(&mut self) -> (r: Option<Result<(Record, u32), DBError>>)
        requires
            old(self).wf(),
        ensures
            final(self).wf(),
            ({
                let rem = old(self).remaining();
                &&& rem.len() == 0 ==> r is None && final(self).remaining()
                    == Seq::<LogItem>::empty()
                &&& rem.len() > 0 ==> {
                    &&& final(self).remaining() == rem.drop_first()
                    &&& match rem[0] {
                        Ok(p) => r matches Some(Ok(q)) && q.0@ == p.0 && q.1 == p.1,
                        Err(e) => r == Some(Err::<(Record, u32), DBError>(e)),
                    }
                }
            }),
    {
        loop
            invariant
                self.wf(),
                self.remaining() == old(self).remaining(),
            decreases self.pending@.len(),
        {
            let ghost orig_rem = self.remaining();
            let ghost cur_rem = self.current.remaining();
            let item = self.current.next();
            match item {
                Some(x) => {
                    proof {
                        assert(cur_rem.len() > 0);
                        assert(orig_rem[0] == cur_rem[0]);
                        assert(self.remaining() =~= orig_rem.drop_first());
                    }
                    return Some(x);
                },
                None => {
                    proof {
                        assert(cur_rem.len() == 0);
                        assert(orig_rem =~= files_items(datas(self.pending@)));
                    }
                    if self.pending.len() == 0 {
                        proof {
                            assert(datas(self.pending@).len() == 0);
                            assert(orig_rem =~= Seq::<LogItem>::empty());
                        }
                        return None;
                    }
                    let ghost pend = self.pending@;
                    self.current = Self::open_next(&mut self.pending);
                    proof {
                        assert(datas(self.pending@) =~= datas(pend).drop_first());
                        assert(datas(pend)[0] == pend[0]@);
                        assert(self.remaining() =~= files_items(datas(pend)));
                    }
                },
            }
        }
    }
}

} // verus!
