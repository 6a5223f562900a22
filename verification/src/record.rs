//! One log record and its on-disk frame.
//!
//! A frame is `<total_len: u32 little-endian><body: total_len bytes>`.
//! The body encodes the `(action, key, value)` triple in a deterministic,
//! self-describing form: a one-byte action tag (`Put`, the set action, is 0, `Delete` is 1),
//! the key length as a `u64` in little-endian, the key bytes, then the
//! value bytes.

use vstd::prelude::*;
use vstd::bytes::*;
use vstd::slice::slice_to_vec;
use crate::error::DBError;

verus! {

/// A frame whose declared body length exceeds this cap is corruption.
pub const MAX_RECORD_SIZE: u32 = 100 * 1024 * 1024;

/// What a log record does to its key.
#[derive(Clone, Copy, Debug, PartialEq, Eq, Structural)]
pub enum Action {
    Put,
    Delete,
}

/// One log record: an action applied to opaque key and value bytes.
/// `Delete` records carry an empty value.
#[derive(Debug)]
pub struct Record {
    pub action: Action,
    pub key: Vec<u8>,
    pub value: Vec<u8>,
}

/// The mathematical shape of a record: the same triple over byte sequences.
pub struct RecordView {
    pub action: Action,
    pub key: Seq<u8>,
    pub value: Seq<u8>,
}

impl View for Record {
    type V = RecordView;

    open spec fn view(&self) -> RecordView {
        RecordView { action: self.action, key: self.key@, value: self.value@ }
    }
}

/// The one-byte discriminant written for an action.
pub open spec fn action_tag(a: Action) -> u8 {
    match a {
        Action::Put => 0,
        Action::Delete => 1,
    }
}

/// Length of the encoded body: tag byte, eight key-length bytes, key, value.
pub open spec fn body_len(r: RecordView) -> int {
    9 + r.key.len() as int + r.value.len() as int
}

/// The encoded body of a record.
pub open spec fn body_bytes(r: RecordView) -> Seq<u8> {
    seq![action_tag(r.action)] + spec_u64_to_le_bytes(r.key.len() as u64) + r.key + r.value
}

/// The full on-disk frame: little-endian `u32` body length, then the body.
pub open spec fn frame_bytes(r: RecordView) -> Seq<u8> {
    spec_u32_to_le_bytes(body_len(r) as u32) + body_bytes(r)
}

/// Length of the full frame.
pub open spec fn frame_len(r: RecordView) -> int {
    4 + body_len(r)
}

/// Parsing a body back into a record; `None` when the body is malformed.
pub open spec fn decode_body(b: Seq<u8>) -> Option<RecordView> {
    if b.len() < 9 {
        None
    } else {
        let tag = b[0];
        let klen = spec_u64_from_le_bytes(b.subrange(1, 9)) as int;
        if tag != 0 && tag != 1 {
            None
        } else if b.len() < 9 + klen {
            None
        } else {
            Some(RecordView {
                action: if tag == 0 { Action::Put } else { Action::Delete },
                key: b.subrange(9, 9 + klen),
                value: b.subrange(9 + klen, b.len() as int),
            })
        }
    }
}

/// The error reported for a malformed body: an unrecognized action tag is a
/// structural violation, every other malformation is a decode failure.
pub open spec fn decode_body_err(b: Seq<u8>) -> DBError {
    if b.len() >= 9 && b[0] != 0 && b[0] != 1 {
        DBError::CorruptedFile
    } else {
        DBError::Decode
    }
}

/// Decoding inverts encoding.
pub proof fn lemma_body_roundtrip(r: RecordView)
    requires
        r.key.len() <= u64::MAX,
    ensures
        decode_body(body_bytes(r)) == Some(r),
{
    lemma_auto_spec_u64_to_from_le_bytes();
    let b = body_bytes(r);
    let klen = r.key.len() as int;
    assert(spec_u64_to_le_bytes(r.key.len() as u64).len() == 8);
    assert(b.len() == 9 + klen + r.value.len());
    assert(b[0] == action_tag(r.action));
    assert(b.subrange(1, 9) =~= spec_u64_to_le_bytes(r.key.len() as u64));
    assert(spec_u64_from_le_bytes(b.subrange(1, 9)) == r.key.len() as u64);
    assert(b.subrange(9, 9 + klen) =~= r.key);
    assert(b.subrange(9 + klen, b.len() as int) =~= r.value);
    assert(action_tag(r.action) == 0 ==> r.action == Action::Put);
    assert(action_tag(r.action) == 1 ==> r.action == Action::Delete);
}

impl Record {
    /// Bundle an action, key and value into a record.
    pub fn new(action: Action, key: Vec<u8>, value: Vec<u8>) -> (r: Record)
        ensures
            r@ == (RecordView { action: action, key: key@, value: value@ }),
    {
        Record { action, key, value }
    }

    /// Encode the record to a frame: length prefix, then the body.
    pub fn encode(&self) -> (out: Vec<u8>)
        requires
            body_len(self@) <= MAX_RECORD_SIZE,
        ensures
            out@ == frame_bytes(self@),
            out@.len() == frame_len(self@),
    {
        proof {
            lemma_auto_spec_u32_to_from_le_bytes();
            lemma_auto_spec_u64_to_from_le_bytes();
        }
        let blen: usize = 9 + self.key.len() + self.value.len();
        let mut out: Vec<u8> = u32_to_le_bytes(blen as u32);
        let tag: u8 = match self.action {
            Action::Put => 0,
            Action::Delete => 1,
        };
        out.push(tag);
        let klen_bytes: Vec<u8> = u64_to_le_bytes(self.key.len() as u64);
        out.extend_from_slice(klen_bytes.as_slice());
        out.extend_from_slice(self.key.as_slice());
        out.extend_from_slice(self.value.as_slice());
        proof {
            assert(out@ =~= frame_bytes(self@));
        }
        out
    }

    /// Decode a record from a body (the frame without its length prefix).
    pub fn decode(buf: &[u8]) -> (r: Result<Record, DBError>)
        ensures
            match decode_body(buf@) {
                Some(rv) => r matches Ok(rec) && rec@ == rv,
                None => r == Err::<Record, DBError>(decode_body_err(buf@)),
            },
    {
        proof {
            lemma_auto_spec_u64_to_from_le_bytes();
        }
        if buf.len() < 9 {
            return Err(DBError::Decode);
        }
        let tag: u8 = buf[0];
        if tag != 0 && tag != 1 {
            return Err(DBError::CorruptedFile);
        }
        let klen64: u64 = u64_from_le_bytes(&buf[1..9]);
        let rem: usize = buf.len() - 9;
        if klen64 > rem as u64 {
            return Err(DBError::Decode);
        }
        let klen: usize = klen64 as usize;
        let key: Vec<u8> = slice_to_vec(&buf[9..9 + klen]);
        let value: Vec<u8> = slice_to_vec(&buf[9 + klen..buf.len()]);
        let action = if tag == 0 {
            Action::Put
        } else {
            Action::Delete
        };
        let rec = Record { action, key, value };
        proof {
            let rv = decode_body(buf@)->Some_0;
            assert(rec@.key =~= rv.key);
            assert(rec@.value =~= rv.value);
        }
        Ok(rec)
    }
}

} // verus!
