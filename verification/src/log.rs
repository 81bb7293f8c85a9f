//! The log: the append-only byte content of the engine's single file.
//!
//! The surrounding application owns the file handle, the advisory lock and
//! every read or write system call; this module holds the file's bytes and
//! the verified record logic over them — appending encoded records, reading
//! value bytes back, and replaying the whole content to rebuild the index.

use vstd::prelude::*;

use crate::codec::{be_u32, encode_u32_be, lemma_u32_be_round_trip, lemma_value_len_not_tombstone,
    record_bytes, u32_be, MAX_VALUE_LEN};
use crate::keydir::KeyDir;

verus! {

/// The engine's failures. I/O failures of the real file belong to the
/// application that owns the handle; these are the failures of the record
/// logic itself.
#[derive(Clone, Copy, Debug, PartialEq, Eq, Structural)]
pub enum Error {
    /// Replay hit a record that does not decode completely before the end
    /// of the file: a truncated header, key, or value region.
    Corrupt,
    /// A value read was asked for a range that lies beyond the end of the
    /// log.
    OutOfBounds,
    /// Compaction met a live record whose total encoded length does not
    /// fit the u32 length that the append path hands back.
    RecordTooLarge,
}

/// The view of an optional borrowed value.
pub open spec fn value_view(value: Option<&[u8]>) -> Option<Seq<u8>> {
    match value {
        Some(v) => Some(v@),
        None => None,
    }
}

/// Replays `data` from `pos` with the live-key locations accumulated so
/// far, yielding the final location map, or `None` when a record does not
/// decode completely before the end of the data.
///
/// A non-tombstone record inserts its key, pointing at its value bytes;
/// a tombstone removes its key. Later records win: last-writer-wins by
/// file position.
pub open spec fn replay(data: Seq<u8>, pos: int, acc: Map<Seq<u8>, (nat, nat)>) -> Option<
    Map<Seq<u8>, (nat, nat)>,
>
    decreases data.len() - pos,
{
    if pos == data.len() {
        Some(acc)
    } else if pos < 0 || pos + 8 > data.len() {
        None
    } else {
        let key_len = be_u32(data.subrange(pos, pos + 4));
        let tomb = data[pos + 4] >= 0x80;
        let value_len: int = if tomb {
            0
        } else {
            be_u32(data.subrange(pos + 4, pos + 8))
        };
        let value_pos = pos + 8 + key_len;
        if value_pos + value_len > data.len() {
            None
        } else {
            let key = data.subrange(pos + 8, value_pos);
            if tomb {
                replay(data, value_pos, acc.remove(key))
            } else {
                replay(
                    data,
                    value_pos + value_len,
                    acc.insert(key, (value_pos as nat, value_len as nat)),
                )
            }
        }
    }
}

/// The location map that a full replay of `data` yields.
pub open spec fn replay_locs(data: Seq<u8>) -> Option<Map<Seq<u8>, (nat, nat)>> {
    replay(data, 0, Map::empty())
}

/// A location map that fits its log: every recorded value region lies
/// within the first `n` bytes, and every value length fits the
/// non-tombstone range of the header's signed field.
pub open spec fn locs_wf(locs: Map<Seq<u8>, (nat, nat)>, n: nat) -> bool {
    forall|k: Seq<u8>|
        #[trigger] locs.contains_key(k) ==> locs[k].0 + locs[k].1 <= n && locs[k].1
            <= MAX_VALUE_LEN
}

/// Appending bytes to a log whose replay succeeds up to its end leaves the
/// replay of the old part unchanged and continues it into the new bytes.
pub proof fn lemma_replay_append(
    data: Seq<u8>,
    pos: int,
    acc: Map<Seq<u8>, (nat, nat)>,
    ext: Seq<u8>,
)
    requires
        0 <= pos <= data.len(),
        replay(data, pos, acc) is Some,
    ensures
        replay(data + ext, pos, acc) == replay(
            data + ext,
            data.len() as int,
            replay(data, pos, acc).unwrap(),
        ),
    decreases data.len() - pos,
{
    let big = data + ext;
    if pos == data.len() {
        // Nothing of `data` is left to replay; both sides continue from
        // the junction with the same accumulator.
    } else {
        assert(big.subrange(pos, pos + 4) =~= data.subrange(pos, pos + 4));
        assert(big.subrange(pos + 4, pos + 8) =~= data.subrange(pos + 4, pos + 8));
        assert(big[pos + 4] == data[pos + 4]);
        let key_len = be_u32(data.subrange(pos, pos + 4));
        let tomb = data[pos + 4] >= 0x80;
        let value_len: int = if tomb {
            0
        } else {
            be_u32(data.subrange(pos + 4, pos + 8))
        };
        let value_pos = pos + 8 + key_len;
        assert(value_pos + value_len <= data.len());
        assert(big.subrange(pos + 8, value_pos) =~= data.subrange(pos + 8, value_pos));
        let key = data.subrange(pos + 8, value_pos);
        if tomb {
            lemma_replay_append(data, value_pos, acc.remove(key), ext);
        } else {
            lemma_replay_append(
                data,
                value_pos + value_len,
                acc.insert(key, (value_pos as nat, value_len as nat)),
                ext,
            );
        }
    }
}

/// Appending one encoded record to a log whose replay succeeds updates the
/// replay result exactly as the record says: an insert pointing at the new
/// value bytes, or a removal for a tombstone.
pub proof fn lemma_replay_record(data: Seq<u8>, key: Seq<u8>, value: Option<Seq<u8>>)
    requires
        replay_locs(data) is Some,
        key.len() <= u32::MAX,
        value matches Some(v) ==> v.len() <= MAX_VALUE_LEN,
    ensures
        replay_locs(data + record_bytes(key, value)) == Some(
            match value {
                Some(v) => replay_locs(data).unwrap().insert(
                    key,
                    ((data.len() + 8 + key.len()) as nat, v.len() as nat),
                ),
                None => replay_locs(data).unwrap().remove(key),
            },
        ),
{
    let rec = record_bytes(key, value);
    let big = data + rec;
    lemma_replay_append(data, 0, Map::empty(), rec);
    let m = replay_locs(data).unwrap();
    let pos = data.len() as int;
    lemma_u32_be_round_trip(key.len() as u32);
    assert(big.subrange(pos, pos + 4) =~= u32_be(key.len() as u32));
    assert(be_u32(big.subrange(pos, pos + 4)) == key.len());
    let value_pos = pos + 8 + key.len();
    match value {
        Some(v) => {
            lemma_u32_be_round_trip(v.len() as u32);
            lemma_value_len_not_tombstone(v.len() as u32);
            assert(big.subrange(pos + 4, pos + 8) =~= u32_be(v.len() as u32));
            assert(big[pos + 4] == u32_be(v.len() as u32)[0]);
            assert(big[pos + 4] < 0x80);
            assert(big.subrange(pos + 8, value_pos) =~= key);
            assert(value_pos + v.len() == big.len());
            assert(replay(big, pos, m) == replay(
                big,
                big.len() as int,
                m.insert(key, (value_pos as nat, v.len() as nat)),
            ));
        },
        None => {
            assert(big[pos + 4] == 0xff);
            assert(value_pos == big.len());
            assert(big.subrange(pos + 8, value_pos) =~= key);
            assert(replay(big, pos, m) == replay(big, big.len() as int, m.remove(key)));
        },
    }
}

/// Appends the bytes of `src` to `dst`.
fn push_bytes(dst: &mut Vec<u8>, src: &[u8])
    ensures
        final(dst)@ == old(dst)@ + src@,
{
    let n: usize = src.len();
    let mut j: usize = 0;
    while j < n
        invariant
            0 <= j <= n,
            n == src@.len(),
            dst@ == old(dst)@ + src@.subrange(0, j as int),
        decreases n - j,
    {
        dst.push(*vstd::slice::slice_index_get(src, j));
        proof {
            assert(dst@ =~= old(dst)@ + src@.subrange(0, j + 1));
        }
        j = j + 1;
    }
    proof {
        assert(src@.subrange(0, n as int) =~= src@);
    }
}

/// The log file's byte content. The application mirrors every append to
/// the real file, so these bytes are exactly what a replay at the next
/// open will see.
pub struct Log {
    pub data: Vec<u8>,
}

impl Log {
    /// A log over the given file content; empty content for a fresh file.
    pub fn new(data: Vec<u8>) -> (r: Log)
        ensures
            r.data@ == data@,
    {
        Log { data }
    }

    /// Reads the `value_len` bytes that start at `value_pos`.
    pub fn read_value(&self, value_pos: u64, value_len: u32) -> (r: Result<Vec<u8>, Error>)
        ensures
            value_pos + value_len <= self.data@.len() ==> (r matches Ok(v) && v@
                == self.data@.subrange(value_pos as int, value_pos + value_len)),
            value_pos + value_len > self.data@.len() ==> r == Err::<Vec<u8>, Error>(
                Error::OutOfBounds,
            ),
    {
        let n: usize = self.data.len();
        if value_pos > n as u64 || value_len as u64 > n as u64 - value_pos {
            return Err(Error::OutOfBounds);
        }
        let start: usize = value_pos as usize;
        let len: usize = value_len as usize;
        let mut v: Vec<u8> = Vec::new();
        let mut j: usize = 0;
        while j < len
            invariant
                0 <= j <= len,
                start + len <= n,
                n == self.data@.len(),
                v@ == self.data@.subrange(start as int, start + j),
            decreases len - j,
        {
            v.push(self.data[start + j]);
            proof {
                assert(v@ =~= self.data@.subrange(start as int, start + j + 1));
            }
            j = j + 1;
        }
        Ok(v)
    }

    /// Appends one record for `key`: a tombstone when `value` is `None`,
    /// otherwise the value bytes. Returns the record's starting offset and
    /// its total encoded length.
    pub fn write_entry(&mut self, key: &[u8], value: Option<&[u8]>) -> (r: (u64, u32))
        requires
            key@.len() <= u32::MAX,
            value_view(value) matches Some(v) ==> v.len() <= MAX_VALUE_LEN,
            8 + key@.len() + (match value_view(value) {
                Some(v) => v.len(),
                None => 0,
            }) <= u32::MAX,
        ensures
            final(self).data@ == old(self).data@ + record_bytes(key@, value_view(value)),
            r.0 == old(self).data@.len(),
            r.1 == 8 + key@.len() + (match value_view(value) {
                Some(v) => v.len(),
                None => 0,
            }),
    {
        let offset: usize = self.data.len();
        let key_len: u32 = key.len() as u32;
        let header_key = encode_u32_be(key_len);
        push_bytes(&mut self.data, header_key.as_slice());
        match value {
            Some(v) => {
                let header_val = encode_u32_be(v.len() as u32);
                push_bytes(&mut self.data, header_val.as_slice());
            },
            None => {
                let tomb: [u8; 4] = [0xff, 0xff, 0xff, 0xff];
                proof {
                    assert(tomb@ =~= crate::codec::tombstone_bytes());
                }
                push_bytes(&mut self.data, tomb.as_slice());
            },
        }
        push_bytes(&mut self.data, key);
        let total: u32 = match value {
            Some(v) => {
                push_bytes(&mut self.data, v);
                8 + key_len + v.len() as u32
            },
            None => 8 + key_len,
        };
        proof {
            assert(self.data@ =~= old(self).data@ + record_bytes(key@, value_view(value)));
        }
        (offset as u64, total)
    }

    /// Replays the whole log to rebuild the index of live keys, exactly as
    /// `replay` describes; fails with `Corrupt` when a record does not
    /// decode completely before the end of the data.
    pub fn load_index(&self) -> (r: Result<KeyDir, Error>)
        ensures
            match r {
                Ok(kd) => {
                    &&& replay_locs(self.data@) == Some(kd.locs())
                    &&& kd.wf()
                    &&& locs_wf(kd.locs(), self.data@.len())
                },
                Err(e) => {
                    &&& e == Error::Corrupt
                    &&& replay_locs(self.data@) is None
                },
            },
    {
        let n: usize = self.data.len();
        let mut kd = KeyDir::new();
        let mut pos: usize = 0;
        while pos < n
            invariant
                0 <= pos <= n,
                n == self.data@.len(),
                kd.wf(),
                replay(self.data@, 0, Map::empty()) == replay(self.data@, pos as int, kd.locs()),
                locs_wf(kd.locs(), n as nat),
            decreases n - pos,
        {
            if n - pos < 8 {
                return Err(Error::Corrupt);
            }
            let key_len: u32 = crate::codec::decode_u32_be(
                self.data[pos],
                self.data[pos + 1],
                self.data[pos + 2],
                self.data[pos + 3],
            );
            proof {
                assert(seq![
                    self.data@[pos as int],
                    self.data@[pos + 1],
                    self.data@[pos + 2],
                    self.data@[pos + 3],
                ] =~= self.data@.subrange(pos as int, pos + 4));
            }
            let tomb: bool = self.data[pos + 4] >= 0x80;
            let value_len: u32 = if tomb {
                0
            } else {
                crate::codec::decode_u32_be(
                    self.data[pos + 4],
                    self.data[pos + 5],
                    self.data[pos + 6],
                    self.data[pos + 7],
                )
            };
            proof {
                if !tomb {
                    assert(seq![
                        self.data@[pos + 4],
                        self.data@[pos + 5],
                        self.data@[pos + 6],
                        self.data@[pos + 7],
                    ] =~= self.data@.subrange(pos + 4, pos + 8));
                    // The sign byte is below 0x80, so the decoded length
                    // stays within the non-tombstone range.
                    assert(value_len <= MAX_VALUE_LEN);
                }
            }
            if (key_len as u64) + (value_len as u64) > (n - pos - 8) as u64 {
                return Err(Error::Corrupt);
            }
            let value_pos: usize = pos + 8 + key_len as usize;
            let key = match self.read_value((pos + 8) as u64, key_len) {
                Ok(k) => k,
                Err(_) => {
                    proof {
                        assert(false);
                    }
                    return Err(Error::Corrupt);
                },
            };
            if tomb {
                kd.remove(key.as_slice());
                pos = value_pos;
            } else {
                kd.insert(key, value_pos as u64, value_len);
                pos = value_pos + value_len as usize;
            }
        }
        Ok(kd)
    }
}

} // verus!
