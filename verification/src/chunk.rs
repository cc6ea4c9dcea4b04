//! Log chunks: bounded segments of the event log.
//!
//! A chunk file is a fixed-size header followed by records.  The header
//! carries a digest of the whole file computed with the digest field itself
//! zero-filled; the digest is rewritten in place on every flush.
use crate::codec::{
    body_of, copy_bytes, copy_range, decode_event, encode_event, lemma_body_cat, lemma_body_push,
    lemma_encode_parse, lemma_encode_shape, lemma_parse_records_sound, lemma_parse_sound,
    parse_records, read_u32_at, record_fits, spec_encode_event, spec_record, views_of,
    Event, EventV,
};
use crate::hashing::{sha256, sha256_of};
use crate::MAX_CHUNK_SIZE;
use crate::StoreError;
use vstd::bytes::*;
use vstd::prelude::*;

verus! {

/// On-disk size of a chunk header in bytes: a 32-byte digest, a version
/// byte, and an 8-byte timestamp.
pub const HEADER_SIZE: u32 = 41;

/// Version written into new chunk headers.
pub const HEADER_VERSION: u8 = 1;

/// The fixed-layout header of a chunk file.
#[derive(Debug)]
pub struct ChunkHeader {
    pub hash: Vec<u8>,
    pub version: u8,
    pub timestamp: i64,
}

/// The encoded form of a chunk header.
pub open spec fn spec_header_bytes(hash: Seq<u8>, version: u8, timestamp: i64) -> Seq<u8> {
    hash + seq![version] + spec_u64_to_le_bytes(timestamp as u64)
}

/// A 32-byte vector of zeroes: the digest field before it is computed.
pub(crate) fn zeroes32() -> (r: Vec<u8>)
    ensures
        r@ == Seq::new(32, |i: int| 0u8),
{
    let mut r: Vec<u8> = Vec::new();
    let mut i: usize = 0;
    while i < 32
        invariant
            0 <= i <= 32,
            r@.len() == i,
            forall|j: int| 0 <= j < i ==> r@[j] == 0u8,
        decreases 32 - i,
    {
        r.push(0u8);
        i = i + 1;
    }
    proof {
        assert(r@ =~= Seq::new(32, |i: int| 0u8));
    }
    r
}

/// Encode a header into its on-disk bytes.
pub fn encode_header(h: &ChunkHeader) -> (r: Vec<u8>)
    requires
        h.hash@.len() == 32,
    ensures
        r@ == spec_header_bytes(h.hash@, h.version, h.timestamp),
        r@.len() == HEADER_SIZE,
{
    let mut r = copy_bytes(&h.hash);
    r.push(h.version);
    let mut ts = u64_to_le_bytes(h.timestamp as u64);
    r.append(&mut ts);
    proof {
        lemma_auto_spec_u64_to_from_le_bytes();
        assert(r@ =~= spec_header_bytes(h.hash@, h.version, h.timestamp));
    }
    r
}

impl ChunkHeader {
    /// The on-disk size of a header, found by encoding one and measuring.
    pub fn size_of() -> (r: u32)
        ensures
            r == HEADER_SIZE,
    {
        let header = ChunkHeader {
            hash: zeroes32(),
            version: HEADER_VERSION,
            timestamp: crate::clock::now_seconds(),
        };
        let encoded = encode_header(&header);
        encoded.len() as u32
    }
}

/// The bytes with the digest field replaced by zeroes: the form the digest
/// is computed over.
pub open spec fn zero_digest(bs: Seq<u8>) -> Seq<u8> {
    Seq::new(32, |i: int| 0u8) + bs.skip(32)
}

/// The bytes with the digest field rewritten to match the contents.
pub open spec fn with_digest(bs: Seq<u8>) -> Seq<u8> {
    sha256_of(zero_digest(bs)) + bs.skip(32)
}

/// The stored digest matches the contents.
pub open spec fn digest_ok(bs: Seq<u8>) -> bool {
    &&& bs.len() >= HEADER_SIZE
    &&& bs.subrange(0, 32) == sha256_of(zero_digest(bs))
}

/// The bytes are a chunk image whose records are exactly `evs`.
pub open spec fn is_image(bs: Seq<u8>, evs: Seq<EventV>) -> bool {
    &&& HEADER_SIZE <= bs.len() <= MAX_CHUNK_SIZE
    &&& bs.skip(HEADER_SIZE as int) == body_of(evs)
    &&& forall|k: int| 0 <= k < evs.len() ==> record_fits(#[trigger] evs[k])
}

/// Byte offset, from the start of the file, of the `k`-th record of a chunk
/// holding the events `evs`.
pub open spec fn record_start(evs: Seq<EventV>, k: int) -> int {
    HEADER_SIZE + body_of(evs.take(k)).len()
}

/// The bytes of one chunk file, keyed by its id.
#[derive(Clone)]
pub struct ChunkFile {
    pub id: u32,
    pub bytes: Vec<u8>,
}

/// Signalled when a record does not fit in the active chunk; handled by
/// rotation, never surfaced to callers.
pub enum ChunkError {
    NoSpace,
}

/// One segment of the log: the full image of its file, the byte offset of
/// each record, and the bytes still free under the size limit.
pub struct LogChunk {
    pub id: u32,
    pub offsets: Vec<u32>,
    pub available: u32,
    pub bytes: Vec<u8>,
    pub events: Ghost<Seq<EventV>>,
}

impl LogChunk {
    /// Internal consistency: the image holds exactly the records of
    /// `events`, and `offsets` point at them.
    pub open spec fn wf(self) -> bool {
        &&& self.bytes@.len() == MAX_CHUNK_SIZE - self.available
        &&& self.available <= MAX_CHUNK_SIZE - HEADER_SIZE
        &&& is_image(self.bytes@, self.events@)
        &&& self.offsets@.len() == self.events@.len()
        &&& forall|k: int|
            0 <= k < self.events@.len() ==> self.offsets@[k] == record_start(self.events@, k)
    }

    /// Create a fresh, empty chunk: a header whose digest covers the
    /// zero-filled digest field, and no records.
    pub fn new(id: u32) -> (c: Self)
        ensures
            c.wf(),
            c.id == id,
            c.events@ == Seq::<EventV>::empty(),
            c.bytes@.len() == HEADER_SIZE,
            c.bytes@[32] == HEADER_VERSION,
            c.available == MAX_CHUNK_SIZE - HEADER_SIZE,
            digest_ok(c.bytes@),
    {
        let mut header = ChunkHeader {
            hash: zeroes32(),
            version: HEADER_VERSION,
            timestamp: crate::clock::now_seconds(),
        };
        let zero_form = encode_header(&header);
        let digest = sha256(&zero_form);
        header.hash = digest;
        let bytes = encode_header(&header);
        proof {
            assert(zero_digest(bytes@) =~= zero_form@);
            assert(bytes@.subrange(0, 32) =~= sha256_of(zero_digest(bytes@)));
            assert(bytes@[32] == HEADER_VERSION);
            assert(bytes@.skip(HEADER_SIZE as int) =~= Seq::<u8>::empty());
            assert(body_of(Seq::<EventV>::empty()) == Seq::<u8>::empty());
        }
        let available = MAX_CHUNK_SIZE - (bytes.len() as u32);
        LogChunk { id, offsets: Vec::new(), available, bytes, events: Ghost(Seq::empty()) }
    }

    /// Recompute the digest over the current contents and rewrite the
    /// header's digest field in place.
    pub fn flush_chunk(&mut self)
        requires
            old(self).wf(),
        ensures
            final(self).wf(),
            final(self).id == old(self).id,
            final(self).offsets@ == old(self).offsets@,
            final(self).available == old(self).available,
            final(self).events@ == old(self).events@,
            final(self).bytes@ == with_digest(old(self).bytes@),
            digest_ok(final(self).bytes@),
    {
        let n = self.bytes.len();
        let mut zeroed = zeroes32();
        let mut tail = copy_range(&self.bytes, 32, n);
        zeroed.append(&mut tail);
        proof {
            assert(zeroed@ =~= zero_digest(self.bytes@));
        }
        let digest = sha256(&zeroed);
        let mut rebuilt = digest;
        let mut rest = copy_range(&self.bytes, 32, n);
        rebuilt.append(&mut rest);
        proof {
            assert(rebuilt@ =~= with_digest(self.bytes@));
            assert(rebuilt@.skip(32) =~= self.bytes@.skip(32));
        }
        self.bytes = rebuilt;
        proof {
            assert(zero_digest(self.bytes@) =~= zero_digest(old(self).bytes@));
            assert(self.bytes@.subrange(0, 32) =~= sha256_of(zero_digest(self.bytes@)));
            assert(self.bytes@.skip(HEADER_SIZE as int) =~= old(self).bytes@.skip(
                HEADER_SIZE as int,
            ));
        }
    }

    /// Append one event's record to the chunk if it fits; on success return
    /// the record's byte offset, flushing first when asked to.  When the
    /// record does not fit, flush what is there and report `NoSpace`.
    pub fn attempt_to_write_event(&mut self, event: &Event, flush: bool) -> (r: Result<
        u32,
        ChunkError,
    >)
        requires
            old(self).wf(),
            event.name@.len() + event.payload@.len() + 36 <= usize::MAX,
        ensures
            final(self).id == old(self).id,
            match r {
                Err(_) => {
                    &&& 4 + spec_encode_event(event@).len() > old(self).available
                    &&& final(self).events@ == old(self).events@
                    &&& final(self).offsets@ == old(self).offsets@
                    &&& final(self).available == old(self).available
                    &&& final(self).bytes@ == with_digest(old(self).bytes@)
                    &&& digest_ok(final(self).bytes@)
                    &&& final(self).wf()
                },
                Ok(off) => {
                    &&& 4 + spec_encode_event(event@).len() <= old(self).available
                    &&& off == old(self).bytes@.len()
                    &&& off == record_start(final(self).events@, old(self).events@.len() as int)
                    &&& final(self).events@ == old(self).events@.push(event@)
                    &&& final(self).offsets@ == old(self).offsets@.push(off)
                    &&& final(self).available == old(self).available - (4 + spec_encode_event(
                        event@,
                    ).len())
                    &&& (if flush {
                        &&& final(self).bytes@ == with_digest(
                            old(self).bytes@ + spec_record(event@),
                        )
                        &&& digest_ok(final(self).bytes@)
                    } else {
                        final(self).bytes@ == old(self).bytes@ + spec_record(event@)
                    })
                    &&& final(self).wf()
                },
            },
    {
        let encoded = encode_event(event);
        let encoded_len = encoded.len();
        proof {
            lemma_encode_shape(event@);
        }
        if (encoded_len as u64) + 4 > self.available as u64 {
            // Flush writes to the current chunk just in case before
            // reporting that it is full.
            self.flush_chunk();
            return Err(ChunkError::NoSpace);
        }
        let offset = MAX_CHUNK_SIZE - self.available;
        self.offsets.push(offset);
        let mut prefix = u32_to_le_bytes(encoded_len as u32);
        let mut payload = encoded;
        self.bytes.append(&mut prefix);
        self.bytes.append(&mut payload);
        proof {
            lemma_auto_spec_u32_to_from_le_bytes();
            assert(self.bytes@ =~= old(self).bytes@ + spec_record(event@));
        }
        self.events = Ghost(self.events@.push(event@));
        self.available = self.available - (encoded_len as u32 + 4);
        proof {
            let oevs = old(self).events@;
            let e = event@;
            lemma_body_push(oevs, e);
            assert(self.bytes@.skip(HEADER_SIZE as int) =~= body_of(oevs) + spec_record(e));
            assert forall|k: int| 0 <= k < self.events@.len() implies self.offsets@[k]
                == record_start(self.events@, k) by {
                if k < oevs.len() {
                    assert(old(self).offsets@[k] == record_start(oevs, k));
                    assert(self.offsets@[k] == old(self).offsets@[k]);
                    assert(oevs.push(e).take(k) =~= oevs.take(k));
                } else {
                    assert(k == oevs.len());
                    assert(oevs.push(e).take(k) =~= oevs);
                    assert(self.offsets@[k] == offset);
                    assert(old(self).bytes@.skip(HEADER_SIZE as int).len() == body_of(oevs).len());
                    assert(offset == HEADER_SIZE + body_of(oevs).len());
                }
            }
            assert(self.wf());
        }
        if flush {
            self.flush_chunk();
        }
        Ok(offset)
    }
}

/// True when the bytes are an acceptable chunk file: long enough for a
/// header, within the size limit, digest intact, records decodable.
pub open spec fn chunk_file_ok(bs: Seq<u8>) -> bool {
    &&& digest_ok(bs)
    &&& bs.len() <= MAX_CHUNK_SIZE
    &&& parse_records(bs.skip(HEADER_SIZE as int)) is Some
}

/// The events recorded in an acceptable chunk file.
pub open spec fn file_events(bs: Seq<u8>) -> Seq<EventV> {
    parse_records(bs.skip(HEADER_SIZE as int)).unwrap()
}

/// Compare two byte vectors.
pub(crate) fn bytes_eq(a: &Vec<u8>, b: &Vec<u8>) -> (r: bool)
    ensures
        r == (a@ == b@),
{
    if a.len() != b.len() {
        return false;
    }
    let mut i: usize = 0;
    while i < a.len()
        invariant
            0 <= i <= a@.len(),
            a@.len() == b@.len(),
            forall|j: int| 0 <= j < i ==> a@[j] == b@[j],
        decreases a@.len() - i,
    {
        if a[i] != b[i] {
            return false;
        }
        i = i + 1;
    }
    proof {
        assert(a@ =~= b@);
    }
    true
}

/// Walk the records of `data` from `start`, collecting each record's
/// starting byte offset and its decoded event, in file order.
pub(crate) fn scan_records(data: &Vec<u8>, start: usize) -> (r: Result<
    (Vec<Event>, Vec<u32>),
    StoreError,
>)
    requires
        start <= data@.len(),
        data@.len() <= MAX_CHUNK_SIZE,
    ensures
        match r {
            Ok(pair) => {
                &&& parse_records(data@.skip(start as int)) == Some(views_of(pair.0@))
                &&& pair.1@.len() == pair.0@.len()
                &&& forall|k: int|
                    0 <= k < pair.1@.len() ==> pair.1@[k] == start + body_of(
                        views_of(pair.0@).take(k),
                    ).len()
            },
            Err(e) => {
                &&& e == StoreError::Malformed
                &&& parse_records(data@.skip(start as int)) is None
            },
        },
{
    let len = data.len();
    let mut events: Vec<Event> = Vec::new();
    let mut offsets: Vec<u32> = Vec::new();
    let mut pos: usize = start;
    proof {
        assert(body_of(views_of(events@)) =~= data@.subrange(start as int, start as int));
    }
    while pos < len
        invariant
            start <= pos <= len,
            len == data@.len(),
            len <= MAX_CHUNK_SIZE,
            events@.len() == offsets@.len(),
            body_of(views_of(events@)) == data@.subrange(start as int, pos as int),
            forall|k: int|
                0 <= k < offsets@.len() ==> offsets@[k] == start + body_of(
                    views_of(events@).take(k),
                ).len(),
            (match parse_records(data@.skip(pos as int)) {
                Some(rest) => parse_records(data@.skip(start as int)) == Some(
                    views_of(events@) + rest,
                ),
                None => parse_records(data@.skip(start as int)) is None,
            }),
        decreases len - pos,
    {
        let ghost bs = data@.skip(pos as int);
        proof {
            vstd::bytes::lemma_auto_spec_u32_to_from_le_bytes();
        }
        if len - pos < 4 {
            proof {
                assert(bs.len() < 4 && bs.len() > 0);
            }
            return Err(StoreError::Malformed);
        }
        let n32 = read_u32_at(data, pos);
        let n = n32 as usize;
        proof {
            assert(bs.subrange(0, 4) =~= data@.subrange(pos as int, pos as int + 4));
        }
        if (n as u64) > ((len - pos) as u64) - 4 {
            proof {
                assert(4 + (n32 as int) > bs.len());
            }
            return Err(StoreError::Malformed);
        }
        let decoded = decode_event(data, pos + 4, pos + 4 + n);
        proof {
            assert(bs.subrange(4, 4 + n as int) =~= data@.subrange(
                pos as int + 4,
                pos as int + 4 + n as int,
            ));
        }
        match decoded {
            None => {
                return Err(StoreError::Malformed);
            },
            Some(ev) => {
                proof {
                    lemma_parse_sound(bs.subrange(4, 4 + n as int), ev@);
                }
                offsets.push(pos as u32);
                let ghost old_events = events@;
                let ghost old_pos = pos as int;
                events.push(ev);
                pos = pos + 4 + n;
                proof {
                    let vs = views_of(old_events);
                    assert(views_of(events@) =~= vs.push(ev@));
                    lemma_body_push(vs, ev@);
                    assert(spec_u32_to_le_bytes(spec_u32_from_le_bytes(bs.subrange(0, 4)))
                        == bs.subrange(0, 4));
                    assert(spec_record(ev@) =~= bs.subrange(0, 4) + bs.subrange(4, 4 + n as int));
                    assert(data@.subrange(start as int, pos as int) =~= data@.subrange(
                        start as int,
                        old_pos,
                    ) + bs.subrange(0, 4) + bs.subrange(4, 4 + n as int));
                    assert(body_of(views_of(events@)) == data@.subrange(start as int, pos as int));
                    assert forall|k: int| 0 <= k < offsets@.len() implies offsets@[k] == start
                        + body_of(views_of(events@).take(k)).len() by {
                        if k < vs.len() {
                            assert(vs.push(ev@).take(k) =~= vs.take(k));
                        } else {
                            assert(vs.push(ev@).take(k) =~= vs);
                        }
                    }
                    assert(bs.skip(4 + n as int) =~= data@.skip(pos as int));
                    match parse_records(data@.skip(pos as int)) {
                        Some(rest) => {
                            assert(parse_records(bs) == Some(seq![ev@] + rest));
                            assert(views_of(old_events) + (seq![ev@] + rest) =~= views_of(events@)
                                + rest);
                        },
                        None => {
                            assert(parse_records(bs) is None);
                        },
                    }
                }
            },
        }
    }
    proof {
        assert(data@.skip(pos as int) =~= Seq::<u8>::empty());
        assert(parse_records(data@.skip(pos as int)) == Some(Seq::<EventV>::empty()));
        assert(views_of(events@) + Seq::<EventV>::empty() =~= views_of(events@));
    }
    Ok((events, offsets))
}

impl LogChunk {
    /// Read a whole chunk image: verify its digest, then walk its records,
    /// returning the chunk and each event's stream name and id in file
    /// order.  An empty body is valid and yields an empty list.
    pub fn index(id: u32, bytes: Vec<u8>) -> (r: Result<(Self, Vec<(Vec<u8>, u64)>), StoreError>)
        ensures
            match r {
                Ok(pair) => {
                    &&& chunk_file_ok(bytes@)
                    &&& pair.0.wf()
                    &&& pair.0.id == id
                    &&& pair.0.bytes@ == bytes@
                    &&& pair.0.events@ == file_events(bytes@)
                    &&& pair.0.available == MAX_CHUNK_SIZE - bytes@.len()
                    &&& digest_ok(bytes@)
                    &&& pair.1@.len() == pair.0.events@.len()
                    &&& forall|k: int|
                        0 <= k < pair.1@.len() ==> pair.1@[k].0@ == pair.0.events@[k].name
                            && pair.1@[k].1 == pair.0.events@[k].id
                },
                Err(e) => {
                    &&& !chunk_file_ok(bytes@)
                    &&& (e == StoreError::Corrupt <==> !digest_ok(bytes@))
                    &&& (e == StoreError::Corrupt || e == StoreError::Malformed)
                },
            },
    {
        let n = bytes.len();
        if n < 41 {
            return Err(StoreError::Corrupt);
        }
        let mut zeroed = zeroes32();
        let mut tail = copy_range(&bytes, 32, n);
        zeroed.append(&mut tail);
        proof {
            assert(zeroed@ =~= zero_digest(bytes@));
        }
        let expected = sha256(&zeroed);
        let stored = copy_range(&bytes, 0, 32);
        if !bytes_eq(&stored, &expected) {
            return Err(StoreError::Corrupt);
        }
        if (n as u64) > MAX_CHUNK_SIZE as u64 {
            return Err(StoreError::Malformed);
        }
        match scan_records(&bytes, 41) {
            Err(_) => Err(StoreError::Malformed),
            Ok((events, offsets)) => {
                let ghost vs = views_of(events@);
                proof {
                    lemma_parse_records_sound(bytes@.skip(HEADER_SIZE as int), vs);
                }
                let mut info: Vec<(Vec<u8>, u64)> = Vec::new();
                let mut k: usize = 0;
                while k < events.len()
                    invariant
                        0 <= k <= events@.len(),
                        info@.len() == k,
                        vs == views_of(events@),
                        forall|j: int|
                            0 <= j < k ==> info@[j].0@ == vs[j].name && info@[j].1 == vs[j].id,
                    decreases events@.len() - k,
                {
                    let name = copy_bytes(&events[k].name);
                    let eid = events[k].id;
                    info.push((name, eid));
                    k = k + 1;
                }
                let available = MAX_CHUNK_SIZE - (n as u32);
                let chunk = LogChunk { id, offsets, available, bytes, events: Ghost(vs) };
                proof {
                    assert(chunk.wf());
                }
                Ok((chunk, info))
            },
        }
    }

    /// Decode every record from `offset` to the end of the image, in file
    /// order.
    pub fn stream_events_out(offset: u32, bytes: &Vec<u8>) -> (r: Result<Vec<Event>, StoreError>)
        requires
            offset <= bytes@.len(),
            bytes@.len() <= MAX_CHUNK_SIZE,
        ensures
            match r {
                Ok(evs) => parse_records(bytes@.skip(offset as int)) == Some(views_of(evs@)),
                Err(e) => {
                    &&& e == StoreError::Malformed
                    &&& parse_records(bytes@.skip(offset as int)) is None
                },
            },
    {
        match scan_records(bytes, offset as usize) {
            Ok(pair) => Ok(pair.0),
            Err(_) => Err(StoreError::Malformed),
        }
    }
}

/// Decode the single record that starts at `offset` in a chunk image known
/// to hold the events `evs`.
pub(crate) fn decode_record_at(
    bytes: &Vec<u8>,
    offset: usize,
    Ghost(evs): Ghost<Seq<EventV>>,
    Ghost(j): Ghost<int>,
) -> (ev: Event)
    requires
        is_image(bytes@, evs),
        0 <= j < evs.len(),
        offset == record_start(evs, j),
    ensures
        ev@ == evs[j],
{
    proof {
        vstd::bytes::lemma_auto_spec_u32_to_from_le_bytes();
        assert(record_fits(evs[j]));
        lemma_body_cat(evs, j);
        assert(evs.skip(j)[0] == evs[j]);
        assert(evs.skip(j).skip(1) =~= evs.skip(j + 1));
        assert(body_of(evs.skip(j)) == spec_record(evs[j]) + body_of(evs.skip(j + 1)));
        lemma_encode_shape(evs[j]);
        let enc = spec_encode_event(evs[j]);
        let body = body_of(evs);
        let x = body_of(evs.take(j)).len() as int;
        let rec = spec_record(evs[j]);
        assert(rec.len() == 4 + enc.len());
        assert(body == body_of(evs.take(j)) + (rec + body_of(evs.skip(j + 1))));
        assert(body.len() == x + 4 + enc.len() + body_of(evs.skip(j + 1)).len());
        assert(bytes@.skip(HEADER_SIZE as int) == body);
        assert(bytes@.len() == 41 + body.len());
        assert(offset == 41 + x);
        assert(offset + 4 + enc.len() <= bytes@.len());
        assert((body_of(evs.take(j)) + body_of(evs.skip(j))).skip(x) =~= body_of(evs.skip(j)));
        assert(bytes@.skip(41).skip(x) == body.skip(x));
        vstd::seq_lib::lemma_seq_skip_of_skip(bytes@, 41, x);
        assert(bytes@.skip(offset as int) == body_of(evs.skip(j)));
        let tail = body_of(evs.skip(j));
        assert(tail.subrange(0, 4) =~= spec_u32_to_le_bytes(enc.len() as u32));
        assert(tail.subrange(4, 4 + enc.len() as int) =~= enc);
        assert(bytes@.subrange(offset as int, offset as int + 4) =~= bytes@.skip(
            offset as int,
        ).subrange(0, 4));
        assert(bytes@.subrange(offset as int + 4, offset as int + 4 + enc.len() as int)
            =~= bytes@.skip(offset as int).subrange(4, 4 + enc.len() as int));
    }
    let n32 = read_u32_at(bytes, offset);
    let n = n32 as usize;
    let decoded = decode_event(bytes, offset + 4, offset + 4 + n);
    proof {
        lemma_encode_parse(evs[j]);
    }
    match decoded {
        Some(ev) => ev,
        None => vstd::pervasive::unreached(),
    }
}

} // verus!
