//! The reader: a snapshot of one stream's locations, decoded on demand.
use crate::chunk::{decode_record_at, is_image, record_start, ChunkFile, LogChunk};
use crate::codec::{body_of, lemma_body_cat, Event, EventV};
use crate::index::{Index, IndexElement};
use crate::model::{
    belongs, events_for, lemma_filter_elem, lemma_store_pairs_elem, locs_for, pairs_for,
    store_pairs,
};
use vstd::prelude::*;

verus! {

/// One emitted record: the event's payload and its stream position, which
/// is the event id assigned at write time.
pub struct ReadRecord {
    pub event: Vec<u8>,
    pub stream_position: u64,
}

/// A value snapshot of one stream's location list; appends after
/// construction do not affect it.
pub struct ReaderStream {
    pub stream_name: Vec<u8>,
    pub index_entries: Vec<IndexElement>,
}

impl ReaderStream {
    /// Snapshot the stream's locations from the index; an unknown stream
    /// reads as empty.
    pub fn new(stream_name: Vec<u8>, index: &mut Index) -> (r: Self)
        requires
            old(index).wf(),
        ensures
            final(index).wf(),
            forall|n: Seq<u8>| #[trigger] final(index).elems_of(n) == old(index).elems_of(n),
            final(index).all@ == old(index).all@,
            r.stream_name@ == stream_name@,
            r.index_entries@ == old(index).elems_of(stream_name@),
    {
        let index_entries = index.fetch_one(&stream_name);
        ReaderStream { stream_name, index_entries }
    }

    /// Decode and emit the stream's events from position `start` to the
    /// end of the snapshot, in order.  A start past the end yields nothing.
    #[verifier::loop_isolation(false)]
    pub fn read_stream(
        &self,
        sealed: &Vec<ChunkFile>,
        active: &LogChunk,
        Ghost(hist): Ghost<Seq<Seq<EventV>>>,
        start: u64,
    ) -> (r: Vec<ReadRecord>)
        requires
            self.index_entries@ == locs_for(hist, self.stream_name@),
            hist.len() >= 1,
            active.wf(),
            active.id as int == hist.len(),
            active.events@ == hist.last(),
            sealed@.len() == hist.len() - 1,
            forall|i: int|
                0 <= i < sealed@.len() ==> (#[trigger] sealed@[i]).id as int == i + 1 && is_image(
                    sealed@[i].bytes@,
                    hist[i],
                ),
        ensures
            ({
                let tgt = events_for(hist, self.stream_name@);
                if start as int >= tgt.len() {
                    r@.len() == 0
                } else {
                    &&& r@.len() == tgt.len() - start
                    &&& forall|t: int|
                        0 <= t < r@.len() ==> (#[trigger] r@[t]).event@ == tgt[start + t].payload
                            && r@[t].stream_position == tgt[start + t].id
                }
            }),
    {
        let ghost pairs = pairs_for(hist, self.stream_name@);
        let ghost tgt = events_for(hist, self.stream_name@);
        let mut out: Vec<ReadRecord> = Vec::new();
        let len = self.index_entries.len();
        if len == 0 {
            return out;
        }
        if start > (len - 1) as u64 {
            return out;
        }
        let mut current: usize = start as usize;
        while current < len
            invariant
                start as int <= current <= len,
                out@.len() == current - start,
                forall|t: int|
                    0 <= t < out@.len() ==> (#[trigger] out@[t]).event@ == tgt[start + t].payload
                        && out@[t].stream_position == tgt[start + t].id,
            decreases len - current,
        {
            let e = self.index_entries[current];
            let ghost ci: int;
            let ghost j: int;
            proof {
                assert(pairs[current as int].0 == e);
                assert(pairs[current as int].1 == tgt[current as int]);
                lemma_filter_elem(store_pairs(hist), belongs(self.stream_name@), current as int);
                let t = choose|t: int|
                    0 <= t < store_pairs(hist).len() && store_pairs(hist)[t] == pairs[current as int];
                lemma_store_pairs_elem(hist, t);
                let (i2, j2) = choose|i2: int, j2: int|
                    {
                        &&& 0 <= i2 < hist.len()
                        &&& 0 <= j2 < hist[i2].len()
                        &&& #[trigger] store_pairs(hist)[t] == (
                            IndexElement {
                                chunk_number: (i2 + 1) as u32,
                                offset: record_start(hist[i2], j2) as u32,
                            },
                            hist[i2][j2],
                        )
                    };
                ci = i2;
                j = j2;
                lemma_body_cat(hist[ci], j);
                if ci < hist.len() - 1 {
                    assert(is_image(sealed@[ci].bytes@, hist[ci]));
                } else {
                    assert(hist[ci] == hist.last());
                    assert(is_image(active.bytes@, hist[ci]));
                }
                assert(body_of(hist[ci].take(j)).len() <= body_of(hist[ci]).len());
                assert(record_start(hist[ci], j) <= crate::MAX_CHUNK_SIZE);
                assert(e.chunk_number as int == ci + 1);
                assert(e.offset as int == record_start(hist[ci], j));
                assert(tgt[current as int] == hist[ci][j]);
            }
            let cid = e.chunk_number;
            let ev: Event;
            if (cid as usize) <= sealed.len() {
                proof {
                    assert(is_image(sealed@[ci].bytes@, hist[ci]));
                }
                ev = decode_record_at(
                    &sealed[(cid as usize) - 1].bytes,
                    e.offset as usize,
                    Ghost(hist[ci]),
                    Ghost(j),
                );
            } else {
                proof {
                    assert(ci == hist.len() - 1);
                    assert(hist[ci] == hist.last());
                    assert(is_image(active.bytes@, hist[ci]));
                }
                ev = decode_record_at(&active.bytes, e.offset as usize, Ghost(hist[ci]), Ghost(j));
            }
            out.push(ReadRecord { event: ev.payload, stream_position: ev.id });
            current = current + 1;
        }
        out
    }
}

} // verus!
