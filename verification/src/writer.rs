//! The writer: owns the active chunk and assigns event ids.
use crate::chunk::{digest_ok, is_image, record_start, ChunkFile, LogChunk};
use crate::codec::{copy_bytes, lemma_encode_shape, spec_encode_event, Event, EventV};
use crate::index::{Index, IndexElement};
use crate::model::{
    all_name, events_for, lemma_linked_extend, lemma_linked_new_chunk, linked, next_elem,
};
use crate::MAX_CHUNK_SIZE;
use vstd::prelude::*;

verus! {

/// The writer: the active chunk, the next event id, and the finalized
/// images of every rotated-out chunk, awaiting persistence.
pub struct Writer {
    pub wchunk: LogChunk,
    pub next_id: u64,
    pub sealed: Vec<ChunkFile>,
    pub hist: Ghost<Seq<Seq<EventV>>>,
}

impl Writer {
    /// The active chunk is the last chunk of the history and the sealed
    /// images hold the records of every earlier chunk, densely numbered.
    pub open spec fn wf(self) -> bool {
        &&& self.wchunk.wf()
        &&& self.hist@.len() >= 1
        &&& self.wchunk.id as int == self.hist@.len()
        &&& self.wchunk.events@ == self.hist@.last()
        &&& self.sealed@.len() == self.hist@.len() - 1
        &&& forall|i: int|
            0 <= i < self.sealed@.len() ==> (#[trigger] self.sealed@[i]).id as int == i + 1
                && is_image(self.sealed@[i].bytes@, self.hist@[i])
    }

    /// Take over the candidate active chunk recovered from disk, or start
    /// from scratch with a fresh chunk with id 1.
    pub fn new(
        wchunk_option: Option<LogChunk>,
        next_id: u64,
        sealed: Vec<ChunkFile>,
        hist: Ghost<Seq<Seq<EventV>>>,
    ) -> (r: Self)
        requires
            match wchunk_option {
                None => sealed@.len() == 0 && hist@.len() == 0,
                Some(c) => {
                    &&& c.wf()
                    &&& hist@.len() >= 1
                    &&& c.id as int == hist@.len()
                    &&& c.events@ == hist@.last()
                    &&& sealed@.len() == hist@.len() - 1
                    &&& forall|i: int|
                        0 <= i < sealed@.len() ==> (#[trigger] sealed@[i]).id as int == i + 1
                            && is_image(sealed@[i].bytes@, hist@[i])
                },
            },
        ensures
            r.wf(),
            r.next_id == next_id,
            match wchunk_option {
                None => {
                    &&& r.hist@ == seq![Seq::<EventV>::empty()]
                    &&& digest_ok(r.wchunk.bytes@)
                    &&& r.sealed@.len() == 0
                },
                Some(c) => r.hist@ == hist@ && r.wchunk == c && r.sealed@ == sealed@,
            },
    {
        match wchunk_option {
            None => {
                let c = LogChunk::new(1);
                let ghost h: Seq<Seq<EventV>> = seq![Seq::<EventV>::empty()];
                let r = Writer { wchunk: c, next_id, sealed, hist: Ghost(h) };
                proof {
                    assert(r.hist@.last() =~= Seq::<EventV>::empty());
                }
                r
            },
            Some(c) => Writer { wchunk: c, next_id, sealed, hist },
        }
    }

    /// Append the payloads to the stream, in order: each event gets the
    /// next id, is written to the active chunk — rotating to a fresh chunk
    /// when full — and is recorded in the index.  Only the last event of
    /// the batch forces a flush.  Returns the next id after the batch.
    #[verifier::loop_isolation(false)]
    pub fn append_events(
        &mut self,
        index: &mut Index,
        stream_name: &Vec<u8>,
        events: &Vec<Vec<u8>>,
    ) -> (r: u64)
        requires
            old(self).wf(),
            old(index).wf(),
            linked(*old(index), old(self).hist@),
            stream_name@ != all_name(),
            forall|i: int|
                0 <= i < events@.len() ==> 77 + stream_name@.len() + (#[trigger] events@[i])@.len()
                    <= MAX_CHUNK_SIZE,
            old(self).next_id as int + events@.len() <= u64::MAX,
            old(self).wchunk.id as int + events@.len() <= u32::MAX,
        ensures
            final(self).wf(),
            final(index).wf(),
            linked(*final(index), final(self).hist@),
            r == final(self).next_id,
            r as int == old(self).next_id + events@.len(),
            ({
                let s0 = events_for(old(self).hist@, stream_name@);
                let s2 = events_for(final(self).hist@, stream_name@);
                &&& s2.len() == s0.len() + events@.len()
                &&& s2.take(s0.len() as int) == s0
                &&& forall|k: int|
                    0 <= k < events@.len() ==> ((#[trigger] s2[s0.len() + k]).id as int == old(self).next_id + k && s2[s0.len() + k].name == stream_name@ && s2[s0.len()
                        + k].payload == events@[k]@)
            }),
            ({
                let a0 = events_for(old(self).hist@, all_name());
                let a2 = events_for(final(self).hist@, all_name());
                &&& a2.len() == a0.len() + events@.len()
                &&& a2.take(a0.len() as int) == a0
                &&& forall|k: int|
                    0 <= k < events@.len() ==> ((#[trigger] a2[a0.len() + k]).id as int == old(self).next_id + k && a2[a0.len() + k].name == stream_name@ && a2[a0.len()
                        + k].payload == events@[k]@)
            }),
            forall|n: Seq<u8>|
                n != stream_name@ && n != all_name() ==> #[trigger] events_for(
                    final(self).hist@,
                    n,
                ) == events_for(old(self).hist@, n),
            final(self).wchunk.id as int <= old(self).wchunk.id + events@.len(),
            events@.len() > 0 ==> final(self).wchunk.events@.len() > 0
                && final(self).wchunk.events@.last().id as int == old(self).next_id
                + events@.len() - 1,
            final(self).sealed@.len() >= old(self).sealed@.len(),
            final(self).sealed@.take(old(self).sealed@.len() as int) == old(self).sealed@,
            forall|i: int|
                old(self).sealed@.len() <= i < final(self).sealed@.len() ==> digest_ok(
                    (#[trigger] final(self).sealed@[i]).bytes@,
                ),
            events@.len() > 0 ==> digest_ok(final(self).wchunk.bytes@),
            events@.len() == 0 ==> final(self).hist@ == old(self).hist@ && final(self).next_id
                == old(self).next_id && final(self).sealed@ == old(self).sealed@ && final(self).wchunk == old(self).wchunk,
    {
        let n = events.len();
        let ghost s0 = events_for(old(self).hist@, stream_name@);
        let ghost a0 = events_for(old(self).hist@, all_name());
        let mut i: usize = 0;
        while i < n
            invariant
                0 <= i <= n,
                i == 0 ==> self.hist@ == old(self).hist@ && self.next_id == old(self).next_id
                    && self.sealed@ == old(self).sealed@ && self.wchunk == old(self).wchunk,
                self.wf(),
                index.wf(),
                linked(*index, self.hist@),
                self.next_id as int == old(self).next_id + i,
                self.wchunk.id as int <= old(self).wchunk.id + i,
                i > 0 ==> self.wchunk.events@.len() > 0 && self.wchunk.events@.last().id as int
                    == old(self).next_id + i - 1,
                ({
                    let s2 = events_for(self.hist@, stream_name@);
                    &&& s2.len() == s0.len() + i
                    &&& s2.take(s0.len() as int) == s0
                    &&& forall|k: int|
                        0 <= k < i ==> ((#[trigger] s2[s0.len() + k]).id as int == old(self).next_id + k && s2[s0.len() + k].name == stream_name@ && s2[s0.len()
                            + k].payload == events@[k]@)
                }),
                ({
                    let a2 = events_for(self.hist@, all_name());
                    &&& a2.len() == a0.len() + i
                    &&& a2.take(a0.len() as int) == a0
                    &&& forall|k: int|
                        0 <= k < i ==> ((#[trigger] a2[a0.len() + k]).id as int == old(self).next_id + k && a2[a0.len() + k].name == stream_name@ && a2[a0.len()
                            + k].payload == events@[k]@)
                }),
                forall|m: Seq<u8>|
                    m != stream_name@ && m != all_name() ==> #[trigger] events_for(self.hist@, m)
                        == events_for(old(self).hist@, m),
                self.sealed@.len() >= old(self).sealed@.len(),
                self.sealed@.take(old(self).sealed@.len() as int) == old(self).sealed@,
                forall|t: int|
                    old(self).sealed@.len() <= t < self.sealed@.len() ==> digest_ok(
                        (#[trigger] self.sealed@[t]).bytes@,
                    ),
                i == n && n > 0 ==> digest_ok(self.wchunk.bytes@),
            decreases n - i,
        {
            let last = i == n - 1;
            let ev = Event::new(self.next_id, stream_name, &events[i]);
            proof {
                lemma_encode_shape(ev@);
            }
            let res = self.wchunk.attempt_to_write_event(&ev, last);
            let ghost pre = *self;
            let offset: u32;
            match res {
                Ok(off) => {
                    offset = off;
                },
                Err(_) => {
                    // The active chunk is full and flushed: seal its image
                    // and rotate to a fresh chunk, then retry once.
                    let img = ChunkFile {
                        id: self.wchunk.id,
                        bytes: copy_bytes(&self.wchunk.bytes),
                    };
                    self.sealed.push(img);
                    let rotated_id = self.wchunk.id + 1;
                    self.wchunk = LogChunk::new(rotated_id);
                    proof {
                        lemma_linked_new_chunk(*index, pre.hist@);
                    }
                    self.hist = Ghost(self.hist@.push(Seq::<EventV>::empty()));
                    proof {
                        assert(self.hist@.last() =~= Seq::<EventV>::empty());
                        assert(self.sealed@.take(old(self).sealed@.len() as int)
                            =~= old(self).sealed@);
                        assert forall|t: int| 0 <= t < self.sealed@.len() implies (
                        #[trigger] self.sealed@[t]).id as int == t + 1 && is_image(
                            self.sealed@[t].bytes@,
                            self.hist@[t],
                        ) by {
                            if t < pre.sealed@.len() {
                                assert(pre.sealed@[t].id as int == t + 1);
                            }
                        }
                        assert(self.wf());
                    }
                    let res2 = self.wchunk.attempt_to_write_event(&ev, last);
                    match res2 {
                        Ok(off) => {
                            offset = off;
                        },
                        Err(_) => {
                            proof {
                                assert(false);
                            }
                            offset = 0;
                        },
                    }
                },
            }
            let ghost hist_mid = self.hist@;
            let ghost evs_mid = hist_mid.last();
            proof {
                // the chunk's ghost events were already extended by the
                // write; the history catches up here
                assert(self.wchunk.events@ == evs_mid.push(ev@));
                assert(evs_mid.take(evs_mid.len() as int) =~= evs_mid);
                assert(self.wchunk.events@.take(evs_mid.len() as int) =~= evs_mid);
                assert(offset == record_start(self.wchunk.events@, evs_mid.len() as int));
                assert(record_start(self.wchunk.events@, evs_mid.len() as int) == record_start(
                    evs_mid,
                    evs_mid.len() as int,
                ));
            }
            let elem = IndexElement { chunk_number: self.wchunk.id, offset };
            let ghost idx0 = *index;
            index.add(stream_name, elem);
            proof {
                assert(elem == next_elem(hist_mid));
                lemma_linked_extend(idx0, *index, hist_mid, ev@);
            }
            self.hist = Ghost(
                self.hist@.update(self.hist@.len() - 1, self.hist@.last().push(ev@)),
            );
            self.next_id = self.next_id + 1;
            i = i + 1;
            proof {
                assert(self.wchunk.events@ == self.hist@.last());
                let s2_old = events_for(hist_mid, stream_name@);
                let s2 = events_for(self.hist@, stream_name@);
                assert(s2 == s2_old.push(ev@));
                assert(s2.take(s0.len() as int) =~= s2_old.take(s0.len() as int));
                let a2_old = events_for(hist_mid, all_name());
                let a2 = events_for(self.hist@, all_name());
                assert(a2 == a2_old.push(ev@));
                assert(a2.take(a0.len() as int) =~= a2_old.take(a0.len() as int));
            }
        }
        self.next_id
    }
}

} // verus!
