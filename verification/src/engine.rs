//! The engine: the public face of the store.
use crate::chunk::{digest_ok, file_events, is_image, record_start, ChunkFile, HEADER_SIZE};
use crate::codec::{
    body_of, copy_bytes, lemma_body_cat, lemma_parse_body, spec_record, EventV,
};
use crate::index::Index;
use crate::model::{
    all_name, belongs, events_for, files_ok, is_all_name, lemma_filter_elem,
    lemma_store_conditions_congruent, lemma_store_pairs_elem, linked, next_id_of, no_reserved,
    pairs_for, store_hist, store_pairs,
};
use crate::reader::{ReadRecord, ReaderStream};
use crate::writer::Writer;
use crate::MAX_CHUNK_SIZE;
use crate::StoreError;
use vstd::prelude::*;

verus! {

/// Some file carries the chunk id `t`.
pub open spec fn has_id(files: Seq<ChunkFile>, t: int) -> bool {
    exists|j: int| 0 <= j < files.len() && (#[trigger] files[j]).id as int == t
}

/// True when the files already come ordered by id, 1 through n.
pub open spec fn dense(files: Seq<ChunkFile>) -> bool {
    forall|j: int| 0 <= j < files.len() ==> (#[trigger] files[j]).id as int == j + 1
}

/// Bring the chunk files into id order, 1 through n.  Chunk counts are
/// small, so a quadratic search keeps this simple.
fn arrange_files(files: &Vec<ChunkFile>) -> (r: Result<Vec<ChunkFile>, StoreError>)
    ensures
        match r {
            Ok(sorted) => {
                &&& sorted@.len() == files@.len()
                &&& dense(sorted@)
                &&& forall|i: int|
                    0 <= i < sorted@.len() ==> exists|j: int|
                        0 <= j < files@.len() && (#[trigger] sorted@[i]).bytes@ == files@[j].bytes@
                            && files@[j].id as int == i + 1
                &&& (dense(files@) ==> forall|i: int|
                    0 <= i < sorted@.len() ==> (#[trigger] sorted@[i]).bytes@ == files@[i].bytes@)
            },
            Err(e) => {
                &&& e == StoreError::BadLayout
                &&& !(forall|t: int| 1 <= t <= files@.len() ==> #[trigger] has_id(files@, t))
            },
        },
{
    let n = files.len();
    if (n as u64) > (u32::MAX as u64) {
        proof {
            assert(!has_id(files@, u32::MAX as int + 1));
        }
        return Err(StoreError::BadLayout);
    }
    let mut sorted: Vec<ChunkFile> = Vec::new();
    let mut t: u64 = 1;
    while t <= n as u64
        invariant
            1 <= t <= n + 1,
            n == files@.len(),
            n <= u32::MAX,
            sorted@.len() == t - 1,
            forall|i: int|
                0 <= i < sorted@.len() ==> (#[trigger] sorted@[i]).id as int == i + 1,
            forall|i: int|
                0 <= i < sorted@.len() ==> exists|j: int|
                    0 <= j < files@.len() && (#[trigger] sorted@[i]).bytes@ == files@[j].bytes@
                        && files@[j].id as int == i + 1,
            dense(files@) ==> forall|i: int|
                0 <= i < sorted@.len() ==> (#[trigger] sorted@[i]).bytes@ == files@[i].bytes@,
        decreases n + 1 - t,
    {
        let mut j: usize = 0;
        let mut found: usize = n;
        while j < n
            invariant
                0 <= j <= n,
                n == files@.len(),
                found <= n,
                found == n ==> forall|j2: int|
                    0 <= j2 < j ==> (#[trigger] files@[j2]).id as int != t,
                found < n ==> files@[found as int].id as int == t && (forall|j2: int|
                    0 <= j2 < found ==> (#[trigger] files@[j2]).id as int != t),
            decreases n - j,
        {
            if found == n && files[j].id as u64 == t {
                found = j;
            }
            j = j + 1;
        }
        if found == n {
            proof {
                assert(!has_id(files@, t as int));
            }
            return Err(StoreError::BadLayout);
        }
        sorted.push(ChunkFile { id: files[found].id, bytes: copy_bytes(&files[found].bytes) });
        proof {
            if dense(files@) {
                assert(files@[t - 1].id as int == t);
                assert(found as int == t - 1);
            }
        }
        t = t + 1;
    }
    Ok(sorted)
}

/// Some file carries the chunk id `t` and records exactly the events `evs`.
pub open spec fn chunk_from_file(files: Seq<ChunkFile>, t: int, evs: Seq<EventV>) -> bool {
    exists|j: int|
        0 <= j < files.len() && (#[trigger] files[j]).id as int == t && evs == file_events(
            files[j].bytes@,
        )
}

/// The engine's history holds, chunk for chunk, the events of the file
/// that carries that chunk's id.
pub open spec fn recovered_from(e: Engine, files: Seq<ChunkFile>) -> bool {
    &&& e.hist().len() == files.len()
    &&& forall|i: int|
        0 <= i < files.len() ==> #[trigger] chunk_from_file(files, i + 1, e.hist()[i])
}

/// The engine: the index and the writer, behind one facade.
pub struct Engine {
    pub index: Index,
    pub writer: Writer,
}

impl Engine {
    /// The index lists exactly the locations that the chunk history
    /// induces, and the writer's chunks carry that history.
    pub open spec fn wf(self) -> bool {
        &&& self.index.wf()
        &&& self.writer.wf()
        &&& linked(self.index, self.writer.hist@)
    }

    /// The history: each chunk's events, in chunk order.
    pub open spec fn hist(self) -> Seq<Seq<EventV>> {
        self.writer.hist@
    }

    /// The events of one stream, in append order; the reserved name reads
    /// every event.
    pub open spec fn stream_events(self, name: Seq<u8>) -> Seq<EventV> {
        events_for(self.writer.hist@, name)
    }

    /// The bytes of chunk `cid` as the engine holds them.
    pub open spec fn image_of(self, cid: int) -> Seq<u8> {
        if cid <= self.writer.sealed@.len() {
            self.writer.sealed@[cid - 1].bytes@
        } else {
            self.writer.wchunk.bytes@
        }
    }

    /// Build an engine over the chunk files read from the store's
    /// directory: order them by id, verify and index every chunk, and
    /// adopt the highest chunk as the active one — or start a fresh chunk
    /// when there are none.
    pub fn new(files: Vec<ChunkFile>) -> (r: Result<Engine, StoreError>)
        ensures
            r is Ok ==> r.unwrap().wf(),
            dense(files@) ==> ((r is Ok) <==> (files_ok(files@) && no_reserved(files@)
                && next_id_of(files@) <= u64::MAX)),
            (dense(files@) && files@.len() > 0 && r is Ok) ==> {
                let e = r.unwrap();
                &&& e.hist() == store_hist(files@)
                &&& e.writer.next_id as int == next_id_of(files@)
                &&& digest_ok(e.writer.wchunk.bytes@)
            },
            (files@.len() == 0 && r is Ok) ==> {
                let e = r.unwrap();
                &&& e.hist() == seq![Seq::<EventV>::empty()]
                &&& e.writer.next_id == 1
                &&& digest_ok(e.writer.wchunk.bytes@)
            },
            (files@.len() > 0 && r is Ok) ==> {
                let e = r.unwrap();
                &&& recovered_from(e, files@)
                &&& e.writer.next_id as int == (if e.hist().last().len() == 0 {
                    1int
                } else {
                    e.hist().last().last().id as int + 1
                })
            },
    {
        let sorted = match arrange_files(&files) {
            Ok(s) => s,
            Err(e) => {
                proof {
                    if dense(files@) {
                        assert forall|t: int| 1 <= t <= files@.len() implies has_id(
                            files@,
                            t,
                        ) by {
                            assert(files@[t - 1].id as int == t);
                        }
                        assert(false);
                    }
                }
                return Err(e);
            },
        };
        let ghost sortedv = sorted@;
        let mut index = Index::new();
        let (wchunk_opt, next_id) = match index.initialize(&sorted) {
            Ok(pair) => pair,
            Err(e) => {
                proof {
                    if dense(files@) {
                        lemma_store_conditions_congruent(sortedv, files@);
                    }
                }
                return Err(e);
            },
        };
        proof {
            if dense(files@) {
                lemma_store_conditions_congruent(sortedv, files@);
            }
        }
        let ghost hist = store_hist(sorted@);
        match wchunk_opt {
            None => {
                let writer = Writer::new(None, next_id, Vec::new(), Ghost(Seq::empty()));
                let engine = Engine { index, writer };
                proof {
                    assert(sorted@.len() == 0);
                    assert(hist =~= Seq::<Seq<EventV>>::empty());
                    crate::model::lemma_linked_new_chunk(engine.index, hist);
                    assert(hist.push(Seq::<EventV>::empty()) =~= engine.writer.hist@);
                }
                Ok(engine)
            },
            Some(c) => {
                // the highest chunk lives on as the active chunk; only the
                // lower chunks stay behind as sealed images
                let mut sealed = sorted;
                let _last = sealed.pop();
                let writer = Writer::new(Some(c), next_id, sealed, Ghost(hist));
                let engine = Engine { index, writer };
                proof {
                    assert(engine.hist() == hist);
                    assert(engine.hist().len() == files@.len());
                    assert forall|i: int| 0 <= i < files@.len() implies #[trigger] chunk_from_file(
                        files@,
                        i + 1,
                        engine.hist()[i],
                    ) by {
                        assert(exists|j: int|
                            0 <= j < files@.len() && sortedv[i].bytes@ == files@[j].bytes@
                                && files@[j].id as int == i + 1);
                        let j = choose|j: int|
                            0 <= j < files@.len() && sortedv[i].bytes@ == files@[j].bytes@
                                && files@[j].id as int == i + 1;
                        assert(hist[i] == file_events(sortedv[i].bytes@));
                        assert(file_events(sortedv[i].bytes@) == file_events(files@[j].bytes@));
                        assert(0 <= j < files@.len() && files@[j].id as int == i + 1
                            && engine.hist()[i] == file_events(files@[j].bytes@));
                    }
                    assert(recovered_from(engine, files@));
                    assert(sortedv.last() == sortedv[sortedv.len() - 1]);
                    assert(hist[sortedv.len() - 1] == file_events(
                        sortedv[sortedv.len() - 1].bytes@,
                    ));
                    assert(engine.hist().last() == file_events(sortedv.last().bytes@));
                    assert(next_id as int == next_id_of(sortedv));
                    assert(engine.writer.next_id as int == (if engine.hist().last().len() == 0 {
                        1int
                    } else {
                        engine.hist().last().last().id as int + 1
                    }));
                }
                Ok(engine)
            },
        }
    }

    /// Append the payloads to the named stream; the reserved stream is
    /// read-only and rejects the append.  On success, returns the next
    /// event id after the batch.
    pub fn append_events(&mut self, stream_name: Vec<u8>, events: Vec<Vec<u8>>) -> (r: Result<
        u64,
        StoreError,
    >)
        requires
            old(self).wf(),
            stream_name@ != all_name() ==> forall|i: int|
                0 <= i < events@.len() ==> 77 + stream_name@.len() + (#[trigger] events@[i])@.len()
                    <= MAX_CHUNK_SIZE,
            stream_name@ != all_name() ==> old(self).writer.next_id as int + events@.len()
                <= u64::MAX,
            stream_name@ != all_name() ==> old(self).writer.wchunk.id as int + events@.len()
                <= u32::MAX,
        ensures
            final(self).wf(),
            (r is Err) <==> stream_name@ == all_name(),
            r is Err ==> r == Err::<u64, StoreError>(StoreError::IllegalStream) && *final(self)
                == *old(self),
            r is Ok ==> {
                &&& r.unwrap() == final(self).writer.next_id
                &&& r.unwrap() as int == old(self).writer.next_id + events@.len()
                &&& ({
                    let s0 = old(self).stream_events(stream_name@);
                    let s2 = final(self).stream_events(stream_name@);
                    &&& s2.len() == s0.len() + events@.len()
                    &&& s2.take(s0.len() as int) == s0
                    &&& forall|k: int|
                        0 <= k < events@.len() ==> ((#[trigger] s2[s0.len() + k]).id as int == old(
                            self,
                        ).writer.next_id + k && s2[s0.len() + k].name == stream_name@ && s2[s0.len()
                            + k].payload == events@[k]@)
                })
                &&& ({
                    let a0 = old(self).stream_events(all_name());
                    let a2 = final(self).stream_events(all_name());
                    &&& a2.len() == a0.len() + events@.len()
                    &&& a2.take(a0.len() as int) == a0
                    &&& forall|k: int|
                        0 <= k < events@.len() ==> ((#[trigger] a2[a0.len() + k]).id as int == old(
                            self,
                        ).writer.next_id + k && a2[a0.len() + k].name == stream_name@ && a2[a0.len()
                            + k].payload == events@[k]@)
                })
                &&& (forall|n: Seq<u8>|
                    n != stream_name@ && n != all_name() ==> #[trigger] final(self).stream_events(
                        n,
                    ) == old(self).stream_events(n))
                &&& final(self).writer.sealed@.take(old(self).writer.sealed@.len() as int) == old(
                    self,
                ).writer.sealed@
                &&& (forall|i: int|
                    old(self).writer.sealed@.len() <= i < final(self).writer.sealed@.len()
                        ==> digest_ok((#[trigger] final(self).writer.sealed@[i]).bytes@))
                &&& (events@.len() > 0 ==> digest_ok(final(self).writer.wchunk.bytes@))
                &&& final(self).writer.wchunk.id as int <= old(self).writer.wchunk.id
                    + events@.len()
                &&& (events@.len() > 0 ==> final(self).writer.wchunk.events@.len() > 0
                    && final(self).writer.wchunk.events@.last().id as int == old(
                    self,
                ).writer.next_id + events@.len() - 1)
            },
    {
        if is_all_name(&stream_name) {
            return Err(StoreError::IllegalStream);
        }
        let next = self.writer.append_events(&mut self.index, &stream_name, &events);
        Ok(next)
    }

    /// Stream the named stream's events from `stream_position` to the end
    /// of the current snapshot, in append order; positions past the end
    /// yield nothing, as does an unknown stream.
    pub fn read_stream(&mut self, stream_name: Vec<u8>, stream_position: u64) -> (r: Vec<
        ReadRecord,
    >)
        requires
            old(self).wf(),
        ensures
            final(self).wf(),
            final(self).writer == old(self).writer,
            forall|n: Seq<u8>| #[trigger] final(self).index.elems_of(n) == old(
                self,
            ).index.elems_of(n),
            ({
                let tgt = old(self).stream_events(stream_name@);
                if stream_position as int >= tgt.len() {
                    r@.len() == 0
                } else {
                    &&& r@.len() == tgt.len() - stream_position
                    &&& forall|t: int|
                        0 <= t < r@.len() ==> (#[trigger] r@[t]).event@ == tgt[stream_position
                            + t].payload && r@[t].stream_position == tgt[stream_position + t].id
                }
            }),
    {
        let reader = ReaderStream::new(stream_name, &mut self.index);
        reader.read_stream(
            &self.writer.sealed,
            &self.writer.wchunk,
            Ghost(self.writer.hist@),
            stream_position,
        )
    }

    /// The current image of every chunk file, in id order: what the
    /// store's directory should hold.  Rebuilding an engine over these
    /// files recovers the same history.
    #[verifier::loop_isolation(false)]
    pub fn chunk_files(&self) -> (r: Vec<ChunkFile>)
        requires
            self.wf(),
        ensures
            r@.len() == self.hist().len(),
            dense(r@),
            store_hist(r@) == self.hist(),
            forall|i: int|
                0 <= i < r@.len() - 1 ==> (#[trigger] r@[i]).bytes@
                    == self.writer.sealed@[i].bytes@,
            r@[r@.len() - 1].bytes@ == self.writer.wchunk.bytes@,
    {
        let mut r: Vec<ChunkFile> = Vec::new();
        let n = self.writer.sealed.len();
        let mut i: usize = 0;
        while i < n
            invariant
                0 <= i <= n,
                n == self.writer.sealed@.len(),
                r@.len() == i,
                forall|t: int|
                    0 <= t < i ==> (#[trigger] r@[t]).id as int == t + 1 && r@[t].bytes@
                        == self.writer.sealed@[t].bytes@ && file_events(r@[t].bytes@)
                        == self.hist()[t],
            decreases n - i,
        {
            let file = ChunkFile {
                id: self.writer.sealed[i].id,
                bytes: copy_bytes(&self.writer.sealed[i].bytes),
            };
            proof {
                assert(is_image(self.writer.sealed@[i as int].bytes@, self.hist()[i as int]));
                lemma_parse_body(self.hist()[i as int]);
                assert(file.bytes@.skip(HEADER_SIZE as int) == body_of(self.hist()[i as int]));
            }
            r.push(file);
            i = i + 1;
        }
        let active = ChunkFile { id: self.writer.wchunk.id, bytes: copy_bytes(&self.writer.wchunk.bytes) };
        proof {
            assert(is_image(self.writer.wchunk.bytes@, self.hist().last()));
            lemma_parse_body(self.hist().last());
            assert(active.bytes@.skip(HEADER_SIZE as int) == body_of(self.hist().last()));
        }
        r.push(active);
        proof {
            assert(store_hist(r@) =~= self.hist());
        }
        r
    }

    /// Every index entry locates a decodable record holding its stream's
    /// event: the record's bytes sit at the entry's offset in the entry's
    /// chunk.
    pub proof fn lemma_index_points_at_records(self, name: Seq<u8>, k: int)
        requires
            self.wf(),
            0 <= k < self.index.elems_of(name).len(),
        ensures
            ({
                let el = self.index.elems_of(name)[k];
                exists|ev: EventV|
                    {
                        &&& 1 <= el.chunk_number as int <= self.hist().len()
                        &&& #[trigger] spec_record(ev).is_prefix_of(
                            self.image_of(el.chunk_number as int).skip(el.offset as int),
                        )
                        &&& ev == self.stream_events(name)[k]
                    }
            }),
    {
        let hist = self.hist();
        let pairs = pairs_for(hist, name);
        let el = self.index.elems_of(name)[k];
        assert(self.index.elems_of(name) == crate::model::locs_for(hist, name));
        assert(pairs[k].0 == el);
        lemma_filter_elem(store_pairs(hist), belongs(name), k);
        let t = choose|t: int| 0 <= t < store_pairs(hist).len() && store_pairs(hist)[t] == pairs[k];
        lemma_store_pairs_elem(hist, t);
        let (ci, j) = choose|ci: int, j: int|
            {
                &&& 0 <= ci < hist.len()
                &&& 0 <= j < hist[ci].len()
                &&& #[trigger] store_pairs(hist)[t] == (
                    crate::index::IndexElement {
                        chunk_number: (ci + 1) as u32,
                        offset: record_start(hist[ci], j) as u32,
                    },
                    hist[ci][j],
                )
            };
        let ev = hist[ci][j];
        lemma_body_cat(hist[ci], j);
        let bytes = self.image_of(ci + 1);
        if ci < hist.len() - 1 {
            assert(is_image(self.writer.sealed@[ci].bytes@, hist[ci]));
        } else {
            assert(hist[ci] == hist.last());
            assert(is_image(self.writer.wchunk.bytes@, hist[ci]));
        }
        assert(body_of(hist[ci].take(j)).len() <= body_of(hist[ci]).len());
        assert(record_start(hist[ci], j) <= MAX_CHUNK_SIZE);
        assert(el.chunk_number as int == ci + 1);
        assert(el.offset as int == record_start(hist[ci], j));
        assert(hist[ci].skip(j)[0] == hist[ci][j]);
        assert(hist[ci].skip(j).skip(1) =~= hist[ci].skip(j + 1));
        assert(body_of(hist[ci].skip(j)) == spec_record(ev) + body_of(hist[ci].skip(j + 1)));
        let x = body_of(hist[ci].take(j)).len() as int;
        assert((body_of(hist[ci].take(j)) + body_of(hist[ci].skip(j))).skip(x) =~= body_of(
            hist[ci].skip(j),
        ));
        assert(bytes.skip(HEADER_SIZE as int).skip(x) == body_of(hist[ci]).skip(x));
        vstd::seq_lib::lemma_seq_skip_of_skip(bytes, HEADER_SIZE as int, x);
        assert(bytes.skip(el.offset as int) == body_of(hist[ci].skip(j)));
        assert(spec_record(ev).is_prefix_of(bytes.skip(el.offset as int)));
        assert(pairs[k].1 == self.stream_events(name)[k]);
        assert(ev == self.stream_events(name)[k]);
    }

    /// No chunk image, sealed or active, oversteps the chunk size limit.
    pub proof fn lemma_chunk_size_bounded(self)
        requires
            self.wf(),
        ensures
            forall|cid: int|
                1 <= cid <= self.hist().len() ==> (#[trigger] self.image_of(cid)).len()
                    <= MAX_CHUNK_SIZE,
    {
        assert forall|cid: int| 1 <= cid <= self.hist().len() implies (
        #[trigger] self.image_of(cid)).len() <= MAX_CHUNK_SIZE by {
            if cid <= self.writer.sealed@.len() {
                assert(is_image(self.writer.sealed@[cid - 1].bytes@, self.hist()[cid - 1]));
            }
        }
    }
}

} // verus!
