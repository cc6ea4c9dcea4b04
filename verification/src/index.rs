//! The in-memory index: for each stream, where each of its events lives.
use crate::chunk::{
    bytes_eq, chunk_file_ok, digest_ok, file_events, is_image, record_start, ChunkFile, LogChunk,
};
use crate::codec::{copy_bytes, EventV};
use crate::model::{
    all_name, files_ok, is_all_name, lemma_linked_empty, lemma_linked_extend,
    lemma_linked_new_chunk, linked, next_elem, next_id_of, no_reserved, store_hist,
};
use crate::StoreError;
use vstd::prelude::*;

verus! {

/// The location of one event: the chunk that holds it and the byte offset
/// of its record within that chunk's file.
#[derive(Clone, Copy, PartialEq, Eq, Structural, Debug)]
pub struct IndexElement {
    pub chunk_number: u32,
    pub offset: u32,
}

/// One stream's entry: its name and the locations of its events, in
/// append order.
#[derive(Clone)]
pub struct StreamEntry {
    pub name: Vec<u8>,
    pub elems: Vec<IndexElement>,
}

/// Maps each stream name to its event locations; the synthetic reserved
/// stream, which holds every event, is kept apart.
#[derive(Clone)]
pub struct Index {
    pub streams: Vec<StreamEntry>,
    pub all: Vec<IndexElement>,
}

/// The locations listed under the name; empty when the name is absent.
pub open spec fn elems_in(streams: Seq<StreamEntry>, name: Seq<u8>) -> Seq<IndexElement>
    decreases streams.len(),
{
    if streams.len() == 0 {
        Seq::empty()
    } else if streams[0].name@ == name {
        streams[0].elems@
    } else {
        elems_in(streams.skip(1), name)
    }
}

/// The number of locations over all named streams.
pub open spec fn total_len(streams: Seq<StreamEntry>) -> int
    decreases streams.len(),
{
    if streams.len() == 0 {
        0int
    } else {
        streams[0].elems@.len() + total_len(streams.skip(1))
    }
}

/// An absent name lists no locations.
proof fn lemma_elems_in_absent(streams: Seq<StreamEntry>, name: Seq<u8>)
    requires
        forall|i: int| 0 <= i < streams.len() ==> (#[trigger] streams[i].name@) != name,
    ensures
        elems_in(streams, name) == Seq::<IndexElement>::empty(),
    decreases streams.len(),
{
    if streams.len() > 0 {
        assert(streams[0].name@ != name);
        assert forall|i: int| 0 <= i < streams.skip(1).len() implies (#[trigger] streams.skip(
            1,
        )[i].name@) != name by {
            assert(streams.skip(1)[i] == streams[i + 1]);
        }
        lemma_elems_in_absent(streams.skip(1), name);
    }
}

/// The entry that carries a name lists that name's locations.
proof fn lemma_elems_in_found(streams: Seq<StreamEntry>, i: int)
    requires
        0 <= i < streams.len(),
        forall|a: int, b: int|
            0 <= a < b < streams.len() ==> (#[trigger] streams[a].name@) != (#[trigger] streams[b].name@),
    ensures
        elems_in(streams, streams[i].name@) == streams[i].elems@,
    decreases i,
{
    if i == 0 {
    } else {
        assert(streams[0].name@ != streams[i].name@);
        assert forall|a: int, b: int| 0 <= a < b < streams.skip(1).len() implies (
        #[trigger] streams.skip(1)[a].name@) != (#[trigger] streams.skip(1)[b].name@) by {
            assert(streams.skip(1)[a] == streams[a + 1]);
            assert(streams.skip(1)[b] == streams[b + 1]);
        }
        assert(streams.skip(1)[i - 1] == streams[i]);
        lemma_elems_in_found(streams.skip(1), i - 1);
    }
}

/// Replacing the entry at `i` changes that name's list and no other, and
/// shifts the total by the difference.
proof fn lemma_elems_in_update(streams: Seq<StreamEntry>, i: int, e2: StreamEntry)
    requires
        0 <= i < streams.len(),
        e2.name@ == streams[i].name@,
    ensures
        forall|n: Seq<u8>| n != streams[i].name@ ==> #[trigger] elems_in(streams.update(i, e2), n)
            == elems_in(streams, n),
        total_len(streams.update(i, e2)) == total_len(streams) + e2.elems@.len()
            - streams[i].elems@.len(),
    decreases i,
{
    let s2 = streams.update(i, e2);
    if i == 0 {
        assert(s2[0] == e2);
        assert(s2.skip(1) =~= streams.skip(1));
    } else {
        assert(s2[0] == streams[0]);
        assert(s2.skip(1) =~= streams.skip(1).update(i - 1, e2));
        assert(streams.skip(1)[i - 1] == streams[i]);
        lemma_elems_in_update(streams.skip(1), i - 1, e2);
        assert forall|n: Seq<u8>| n != streams[i].name@ implies #[trigger] elems_in(s2, n)
            == elems_in(streams, n) by {
            if n == streams[0].name@ {
                assert(elems_in(s2, n) == s2[0].elems@);
            } else {
                assert(elems_in(s2, n) == elems_in(s2.skip(1), n));
            }
        }
    }
}

/// Appending an entry with a fresh name creates that name's list and
/// leaves every other list alone.
proof fn lemma_elems_in_push(streams: Seq<StreamEntry>, entry: StreamEntry)
    requires
        forall|i: int| 0 <= i < streams.len() ==> (#[trigger] streams[i].name@) != entry.name@,
    ensures
        elems_in(streams.push(entry), entry.name@) == entry.elems@,
        forall|n: Seq<u8>| n != entry.name@ ==> #[trigger] elems_in(streams.push(entry), n)
            == elems_in(streams, n),
        total_len(streams.push(entry)) == total_len(streams) + entry.elems@.len(),
    decreases streams.len(),
{
    let s2 = streams.push(entry);
    if streams.len() == 0 {
        assert(s2[0] == entry);
        assert(s2.skip(1) =~= Seq::<StreamEntry>::empty());
        assert(elems_in(Seq::<StreamEntry>::empty(), entry.name@) == Seq::<IndexElement>::empty());
        assert(total_len(Seq::<StreamEntry>::empty()) == 0);
        assert forall|n: Seq<u8>| n != entry.name@ implies #[trigger] elems_in(s2, n) == elems_in(
            streams,
            n,
        ) by {
            assert(elems_in(s2, n) == elems_in(s2.skip(1), n));
            assert(elems_in(s2.skip(1), n) == Seq::<IndexElement>::empty());
            assert(elems_in(streams, n) == Seq::<IndexElement>::empty());
        }
    } else {
        assert(s2[0] == streams[0]);
        assert(s2.skip(1) =~= streams.skip(1).push(entry));
        assert forall|i: int| 0 <= i < streams.skip(1).len() implies (#[trigger] streams.skip(
            1,
        )[i].name@) != entry.name@ by {
            assert(streams.skip(1)[i] == streams[i + 1]);
        }
        lemma_elems_in_push(streams.skip(1), entry);
        assert(streams[0].name@ != entry.name@);
        assert(elems_in(s2, entry.name@) == elems_in(s2.skip(1), entry.name@));
        assert forall|n: Seq<u8>| n != entry.name@ implies #[trigger] elems_in(s2, n) == elems_in(
            streams,
            n,
        ) by {
            if n == streams[0].name@ {
                assert(elems_in(s2, n) == s2[0].elems@);
                assert(elems_in(streams, n) == streams[0].elems@);
            } else {
                assert(elems_in(s2, n) == elems_in(s2.skip(1), n));
                assert(elems_in(streams, n) == elems_in(streams.skip(1), n));
            }
        }
    }
}

impl Index {
    /// The locations of the stream's events; the reserved name reads the
    /// synthetic list, an unknown name reads an empty list.
    pub open spec fn elems_of(self, name: Seq<u8>) -> Seq<IndexElement> {
        if name == all_name() {
            self.all@
        } else {
            elems_in(self.streams@, name)
        }
    }

    /// Stream names are distinct, none is the reserved name, and the
    /// synthetic list accounts for every location of every named stream.
    pub open spec fn wf(self) -> bool {
        &&& forall|a: int, b: int|
            0 <= a < b < self.streams@.len() ==> (#[trigger] self.streams@[a].name@) != (
            #[trigger] self.streams@[b].name@)
        &&& forall|i: int|
            0 <= i < self.streams@.len() ==> (#[trigger] self.streams@[i].name@) != all_name()
        &&& self.all@.len() == total_len(self.streams@)
    }

    /// An empty index.
    pub fn new() -> (r: Self)
        ensures
            r.wf(),
            r.all@.len() == 0,
            r.streams@.len() == 0,
            forall|name: Seq<u8>| (#[trigger] r.elems_of(name)).len() == 0,
    {
        let r = Index { streams: Vec::new(), all: Vec::new() };
        proof {
            assert forall|name: Seq<u8>| (#[trigger] r.elems_of(name)).len() == 0 by {
                assert(elems_in(r.streams@, name) == Seq::<IndexElement>::empty());
            }
        }
        r
    }

    /// Find the position of a name among the entries, or their number.
    fn find(&self, stream_name: &Vec<u8>) -> (idx: usize)
        ensures
            idx <= self.streams@.len(),
            idx < self.streams@.len() ==> self.streams@[idx as int].name@ == stream_name@,
            idx == self.streams@.len() ==> forall|j: int|
                0 <= j < self.streams@.len() ==> (#[trigger] self.streams@[j].name@)
                    != stream_name@,
    {
        let n = self.streams.len();
        let mut idx: usize = n;
        let mut i: usize = 0;
        while i < n
            invariant
                0 <= i <= n,
                n == self.streams@.len(),
                idx <= n,
                idx == n ==> forall|j: int|
                    0 <= j < i ==> (#[trigger] self.streams@[j].name@) != stream_name@,
                idx < n ==> self.streams@[idx as int].name@ == stream_name@,
            decreases n - i,
        {
            if idx == n && bytes_eq(&self.streams[i].name, stream_name) {
                idx = i;
            }
            i = i + 1;
        }
        idx
    }

    /// Record one location under the stream's name and under the reserved
    /// stream, creating the named list when it is new.
    pub fn add(&mut self, stream_name: &Vec<u8>, value: IndexElement)
        requires
            old(self).wf(),
            stream_name@ != all_name(),
        ensures
            final(self).wf(),
            final(self).elems_of(stream_name@) == old(self).elems_of(stream_name@).push(value),
            final(self).all@ == old(self).all@.push(value),
            forall|n: Seq<u8>|
                n != stream_name@ && n != all_name() ==> #[trigger] final(self).elems_of(n) == old(
                    self,
                ).elems_of(n),
    {
        let idx = self.find(stream_name);
        if idx < self.streams.len() {
            let ghost streams0 = self.streams@;
            let mut entry = self.streams.remove(idx);
            let ghost entry0 = entry;
            entry.elems.push(value);
            self.streams.insert(idx, entry);
            proof {
                assert(self.streams@[idx as int].name@ == entry0.name@);
                assert(self.streams@[idx as int].elems@ == entry0.elems@.push(value));
                assert(self.streams@ =~= streams0.update(
                    idx as int,
                    self.streams@[idx as int],
                ));
                lemma_elems_in_update(streams0, idx as int, self.streams@[idx as int]);
                lemma_elems_in_found(streams0, idx as int);
                lemma_elems_in_found(self.streams@, idx as int);
            }
        } else {
            let ghost streams0 = self.streams@;
            let mut elems: Vec<IndexElement> = Vec::new();
            elems.push(value);
            let entry = StreamEntry { name: copy_bytes(stream_name), elems };
            self.streams.push(entry);
            proof {
                let e = self.streams@[streams0.len() as int];
                assert(self.streams@ =~= streams0.push(e));
                lemma_elems_in_push(streams0, e);
                lemma_elems_in_absent(streams0, stream_name@);
                assert(e.elems@ =~= Seq::<IndexElement>::empty().push(value));
            }
        }
        self.all.push(value);
    }

    /// The locations of the stream's events, as a fresh vector; an unknown
    /// stream is created empty so that readers observe an empty stream.
    pub fn fetch_one(&mut self, stream_name: &Vec<u8>) -> (r: Vec<IndexElement>)
        requires
            old(self).wf(),
        ensures
            final(self).wf(),
            r@ == old(self).elems_of(stream_name@),
            forall|n: Seq<u8>| #[trigger] final(self).elems_of(n) == old(self).elems_of(n),
            final(self).all@ == old(self).all@,
    {
        if is_all_name(stream_name) {
            return copy_elems(&self.all);
        }
        let idx = self.find(stream_name);
        if idx < self.streams.len() {
            proof {
                lemma_elems_in_found(self.streams@, idx as int);
            }
            copy_elems(&self.streams[idx].elems)
        } else {
            let ghost streams0 = self.streams@;
            let entry = StreamEntry { name: copy_bytes(stream_name), elems: Vec::new() };
            self.streams.push(entry);
            proof {
                let e = self.streams@[streams0.len() as int];
                assert(self.streams@ =~= streams0.push(e));
                lemma_elems_in_push(streams0, e);
                lemma_elems_in_absent(streams0, stream_name@);
            }
            Vec::new()
        }
    }
}

impl Index {
    /// Rebuild the index from the chunk files, lowest id first: verify and
    /// walk each chunk, record every event under its stream and under the
    /// reserved stream, and return the highest chunk as the candidate
    /// active chunk together with the next event id.
    #[verifier::loop_isolation(false)]
    pub fn initialize(&mut self, files: &Vec<ChunkFile>) -> (r: Result<
        (Option<LogChunk>, u64),
        StoreError,
    >)
        requires
            old(self).wf(),
            old(self).streams@.len() == 0,
            old(self).all@.len() == 0,
            forall|i: int| 0 <= i < files@.len() ==> (#[trigger] files@[i].id) as int == i + 1,
        ensures
            match r {
                Ok(pair) => {
                    &&& files_ok(files@)
                    &&& no_reserved(files@)
                    &&& next_id_of(files@) <= u64::MAX
                    &&& final(self).wf()
                    &&& linked(*final(self), store_hist(files@))
                    &&& forall|i: int|
                        0 <= i < files@.len() ==> is_image(
                            (#[trigger] files@[i]).bytes@,
                            store_hist(files@)[i],
                        ) && digest_ok(files@[i].bytes@)
                    &&& pair.1 as int == next_id_of(files@)
                    &&& (files@.len() == 0 <==> pair.0 is None)
                    &&& (files@.len() > 0 ==> {
                        let c = pair.0.unwrap();
                        &&& c.wf()
                        &&& c.id as int == files@.len()
                        &&& c.events@ == store_hist(files@).last()
                        &&& c.bytes@ == files@.last().bytes@
                        &&& digest_ok(c.bytes@)
                    })
                },
                Err(e) => !(files_ok(files@) && no_reserved(files@) && next_id_of(files@)
                    <= u64::MAX),
            },
    {
        let ghost goal = store_hist(files@);
        let mut last_chunk: Option<LogChunk> = None;
        let mut last_eid: u64 = 0;
        let mut last_has: bool = false;
        let ghost mut hist: Seq<Seq<EventV>> = Seq::empty();
        proof {
            assert forall|name: Seq<u8>| (#[trigger] self.elems_of(name)).len() == 0 by {
                assert(elems_in(self.streams@, name) == Seq::<IndexElement>::empty());
            }
            lemma_linked_empty(*self);
        }
        let n = files.len();
        let mut i: usize = 0;
        while i < n
            invariant
                0 <= i <= n,
                self.wf(),
                hist.len() == i,
                forall|t: int|
                    0 <= t < i ==> #[trigger] hist[t] == file_events(files@[t].bytes@),
                forall|t: int|
                    0 <= t < i ==> chunk_file_ok((#[trigger] files@[t]).bytes@) && is_image(
                        files@[t].bytes@,
                        hist[t],
                    ) && digest_ok(files@[t].bytes@),
                forall|t: int, k: int|
                    0 <= t < i && 0 <= k < hist[t].len() ==> (#[trigger] hist[t][k]).name
                        != all_name(),
                linked(*self, hist),
                i == 0 ==> last_chunk is None && !last_has,
                i > 0 ==> last_chunk is Some,
                i > 0 ==> {
                    let c = last_chunk.unwrap();
                    &&& c.wf()
                    &&& c.id as int == i
                    &&& c.events@ == hist[i - 1]
                    &&& c.bytes@ == files@[i - 1].bytes@
                    &&& digest_ok(c.bytes@)
                },
                i > 0 ==> last_has == (hist[i - 1].len() > 0),
                i > 0 && last_has ==> last_eid == hist[i - 1].last().id,
            decreases n - i,
        {
            let file_bytes = copy_bytes(&files[i].bytes);
            let id = files[i].id;
            match LogChunk::index(id, file_bytes) {
                Err(e) => {
                    proof {
                        assert(!chunk_file_ok(files@[i as int].bytes@));
                    }
                    return Err(e);
                },
                Ok((chunk, info)) => {
                    let ghost evs = chunk.events@;
                    let ghost hist_base = hist;
                    proof {
                        hist = hist.push(Seq::empty());
                        lemma_linked_new_chunk(*self, hist_base);
                        assert(evs.take(0) =~= Seq::<EventV>::empty());
                    }
                    let m = info.len();
                    let mut k: usize = 0;
                    while k < m
                        invariant
                            0 <= k <= m,
                            self.wf(),
                            hist == hist_base.push(evs.take(k as int)),
                            linked(*self, hist),
                            forall|t: int| 0 <= t < k ==> (#[trigger] evs[t]).name != all_name(),
                        decreases m - k,
                    {
                        let name = &info[k].0;
                        if is_all_name(name) {
                            proof {
                                assert(file_events(files@[i as int].bytes@)[k as int].name
                                    == all_name());
                            }
                            return Err(StoreError::IllegalStream);
                        }
                        let elem = IndexElement { chunk_number: chunk.id, offset: chunk.offsets[k] };
                        let ghost idx0 = *self;
                        self.add(name, elem);
                        proof {
                            let e = evs[k as int];
                            assert(evs.take(k as int).take(k as int) =~= evs.take(k as int));
                            assert(record_start(evs.take(k as int), k as int) == record_start(
                                evs,
                                k as int,
                            ));
                            assert(elem == next_elem(hist));
                            lemma_linked_extend(idx0, *self, hist, e);
                            assert(evs.take(k as int).push(e) =~= evs.take(k as int + 1));
                            assert(hist.update(hist.len() - 1, hist.last().push(e))
                                =~= hist_base.push(evs.take(k as int + 1)));
                            hist = hist_base.push(evs.take(k as int + 1));
                        }
                        k = k + 1;
                    }
                    if m > 0 {
                        last_eid = info[m - 1].1;
                        last_has = true;
                    } else {
                        last_has = false;
                    }
                    proof {
                        assert(evs.take(m as int) =~= evs);
                        assert(hist =~= hist_base.push(evs));
                        hist = hist_base.push(evs);
                    }
                    last_chunk = Some(chunk);
                },
            }
            i = i + 1;
        }
        let next_id: u64;
        if last_has {
            if last_eid == u64::MAX {
                proof {
                    assert(hist[n as int - 1] == file_events(files@[n as int - 1].bytes@));
                    assert(next_id_of(files@) > u64::MAX);
                }
                return Err(StoreError::BadLayout);
            }
            next_id = last_eid + 1;
        } else {
            next_id = 1;
        }
        proof {
            assert(hist =~= goal);
        }
        Ok((last_chunk, next_id))
    }
}

/// The reserved stream's list accounts for every event of every named
/// stream: its length is the sum of their lengths.
pub proof fn lemma_all_accounts(index: Index)
    requires
        index.wf(),
    ensures
        index.all@.len() == total_len(index.streams@),
{
}

/// Copy a vector of locations.
pub(crate) fn copy_elems(v: &Vec<IndexElement>) -> (r: Vec<IndexElement>)
    ensures
        r@ == v@,
{
    let mut r: Vec<IndexElement> = Vec::new();
    let mut i: usize = 0;
    while i < v.len()
        invariant
            0 <= i <= v@.len(),
            r@ == v@.take(i as int),
        decreases v@.len() - i,
    {
        r.push(v[i]);
        i = i + 1;
        proof {
            assert(r@ =~= v@.take(i as int));
        }
    }
    proof {
        assert(v@.take(v@.len() as int) =~= v@);
    }
    r
}

} // verus!
