//! The store's mathematical model: which event lives where.
//!
//! The history of a store is the list of its chunks' event lists, in chunk
//! order.  Every contract about the index and the reader is stated against
//! the pairs of (index entry, event) that the history induces.
use crate::chunk::{chunk_file_ok, file_events, record_start, ChunkFile};
use crate::codec::EventV;
use crate::index::{Index, IndexElement};
use vstd::prelude::*;

verus! {

/// The reserved name of the synthetic stream that holds every event:
/// `"$all"` in UTF-8.
pub open spec fn all_name() -> Seq<u8> {
    seq![36u8, 97u8, 108u8, 108u8]
}

/// True when `name` is the reserved stream name.
pub(crate) fn is_all_name(name: &Vec<u8>) -> (r: bool)
    ensures
        r == (name@ == all_name()),
{
    if name.len() != 4 {
        return false;
    }
    let r = name[0] == 36 && name[1] == 97 && name[2] == 108 && name[3] == 108;
    proof {
        if r {
            assert(name@ =~= all_name());
        } else {
            assert(all_name()[0] == 36 && all_name()[1] == 97 && all_name()[2] == 108 && all_name()[
                3
            ] == 108);
        }
    }
    r
}

/// The index entries of one chunk, each paired with the event it points at.
pub open spec fn chunk_pairs(evs: Seq<EventV>, cid: int) -> Seq<(IndexElement, EventV)> {
    Seq::new(
        evs.len(),
        |j: int|
            (
                IndexElement { chunk_number: cid as u32, offset: record_start(evs, j) as u32 },
                evs[j],
            ),
    )
}

/// Every event of the store with the entry that locates it, in global
/// append order.
pub open spec fn store_pairs(hist: Seq<Seq<EventV>>) -> Seq<(IndexElement, EventV)>
    decreases hist.len(),
{
    if hist.len() == 0 {
        Seq::empty()
    } else {
        store_pairs(hist.drop_last()) + chunk_pairs(hist.last(), hist.len() as int)
    }
}

/// Whether a located event belongs to the stream `name`; the reserved
/// stream holds every event.
pub open spec fn belongs(name: Seq<u8>) -> spec_fn((IndexElement, EventV)) -> bool {
    |p: (IndexElement, EventV)| name == all_name() || p.1.name == name
}

/// The located events of stream `name`, in append order.
pub open spec fn pairs_for(hist: Seq<Seq<EventV>>, name: Seq<u8>) -> Seq<(IndexElement, EventV)> {
    store_pairs(hist).filter(belongs(name))
}

/// The index entries of stream `name`, in append order.
pub open spec fn locs_for(hist: Seq<Seq<EventV>>, name: Seq<u8>) -> Seq<IndexElement> {
    pairs_for(hist, name).map_values(|p: (IndexElement, EventV)| p.0)
}

/// The events of stream `name`, in append order.
pub open spec fn events_for(hist: Seq<Seq<EventV>>, name: Seq<u8>) -> Seq<EventV> {
    pairs_for(hist, name).map_values(|p: (IndexElement, EventV)| p.1)
}

/// The index lists are exactly what the history induces, for every stream.
pub open spec fn linked(index: Index, hist: Seq<Seq<EventV>>) -> bool {
    forall|name: Seq<u8>| #[trigger] index.elems_of(name) == locs_for(hist, name)
}

/// The entry that the next event appended to the active (last) chunk gets.
pub open spec fn next_elem(hist: Seq<Seq<EventV>>) -> IndexElement {
    IndexElement {
        chunk_number: hist.len() as u32,
        offset: record_start(hist.last(), hist.last().len() as int) as u32,
    }
}

/// The history that a set of chunk files induces, file `i` holding the
/// chunk with id `i + 1`.
pub open spec fn store_hist(files: Seq<ChunkFile>) -> Seq<Seq<EventV>> {
    Seq::new(files.len(), |i: int| file_events(files[i].bytes@))
}

/// Every file is an acceptable chunk file.
pub open spec fn files_ok(files: Seq<ChunkFile>) -> bool {
    forall|i: int| 0 <= i < files.len() ==> chunk_file_ok((#[trigger] files[i]).bytes@)
}

/// No recorded event carries the reserved stream name.
pub open spec fn no_reserved(files: Seq<ChunkFile>) -> bool {
    forall|i: int, k: int|
        0 <= i < files.len() && 0 <= k < file_events(files[i].bytes@).len() ==> (
        #[trigger] file_events(files[i].bytes@)[k]).name != all_name()
}

/// The event id a store with these files hands out next: one past the last
/// event of the highest chunk, or 1 when that chunk is empty or absent.
pub open spec fn next_id_of(files: Seq<ChunkFile>) -> int {
    if files.len() == 0 {
        1
    } else {
        let evs = file_events(files.last().bytes@);
        if evs.len() == 0 {
            1
        } else {
            evs.last().id + 1
        }
    }
}

/// Stores whose files hold the same bytes, file for file, agree on every
/// derived condition.
pub proof fn lemma_store_conditions_congruent(a: Seq<ChunkFile>, b: Seq<ChunkFile>)
    requires
        a.len() == b.len(),
        forall|i: int| 0 <= i < a.len() ==> (#[trigger] a[i]).bytes@ == b[i].bytes@,
    ensures
        files_ok(a) <==> files_ok(b),
        no_reserved(a) <==> no_reserved(b),
        next_id_of(a) == next_id_of(b),
        store_hist(a) == store_hist(b),
{
    assert(store_hist(a) =~= store_hist(b));
    if files_ok(a) {
        assert forall|i: int| 0 <= i < b.len() implies chunk_file_ok(
            (#[trigger] b[i]).bytes@,
        ) by {
            assert(chunk_file_ok(a[i].bytes@));
        }
    }
    if files_ok(b) {
        assert forall|i: int| 0 <= i < a.len() implies chunk_file_ok(
            (#[trigger] a[i]).bytes@,
        ) by {
            assert(chunk_file_ok(b[i].bytes@));
        }
    }
    if no_reserved(a) {
        assert forall|i: int, k: int|
            0 <= i < b.len() && 0 <= k < file_events(b[i].bytes@).len() implies (
        #[trigger] file_events(b[i].bytes@)[k]).name != all_name() by {
            assert(file_events(a[i].bytes@) == file_events(b[i].bytes@));
            assert(file_events(a[i].bytes@)[k].name != all_name());
        }
    }
    if no_reserved(b) {
        assert forall|i: int, k: int|
            0 <= i < a.len() && 0 <= k < file_events(a[i].bytes@).len() implies (
        #[trigger] file_events(a[i].bytes@)[k]).name != all_name() by {
            assert(file_events(a[i].bytes@) == file_events(b[i].bytes@));
            assert(file_events(b[i].bytes@)[k].name != all_name());
        }
    }
    if a.len() > 0 {
        assert(a.last().bytes@ == b.last().bytes@);
    }
}

/// Filtering past a pushed element keeps or drops just that element.
pub proof fn lemma_filter_push<A>(s: Seq<A>, pred: spec_fn(A) -> bool, x: A)
    ensures
        s.push(x).filter(pred) == if pred(x) {
            s.filter(pred).push(x)
        } else {
            s.filter(pred)
        },
{
    reveal(Seq::filter);
    assert(s.push(x).drop_last() =~= s);
    assert(s.push(x).last() == x);
}

/// Each element of a filtered sequence comes from the sequence.
pub proof fn lemma_filter_elem<A>(s: Seq<A>, pred: spec_fn(A) -> bool, r: int)
    requires
        0 <= r < s.filter(pred).len(),
    ensures
        exists|t: int| 0 <= t < s.len() && s[t] == #[trigger] s.filter(pred)[r],
    decreases s.len(),
{
    reveal(Seq::filter);
    if s.len() == 0 {
    } else {
        let pre = s.drop_last().filter(pred);
        if r < pre.len() {
            lemma_filter_elem(s.drop_last(), pred, r);
            let t = choose|t: int| 0 <= t < s.drop_last().len() && s.drop_last()[t] == pre[r];
            assert(s[t] == s.drop_last()[t]);
            assert(s.filter(pred)[r] == pre[r]);
        } else {
            assert(pred(s.last()));
            assert(s.filter(pred)[r] == s.last());
            assert(s[s.len() - 1] == s.last());
        }
    }
}

/// Opening a fresh, empty chunk adds no located events.
pub proof fn lemma_store_pairs_new_chunk(hist: Seq<Seq<EventV>>)
    ensures
        store_pairs(hist.push(Seq::empty())) == store_pairs(hist),
{
    let h2 = hist.push(Seq::<EventV>::empty());
    assert(h2.drop_last() =~= hist);
    assert(h2.last() =~= Seq::<EventV>::empty());
    assert(chunk_pairs(Seq::<EventV>::empty(), h2.len() as int) =~= Seq::<(
        IndexElement,
        EventV,
    )>::empty());
    assert(store_pairs(h2) =~= store_pairs(hist));
}

/// Appending an event to the active chunk appends one located event.
pub proof fn lemma_store_pairs_push(hist: Seq<Seq<EventV>>, e: EventV)
    requires
        hist.len() >= 1,
    ensures
        store_pairs(hist.update(hist.len() - 1, hist.last().push(e))) == store_pairs(hist).push(
            (next_elem(hist), e),
        ),
{
    let evs = hist.last();
    let cid = hist.len() as int;
    let h2 = hist.update(hist.len() - 1, evs.push(e));
    assert(h2.drop_last() =~= hist.drop_last());
    assert(h2.last() == evs.push(e));
    assert(h2.len() == hist.len());
    assert forall|j: int| 0 <= j < evs.len() implies chunk_pairs(evs.push(e), cid)[j]
        == chunk_pairs(evs, cid)[j] by {
        assert(evs.push(e).take(j) =~= evs.take(j));
    }
    assert(evs.push(e).take(evs.len() as int) =~= evs);
    assert(evs.take(evs.len() as int) =~= evs);
    assert(record_start(evs.push(e), evs.len() as int) == record_start(evs, evs.len() as int));
    assert(evs.push(e)[evs.len() as int] == e);
    assert(chunk_pairs(evs.push(e), cid)[evs.len() as int] == (next_elem(hist), e));
    assert(chunk_pairs(evs.push(e), cid) =~= chunk_pairs(evs, cid).push((next_elem(hist), e)));
    assert(store_pairs(h2) =~= store_pairs(hist).push((next_elem(hist), e)));
}

/// An index that matches the history still matches it after a rotation.
pub proof fn lemma_linked_new_chunk(index: Index, hist: Seq<Seq<EventV>>)
    requires
        linked(index, hist),
    ensures
        linked(index, hist.push(Seq::empty())),
        forall|n: Seq<u8>| #[trigger] events_for(hist.push(Seq::empty()), n) == events_for(
            hist,
            n,
        ),
{
    lemma_store_pairs_new_chunk(hist);
}

/// An empty index matches the empty history.
pub proof fn lemma_linked_empty(index: Index)
    requires
        index.all@.len() == 0,
        forall|name: Seq<u8>| (#[trigger] index.elems_of(name)).len() == 0,
    ensures
        linked(index, Seq::empty()),
{
    reveal(Seq::filter);
    assert forall|name: Seq<u8>| #[trigger] index.elems_of(name) == locs_for(
        Seq::<Seq<EventV>>::empty(),
        name,
    ) by {
        assert(store_pairs(Seq::<Seq<EventV>>::empty()) == Seq::<(IndexElement, EventV)>::empty());
        assert(pairs_for(Seq::<Seq<EventV>>::empty(), name) =~= Seq::<(
            IndexElement,
            EventV,
        )>::empty());
        assert(locs_for(Seq::<Seq<EventV>>::empty(), name) =~= Seq::<IndexElement>::empty());
        assert(index.elems_of(name) =~= Seq::<IndexElement>::empty());
    }
}

/// After appending event `e` to the active chunk and recording its entry
/// under `e.name` and under the reserved stream, the index matches again.
pub proof fn lemma_linked_extend(idx0: Index, idx2: Index, hist: Seq<Seq<EventV>>, e: EventV)
    requires
        hist.len() >= 1,
        linked(idx0, hist),
        e.name != all_name(),
        idx2.all@ == idx0.all@.push(next_elem(hist)),
        idx2.elems_of(e.name) == idx0.elems_of(e.name).push(next_elem(hist)),
        forall|n: Seq<u8>| n != e.name && n != all_name() ==> #[trigger] idx2.elems_of(n)
            == idx0.elems_of(n),
    ensures
        linked(idx2, hist.update(hist.len() - 1, hist.last().push(e))),
        events_for(hist.update(hist.len() - 1, hist.last().push(e)), e.name) == events_for(
            hist,
            e.name,
        ).push(e),
        events_for(hist.update(hist.len() - 1, hist.last().push(e)), all_name()) == events_for(
            hist,
            all_name(),
        ).push(e),
        forall|n: Seq<u8>| n != e.name && n != all_name() ==> #[trigger] events_for(
            hist.update(hist.len() - 1, hist.last().push(e)),
            n,
        ) == events_for(hist, n),
{
    let elem = next_elem(hist);
    let h2 = hist.update(hist.len() - 1, hist.last().push(e));
    lemma_store_pairs_push(hist, e);
    assert forall|name: Seq<u8>|
        (#[trigger] pairs_for(h2, name)) == if name == all_name() || name == e.name {
            pairs_for(hist, name).push((elem, e))
        } else {
            pairs_for(hist, name)
        } by {
        lemma_filter_push(store_pairs(hist), belongs(name), (elem, e));
    }
    assert forall|name: Seq<u8>| #[trigger] idx2.elems_of(name) == locs_for(h2, name) by {
        if name == all_name() || name == e.name {
            assert(locs_for(h2, name) =~= locs_for(hist, name).push(elem));
        } else {
            assert(locs_for(h2, name) =~= locs_for(hist, name));
        }
        assert(idx0.elems_of(name) == locs_for(hist, name));
    }
    assert(events_for(h2, e.name) =~= events_for(hist, e.name).push(e));
    assert(events_for(h2, all_name()) =~= events_for(hist, all_name()).push(e));
    assert forall|n: Seq<u8>| n != e.name && n != all_name() implies #[trigger] events_for(h2, n)
        == events_for(hist, n) by {
        assert(events_for(h2, n) =~= events_for(hist, n));
    }
}

/// Each located event of a stream sits at a record boundary of its chunk.
pub proof fn lemma_store_pairs_elem(hist: Seq<Seq<EventV>>, r: int)
    requires
        0 <= r < store_pairs(hist).len(),
    ensures
        exists|i: int, j: int|
            {
                &&& 0 <= i < hist.len()
                &&& 0 <= j < hist[i].len()
                &&& #[trigger] store_pairs(hist)[r] == (
                    IndexElement {
                        chunk_number: (i + 1) as u32,
                        offset: record_start(hist[i], j) as u32,
                    },
                    hist[i][j],
                )
            },
    decreases hist.len(),
{
    let pre = store_pairs(hist.drop_last());
    if r < pre.len() {
        lemma_store_pairs_elem(hist.drop_last(), r);
        let (i, j) = choose|i: int, j: int|
            {
                &&& 0 <= i < hist.drop_last().len()
                &&& 0 <= j < hist.drop_last()[i].len()
                &&& #[trigger] store_pairs(hist.drop_last())[r] == (
                    IndexElement {
                        chunk_number: (i + 1) as u32,
                        offset: record_start(hist.drop_last()[i], j) as u32,
                    },
                    hist.drop_last()[i][j],
                )
            };
        assert(hist.drop_last()[i] == hist[i]);
        assert(store_pairs(hist)[r] == pre[r]);
        assert(store_pairs(hist)[r] == (
            IndexElement { chunk_number: (i + 1) as u32, offset: record_start(hist[i], j) as u32 },
            hist[i][j],
        ));
    } else {
        let i = hist.len() - 1;
        let j = r - pre.len();
        assert(store_pairs(hist)[r] == chunk_pairs(hist.last(), hist.len() as int)[j]);
        assert(hist[i] == hist.last());
        assert(store_pairs(hist)[r] == (
            IndexElement { chunk_number: (i + 1) as u32, offset: record_start(hist[i], j) as u32 },
            hist[i][j],
        ));
    }
}

} // verus!
