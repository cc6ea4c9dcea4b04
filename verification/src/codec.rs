//! The binary encoding of events and of chunk record lists.
//!
//! An encoded event is `u64 id . u64 timestamp . u64 name_len . name .
//! u64 payload_len . payload`, all integers little-endian.  A record is the
//! encoded event prefixed by its `u32` length; a chunk body is a sequence of
//! records back to back.
use vstd::bytes::*;
use vstd::prelude::*;

verus! {

/// Mathematical model of one event.
#[verifier::ext_equal]
pub struct EventV {
    pub id: u64,
    pub timestamp: i64,
    pub name: Seq<u8>,
    pub payload: Seq<u8>,
}

/// One event: an id assigned at append time, a write timestamp in seconds
/// since the epoch, the name of the stream it belongs to, and an opaque
/// payload.
#[derive(Debug, Clone)]
pub struct Event {
    pub id: u64,
    pub timestamp: i64,
    pub name: Vec<u8>,
    pub payload: Vec<u8>,
}

impl View for Event {
    type V = EventV;

    open spec fn view(&self) -> EventV {
        EventV { id: self.id, timestamp: self.timestamp, name: self.name@, payload: self.payload@ }
    }
}

impl Event {
    /// Build an event; the caller assigns the id, the timestamp is taken
    /// from the clock at creation time.
    pub fn new(next_id: u64, name: &Vec<u8>, payload: &Vec<u8>) -> (r: Event)
        ensures
            r.id == next_id,
            r@.name == name@,
            r@.payload == payload@,
    {
        Event {
            id: next_id,
            timestamp: crate::clock::now_seconds(),
            name: copy_bytes(name),
            payload: copy_bytes(payload),
        }
    }
}

/// True when the name and payload lengths can be written as `u64` prefixes.
pub open spec fn event_fits(e: EventV) -> bool {
    &&& e.name.len() <= u64::MAX
    &&& e.payload.len() <= u64::MAX
}

/// The encoded form of one event.
pub open spec fn spec_encode_event(e: EventV) -> Seq<u8> {
    spec_u64_to_le_bytes(e.id) + spec_u64_to_le_bytes(e.timestamp as u64) + spec_u64_to_le_bytes(
        e.name.len() as u64,
    ) + e.name + spec_u64_to_le_bytes(e.payload.len() as u64) + e.payload
}

/// Parse a byte sequence that should hold exactly one encoded event.
pub open spec fn parse_event(bs: Seq<u8>) -> Option<EventV> {
    if bs.len() < 32 {
        None
    } else {
        let id = spec_u64_from_le_bytes(bs.subrange(0, 8));
        let ts = spec_u64_from_le_bytes(bs.subrange(8, 16)) as i64;
        let nlen = spec_u64_from_le_bytes(bs.subrange(16, 24)) as int;
        if 32 + nlen > bs.len() {
            None
        } else {
            let name = bs.subrange(24, 24 + nlen);
            let plen = spec_u64_from_le_bytes(bs.subrange(24 + nlen, 32 + nlen)) as int;
            if 32 + nlen + plen != bs.len() {
                None
            } else {
                Some(
                    EventV {
                        id,
                        timestamp: ts,
                        name,
                        payload: bs.subrange(32 + nlen, bs.len() as int),
                    },
                )
            }
        }
    }
}

/// Field-by-field layout of an encoded event.
pub proof fn lemma_encode_shape(e: EventV)
    requires
        event_fits(e),
    ensures
        spec_encode_event(e).len() == 32 + e.name.len() + e.payload.len(),
        spec_encode_event(e).subrange(0, 8) == spec_u64_to_le_bytes(e.id),
        spec_encode_event(e).subrange(8, 16) == spec_u64_to_le_bytes(e.timestamp as u64),
        spec_encode_event(e).subrange(16, 24) == spec_u64_to_le_bytes(e.name.len() as u64),
        spec_encode_event(e).subrange(24, 24 + e.name.len() as int) == e.name,
        spec_encode_event(e).subrange(24 + e.name.len() as int, 32 + e.name.len() as int)
            == spec_u64_to_le_bytes(e.payload.len() as u64),
        spec_encode_event(e).subrange(
            32 + e.name.len() as int,
            32 + e.name.len() as int + e.payload.len() as int,
        ) == e.payload,
{
    lemma_auto_spec_u64_to_from_le_bytes();
    let enc = spec_encode_event(e);
    let n = e.name.len() as int;
    let p = e.payload.len() as int;
    assert(enc.len() == 32 + n + p);
    assert(enc.subrange(0, 8) =~= spec_u64_to_le_bytes(e.id));
    assert(enc.subrange(8, 16) =~= spec_u64_to_le_bytes(e.timestamp as u64));
    assert(enc.subrange(16, 24) =~= spec_u64_to_le_bytes(e.name.len() as u64));
    assert(enc.subrange(24, 24 + n) =~= e.name);
    assert(enc.subrange(24 + n, 32 + n) =~= spec_u64_to_le_bytes(e.payload.len() as u64));
    assert(enc.subrange(32 + n, 32 + n + p) =~= e.payload);
}

/// Encoding followed by parsing gives the event back.
pub proof fn lemma_encode_parse(e: EventV)
    requires
        event_fits(e),
    ensures
        parse_event(spec_encode_event(e)) == Some(e),
{
    lemma_auto_spec_u64_to_from_le_bytes();
    lemma_encode_shape(e);
    let enc = spec_encode_event(e);
    let n = e.name.len() as int;
    let p = e.payload.len() as int;
    let t = e.timestamp;
    assert((t as u64) as i64 == t) by (bit_vector);
    let parsed = parse_event(enc).unwrap();
    assert(parsed =~= e);
}

/// Parsing succeeds only on the exact encoding of its result.
pub proof fn lemma_parse_sound(bs: Seq<u8>, e: EventV)
    requires
        parse_event(bs) == Some(e),
    ensures
        bs == spec_encode_event(e),
        event_fits(e),
        bs.len() == 32 + e.name.len() + e.payload.len(),
{
    lemma_auto_spec_u64_to_from_le_bytes();
    let nlen = spec_u64_from_le_bytes(bs.subrange(16, 24)) as int;
    let plen = spec_u64_from_le_bytes(bs.subrange(24 + nlen, 32 + nlen)) as int;
    assert(e.name == bs.subrange(24, 24 + nlen));
    assert(e.payload == bs.subrange(32 + nlen, bs.len() as int));
    assert(e.name.len() == nlen);
    assert(e.payload.len() == plen);
    let y = spec_u64_from_le_bytes(bs.subrange(8, 16));
    assert((y as i64) as u64 == y) by (bit_vector);
    assert(spec_u64_to_le_bytes(spec_u64_from_le_bytes(bs.subrange(0, 8))) == bs.subrange(0, 8));
    assert(spec_u64_to_le_bytes(spec_u64_from_le_bytes(bs.subrange(8, 16))) == bs.subrange(8, 16));
    assert(spec_u64_to_le_bytes(spec_u64_from_le_bytes(bs.subrange(16, 24))) == bs.subrange(
        16,
        24,
    ));
    assert(spec_u64_to_le_bytes(spec_u64_from_le_bytes(bs.subrange(24 + nlen, 32 + nlen)))
        == bs.subrange(24 + nlen, 32 + nlen));
    lemma_encode_shape(e);
    let enc = spec_encode_event(e);
    assert forall|i: int| 0 <= i < bs.len() implies bs[i] == enc[i] by {
        if i < 8 {
            assert(bs[i] == bs.subrange(0, 8)[i]);
            assert(enc[i] == enc.subrange(0, 8)[i]);
        } else if i < 16 {
            assert(bs[i] == bs.subrange(8, 16)[i - 8]);
            assert(enc[i] == enc.subrange(8, 16)[i - 8]);
        } else if i < 24 {
            assert(bs[i] == bs.subrange(16, 24)[i - 16]);
            assert(enc[i] == enc.subrange(16, 24)[i - 16]);
        } else if i < 24 + nlen {
            assert(bs[i] == bs.subrange(24, 24 + nlen)[i - 24]);
            assert(enc[i] == enc.subrange(24, 24 + nlen)[i - 24]);
        } else if i < 32 + nlen {
            assert(bs[i] == bs.subrange(24 + nlen, 32 + nlen)[i - 24 - nlen]);
            assert(enc[i] == enc.subrange(24 + nlen, 32 + nlen)[i - 24 - nlen]);
        } else {
            assert(bs[i] == bs.subrange(32 + nlen, bs.len() as int)[i - 32 - nlen]);
            assert(enc[i] == enc.subrange(32 + nlen, enc.len() as int)[i - 32 - nlen]);
        }
    }
    assert(bs =~= enc);
}

/// A record: the encoded event prefixed by its `u32` length.
pub open spec fn spec_record(e: EventV) -> Seq<u8> {
    spec_u32_to_le_bytes(spec_encode_event(e).len() as u32) + spec_encode_event(e)
}

/// True when the record's `u32` length prefix is faithful.
pub open spec fn record_fits(e: EventV) -> bool {
    32 + e.name.len() + e.payload.len() <= u32::MAX
}

/// The bytes of a list of records, back to back.
pub open spec fn body_of(evs: Seq<EventV>) -> Seq<u8>
    decreases evs.len(),
{
    if evs.len() == 0 {
        Seq::empty()
    } else {
        spec_record(evs[0]) + body_of(evs.skip(1))
    }
}

/// Parse a byte sequence as a list of records; `None` when the bytes are
/// not a whole number of well-formed records.
pub open spec fn parse_records(bs: Seq<u8>) -> Option<Seq<EventV>>
    decreases bs.len(),
{
    if bs.len() == 0 {
        Some(Seq::empty())
    } else if bs.len() < 4 {
        None
    } else {
        let n = spec_u32_from_le_bytes(bs.subrange(0, 4)) as int;
        if 4 + n > bs.len() {
            None
        } else {
            match parse_event(bs.subrange(4, 4 + n)) {
                Some(e) => match parse_records(bs.skip(4 + n)) {
                    Some(rest) => Some(seq![e] + rest),
                    None => None,
                },
                None => None,
            }
        }
    }
}

/// Appending an event appends its record.
pub proof fn lemma_body_push(evs: Seq<EventV>, e: EventV)
    ensures
        body_of(evs.push(e)) == body_of(evs) + spec_record(e),
    decreases evs.len(),
{
    if evs.len() == 0 {
        assert(evs.push(e)[0] == e);
        assert(evs.push(e).skip(1) =~= Seq::<EventV>::empty());
        assert(body_of(Seq::<EventV>::empty()) == Seq::<u8>::empty());
        assert(body_of(evs) == Seq::<u8>::empty());
        assert(body_of(evs.push(e)) == spec_record(e) + body_of(Seq::<EventV>::empty()));
        assert(body_of(evs.push(e)) =~= body_of(evs) + spec_record(e));
    } else {
        assert(evs.push(e).skip(1) =~= evs.skip(1).push(e));
        lemma_body_push(evs.skip(1), e);
        assert(evs.push(e)[0] == evs[0]);
        assert(body_of(evs.push(e)) == spec_record(evs[0]) + body_of(evs.skip(1).push(e)));
        assert(spec_record(evs[0]) + (body_of(evs.skip(1)) + spec_record(e)) =~= (spec_record(
            evs[0],
        ) + body_of(evs.skip(1))) + spec_record(e));
    }
}

/// A record list's bytes split at any event boundary.
pub proof fn lemma_body_cat(evs: Seq<EventV>, k: int)
    requires
        0 <= k <= evs.len(),
    ensures
        body_of(evs) == body_of(evs.take(k)) + body_of(evs.skip(k)),
    decreases k,
{
    if k == 0 {
        assert(evs.take(0) =~= Seq::<EventV>::empty());
        assert(evs.skip(0) =~= evs);
        assert(body_of(evs) =~= body_of(evs.take(0)) + body_of(evs.skip(0)));
    } else {
        lemma_body_cat(evs.skip(1), k - 1);
        assert(evs.take(k)[0] == evs[0]);
        assert(evs.take(k).skip(1) =~= evs.skip(1).take(k - 1));
        assert(evs.skip(k) =~= evs.skip(1).skip(k - 1));
        assert(body_of(evs) =~= body_of(evs.take(k)) + body_of(evs.skip(k)));
    }
}

/// The bytes of a record list parse back to the same list.
pub proof fn lemma_parse_body(evs: Seq<EventV>)
    requires
        forall|k: int| 0 <= k < evs.len() ==> record_fits(#[trigger] evs[k]),
    ensures
        parse_records(body_of(evs)) == Some(evs),
    decreases evs.len(),
{
    lemma_auto_spec_u32_to_from_le_bytes();
    if evs.len() == 0 {
    } else {
        let bs = body_of(evs);
        let e = evs[0];
        let enc = spec_encode_event(e);
        let ll = enc.len() as int;
        lemma_encode_shape(e);
        assert(ll == 32 + e.name.len() + e.payload.len());
        assert(bs =~= spec_u32_to_le_bytes(ll as u32) + enc + body_of(evs.skip(1)));
        assert(bs.subrange(0, 4) =~= spec_u32_to_le_bytes(ll as u32));
        assert(spec_u32_from_le_bytes(bs.subrange(0, 4)) == ll as u32);
        assert(bs.subrange(4, 4 + ll) =~= enc);
        lemma_encode_parse(e);
        assert(bs.skip(4 + ll) =~= body_of(evs.skip(1)));
        lemma_parse_body(evs.skip(1));
        assert(seq![e] + evs.skip(1) =~= evs);
    }
}

/// Parsing a record list succeeds only on the exact bytes of its result.
pub proof fn lemma_parse_records_sound(bs: Seq<u8>, evs: Seq<EventV>)
    requires
        parse_records(bs) == Some(evs),
    ensures
        bs == body_of(evs),
        forall|k: int| 0 <= k < evs.len() ==> record_fits(#[trigger] evs[k]),
    decreases bs.len(),
{
    lemma_auto_spec_u32_to_from_le_bytes();
    if bs.len() == 0 {
        assert(evs =~= Seq::<EventV>::empty());
    } else {
        let n = spec_u32_from_le_bytes(bs.subrange(0, 4)) as int;
        let e = parse_event(bs.subrange(4, 4 + n)).unwrap();
        let rest = parse_records(bs.skip(4 + n)).unwrap();
        lemma_parse_sound(bs.subrange(4, 4 + n), e);
        assert(spec_encode_event(e).len() == n);
        lemma_parse_records_sound(bs.skip(4 + n), rest);
        assert(evs == seq![e] + rest);
        assert(evs[0] == e);
        assert(evs.skip(1) =~= rest);
        assert(spec_u32_to_le_bytes(spec_u32_from_le_bytes(bs.subrange(0, 4))) == bs.subrange(
            0,
            4,
        ));
        assert(body_of(evs) =~= spec_u32_to_le_bytes(n as u32) + spec_encode_event(e) + body_of(
            rest,
        ));
        assert forall|i: int| 0 <= i < bs.len() implies bs[i] == body_of(evs)[i] by {
            if i < 4 {
                assert(bs[i] == bs.subrange(0, 4)[i]);
            } else if i < 4 + n {
                assert(bs[i] == bs.subrange(4, 4 + n)[i - 4]);
            } else {
                assert(bs[i] == bs.skip(4 + n)[i - 4 - n]);
            }
        }
        assert(bs =~= body_of(evs));
    }
}

/// The models of a vector of events.
pub open spec fn views_of(s: Seq<Event>) -> Seq<EventV> {
    s.map_values(|ev: Event| ev@)
}

/// Copy a byte vector.
pub fn copy_bytes(v: &Vec<u8>) -> (r: Vec<u8>)
    ensures
        r@ == v@,
{
    let mut r: Vec<u8> = Vec::new();
    let mut i: usize = 0;
    while i < v.len()
        invariant
            0 <= i <= v.len(),
            r@ == v@.take(i as int),
        decreases v.len() - i,
    {
        r.push(v[i]);
        i = i + 1;
        proof {
            assert(r@ =~= v@.take(i as int));
        }
    }
    proof {
        assert(v@.take(v@.len() as int) =~= v@);
    }
    r
}

/// Copy `v[from..to]` into a fresh vector.
pub fn copy_range(v: &Vec<u8>, from: usize, to: usize) -> (r: Vec<u8>)
    requires
        from <= to <= v@.len(),
    ensures
        r@ == v@.subrange(from as int, to as int),
{
    let mut r: Vec<u8> = Vec::new();
    let mut i: usize = from;
    while i < to
        invariant
            from <= i <= to <= v@.len(),
            r@ == v@.subrange(from as int, i as int),
        decreases to - i,
    {
        r.push(v[i]);
        i = i + 1;
        proof {
            assert(r@ =~= v@.subrange(from as int, i as int));
        }
    }
    r
}

/// Read a little-endian `u64` at `pos`.
fn read_u64_at(v: &Vec<u8>, pos: usize) -> (r: u64)
    requires
        pos + 8 <= v@.len(),
    ensures
        r == spec_u64_from_le_bytes(v@.subrange(pos as int, pos as int + 8)),
{
    let n = v.len();
    assert(pos + 8 <= n);
    let piece = copy_range(v, pos, pos + 8);
    u64_from_le_bytes(piece.as_slice())
}

/// Read a little-endian `u32` at `pos`.
pub(crate) fn read_u32_at(v: &Vec<u8>, pos: usize) -> (r: u32)
    requires
        pos + 4 <= v@.len(),
    ensures
        r == spec_u32_from_le_bytes(v@.subrange(pos as int, pos as int + 4)),
{
    let n = v.len();
    assert(pos + 4 <= n);
    let piece = copy_range(v, pos, pos + 4);
    u32_from_le_bytes(piece.as_slice())
}

/// Encode an event into bytes.
pub fn encode_event(e: &Event) -> (r: Vec<u8>)
    requires
        e.name@.len() + e.payload@.len() + 32 <= usize::MAX,
    ensures
        r@ == spec_encode_event(e@),
{
    let mut r: Vec<u8> = u64_to_le_bytes(e.id);
    let mut ts = u64_to_le_bytes(e.timestamp as u64);
    let mut nlen = u64_to_le_bytes(e.name.len() as u64);
    let mut name = copy_bytes(&e.name);
    let mut plen = u64_to_le_bytes(e.payload.len() as u64);
    let mut payload = copy_bytes(&e.payload);
    r.append(&mut ts);
    r.append(&mut nlen);
    r.append(&mut name);
    r.append(&mut plen);
    r.append(&mut payload);
    r
}

/// Decode the event encoded in `data[start..end]`.
pub fn decode_event(data: &Vec<u8>, start: usize, end: usize) -> (r: Option<Event>)
    requires
        start <= end <= data@.len(),
    ensures
        match r {
            Some(ev) => parse_event(data@.subrange(start as int, end as int)) == Some(ev@),
            None => parse_event(data@.subrange(start as int, end as int)) is None,
        },
{
    let ghost bs = data@.subrange(start as int, end as int);
    if end - start < 32 {
        return None;
    }
    let id = read_u64_at(data, start);
    let ts_bits = read_u64_at(data, start + 8);
    let nlen64 = read_u64_at(data, start + 16);
    proof {
        assert(bs.subrange(0, 8) =~= data@.subrange(start as int, start as int + 8));
        assert(bs.subrange(8, 16) =~= data@.subrange(start as int + 8, start as int + 16));
        assert(bs.subrange(16, 24) =~= data@.subrange(start as int + 16, start as int + 24));
    }
    if nlen64 > (end - start - 32) as u64 {
        return None;
    }
    let nlen = nlen64 as usize;
    let name = copy_range(data, start + 24, start + 24 + nlen);
    let plen64 = read_u64_at(data, start + 24 + nlen);
    proof {
        assert(bs.subrange(24, 24 + nlen as int) =~= data@.subrange(
            start as int + 24,
            start as int + 24 + nlen as int,
        ));
        assert(bs.subrange(24 + nlen as int, 32 + nlen as int) =~= data@.subrange(
            start as int + 24 + nlen as int,
            start as int + 32 + nlen as int,
        ));
    }
    if plen64 != (end - start - 32 - nlen) as u64 {
        return None;
    }
    let payload = copy_range(data, start + 32 + nlen, end);
    proof {
        assert(bs.subrange(32 + nlen as int, bs.len() as int) =~= data@.subrange(
            start as int + 32 + nlen as int,
            end as int,
        ));
    }
    Some(Event { id, timestamp: ts_bits as i64, name, payload })
}

} // verus!
