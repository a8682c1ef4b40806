//! The `END` token that closes a message, and messages that are partially or fully received.
use vstd::prelude::*;
use std::collections::BTreeMap;
use vstd::std_specs::btree::increasing_seq;
use crate::chunking::{
    title, ChunkedMsg, MsgId, CommandId, get_cmd_ids_and_nums, packet_cmd_id, packet_msg_id, msg_view, CHUNK_TITLE_SIZE, CHUNK_FOOTER, MAX_DATAGRAM_SIZE, PKT_NM_INDEX,
    CHUNK_METADATA_SIZE, CHUNK_PAYLOAD_SIZE, chunked_message, packet_count, packets_in_order,
    packets_below, lemma_msg_view_dom, lemma_chunked_message_len, lemma_packet_count, packet,
    chunk_payload,
};
use crate::error::ProtocolError;
use crate::serializeable::{
    Serializeable, copy_range, ClientCommandType, ServerCommandType, ClientCommand, ServerCommand,
    client_command_survives, server_command_survives, lemma_client_command_roundtrip,
    lemma_server_command_roundtrip, login_request_bytes, login_bytes, objects_bytes,
    lemma_login_bytes_len, LOGIN_ID, UPDATE_OBJS_ID, ID_FETCH_ID,
};
use crate::endian::u32_be;
use vstd::utf8::encode_utf8;
use crate::endian::group_be_lengths;

verus! {

broadcast use {lemma_msg_view_dom, group_be_lengths};

/// The bytes of `END`.
pub const END_E: u8 = 69;

pub const END_N: u8 = 78;

pub const END_D: u8 = 68;

pub open spec fn end_token() -> Seq<u8> {
    seq![END_E, END_N, END_D]
}

/// The largest packet number below `k` that `m` holds.
pub open spec fn last_key_below(m: Map<u8, Seq<u8>>, k: nat) -> Option<u8>
    decreases k,
{
    if k == 0 {
        None
    } else if m.contains_key((k - 1) as u8) {
        Some((k - 1) as u8)
    } else {
        last_key_below(m, (k - 1) as nat)
    }
}

/// The largest packet number of `m`.
pub open spec fn last_key(m: Map<u8, Seq<u8>>) -> Option<u8> {
    last_key_below(m, 256)
}

/// The largest packet number below `k` is held by `m` and no larger one below `k` is.
proof fn lemma_last_key_below(m: Map<u8, Seq<u8>>, k: nat)
    requires
        k <= 256,
    ensures
        match last_key_below(m, k) {
            Some(lk) => lk < k && m.contains_key(lk) && forall|j: u8| lk < j < k ==> !m.contains_key(j),
            None => forall|j: u8| j < k ==> !m.contains_key(j),
        },
    decreases k,
{
    if k > 0 {
        lemma_last_key_below(m, (k - 1) as nat);
    }
}

/// The last packet number is the one held with no larger one held.
pub proof fn lemma_last_key(m: Map<u8, Seq<u8>>)
    ensures
        match last_key(m) {
            Some(lk) => m.contains_key(lk) && forall|j: u8| lk < j ==> !m.contains_key(j),
            None => forall|j: u8| !m.contains_key(j),
        },
{
    lemma_last_key_below(m, 256);
}

/// A map is determined to have the last key `lk` by holding it and nothing above it.
proof fn lemma_last_key_is(m: Map<u8, Seq<u8>>, lk: u8)
    requires
        m.contains_key(lk),
        forall|j: u8| lk < j ==> !m.contains_key(j),
    ensures
        last_key(m) == Some(lk),
{
    lemma_last_key(m);
    match last_key(m) {
        Some(k) => {
            if k < lk {
                assert(!m.contains_key(lk));
            }
            if k > lk {
                assert(!m.contains_key(k));
            }
        },
        None => {
            assert(!m.contains_key(lk));
        },
    }
}

/// `END` stands at `i` in `p`.
pub open spec fn is_end_at(p: Seq<u8>, i: int) -> bool {
    0 <= i && i + 3 <= p.len() && p[i] == END_E && p[i + 1] == END_N && p[i + 2] == END_D
}

/// The largest position below `n` at which `END` stands in `p`.
pub open spec fn last_end_below(p: Seq<u8>, n: nat) -> Option<int>
    decreases n,
{
    if n == 0 {
        None
    } else if is_end_at(p, n - 1) {
        Some(n - 1)
    } else {
        last_end_below(p, (n - 1) as nat)
    }
}

/// The last position at which `END` stands in `p`.
pub open spec fn last_end_pos(p: Seq<u8>) -> Option<int> {
    if p.len() >= 3 {
        last_end_below(p, (p.len() - 2) as nat)
    } else {
        None
    }
}

/// The message with `END` added: onto the last packet if it still fits in a datagram,
/// else as a new packet after it that copies its title.
pub open spec fn with_end_chunk(m: Map<u8, Seq<u8>>) -> Map<u8, Seq<u8>> {
    let lk = last_key(m).unwrap();
    let p = m[lk];
    if p.len() <= MAX_DATAGRAM_SIZE - 3 {
        m.insert(lk, p + end_token())
    } else {
        m.insert(
            (lk + 1) as u8,
            p.subrange(0, CHUNK_TITLE_SIZE as int).update(PKT_NM_INDEX as int, (lk + 1) as u8)
                + end_token() + seq![CHUNK_FOOTER],
        )
    }
}

/// The message with its `END` removed, or why that is not possible.
pub open spec fn without_end_chunk(m: Map<u8, Seq<u8>>) -> Result<Map<u8, Seq<u8>>, ProtocolError> {
    let lk = last_key(m).unwrap();
    let p = m[lk];
    match last_end_pos(p) {
        None => Err(ProtocolError::NoEndChunk),
        Some(pos) => if pos == CHUNK_TITLE_SIZE {
            Ok(m.remove(lk))
        } else if pos == p.len() - 3 {
            Ok(m.insert(lk, p.subrange(0, p.len() - 3)))
        } else {
            Err(ProtocolError::InvalidEndPosition)
        },
    }
}

/// A message whose last packet carries its title and footer, and whose next packet number
/// is free where `END` needs a packet of its own.
pub open spec fn end_can_be_added(m: Map<u8, Seq<u8>>) -> bool {
    &&& last_key(m) is Some
    &&& m[last_key(m).unwrap()].len() >= CHUNK_TITLE_SIZE + 1
    &&& (m[last_key(m).unwrap()].len() <= MAX_DATAGRAM_SIZE - 3 || last_key(m).unwrap() < 255)
}

/// Removing `END` from a message that it was added to gives back the message.
pub proof fn lemma_add_remove_end(m: Map<u8, Seq<u8>>)
    requires
        end_can_be_added(m),
    ensures
        without_end_chunk(with_end_chunk(m)) == Ok::<Map<u8, Seq<u8>>, ProtocolError>(m),
{
    let lk = last_key(m).unwrap();
    let p = m[lk];
    lemma_last_key(m);
    let m2 = with_end_chunk(m);
    if p.len() <= MAX_DATAGRAM_SIZE - 3 {
        let q = p + end_token();
        assert(is_end_at(q, p.len() as int));
        assert(last_end_pos(q) == Some(p.len() as int));
        lemma_last_key_is(m2, lk);
        assert(q.subrange(0, q.len() - 3) =~= p);
        assert(m2.insert(lk, p) =~= m);
    } else {
        let k2 = (lk + 1) as u8;
        let q = p.subrange(0, CHUNK_TITLE_SIZE as int).update(PKT_NM_INDEX as int, k2) + end_token()
            + seq![CHUNK_FOOTER];
        assert(q.len() == 11);
        assert(!is_end_at(q, 8));
        assert(is_end_at(q, 7));
        assert(last_end_below(q, 8) == Some(7int));
        assert(last_end_below(q, 9) == Some(7int));
        lemma_last_key_is(m2, k2);
        assert(m2.remove(k2) =~= m);
    }
}

/// Finds the largest packet number of a message.
fn last_packet_num(chunks: &ChunkedMsg) -> (res: u8)
    requires
        chunks@.len() > 0,
    ensures
        last_key(msg_view(*chunks)) == Some(res),
{
    let ghost m = msg_view(*chunks);
    proof {
        lemma_last_key(m);
        assert(m.dom() =~= chunks@.dom());
        if !(exists|k: u8| chunks@.contains_key(k)) {
            assert(chunks@.dom() =~= Set::<u8>::empty());
        }
        let k = choose|k: u8| chunks@.contains_key(k);
        assert(m.contains_key(k));
    }
    let mut k: usize = 256;
    while k > 0
        invariant
            k <= 256,
            m == msg_view(*chunks),
            last_key(m) is Some,
            forall|j: u8| j >= k ==> !m.contains_key(j),
        decreases k,
    {
        let key = (k - 1) as u8;
        if chunks.contains_key(&key) {
            proof {
                lemma_last_key_is(m, key);
            }
            return key;
        }
        k = k - 1;
    }
    proof {
        lemma_last_key(m);
    }
    0
}

/// Finds the last position at which `END` stands in `p`.
fn rposition_end(p: &[u8]) -> (res: Option<usize>)
    ensures
        match res {
            Some(j) => last_end_pos(p@) == Some(j as int),
            None => last_end_pos(p@) is None,
        },
{
    let len = p.len();
    if len < 3 {
        return None;
    }
    let mut n = len - 2;
    while n > 0
        invariant
            n <= len - 2,
            len == p@.len(),
            len >= 3,
            last_end_below(p@, (len - 2) as nat) == last_end_below(p@, n as nat),
        decreases n,
    {
        let i = n - 1;
        if p[i] == END_E && p[i + 1] == END_N && p[i + 2] == END_D {
            return Some(i);
        }
        n = n - 1;
    }
    None
}

/// Adds the token `END` to the end of the data: onto the last packet if it fits, otherwise
/// in a new packet.
///
/// The message must hold a packet, and where a new packet is needed its number must fit.
pub fn add_end_chunk(chunks: ChunkedMsg) -> (res: ChunkedMsg)
    requires
        chunks@.len() > 0,
        ({
            let m = msg_view(chunks);
            let lk = last_key(m).unwrap();
            m[lk].len() <= MAX_DATAGRAM_SIZE - 3 || (m[lk].len() >= CHUNK_TITLE_SIZE && lk < 255)
        }),
    ensures
        msg_view(res) == with_end_chunk(msg_view(chunks)),
{
    let mut chunks = chunks;
    let ghost m = msg_view(chunks);
    let lk = last_packet_num(&chunks);
    proof {
        lemma_last_key(m);
    }
    let last_len = match chunks.get(&lk) {
        Some(p) => p.len(),
        None => 0,
    };
    if last_len <= MAX_DATAGRAM_SIZE - 3 {
        match chunks.remove(&lk) {
            Some(mut p) => {
                p.push(END_E);
                p.push(END_N);
                p.push(END_D);
                let ghost pv = p@;
                chunks.insert(lk, p);
                assert(pv =~= m[lk] + end_token());
                assert(msg_view(chunks) =~= m.insert(lk, pv));
            },
            None => {},
        }
    } else {
        let mut new_last: Vec<u8> = Vec::new();
        match chunks.get(&lk) {
            Some(p) => {
                let mut i: usize = 0;
                while i < CHUNK_TITLE_SIZE
                    invariant
                        i <= CHUNK_TITLE_SIZE <= p@.len(),
                        new_last@ =~= p@.subrange(0, i as int),
                    decreases CHUNK_TITLE_SIZE - i,
                {
                    new_last.push(p[i]);
                    i = i + 1;
                }
            },
            None => {},
        }
        new_last.set(PKT_NM_INDEX, lk + 1);
        new_last.push(END_E);
        new_last.push(END_N);
        new_last.push(END_D);
        new_last.push(CHUNK_FOOTER);
        let ghost nv = new_last@;
        chunks.insert(lk + 1, new_last);
        assert(nv =~= m[lk].subrange(0, CHUNK_TITLE_SIZE as int).update(
            PKT_NM_INDEX as int,
            (lk + 1) as u8,
        ) + end_token() + seq![CHUNK_FOOTER]);
        assert(msg_view(chunks) =~= m.insert((lk + 1) as u8, nv));
    }
    chunks
}

/// Removes the token `END` from the end of the data.
///
/// Fails if the last packet holds no `END`, or if its last `END` is neither right after the
/// title (then the whole packet is removed) nor at its very end (then the token is cut off).
pub fn remove_end_chunk(chunks: ChunkedMsg) -> (res: Result<ChunkedMsg, ProtocolError>)
    requires
        chunks@.len() > 0,
    ensures
        match without_end_chunk(msg_view(chunks)) {
            Ok(m) => res matches Ok(r) && msg_view(r) == m,
            Err(e) => res == Err::<ChunkedMsg, ProtocolError>(e),
        },
{
    let mut chunks = chunks;
    let ghost m = msg_view(chunks);
    let lk = last_packet_num(&chunks);
    proof {
        lemma_last_key(m);
    }
    let (pos, last_len) = match chunks.get(&lk) {
        Some(p) => (rposition_end(p.as_slice()), p.len()),
        None => (None, 0),
    };
    assert(last_len == m[lk].len());

    match pos {
        None => Err(ProtocolError::NoEndChunk),
        Some(pos) => {
            if pos == CHUNK_TITLE_SIZE {
                let _ = chunks.remove(&lk);
                assert(msg_view(chunks) =~= m.remove(lk));
                Ok(chunks)
            } else if pos == last_len - 3 {
                match chunks.remove(&lk) {
                    Some(mut p) => {
                        p.truncate(last_len - 3);
                        let ghost pv = p@;
                        chunks.insert(lk, p);
                        assert(pv =~= m[lk].subrange(0, m[lk].len() - 3));
                        assert(msg_view(chunks) =~= m.insert(lk, pv));
                    },
                    None => {},
                }
                Ok(chunks)
            } else {
                Err(ProtocolError::InvalidEndPosition)
            }
        },
    }
}

/// A chunked message of at most 255 packets can take an `END`.
pub proof fn lemma_chunked_end_can_be_added(cmd_id: u8, data: Seq<u8>, msg_id: u32)
    requires
        data.len() <= 255 * CHUNK_PAYLOAD_SIZE,
    ensures
        end_can_be_added(chunked_message(cmd_id, data, msg_id)),
{
    let m = chunked_message(cmd_id, data, msg_id);
    let n = packet_count(data.len());
    lemma_chunked_message_len(cmd_id, data, msg_id);
    let lk = (n - 1) as u8;
    assert(m.contains_key(lk));
    assert forall|j: u8| lk < j implies !m.contains_key(j) by {}
    lemma_last_key_is(m, lk);
    assert(m[lk].len() >= CHUNK_METADATA_SIZE);
}

/// What converting a buffered message to a ready one gives: the value its packets hold
/// once `END` is removed, or the first error on the way.
pub open spec fn ready_result<T: Serializeable>(chunks: Map<u8, Seq<u8>>) -> Result<T::V, ProtocolError> {
    match without_end_chunk(chunks) {
        Err(e) => Err(e),
        Ok(m) => match T::spec_deserialize(m) {
            Ok((v, _)) => Ok(v),
            Err(e) => Err(e),
        },
    }
}

/// The buffered messages that can be converted without running past their data.
pub open spec fn ready_requires<T: Serializeable>(chunks: Map<u8, Seq<u8>>) -> bool {
    &&& chunks.len() > 0
    &&& without_end_chunk(chunks) matches Ok(m) ==> T::deserialize_requires(m)
}

/// A message holds its `END` and no packet is missing.
pub open spec fn buffered_is_ready(chunks: Map<u8, Seq<u8>>) -> bool {
    match last_key(chunks) {
        None => false,
        Some(lk) => last_end_pos(chunks[lk]) is Some && lk == chunks.len() - 1,
    }
}

/// A serializable message that is fully or partially received.
pub enum RemoteData<T: Serializeable> {
    Buffering(ChunkedMsg),
    Ready(T),
}

impl<T: Serializeable> RemoteData<T> {
    /// Converts the message to a ready message.
    ///
    /// Fails if a buffered message has no valid `END` or cannot be deserialized.
    pub fn to_ready(self) -> (res: Result<Self, ProtocolError>)
        requires
            self matches RemoteData::Buffering(c) ==> ready_requires::<T>(msg_view(c)),
        ensures
            match self {
                RemoteData::Ready(_) => res == Ok::<Self, ProtocolError>(self),
                RemoteData::Buffering(c) => match ready_result::<T>(msg_view(c)) {
                    Ok(v) => res matches Ok(RemoteData::Ready(t)) && t@ == v,
                    Err(e) => res is Err && res == Err::<Self, ProtocolError>(e),
                },
            },
    {
        match self {
            RemoteData::Buffering(chunks) => {
                let m = match remove_end_chunk(chunks) {
                    Ok(m) => m,
                    Err(e) => {
                        return Err(e);
                    },
                };
                match T::deserialize(m) {
                    Ok((cmd, _)) => Ok(RemoteData::Ready(cmd)),
                    Err(e) => Err(e),
                }
            },
            RemoteData::Ready(_) => Ok(self),
        }
    }

    /// Determines if a buffered message holds the `END` token in its last packet and
    /// misses no packet, or the data is already ready.
    pub fn is_ready(&self) -> (res: bool)
        ensures
            res == match self {
                RemoteData::Ready(_) => true,
                RemoteData::Buffering(c) => buffered_is_ready(msg_view(*c)),
            },
    {
        match self {
            RemoteData::Ready(_) => true,
            RemoteData::Buffering(msg) => {
                if msg.len() == 0 {
                    proof {
                        lemma_last_key(msg_view(*msg));
                        if last_key(msg_view(*msg)) is Some {
                            msg@.dom().lemma_len0_is_empty();
                            assert(msg@.dom().contains(last_key(msg_view(*msg)).unwrap()));
                        }
                    }
                    return false;
                }
                let lk = last_packet_num(msg);
                proof {
                    lemma_last_key(msg_view(*msg));
                }
                let n = msg.len();
                assert(msg_view(*msg).len() == msg@.len());
                assert(n == msg@.len());
                let found = match msg.get(&lk) {
                    Some(last) => rposition_end(last.as_slice()).is_some(),
                    None => false,
                };
                found && lk as usize == n - 1
            },
        }
    }

    /// Adds a new packet to a buffering message. If this new packet makes the buffering
    /// message ready, converts the message to a ready message.
    ///
    /// Fails if the message is already ready, if the packet is too small, if its packet
    /// number is already held, or if the message it makes ready cannot be converted.
    pub fn add_packet(self, packet: Vec<u8>) -> (res: Result<Self, ProtocolError>)
        requires
            self matches RemoteData::Buffering(c) ==> add_requires::<T>(msg_view(c), packet@),
        ensures
            match self {
                RemoteData::Ready(_) => res == Err::<Self, ProtocolError>(
                    ProtocolError::MessageAlreadyReady,
                ),
                RemoteData::Buffering(c) => if packet@.len() < CHUNK_METADATA_SIZE {
                    res == Err::<Self, ProtocolError>(ProtocolError::PacketTooSmall)
                } else if msg_view(c).contains_key(packet@[PKT_NM_INDEX as int]) {
                    res == Err::<Self, ProtocolError>(ProtocolError::DuplicatePacket)
                } else {
                    let added = msg_view(c).insert(packet@[PKT_NM_INDEX as int], packet@);
                    if buffered_is_ready(added) {
                        match ready_result::<T>(added) {
                            Ok(v) => res matches Ok(RemoteData::Ready(t)) && t@ == v,
                            Err(e) => res is Err && res == Err::<Self, ProtocolError>(e),
                        }
                    } else {
                        res matches Ok(RemoteData::Buffering(r)) && msg_view(r) == added
                    }
                },
            },
    {
        match self {
            RemoteData::Buffering(mut msg) => {
                if packet.len() < CHUNK_METADATA_SIZE {
                    return Err(ProtocolError::PacketTooSmall);
                }
                let pk_id = packet[PKT_NM_INDEX];
                if msg.contains_key(&pk_id) {
                    return Err(ProtocolError::DuplicatePacket);
                }
                let ghost before = msg_view(msg);
                let ghost pv = packet@;
                msg.insert(pk_id, packet);
                assert(msg_view(msg) =~= before.insert(pk_id, pv));
                let this: Self = RemoteData::Buffering(msg);
                if this.is_ready() {
                    this.to_ready()
                } else {
                    Ok(this)
                }
            },
            RemoteData::Ready(_) => Err(ProtocolError::MessageAlreadyReady),
        }
    }
}

/// The buffered messages to which a packet can be added without running past their data:
/// a packet that makes the message ready leaves it convertible.
pub open spec fn add_requires<T: Serializeable>(c: Map<u8, Seq<u8>>, p: Seq<u8>) -> bool {
    p.len() >= CHUNK_METADATA_SIZE && !c.contains_key(p[PKT_NM_INDEX as int]) && buffered_is_ready(
        c.insert(p[PKT_NM_INDEX as int], p),
    ) ==> ready_requires::<T>(c.insert(p[PKT_NM_INDEX as int], p))
}

/// Where a message stands as its packets arrive: still buffering the packets so far,
/// ready with its value, or failed.
pub ghost enum Arrival<V> {
    Buffering(Map<u8, Seq<u8>>),
    Ready(V),
    Failed,
}

/// What adding packet `p` to the buffered packets `c` gives, as `add_packet` does it.
pub open spec fn arrive<T: Serializeable>(c: Map<u8, Seq<u8>>, p: Seq<u8>) -> Arrival<T::V> {
    if p.len() < CHUNK_METADATA_SIZE || c.contains_key(p[PKT_NM_INDEX as int]) {
        Arrival::Failed
    } else {
        let added = c.insert(p[PKT_NM_INDEX as int], p);
        if buffered_is_ready(added) {
            match ready_result::<T>(added) {
                Ok(v) => Arrival::Ready(v),
                Err(_) => Arrival::Failed,
            }
        } else {
            Arrival::Buffering(added)
        }
    }
}

/// What a message becomes when the packets `ps` arrive one after the other, starting
/// from nothing.
pub open spec fn arrive_all<T: Serializeable>(ps: Seq<Seq<u8>>) -> Arrival<T::V>
    decreases ps.len(),
{
    if ps.len() == 0 {
        Arrival::Buffering(Map::empty())
    } else {
        match arrive_all::<T>(ps.drop_last()) {
            Arrival::Buffering(c) => arrive::<T>(c, ps.last()),
            _ => Arrival::Failed,
        }
    }
}

/// The packets of `m` numbered below `k`.
pub open spec fn packets_before(m: Map<u8, Seq<u8>>, k: int) -> Map<u8, Seq<u8>> {
    Map::new(|j: u8| (j as int) < k && m.contains_key(j), |j: u8| m[j])
}

/// A message numbered without gaps from 0 to `n - 1`, each packet carrying its title and
/// footer and its own number, with `END` in the last packet only.
pub open spec fn numbered_in_order(m: Map<u8, Seq<u8>>, n: nat) -> bool {
    &&& 0 < n <= 256
    &&& m.dom().finite()
    &&& m.len() == n
    &&& forall|j: u8| #[trigger] m.contains_key(j) <==> (j as int) < n
    &&& forall|j: u8|
        (j as int) < n ==> (#[trigger] m[j]).len() >= CHUNK_METADATA_SIZE && m[j][PKT_NM_INDEX as int]
            == j
    &&& forall|j: u8| (j as int) < n - 1 ==> last_end_pos(#[trigger] m[j]) is None
    &&& last_end_pos(m[(n - 1) as u8]) is Some
}

/// The packets of a gap-free message, in order of their numbers, are its packets 0 to
/// `n - 1`.
proof fn lemma_packets_below_numbered(m: Map<u8, Seq<u8>>, n: nat, k: nat)
    requires
        numbered_in_order(m, n),
        k <= 256,
    ensures
        packets_below(m, k).len() == if k < n {
            k
        } else {
            n
        },
        forall|i: int| 0 <= i < packets_below(m, k).len() ==> #[trigger] packets_below(m, k)[i] == m[i as u8],
    decreases k,
{
    if k > 0 {
        lemma_packets_below_numbered(m, n, (k - 1) as nat);
    }
}

/// Packets of a gap-free message that arrive in order, with `END` in the last packet
/// only, buffer until the last one, which makes the message ready: the message then
/// reads as what converting the whole message gives.
pub proof fn lemma_arrival_in_order<T: Serializeable>(m: Map<u8, Seq<u8>>, n: nat)
    requires
        numbered_in_order(m, n),
    ensures
        arrive_all::<T>(packets_in_order(m)) == match ready_result::<T>(m) {
            Ok(v) => Arrival::Ready(v),
            Err(_) => Arrival::<T::V>::Failed,
        },
{
    let ps = packets_in_order(m);
    lemma_packets_below_numbered(m, n, 256);
    assert(ps.len() == n);
    assert forall|k: int| 0 <= k < n implies #[trigger] arrive_all::<T>(ps.take(k)) == Arrival::<
        T::V,
    >::Buffering(packets_before(m, k)) by {
        lemma_arrival_prefix::<T>(m, n, k);
    }
    let last = (n - 1) as int;
    assert(ps.take(n as int) =~= ps);
    assert(ps.take(n as int).drop_last() =~= ps.take(last));
    assert(arrive_all::<T>(ps.take(last)) == Arrival::<T::V>::Buffering(packets_before(m, last)));
    let before = packets_before(m, last);
    let lk = (n - 1) as u8;
    assert(ps[last] == m[lk]);
    assert(!before.contains_key(lk));
    assert(before.insert(lk, m[lk]) =~= m);
    lemma_last_key_is(m, lk);
}

/// The first `k` packets of a gap-free message, arriving in order and holding no `END`,
/// are buffered.
proof fn lemma_arrival_prefix<T: Serializeable>(m: Map<u8, Seq<u8>>, n: nat, k: int)
    requires
        numbered_in_order(m, n),
        0 <= k < n,
    ensures
        arrive_all::<T>(packets_in_order(m).take(k)) == Arrival::<T::V>::Buffering(
            packets_before(m, k),
        ),
    decreases k,
{
    let ps = packets_in_order(m);
    lemma_packets_below_numbered(m, n, 256);
    if k == 0 {
        assert(ps.take(0) =~= Seq::<Seq<u8>>::empty());
        assert(packets_before(m, 0) =~= Map::<u8, Seq<u8>>::empty());
    } else {
        lemma_arrival_prefix::<T>(m, n, k - 1);
        assert(ps.take(k).drop_last() =~= ps.take(k - 1));
        let j = (k - 1) as u8;
        assert(ps.take(k).last() == m[j]);
        let before = packets_before(m, k - 1);
        assert(!before.contains_key(j));
        let added = before.insert(j, m[j]);
        assert(added =~= packets_before(m, k));
        assert forall|i: u8| j < i implies !added.contains_key(i) by {}
        lemma_last_key_is(added, j);
        assert(last_end_pos(m[j]) is None);
    }
}

/// A chunked message with `END` added is numbered without gaps, each packet carrying its
/// title, footer and number, with `END` in its last packet.
proof fn lemma_with_end_numbered(cmd_id: u8, data: Seq<u8>, msg_id: u32)
    requires
        data.len() <= 255 * CHUNK_PAYLOAD_SIZE,
    ensures
        ({
            let m = with_end_chunk(chunked_message(cmd_id, data, msg_id));
            &&& 0 < m.len() <= 256
            &&& m.dom().finite()
            &&& forall|j: u8| #[trigger] m.contains_key(j) <==> (j as int) < m.len()
            &&& forall|j: u8|
                (j as int) < m.len() ==> (#[trigger] m[j]).len() >= CHUNK_METADATA_SIZE
                    && m[j][PKT_NM_INDEX as int] == j
            &&& last_end_pos(m[(m.len() - 1) as u8]) is Some
        }),
{
    let m0 = chunked_message(cmd_id, data, msg_id);
    let pc = packet_count(data.len());
    lemma_chunked_message_len(cmd_id, data, msg_id);
    let lk = (pc - 1) as u8;
    assert(m0.contains_key(lk));
    assert forall|j: u8| lk < j implies !m0.contains_key(j) by {}
    lemma_last_key_is(m0, lk);
    assert forall|j: u8| (j as int) < pc implies (#[trigger] m0[j]).len() >= CHUNK_METADATA_SIZE
        && m0[j][PKT_NM_INDEX as int] == j by {
        let t = title(cmd_id, msg_id, j);
        assert(t.len() == CHUNK_TITLE_SIZE);
        assert(m0[j] == t + chunk_payload(data, j as int) + seq![CHUNK_FOOTER]);
        assert(m0[j][PKT_NM_INDEX as int] == t[PKT_NM_INDEX as int]);
    }
    let p = m0[lk];
    let m = with_end_chunk(m0);
    if p.len() <= MAX_DATAGRAM_SIZE - 3 {
        let q = p + end_token();
        assert(m == m0.insert(lk, q));
        assert(m.dom() =~= m0.dom());
        assert(m.len() == pc);
        assert(is_end_at(q, q.len() - 3));
        assert(last_end_pos(q) == Some(q.len() - 3));
        assert(q[PKT_NM_INDEX as int] == p[PKT_NM_INDEX as int]);
    } else {
        let nk = (lk + 1) as u8;
        let q = p.subrange(0, CHUNK_TITLE_SIZE as int).update(PKT_NM_INDEX as int, nk) + end_token()
            + seq![CHUNK_FOOTER];
        assert(m == m0.insert(nk, q));
        assert(!m0.contains_key(nk));
        assert(m.len() == pc + 1);
        assert(q.len() == 11);
        assert(!is_end_at(q, 8));
        assert(is_end_at(q, 7));
        assert(last_end_below(q, 8) == Some(7int));
        assert(last_end_below(q, 9) == Some(7int));
        assert(last_end_pos(q) == Some(7int));
        assert forall|j: u8| #[trigger] m.contains_key(j) <==> (j as int) < m.len() by {}
    }
}

/// A client command that survives the transfer, sent with `END` and whose packets arrive
/// in order, is received as the command, as long as no packet before the last happens to
/// hold the bytes of `END`.
pub proof fn lemma_client_arrival<'a>(v: ClientCommand, msg_id: MsgId)
    requires
        client_command_survives(v),
        ({
            let m = with_end_chunk(ClientCommandType::<'a>::spec_serialize(v, msg_id).unwrap());
            forall|j: u8| (j as int) < m.len() - 1 ==> last_end_pos(#[trigger] m[j]) is None
        }),
    ensures
        arrive_all::<ClientCommandType<'a>>(
            packets_in_order(with_end_chunk(ClientCommandType::<'a>::spec_serialize(v, msg_id).unwrap())),
        ) == Arrival::<ClientCommand>::Ready(v),
{
    lemma_client_delivery(v, msg_id);
    let (cmd_id, data) = match v {
        ClientCommand::Login(name) => (LOGIN_ID, login_request_bytes(name)),
        ClientCommand::Update(os) => (UPDATE_OBJS_ID, objects_bytes(os)),
        ClientCommand::GetIds(n) => (ID_FETCH_ID, u32_be(n)),
    };
    lemma_client_command_roundtrip(v, msg_id);
    assert(ClientCommandType::<'a>::spec_serialize(v, msg_id).unwrap() == chunked_message(cmd_id, data, msg_id));
    lemma_with_end_numbered(cmd_id, data, msg_id);
    let m = with_end_chunk(chunked_message(cmd_id, data, msg_id));
    lemma_arrival_in_order::<ClientCommandType<'a>>(m, m.len());
}

/// A server command that survives the transfer, sent with `END` and whose packets arrive
/// in order, is received as the command, as long as no packet before the last happens to
/// hold the bytes of `END`.
pub proof fn lemma_server_arrival(v: ServerCommand, msg_id: MsgId)
    requires
        server_command_survives(v),
        ({
            let m = with_end_chunk(ServerCommandType::spec_serialize(v, msg_id).unwrap());
            forall|j: u8| (j as int) < m.len() - 1 ==> last_end_pos(#[trigger] m[j]) is None
        }),
    ensures
        arrive_all::<ServerCommandType>(
            packets_in_order(with_end_chunk(ServerCommandType::spec_serialize(v, msg_id).unwrap())),
        ) == Arrival::<ServerCommand>::Ready(v),
{
    lemma_server_delivery(v, msg_id);
    let (cmd_id, data) = match v {
        ServerCommand::ReturnLogin(l) => (LOGIN_ID, login_bytes(l)),
        ServerCommand::Update(os) => (UPDATE_OBJS_ID, objects_bytes(os)),
        ServerCommand::ReturnIds(ids) => (ID_FETCH_ID, u32_be(ids.0@) + u32_be(ids.1@)),
    };
    lemma_server_command_roundtrip(v, msg_id);
    if let ServerCommand::ReturnLogin(l) = v {
        lemma_login_bytes_len(l);
    }
    assert(ServerCommandType::spec_serialize(v, msg_id).unwrap() == chunked_message(cmd_id, data, msg_id));
    lemma_with_end_numbered(cmd_id, data, msg_id);
    let m = with_end_chunk(chunked_message(cmd_id, data, msg_id));
    lemma_arrival_in_order::<ServerCommandType>(m, m.len());
}

/// Takes the packets out of a message in order of their numbers.
pub fn packets_of(chunks: ChunkedMsg) -> (res: Vec<Vec<u8>>)
    ensures
        res@.len() == packets_in_order(msg_view(chunks)).len(),
        forall|i: int| 0 <= i < res@.len() ==> #[trigger] res@[i]@ == packets_in_order(msg_view(chunks))[i],
{
    let ghost m = msg_view(chunks);
    let mut chunks = chunks;
    let mut out: Vec<Vec<u8>> = Vec::new();
    let mut k: usize = 0;
    while k < 256
        invariant
            k <= 256,
            forall|j: u8| (j as int) >= k ==> (#[trigger] msg_view(chunks).contains_key(j) <==> m.contains_key(j)),
            forall|j: u8| (j as int) >= k && m.contains_key(j) ==> #[trigger] msg_view(chunks)[j] == m[j],
            out@.len() == packets_below(m, k as nat).len(),
            forall|i: int| 0 <= i < out@.len() ==> #[trigger] out@[i]@ == packets_below(m, k as nat)[i],
        decreases 256 - k,
    {
        let key = k as u8;
        let ghost before = msg_view(chunks);
        assert(before.contains_key(key) <==> m.contains_key(key));
        assert(m.contains_key(key) ==> before[key] == m[key]);
        let removed = chunks.remove(&key);
        assert(msg_view(chunks) =~= before.remove(key));
        match removed {
            Some(p) => {
                assert(m.contains_key(key));
                assert(p@ == m[key]);
                out.push(p);
                assert(packets_below(m, (k + 1) as nat) == packets_below(m, k as nat).push(m[key]));
            },
            None => {
                assert(!m.contains_key(key));
            },
        }
        assert forall|j: u8| (j as int) >= k + 1 implies (#[trigger] msg_view(chunks).contains_key(j)
            <==> m.contains_key(j)) by {
            assert(msg_view(chunks).contains_key(j) <==> before.contains_key(j));
        }
        assert forall|j: u8| (j as int) >= k + 1 && m.contains_key(j) implies #[trigger] msg_view(
            chunks,
        )[j] == m[j] by {
            assert(msg_view(chunks)[j] == before[j]);
        }
        k = k + 1;
    }
    out
}

/// Computes the datagrams that send a value: its message with `END` added, packet by
/// packet in order of packet number.
///
/// Fails if the value cannot be serialized.
pub fn send_data<T: Serializeable>(data: &T, msg_id: MsgId) -> (res: Result<Vec<Vec<u8>>, ProtocolError>)
    requires
        T::serialize_requires(data@),
    ensures
        match T::spec_serialize(data@, msg_id) {
            Ok(m) => res matches Ok(ps) && ps@.len() == packets_in_order(with_end_chunk(m)).len()
                && forall|i: int| 0 <= i < ps@.len() ==> #[trigger] ps@[i]@ == packets_in_order(
                with_end_chunk(m),
            )[i],
            Err(e) => res == Err::<Vec<Vec<u8>>, ProtocolError>(e),
        },
{
    proof {
        T::lemma_serialized_takes_end(data@, msg_id);
    }
    let chunks = match data.serialize(msg_id) {
        Ok(c) => c,
        Err(e) => {
            return Err(e);
        },
    };
    proof {
        let m = msg_view(chunks);
        lemma_last_key(m);
        assert(chunks@.dom().contains(last_key(m).unwrap()));
        if chunks@.len() == 0 {
            chunks@.dom().lemma_len0_is_empty();
        }
    }
    let with_end = add_end_chunk(chunks);
    Ok(packets_of(with_end))
}

/// A message that can take `END` can also be buffered: it holds a packet.
proof fn lemma_with_end_nonempty(m: Map<u8, Seq<u8>>)
    requires
        end_can_be_added(m),
        m.dom().finite(),
    ensures
        with_end_chunk(m).len() > 0,
{
    let lk = last_key(m).unwrap();
    lemma_last_key(m);
    let w = with_end_chunk(m);
    assert(w.contains_key(lk) || w.contains_key((lk + 1) as u8));
    if w.len() == 0 {
        w.dom().lemma_len0_is_empty();
    }
}

/// A client command sent with `END` and received whole reads back as the command, for
/// every command that survives the transfer.
pub proof fn lemma_client_delivery<'a>(v: ClientCommand, msg_id: MsgId)
    requires
        client_command_survives(v),
    ensures
        ClientCommandType::<'a>::spec_serialize(v, msg_id) is Ok,
        end_can_be_added(ClientCommandType::<'a>::spec_serialize(v, msg_id).unwrap()),
        ready_requires::<ClientCommandType<'a>>(
            with_end_chunk(ClientCommandType::<'a>::spec_serialize(v, msg_id).unwrap()),
        ),
        ready_result::<ClientCommandType<'a>>(
            with_end_chunk(ClientCommandType::<'a>::spec_serialize(v, msg_id).unwrap()),
        ) == Ok::<ClientCommand, ProtocolError>(v),
{
    lemma_client_command_roundtrip(v, msg_id);
    match v {
        ClientCommand::Login(name) => {
            lemma_chunked_end_can_be_added(LOGIN_ID, login_request_bytes(name), msg_id);
            lemma_chunked_message_len(LOGIN_ID, login_request_bytes(name), msg_id);
        },
        ClientCommand::Update(os) => {
            lemma_chunked_end_can_be_added(UPDATE_OBJS_ID, objects_bytes(os), msg_id);
            lemma_chunked_message_len(UPDATE_OBJS_ID, objects_bytes(os), msg_id);
        },
        ClientCommand::GetIds(n) => {
            lemma_chunked_end_can_be_added(ID_FETCH_ID, u32_be(n), msg_id);
            lemma_chunked_message_len(ID_FETCH_ID, u32_be(n), msg_id);
        },
    }
    let m = ClientCommandType::<'a>::spec_serialize(v, msg_id).unwrap();
    lemma_add_remove_end(m);
    lemma_with_end_nonempty(m);
}

/// A server command sent with `END` and received whole reads back as the command, for
/// every command that survives the transfer.
pub proof fn lemma_server_delivery(v: ServerCommand, msg_id: MsgId)
    requires
        server_command_survives(v),
    ensures
        ServerCommandType::spec_serialize(v, msg_id) is Ok,
        end_can_be_added(ServerCommandType::spec_serialize(v, msg_id).unwrap()),
        ready_requires::<ServerCommandType>(
            with_end_chunk(ServerCommandType::spec_serialize(v, msg_id).unwrap()),
        ),
        ready_result::<ServerCommandType>(
            with_end_chunk(ServerCommandType::spec_serialize(v, msg_id).unwrap()),
        ) == Ok::<ServerCommand, ProtocolError>(v),
{
    lemma_server_command_roundtrip(v, msg_id);
    match v {
        ServerCommand::ReturnLogin(l) => {
            lemma_login_bytes_len(l);
            lemma_chunked_end_can_be_added(LOGIN_ID, login_bytes(l), msg_id);
            lemma_chunked_message_len(LOGIN_ID, login_bytes(l), msg_id);
        },
        ServerCommand::Update(os) => {
            lemma_chunked_end_can_be_added(UPDATE_OBJS_ID, objects_bytes(os), msg_id);
            lemma_chunked_message_len(UPDATE_OBJS_ID, objects_bytes(os), msg_id);
        },
        ServerCommand::ReturnIds(ids) => {
            let data = u32_be(ids.0@) + u32_be(ids.1@);
            lemma_chunked_end_can_be_added(ID_FETCH_ID, data, msg_id);
            lemma_chunked_message_len(ID_FETCH_ID, data, msg_id);
        },
    }
    let m = ServerCommandType::spec_serialize(v, msg_id).unwrap();
    lemma_add_remove_end(m);
    lemma_with_end_nonempty(m);
}

/// Whether converting a buffered message can run past its data.
pub fn ready_is_safe<T: Serializeable>(chunks: &ChunkedMsg) -> (res: bool)
    ensures
        res == ready_requires::<T>(msg_view(*chunks)),
{
    if chunks.len() == 0 {
        return false;
    }
    match remove_end_chunk(chunks.clone()) {
        Ok(m) => T::deserialize_is_safe(&m),
        Err(_) => true,
    }
}

/// A message and the time, in milliseconds, at which it was last accessed.
pub struct TimestampedRemoteData<T: Serializeable> {
    pub data: RemoteData<T>,
    pub last_access: u64,
}

impl<T: Serializeable> TimestampedRemoteData<T> {
    /// Wraps a message accessed at time `now`.
    pub fn from(data: RemoteData<T>, now: u64) -> (res: Self)
        ensures
            res.data == data,
            res.last_access == now,
    {
        TimestampedRemoteData { data, last_access: now }
    }

    /// An empty buffering message accessed at time `now`.
    pub fn buffering(now: u64) -> (res: Self)
        ensures
            res.data matches RemoteData::Buffering(c) && msg_view(c) == Map::<u8, Seq<u8>>::empty(),
            res.last_access == now,
    {
        let m: ChunkedMsg = BTreeMap::new();
        proof {
            assert(msg_view(m) =~= Map::<u8, Seq<u8>>::empty());
        }
        TimestampedRemoteData { data: RemoteData::Buffering(m), last_access: now }
    }
}

/// The messages of one sender, keyed by command id and message id.
pub type ClientMessages<T> = BTreeMap<(CommandId, MsgId), TimestampedRemoteData<T>>;

/// The packets buffered under `id`: none yet when nothing is buffered, `None` when the
/// message under `id` is already complete.
pub open spec fn buffered_chunks<T: Serializeable>(
    msgs: Map<(CommandId, MsgId), TimestampedRemoteData<T>>,
    id: (CommandId, MsgId),
) -> Option<Map<u8, Seq<u8>>> {
    if !msgs.contains_key(id) {
        Some(Map::empty())
    } else {
        match msgs[id].data {
            RemoteData::Buffering(c) => Some(msg_view(c)),
            RemoteData::Ready(_) => None,
        }
    }
}

/// The id under which a packet is buffered: its command id and message id.
pub open spec fn packet_key(p: Seq<u8>) -> (CommandId, MsgId) {
    (packet_cmd_id(p), packet_msg_id(p))
}

/// The packets from one sender that can be received without running past their data.
pub open spec fn receive_requires<T: Serializeable>(
    msgs: Map<(CommandId, MsgId), TimestampedRemoteData<T>>,
    p: Seq<u8>,
) -> bool {
    p.len() > CHUNK_METADATA_SIZE ==> match buffered_chunks(msgs, packet_key(p)) {
        Some(c) => add_requires::<T>(c, p),
        None => true,
    }
}

/// Adds a received packet to the messages of its sender. If it completes a message,
/// removes the message and returns its value; otherwise the message waits for more
/// packets, stamped with `now`.
///
/// Fails if the packet is no longer than its title and footer, or if it cannot be added to
/// its message or completes a message that cannot be read; that message is then dropped.
pub fn receive_packet<T: Serializeable>(
    msgs: &mut ClientMessages<T>,
    packet: Vec<u8>,
    now: u64,
) -> (res: Result<Option<T>, ProtocolError>)
    requires
        receive_requires::<T>(old(msgs)@, packet@),
    ensures
        packet@.len() <= CHUNK_METADATA_SIZE ==> res == Err::<Option<T>, ProtocolError>(
            ProtocolError::PacketTooSmall,
        ) && final(msgs)@ == old(msgs)@,
        packet@.len() > CHUNK_METADATA_SIZE ==> {
            let id = packet_key(packet@);
            let pn = packet@[PKT_NM_INDEX as int];
            &&& final(msgs)@.remove(id) == old(msgs)@.remove(id)
            &&& match buffered_chunks(old(msgs)@, id) {
                Some(c) => if c.contains_key(pn) {
                    &&& res == Err::<Option<T>, ProtocolError>(ProtocolError::CouldNotAddPacket)
                    &&& !final(msgs)@.contains_key(id)
                } else if buffered_is_ready(c.insert(pn, packet@)) {
                    &&& !final(msgs)@.contains_key(id)
                    &&& match ready_result::<T>(c.insert(pn, packet@)) {
                        Ok(v) => res matches Ok(Some(t)) && t@ == v,
                        Err(_) => res == Err::<Option<T>, ProtocolError>(ProtocolError::CouldNotAddPacket),
                    }
                } else {
                    &&& res matches Ok(None)
                    &&& final(msgs)@.contains_key(id)
                    &&& final(msgs)@[id].last_access == now
                    &&& final(msgs)@[id].data matches RemoteData::Buffering(r) && msg_view(r) == c.insert(
                        pn,
                        packet@,
                    )
                },
                None => res == Err::<Option<T>, ProtocolError>(ProtocolError::CouldNotAddPacket)
                    && !final(msgs)@.contains_key(id),
            }
        },
{
    if packet.len() <= CHUNK_METADATA_SIZE {
        return Err(ProtocolError::PacketTooSmall);
    }
    let (cmd_id, msg_id, _pn) = get_cmd_ids_and_nums(packet.as_slice());
    let id = (cmd_id, msg_id);
    let entry = match msgs.remove(&id) {
        Some(e) => e,
        None => TimestampedRemoteData::buffering(now),
    };
    match entry.data.add_packet(packet) {
        Ok(new_data) => match new_data {
            RemoteData::Buffering(c) => {
                msgs.insert(id, TimestampedRemoteData::from(RemoteData::Buffering(c), now));
                Ok(None)
            },
            RemoteData::Ready(data) => Ok(Some(data)),
        },
        Err(_) => Err(ProtocolError::CouldNotAddPacket),
    }
}

/// A message last accessed more than `timeout` milliseconds before `now`.
pub open spec fn is_stale<T: Serializeable>(d: TimestampedRemoteData<T>, now: u64, timeout: u64) -> bool {
    now > d.last_access && now - d.last_access > timeout
}

/// Removes every buffered message whose last access is more than `timeout` milliseconds
/// before `now`.
pub fn clear_old_messages<T: Serializeable>(msgs: &mut ClientMessages<T>, now: u64, timeout: u64)
    ensures
        final(msgs)@ == old(msgs)@.remove_keys(
            old(msgs)@.dom().filter(|k: (CommandId, MsgId)| is_stale(old(msgs)@[k], now, timeout)),
        ),
{
    let ghost m = msgs@;
    let ghost stale = m.dom().filter(|k: (CommandId, MsgId)| is_stale(m[k], now, timeout));
    let ghost mut visited: Set<(CommandId, MsgId)> = Set::empty();
    let mut dead: Vec<(CommandId, MsgId)> = Vec::new();
    for k in it: msgs.keys()
        invariant
            m == msgs@,
            stale == m.dom().filter(|k: (CommandId, MsgId)| is_stale(m[k], now, timeout)),
            it.seq().unref().to_set() == m.dom(),
            visited == it.seq().unref().subrange(0, it.index()).to_set(),
            forall|key: (CommandId, MsgId)| #[trigger] visited.contains(key) && is_stale(m[key], now, timeout)
                ==> dead@.contains(key),
            forall|j: int| 0 <= j < dead@.len() ==> #[trigger] stale.contains(dead@[j]),
            forall|key: (CommandId, MsgId)| #[trigger] m.contains_key(key) ==> visited.contains(key)
                || exists|j: int| it.index() <= j < it.seq().len() && it.seq().unref()[j] == key,
    {
        let ghost idx = it.index();
        assert(it.seq().unref()[idx] == *k);
        assert(m.contains_key(*k)) by {
            assert(it.seq().unref().to_set().contains(*k));
        }
        match msgs.get(k) {
            Some(d) => {
                assert(*d == m[*k]);
                if now > d.last_access && now - d.last_access > timeout {
                    assert(stale.contains(*k));
                    let ghost before = dead@;
                    dead.push(*k);
                    assert(dead@[dead@.len() - 1] == *k);
                    assert forall|key: (CommandId, MsgId)| before.contains(key) implies dead@.contains(key) by {
                        let j = choose|j: int| 0 <= j < before.len() && before[j] == key;
                        assert(dead@[j] == key);
                    }
                } else {
                    assert(!is_stale(m[*k], now, timeout));
                }
            },
            None => {},
        }
        proof {
            let sq = it.seq().unref();
            assert(sq.subrange(0, idx + 1) =~= sq.subrange(0, idx).push(*k));
            sq.subrange(0, idx).lemma_push_to_set_commute(*k);
            visited = visited.insert(*k);
        }
    }
    assert forall|key: (CommandId, MsgId)| #[trigger] m.contains_key(key) implies visited.contains(key) by {}
    assert(visited =~= m.dom());
    let mut i: usize = 0;
    while i < dead.len()
        invariant
            i <= dead@.len(),
            forall|j: int| 0 <= j < dead@.len() ==> #[trigger] stale.contains(dead@[j]),
            forall|key: (CommandId, MsgId)| #[trigger] stale.contains(key) ==> dead@.contains(key),
            msgs@ == m.remove_keys(dead@.subrange(0, i as int).to_set()),
        decreases dead@.len() - i,
    {
        let key = dead[i];
        let ghost before = msgs@;
        let _ = msgs.remove(&key);
        assert(dead@.subrange(0, i + 1) =~= dead@.subrange(0, i as int).push(key));
        proof {
            dead@.subrange(0, i as int).lemma_push_to_set_commute(key);
        }
        assert(msgs@ =~= m.remove_keys(dead@.subrange(0, i + 1).to_set()));
        i = i + 1;
    }
    assert(dead@.subrange(0, dead@.len() as int) =~= dead@);
    assert(dead@.to_set() =~= stale);
}

/// Whether receiving `packet` can run past the data of its message.
pub fn receive_is_safe<T: Serializeable>(msgs: &ClientMessages<T>, packet: &Vec<u8>) -> (res: bool)
    ensures
        res == receive_requires::<T>(msgs@, packet@),
{
    if packet.len() <= CHUNK_METADATA_SIZE {
        return true;
    }
    let (cmd_id, msg_id, pn) = get_cmd_ids_and_nums(packet.as_slice());
    let id = (cmd_id, msg_id);
    let mut chunks: ChunkedMsg = match msgs.get(&id) {
        None => BTreeMap::new(),
        Some(entry) => match &entry.data {
            RemoteData::Buffering(c) => c.clone(),
            RemoteData::Ready(_) => {
                return true;
            },
        },
    };
    assert(msg_view(chunks) =~= buffered_chunks(msgs@, id).unwrap());
    if chunks.contains_key(&pn) {
        return true;
    }
    let ghost before = msg_view(chunks);
    let copy = copy_range(packet.as_slice(), 0, packet.len());
    assert(packet@.subrange(0, packet@.len() as int) =~= packet@);
    chunks.insert(pn, copy);
    assert(msg_view(chunks) =~= before.insert(pn, packet@));
    let added: RemoteData<T> = RemoteData::Buffering(chunks);
    if !added.is_ready() {
        return true;
    }
    match &added {
        RemoteData::Buffering(c) => ready_is_safe::<T>(c),
        RemoteData::Ready(_) => true,
    }
}

/// The retry limits of a message that must arrive.
pub struct ImportantArguments {
    pub max_recv_tries: u32,
    pub max_send_tries: u32,
    /// Milliseconds to wait for a reply in each try.
    pub trial_recv_timeout: u64,
    /// Milliseconds to wait for a send in each try.
    pub trial_send_timeout: u64,
    pub total_send_attempts: u32,
}

impl Default for ImportantArguments {
    fn default() -> (res: Self)
        ensures
            res.max_recv_tries == 5,
            res.max_send_tries == 3,
            res.total_send_attempts == 5,
            res.trial_recv_timeout == 2000,
            res.trial_send_timeout == 300,
    {
        ImportantArguments {
            max_recv_tries: 5,
            max_send_tries: 3,
            total_send_attempts: 5,
            trial_recv_timeout: 2000,
            trial_send_timeout: 300,
        }
    }
}

/// Where sending the packets of a message that must arrive has got to: the packet being
/// sent, the failed tries of that packet and the failed tries of the whole message.
#[derive(Clone, Copy, Debug, PartialEq, Eq, Structural)]
pub struct SendRetryState {
    pub chunk: usize,
    pub send_attempts: u32,
    pub total_send_attempts: u32,
}

/// What to do next while sending the packets of a message that must arrive.
#[derive(Clone, Copy, Debug, PartialEq, Eq, Structural)]
pub enum SendAction {
    /// Send the packet at this index.
    Send(usize),
    /// Every packet was sent.
    Done,
    /// Give up: the message failed to send.
    Fail,
}

impl SendRetryState {
    /// The state before the first packet is sent, and what to do first.
    pub fn start(num_chunks: usize) -> (res: (SendRetryState, SendAction))
        ensures
            res.0 == (SendRetryState { chunk: 0, send_attempts: 0, total_send_attempts: 0 }),
            res.1 == if num_chunks == 0 {
                SendAction::Done
            } else {
                SendAction::Send(0)
            },
    {
        let st = SendRetryState { chunk: 0, send_attempts: 0, total_send_attempts: 0 };
        if num_chunks == 0 {
            (st, SendAction::Done)
        } else {
            (st, SendAction::Send(0))
        }
    }

    /// The next state and action once sending packet `self.chunk` succeeded or failed.
    ///
    /// A sent packet moves on to the next one with its own count of tries. A failed send is
    /// retried unless the packet has failed `max_send_tries` times or the message
    /// `total_send_attempts` times, in which case sending fails.
    pub fn on_send_result(self, sent: bool, num_chunks: usize, args: &ImportantArguments) -> (res: (
        SendRetryState,
        SendAction,
    ))
        requires
            self.chunk < num_chunks,
        ensures
            if sent {
                &&& res.0 == (SendRetryState {
                    chunk: (self.chunk + 1) as usize,
                    send_attempts: 0,
                    total_send_attempts: self.total_send_attempts,
                })
                &&& res.1 == if self.chunk + 1 == num_chunks {
                    SendAction::Done
                } else {
                    SendAction::Send((self.chunk + 1) as usize)
                }
            } else if self.send_attempts >= args.max_send_tries || self.total_send_attempts
                >= args.total_send_attempts {
                res.0 == self && res.1 == SendAction::Fail
            } else {
                &&& res.0 == (SendRetryState {
                    chunk: self.chunk,
                    send_attempts: (self.send_attempts + 1) as u32,
                    total_send_attempts: (self.total_send_attempts + 1) as u32,
                })
                &&& res.1 == SendAction::Send(self.chunk)
            },
    {
        if sent {
            let next = self.chunk + 1;
            let st = SendRetryState {
                chunk: next,
                send_attempts: 0,
                total_send_attempts: self.total_send_attempts,
            };
            if next == num_chunks {
                (st, SendAction::Done)
            } else {
                (st, SendAction::Send(next))
            }
        } else if self.send_attempts >= args.max_send_tries || self.total_send_attempts
            >= args.total_send_attempts {
            (self, SendAction::Fail)
        } else {
            (
                SendRetryState {
                    chunk: self.chunk,
                    send_attempts: self.send_attempts + 1,
                    total_send_attempts: self.total_send_attempts + 1,
                },
                SendAction::Send(self.chunk),
            )
        }
    }
}

/// The retry counts of a send never exceed their limits.
pub open spec fn send_retry_within_limits(st: SendRetryState, args: ImportantArguments) -> bool {
    st.send_attempts <= args.max_send_tries && st.total_send_attempts <= args.total_send_attempts
}

/// Every step of sending keeps the retry counts within their limits, and a step that sends
/// again either moves to the next packet or spends one of the message's tries.
pub proof fn lemma_send_retry_bounded(
    st: SendRetryState,
    sent: bool,
    num_chunks: usize,
    args: ImportantArguments,
    next: SendRetryState,
    action: SendAction,
)
    requires
        st.chunk < num_chunks,
        send_retry_within_limits(st, args),
        if sent {
            &&& next == (SendRetryState {
                chunk: (st.chunk + 1) as usize,
                send_attempts: 0,
                total_send_attempts: st.total_send_attempts,
            })
            &&& action == if st.chunk + 1 == num_chunks {
                SendAction::Done
            } else {
                SendAction::Send((st.chunk + 1) as usize)
            }
        } else if st.send_attempts >= args.max_send_tries || st.total_send_attempts
            >= args.total_send_attempts {
            next == st && action == SendAction::Fail
        } else {
            &&& next == (SendRetryState {
                chunk: st.chunk,
                send_attempts: (st.send_attempts + 1) as u32,
                total_send_attempts: (st.total_send_attempts + 1) as u32,
            })
            &&& action == SendAction::Send(st.chunk)
        },
    ensures
        send_retry_within_limits(next, args),
        action matches SendAction::Send(i) ==> i == next.chunk && next.chunk < num_chunks,
        action matches SendAction::Send(_) ==> (next.chunk > st.chunk || next.total_send_attempts
            == st.total_send_attempts + 1),
{
}

/// What to do next while waiting for the reply to a message that must arrive.
#[derive(Clone, Copy, Debug, PartialEq, Eq, Structural)]
pub enum RecvAction {
    /// Receive again, having failed this many times.
    Retry(u32),
    /// Give up: no reply came.
    Fail,
}

/// The next step once a receive failed after `recv_attempts` failed tries: retry while
/// fewer than `max_recv_tries` tries have failed, else give up.
pub fn on_recv_failure(recv_attempts: u32, args: &ImportantArguments) -> (res: RecvAction)
    ensures
        res == if recv_attempts < args.max_recv_tries {
            RecvAction::Retry((recv_attempts + 1) as u32)
        } else {
            RecvAction::Fail
        },
{
    if recv_attempts < args.max_recv_tries {
        RecvAction::Retry(recv_attempts + 1)
    } else {
        RecvAction::Fail
    }
}

} // verus!
