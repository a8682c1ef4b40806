//! Splitting a command's bytes into numbered datagrams and joining them again.
//!
//! A packet is `S<cmd_id (u8)><msg_id (u32, big endian)><packet_number (u8)><data>\n`.
//! The header is `S`, the title is everything up to the payload and the footer is `\n`.
use vstd::prelude::*;
use std::collections::BTreeMap;
use crate::endian::{u32_be, u32_of_be, u32_to_be_bytes, u32_from_be_bytes, lemma_u32_be_roundtrip, group_be_lengths};
use crate::error::ProtocolError;
use vstd::std_specs::cmp::PartialEqSpec;

verus! {

broadcast use group_be_lengths;

pub type PacketNum = u8;

pub type CommandId = u8;

pub type MsgId = u32;

/// The packets of one message, keyed by packet number.
pub type ChunkedMsg = BTreeMap<PacketNum, Vec<u8>>;

pub const MAX_DATAGRAM_SIZE: usize = 1024;

/// The byte `S` that starts every packet.
pub const CHUNK_HEADER: u8 = 83;

pub const CHUNK_HEADER_SIZE: usize = 1;

pub const CMD_ID_INDEX: usize = CHUNK_HEADER_SIZE;

pub const MSG_ID_INDEX: usize = CMD_ID_INDEX + 1;

pub const PKT_NM_INDEX: usize = MSG_ID_INDEX + 4;

pub const CHUNK_TITLE_SIZE: usize = CHUNK_HEADER_SIZE + 6;

/// The byte `\n` that ends every packet.
pub const CHUNK_FOOTER: u8 = 10;

pub const CHUNK_FOOTER_SIZE: usize = 1;

pub const CHUNK_METADATA_SIZE: usize = CHUNK_TITLE_SIZE + CHUNK_FOOTER_SIZE;

/// The most payload bytes that one packet carries.
pub const CHUNK_PAYLOAD_SIZE: usize = MAX_DATAGRAM_SIZE - CHUNK_METADATA_SIZE;

/// The packets of a message as byte sequences.
pub open spec fn msg_view(m: ChunkedMsg) -> Map<u8, Seq<u8>> {
    m@.map_values(|v: Vec<u8>| v@)
}

/// The packet numbers of a message are those of its byte-sequence view.
pub broadcast proof fn lemma_msg_view_dom(m: ChunkedMsg)
    ensures
        #[trigger] msg_view(m).dom() == m@.dom(),
{
    assert(msg_view(m).dom() =~= m@.dom());
}

/// The title of a packet.
pub open spec fn title(cmd_id: u8, msg_id: u32, pn: u8) -> Seq<u8> {
    seq![CHUNK_HEADER, cmd_id] + u32_be(msg_id) + seq![pn]
}

/// A whole packet carrying `payload`.
pub open spec fn packet(cmd_id: u8, msg_id: u32, pn: u8, payload: Seq<u8>) -> Seq<u8> {
    title(cmd_id, msg_id, pn) + payload + seq![CHUNK_FOOTER]
}

/// The number of packets that `len` bytes of data are split into; empty data still
/// takes one packet.
pub open spec fn packet_count(len: nat) -> nat {
    if len == 0 {
        1
    } else {
        ((len + CHUNK_PAYLOAD_SIZE - 1) / CHUNK_PAYLOAD_SIZE as int) as nat
    }
}

/// The part of `data` that packet `i` carries.
pub open spec fn chunk_payload(data: Seq<u8>, i: int) -> Seq<u8> {
    let start = i * CHUNK_PAYLOAD_SIZE;
    let end = if (i + 1) * CHUNK_PAYLOAD_SIZE < data.len() {
        (i + 1) * CHUNK_PAYLOAD_SIZE
    } else {
        data.len() as int
    };
    data.subrange(start, end)
}

/// The message that carries `data` for command `cmd_id` under message id `msg_id`.
pub open spec fn chunked_message(cmd_id: u8, data: Seq<u8>, msg_id: u32) -> Map<u8, Seq<u8>> {
    Map::new(
        |k: u8| (k as nat) < packet_count(data.len()),
        |k: u8| packet(cmd_id, msg_id, k, chunk_payload(data, k as int)),
    )
}

/// Packet `k` exists exactly when it starts before the end of the data.
pub proof fn lemma_packet_count(len: nat, k: nat)
    requires
        len > 0,
    ensures
        k < packet_count(len) <==> k * CHUNK_PAYLOAD_SIZE < len,
{
    let p = CHUNK_PAYLOAD_SIZE as int;
    let n = packet_count(len) as int;
    assert(n == (len + p - 1) / p);
    assert(n * p <= len + p - 1 < n * p + p) by (nonlinear_arith)
        requires n == (len + p - 1) / p, p == 1016;
    if k < n {
        assert(k * p <= (n - 1) * p) by (nonlinear_arith)
            requires k <= n - 1, p > 0;
    } else {
        assert(k * p >= n * p) by (nonlinear_arith)
            requires k >= n, p > 0;
    }
}

/// Builds one packet from `data[start..end]`.
fn make_packet(cmd_id: u8, msg_id: u32, pn: u8, data: &[u8], start: usize, end: usize) -> (res: Vec<
    u8,
>)
    requires
        start <= end <= data@.len(),
    ensures
        res@ == packet(cmd_id, msg_id, pn, data@.subrange(start as int, end as int)),
{
    let mut v: Vec<u8> = Vec::new();
    v.push(CHUNK_HEADER);
    v.push(cmd_id);
    let id = u32_to_be_bytes(msg_id);
    v.push(id[0]);
    v.push(id[1]);
    v.push(id[2]);
    v.push(id[3]);
    v.push(pn);
    assert(v@ =~= title(cmd_id, msg_id, pn));
    let mut i = start;
    while i < end
        invariant
            start <= i <= end <= data@.len(),
            v@ =~= title(cmd_id, msg_id, pn) + data@.subrange(start as int, i as int),
        decreases end - i,
    {
        v.push(data[i]);
        i = i + 1;
    }
    v.push(CHUNK_FOOTER);
    v
}

/// Converts a command's data into packets of at most `MAX_DATAGRAM_SIZE` bytes.
///
/// Empty data gives one packet that holds the title and footer only. The data must fit
/// into 255 packets.
pub fn chunk_serialized_data(cmd_id: CommandId, data: &[u8], msg_id: MsgId) -> (res: ChunkedMsg)
    requires
        data@.len() <= 255 * CHUNK_PAYLOAD_SIZE,
    ensures
        msg_view(res) == chunked_message(cmd_id, data@, msg_id),
{
    let mut res: ChunkedMsg = BTreeMap::new();
    let len = data.len();
    if len == 0 {
        let p = make_packet(cmd_id, msg_id, 0, data, 0, 0);
        let ghost pv = p@;
        res.insert(0, p);
        assert(msg_view(res) =~= Map::<u8, Seq<u8>>::empty().insert(0, pv));
        assert(packet_count(0) == 1);
        assert(chunk_payload(data@, 0) =~= data@.subrange(0, 0));
        assert(msg_view(res) =~= chunked_message(cmd_id, data@, msg_id));
        return res;
    }
    let mut packet_num: u8 = 0;
    let mut start: usize = 0;
    while start < len
        invariant
            len == data@.len(),
            0 < len <= 255 * CHUNK_PAYLOAD_SIZE,
            start <= len,
            start < len ==> start == packet_num * CHUNK_PAYLOAD_SIZE,
            start == len ==> (packet_num - 1) * CHUNK_PAYLOAD_SIZE < len <= packet_num
                * CHUNK_PAYLOAD_SIZE,
            packet_num <= 255,
            msg_view(res) =~= Map::new(
                |k: u8| k < packet_num,
                |k: u8| packet(cmd_id, msg_id, k, chunk_payload(data@, k as int)),
            ),
        decreases len - start,
    {
        proof {
            lemma_packet_count(len as nat, packet_num as nat);
            assert(packet_num < 255) by (nonlinear_arith)
                requires packet_num * 1016 < len <= 255 * 1016;
        }
        let end = if len - start > CHUNK_PAYLOAD_SIZE {
            start + CHUNK_PAYLOAD_SIZE
        } else {
            len
        };
        let p = make_packet(cmd_id, msg_id, packet_num, data, start, end);
        assert(p@ == packet(cmd_id, msg_id, packet_num, chunk_payload(data@, packet_num as int)));
        let ghost before = msg_view(res);
        let ghost pv = p@;
        res.insert(packet_num, p);
        assert(msg_view(res) =~= before.insert(packet_num, pv));
        let ghost old_num = packet_num;
        packet_num = packet_num + 1;
        start = end;
        assert(msg_view(res) =~= Map::new(
            |k: u8| k < packet_num,
            |k: u8| packet(cmd_id, msg_id, k, chunk_payload(data@, k as int)),
        )) by {
            assert forall|k: u8| #[trigger] msg_view(res).contains_key(k) implies msg_view(res)[k]
                == packet(cmd_id, msg_id, k, chunk_payload(data@, k as int)) by {
                if k != old_num {
                    assert(msg_view(res)[k] == before[k]);
                }
            }
        }
    }
    assert forall|k: u8| #[trigger] chunked_message(cmd_id, data@, msg_id).contains_key(k) <==> k
        < packet_num by {
        lemma_packet_count(len as nat, k as nat);
        if k < packet_num {
            assert(k * CHUNK_PAYLOAD_SIZE <= (packet_num - 1) * CHUNK_PAYLOAD_SIZE) by (nonlinear_arith)
                requires k <= packet_num - 1;
        } else {
            assert(k * CHUNK_PAYLOAD_SIZE >= packet_num * CHUNK_PAYLOAD_SIZE) by (nonlinear_arith)
                requires k >= packet_num;
        }
    }
    assert(msg_view(res) =~= chunked_message(cmd_id, data@, msg_id));
    res
}

/// The command id that a packet carries.
pub open spec fn packet_cmd_id(p: Seq<u8>) -> u8 {
    p[CMD_ID_INDEX as int]
}

/// The message id that a packet carries.
pub open spec fn packet_msg_id(p: Seq<u8>) -> u32 {
    u32_of_be(p.subrange(MSG_ID_INDEX as int, MSG_ID_INDEX + 4))
}

/// The packet number that a packet carries.
pub open spec fn packet_number(p: Seq<u8>) -> u8 {
    p[PKT_NM_INDEX as int]
}

/// The data that a packet carries between its title and its footer.
pub open spec fn packet_payload(p: Seq<u8>) -> Seq<u8> {
    p.subrange(CHUNK_TITLE_SIZE as int, p.len() - CHUNK_FOOTER_SIZE)
}

/// What is wrong with packet `p` at place `i` of a message for `cmd_id` and `msg_id`, if
/// anything; the first fault found, taking length, header, footer, ids and order in turn.
pub open spec fn packet_error(p: Seq<u8>, i: int, cmd_id: u8, msg_id: u32) -> Option<ProtocolError> {
    if p.len() < CHUNK_METADATA_SIZE {
        Some(ProtocolError::ChunkTooShort(p.len() as usize))
    } else if p[0] != CHUNK_HEADER {
        Some(ProtocolError::InvalidChunkHeader)
    } else if p[p.len() - 1] != CHUNK_FOOTER {
        Some(ProtocolError::InvalidChunkFooter)
    } else if packet_cmd_id(p) != cmd_id || packet_msg_id(p) != msg_id {
        Some(ProtocolError::OptionMismatch)
    } else if packet_number(p) != i {
        Some(ProtocolError::PacketOutOfOrder)
    } else {
        None
    }
}

/// The first thing wrong with the packets `ps`, taken in order.
pub open spec fn first_packet_error(ps: Seq<Seq<u8>>, cmd_id: u8, msg_id: u32) -> Option<
    ProtocolError,
>
    decreases ps.len(),
{
    if ps.len() == 0 {
        None
    } else {
        match first_packet_error(ps.drop_last(), cmd_id, msg_id) {
            Some(e) => Some(e),
            None => packet_error(ps.last(), ps.len() - 1, cmd_id, msg_id),
        }
    }
}

/// The payloads of the packets `ps`, joined in order.
pub open spec fn joined_payloads(ps: Seq<Seq<u8>>) -> Seq<u8>
    decreases ps.len(),
{
    if ps.len() == 0 {
        seq![]
    } else {
        joined_payloads(ps.drop_last()) + packet_payload(ps.last())
    }
}

/// The packets of `m` whose numbers are below `k`, in increasing order of number.
pub open spec fn packets_below(m: Map<u8, Seq<u8>>, k: nat) -> Seq<Seq<u8>>
    decreases k,
{
    if k == 0 {
        seq![]
    } else {
        let prev = packets_below(m, (k - 1) as nat);
        if m.contains_key((k - 1) as u8) {
            prev.push(m[(k - 1) as u8])
        } else {
            prev
        }
    }
}

/// All packets of `m`, in increasing order of number.
pub open spec fn packets_in_order(m: Map<u8, Seq<u8>>) -> Seq<Seq<u8>> {
    packets_below(m, 256)
}

/// What joining the packets `ps` gives: the joined payloads with the command id and the
/// message id of the first packet, or the first thing wrong with them; no packets at all
/// is an empty message.
pub open spec fn dechunk_result(ps: Seq<Seq<u8>>) -> Result<(Seq<u8>, u8, u32), ProtocolError> {
    if ps.len() == 0 {
        Err(ProtocolError::EmptyMessage)
    } else {
        let cmd_id = packet_cmd_id(ps[0]);
        let msg_id = packet_msg_id(ps[0]);
        match first_packet_error(ps, cmd_id, msg_id) {
            Some(e) => Err(e),
            None => Ok((joined_payloads(ps), cmd_id, msg_id)),
        }
    }
}

/// Once a prefix of the packets has an error, every extension has that same first error.
proof fn lemma_first_error_extends(ps: Seq<Seq<u8>>, qs: Seq<Seq<u8>>, cmd_id: u8, msg_id: u32)
    requires
        ps.len() <= qs.len(),
        qs.subrange(0, ps.len() as int) == ps,
        first_packet_error(ps, cmd_id, msg_id) is Some,
    ensures
        first_packet_error(qs, cmd_id, msg_id) == first_packet_error(ps, cmd_id, msg_id),
    decreases qs.len(),
{
    if qs.len() == ps.len() {
        assert(qs =~= ps);
    } else {
        assert(qs.drop_last().subrange(0, ps.len() as int) =~= ps);
        lemma_first_error_extends(ps, qs.drop_last(), cmd_id, msg_id);
    }
}

/// The packets below `k` are a prefix of the packets below any larger bound.
proof fn lemma_packets_below_prefix(m: Map<u8, Seq<u8>>, k: nat, n: nat)
    requires
        k <= n,
    ensures
        packets_below(m, k).len() <= packets_below(m, n).len(),
        packets_below(m, n).subrange(0, packets_below(m, k).len() as int) == packets_below(m, k),
    decreases n,
{
    if k == n {
        assert(packets_below(m, n).subrange(0, packets_below(m, k).len() as int) =~= packets_below(
            m,
            k,
        ));
    } else {
        lemma_packets_below_prefix(m, k, (n - 1) as nat);
        assert(packets_below(m, n).subrange(0, packets_below(m, k).len() as int) =~= packets_below(
            m,
            (n - 1) as nat,
        ).subrange(0, packets_below(m, k).len() as int));
    }
}

/// A map without packets has no packets below any bound.
proof fn lemma_packets_below_empty(m: Map<u8, Seq<u8>>, k: nat)
    requires
        m.dom().len() == 0,
        m.dom().finite(),
    ensures
        packets_below(m, k).len() == 0,
    decreases k,
{
    if k > 0 {
        lemma_packets_below_empty(m, (k - 1) as nat);
        if m.contains_key((k - 1) as u8) {
            m.dom().lemma_len0_is_empty();
        }
    }
}

/// A map with a packet below `k` has some packet below `k`.
proof fn lemma_packets_below_nonempty(m: Map<u8, Seq<u8>>, key: u8, k: nat)
    requires
        m.contains_key(key),
        key < k,
    ensures
        packets_below(m, k).len() > 0,
    decreases k,
{
    if key + 1 < k {
        lemma_packets_below_nonempty(m, key, (k - 1) as nat);
    }
}

/// Checks that the value in `opt` equals `val`, storing `val` if `opt` holds nothing.
///
/// Fails only if `opt` holds a value other than `val`.
fn check_option_equals<T: PartialEq + Copy>(opt: &mut Option<T>, val: T) -> (res: Result<
    (),
    ProtocolError,
>)
    requires
        T::obeys_eq_spec(),
    ensures
        match *old(opt) {
            Some(o) => {
                &&& *final(opt) == *old(opt)
                &&& if o.eq_spec(&val) {
                    res is Ok
                } else {
                    res == Err::<(), ProtocolError>(ProtocolError::OptionMismatch)
                }
            },
            None => *final(opt) == Some(val) && res is Ok,
        },
{
    match opt {
        Some(opt_val) => {
            if *opt_val != val {
                Err(ProtocolError::OptionMismatch)
            } else {
                Ok(())
            }
        },
        None => {
            *opt = Some(val);
            Ok(())
        },
    }
}

/// Gets the command id, the message id and the packet number of a packet.
pub fn get_cmd_ids_and_nums(chunk: &[u8]) -> (res: (CommandId, MsgId, PacketNum))
    requires
        chunk@.len() >= CHUNK_TITLE_SIZE,
    ensures
        res == (packet_cmd_id(chunk@), packet_msg_id(chunk@), packet_number(chunk@)),
{
    let id = u32_from_be_bytes(
        [chunk[MSG_ID_INDEX], chunk[MSG_ID_INDEX + 1], chunk[MSG_ID_INDEX + 2], chunk[MSG_ID_INDEX + 3]],
    );
    assert(chunk@.subrange(MSG_ID_INDEX as int, MSG_ID_INDEX + 4) =~= seq![
        chunk@[2],
        chunk@[3],
        chunk@[4],
        chunk@[5],
    ]);
    (chunk[CMD_ID_INDEX], id, chunk[PKT_NM_INDEX])
}

/// Joins the packets of a command into its payload, its command id and its message id.
///
/// The packets are taken in order of their numbers. Fails if a packet is too short,
/// lacks the header or the footer, if the packets disagree on the command or message id,
/// or if a packet's number is not its place in the message; a message without any packet
/// is missing its packets and fails as empty.
pub fn dechunk_serialized_data(chunks: ChunkedMsg) -> (res: Result<(Vec<u8>, CommandId, MsgId), ProtocolError>)
    ensures
        match dechunk_result(packets_in_order(msg_view(chunks))) {
            Ok((data, cmd_id, msg_id)) => res matches Ok((d, c, m)) && d@ == data && c == cmd_id
                && m == msg_id,
            Err(e) => res == Err::<(Vec<u8>, CommandId, MsgId), ProtocolError>(e),
        },
{
    let ghost mv = msg_view(chunks);
    let ghost all = packets_in_order(mv);
    if chunks.len() == 0 {
        proof {
            assert(mv.dom() =~= chunks@.dom());
            assert forall|k: nat| k <= 256 implies packets_below(mv, k).len() == 0 by {
                lemma_packets_below_empty(mv, k);
            }
        }
        return Err(ProtocolError::EmptyMessage);
    }
    let mut res: Vec<u8> = Vec::new();
    let mut last_cmd_id: Option<CommandId> = None;
    let mut last_msg_id: Option<MsgId> = None;
    let mut expected: usize = 0;
    let mut k: usize = 0;
    while k < 256
        invariant
            k <= 256,
            mv == msg_view(chunks),
            all == packets_in_order(mv),
            expected == packets_below(mv, k as nat).len(),
            expected == 0 ==> last_cmd_id is None && last_msg_id is None,
            expected > 0 ==> last_cmd_id == Some(packet_cmd_id(all[0])) && last_msg_id == Some(
                packet_msg_id(all[0]),
            ),
            first_packet_error(packets_below(mv, k as nat), packet_cmd_id(all[0]), packet_msg_id(all[0])) is None,
            res@ == joined_payloads(packets_below(mv, k as nat)),
        decreases 256 - k,
    {
        let ghost prev = packets_below(mv, k as nat);
        proof {
            lemma_packets_below_prefix(mv, k as nat, 256);
            lemma_packets_below_prefix(mv, (k + 1) as nat, 256);
        }
        let key = k as u8;
        match chunks.get(&key) {
            None => {
                assert(!mv.contains_key(key));
                assert(packets_below(mv, (k + 1) as nat) == prev);
            },
            Some(chunk) => {
                let ghost cur = packets_below(mv, (k + 1) as nat);
                assert(mv.contains_key(key) && mv[key] == chunk@);
                assert(cur == prev.push(chunk@));
                assert(cur.drop_last() =~= prev);
                assert(cur.len() == expected + 1);
                assert(all.subrange(0, cur.len() as int)[expected as int] == chunk@);
                assert(all[expected as int] == chunk@);
                let chunk_len = chunk.len();
                if chunk_len < CHUNK_METADATA_SIZE {
                    proof { lemma_first_error_extends(cur, all, packet_cmd_id(all[0]), packet_msg_id(all[0])); }
                    return Err(ProtocolError::ChunkTooShort(chunk_len));
                }
                if chunk[0] != CHUNK_HEADER {
                    proof { lemma_first_error_extends(cur, all, packet_cmd_id(all[0]), packet_msg_id(all[0])); }
                    return Err(ProtocolError::InvalidChunkHeader);
                }
                if chunk[chunk_len - CHUNK_FOOTER_SIZE] != CHUNK_FOOTER {
                    proof { lemma_first_error_extends(cur, all, packet_cmd_id(all[0]), packet_msg_id(all[0])); }
                    return Err(ProtocolError::InvalidChunkFooter);
                }
                let (cmd_id, msg_id, pn) = get_cmd_ids_and_nums(chunk.as_slice());
                let r1 = check_option_equals(&mut last_cmd_id, cmd_id);
                if r1.is_err() {
                    proof { lemma_first_error_extends(cur, all, packet_cmd_id(all[0]), packet_msg_id(all[0])); }
                    return Err(ProtocolError::OptionMismatch);
                }
                let r2 = check_option_equals(&mut last_msg_id, msg_id);
                if r2.is_err() {
                    proof { lemma_first_error_extends(cur, all, packet_cmd_id(all[0]), packet_msg_id(all[0])); }
                    return Err(ProtocolError::OptionMismatch);
                }
                if pn as usize != expected {
                    proof { lemma_first_error_extends(cur, all, packet_cmd_id(all[0]), packet_msg_id(all[0])); }
                    return Err(ProtocolError::PacketOutOfOrder);
                }
                let mut i = CHUNK_TITLE_SIZE;
                let ghost before = res@;
                while i < chunk_len - CHUNK_FOOTER_SIZE
                    invariant
                        CHUNK_TITLE_SIZE <= i <= chunk_len - CHUNK_FOOTER_SIZE,
                        chunk_len == chunk@.len(),
                        res@ =~= before + chunk@.subrange(CHUNK_TITLE_SIZE as int, i as int),
                    decreases chunk_len - i,
                {
                    res.push(chunk[i]);
                    i = i + 1;
                }
                expected = expected + 1;
            },
        }
        k = k + 1;
    }
    proof {
        assert(mv.dom() =~= chunks@.dom());
        assert(mv.dom().len() > 0);
        let key = choose|key: u8| mv.contains_key(key);
        if !(exists|key: u8| mv.contains_key(key)) {
            assert(mv.dom() =~= Set::<u8>::empty());
        }
        lemma_packets_below_nonempty(mv, key, 256);
    }
    match (last_cmd_id, last_msg_id) {
        (Some(c), Some(m)) => Ok((res, c, m)),
        _ => Err(ProtocolError::OptionMismatch),
    }
}

/// The fields of a packet built by `packet` read back as what was put in.
proof fn lemma_packet_fields(cmd_id: u8, msg_id: u32, pn: u8, payload: Seq<u8>)
    ensures
        ({
            let p = packet(cmd_id, msg_id, pn, payload);
            &&& p.len() == payload.len() + CHUNK_METADATA_SIZE
            &&& p[0] == CHUNK_HEADER
            &&& p[p.len() - 1] == CHUNK_FOOTER
            &&& packet_cmd_id(p) == cmd_id
            &&& packet_msg_id(p) == msg_id
            &&& packet_number(p) == pn
            &&& packet_payload(p) == payload
        }),
{
    let p = packet(cmd_id, msg_id, pn, payload);
    lemma_u32_be_roundtrip(msg_id);
    assert(p.subrange(MSG_ID_INDEX as int, MSG_ID_INDEX + 4) =~= u32_be(msg_id));
    assert(packet_payload(p) =~= payload);
}

/// The packets of a chunked message, in order.
proof fn lemma_chunked_packets_below(cmd_id: u8, data: Seq<u8>, msg_id: u32, k: nat)
    requires
        k <= 256,
    ensures
        ({
            let n = packet_count(data.len());
            let m = chunked_message(cmd_id, data, msg_id);
            let j = if k < n { k } else { n };
            packets_below(m, k) == Seq::new(
                j,
                |i: int| packet(cmd_id, msg_id, i as u8, chunk_payload(data, i)),
            )
        }),
    decreases k,
{
    let n = packet_count(data.len());
    let m = chunked_message(cmd_id, data, msg_id);
    if k > 0 {
        lemma_chunked_packets_below(cmd_id, data, msg_id, (k - 1) as nat);
        let j = if k < n { k } else { n };
        assert(packets_below(m, k) =~= Seq::new(
            j,
            |i: int| packet(cmd_id, msg_id, i as u8, chunk_payload(data, i)),
        ));
    } else {
        assert(packets_below(m, k) =~= Seq::new(
            0,
            |i: int| packet(cmd_id, msg_id, i as u8, chunk_payload(data, i)),
        ));
    }
}

/// The first `j` packets of a chunked message are free of errors and carry the first
/// `j` payload pieces of the data.
#[verifier::spinoff_prover]
proof fn lemma_chunked_prefix(cmd_id: u8, data: Seq<u8>, msg_id: u32, j: nat)
    requires
        j <= packet_count(data.len()),
        packet_count(data.len()) <= 256,
    ensures
        ({
            let ps = Seq::new(j, |i: int| packet(cmd_id, msg_id, i as u8, chunk_payload(data, i)));
            &&& first_packet_error(ps, cmd_id, msg_id) is None
            &&& joined_payloads(ps) == data.subrange(
                0,
                if j * CHUNK_PAYLOAD_SIZE < data.len() {
                    j * CHUNK_PAYLOAD_SIZE
                } else {
                    data.len() as int
                },
            )
        }),
    decreases j,
{
    let ps = Seq::new(j, |i: int| packet(cmd_id, msg_id, i as u8, chunk_payload(data, i)));
    if j == 0 {
        assert(data.subrange(0, 0) =~= Seq::<u8>::empty());
    } else {
        lemma_chunked_prefix(cmd_id, data, msg_id, (j - 1) as nat);
        let prev = Seq::new(
            (j - 1) as nat,
            |i: int| packet(cmd_id, msg_id, i as u8, chunk_payload(data, i)),
        );
        assert(ps.drop_last() =~= prev);
        let i = j - 1;
        assert(CHUNK_PAYLOAD_SIZE == 1016);
        lemma_packet_fields(cmd_id, msg_id, i as u8, chunk_payload(data, i));
        if data.len() > 0 {
            lemma_packet_count(data.len(), i as nat);
            assert(i * CHUNK_PAYLOAD_SIZE < data.len());
        } else {
            assert(i == 0);
        }
        assert(i * CHUNK_PAYLOAD_SIZE <= data.len());
        assert(j * CHUNK_PAYLOAD_SIZE == i * CHUNK_PAYLOAD_SIZE + CHUNK_PAYLOAD_SIZE) by (nonlinear_arith)
            requires j == i + 1;
        assert(ps.last() == packet(cmd_id, msg_id, i as u8, chunk_payload(data, i)));
        assert(joined_payloads(ps) == joined_payloads(prev) + chunk_payload(data, i));
        let end = if j * CHUNK_PAYLOAD_SIZE < data.len() {
            j * CHUNK_PAYLOAD_SIZE
        } else {
            data.len() as int
        };
        assert(joined_payloads(ps) =~= data.subrange(0, end));
        assert(joined_payloads(ps) == data.subrange(0, end));
        assert(first_packet_error(ps, cmd_id, msg_id) is None);
    }
}

/// Joining the packets that `chunk_serialized_data` makes gives back the data, the command
/// id and the message id.
pub proof fn lemma_chunk_dechunk_roundtrip(cmd_id: u8, data: Seq<u8>, msg_id: u32)
    requires
        data.len() <= 255 * CHUNK_PAYLOAD_SIZE,
    ensures
        dechunk_result(packets_in_order(chunked_message(cmd_id, data, msg_id))) == Ok::<
            (Seq<u8>, u8, u32),
            ProtocolError,
        >((data, cmd_id, msg_id)),
{
    let n = packet_count(data.len());
    if data.len() > 0 {
        lemma_packet_count(data.len(), 255);
        assert(255 * CHUNK_PAYLOAD_SIZE >= data.len());
    }
    assert(n <= 255);
    lemma_chunked_packets_below(cmd_id, data, msg_id, 256);
    lemma_chunked_prefix(cmd_id, data, msg_id, n);
    let ps = packets_in_order(chunked_message(cmd_id, data, msg_id));
    lemma_packet_fields(cmd_id, msg_id, 0, chunk_payload(data, 0));
    if data.len() > 0 {
        lemma_packet_count(data.len(), n);
        assert(n * CHUNK_PAYLOAD_SIZE >= data.len());
    }
    assert(data.subrange(0, data.len() as int) =~= data);
}

/// The set of packet numbers below `j` has `j` members.
proof fn lemma_keys_below_len(j: nat)
    requires
        j <= 256,
    ensures
        Set::new(|k: u8| (k as nat) < j).finite(),
        Set::new(|k: u8| (k as nat) < j).len() == j,
    decreases j,
{
    if j == 0 {
        assert(Set::new(|k: u8| (k as nat) < j) =~= Set::<u8>::empty());
    } else {
        lemma_keys_below_len((j - 1) as nat);
        assert(Set::new(|k: u8| (k as nat) < j) =~= Set::new(|k: u8| (k as nat) < (j - 1) as nat).insert(
            (j - 1) as u8,
        ));
    }
}

/// A chunked message holds one packet per payload piece.
pub proof fn lemma_chunked_message_len(cmd_id: u8, data: Seq<u8>, msg_id: u32)
    requires
        data.len() <= 255 * CHUNK_PAYLOAD_SIZE,
    ensures
        chunked_message(cmd_id, data, msg_id).dom().finite(),
        chunked_message(cmd_id, data, msg_id).len() == packet_count(data.len()),
        0 < packet_count(data.len()) <= 255,
{
    let n = packet_count(data.len());
    if data.len() > 0 {
        lemma_packet_count(data.len(), 255);
        lemma_packet_count(data.len(), 0);
    }
    lemma_keys_below_len(n);
    assert(chunked_message(cmd_id, data, msg_id).dom() =~= Set::new(|k: u8| (k as nat) < n));
}

} // verus!
