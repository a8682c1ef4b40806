use shared_types::chunking::{chunk_serialized_data, dechunk_serialized_data, ChunkedMsg};
use shared_types::error::ProtocolError;
use shared_types::ids::{ObjectId, ObjectType};
use shared_types::remote::{receive_packet, remove_end_chunk, send_data, ClientMessages, RemoteData};
use shared_types::serializeable::{
    deserialize_id_range, deserialize_id_request, deserialize_update, serialize_id_range,
    serialize_id_request, ClientCommandType, RemoteObject, Serializeable, ServerCommandType,
};
use shared_types::text::string_from_utf8;

/// A packet with the given title fields, payload and footer byte.
fn raw_packet(cmd: u8, msg: u32, pn: u8, payload: &[u8], footer: u8) -> Vec<u8> {
    let mut p = vec![b'S', cmd];
    p.extend_from_slice(&msg.to_be_bytes());
    p.push(pn);
    p.extend_from_slice(payload);
    p.push(footer);
    p
}

fn one_packet(p: Vec<u8>) -> ChunkedMsg {
    let mut m = ChunkedMsg::new();
    m.insert(0, p);
    m
}

#[test]
fn dechunk_errors() {
    assert_eq!(dechunk_serialized_data(one_packet(vec![b'S', 1, 2])), Err(ProtocolError::ChunkTooShort(3)));
    let mut bad_header = raw_packet(76, 1, 0, b"x", b'\n');
    bad_header[0] = b'T';
    assert_eq!(dechunk_serialized_data(one_packet(bad_header)), Err(ProtocolError::InvalidChunkHeader));
    assert_eq!(
        dechunk_serialized_data(one_packet(raw_packet(76, 1, 0, b"x", b'?'))),
        Err(ProtocolError::InvalidChunkFooter)
    );
    let mut two = one_packet(raw_packet(76, 1, 0, b"x", b'\n'));
    two.insert(1, raw_packet(85, 1, 1, b"y", b'\n'));
    assert_eq!(dechunk_serialized_data(two), Err(ProtocolError::OptionMismatch));
    let mut gap = one_packet(raw_packet(76, 1, 0, b"x", b'\n'));
    gap.insert(2, raw_packet(76, 1, 2, b"y", b'\n'));
    assert_eq!(dechunk_serialized_data(gap), Err(ProtocolError::PacketOutOfOrder));
}

#[test]
fn end_errors() {
    let msg = one_packet(raw_packet(76, 1, 0, b"abENDcd", b'\n'));
    assert_eq!(remove_end_chunk(msg), Err(ProtocolError::InvalidEndPosition));
}

#[test]
fn packet_errors() {
    let fresh = || RemoteData::<ClientCommandType>::Buffering(ChunkedMsg::new());
    assert_eq!(fresh().add_packet(vec![b'S', 1]).err(), Some(ProtocolError::PacketTooSmall));
    let mut half = ChunkedMsg::new();
    half.insert(0, raw_packet(76, 1, 0, b"x", b'\n'));
    let buffering = RemoteData::<ClientCommandType>::Buffering(half);
    assert_eq!(
        buffering.add_packet(raw_packet(76, 1, 0, b"y", b'\n')).err(),
        Some(ProtocolError::DuplicatePacket)
    );

    let mut msgs: ClientMessages<ClientCommandType> = ClientMessages::new();
    assert_eq!(receive_packet(&mut msgs, vec![b'S'], 0).err(), Some(ProtocolError::PacketTooSmall));
    let no_end = raw_packet(76, 1, 0, b"x", b'\n');
    assert_eq!(receive_packet(&mut msgs, no_end.clone(), 0), Ok(None));
    assert_eq!(msgs.len(), 1);
    assert_eq!(receive_packet(&mut msgs, no_end, 1).err(), Some(ProtocolError::CouldNotAddPacket));
    assert!(msgs.is_empty());
}

#[test]
fn a_whole_message_in_one_packet_is_received() {
    let cmd = ClientCommandType::Login("x".repeat(200));
    let packets = send_data(&cmd, 4).unwrap();
    let mut msgs: ClientMessages<ClientCommandType> = ClientMessages::new();
    assert_eq!(packets.len(), 1);
    assert_eq!(receive_packet(&mut msgs, packets[0].clone(), 10), Ok(Some(cmd)));
    assert!(msgs.is_empty());
}

#[test]
fn payload_errors() {
    assert_eq!(deserialize_update(&[0u8; 164]).err(), Some(ProtocolError::InvalidUpdateLength));
    let mut bad_type = vec![0u8; 165];
    bad_type[164] = 9;
    assert_eq!(deserialize_update(&bad_type).err(), Some(ProtocolError::InvalidObjectType(9)));
    assert_eq!(deserialize_id_range(&[0; 7]), Err(ProtocolError::InvalidIdRangeSize));
    assert_eq!(deserialize_id_request(&[0; 5]), Err(ProtocolError::InvalidIdRequestSize));
    let (bytes, cmd) = serialize_id_range((ObjectId::new(1), ObjectId::new(0x01020304)));
    assert_eq!(cmd, 73);
    assert_eq!(bytes, vec![0, 0, 0, 1, 1, 2, 3, 4]);
    assert_eq!(deserialize_id_range(&bytes), Ok((ObjectId::new(1), ObjectId::new(0x01020304))));
    let (bytes, _) = serialize_id_request(0x0a0b0c0d);
    assert_eq!(deserialize_id_request(&bytes), Ok(0x0a0b0c0d));
}

#[test]
fn command_errors() {
    let long = ClientCommandType::Login("n".repeat(257));
    assert_eq!(long.serialize(0), Err(ProtocolError::LoginNameTooLong));
    let unknown = chunk_serialized_data(99, &[1, 2, 3], 5);
    assert_eq!(ClientCommandType::deserialize(unknown.clone()), Err(ProtocolError::UnknownCommand(99)));
    assert_eq!(ServerCommandType::deserialize(unknown), Err(ProtocolError::UnknownCommand(99)));
    let bad_name = chunk_serialized_data(76, &[2, 0xff, 0xfe], 5);
    assert_eq!(ClientCommandType::deserialize(bad_name), Err(ProtocolError::InvalidUtf8));
}

#[test]
fn update_bytes_layout() {
    let obj = RemoteObject { mat: [[0x0102030405060708; 4]; 5], id: ObjectId::new(0x0a0b0c0d), typ: ObjectType::Hook };
    let chunks = ClientCommandType::Update(vec![obj]).serialize(1).unwrap();
    let (data, cmd, msg) = dechunk_serialized_data(chunks).unwrap();
    assert_eq!((cmd, msg), (85, 1));
    assert_eq!(data.len(), 165);
    assert_eq!(&data[0..8], &[1, 2, 3, 4, 5, 6, 7, 8]);
    assert_eq!(&data[160..165], &[0x0a, 0x0b, 0x0c, 0x0d, 4]);
}

#[test]
fn utf8_text() {
    assert_eq!(string_from_utf8("héllo".as_bytes()), Some("héllo".to_string()));
    assert_eq!(string_from_utf8(&[0x68, 0x69]), Some("hi".to_string()));
    assert_eq!(string_from_utf8(&[0xc3]), None);
    assert_eq!(string_from_utf8(&[0xed, 0xa0, 0x80]), None);
}

fn objects(n: u32, fill: u64) -> Vec<RemoteObject> {
    (0..n)
        .map(|i| RemoteObject { mat: [[fill; 4]; 5], id: ObjectId::new(i), typ: ObjectType::Asteroid })
        .collect()
}

#[test]
fn multi_packet_message_arrives_in_order() {
    let cmd = ClientCommandType::Update(objects(20, 0x0101010101010101));
    let packets = send_data(&cmd, 77).unwrap();
    assert_eq!(packets.len(), 4);
    let mut msgs: ClientMessages<ClientCommandType> = ClientMessages::new();
    for (i, p) in packets.iter().enumerate() {
        let got = receive_packet(&mut msgs, p.clone(), i as u64).unwrap();
        if i + 1 < packets.len() {
            assert_eq!(got, None);
            assert_eq!(msgs.len(), 1);
            assert_eq!(msgs.values().next().unwrap().last_access, i as u64);
        } else {
            assert_eq!(got, Some(cmd.clone()));
            assert!(msgs.is_empty());
        }
    }
}

#[test]
fn end_bytes_in_an_early_packet_break_the_message() {
    // 0x45 0x4e 0x44 is "END"; every object's matrix is full of it.
    let cmd = ServerCommandType::Update(objects(20, 0x454e4445_4e44454e));
    let packets = send_data(&cmd, 3).unwrap();
    let mut msgs: ClientMessages<ServerCommandType> = ClientMessages::new();
    assert_eq!(receive_packet(&mut msgs, packets[0].clone(), 0), Err(ProtocolError::CouldNotAddPacket));
    assert!(msgs.is_empty());
}

#[test]
fn stale_messages_are_cleared() {
    let cmd = ClientCommandType::Update(objects(20, 0));
    let packets = send_data(&cmd, 9).unwrap();
    let mut msgs: ClientMessages<ClientCommandType> = ClientMessages::new();
    assert_eq!(receive_packet(&mut msgs, packets[0].clone(), 100), Ok(None));
    shared_types::remote::clear_old_messages(&mut msgs, 5000, 10_000);
    assert_eq!(msgs.len(), 1);
    shared_types::remote::clear_old_messages(&mut msgs, 10_101, 10_000);
    assert!(msgs.is_empty());
}

#[test]
fn a_message_without_packets_is_empty() {
    assert_eq!(dechunk_serialized_data(ChunkedMsg::new()), Err(ProtocolError::EmptyMessage));
    assert_eq!(ClientCommandType::deserialize(ChunkedMsg::new()), Err(ProtocolError::EmptyMessage));
    assert!(ServerCommandType::deserialize_is_safe(&ChunkedMsg::new()));
    assert_eq!(ServerCommandType::deserialize(ChunkedMsg::new()), Err(ProtocolError::EmptyMessage));
}

#[test]
fn a_message_of_255_packets_joins() {
    let data: Vec<u8> = (0..255 * 1016).map(|i: usize| (i % 251) as u8).collect();
    let chunks = chunk_serialized_data(85, &data, 9);
    assert_eq!(chunks.len(), 255);
    let (back, cmd, msg) = dechunk_serialized_data(chunks).unwrap();
    assert_eq!((back, cmd, msg), (data, 85, 9));
    let update = ServerCommandType::Update(objects(1570, 3));
    let sent = update.serialize(4).unwrap();
    assert_eq!(sent.len(), 255);
    match ServerCommandType::deserialize(sent) {
        Ok((ServerCommandType::Update(objs), 4)) => assert_eq!(objs.len(), 1570),
        other => panic!("unexpected {:?}", other),
    }
}
