use shared_types::chunking::{chunk_serialized_data, dechunk_serialized_data, get_cmd_ids_and_nums};
use shared_types::error::ProtocolError;
use shared_types::ids::{ObjectId, ObjectType};
use shared_types::remote::{add_end_chunk, remove_end_chunk, RemoteData, send_data};
use shared_types::serializeable::{
    ClientCommandType, GlobalLightingInfo, LoginInfo, RemoteObject, Serializeable,
    ServerCommandType,
};

fn mat_bits(m: [[f64; 4]; 5]) -> [[u64; 4]; 5] {
    let mut out = [[0u64; 4]; 5];
    for r in 0..5 {
        for c in 0..4 {
            out[r][c] = m[r][c].to_bits();
        }
    }
    out
}

fn same_objects(a: &[RemoteObject], b: &[RemoteObject]) -> bool {
    a.len() == b.len() && a.iter().zip(b.iter()).all(|(x, y)| x == y && x.mat == y.mat)
}

#[test]
fn cct_serialize_deserialize() {
    let cct = ClientCommandType::Login("test".to_string());
    let msg_id = 0x22458;
    let chunks = cct.serialize(msg_id).unwrap();
    let cct2 = ClientCommandType::deserialize(chunks).unwrap();
    assert_eq!((cct, msg_id), cct2);
}

#[test]
fn sct_serialize_deserialize() {
    let sct = ServerCommandType::ReturnIds((ObjectId::new(0x12345678), ObjectId::new(0x12345678)));
    let msg_id = 0x2A458;
    let chunks = sct.serialize(msg_id).unwrap();
    let sct2 = ServerCommandType::deserialize(chunks).unwrap();
    assert_eq!((sct, msg_id), sct2);

    let mat = [
        [1.0, 2.0, 3.0, 4.0],
        [5.0, 6.0, 7.0, 8.0],
        [9.0, 10.0, 11.0, 12.0],
        [13.0, 14.0, 15.0, 16.0],
        [17., 18., 19., 20.],
    ];
    let objs = vec![
        RemoteObject { mat: mat_bits(mat), id: ObjectId::new(0x12345678), typ: ObjectType::Asteroid },
        RemoteObject { mat: mat_bits(mat), id: ObjectId::new(0x12345679), typ: ObjectType::Ship },
    ];
    let sct = ServerCommandType::Update(objs.clone());
    let msg_id = 0x2A458;
    let chunks = sct.serialize(msg_id).unwrap();
    let sct2 = ServerCommandType::deserialize(chunks).unwrap();
    assert_eq!((sct, msg_id), sct2);
    if let (ServerCommandType::Update(back), _) = sct2 {
        assert!(same_objects(&objs, &back));
    } else {
        panic!("not an update");
    }

    let mut objs = Vec::new();
    for i in 0..20 {
        let idx = i as f64;
        objs.push(RemoteObject {
            mat: mat_bits([
                [1.0 * idx, 2.0 * idx, 3.0 * idx, 4.0 * idx],
                [-5.0 * idx, 6.0 * idx, 7.0 * idx, 8.0 * idx],
                [9.0, 10.0, 11.0, 12.0],
                [13.0 * idx, 14.0 * idx, 15.0 * idx, 16.0 * idx],
                [17., 18., 19., 20.],
            ]),
            id: ObjectId::new(0x12345678 + i as u32),
            typ: ObjectType::Asteroid,
        });
    }
    let sct = ServerCommandType::Update(objs.clone());
    let msg_id = 0x2A458;
    let chunks = sct.serialize(msg_id).unwrap();
    let sct2 = ServerCommandType::deserialize(chunks).unwrap();
    assert_eq!((sct, msg_id), sct2);
    if let (ServerCommandType::Update(back), _) = sct2 {
        assert!(same_objects(&objs, &back));
    } else {
        panic!("not an update");
    }
}

#[test]
fn add_rem_end() {
    let cmd = ServerCommandType::ReturnIds((ObjectId::new(475893), ObjectId::new(475893)));
    let msg = cmd.serialize(0x2A458).unwrap();
    assert_eq!(remove_end_chunk(add_end_chunk(msg.clone())).unwrap(), msg);

    let cmd = ClientCommandType::Login("HellloThereIAmGroot".to_string());
    let msg = cmd.serialize(0x2A458).unwrap();
    assert_eq!(remove_end_chunk(add_end_chunk(msg.clone())).unwrap(), msg);
}

#[test]
fn login_reply_round_trip() {
    let login = LoginInfo {
        pid: ObjectId::new(7),
        lighting: GlobalLightingInfo {
            skybox: "assets/sky.jpg".to_string(),
            hdr: "assets/light.hdr".to_string(),
            dir_light: [1.0f32.to_bits(), 0.5f32.to_bits(), (-0.25f32).to_bits()],
        },
        spawn_pos: [0, 0, 0],
        starting_ids: (ObjectId::new(8), ObjectId::new(1032)),
    };
    let sct = ServerCommandType::ReturnLogin(login);
    let chunks = sct.serialize(3).unwrap();
    let back = ServerCommandType::deserialize(chunks).unwrap();
    assert_eq!((sct, 3), back);
}

#[test]
fn login_reply_without_paths_is_too_short() {
    let login = LoginInfo {
        pid: ObjectId::new(1),
        lighting: GlobalLightingInfo { skybox: String::new(), hdr: String::new(), dir_light: [0, 0, 0] },
        spawn_pos: [0, 0, 0],
        starting_ids: (ObjectId::new(2), ObjectId::new(3)),
    };
    let chunks = ServerCommandType::ReturnLogin(login).serialize(0).unwrap();
    assert_eq!(ServerCommandType::deserialize(chunks), Err(ProtocolError::LoginTooShort));
}

#[test]
fn id_request_round_trip() {
    let cct = ClientCommandType::GetIds(1024);
    let chunks = cct.serialize(9).unwrap();
    assert_eq!(ClientCommandType::deserialize(chunks), Ok((ClientCommandType::GetIds(1024), 9)));
}

#[test]
fn read_only_update_reads_back_as_update() {
    let objs = [RemoteObject { mat: [[0; 4]; 5], id: ObjectId::new(4), typ: ObjectType::Ship }];
    let cct = ClientCommandType::UpdateReadOnly(&objs);
    let chunks = cct.serialize(1).unwrap();
    assert_eq!(
        ClientCommandType::deserialize(chunks),
        Ok((ClientCommandType::Update(objs.to_vec()), 1))
    );
}

#[test]
fn object_type_bytes() {
    assert_eq!(ObjectType::try_from_u8(0), Ok(ObjectType::Laser));
    assert_eq!(ObjectType::try_from_u8(2), Ok(ObjectType::Asteroid));
    assert_eq!(ObjectType::try_from_u8(4), Ok(ObjectType::Hook));
    assert_eq!(ObjectType::try_from_u8(5), Ok(ObjectType::Planet));
    assert_eq!(ObjectType::try_from_u8(6), Ok(ObjectType::Cloud));
    assert_eq!(ObjectType::try_from_u8(7), Err(ProtocolError::InvalidObjectType(7)));
    assert_eq!(ObjectType::Planet.to_u8(), 5);
    assert_eq!(ObjectType::Cloud.to_u8(), 6);
    assert_eq!(ObjectType::from_unchecked(5), ObjectType::Planet);
    assert_eq!(ObjectType::from_unchecked(0), ObjectType::Laser);
    assert!(ObjectType::Cloud.is_non_physical());
    assert!(ObjectType::Skybox.is_non_physical());
    assert!(!ObjectType::Ship.is_non_physical());
}

#[test]
fn planets_and_clouds_survive_an_update() {
    let mut objs = Vec::new();
    for (i, typ) in [ObjectType::Planet, ObjectType::Cloud, ObjectType::Skybox].into_iter().enumerate() {
        objs.push(RemoteObject { mat: [[i as u64; 4]; 5], id: ObjectId::new(i as u32), typ });
    }
    let sent = ServerCommandType::Update(objs.clone()).serialize(3).unwrap();
    match ServerCommandType::deserialize(sent) {
        Ok((ServerCommandType::Update(back), 3)) => {
            assert_eq!(back.len(), 3);
            for (a, b) in back.iter().zip(objs.iter()) {
                assert_eq!((a.typ, a.id, a.mat), (b.typ, b.id, b.mat));
            }
        }
        other => panic!("unexpected {:?}", other),
    }
}

#[test]
fn object_ids() {
    let mut id = ObjectId::default();
    assert_eq!(id.as_underlying_type(), 0);
    assert_eq!(id.consume(), ObjectId::new(0));
    assert_eq!(id, ObjectId::new(1));
    assert_eq!(ObjectId::new(u32::MAX).next(), ObjectId::new(0));
    assert_eq!(ObjectId::new(u32::MAX - 1).incr(3), ObjectId::new(1));
    assert_eq!(ObjectId::new(0x01020304).to_be_bytes(), [1, 2, 3, 4]);
    assert_eq!(ObjectId::from_be_bytes([1, 2, 3, 4]), ObjectId::new(0x01020304));
}

#[test]
fn chunk_and_dechunk() {
    let data: Vec<u8> = (0..3000u32).map(|i| (i % 251) as u8).collect();
    let chunks = chunk_serialized_data(85, &data, 77);
    assert_eq!(chunks.len(), 3);
    let first = chunks.get(&0).unwrap();
    assert_eq!(get_cmd_ids_and_nums(first), (85, 77, 0));
    let (back, cmd, msg) = dechunk_serialized_data(chunks).unwrap();
    assert_eq!((back, cmd, msg), (data, 85, 77));
}

#[test]
fn single_packet_messages_are_received() {
    let cct = ClientCommandType::Login("pilot".to_string());
    let packets = send_data(&cct, 12).unwrap();
    assert_eq!(packets.len(), 1);
    let ready = RemoteData::<ClientCommandType>::Buffering(Default::default())
        .add_packet(packets[0].clone())
        .unwrap();
    assert!(ready.is_ready());
    match ready {
        RemoteData::Ready(cmd) => {
            assert_eq!(cmd, ClientCommandType::Login("pilot".to_string()));
        }
        RemoteData::Buffering(_) => panic!("message not ready"),
    }
}

#[test]
fn a_ready_message_takes_no_more_packets() {
    let cct = ClientCommandType::GetIds(3);
    let packets = send_data(&cct, 1).unwrap();
    let ready = RemoteData::<ClientCommandType>::Buffering(Default::default())
        .add_packet(packets[0].clone())
        .unwrap();
    assert_eq!(ready.add_packet(packets[0].clone()).err(), Some(ProtocolError::MessageAlreadyReady));
}

#[test]
fn remove_end_of_message_without_end_fails() {
    let msg = ClientCommandType::GetIds(3).serialize(5).unwrap();
    assert_eq!(remove_end_chunk(msg), Err(ProtocolError::NoEndChunk));
}
