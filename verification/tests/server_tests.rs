use shared_types::config::{parse_args, parse_port, ArgumentError, MapType, ServerConfiguration, DEFAULT_PORT};
use shared_types::ids::{ObjectId, ObjectType};
use shared_types::serializeable::{ClientCommandType, GlobalLightingInfo, RemoteObject, ServerCommandType};
use shared_types::server::{ClientAddr, ServerState};

fn args(list: &[&str]) -> Vec<String> {
    list.iter().map(|s| s.to_string()).collect()
}

fn lighting() -> GlobalLightingInfo {
    GlobalLightingInfo {
        skybox: "assets/Milkyway/Milkyway_BG.jpg".to_string(),
        hdr: "assets/Milkyway/Milkyway_Light.hdr".to_string(),
        dir_light: [0, 0, 0],
    }
}

fn client(id: u16) -> ClientAddr {
    ClientAddr { ip: 0xffff_7f00_0001, port: DEFAULT_PORT + id }
}

#[test]
fn default_configuration() {
    let c = ServerConfiguration::default();
    assert_eq!(c.port, 33200);
    assert_eq!(c.map, MapType::AsteroidMap);
    assert_eq!(parse_args(&args(&["server"])), Ok(c));
    assert_eq!(parse_args(&args(&[])), Ok(c));
}

#[test]
fn options_set_port_and_map() {
    let c = parse_args(&args(&["server", "-p", "8080", "--map", "asteroid"])).unwrap();
    assert_eq!(c.port, 8080);
    assert_eq!(c.map, MapType::AsteroidMap);
    let c = parse_args(&args(&["server", "--port", "1", "-p", "+65535"])).unwrap();
    assert_eq!(c.port, 65535);
}

#[test]
fn option_errors() {
    assert_eq!(parse_args(&args(&["server", "-p"])), Err(ArgumentError::MissingPort));
    assert_eq!(parse_args(&args(&["server", "--map"])), Err(ArgumentError::MissingMap));
    assert_eq!(
        parse_args(&args(&["server", "-p", "65536"])),
        Err(ArgumentError::InvalidPort("65536".to_string()))
    );
    assert_eq!(
        parse_args(&args(&["server", "-m", "desert"])),
        Err(ArgumentError::InvalidMap("desert".to_string()))
    );
    assert_eq!(
        parse_args(&args(&["server", "--verbose"])),
        Err(ArgumentError::UnknownArgument("--verbose".to_string()))
    );
}

#[test]
fn ports_read_as_u16_from_str() {
    for text in ["0", "80", "+80", "0080", "65535", "", "+", "-1", "65536", " 80", "8a", "\u{663}"] {
        assert_eq!(parse_port(text), text.parse::<u16>().ok(), "text {:?}", text);
    }
}

#[test]
fn map_names() {
    assert_eq!(MapType::try_from("asteroid"), Ok(MapType::AsteroidMap));
    assert_eq!(MapType::try_from("Asteroid"), Err(ArgumentError::InvalidMap("Asteroid".to_string())));
}

#[test]
fn login() {
    let mut state = ServerState::new(Vec::new(), lighting());
    for id in 1..=4u16 {
        let addr = client(id);
        assert!(state.can_answer(addr));
        let (reply, msg_id) = state.respond_to_msg(ClientCommandType::Login(format!("Client_{}", id)), addr);
        assert_eq!(msg_id, 0);
        match reply {
            ServerCommandType::ReturnLogin(l) => {
                let own = (id as u32 - 1) * 1025;
                assert_eq!(l.pid, ObjectId::new(own));
                assert_eq!(l.starting_ids, (ObjectId::new(own + 1), ObjectId::new(own + 1025)));
                assert_eq!(l.lighting, lighting());
                assert_eq!(l.spawn_pos, [0.0f64.to_bits(); 3]);
            }
            other => panic!("Unexpected response: {:?}", other),
        }
    }
}

#[test]
fn update_important() {
    let mut state = ServerState::new(Vec::new(), lighting());
    for id in 1..=4u16 {
        let obj = RemoteObject {
            mat: [[(id as f64).to_bits(); 4]; 5],
            id: ObjectId::new(id as u32),
            typ: ObjectType::Ship,
        };
        let (reply, _) = state.respond_to_msg(ClientCommandType::Update(vec![obj]), client(id));
        if let ServerCommandType::Update(objs) = reply {
            assert_eq!(objs.len(), (id - 1) as usize);
            for o in &objs {
                let obj_id = o.id.as_underlying_type();
                assert!(obj_id < (id as u32));
                assert_eq!(o.mat, [[(obj_id as f64).to_bits(); 4]; 5]);
                assert_eq!(o.typ, ObjectType::Ship);
            }
        } else {
            panic!("Unexpected response: {:?}", reply);
        }
    }
}

#[test]
fn message_ids_count_per_client() {
    let mut state = ServerState::new(Vec::new(), lighting());
    let (_, first) = state.respond_to_msg(ClientCommandType::GetIds(10), client(1));
    let (_, other) = state.respond_to_msg(ClientCommandType::GetIds(10), client(2));
    let (_, second) = state.respond_to_msg(ClientCommandType::Update(Vec::new()), client(1));
    assert_eq!((first, other, second), (0, 0, 1));
}

#[test]
fn id_requests_hand_out_consecutive_ranges() {
    let mut state = ServerState::new(Vec::new(), lighting());
    let (a, _) = state.respond_to_msg(ClientCommandType::GetIds(10), client(1));
    let (b, _) = state.respond_to_msg(ClientCommandType::GetIds(5), client(1));
    assert_eq!(a, ServerCommandType::ReturnIds((ObjectId::new(1), ObjectId::new(11))));
    assert_eq!(b, ServerCommandType::ReturnIds((ObjectId::new(11), ObjectId::new(16))));
}

#[test]
fn update_skips_own_objects() {
    let mut state = ServerState::new(Vec::new(), lighting());
    let mine = RemoteObject { mat: [[0; 4]; 5], id: ObjectId::new(100), typ: ObjectType::Ship };
    let theirs = RemoteObject { mat: [[0; 4]; 5], id: ObjectId::new(200), typ: ObjectType::Laser };
    state.respond_to_msg(ClientCommandType::Update(vec![theirs]), client(2));
    let (reply, _) = state.respond_to_msg(ClientCommandType::UpdateReadOnly(&[mine]), client(1));
    assert_eq!(reply, ServerCommandType::Update(vec![theirs]));
    let (reply, _) = state.respond_to_msg(ClientCommandType::Update(vec![theirs, theirs]), client(2));
    assert_eq!(reply, ServerCommandType::Update(vec![mine]));
    assert_eq!(state.get_all_objects(client(3)).len(), 3);
}
