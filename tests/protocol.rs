use grimstone::client::{register, Client, ClientBound, PacketKind, PacketRef, ServerBound};
use grimstone::codec::{Buffer, Error, PacketState};
use grimstone::config::{ConcreteConfig, Config, ConfigServer, ConfigServerNetworking};
use grimstone::packets::{JoinGamePacket, GameMode, PingPongPacket};
use grimstone::{nsid, MINECRAFT_PROTOCOL_VERSION};
use rand::{Rng, SeedableRng};
use rand_chacha::ChaCha8Rng;
use std::collections::hash_map::DefaultHasher;
use std::hash::{Hash, Hasher};

fn new_client() -> Client {
    let config = ConcreteConfig::from(Config { server: None });
    let mut c = Client::new(config, vec![0x0a, 0x00], vec![0x0b, 0x00]);
    register(&mut c).unwrap();
    c
}

fn frame(body: &[u8]) -> Vec<u8> {
    let mut v = vec![body.len() as u8];
    v.extend_from_slice(body);
    v
}

fn handshake(next: u8) -> Vec<u8> {
    let mut v = vec![0x10, 0x00, 0xf3, 0x05, 0x09];
    v.extend_from_slice(b"127.0.0.1");
    v.extend_from_slice(&[0x63, 0xdd, next]);
    v
}

fn step(c: &mut Client, bytes: &[u8]) {
    let mut input = Buffer::from_slice(bytes);
    let p = c.read_packet(&mut input).unwrap();
    c.act(p).unwrap();
    assert_eq!(input.len(), 0);
}

fn expected_uuid(name: &str) -> u128 {
    let mut h = DefaultHasher::new();
    Some(name.to_string()).hash(&mut h);
    let mut rng = ChaCha8Rng::seed_from_u64(h.finish());
    rng.gen::<u128>()
}

#[test]
fn config_defaults() {
    let c = ConcreteConfig::from(Config { server: None });
    assert_eq!(c.server_port, 25565);
    assert_eq!(c.server_motd, "Hello, World!");
    assert!(c.networking_enable_compression);
    assert!(c.networking_online_mode);
}

#[test]
fn config_overrides() {
    let c = ConcreteConfig::from(Config {
        server: Some(ConfigServer {
            port: Some(4000),
            motd: Some("hi".to_string()),
            networking: Some(ConfigServerNetworking { enable_compression: Some(false), online_mode: None }),
        }),
    });
    assert_eq!(c.server_port, 4000);
    assert_eq!(c.server_motd, "hi");
    assert!(!c.networking_enable_compression);
    assert!(c.networking_online_mode);
}

#[test]
fn namespaced_id_text() {
    assert_eq!(nsid("minecraft", "overworld").to_string(), "minecraft:overworld");
}

#[test]
fn registry_refuses_replacement() {
    let mut c = new_client();
    let r = c.when(PacketState::Play, 7, PacketKind::PingPong);
    assert!(r.is_ok());
    let r2 = c.when(PacketState::Play, 7, PacketKind::Request);
    assert!(matches!(r2, Err(Error::CannotReplace)));
    assert_eq!(c.decoder(PacketRef(PacketState::Play, 7)), Some(PacketKind::PingPong));
    assert!(matches!(register(&mut c), Err(Error::CannotReplace)));
}

#[test]
fn frame_boundary_is_kept() {
    let mut c = new_client();
    step(&mut c, &handshake(1));
    // A request frame with two trailing bytes its decoder does not read.
    let mut bytes = vec![0x03, 0x00, 0xaa, 0xbb];
    let b = frame(&[0x01, 0, 0, 0, 0, 0, 0, 0, 9]);
    bytes.extend_from_slice(&b);
    let mut input = Buffer::from_slice(&bytes);
    let p = c.read_packet(&mut input).unwrap();
    assert!(matches!(p, ServerBound::Request(_)));
    assert_eq!(input.bytes, b);
}

#[test]
fn handshake_status_ping() {
    let mut c = new_client();
    step(&mut c, &handshake(1));
    assert_eq!(c.state, PacketState::Status);
    step(&mut c, &[0x01, 0x00]);
    let mut out = Buffer::from_slice(&c.outbound.bytes);
    let len = out.read_var_int().unwrap() as usize;
    assert_eq!(out.len(), len);
    assert_eq!(out.read_var_int().unwrap(), 0);
    let json = out.read_string(32767).unwrap();
    assert!(json.contains(&format!("\"protocol\":{}", MINECRAFT_PROTOCOL_VERSION)));
    assert!(json.contains("\"protocol\":755,") || json.contains("\"protocol\":755}"));
    assert!(json.contains("Hello, World!"));
    c.outbound = Buffer::new();
    let ping = [0x09, 0x01, 0x00, 0x00, 0x00, 0x00, 0x00, 0x00, 0x04, 0xd2];
    step(&mut c, &ping);
    assert_eq!(c.outbound.bytes, ping.to_vec());
}

#[test]
fn handshake_login_join_game() {
    let mut c = new_client();
    step(&mut c, &handshake(2));
    assert_eq!(c.state, PacketState::Login);
    step(&mut c, &[0x07, 0x00, 0x05, b'A', b'l', b'i', b'c', b'e']);
    assert_eq!(c.state, PacketState::Play);
    assert_eq!(c.username.as_deref(), Some("Alice"));
    let uuid = expected_uuid("Alice");
    assert_eq!(c.uuid, Some(uuid));
    let mut out = Buffer::from_slice(&c.outbound.bytes);
    let len = out.read_var_int().unwrap();
    assert_eq!(len, 1 + 16 + 6);
    assert_eq!(out.read_var_int().unwrap(), 2);
    assert_eq!(out.read_u128().unwrap(), uuid);
    assert_eq!(out.read_string(17).unwrap(), "Alice");
    let len2 = out.read_var_int().unwrap() as usize;
    assert_eq!(out.len(), len2);
    assert_eq!(out.read_var_int().unwrap(), 0x26);
    assert_eq!(out.read_i32().unwrap(), 0);
    assert_eq!(out.take_bytes(3).unwrap(), vec![0, 0, 0xff]);
    assert_eq!(out.read_var_int().unwrap(), 1);
    assert_eq!(out.read_string(100).unwrap(), "minecraft:overworld");
    assert_eq!(out.take_bytes(4).unwrap(), vec![0x0a, 0x00, 0x0b, 0x00]);
    assert_eq!(out.read_string(100).unwrap(), "minecraft:overworld");
    assert_eq!(out.read_u64().unwrap(), 0);
    assert_eq!(out.take_bytes(6).unwrap(), vec![0, 4, 0, 1, 0, 1]);
    assert_eq!(out.len(), 0);
}

#[test]
fn uuid_depends_on_username_only() {
    let mut a = new_client();
    let mut b = new_client();
    for c in [&mut a, &mut b] {
        step(c, &handshake(2));
        step(c, &[0x07, 0x00, 0x05, b'A', b'l', b'i', b'c', b'e']);
    }
    assert_eq!(a.uuid, b.uuid);
    let mut d = new_client();
    step(&mut d, &handshake(2));
    step(&mut d, &[0x05, 0x00, 0x03, b'B', b'o', b'b']);
    assert_ne!(a.uuid, d.uuid);
}

#[test]
fn bad_next_state_is_refused() {
    let c = new_client();
    let mut input = Buffer::from_slice(&handshake(7));
    assert!(matches!(c.read_packet(&mut input), Err(Error::InvalidNextState(7))));
    assert_eq!(input.len(), 0);
}

#[test]
fn unknown_id_is_refused() {
    let mut c = new_client();
    step(&mut c, &handshake(1));
    let mut input = Buffer::from_slice(&[0x01, 0x05]);
    match c.read_packet(&mut input) {
        Err(Error::InvalidPacketId(PacketState::Status, 5)) => {}
        other => panic!("unexpected {:?}", other),
    }
}

#[test]
fn over_long_username_is_refused() {
    let mut c = new_client();
    step(&mut c, &handshake(2));
    let mut bytes = vec![19, 0x00, 17];
    bytes.extend_from_slice(b"abcdefghijklmnopq");
    let mut input = Buffer::from_slice(&bytes);
    match c.read_packet(&mut input) {
        Err(Error::StringTooLong(17, 16, _)) => {}
        other => panic!("unexpected {:?}", other),
    }
}

#[test]
fn short_frame_is_disconnected() {
    let c = new_client();
    let mut input = Buffer::from_slice(&[0x05, 0x00, 0x01]);
    assert!(matches!(c.read_packet(&mut input), Err(Error::Disconnected)));
}

#[test]
fn write_packet_frames() {
    let mut c = new_client();
    let n = c.write_packet(&ClientBound::PingPong(PingPongPacket { number: 1 })).unwrap();
    assert_eq!(n, 10);
    assert_eq!(c.outbound.bytes, vec![9, 1, 0, 0, 0, 0, 0, 0, 0, 1]);
    let j = JoinGamePacket { eid: 5, game_mode: GameMode::Survival };
    assert_eq!(j.id(), 0x26);
}

#[test]
fn long_motd_is_answered() {
    let motd = "m".repeat(5000);
    let config = ConcreteConfig::from(Config {
        server: Some(ConfigServer { port: None, motd: Some(motd.clone()), networking: None }),
    });
    let mut c = Client::new(config, vec![], vec![]);
    register(&mut c).unwrap();
    step(&mut c, &handshake(1));
    step(&mut c, &[0x01, 0x00]);
    let mut out = Buffer::from_slice(&c.outbound.bytes);
    let len = out.read_var_int().unwrap() as usize;
    assert_eq!(out.len(), len);
    assert_eq!(out.read_var_int().unwrap(), 0);
    let json = out.read_string(32767).unwrap();
    assert!(json.contains(&motd));
}

#[test]
fn register_keeps_earlier_binding() {
    let config = ConcreteConfig::from(Config { server: None });
    let mut c = Client::new(config, vec![], vec![]);
    c.when(PacketState::Status, 1, PacketKind::Request).unwrap();
    assert!(matches!(register(&mut c), Err(Error::CannotReplace)));
    assert_eq!(c.decoder(PacketRef(PacketState::Status, 1)), Some(PacketKind::Request));
}
