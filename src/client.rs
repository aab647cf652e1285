//! The per-connection protocol state machine: the decoder registry, inbound
//! frame decoding, outbound frame encoding and the effect of each packet.
use vstd::prelude::*;
use vstd::utf8::encode_utf8;
use std::collections::hash_map::DefaultHasher;
use std::hash::{Hash, Hasher};
use rand::{Rng, SeedableRng};
use rand_chacha::ChaCha8Rng;
use crate::codec::{
    be_bytes, be_value, lemma_be_len, lemma_var_bytes_len, lemma_var_read_encoding, string_error,
    string_read, var_bytes, var_read, Buffer, Error,
    PacketState, VarRead,
};
use crate::config::ConcreteConfig;
use crate::packets::{
    handshake_error, handshake_parse, join_game_body, next_state, string_bytes, EndLoginPacket,
    GameMode, HandshakePacket, JoinGamePacket, PingPongPacket, RequestPacket, ResponsePacket,
    StartLoginPacket,
};

verus! {

/// The registry key: a protocol state and a packet id.
#[derive(Debug, Copy, Clone, PartialEq, Eq, Hash, Structural)]
pub struct PacketRef(pub PacketState, pub u32);

/// The header of a frame: its length and the packet id.
#[derive(Debug, Copy, Clone)]
pub struct RawPacket {
    pub len: u32,
    pub id: u32,
}

/// The decoder a registration binds to a `(state, id)` pair.
#[derive(Debug, Copy, Clone, PartialEq, Eq, Structural)]
pub enum PacketKind {
    Handshake,
    Request,
    PingPong,
    StartLogin,
}

/// A decoded server-bound packet.
#[derive(Debug)]
pub enum ServerBound {
    Handshake(HandshakePacket),
    Request(RequestPacket),
    PingPong(PingPongPacket),
    StartLogin(StartLoginPacket),
}

/// A client-bound packet to encode.
#[derive(Debug)]
pub enum ClientBound {
    Response(ResponsePacket),
    PingPong(PingPongPacket),
    EndLogin(EndLoginPacket),
    JoinGame(JoinGamePacket),
}

/// The state of one connection. Outbound frames are appended to `outbound`
/// for the transport to send.
pub struct Client {
    pub is_valid: bool,
    pub packets: Vec<(PacketRef, PacketKind)>,
    pub state: PacketState,
    pub config: ConcreteConfig,
    pub username: Option<String>,
    pub uuid: Option<u128>,
    pub outbound: Buffer,
    /// NBT of the dimension-type and biome registries sent on join.
    pub registries_nbt: Vec<u8>,
    /// NBT of the current dimension type sent on join.
    pub dimension_nbt: Vec<u8>,
}

// ---------------------------------------------------------------------------
// Outside calls
// ---------------------------------------------------------------------------

/// A 64-bit hash of a username, as std's `DefaultHasher::new()` gives it
/// for `Some(name)`.
pub uninterp spec fn username_hash(name: Seq<char>) -> u64;

/// The first `u128` drawn from a ChaCha8 stream seeded with `seed`.
pub uninterp spec fn chacha8_first_u128(seed: u64) -> u128;

/// Relies on std's `DefaultHasher::new()` (SipHash with fixed keys): the
/// hash of `Some(name)` depends on the name alone.
#[verifier::external_body]
fn hash_username(name: &String) -> (r: u64)
    ensures
        r == username_hash(name@),
{
    let mut h = DefaultHasher::new();
    Some(name).hash(&mut h);
    h.finish()
}

/// Relies on rand_chacha's `ChaCha8Rng::seed_from_u64` and rand's
/// `Rng::gen::<u128>`: a function of the seed alone.
#[verifier::external_body]
fn chacha8_u128(seed: u64) -> (r: u128)
    ensures
        r == chacha8_first_u128(seed),
{
    let mut rng = ChaCha8Rng::seed_from_u64(seed);
    rng.gen::<u128>()
}

/// rand's thread-local generator: nothing is known of the value drawn.
pub assume_specification<T>[ rand::random::<T> ]() -> (r: T)
    where
        rand::distributions::Standard: rand::distributions::Distribution<T>,
;

/// The offline-mode identity of a player: derived from the name alone.
pub open spec fn login_uuid(name: Seq<char>) -> u128 {
    chacha8_first_u128(username_hash(name))
}

// ---------------------------------------------------------------------------
// Model
// ---------------------------------------------------------------------------

/// The kind registered last for `key` in `s`.
pub open spec fn lookup(s: Seq<(PacketRef, PacketKind)>, key: PacketRef) -> Option<PacketKind>
    decreases s.len(),
{
    if s.len() == 0 {
        None
    } else if s.last().0 == key {
        Some(s.last().1)
    } else {
        lookup(s.drop_last(), key)
    }
}

pub open spec fn registry_of(s: Seq<(PacketRef, PacketKind)>) -> Map<PacketRef, PacketKind> {
    Map::new(|k: PacketRef| lookup(s, k) is Some, |k: PacketRef| lookup(s, k)->Some_0)
}

/// The registry after registering `kind` for `key`: unchanged when `key`
/// is already bound.
pub open spec fn registered(m: Map<PacketRef, PacketKind>, key: PacketRef, kind: PacketKind) -> Map<
    PacketRef,
    PacketKind,
> {
    if m.contains_key(key) {
        m
    } else {
        m.insert(key, kind)
    }
}

/// A frame at the front of the input: its bytes and how many bytes it takes
/// with its length prefix.
pub enum FrameRead {
    Frame(Seq<u8>, nat),
    Short,
    BadLength,
}

pub open spec fn frame_read(s: Seq<u8>) -> FrameRead {
    match var_read(s, 5) {
        VarRead::Value(v, n) => {
            let len = v % 0x1_0000_0000;
            if s.len() < n + len {
                FrameRead::Short
            } else {
                FrameRead::Frame(s.subrange(n as int, (n + len) as int), n + len)
            }
        },
        VarRead::Short => FrameRead::Short,
        VarRead::TooLong => FrameRead::BadLength,
    }
}

/// The bytes of one frame: length prefix, id, body.
pub open spec fn frame_bytes(id: nat, body: Seq<u8>) -> Seq<u8> {
    var_bytes(var_bytes(id).len() + body.len()) + var_bytes(id) + body
}

/// Decoding `body` as `kind` succeeds.
pub open spec fn decode_ok(kind: PacketKind, body: Seq<u8>) -> bool {
    match kind {
        PacketKind::Handshake => handshake_parse(body) is Some && next_state(
            handshake_parse(body)->Some_0.next,
        ) is Some,
        PacketKind::Request => true,
        PacketKind::PingPong => body.len() >= 8,
        PacketKind::StartLogin => string_read(body, 16) is Value,
    }
}

/// `p` is what decoding `body` as `kind` yields.
pub open spec fn decodes_as(kind: PacketKind, body: Seq<u8>, p: ServerBound) -> bool {
    match kind {
        PacketKind::Handshake => p is Handshake && ({
            let f = handshake_parse(body)->Some_0;
            let h = p->Handshake_0;
            &&& h.proto_version as nat == f.proto
            &&& h.address@ == f.address
            &&& h.port as nat == f.port
            &&& next_state(f.next) == Some(h.next)
        }),
        PacketKind::Request => p is Request,
        PacketKind::PingPong => p is PingPong && p->PingPong_0.number as nat == be_value(
            body.subrange(0, 8),
        ),
        PacketKind::StartLogin => p is StartLogin && p->StartLogin_0.username@ == string_read(
            body,
            16,
        )->Value_0 && encode_utf8(p->StartLogin_0.username@).len() < 16,
    }
}

/// `e` is the error decoding `body` as `kind` gives.
pub open spec fn decode_error(kind: PacketKind, body: Seq<u8>, e: Error) -> bool {
    match kind {
        PacketKind::Handshake => handshake_error(body, e),
        PacketKind::Request => false,
        PacketKind::PingPong => e is Disconnected,
        PacketKind::StartLogin => string_error(body, 16, e),
    }
}

pub open spec fn client_bound_id(p: ClientBound) -> nat {
    match p {
        ClientBound::Response(_) => 0x00,
        ClientBound::PingPong(_) => 0x01,
        ClientBound::EndLogin(_) => 0x02,
        ClientBound::JoinGame(_) => 0x26,
    }
}

pub open spec fn client_bound_body(p: ClientBound, registries: Seq<u8>, dimension: Seq<u8>) -> Seq<
    u8,
> {
    match p {
        ClientBound::Response(r) => string_bytes(r.json@),
        ClientBound::PingPong(q) => be_bytes(q.number as nat, 8),
        ClientBound::EndLogin(e) => be_bytes(e.uuid as nat, 16) + string_bytes(e.username@),
        ClientBound::JoinGame(j) => join_game_body(j, registries, dimension),
    }
}

/// A frame's length (id plus body) must fit a positive 32-bit VarInt.
pub open spec fn frame_fits(id: nat, body: Seq<u8>) -> bool {
    var_bytes(id).len() + body.len() < 0x8000_0000
}

pub open spec fn status_head() -> Seq<char> {
    "{\"version\":{\"name\":\"Grimstone 1.17.0\",\"protocol\":755},\"players\":{\"max\":100,\"online\":50,\"sample\":[]},\"description\":{\"text\":\""@
}

pub open spec fn status_tail() -> Seq<char> {
    "\"}}"@
}

/// The status document: version, protocol 755, player counts and the MOTD.
pub open spec fn status_json(motd: Seq<char>) -> Seq<char> {
    status_head() + motd + status_tail()
}

// ---------------------------------------------------------------------------
// Laws
// ---------------------------------------------------------------------------

/// Registering twice under one key keeps the first decoder: the second
/// registration finds the key bound (and so fails) and changes nothing.
pub proof fn lemma_registry_no_replace(
    m: Map<PacketRef, PacketKind>,
    key: PacketRef,
    first: PacketKind,
    second: PacketKind,
)
    requires
        !m.contains_key(key),
    ensures
        registered(m, key, first).contains_key(key),
        registered(m, key, first)[key] == first,
        registered(registered(m, key, first), key, second) == registered(m, key, first),
{
}

/// Frames keep their boundary: reading a frame from `frame || rest`
/// consumes exactly the frame and leaves `rest`.
pub proof fn lemma_frame_boundary(payload: Seq<u8>, rest: Seq<u8>)
    requires
        payload.len() < 0x8000_0000,
    ensures
        ({
            let input = var_bytes(payload.len()) + payload + rest;
            let n = var_bytes(payload.len()).len() + payload.len();
            &&& frame_read(input) == FrameRead::Frame(payload, n)
            &&& input.skip(n as int) == rest
        }),
{
    let e = var_bytes(payload.len());
    let input = e + payload + rest;
    lemma_var_bytes_len(payload.len());
    assert(input =~= e + (payload + rest));
    lemma_var_read_encoding(payload.len(), payload + rest, 5);
    assert(input.subrange(e.len() as int, (e.len() + payload.len()) as int) =~= payload);
    assert(input.skip((e.len() + payload.len()) as int) =~= rest);
}

/// The id of the packets a decoder yields.
pub open spec fn kind_id(k: PacketKind) -> u32 {
    match k {
        PacketKind::Handshake => 0x00,
        PacketKind::Request => 0x00,
        PacketKind::PingPong => 0x01,
        PacketKind::StartLogin => 0x00,
    }
}

pub open spec fn server_bound_id(p: ServerBound) -> u32 {
    match p {
        ServerBound::Handshake(_) => 0x00,
        ServerBound::Request(_) => 0x00,
        ServerBound::PingPong(_) => 0x01,
        ServerBound::StartLogin(_) => 0x00,
    }
}

/// A packet decoded as `kind` carries that kind's id.
pub proof fn lemma_decoded_id(kind: PacketKind, body: Seq<u8>, p: ServerBound)
    requires
        decodes_as(kind, body, p),
    ensures
        server_bound_id(p) == kind_id(kind),
{
}

/// In the bootstrap registry every decoder yields packets whose id is the
/// id it is registered under, so a frame read through it decodes to a
/// packet with the frame's id.
pub proof fn lemma_bootstrap_ids(k: PacketRef)
    requires
        bootstrap_registry().contains_key(k),
    ensures
        kind_id(bootstrap_registry()[k]) == k.1,
{
}

/// Two logins with the same username yield the same UUID.
pub proof fn lemma_uuid_deterministic(a: Seq<char>, b: Seq<char>)
    requires
        a == b,
    ensures
        login_uuid(a) == login_uuid(b),
{
}

impl ServerBound {
    pub fn id(&self) -> (r: u32)
        ensures
            r == server_bound_id(*self),
    {
        match self {
            ServerBound::Handshake(p) => p.id(),
            ServerBound::Request(p) => p.id(),
            ServerBound::PingPong(p) => p.id(),
            ServerBound::StartLogin(p) => p.id(),
        }
    }
}

impl Client {
    pub open spec fn registry(&self) -> Map<PacketRef, PacketKind> {
        registry_of(self.packets@)
    }

    /// A fresh connection in the Handshake state with no decoders, a random
    /// provisional UUID and nothing to send.
    pub fn new(config: ConcreteConfig, registries_nbt: Vec<u8>, dimension_nbt: Vec<u8>) -> (r: Client)
        ensures
            r.is_valid,
            r.state == PacketState::Handshake,
            r.registry() == Map::<PacketRef, PacketKind>::empty(),
            r.config == config,
            r.username is None,
            r.uuid is Some,
            r.outbound@ == Seq::<u8>::empty(),
            r.registries_nbt == registries_nbt,
            r.dimension_nbt == dimension_nbt,
    {
        let id: u128 = rand::random();
        let r = Client {
            is_valid: true,
            packets: Vec::new(),
            state: PacketState::Handshake,
            config,
            username: None,
            uuid: Some(id),
            outbound: Buffer::new(),
            registries_nbt,
            dimension_nbt,
        };
        assert(r.registry() =~= Map::<PacketRef, PacketKind>::empty());
        r
    }

    /// The decoder registered for `key`.
    pub fn decoder(&self, key: PacketRef) -> (r: Option<PacketKind>)
        ensures
            r == lookup(self.packets@, key),
    {
        let mut i: usize = self.packets.len();
        assert(self.packets@.take(i as int) =~= self.packets@);
        while i > 0
            invariant
                i <= self.packets@.len(),
                lookup(self.packets@, key) == lookup(self.packets@.take(i as int), key),
            decreases i,
        {
            let e = self.packets[i - 1];
            assert(self.packets@.take(i as int).drop_last() =~= self.packets@.take(i - 1));
            if e.0 == key {
                return Some(e.1);
            }
            i = i - 1;
        }
        None
    }

    /// Binds `kind` to `(state, id)`; a second binding for the same pair is
    /// refused with `CannotReplace` and leaves the first in place.
    pub fn when(&mut self, state: PacketState, id: u32, kind: PacketKind) -> (r: Result<(), Error>)
        ensures
            r is Err <==> old(self).registry().contains_key(PacketRef(state, id)),
            r is Err ==> r->Err_0 is CannotReplace,
            final(self).registry() == registered(old(self).registry(), PacketRef(state, id), kind),
            final(self).state == old(self).state,
            final(self).config == old(self).config,
            final(self).username == old(self).username,
            final(self).uuid == old(self).uuid,
            final(self).outbound == old(self).outbound,
            final(self).registries_nbt == old(self).registries_nbt,
            final(self).dimension_nbt == old(self).dimension_nbt,
            final(self).is_valid == old(self).is_valid,
    {
        let key = PacketRef(state, id);
        if self.decoder(key).is_some() {
            return Err(Error::CannotReplace);
        }
        let ghost s = self.packets@;
        self.packets.push((key, kind));
        proof {
            assert(self.packets@.drop_last() =~= s);
            assert forall|k: PacketRef| #[trigger] lookup(self.packets@, k) == (if k == key {
                Some(kind)
            } else {
                lookup(s, k)
            }) by {}
            assert(self.registry() =~= registered(old(self).registry(), key, kind));
        }
        Ok(())
    }

    /// Decodes `body` as `kind`.
    fn decode(kind: PacketKind, body: &mut Buffer) -> (r: Result<ServerBound, Error>)
        ensures
            r is Ok <==> decode_ok(kind, old(body)@),
            r is Ok ==> decodes_as(kind, old(body)@, r->Ok_0),
            r is Err ==> decode_error(kind, old(body)@, r->Err_0),
    {
        match kind {
            PacketKind::Handshake => {
                let p = HandshakePacket::read(body)?;
                Ok(ServerBound::Handshake(p))
            },
            PacketKind::Request => {
                let p = RequestPacket::read(body)?;
                Ok(ServerBound::Request(p))
            },
            PacketKind::PingPong => {
                let p = PingPongPacket::read(body)?;
                Ok(ServerBound::PingPong(p))
            },
            PacketKind::StartLogin => {
                let p = StartLoginPacket::read(body)?;
                Ok(ServerBound::StartLogin(p))
            },
        }
    }

    /// Reads one frame from the front of `input` and decodes it with the
    /// decoder registered for the current state and the frame's id. Exactly
    /// the frame is consumed, whatever its decoder makes of it.
    pub fn read_packet(&self, input: &mut Buffer) -> (r: Result<ServerBound, Error>)
        ensures
            match frame_read(old(input)@) {
                FrameRead::Frame(f, n) => {
                    &&& final(input)@ == old(input)@.skip(n as int)
                    &&& match var_read(f, 5) {
                        VarRead::Value(v, m) => {
                            let key = PacketRef(self.state, (v % 0x1_0000_0000) as u32);
                            let body = f.skip(m as int);
                            if !self.registry().contains_key(key) {
                                r is Err && r->Err_0 == Error::InvalidPacketId(
                                    self.state,
                                    (v % 0x1_0000_0000) as u32,
                                )
                            } else {
                                &&& (r is Ok <==> decode_ok(self.registry()[key], body))
                                &&& (r is Ok ==> decodes_as(self.registry()[key], body, r->Ok_0))
                                &&& (r is Err ==> decode_error(self.registry()[key], body, r->Err_0))
                            }
                        },
                        VarRead::Short => r is Err && r->Err_0 is Disconnected,
                        VarRead::TooLong => r is Err && r->Err_0 is VarIntTooLong,
                    }
                },
                FrameRead::Short => r is Err && r->Err_0 is Disconnected,
                FrameRead::BadLength => r is Err && r->Err_0 is VarIntTooLong,
            },
            r is Err ==> !(r->Err_0 is Refusal),
    {
        let ghost s = input@;
        let len = input.read_var_int()?;
        let ghost s1 = input@;
        let bytes = input.take_bytes(len as u32 as usize)?;
        proof {
            if let VarRead::Value(v, n) = var_read(s, 5) {
                assert(s1 =~= s.skip(n as int));
                assert(bytes@ =~= s.subrange(n as int, (n + v % 0x1_0000_0000) as int));
                assert(input@ =~= s.skip((n + v % 0x1_0000_0000) as int));
            }
        }
        let mut frame = Buffer { bytes };
        let ghost f = frame@;
        let id = frame.read_var_int()?;
        let ghost body = frame@;
        let key = PacketRef(self.state, id as u32);
        proof {
            if let VarRead::Value(v, m) = var_read(f, 5) {
                assert(body =~= f.skip(m as int));
                assert(id as u32 == (v % 0x1_0000_0000) as u32);
            }
        }
        match self.decoder(key) {
            None => Err(Error::InvalidPacketId(self.state, id as u32)),
            Some(kind) => Client::decode(kind, &mut frame),
        }
    }

    /// Appends the frame of `packet` to the outbound bytes and returns the
    /// number of bytes appended; fails with `FrameTooLong`, appending
    /// nothing, when the frame's length does not fit a 32-bit VarInt.
    pub fn write_packet(&mut self, packet: &ClientBound) -> (r: Result<usize, Error>)
        ensures
            ({
                let id = client_bound_id(*packet);
                let body = client_bound_body(
                    *packet,
                    old(self).registries_nbt@,
                    old(self).dimension_nbt@,
                );
                if frame_fits(id, body) {
                    &&& r is Ok
                    &&& final(self).outbound@ == old(self).outbound@ + frame_bytes(id, body)
                    &&& r->Ok_0 == final(self).outbound@.len() - old(self).outbound@.len()
                } else {
                    &&& r is Err
                    &&& r->Err_0 is FrameTooLong
                    &&& final(self).outbound == old(self).outbound
                }
            }),
            final(self).state == old(self).state,
            final(self).packets == old(self).packets,
            final(self).config == old(self).config,
            final(self).username == old(self).username,
            final(self).uuid == old(self).uuid,
            final(self).registries_nbt == old(self).registries_nbt,
            final(self).dimension_nbt == old(self).dimension_nbt,
            final(self).is_valid == old(self).is_valid,
    {
        let mut scratch = Buffer::new();
        let id: u32 = match packet {
            ClientBound::Response(p) => p.id(),
            ClientBound::PingPong(p) => p.id(),
            ClientBound::EndLogin(p) => p.id(),
            ClientBound::JoinGame(p) => p.id(),
        };
        scratch.write_var_int(id as i32);
        proof {
            assert(id as i32 as u32 as nat == client_bound_id(*packet));
        }
        match packet {
            ClientBound::Response(p) => {
                if p.json.as_str().as_bytes().len() >= 0x8000_0000 {
                    return Err(Error::FrameTooLong);
                }
                let _ = p.write(&mut scratch);
            },
            ClientBound::PingPong(p) => {
                let _ = p.write(&mut scratch);
            },
            ClientBound::EndLogin(p) => {
                if p.username.as_str().as_bytes().len() >= 0x8000_0000 {
                    return Err(Error::FrameTooLong);
                }
                let _ = p.write(&mut scratch);
            },
            ClientBound::JoinGame(p) => {
                let _ = p.write(
                    &mut scratch,
                    self.registries_nbt.as_slice(),
                    self.dimension_nbt.as_slice(),
                );
            },
        }
        let n = scratch.len();
        if n >= 0x8000_0000 {
            return Err(Error::FrameTooLong);
        }
        proof {
            lemma_var_bytes_len(client_bound_id(*packet));
        }
        let a = self.outbound.write_var_int(n as i32);
        proof {
            assert(n as i32 as u32 == n as u32) by (bit_vector)
                requires
                    n < 0x8000_0000usize,
            ;
        }
        let b = self.outbound.put_bytes(scratch.bytes.as_slice());
        proof {
            assert(self.outbound@ =~= old(self).outbound@ + frame_bytes(
                client_bound_id(*packet),
                client_bound_body(*packet, old(self).registries_nbt@, old(self).dimension_nbt@),
            ));
        }
        Ok(a + b)
    }
}

/// The registry every new connection starts from.
pub open spec fn bootstrap_registry() -> Map<PacketRef, PacketKind> {
    Map::<PacketRef, PacketKind>::empty().insert(
        PacketRef(PacketState::Handshake, 0x00),
        PacketKind::Handshake,
    ).insert(PacketRef(PacketState::Status, 0x00), PacketKind::Request).insert(
        PacketRef(PacketState::Status, 0x01),
        PacketKind::PingPong,
    ).insert(PacketRef(PacketState::Login, 0x00), PacketKind::StartLogin)
}

/// The sizes a decoded packet has: a username is below 16 bytes.
pub open spec fn server_bound_wf(p: ServerBound) -> bool {
    p is StartLogin ==> encode_utf8(p->StartLogin_0.username@).len() < 16
}

/// The join-game packet sent after login.
pub open spec fn spawn_packet() -> JoinGamePacket {
    JoinGamePacket { eid: 0, game_mode: GameMode::Survival }
}

pub open spec fn bootstrap_key_bound(m: Map<PacketRef, PacketKind>) -> bool {
    m.contains_key(PacketRef(PacketState::Handshake, 0x00)) || m.contains_key(
        PacketRef(PacketState::Status, 0x00),
    ) || m.contains_key(PacketRef(PacketState::Status, 0x01)) || m.contains_key(
        PacketRef(PacketState::Login, 0x00),
    )
}

/// Registers the decoders of the fixed catalog: Handshake 0x00, Status 0x00
/// (request) and 0x01 (ping), Login 0x00 (login start). Fails with
/// `CannotReplace` exactly when one of these pairs is already bound; every
/// earlier binding stays as it was.
pub fn register(client: &mut Client) -> (r: Result<(), Error>)
    ensures
        r is Err <==> bootstrap_key_bound(old(client).registry()),
        r is Err ==> r->Err_0 is CannotReplace,
        r is Ok ==> final(client).registry() == old(client).registry().union_prefer_right(
            bootstrap_registry(),
        ),
        forall|k: PacketRef|
            #[trigger] old(client).registry().contains_key(k) ==> final(client).registry().contains_key(k)
                && final(client).registry()[k] == old(client).registry()[k],
        final(client).state == old(client).state,
        final(client).config == old(client).config,
        final(client).username == old(client).username,
        final(client).uuid == old(client).uuid,
        final(client).outbound == old(client).outbound,
        final(client).registries_nbt == old(client).registries_nbt,
        final(client).dimension_nbt == old(client).dimension_nbt,
        final(client).is_valid == old(client).is_valid,
{
    client.when(PacketState::Handshake, 0x00, PacketKind::Handshake)?;
    client.when(PacketState::Status, 0x00, PacketKind::Request)?;
    client.when(PacketState::Status, 0x01, PacketKind::PingPong)?;
    client.when(PacketState::Login, 0x00, PacketKind::StartLogin)?;
    proof {
        assert(client.registry() =~= old(client).registry().union_prefer_right(bootstrap_registry()));
    }
    Ok(())
}

impl Client {
    /// Carries out the effect of a decoded packet: a handshake moves to the
    /// state it asks for; a status request is answered with the status
    /// document; a ping is echoed; a login start fixes the player's name and
    /// UUID, sends the login success packet, moves to Play and sends the
    /// join-game packet. A reply whose frame would not fit a 32-bit VarInt
    /// is not sent, and the call fails with `FrameTooLong`.
    pub fn act(&mut self, packet: ServerBound) -> (r: Result<(), Error>)
        requires
            server_bound_wf(packet),
        ensures
            r is Err ==> r->Err_0 is FrameTooLong,
            final(self).packets == old(self).packets,
            final(self).config == old(self).config,
            final(self).registries_nbt == old(self).registries_nbt,
            final(self).dimension_nbt == old(self).dimension_nbt,
            final(self).is_valid == old(self).is_valid,
            match packet {
                ServerBound::Handshake(h) => {
                    &&& r is Ok
                    &&& final(self).state == h.next
                    &&& final(self).outbound == old(self).outbound
                    &&& final(self).username == old(self).username
                    &&& final(self).uuid == old(self).uuid
                },
                ServerBound::Request(_) => {
                    let body = string_bytes(status_json(old(self).config.server_motd@));
                    &&& final(self).state == old(self).state
                    &&& final(self).username == old(self).username
                    &&& final(self).uuid == old(self).uuid
                    &&& if frame_fits(0x00, body) {
                        &&& r is Ok
                        &&& final(self).outbound@ == old(self).outbound@ + frame_bytes(0x00, body)
                    } else {
                        &&& r is Err
                        &&& final(self).outbound == old(self).outbound
                    }
                },
                ServerBound::PingPong(q) => {
                    &&& r is Ok
                    &&& final(self).state == old(self).state
                    &&& final(self).outbound@ == old(self).outbound@ + frame_bytes(
                        0x01,
                        be_bytes(q.number as nat, 8),
                    )
                    &&& final(self).username == old(self).username
                    &&& final(self).uuid == old(self).uuid
                },
                ServerBound::StartLogin(s) => {
                    let login = frame_bytes(
                        0x02,
                        be_bytes(login_uuid(s.username@) as nat, 16) + string_bytes(s.username@),
                    );
                    let join = join_game_body(
                        spawn_packet(),
                        old(self).registries_nbt@,
                        old(self).dimension_nbt@,
                    );
                    &&& final(self).state == PacketState::Play
                    &&& final(self).username is Some
                    &&& final(self).username->Some_0@ == s.username@
                    &&& final(self).uuid == Some(login_uuid(s.username@))
                    &&& if frame_fits(0x26, join) {
                        &&& r is Ok
                        &&& final(self).outbound@ == old(self).outbound@ + login + frame_bytes(
                            0x26,
                            join,
                        )
                    } else {
                        &&& r is Err
                        &&& final(self).outbound@ == old(self).outbound@ + login
                    }
                },
            },
    {
        match packet {
            ServerBound::Handshake(h) => {
                self.state = h.next;
                Ok(())
            },
            ServerBound::Request(_) => {
                let mut json = String::from_str(
                    "{\"version\":{\"name\":\"Grimstone 1.17.0\",\"protocol\":755},\"players\":{\"max\":100,\"online\":50,\"sample\":[]},\"description\":{\"text\":\"",
                );
                json.append(self.config.server_motd.as_str());
                json.append("\"}}");
                match self.write_packet(&ClientBound::Response(ResponsePacket { json })) {
                    Ok(_) => Ok(()),
                    Err(e) => Err(e),
                }
            },
            ServerBound::PingPong(q) => {
                proof {
                    lemma_var_bytes_len(1);
                    lemma_be_len(q.number as nat, 8);
                }
                let _ = self.write_packet(&ClientBound::PingPong(q));
                Ok(())
            },
            ServerBound::StartLogin(s) => {
                let seed = hash_username(&s.username);
                let uuid = chacha8_u128(seed);
                self.username = Some(s.username.clone());
                self.uuid = Some(uuid);
                proof {
                    lemma_var_bytes_len(2);
                    lemma_var_bytes_len(encode_utf8(s.username@).len());
                    lemma_be_len(uuid as nat, 16);
                }
                let _ = self.write_packet(
                    &ClientBound::EndLogin(EndLoginPacket { uuid, username: s.username }),
                );
                self.state = PacketState::Play;
                match self.write_packet(
                    &ClientBound::JoinGame(JoinGamePacket { eid: 0, game_mode: GameMode::Survival }),
                ) {
                    Ok(_) => Ok(()),
                    Err(e) => Err(e),
                }
            },
        }
    }
}

} // verus!
