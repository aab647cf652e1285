//! The packet catalog: the server-bound packets this core decodes and the
//! client-bound packets it encodes.
use vstd::prelude::*;
use vstd::utf8::{encode_utf8, is_ascii_chars, is_ascii_chars_encode_utf8};
use crate::codec::{
    be_bytes, be_value, string_error, string_read, var_bytes, var_read, Buffer, Error, PacketState,
    StrRead,
    VarRead,
};

verus! {

/// The game modes a player can be in.
#[derive(Debug, Copy, Clone, PartialEq, Eq, Structural)]
pub enum GameMode {
    Survival,
}

pub open spec fn game_mode_code(g: GameMode) -> u8 {
    match g {
        GameMode::Survival => 0,
    }
}

/// Handshake (Handshake, 0x00, server-bound): the protocol version, the
/// address and port the client dialled, and the state it asks for.
#[derive(Debug)]
pub struct HandshakePacket {
    pub proto_version: u32,
    pub address: String,
    pub port: u16,
    pub next: PacketState,
}

/// Status request (Status, 0x00, server-bound): no body.
#[derive(Debug)]
pub struct RequestPacket {}

/// Status response (Status, 0x00, client-bound): a JSON document.
#[derive(Debug)]
pub struct ResponsePacket {
    pub json: String,
}

/// Ping / pong (Status, 0x01, both ways): one `u64`.
#[derive(Debug, Copy, Clone)]
pub struct PingPongPacket {
    pub number: u64,
}

/// Login start (Login, 0x00, server-bound): the player's name.
#[derive(Debug)]
pub struct StartLoginPacket {
    pub username: String,
}

/// Login success (Login, 0x02, client-bound): the player's UUID and name.
#[derive(Debug)]
pub struct EndLoginPacket {
    pub uuid: u128,
    pub username: String,
}

/// Set compression (Login, 0x03): not used by this core.
#[derive(Debug)]
pub struct SetCompressionPacket {}

/// Join game (Play, 0x26, client-bound).
#[derive(Debug, Copy, Clone)]
pub struct JoinGamePacket {
    pub eid: i32,
    pub game_mode: GameMode,
}

/// The fields a handshake body carries, as read.
pub struct HandshakeFields {
    pub proto: nat,
    pub address: Seq<char>,
    pub port: nat,
    pub next: nat,
}

/// The handshake fields at the front of `s`, or `None` when a field fails to
/// read.
pub open spec fn handshake_parse(s: Seq<u8>) -> Option<HandshakeFields> {
    match var_read(s, 5) {
        VarRead::Value(p, n1) => {
            let s1 = s.skip(n1 as int);
            match string_read(s1, 255) {
                StrRead::Value(a, n2) => {
                    let s2 = s1.skip(n2 as int);
                    if s2.len() < 2 {
                        None
                    } else {
                        match var_read(s2.skip(2), 5) {
                            VarRead::Value(x, _) => Some(
                                HandshakeFields {
                                    proto: p % 0x1_0000_0000,
                                    address: a,
                                    port: be_value(s2.take(2)),
                                    next: x % 0x1_0000_0000,
                                },
                            ),
                            _ => None,
                        }
                    }
                },
                _ => None,
            }
        },
        _ => None,
    }
}

/// `e` is the error decoding a handshake from `s` gives: that of the first
/// field that fails to read, or `InvalidNextState` with the value read.
pub open spec fn handshake_error(s: Seq<u8>, e: Error) -> bool {
    match var_read(s, 5) {
        VarRead::Value(_, n1) => {
            let s1 = s.skip(n1 as int);
            match string_read(s1, 255) {
                StrRead::Value(_, n2) => {
                    let s2 = s1.skip(n2 as int);
                    if s2.len() < 2 {
                        e is Disconnected
                    } else {
                        match var_read(s2.skip(2), 5) {
                            VarRead::Value(x, _) => e is InvalidNextState && e->InvalidNextState_0 as u32
                                as nat == x % 0x1_0000_0000 && next_state(x % 0x1_0000_0000) is None,
                            VarRead::Short => e is Disconnected,
                            VarRead::TooLong => e is VarIntTooLong,
                        }
                    }
                },
                _ => string_error(s1, 255, e),
            }
        },
        VarRead::Short => e is Disconnected,
        VarRead::TooLong => e is VarIntTooLong,
    }
}

/// The state a handshake's `next` field selects: 1 for Status, 2 for Login.
pub open spec fn next_state(code: nat) -> Option<PacketState> {
    if code == 1 {
        Some(PacketState::Status)
    } else if code == 2 {
        Some(PacketState::Login)
    } else {
        None
    }
}

pub open spec fn world_name() -> Seq<char> {
    "minecraft:overworld"@
}

/// The world name is plain ASCII, one byte per character.
pub proof fn lemma_world_name_bytes()
    ensures
        encode_utf8(world_name()).len() == 19,
{
    reveal_strlit("minecraft:overworld");
    assert(is_ascii_chars(world_name()));
    is_ascii_chars_encode_utf8(world_name());
}

pub proof fn lemma_be_one(v: nat)
    requires
        v < 256,
    ensures
        be_bytes(v, 1) == seq![v as u8],
{
    assert(be_bytes(v / 256, 0) =~= Seq::<u8>::empty());
    assert(be_bytes(v, 1) =~= seq![v as u8]);
}

/// The encoding of a string: its VarInt byte length, then its UTF-8 bytes.
pub open spec fn string_bytes(s: Seq<char>) -> Seq<u8> {
    var_bytes(encode_utf8(s).len()) + encode_utf8(s)
}

/// The body of a join-game packet, around the two NBT documents (the
/// dimension and biome registries, then the current dimension type).
pub open spec fn join_game_body(p: JoinGamePacket, registries: Seq<u8>, dimension: Seq<u8>) -> Seq<
    u8,
> {
    be_bytes(p.eid as u32 as nat, 4) + seq![0u8, game_mode_code(p.game_mode), 0xffu8] + var_bytes(1)
        + string_bytes(world_name()) + registries + dimension + string_bytes(world_name())
        + be_bytes(0, 8) + var_bytes(0) + var_bytes(4) + seq![0u8, 1u8, 0u8, 1u8]
}

impl HandshakePacket {
    pub fn id(&self) -> (r: u32)
        ensures
            r == 0,
    {
        0x00
    }

    /// Decodes a handshake; a `next` other than 1 or 2 is refused.
    pub fn read(input: &mut Buffer) -> (r: Result<HandshakePacket, Error>)
        ensures
            r is Ok <==> handshake_parse(old(input)@) is Some && next_state(
                handshake_parse(old(input)@)->Some_0.next,
            ) is Some,
            r is Ok ==> ({
                let f = handshake_parse(old(input)@)->Some_0;
                let p = r->Ok_0;
                &&& p.proto_version as nat == f.proto
                &&& p.address@ == f.address
                &&& p.port as nat == f.port
                &&& next_state(f.next) == Some(p.next)
            }),
            r is Err ==> handshake_error(old(input)@, r->Err_0),
    {
        let ghost s = input@;
        let proto = input.read_var_int()?;
        let ghost s1 = input@;
        let address = input.read_string(255)?;
        let ghost s2 = input@;
        let port = input.read_u16()?;
        let next = input.read_var_int()?;
        proof {
            if let VarRead::Value(p, n1) = var_read(s, 5) {
                assert(s1 =~= s.skip(n1 as int));
                if let StrRead::Value(a, n2) = string_read(s1, 255) {
                    assert(s2 =~= s1.skip(n2 as int));
                    assert(s2.take(2) =~= s2.subrange(0, 2));
                    assert(s2.skip(2) =~= s2.subrange(2, s2.len() as int));
                }
            }
        }
        let state = if next == 1 {
            PacketState::Status
        } else if next == 2 {
            PacketState::Login
        } else {
            proof {
                assert(next as u32 as nat != 1 && next as u32 as nat != 2) by (bit_vector)
                    requires
                        next != 1i32 && next != 2i32,
                ;
            }
            return Err(Error::InvalidNextState(next));
        };
        proof {
            assert(next as u32 as nat == 1 || next as u32 as nat == 2) by (bit_vector)
                requires
                    next == 1i32 || next == 2i32,
            ;
        }
        Ok(HandshakePacket { proto_version: proto as u32, address, port, next: state })
    }
}

impl RequestPacket {
    pub fn id(&self) -> (r: u32)
        ensures
            r == 0,
    {
        0x00
    }

    /// A status request has no body: nothing is read.
    pub fn read(input: &mut Buffer) -> (r: Result<RequestPacket, Error>)
        ensures
            r is Ok,
            final(input)@ == old(input)@,
    {
        Ok(RequestPacket {})
    }
}

impl ResponsePacket {
    pub fn id(&self) -> (r: u32)
        ensures
            r == 0,
    {
        0x00
    }

    /// Encodes the JSON document as a string.
    pub fn write(&self, output: &mut Buffer) -> (r: Result<(), Error>)
        requires
            encode_utf8(self.json@).len() < 0x8000_0000,
        ensures
            r is Ok,
            final(output)@ == old(output)@ + string_bytes(self.json@),
    {
        output.write_string(self.json.as_str());
        Ok(())
    }
}

impl PingPongPacket {
    pub fn id(&self) -> (r: u32)
        ensures
            r == 1,
    {
        0x01
    }

    /// Decodes the eight-byte payload.
    pub fn read(input: &mut Buffer) -> (r: Result<PingPongPacket, Error>)
        ensures
            r is Ok <==> old(input)@.len() >= 8,
            r is Ok ==> r->Ok_0.number as nat == be_value(old(input)@.subrange(0, 8)),
            r is Err ==> r->Err_0 is Disconnected,
    {
        let number = input.read_u64()?;
        Ok(PingPongPacket { number })
    }

    /// Encodes the payload as eight big-endian bytes.
    pub fn write(&self, output: &mut Buffer) -> (r: Result<(), Error>)
        ensures
            r is Ok,
            final(output)@ == old(output)@ + be_bytes(self.number as nat, 8),
    {
        output.write_u64(self.number);
        Ok(())
    }
}

impl StartLoginPacket {
    pub fn id(&self) -> (r: u32)
        ensures
            r == 0,
    {
        0x00
    }

    /// Decodes the username, whose declared length must be below 16 bytes.
    pub fn read(input: &mut Buffer) -> (r: Result<StartLoginPacket, Error>)
        ensures
            r is Ok <==> string_read(old(input)@, 16) is Value,
            r is Ok ==> r->Ok_0.username@ == string_read(old(input)@, 16)->Value_0
                && encode_utf8(r->Ok_0.username@).len() < 16,
            r is Err ==> string_error(old(input)@, 16, r->Err_0),
    {
        let username = input.read_string(16)?;
        Ok(StartLoginPacket { username })
    }
}

impl EndLoginPacket {
    pub fn id(&self) -> (r: u32)
        ensures
            r == 2,
    {
        0x02
    }

    /// Encodes the UUID as sixteen big-endian bytes, then the username.
    pub fn write(&self, output: &mut Buffer) -> (r: Result<(), Error>)
        requires
            encode_utf8(self.username@).len() < 0x8000_0000,
        ensures
            r is Ok,
            final(output)@ == old(output)@ + be_bytes(self.uuid as nat, 16) + string_bytes(
                self.username@,
            ),
    {
        output.write_u128(self.uuid);
        output.write_string(self.username.as_str());
        Ok(())
    }
}

impl SetCompressionPacket {
    pub fn id(&self) -> (r: u32)
        ensures
            r == 3,
    {
        0x03
    }
}

impl JoinGamePacket {
    pub fn id(&self) -> (r: u32)
        ensures
            r == 0x26,
    {
        0x26
    }

    /// Encodes the join-game body around the two NBT documents, which are
    /// copied as given.
    pub fn write(&self, output: &mut Buffer, registries: &[u8], dimension: &[u8]) -> (r: Result<
        (),
        Error,
    >)
        ensures
            r is Ok,
            final(output)@ == old(output)@ + join_game_body(*self, registries@, dimension@),
    {
        proof {
            lemma_world_name_bytes();
        }
        let mode: u8 = match self.game_mode {
            GameMode::Survival => 0,
        };
        output.write_i32(self.eid);
        output.write_u8(0);
        output.write_u8(mode);
        output.write_i8(-1);
        output.write_var_int(1);
        output.write_string("minecraft:overworld");
        output.put_bytes(registries);
        output.put_bytes(dimension);
        output.write_string("minecraft:overworld");
        output.write_u64(0);
        output.write_var_int(0);
        output.write_var_int(4);
        output.write_u8(0);
        output.write_u8(1);
        output.write_u8(0);
        output.write_u8(1);
        proof {
            lemma_be_one(0);
            lemma_be_one(1);
            lemma_be_one(mode as nat);
            assert((-1i8) as u8 == 0xffu8) by (bit_vector);
            lemma_be_one(0xff);
            assert(1i32 as u32 as nat == 1);
            assert(0i32 as u32 as nat == 0);
            assert(4i32 as u32 as nat == 4);
            assert(final(output)@ =~= old(output)@ + join_game_body(*self, registries@, dimension@));
        }
        Ok(())
    }
}

} // verus!
