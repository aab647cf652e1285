//! A block-world game server core: the framed packet codec, the per-connection
//! protocol state machine and the chunk store.
use vstd::prelude::*;

pub mod codec;
pub mod client;
pub mod config;
pub mod packets;
pub mod registry;
pub mod single;
pub mod world;

verus! {

pub const MINECRAFT_VERSION: &'static str = "1.17.0";

pub const GRIMSTONE_VERSION: &'static str = "1.17.0.2";

pub const MINECRAFT_PROTOCOL_VERSION: u32 = 755;

/// A namespaced identifier such as `minecraft:overworld`.
#[derive(Copy, Clone, Debug, Hash)]
pub struct NamespacedId<'id>(pub &'id str, pub &'id str);

/// An integer position in three dimensions.
#[derive(Copy, Clone, PartialEq, Eq, Debug, Hash, Structural)]
pub struct Vector3I(pub i64, pub i64, pub i64);

/// The identifier `ns:id`.
pub fn nsid<'a>(ns: &'a str, id: &'a str) -> (r: NamespacedId<'a>)
    ensures
        r.0@ == ns@,
        r.1@ == id@,
{
    NamespacedId(ns, id)
}

impl<'a> NamespacedId<'a> {
    /// The text form, namespace and id joined by a colon.
    pub fn to_string(&self) -> (r: String)
        ensures
            r@ == self.0@ + ":"@ + self.1@,
    {
        let mut s = String::from_str(self.0);
        s.append(":");
        s.append(self.1);
        s
    }
}

} // verus!
