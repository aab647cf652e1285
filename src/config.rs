//! The server configuration: the optional key-value document as read, and
//! the concrete snapshot with defaults applied.
use vstd::prelude::*;

verus! {

/// The configuration every connection works with.
#[derive(Clone, Debug)]
pub struct ConcreteConfig {
    pub server_port: u16,
    pub server_motd: String,
    pub networking_enable_compression: bool,
    pub networking_online_mode: bool,
}

/// The configuration document: every key optional.
#[derive(Clone, Debug)]
pub struct Config {
    pub server: Option<ConfigServer>,
}

#[derive(Clone, Debug)]
pub struct ConfigServer {
    pub port: Option<u16>,
    pub motd: Option<String>,
    pub networking: Option<ConfigServerNetworking>,
}

#[derive(Clone, Debug)]
pub struct ConfigServerNetworking {
    pub enable_compression: Option<bool>,
    pub online_mode: Option<bool>,
}

pub const DEFAULT_PORT: u16 = 25565;

pub open spec fn default_motd() -> Seq<char> {
    "Hello, World!"@
}

/// `o`'s value, or `d` when it is absent.
pub open spec fn or_default<T>(o: Option<T>, d: T) -> T {
    match o {
        Some(v) => v,
        None => d,
    }
}

pub open spec fn spec_port(c: Config) -> u16 {
    match c.server {
        Some(s) => or_default(s.port, DEFAULT_PORT),
        None => DEFAULT_PORT,
    }
}

pub open spec fn spec_motd(c: Config) -> Seq<char> {
    match c.server {
        Some(s) => match s.motd {
            Some(m) => m@,
            None => default_motd(),
        },
        None => default_motd(),
    }
}

pub open spec fn spec_compression(c: Config) -> bool {
    match c.server {
        Some(s) => match s.networking {
            Some(n) => or_default(n.enable_compression, true),
            None => true,
        },
        None => true,
    }
}

pub open spec fn spec_online_mode(c: Config) -> bool {
    match c.server {
        Some(s) => match s.networking {
            Some(n) => or_default(n.online_mode, true),
            None => true,
        },
        None => true,
    }
}

impl ConcreteConfig {
    /// The snapshot of `conf`, each absent key taking its default: port
    /// 25565, MOTD "Hello, World!", compression and online mode on.
    pub fn from(conf: Config) -> (r: ConcreteConfig)
        ensures
            r.server_port == spec_port(conf),
            r.server_motd@ == spec_motd(conf),
            r.networking_enable_compression == spec_compression(conf),
            r.networking_online_mode == spec_online_mode(conf),
    {
        proof {
            reveal_strlit("Hello, World!");
        }
        let mut c = ConcreteConfig {
            server_port: DEFAULT_PORT,
            server_motd: String::from_str("Hello, World!"),
            networking_enable_compression: true,
            networking_online_mode: true,
        };
        if let Some(server) = conf.server {
            if let Some(v) = server.port {
                c.server_port = v;
            }
            if let Some(v) = server.motd {
                c.server_motd = v;
            }
            if let Some(n) = server.networking {
                if let Some(v) = n.enable_compression {
                    c.networking_enable_compression = v;
                }
                if let Some(v) = n.online_mode {
                    c.networking_online_mode = v;
                }
            }
        }
        c
    }
}

} // verus!
