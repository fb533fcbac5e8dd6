//! The daemon's settings: where the RCON server is, and its password.
use vstd::prelude::*;

use crate::text::{
    chars_of, decimal, parse_decimal_round_trip, parse_unsigned, parse_unsigned_in, push_decimal,
};

verus! {

/// Where and how to reach the server's RCON port.
#[derive(Clone, Debug)]
pub struct Config {
    pub rcon_host: String,
    pub rcon_port: u16,
    pub rcon_password: String,
}

/// Why the settings cannot be read.
#[derive(Clone, Copy, Debug, PartialEq, Eq, Structural)]
pub enum ConfigError {
    /// `RCON_PORT` is not a number from 0 to 65535.
    InvalidPort,
    /// `RCON_PASSWORD` is not set.
    MissingPassword,
}

/// The host used when `RCON_HOST` is not set.
pub open spec fn default_host() -> Seq<char> {
    "127.0.0.1"@
}

/// The port text used when `RCON_PORT` is not set.
pub open spec fn default_port() -> Seq<char> {
    "27015"@
}

/// `host:port`, the port in decimal.
pub open spec fn host_port_text(host: Seq<char>, port: nat) -> Seq<char> {
    host + ":"@ + decimal(port)
}

/// `format!("{}:{}", host, port)`.
pub fn host_port(host: &str, port: u16) -> (r: String)
    ensures
        r@ == host_port_text(host@, port as nat),
{
    let mut out = host.to_owned();
    out.append(":");
    push_decimal(&mut out, port as u64);
    out
}

impl Config {
    /// The settings from the values of `RCON_HOST`, `RCON_PORT` and
    /// `RCON_PASSWORD` (`None` where a variable is not set): the host
    /// defaults to `127.0.0.1` and the port to `27015`; the port must parse
    /// as a `u16`, and the password must be set.
    pub fn from_vars(
        rcon_host: Option<String>,
        rcon_port: Option<String>,
        rcon_password: Option<String>,
    ) -> (r: Result<Config, ConfigError>)
        ensures
            ({
                let port_text = match rcon_port {
                    Some(p) => p@,
                    None => default_port(),
                };
                match parse_unsigned(port_text, u16::MAX as nat) {
                    None => r == Err::<Config, ConfigError>(ConfigError::InvalidPort),
                    Some(port) => match rcon_password {
                        None => r == Err::<Config, ConfigError>(ConfigError::MissingPassword),
                        Some(password) => r matches Ok(c) && c.rcon_port == port && c.rcon_password
                            == password && c.rcon_host@ == match rcon_host {
                            Some(h) => h@,
                            None => default_host(),
                        },
                    },
                }
            }),
    {
        let host = match rcon_host {
            Some(h) => h,
            None => "127.0.0.1".to_owned(),
        };
        let port_text = match rcon_port {
            Some(p) => p,
            None => "27015".to_owned(),
        };
        let v = chars_of(port_text.as_str());
        assert(v@.subrange(0, v@.len() as int) =~= v@);
        let port = match parse_unsigned_in(&v, 0, v.len(), 65535) {
            Some(p) => p as u16,
            None => return Err(ConfigError::InvalidPort),
        };
        match rcon_password {
            Some(password) => Ok(Config { rcon_host: host, rcon_port: port, rcon_password: password }),
            None => Err(ConfigError::MissingPassword),
        }
    }

    /// The RCON server's address, `host:port`.
    pub fn rcon_addr(&self) -> (r: String)
        ensures
            r@ == host_port_text(self.rcon_host@, self.rcon_port as nat),
    {
        host_port(self.rcon_host.as_str(), self.rcon_port)
    }
}

/// The port as `rcon_addr` prints it reads back, as `RCON_PORT`, to the same
/// port.
pub proof fn printed_port_reads_back(port: u16)
    ensures
        parse_unsigned(decimal(port as nat), u16::MAX as nat) == Some(port as nat),
{
    parse_decimal_round_trip(port as nat, u16::MAX as nat);
}

} // verus!
