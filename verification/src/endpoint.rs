//! Who to talk to.

use vstd::prelude::*;
use vstd::string::*;

verus! {

/// A server, by address; `host` is the Host header and the TLS server name.
#[derive(Debug)]
pub struct Endpoint {
    pub ip: [u8; 4],
    pub port: u16,
    pub host: String,
    pub tls: bool,
}

impl Clone for Endpoint {
    fn clone(&self) -> (e: Self)
        ensures
            e == *self,
    {
        Endpoint { ip: self.ip, port: self.port, host: self.host.clone(), tls: self.tls }
    }
}

impl Endpoint {
    /// The server at `ip`, on the port that its scheme has by default.
    pub fn new(ip: [u8; 4], host: &str, tls: bool) -> (e: Self)
        ensures
            e.ip == ip,
            e.host@ == host@,
            e.tls == tls,
            e.port == (if tls {
                443
            } else {
                80int
            }),
    {
        Endpoint {
            ip,
            port: if tls {
                443
            } else {
                80
            },
            host: host.to_owned(),
            tls,
        }
    }
}

} // verus!
