//! mininet: smoltcp + rustls over minidpdk, no socket layer. RSS steering is a
//! function of the 4-tuple and we pick the source port, so each worker owns one
//! queue outright: a [`Stack`] once at boot, then one pinned [`Worker`] per queue.

use vstd::prelude::*;

pub mod arp;
pub mod capi;
pub mod capi_laws;
pub mod clock;
pub mod conn;
pub mod conn_laws;
pub mod device;
pub mod dhcp;
pub mod endpoint;
pub mod error;
pub mod exchange;
pub mod head_laws;
pub mod http;
pub mod http_laws;
pub mod net;
pub mod nic;
pub mod outcome_laws;
pub mod print;
pub mod queue;
pub mod rss;
pub mod rss_laws;
pub mod service;
pub mod service_laws;
pub mod session_laws;
pub mod setup_laws;
pub mod stats;
pub mod stats_laws;
pub mod text;
pub mod text_laws;
pub mod tls;
pub mod worker;
pub mod worker_laws;

pub use clock::MonoClock;
pub use conn::{Conn, Step};
pub use endpoint::Endpoint;
pub use error::Error;
pub use http::{BodySink, BufferSink, ContentRange, ResponseHead};
pub use nic::{eth_stats, NicStats};
pub use service::{GetResult, ServiceConfig};
pub use worker::{Worker, WorkerConfig, WorkerHandle};

use rss::{Rss, RssView};

verus! {

pub struct Config {
    /// RSS queues, and so workers: at least one, at most what the device advertises.
    pub queues: u16,
    /// RX descriptors per queue to ask for; 0 is the default of 4096, and the
    /// device clamps what it cannot give.
    pub rx_desc: u16,
}

/// Learned once on queue 0: DHCP and ARP replies are not steered by RSS.
#[derive(Clone, Copy)]
pub struct Netif {
    pub mac: [u8; 6],
    pub ip: [u8; 4],
    pub prefix_len: u8,
    pub gateway_ip: [u8; 4],
    pub gateway_mac: [u8; 6],
}

/// A running port 0 with a lease and a known gateway; owns the mempools, which are
/// known by their addresses.
pub struct Stack {
    pools: Vec<usize>,
    rss: Rss,
    netif: Netif,
    queues: u16,
}

impl Stack {
    /// What holds of every stack: a pool for each queue.
    pub closed spec fn wf(&self) -> bool {
        self.pools@.len() == self.queues && self.rss.wf()
    }

    /// How many queues there are.
    pub closed spec fn count(&self) -> u16 {
        self.queues
    }

    pub closed spec fn pool_addrs(&self) -> Seq<usize> {
        self.pools@
    }

    pub closed spec fn steering(&self) -> RssView {
        self.rss@
    }

    pub closed spec fn net(&self) -> Netif {
        self.netif
    }

    /// How many queues to bring up: those asked for, at least one, and no more
    /// than the device has of either kind, where it says.
    pub fn plan(cfg: &Config, max_rx: u16, max_tx: u16) -> (r: u16)
        ensures
            r == nic::granted(
                if cfg.queues == 0 {
                    1
                } else {
                    cfg.queues
                },
                max_rx,
                max_tx,
            ),
            r > 0,
    {
        let want: u16 = if cfg.queues == 0 {
            1
        } else {
            cfg.queues
        };
        nic::clamp_queues(want, max_rx, max_tx)
    }

    /// The stack, once port 0 is started, the RSS model read, a lease taken and
    /// the gateway resolved.
    pub fn new(pools: Vec<usize>, rss: Rss, netif: Netif, queues: u16) -> (s: Self)
        requires
            pools@.len() == queues,
            rss.wf(),
        ensures
            s.wf(),
            s.count() == queues,
            s.pool_addrs() == pools@,
            s.steering() == rss@,
            s.net() == netif,
    {
        Stack { pools, rss, netif, queues }
    }

    pub fn queues(&self) -> (n: u16)
        ensures
            n == self.count(),
    {
        self.queues
    }

    /// A ticket for one queue; `None` for one the device did not grant.
    pub fn handle(&self, queue_id: u16) -> (r: Option<WorkerHandle>)
        requires
            self.wf(),
        ensures
            r is Some <==> queue_id < self.count(),
            r matches Some(h) ==> {
                &&& h.wf()
                &&& h.queue() == queue_id
                &&& h.pool_addr() == self.pool_addrs()[queue_id as int]
                &&& h.net() == self.net()
                &&& h.steering() == self.steering()
            },
    {
        if queue_id >= self.queues {
            return None;
        }
        Some(
            WorkerHandle {
                queue_id,
                pool: self.pools[queue_id as usize],
                netif: self.netif,
                rss: self.rss,
            },
        )
    }
}

} // verus!
