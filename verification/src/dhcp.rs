//! Learning the interface configuration: DHCP for the address and route, then
//! ARP for the gateway's MAC. Both run on queue 0 before any worker exists. Each
//! is driven from outside: a poll happens there, and what it brought comes here.

use vstd::prelude::*;

use crate::arp;
use crate::clock::ITER_BUDGET;
use crate::error::Error;

verus! {

/// Polls without a lease before giving up.
pub const DHCP_BUDGET: u64 = ITER_BUDGET / 10;

/// Polls without an ARP reply before giving up.
pub const ARP_BUDGET: u64 = ITER_BUDGET / 20;

/// What a poll of the DHCP client brought.
#[derive(Debug, Clone, Copy)]
pub enum DhcpEvent {
    Nothing,
    Deconfigured,
    Configured { ip: [u8; 4], prefix_len: u8, router: Option<[u8; 4]> },
}

/// An address, and where everything else goes.
#[derive(Debug, Clone, Copy)]
pub struct Lease {
    pub ip: [u8; 4],
    pub prefix_len: u8,
    /// 0.0.0.0 if the lease names no router.
    pub gateway_ip: [u8; 4],
}

/// The lease that a configuration amounts to.
pub open spec fn is_lease(
    l: Lease,
    ip: [u8; 4],
    prefix_len: u8,
    router: Option<[u8; 4]>,
) -> bool {
    &&& l.ip == ip
    &&& l.prefix_len == prefix_len
    &&& match router {
        Some(gw) => l.gateway_ip == gw,
        None => l.gateway_ip@ == seq![0u8, 0, 0, 0],
    }
}

/// How taking a lease stands.
pub enum DhcpStep {
    /// Poll again.
    Again,
    Leased(Lease),
    Failed(Error),
}

/// Taking a lease.
pub struct Acquire {
    iter: u64,
}

impl Acquire {
    /// Polls so far that brought no lease.
    pub closed spec fn polls(&self) -> u64 {
        self.iter
    }

    /// Not given up yet.
    pub open spec fn wf(&self) -> bool {
        self.polls() <= DHCP_BUDGET
    }

    pub fn new() -> (a: Self)
        ensures
            a.wf(),
            a.polls() == 0,
    {
        Acquire { iter: 0 }
    }

    /// Takes in what one poll brought. A lease ends it; so does one poll too many.
    pub fn on_event(&mut self, event: DhcpEvent) -> (r: DhcpStep)
        requires
            old(self).wf(),
        ensures
            match event {
                DhcpEvent::Configured { ip, prefix_len, router } => {
                    &&& final(self).polls() == old(self).polls()
                    &&& r matches DhcpStep::Leased(l) && is_lease(l, ip, prefix_len, router)
                },
                _ => {
                    &&& final(self).polls() == old(self).polls() + 1
                    &&& if final(self).polls() > DHCP_BUDGET {
                        r == DhcpStep::Failed(Error::DhcpTimeout)
                    } else {
                        r == DhcpStep::Again && final(self).wf()
                    }
                },
            },
    {
        match event {
            DhcpEvent::Configured { ip, prefix_len, router } => {
                let gateway_ip: [u8; 4] = match router {
                    Some(gw) => gw,
                    None => [0, 0, 0, 0],
                };
                assert(router is None ==> gateway_ip@ == seq![0u8, 0, 0, 0]);
                return DhcpStep::Leased(Lease { ip, prefix_len, gateway_ip });
            },
            DhcpEvent::Nothing => {},
            DhcpEvent::Deconfigured => {},
        }
        self.iter = self.iter + 1;
        if self.iter > DHCP_BUDGET {
            return DhcpStep::Failed(Error::DhcpTimeout);
        }
        DhcpStep::Again
    }
}

/// How resolving the gateway stands.
pub enum ArpStep {
    /// Poll again.
    Again,
    Found([u8; 6]),
    Failed(Error),
}

/// Resolving the gateway, after the request has gone out. Raw ARP, bypassing
/// smoltcp, so that the one reply can seed every worker.
pub struct Resolve {
    gateway_ip: [u8; 4],
    iter: u64,
}

impl Resolve {
    /// Whose address is asked for.
    pub closed spec fn gateway(&self) -> Seq<u8> {
        self.gateway_ip@
    }

    /// Polls so far that brought no reply.
    pub closed spec fn polls(&self) -> u64 {
        self.iter
    }

    /// Not given up yet.
    pub open spec fn wf(&self) -> bool {
        self.polls() <= ARP_BUDGET
    }

    pub fn new(gateway_ip: [u8; 4]) -> (r: Self)
        ensures
            r.wf(),
            r.polls() == 0,
            r.gateway() == gateway_ip@,
    {
        Resolve { gateway_ip, iter: 0 }
    }

    /// Takes in what one poll brought: a frame, or none.
    pub fn on_frame(&mut self, frame: Option<&[u8]>) -> (r: ArpStep)
        requires
            old(self).wf(),
        ensures
            final(self).gateway() == old(self).gateway(),
            if frame is Some && arp::is_reply_from(frame->0@, old(self).gateway()) {
                &&& final(self).polls() == old(self).polls()
                &&& r matches ArpStep::Found(mac) && mac@ == frame->0@.subrange(22, 28)
            } else {
                &&& final(self).polls() == old(self).polls() + 1
                &&& if final(self).polls() > ARP_BUDGET {
                    r == ArpStep::Failed(Error::ArpTimeout)
                } else {
                    r == ArpStep::Again && final(self).wf()
                }
            },
    {
        if let Some(f) = frame {
            if let Some(mac) = arp::parse_reply_from(f, self.gateway_ip) {
                return ArpStep::Found(mac);
            }
        }
        self.iter = self.iter + 1;
        if self.iter > ARP_BUDGET {
            return ArpStep::Failed(Error::ArpTimeout);
        }
        ArpStep::Again
    }
}

/// What was learned.
#[derive(Debug, Clone, Copy)]
pub struct Learned {
    pub lease: Lease,
    pub gateway_mac: [u8; 6],
}

/// What is to be done next to learn the network.
pub enum LearnStep {
    /// Poll the DHCP client.
    PollDhcp,
    /// Send this frame.
    Send([u8; 42]),
    /// Poll for a frame.
    PollArp,
    Learned(Learned),
    Failed(Error),
}

/// How far learning the network has come.
pub enum Learn {
    Leasing(Acquire),
    Asking(Lease),
    Resolving(Lease, Resolve),
}

impl Learn {
    /// What holds until it is over.
    pub open spec fn wf(self) -> bool {
        match self {
            Learn::Leasing(a) => a.wf(),
            Learn::Asking(_) => true,
            Learn::Resolving(l, r) => r.wf() && r.gateway() == l.gateway_ip@,
        }
    }

    /// Begins with polling the DHCP client.
    pub fn new() -> (l: Self)
        ensures
            l.wf(),
            l matches Learn::Leasing(a) && a.polls() == 0,
    {
        Learn::Leasing(Acquire::new())
    }

    /// Takes in what a poll of the DHCP client brought. With a lease, the gateway
    /// is asked for its address.
    pub fn on_dhcp(self, our_mac: [u8; 6], event: DhcpEvent) -> (r: (Self, LearnStep))
        requires
            self.wf(),
            self is Leasing,
        ensures
            ({
                let polls = self->Leasing_0.polls();
                match event {
                    DhcpEvent::Configured { ip, prefix_len, router } => {
                        &&& r.0 matches Learn::Asking(l) && is_lease(l, ip, prefix_len, router)
                        &&& r.1 matches LearnStep::Send(f) && f@ == arp::frame_of(
                            arp::broadcast(),
                            our_mac@,
                            1,
                            ip@,
                            seq![0u8, 0, 0, 0, 0, 0],
                            r.0->Asking_0.gateway_ip@,
                        )
                    },
                    _ => if polls == DHCP_BUDGET {
                        r.1 == LearnStep::Failed(Error::DhcpTimeout)
                    } else {
                        &&& r.0.wf()
                        &&& r.0 matches Learn::Leasing(a) && a.polls() == polls + 1
                        &&& r.1 == LearnStep::PollDhcp
                    },
                }
            }),
    {
        let mut acquire = match self {
            Learn::Leasing(a) => a,
            other => return (other, LearnStep::PollDhcp),
        };
        match acquire.on_event(event) {
            DhcpStep::Again => (Learn::Leasing(acquire), LearnStep::PollDhcp),
            DhcpStep::Leased(l) => {
                let frame = arp::request(our_mac, l.ip, l.gateway_ip);
                (Learn::Asking(l), LearnStep::Send(frame))
            },
            DhcpStep::Failed(e) => (Learn::Leasing(acquire), LearnStep::Failed(e)),
        }
    }

    /// Whether there was a buffer to send the request in.
    pub fn on_sent(self, sent: bool) -> (r: (Self, LearnStep))
        requires
            self.wf(),
            self is Asking,
        ensures
            if sent {
                &&& r.0.wf()
                &&& r.0 matches Learn::Resolving(l, q) && l == self->Asking_0 && q.polls() == 0
                &&& r.1 == LearnStep::PollArp
            } else {
                r.1 == LearnStep::Failed(Error::NoMemory)
            },
    {
        let lease = match self {
            Learn::Asking(l) => l,
            other => return (other, LearnStep::PollArp),
        };
        if !sent {
            return (Learn::Asking(lease), LearnStep::Failed(Error::NoMemory));
        }
        (Learn::Resolving(lease, Resolve::new(lease.gateway_ip)), LearnStep::PollArp)
    }

    /// Takes in what a poll for the reply brought.
    pub fn on_frame(self, frame: Option<&[u8]>) -> (r: (Self, LearnStep))
        requires
            self.wf(),
            self is Resolving,
        ensures
            ({
                let lease = self->Resolving_0;
                let polls = self->Resolving_1.polls();
                if frame is Some && arp::is_reply_from(frame->0@, lease.gateway_ip@) {
                    r.1 matches LearnStep::Learned(n) && n.lease == lease && n.gateway_mac@
                        == frame->0@.subrange(22, 28)
                } else if polls == ARP_BUDGET {
                    r.1 == LearnStep::Failed(Error::ArpTimeout)
                } else {
                    &&& r.0.wf()
                    &&& r.0 matches Learn::Resolving(l, q) && l == lease && q.polls() == polls + 1
                    &&& r.1 == LearnStep::PollArp
                }
            }),
    {
        let (lease, mut resolve) = match self {
            Learn::Resolving(l, q) => (l, q),
            other => return (other, LearnStep::PollArp),
        };
        match resolve.on_frame(frame) {
            ArpStep::Again => (Learn::Resolving(lease, resolve), LearnStep::PollArp),
            ArpStep::Found(gateway_mac) => (
                Learn::Resolving(lease, resolve),
                LearnStep::Learned(Learned { lease, gateway_mac }),
            ),
            ArpStep::Failed(e) => (Learn::Resolving(lease, resolve), LearnStep::Failed(e)),
        }
    }
}

} // verus!
