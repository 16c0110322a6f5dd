//! Bringing port 0 up, and reading its counters back. Nothing here is undone:
//! the port and its pools live as long as the image.

use vstd::prelude::*;
use vstd::arithmetic::power::*;
use vstd::string::*;
use vstd::utf8;

use crate::device::RX_BURST;
use crate::error::Error;
use crate::print;

verus! {

/// Device counters. A SYN-ACK dropped for want of a descriptor (imissed) is invisible above.
#[derive(Debug, Clone, Copy)]
pub struct NicStats {
    pub ipackets: u64,
    pub opackets: u64,
    pub ibytes: u64,
    pub obytes: u64,
    pub imissed: u64,
    pub ierrors: u64,
    pub oerrors: u64,
    pub rx_nombuf: u64,
}

impl Default for NicStats {
    fn default() -> (s: Self)
        ensures
            s == no_nic_stats(),
    {
        NicStats {
            ipackets: 0,
            opackets: 0,
            ibytes: 0,
            obytes: 0,
            imissed: 0,
            ierrors: 0,
            oerrors: 0,
            rx_nombuf: 0,
        }
    }
}

/// All counters at zero.
pub open spec fn no_nic_stats() -> NicStats {
    NicStats {
        ipackets: 0,
        opackets: 0,
        ibytes: 0,
        obytes: 0,
        imissed: 0,
        ierrors: 0,
        oerrors: 0,
        rx_nombuf: 0,
    }
}

/// What the device answered when asked for its counters: a status, which is 0
/// where it filled them in, and the counters.
pub fn eth_stats(rc: i32, st: &[u64; 8]) -> (r: Option<NicStats>)
    ensures
        r == (if rc != 0 {
            None
        } else {
            Some(NicStats {
                ipackets: st[0],
                opackets: st[1],
                ibytes: st[2],
                obytes: st[3],
                imissed: st[4],
                ierrors: st[5],
                oerrors: st[6],
                rx_nombuf: st[7],
            })
        }),
{
    if rc != 0 {
        return None;
    }
    Some(
        NicStats {
            ipackets: st[0],
            opackets: st[1],
            ibytes: st[2],
            obytes: st[3],
            imissed: st[4],
            ierrors: st[5],
            oerrors: st[6],
            rx_nombuf: st[7],
        },
    )
}

/// How many queues there will be, of those requested: no more than the device
/// has of either kind, where it says.
pub open spec fn granted(requested: u16, max_rx: u16, max_tx: u16) -> u16 {
    let most = if max_rx < max_tx {
        max_rx
    } else {
        max_tx
    };
    if most == 0 || requested < most {
        requested
    } else {
        most
    }
}

/// ENA caps io-queue count per instance size and rejects a queue past it.
pub fn clamp_queues(requested: u16, max_rx: u16, max_tx: u16) -> (r: u16)
    ensures
        r == granted(requested, max_rx, max_tx),
{
    let most: u16 = if max_rx < max_tx {
        max_rx
    } else {
        max_tx
    };
    if most == 0 || requested < most {
        requested
    } else {
        most
    }
}

pub const DATA_ROOM_SIZE: u16 = 1536;

/// 1024 descriptors dropped 3.3% of inbound frames (imissed) between polls.
pub const DESC_NUM: u16 = 4096;

/// Buffers that a pool keeps at hand per cpu.
pub const POOL_CACHE: u32 = 64;

/// What every pool has over what its rings can hold.
pub const POOL_SPARE: u32 = 512;

/// RX descriptors to ask for; 0 asks for the default.
pub fn rx_descriptors(rx_desc: u16) -> (r: u16)
    ensures
        r == (if rx_desc == 0 {
            DESC_NUM
        } else {
            rx_desc
        }),
{
    if rx_desc == 0 {
        DESC_NUM
    } else {
        rx_desc
    }
}

/// Buffers in a queue's pool. Every simultaneous holder: RX ring, TX ring
/// awaiting reclaim, cache, RX burst.
pub fn pool_size(rx_want: u16) -> (r: u32)
    ensures
        r == rx_want + DESC_NUM + POOL_CACHE + RX_BURST + POOL_SPARE,
{
    rx_want as u32 + DESC_NUM as u32 + POOL_CACHE + RX_BURST as u32 + POOL_SPARE
}

/// The name of a queue's pool, with zeros behind it.
pub fn pool_name(queue: u16) -> (name: [u8; 32])
    ensures
        ({
            let text = "mininet-q".spec_bytes() + print::decimal_text(queue as nat);
            &&& text.len() < 32
            &&& name@.take(text.len() as int) == text
            &&& forall|i: int| text.len() <= i < 32 ==> name@[i] == 0
        }),
{
    let mut name: [u8; 32] = [0;32];
    let prefix = "mininet-q".as_bytes();
    let digits = print::decimal(queue as u64);
    let ghost text = prefix@ + digits@;
    proof {
        lemma_name_prefix();
        assert(pow(10, 5) == 100_000) by {
            reveal_with_fuel(pow, 6);
        }
        lemma_short_decimal(queue as nat, 5);
    }
    let mut i: usize = 0;
    while i < prefix.len()
        invariant
            i <= prefix@.len(),
            prefix@.len() + digits@.len() < 32,
            text == prefix@ + digits@,
            forall|k: int| 0 <= k < i ==> #[trigger] name@[k] == text[k],
            forall|k: int| i <= k < 32 ==> #[trigger] name@[k] == 0,
        decreases prefix@.len() - i,
    {
        name[i] = prefix[i];
        i += 1;
    }
    let mut j: usize = 0;
    while j < digits.len()
        invariant
            j <= digits@.len(),
            i == prefix@.len(),
            prefix@.len() + digits@.len() < 32,
            text == prefix@ + digits@,
            forall|k: int| 0 <= k < i + j ==> #[trigger] name@[k] == text[k],
            forall|k: int| i + j <= k < 32 ==> #[trigger] name@[k] == 0,
        decreases digits@.len() - j,
    {
        name[i + j] = digits[j];
        j += 1;
    }
    assert(name@.take(text.len() as int) == text);
    name
}

proof fn lemma_name_prefix()
    ensures
        "mininet-q".spec_bytes().len() == 9,
{
    reveal_strlit("mininet-q");
    let s = "mininet-q"@;
    assert(utf8::is_ascii_chars(s));
    utf8::is_ascii_chars_encode_utf8(s);
}

proof fn lemma_short_decimal(n: nat, k: nat)
    requires
        n < pow(10, k),
        k > 0,
    ensures
        print::decimal_text(n).len() <= k,
    decreases k,
{
    reveal(pow);
    if n >= 10 {
        assert(pow(10, k) == 10 * pow(10, (k - 1) as nat));
        if k == 1 {
            assert(pow(10, 0) == 1);
        } else {
            lemma_short_decimal(n / 10, (k - 1) as nat);
        }
    }
}

/// One step of bringing port 0 up.
#[derive(Debug, Clone, Copy, PartialEq, Eq, Structural)]
pub enum NicStep {
    /// Make the pool of a queue.
    CreatePool(u16),
    Configure,
    /// Ask what descriptor counts the device grants.
    AdjustDescriptors,
    SetupRx(u16),
    SetupTx(u16),
    Start,
    ReadMac,
    Done,
}

/// The first step.
pub open spec fn first_step(queues: u16) -> NicStep {
    if queues > 0 {
        NicStep::CreatePool(0)
    } else {
        NicStep::Configure
    }
}

/// The step after one that went well: every queue's pool, then the device, then
/// both rings of every queue, then the start.
pub open spec fn step_after(step: NicStep, queues: u16) -> NicStep {
    match step {
        NicStep::CreatePool(q) => if q + 1 < queues {
            NicStep::CreatePool((q + 1) as u16)
        } else {
            NicStep::Configure
        },
        NicStep::Configure => NicStep::AdjustDescriptors,
        NicStep::AdjustDescriptors => if queues > 0 {
            NicStep::SetupRx(0)
        } else {
            NicStep::Start
        },
        NicStep::SetupRx(q) => NicStep::SetupTx(q),
        NicStep::SetupTx(q) => if q + 1 < queues {
            NicStep::SetupRx((q + 1) as u16)
        } else {
            NicStep::Start
        },
        NicStep::Start => NicStep::ReadMac,
        NicStep::ReadMac => NicStep::Done,
        NicStep::Done => NicStep::Done,
    }
}

impl NicStep {
    /// The first step of bringing up that many queues.
    pub fn first(queues: u16) -> (r: NicStep)
        ensures
            r == first_step(queues),
    {
        if queues > 0 {
            NicStep::CreatePool(0)
        } else {
            NicStep::Configure
        }
    }

    /// The descriptors that a ring is set up with: what the device granted of its
    /// kind, not what was asked for. The other steps set up none.
    pub fn descriptors(self, rx_granted: u16, tx_granted: u16) -> (r: Option<u16>)
        ensures
            r == (match self {
                NicStep::SetupRx(_) => Some(rx_granted),
                NicStep::SetupTx(_) => Some(tx_granted),
                _ => None,
            }),
    {
        match self {
            NicStep::SetupRx(_) => Some(rx_granted),
            NicStep::SetupTx(_) => Some(tx_granted),
            _ => None,
        }
    }

    /// What follows a step that went well, or did not: without a pool there is no
    /// memory, without anything else no device. Two steps cannot go wrong.
    pub fn next(self, queues: u16, went_well: bool) -> (r: Result<NicStep, Error>)
        ensures
            r == (if went_well || self == NicStep::AdjustDescriptors || self == NicStep::ReadMac
                || self == NicStep::Done {
                Ok::<NicStep, Error>(step_after(self, queues))
            } else if self is CreatePool {
                Err(Error::NoMemory)
            } else {
                Err(Error::NoDevice)
            }),
    {
        let failed = !went_well;
        match self {
            NicStep::CreatePool(q) => if failed {
                Err(Error::NoMemory)
            } else if q < queues && q + 1 < queues {
                Ok(NicStep::CreatePool(q + 1))
            } else {
                Ok(NicStep::Configure)
            },
            NicStep::Configure => if failed {
                Err(Error::NoDevice)
            } else {
                Ok(NicStep::AdjustDescriptors)
            },
            NicStep::AdjustDescriptors => if queues > 0 {
                Ok(NicStep::SetupRx(0))
            } else {
                Ok(NicStep::Start)
            },
            NicStep::SetupRx(q) => if failed {
                Err(Error::NoDevice)
            } else {
                Ok(NicStep::SetupTx(q))
            },
            NicStep::SetupTx(q) => if failed {
                Err(Error::NoDevice)
            } else if q < queues && q + 1 < queues {
                Ok(NicStep::SetupRx(q + 1))
            } else {
                Ok(NicStep::Start)
            },
            NicStep::Start => if failed {
                Err(Error::NoDevice)
            } else {
                Ok(NicStep::ReadMac)
            },
            NicStep::ReadMac => Ok(NicStep::Done),
            NicStep::Done => Ok(NicStep::Done),
        }
    }
}

/// The steps from the first on, where all go well.
pub open spec fn step_at(queues: u16, n: nat) -> NicStep
    decreases n,
{
    if n == 0 {
        first_step(queues)
    } else {
        step_after(step_at(queues, (n - 1) as nat), queues)
    }
}

/// Bringing a port up takes a fixed number of steps: a pool and two rings for
/// each queue, in ascending order, and four for the device.
pub proof fn law_bring_up(queues: u16, n: nat)
    ensures
        step_at(queues, n) == (if n < queues {
            NicStep::CreatePool(n as u16)
        } else if n == queues {
            NicStep::Configure
        } else if n == queues + 1 {
            NicStep::AdjustDescriptors
        } else if n < 3 * queues + 2 {
            let k = n - queues - 2;
            if k % 2 == 0 {
                NicStep::SetupRx((k / 2) as u16)
            } else {
                NicStep::SetupTx((k / 2) as u16)
            }
        } else if n == 3 * queues + 2 {
            NicStep::Start
        } else if n == 3 * queues + 3 {
            NicStep::ReadMac
        } else {
            NicStep::Done
        }),
    decreases n,
{
    if n > 0 {
        law_bring_up(queues, (n - 1) as nat);
    }
}

} // verus!
