//! Discovery of an available port by an ascending linear scan.
//!
//! The scan itself owns no probing mechanism: callers hand in a
//! [`PortProbe`], a capability answering whether a port currently has a
//! listener bound to it.  [`VecProbe`] is a probe backed by an in-memory
//! list of bound ports.

use vstd::prelude::*;

verus! {

/// A capability answering whether a given port currently has a listener
/// bound to it on the local host.
///
/// The probe also accounts for how often it was consulted, so that the
/// scan can promise an exact number of probe calls.
pub trait PortProbe {
    /// Whether `port` has a listener bound to it, as this probe reports it.
    /// The default stands for probes outside the library, whose report
    /// nothing here reasons about.
    open spec fn bound(&self, port: u16) -> bool {
        false
    }

    /// How many times this probe has been consulted.  The default
    /// stands for probes outside the library, whose count nothing here
    /// reasons about.
    open spec fn calls(&self) -> nat {
        0
    }

    /// Ask whether `port` is currently bound.  One call consults the
    /// probe exactly once and leaves its report unchanged.
    fn is_bound(&mut self, port: u16) -> (r: bool)
        ensures
            r == old(self).bound(port),
            final(self).calls() == old(self).calls() + 1,
            forall|p: u16| #[trigger] final(self).bound(p) == old(self).bound(p),
    ;
}

/// Why no port could be returned.
#[derive(Clone, Copy, Debug, PartialEq, Eq, Structural)]
pub enum PortError {
    /// The requested range was empty: `start > max_port`.
    InvalidRange,
    /// Every port in the requested range is bound.
    NoAvailablePort,
}

/// Everything `find_available_port` promises about one completed scan:
/// `pre` and `post` are the probe before and after the call, and `r` its
/// result.
pub open spec fn scan_result<P: PortProbe>(
    pre: P,
    post: P,
    start: u16,
    max_port: u16,
    r: Result<u16, PortError>,
) -> bool {
    &&& forall|p: u16| #[trigger] post.bound(p) == pre.bound(p)
    &&& if start > max_port {
        &&& r == Err::<u16, PortError>(PortError::InvalidRange)
        &&& post.calls() == pre.calls()
    } else {
        match r {
            Ok(port) => {
                &&& start <= port <= max_port
                &&& !pre.bound(port)
                &&& forall|p: u16| start <= p < port ==> #[trigger] pre.bound(p)
                &&& post.calls() == pre.calls() + (port - start) + 1
            },
            Err(e) => {
                &&& e == PortError::NoAvailablePort
                &&& forall|p: u16| start <= p <= max_port ==> #[trigger] pre.bound(p)
                &&& post.calls() == pre.calls() + (max_port - start) + 1
            },
        }
    }
}

/// Return the first port in `start..=max_port`, in ascending order, that
/// `probe` does not report as bound.
///
/// Fails with `PortError::InvalidRange`, before consulting the probe,
/// when `start > max_port`; fails with `PortError::NoAvailablePort` when
/// the probe reports every port of the range as bound.  Ports are probed
/// exactly once each, from `start` up to the returned port or the end of
/// the range.
pub fn find_available_port<P: PortProbe>(
    start: u16,
    probe: &mut P,
    max_port: u16,
) -> (r: Result<u16, PortError>)
    ensures
        scan_result(*old(probe), *final(probe), start, max_port, r),
{
    if start > max_port {
        return Err(PortError::InvalidRange);
    }
    let mut port: u32 = start as u32;
    while port <= max_port as u32
        invariant
            start <= max_port,
            start as u32 <= port <= max_port as u32 + 1,
            forall|p: u16| #[trigger] probe.bound(p) == old(probe).bound(p),
            forall|p: u16| start <= p < port ==> #[trigger] old(probe).bound(p),
            probe.calls() == old(probe).calls() + (port - start),
        decreases max_port as u32 + 1 - port,
    {
        let candidate = port as u16;
        if !probe.is_bound(candidate) {
            return Ok(candidate);
        }
        port = port + 1;
    }
    Err(PortError::NoAvailablePort)
}

/// If the starting port is free, the scan returns it and consults the
/// probe exactly once.
pub proof fn lemma_free_start_found_first<P: PortProbe>(
    pre: P,
    post: P,
    start: u16,
    max_port: u16,
    r: Result<u16, PortError>,
)
    requires
        start <= max_port,
        !pre.bound(start),
        scan_result(pre, post, start, max_port, r),
    ensures
        r == Ok::<u16, PortError>(start),
        post.calls() == pre.calls() + 1,
{
    match r {
        Ok(port) => {
            if port != start {
                assert(pre.bound(start));
            }
        },
        Err(_) => {
            assert(pre.bound(start));
        },
    }
}

/// If the probe reports every port of a non-empty range as bound, the
/// scan fails with `NoAvailablePort` after consulting the probe once per
/// port of the range.
pub proof fn lemma_exhausted_range_fails<P: PortProbe>(
    pre: P,
    post: P,
    start: u16,
    max_port: u16,
    r: Result<u16, PortError>,
)
    requires
        start <= max_port,
        forall|p: u16| start <= p <= max_port ==> #[trigger] pre.bound(p),
        scan_result(pre, post, start, max_port, r),
    ensures
        r == Err::<u16, PortError>(PortError::NoAvailablePort),
        post.calls() == pre.calls() + (max_port - start) + 1,
{
    match r {
        Ok(port) => {
            assert(pre.bound(port));
        },
        Err(_) => {},
    }
}

/// An empty range is rejected without consulting the probe at all.
pub proof fn lemma_empty_range_rejected<P: PortProbe>(
    pre: P,
    post: P,
    start: u16,
    max_port: u16,
    r: Result<u16, PortError>,
)
    requires
        start > max_port,
        scan_result(pre, post, start, max_port, r),
    ensures
        r == Err::<u16, PortError>(PortError::InvalidRange),
        post.calls() == pre.calls(),
{
}

/// A probe backed by an in-memory list of bound ports: a port is
/// reported bound exactly when the list contains it.
pub struct VecProbe {
    bound_ports: Vec<u16>,
    probes_made: Ghost<nat>,
}

impl VecProbe {
    /// A probe reporting exactly the ports of `bound_ports` as bound,
    /// with no calls made yet.
    pub fn new(bound_ports: Vec<u16>) -> (r: VecProbe)
        ensures
            r.calls() == 0,
            forall|p: u16| #[trigger] r.bound(p) == bound_ports@.contains(p),
    {
        VecProbe { bound_ports, probes_made: Ghost(0) }
    }
}

impl PortProbe for VecProbe {
    closed spec fn bound(&self, port: u16) -> bool {
        self.bound_ports@.contains(port)
    }

    closed spec fn calls(&self) -> nat {
        self.probes_made@
    }

    fn is_bound(&mut self, port: u16) -> (r: bool) {
        self.probes_made = Ghost(self.probes_made@ + 1);
        contains_port(&self.bound_ports, port)
    }
}

/// Whether `ports` contains `port`.
fn contains_port(ports: &Vec<u16>, port: u16) -> (r: bool)
    ensures
        r == ports@.contains(port),
{
    let mut i: usize = 0;
    while i < ports.len()
        invariant
            i <= ports@.len(),
            forall|k: int| 0 <= k < i ==> ports@[k] != port,
        decreases ports@.len() - i,
    {
        if ports[i] == port {
            return true;
        }
        i = i + 1;
    }
    false
}

} // verus!
