//! The pipeline's data model: per-port records, per-host reports and the
//! address/port pairs exchanged with the port-discovery stage.

use vstd::prelude::*;

verus! {

/// The four port states the pipeline distinguishes. A scan result carrying
/// any other state label is read as `Unknown`.
#[derive(Clone, Copy, PartialEq, Eq, Debug, Structural)]
pub enum PortState {
    Open,
    Closed,
    Filtered,
    Unknown,
}

/// One port of one host: number, observed state and optional service label.
#[derive(Debug)]
pub struct PortDetail {
    pub port: u16,
    pub state: PortState,
    pub service: Option<String>,
}

/// Mathematical image of a [`PortDetail`].
pub ghost struct PortRec {
    pub port: u16,
    pub state: PortState,
    pub service: Option<Seq<char>>,
}

impl View for PortDetail {
    type V = PortRec;

    open spec fn view(&self) -> PortRec {
        PortRec {
            port: self.port,
            state: self.state,
            service: match self.service {
                Some(s) => Some(s@),
                None => None,
            },
        }
    }
}

impl Clone for PortDetail {
    /// A copy equal to the original, field by field.
    fn clone(&self) -> (r: Self)
        ensures
            r == *self,
    {
        PortDetail {
            port: self.port,
            state: self.state,
            service: match &self.service {
                Some(s) => Some(s.clone()),
                None => None,
            },
        }
    }
}

/// The images of a sequence of port records.
pub open spec fn ports_view(s: Seq<PortDetail>) -> Seq<PortRec> {
    s.map_values(|p: PortDetail| p@)
}

/// The scan outcome for one host: the original target text, the resolved
/// address and the observed ports.
#[derive(Debug)]
pub struct HostReport {
    pub target: String,
    pub ip: String,
    pub ports: Vec<PortDetail>,
}

/// Mathematical image of a [`HostReport`].
pub ghost struct HostRep {
    pub target: Seq<char>,
    pub ip: Seq<char>,
    pub ports: Seq<PortRec>,
}

impl View for HostReport {
    type V = HostRep;

    open spec fn view(&self) -> HostRep {
        HostRep { target: self.target@, ip: self.ip@, ports: ports_view(self.ports@) }
    }
}

impl Clone for HostReport {
    /// A copy with the same image, field by field.
    fn clone(&self) -> (r: Self)
        ensures
            r@ == self@,
            r.ports@ == self.ports@,
    {
        let mut ports: Vec<PortDetail> = Vec::new();
        let mut i: usize = 0;
        while i < self.ports.len()
            invariant
                i <= self.ports@.len(),
                ports@ == self.ports@.subrange(0, i as int),
            decreases self.ports.len() - i,
        {
            ports.push(self.ports[i].clone());
            assert(ports@ =~= self.ports@.subrange(0, i + 1));
            i += 1;
        }
        assert(ports@ =~= self.ports@);
        HostReport { target: self.target.clone(), ip: self.ip.clone(), ports }
    }
}

/// The images of a sequence of host reports.
pub open spec fn reports_view(s: Seq<HostReport>) -> Seq<HostRep> {
    s.map_values(|r: HostReport| r@)
}

/// An address with the ports the discovery stage found open on it.
#[derive(Debug)]
pub struct IpPorts {
    pub ip: String,
    pub ports: Vec<u16>,
}

/// Mathematical image of an [`IpPorts`].
pub ghost struct IpPortsRec {
    pub ip: Seq<char>,
    pub ports: Seq<u16>,
}

impl Clone for IpPorts {
    /// A copy with the same image, field by field.
    fn clone(&self) -> (r: Self)
        ensures
            r@ == self@,
            r.ports@ == self.ports@,
    {
        let mut ports: Vec<u16> = Vec::new();
        let mut i: usize = 0;
        while i < self.ports.len()
            invariant
                i <= self.ports@.len(),
                ports@ == self.ports@.subrange(0, i as int),
            decreases self.ports.len() - i,
        {
            ports.push(self.ports[i]);
            assert(ports@ =~= self.ports@.subrange(0, i + 1));
            i += 1;
        }
        assert(ports@ =~= self.ports@);
        IpPorts { ip: self.ip.clone(), ports }
    }
}

impl View for IpPorts {
    type V = IpPortsRec;

    open spec fn view(&self) -> IpPortsRec {
        IpPortsRec { ip: self.ip@, ports: self.ports@ }
    }
}

} // verus!
