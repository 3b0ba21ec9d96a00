use vstd::prelude::*;
use std::collections::HashMap;

verus! {

/// Counters for node-level bundle statistics.
#[derive(Debug, Default, Clone)]
pub struct DtnStatistics {
    pub incoming: u64,
    pub dups: u64,
    pub outgoing: u64,
    pub delivered: u64,
    pub broken: u64,
}

impl DtnStatistics {
    pub fn new() -> (s: DtnStatistics)
        ensures
            s.incoming == 0,
            s.dups == 0,
            s.outgoing == 0,
            s.delivered == 0,
            s.broken == 0,
    {
        DtnStatistics { incoming: 0, dups: 0, outgoing: 0, delivered: 0, broken: 0 }
    }
}

/// The closed set of convergence-layer transports this node can run.
#[derive(Clone, Copy, Debug, PartialEq, Eq, Structural)]
pub enum CLAEnum {
    DummyCla,
    MtcpCla,
}

impl CLAEnum {
    /// Scheme name of this convergence layer, as a mathematical value.
    pub open spec fn spec_name(self) -> Seq<char> {
        match self {
            CLAEnum::DummyCla => "dummy"@,
            CLAEnum::MtcpCla => "mtcp"@,
        }
    }

    /// Scheme name of this convergence layer.
    pub fn name(&self) -> (r: &'static str)
        ensures
            r@ == self.spec_name(),
    {
        match self {
            CLAEnum::DummyCla => "dummy",
            CLAEnum::MtcpCla => "mtcp",
        }
    }
}

/// A scheme name names a convergence layer this node knows.
pub open spec fn known_cla(s: Seq<char>) -> bool {
    s == "dummy"@ || s == "mtcp"@
}

/// Scheme names of all convergence layers this build knows, the set the
/// peer-specification parser accepts.
pub fn convergence_layer_agents() -> (r: Vec<&'static str>)
    ensures
        r@.len() == 2,
        r@[0]@ == "dummy"@,
        r@[1]@ == "mtcp"@,
{
    let mut v: Vec<&'static str> = Vec::new();
    v.push("dummy");
    v.push("mtcp");
    v
}

/// The closed set of routing strategies; one is chosen at startup and kept
/// for the process lifetime.
#[derive(Clone, Copy, Debug, PartialEq, Eq, Structural)]
pub enum RoutingAgentsEnum {
    EpidemicRoutingAgent,
    FloodingRoutingAgent,
}

/// A locally registered application agent, keyed by its endpoint id.
#[derive(Clone, Debug)]
pub enum ApplicationAgentEnum {
    SimpleAgent { eid: String },
}

impl ApplicationAgentEnum {
    /// Endpoint id this agent is registered under, as a mathematical value.
    pub open spec fn spec_eid(self) -> Seq<char> {
        match self {
            ApplicationAgentEnum::SimpleAgent { eid } => eid@,
        }
    }

    /// Endpoint id this agent is registered under.
    pub fn eid(&self) -> (r: &String)
        ensures
            r@ == self.spec_eid(),
    {
        match self {
            ApplicationAgentEnum::SimpleAgent { eid } => eid,
        }
    }
}

/// The node registry: locally registered endpoints, active convergence
/// layers, service advertisements, and the routing agent chosen at startup.
#[derive(Debug)]
pub struct DtnCore {
    pub endpoints: Vec<ApplicationAgentEnum>,
    pub cl_list: Vec<CLAEnum>,
    pub service_list: HashMap<u8, String>,
    pub routing_agent: RoutingAgentsEnum,
}

impl DtnCore {
    pub fn new() -> (c: DtnCore)
        ensures
            c.endpoints@ == Seq::<ApplicationAgentEnum>::empty(),
            c.cl_list@ == Seq::<CLAEnum>::empty(),
            c.service_list@ == Map::<u8, String>::empty(),
            c.routing_agent == RoutingAgentsEnum::EpidemicRoutingAgent,
    {
        DtnCore {
            endpoints: Vec::new(),
            cl_list: Vec::new(),
            service_list: HashMap::new(),
            routing_agent: RoutingAgentsEnum::EpidemicRoutingAgent,
        }
    }
}

/// A fresh registry is the default one.
impl Default for DtnCore {
    fn default() -> (c: DtnCore)
        ensures
            c.endpoints@ == Seq::<ApplicationAgentEnum>::empty(),
            c.cl_list@ == Seq::<CLAEnum>::empty(),
            c.service_list@ == Map::<u8, String>::empty(),
            c.routing_agent == RoutingAgentsEnum::EpidemicRoutingAgent,
    {
        DtnCore::new()
    }
}

impl DtnCore {
    /// Some agent is registered for this endpoint id.
    pub open spec fn spec_in_endpoints(self, eid: Seq<char>) -> bool {
        exists|i: int|
            0 <= i < self.endpoints@.len() && (#[trigger] self.endpoints@[i]).spec_eid() == eid
    }

    pub fn is_in_endpoints(&self, eid: &String) -> (r: bool)
        ensures
            r == self.spec_in_endpoints(eid@),
    {
        let mut i: usize = 0;
        while i < self.endpoints.len()
            invariant
                i <= self.endpoints@.len(),
                forall|j: int| 0 <= j < i ==> (#[trigger] self.endpoints@[j]).spec_eid() != eid@,
            decreases self.endpoints@.len() - i,
        {
            if self.endpoints[i].eid().eq(eid) {
                return true;
            }
            i = i + 1;
        }
        false
    }

    /// Registration is idempotent by endpoint id: when an agent already
    /// holds the id nothing changes, otherwise the agent is appended.
    /// Reports whether the agent was appended, so the caller can log which
    /// of the two happened.
    pub fn register_application_agent(&mut self, aa: ApplicationAgentEnum) -> (added: bool)
        ensures
            added == !old(self).spec_in_endpoints(aa.spec_eid()),
            added ==> final(self).endpoints@ == old(self).endpoints@.push(aa),
            !added ==> final(self).endpoints@ == old(self).endpoints@,
            final(self).cl_list == old(self).cl_list,
            final(self).service_list == old(self).service_list,
            final(self).routing_agent == old(self).routing_agent,
    {
        if self.is_in_endpoints(aa.eid()) {
            false
        } else {
            self.endpoints.push(aa);
            true
        }
    }

    /// Position in `endpoints` of the agent registered for this endpoint
    /// id, for the delivery path to read or update it in place; nothing
    /// when no agent holds the id.
    pub fn get_endpoint_mut(&mut self, eid: &String) -> (r: Option<usize>)
        ensures
            *final(self) == *old(self),
            match r {
                Some(i) => i < final(self).endpoints@.len()
                    && (final(self).endpoints@[i as int]).spec_eid() == eid@,
                None => !old(self).spec_in_endpoints(eid@),
            },
    {
        let mut i: usize = 0;
        while i < self.endpoints.len()
            invariant
                i <= self.endpoints@.len(),
                forall|j: int| 0 <= j < i ==> (#[trigger] self.endpoints@[j]).spec_eid() != eid@,
            decreases self.endpoints@.len() - i,
        {
            if self.endpoints[i].eid().eq(eid) {
                return Some(i);
            }
            i = i + 1;
        }
        None
    }
}

} // verus!
