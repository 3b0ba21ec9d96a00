use dtn7::discovery::make_announcement;
use dtn7::dispatch::{process_bundles, sort_by_creation_time, BundlePack, ForwardSink};
use dtn7::registry::{ApplicationAgentEnum, CLAEnum, DtnCore, DtnStatistics, RoutingAgentsEnum};

fn bundle(bid: &str, creation_time: u64) -> BundlePack {
    BundlePack { bid: bid.to_string(), creation_time }
}

struct RecordingSink {
    calls: Vec<String>,
    fail_on: Option<String>,
}

impl ForwardSink for RecordingSink {
    fn forward(&mut self, bundle: &BundlePack) -> Result<(), String> {
        self.calls.push(bundle.bid.clone());
        match &self.fail_on {
            Some(bad) if *bad == bundle.bid => Err(format!("transport refused {}", bundle.bid)),
            _ => Ok(()),
        }
    }
}

#[test]
fn sweep_forwards_in_creation_order() {
    let bundles = vec![bundle("b3", 3), bundle("b1", 1), bundle("b2", 2)];
    let mut sink = RecordingSink { calls: Vec::new(), fail_on: None };
    let attempts = process_bundles(bundles, &mut sink);
    assert_eq!(sink.calls, vec!["b1".to_string(), "b2".to_string(), "b3".to_string()]);
    assert_eq!(attempts.len(), 3);
    assert!(attempts.iter().all(|a| a.1));
}

#[test]
fn sweep_continues_after_failure() {
    let bundles = vec![bundle("b3", 3), bundle("b1", 1), bundle("b2", 2)];
    let mut sink = RecordingSink { calls: Vec::new(), fail_on: Some("b1".to_string()) };
    let attempts = process_bundles(bundles, &mut sink);
    // the failing bundle does not block the rest of the batch
    assert_eq!(sink.calls, vec!["b1".to_string(), "b2".to_string(), "b3".to_string()]);
    assert_eq!(attempts.len(), 3);
    assert_eq!(attempts[0], (bundle("b1", 1), false));
    assert!(attempts[1].1 && attempts[2].1);

    // the bundle stays in the store flagged "forwarding": the next sweep
    // over the same store state attempts it again
    let bundles_again = vec![bundle("b3", 3), bundle("b1", 1), bundle("b2", 2)];
    let mut sink2 = RecordingSink { calls: Vec::new(), fail_on: Some("b1".to_string()) };
    process_bundles(bundles_again, &mut sink2);
    assert_eq!(sink2.calls[0], "b1".to_string());
}

#[test]
fn sort_is_stable_under_content() {
    let sorted = sort_by_creation_time(vec![bundle("a", 9), bundle("b", 4), bundle("c", 9)]);
    let times: Vec<u64> = sorted.iter().map(|b| b.creation_time).collect();
    assert_eq!(times, vec![4, 9, 9]);
    let mut bids: Vec<String> = sorted.iter().map(|b| b.bid.clone()).collect();
    bids.sort();
    assert_eq!(bids, vec!["a".to_string(), "b".to_string(), "c".to_string()]);
}

#[test]
fn statistics_start_at_zero() {
    let stats = DtnStatistics::new();
    assert_eq!(stats.incoming, 0);
    assert_eq!(stats.dups, 0);
    assert_eq!(stats.outgoing, 0);
    assert_eq!(stats.delivered, 0);
    assert_eq!(stats.broken, 0);
}

#[test]
fn core_starts_empty_with_epidemic_routing() {
    let core = DtnCore::new();
    assert!(core.endpoints.is_empty());
    assert!(core.cl_list.is_empty());
    assert!(core.service_list.is_empty());
    assert_eq!(core.routing_agent, RoutingAgentsEnum::EpidemicRoutingAgent);
}

#[test]
fn register_application_agent_is_idempotent() {
    let mut core = DtnCore::new();
    let agent = ApplicationAgentEnum::SimpleAgent { eid: "dtn://n1/inbox".to_string() };
    assert!(core.register_application_agent(agent.clone()));
    assert!(!core.register_application_agent(agent));
    assert_eq!(core.endpoints.len(), 1);
    assert!(core.is_in_endpoints(&"dtn://n1/inbox".to_string()));
    assert!(!core.is_in_endpoints(&"dtn://n2/inbox".to_string()));
}

#[test]
fn endpoint_lookup_finds_registered_agent() {
    let mut core = DtnCore::new();
    core.register_application_agent(ApplicationAgentEnum::SimpleAgent {
        eid: "dtn://n1/a".to_string(),
    });
    core.register_application_agent(ApplicationAgentEnum::SimpleAgent {
        eid: "dtn://n1/b".to_string(),
    });
    let idx = core.get_endpoint_mut(&"dtn://n1/b".to_string()).unwrap();
    assert_eq!(core.endpoints[idx].eid(), &"dtn://n1/b".to_string());
    assert!(core.get_endpoint_mut(&"dtn://n1/c".to_string()).is_none());
}

#[test]
fn announcement_carries_active_convergence_layers() {
    let mut core = DtnCore::new();
    core.cl_list.push(CLAEnum::MtcpCla);
    core.cl_list.push(CLAEnum::DummyCla);
    let pkt = make_announcement(&core);
    assert_eq!(pkt.eid, None);
    assert_eq!(pkt.cl, vec!["mtcp".to_string(), "dummy".to_string()]);
}

#[test]
fn convergence_layer_names() {
    assert_eq!(CLAEnum::MtcpCla.name(), "mtcp");
    assert_eq!(CLAEnum::DummyCla.name(), "dummy");
    let known = dtn7::registry::convergence_layer_agents();
    assert_eq!(known, vec!["dummy", "mtcp"]);
}
