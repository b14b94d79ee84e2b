use netlistx::netlist::{Netlist, NetlistError};

fn create_test_netlist() -> Netlist {
    let mut netlist = Netlist::new();
    for m in ["a0", "a1", "a2"] {
        netlist.add_module(m.to_string()).unwrap();
    }
    for n in ["a3", "a4", "a5"] {
        netlist.add_net(n.to_string()).unwrap();
    }
    netlist.add_edge("a3", "a0").unwrap();
    netlist.add_edge("a3", "a1").unwrap();
    netlist.add_edge("a5", "a0").unwrap();
    netlist.set_module_weight("a0", 533).unwrap();
    netlist.set_module_weight("a1", 543).unwrap();
    netlist.set_module_weight("a2", 532).unwrap();
    netlist
}

#[test]
fn test_create_test_netlist() {
    let netlist = create_test_netlist();
    assert_eq!(netlist.num_modules(), 3);
    assert_eq!(netlist.num_nets(), 3);
    assert_eq!(netlist.node_count(), 6);
    assert_eq!(netlist.edge_count(), 3);
}

#[test]
fn test_new_netlist() {
    let netlist = Netlist::new();
    assert_eq!(netlist.num_modules(), 0);
    assert_eq!(netlist.num_nets(), 0);
    assert_eq!(netlist.node_count(), 0);
    assert_eq!(netlist.edge_count(), 0);
}

#[test]
fn test_add_module() {
    let mut netlist = Netlist::new();
    netlist.add_module("m1".to_string()).unwrap();
    assert_eq!(netlist.num_modules(), 1);
    assert_eq!(netlist.modules(), &vec!["m1".to_string()]);
    assert_eq!(netlist.node_count(), 1);
}

#[test]
fn test_add_net() {
    let mut netlist = Netlist::new();
    netlist.add_net("n1".to_string()).unwrap();
    assert_eq!(netlist.num_nets(), 1);
    assert_eq!(netlist.nets(), &vec!["n1".to_string()]);
    assert_eq!(netlist.node_count(), 1);
}

#[test]
fn test_add_edge() {
    let mut netlist = Netlist::new();
    netlist.add_module("m1".to_string()).unwrap();
    netlist.add_net("n1".to_string()).unwrap();
    netlist.add_edge("n1", "m1").unwrap();
    assert_eq!(netlist.edge_count(), 1);
}

#[test]
fn test_default_netlist() {
    let netlist: Netlist = Default::default();
    assert_eq!(netlist.num_modules(), 0);
    assert_eq!(netlist.num_nets(), 0);
    assert_eq!(netlist.node_count(), 0);
    assert_eq!(netlist.edge_count(), 0);
}

#[test]
fn single_edge_counts_and_degrees() {
    let mut netlist = Netlist::new();
    netlist.add_module("m1".to_string()).unwrap();
    netlist.add_net("n1".to_string()).unwrap();
    assert_eq!(netlist.add_edge("n1", "m1"), Ok(()));
    assert_eq!(netlist.num_modules(), 1);
    assert_eq!(netlist.num_nets(), 1);
    assert_eq!(netlist.degree("m1"), Ok(1));
    assert_eq!(netlist.net_degree("n1"), Ok(1));
}

#[test]
fn edge_to_unknown_module_is_missing() {
    let mut netlist = Netlist::new();
    netlist.add_net("n1".to_string()).unwrap();
    assert_eq!(netlist.add_edge("n1", "m_unknown"), Err(NetlistError::MissingEntity));
    assert_eq!(netlist.net_degree("n1"), Ok(0));
    assert_eq!(netlist.edge_count(), 0);
}

#[test]
fn edge_from_unknown_net_is_missing() {
    let mut netlist = Netlist::new();
    netlist.add_module("m1".to_string()).unwrap();
    assert_eq!(netlist.add_edge("n_unknown", "m1"), Err(NetlistError::MissingEntity));
    assert_eq!(netlist.degree("m1"), Ok(0));
    assert_eq!(netlist.edge_count(), 0);
}

#[test]
fn edge_with_swapped_kinds_is_missing() {
    let mut netlist = Netlist::new();
    netlist.add_module("m1".to_string()).unwrap();
    netlist.add_net("n1".to_string()).unwrap();
    assert_eq!(netlist.add_edge("m1", "n1"), Err(NetlistError::MissingEntity));
    assert_eq!(netlist.edge_count(), 0);
}

#[test]
fn small_netlist_degrees() {
    let netlist = create_test_netlist();
    assert_eq!(netlist.degree("a0"), Ok(2));
    assert_eq!(netlist.degree("a1"), Ok(1));
    assert_eq!(netlist.degree("a2"), Ok(0));
    assert_eq!(netlist.net_degree("a3"), Ok(2));
    assert_eq!(netlist.net_degree("a4"), Ok(0));
    assert_eq!(netlist.net_degree("a5"), Ok(1));
    assert_eq!(netlist.max_degree(), 2);
    assert_eq!(netlist.max_net_degree(), 2);
}

#[test]
fn module_weight_set_and_absent() {
    let mut netlist = Netlist::new();
    netlist.add_module("a0".to_string()).unwrap();
    netlist.add_module("a1".to_string()).unwrap();
    assert_eq!(netlist.set_module_weight("a0", 533), Ok(()));
    assert_eq!(netlist.module_weight("a0"), Some(533));
    assert_eq!(netlist.module_weight("a1"), None);
}

#[test]
fn module_weight_last_write_wins() {
    let mut netlist = create_test_netlist();
    assert_eq!(netlist.module_weight("a1"), Some(543));
    netlist.set_module_weight("a1", 7).unwrap();
    assert_eq!(netlist.module_weight("a1"), Some(7));
    assert_eq!(netlist.module_weight("a0"), Some(533));
    assert_eq!(netlist.module_weight("a2"), Some(532));
}

#[test]
fn module_weight_of_unknown_module() {
    let mut netlist = Netlist::new();
    assert_eq!(netlist.set_module_weight("x", 1), Err(NetlistError::MissingEntity));
    assert_eq!(netlist.module_weight("x"), None);
}

#[test]
fn net_weight_set_and_absent() {
    let mut netlist = create_test_netlist();
    assert_eq!(netlist.net_weight("a3"), None);
    assert_eq!(netlist.set_net_weight("a3", -4), Ok(()));
    assert_eq!(netlist.net_weight("a3"), Some(-4));
    assert_eq!(netlist.net_weight("a4"), None);
    assert_eq!(netlist.set_net_weight("a0", 1), Err(NetlistError::MissingEntity));
}

#[test]
fn duplicate_module_is_rejected() {
    let mut netlist = Netlist::new();
    assert_eq!(netlist.add_module("m1".to_string()), Ok(()));
    assert_eq!(netlist.add_module("m1".to_string()), Err(NetlistError::DuplicateEntity));
    assert_eq!(netlist.num_modules(), 1);
    assert_eq!(netlist.node_count(), 1);
}

#[test]
fn duplicate_net_is_rejected() {
    let mut netlist = Netlist::new();
    assert_eq!(netlist.add_net("n1".to_string()), Ok(()));
    assert_eq!(netlist.add_net("n1".to_string()), Err(NetlistError::DuplicateEntity));
    assert_eq!(netlist.num_nets(), 1);
    assert_eq!(netlist.node_count(), 1);
}

#[test]
fn module_and_net_may_share_a_label() {
    let mut netlist = Netlist::new();
    assert_eq!(netlist.add_module("x".to_string()), Ok(()));
    assert_eq!(netlist.add_net("x".to_string()), Ok(()));
    assert_eq!(netlist.node_count(), 2);
    assert_eq!(netlist.add_edge("x", "x"), Ok(()));
    assert_eq!(netlist.degree("x"), Ok(1));
    assert_eq!(netlist.net_degree("x"), Ok(1));
}

#[test]
fn repeated_edge_is_kept_once() {
    let mut netlist = Netlist::new();
    netlist.add_module("m1".to_string()).unwrap();
    netlist.add_net("n1".to_string()).unwrap();
    assert_eq!(netlist.add_edge("n1", "m1"), Ok(()));
    assert_eq!(netlist.add_edge("n1", "m1"), Ok(()));
    assert_eq!(netlist.edge_count(), 1);
    assert_eq!(netlist.degree("m1"), Ok(1));
    assert_eq!(netlist.max_degree(), 1);
}

#[test]
fn counts_follow_successful_adds() {
    let mut netlist = Netlist::new();
    let labels = ["a", "b", "a", "c", "b"];
    let mut ok: usize = 0;
    for l in labels {
        if netlist.add_module(l.to_string()).is_ok() {
            ok += 1;
        }
        assert_eq!(netlist.num_modules(), ok);
    }
    assert_eq!(ok, 3);
    assert_eq!(netlist.num_nets(), 0);
}

#[test]
fn degree_of_unknown_label() {
    let netlist = create_test_netlist();
    assert_eq!(netlist.degree("a3"), Err(NetlistError::MissingEntity));
    assert_eq!(netlist.net_degree("a0"), Err(NetlistError::MissingEntity));
}

#[test]
fn empty_netlist_maxima() {
    let netlist = Netlist::new();
    assert_eq!(netlist.max_degree(), 0);
    assert_eq!(netlist.max_net_degree(), 0);
}

#[test]
fn max_degree_tracks_densest_module() {
    let mut netlist = Netlist::new();
    netlist.add_module("m1".to_string()).unwrap();
    netlist.add_module("m2".to_string()).unwrap();
    for n in ["n1", "n2", "n3"] {
        netlist.add_net(n.to_string()).unwrap();
        netlist.add_edge(n, "m2").unwrap();
    }
    netlist.add_edge("n1", "m1").unwrap();
    assert_eq!(netlist.max_degree(), 3);
    assert_eq!(netlist.max_net_degree(), 2);
}

#[test]
fn fixed_marking() {
    let mut netlist = create_test_netlist();
    assert!(!netlist.is_fixed("a0"));
    assert_eq!(netlist.mark_fixed("a0"), Ok(()));
    assert_eq!(netlist.mark_fixed("a0"), Ok(()));
    assert!(netlist.is_fixed("a0"));
    assert!(!netlist.is_fixed("a1"));
    assert_eq!(netlist.mark_fixed("a3"), Err(NetlistError::MissingEntity));
    assert!(!netlist.is_fixed("a3"));
}

#[test]
fn configuration_scalars() {
    let mut netlist = Netlist::new();
    assert_eq!(netlist.num_pads(), 0);
    assert_eq!(netlist.cost_model(), 0);
    assert_eq!(netlist.set_num_pads(4), Ok(()));
    assert_eq!(netlist.num_pads(), 4);
    assert_eq!(netlist.set_num_pads(-1), Err(NetlistError::InvalidConfiguration));
    assert_eq!(netlist.num_pads(), 4);
    netlist.set_cost_model(2);
    assert_eq!(netlist.cost_model(), 2);
}

#[test]
fn neighbors_latest_first() {
    let netlist = create_test_netlist();
    assert_eq!(netlist.neighbors("a0"), Ok(vec!["a5".to_string(), "a3".to_string()]));
    assert_eq!(netlist.neighbors("a1"), Ok(vec!["a3".to_string()]));
    assert_eq!(netlist.neighbors("a2"), Ok(Vec::new()));
    assert_eq!(netlist.net_neighbors("a3"), Ok(vec!["a1".to_string(), "a0".to_string()]));
    assert_eq!(netlist.net_neighbors("a4"), Ok(Vec::new()));
    assert_eq!(netlist.neighbors("a3"), Err(NetlistError::MissingEntity));
    assert_eq!(netlist.net_neighbors("a0"), Err(NetlistError::MissingEntity));
}
