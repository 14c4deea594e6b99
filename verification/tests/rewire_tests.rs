use safelistn::graph::PortGraph;
use safelistn::rewire::{
    apply_plan, apply_plan_masked, arrange, arrange_plan, disarrange, disarrange_plan, Action,
    Wiring,
};

fn wiring() -> Wiring {
    Wiring {
        hw_left: 10,
        hw_right: 11,
        in_left: 20,
        in_right: 21,
        out_left: 30,
        out_right: 31,
    }
}

#[test]
fn connect_and_disconnect_edit_the_edge_set() {
    let mut g = PortGraph::new();
    assert_eq!(g.edge_count(), 0);
    g.connect(1, 10);
    assert!(g.contains_edge(1, 10));
    assert_eq!(g.edge_count(), 1);
    // connecting an edge already present is a no-op
    g.connect(1, 10);
    assert_eq!(g.edge_count(), 1);
    g.disconnect(1, 10);
    assert!(!g.contains_edge(1, 10));
    assert_eq!(g.edge_count(), 0);
    // disconnecting an absent edge is a no-op
    g.disconnect(1, 10);
    assert_eq!(g.edge_count(), 0);
}

#[test]
fn sources_of_lists_each_feeder_once() {
    let mut g = PortGraph::new();
    g.connect(1, 10);
    g.connect(2, 10);
    g.connect(3, 11);
    g.connect(1, 11);
    let mut sl = g.sources_of(10);
    sl.sort();
    assert_eq!(sl, vec![1, 2]);
    let mut sr = g.sources_of(11);
    sr.sort();
    assert_eq!(sr, vec![1, 3]);
    assert_eq!(g.sources_of(99).len(), 0);
}

#[test]
fn arrange_splices_the_processor_into_the_path() {
    let w = wiring();
    let mut g = PortGraph::new();
    g.connect(1, 10);
    g.connect(2, 10);
    g.connect(3, 11);
    arrange(&mut g, &w);
    // sources now feed the processor inputs, not the hardware ports
    assert!(g.contains_edge(1, 20));
    assert!(g.contains_edge(2, 20));
    assert!(g.contains_edge(3, 21));
    assert!(!g.contains_edge(1, 10));
    assert!(!g.contains_edge(2, 10));
    assert!(!g.contains_edge(3, 11));
    // the processor outputs feed the hardware ports
    assert!(g.contains_edge(30, 10));
    assert!(g.contains_edge(31, 11));
    assert_eq!(g.edge_count(), 5);
}

#[test]
fn arrange_with_no_sources_still_connects_outputs() {
    let w = wiring();
    let mut g = PortGraph::new();
    arrange(&mut g, &w);
    assert!(g.contains_edge(30, 10));
    assert!(g.contains_edge(31, 11));
    assert_eq!(g.edge_count(), 2);
    disarrange(&mut g, &w);
    assert_eq!(g.edge_count(), 0);
}

#[test]
fn arrange_then_disarrange_restores_the_original_edges() {
    let w = wiring();
    let mut g = PortGraph::new();
    g.connect(1, 10);
    g.connect(2, 10);
    g.connect(3, 11);
    g.connect(4, 5);
    arrange(&mut g, &w);
    disarrange(&mut g, &w);
    assert_eq!(g.edge_count(), 4);
    assert!(g.contains_edge(1, 10));
    assert!(g.contains_edge(2, 10));
    assert!(g.contains_edge(3, 11));
    assert!(g.contains_edge(4, 5));
    // nothing involves the processor's ports any more
    for port in [20u64, 21, 30, 31] {
        assert_eq!(g.sources_of(port).len(), 0);
        assert!(!g.contains_edge(port, 10));
        assert!(!g.contains_edge(port, 11));
    }
}

#[test]
fn arrange_plan_orders_disconnect_before_connect() {
    let w = wiring();
    let plan = arrange_plan(&w, &vec![1, 2], &vec![3]);
    assert_eq!(
        plan,
        vec![
            Action::Disconnect { src: 1, dst: 10 },
            Action::Connect { src: 1, dst: 20 },
            Action::Disconnect { src: 2, dst: 10 },
            Action::Connect { src: 2, dst: 20 },
            Action::Disconnect { src: 3, dst: 11 },
            Action::Connect { src: 3, dst: 21 },
            Action::Connect { src: 30, dst: 10 },
            Action::Connect { src: 31, dst: 11 },
        ]
    );
}

#[test]
fn disarrange_plan_routes_sources_back_and_parts_outputs() {
    let w = wiring();
    let plan = disarrange_plan(&w, &vec![1], &vec![3]);
    assert_eq!(
        plan,
        vec![
            Action::Disconnect { src: 1, dst: 20 },
            Action::Connect { src: 1, dst: 10 },
            Action::Disconnect { src: 3, dst: 21 },
            Action::Connect { src: 3, dst: 11 },
            Action::Disconnect { src: 30, dst: 10 },
            Action::Disconnect { src: 31, dst: 11 },
        ]
    );
}

#[test]
fn applying_the_plans_matches_the_direct_splice() {
    let w = wiring();
    let mut direct = PortGraph::new();
    let mut planned = PortGraph::new();
    for g in [&mut direct, &mut planned] {
        g.connect(1, 10);
        g.connect(2, 10);
        g.connect(3, 11);
    }
    arrange(&mut direct, &w);
    let plan = arrange_plan(&w, &planned.sources_of(10), &planned.sources_of(11));
    apply_plan(&mut planned, &plan);
    assert_eq!(direct.edge_count(), planned.edge_count());
    for e in [(1, 20), (2, 20), (3, 21), (30, 10), (31, 11)] {
        assert!(direct.contains_edge(e.0, e.1));
        assert!(planned.contains_edge(e.0, e.1));
    }
}

#[test]
fn one_failed_disconnect_does_not_stop_the_rest() {
    let w = wiring();
    let mut g = PortGraph::new();
    g.connect(1, 10);
    g.connect(2, 10);
    g.connect(3, 11);
    let plan = arrange_plan(&w, &vec![1, 2], &vec![3]);
    // the host refuses the disconnect of source 2 from the left hardware
    // port (plan index 2); every other request is honored
    let mut ok = vec![true; plan.len()];
    ok[2] = false;
    apply_plan_masked(&mut g, &plan, &ok);
    // all three sources reached the processor inputs regardless
    assert!(g.contains_edge(1, 20));
    assert!(g.contains_edge(2, 20));
    assert!(g.contains_edge(3, 21));
    assert!(g.contains_edge(30, 10));
    assert!(g.contains_edge(31, 11));
    // the refused request leaves its edge behind: source 2 stays doubled
    assert!(g.contains_edge(2, 10));
    assert!(!g.contains_edge(1, 10));
    assert!(!g.contains_edge(3, 11));
}
