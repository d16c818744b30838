use cilium_ipip_router::controller::node_routes::{NodeEvent, NodeRoutes};
use cilium_ipip_router::ipip::executor::LoggedExecutor;
use cilium_ipip_router::ipip::node::Node;
use cilium_ipip_router::ipip::protocol::IoErrorKind;
use cilium_ipip_router::ipip::tunnel::get_tunnel_name;
use cilium_ipip_router::test_support::{config, node, Network, Route};

const CIDR: &str = "10.244.2.0/24";

fn local(group: Option<&str>) -> Node {
    node("local", "192.0.2.1", Some("10.244.1.0/24"), group)
}

fn remote(group: Option<&str>) -> Node {
    node("remote", "192.0.2.2", Some(CIDR), group)
}

fn controller(nodes: Vec<Node>) -> NodeRoutes {
    NodeRoutes::new("local".into(), config(), nodes)
}

fn network() -> LoggedExecutor<Network> {
    LoggedExecutor::new(Network::default())
}

fn failing_on(command: Vec<&str>) -> LoggedExecutor<Network> {
    let mut network = Network::default();
    network.fail_on = Some(command.into_iter().map(str::to_owned).collect());
    LoggedExecutor::new(network)
}

#[test]
fn bookmark_and_watch_error_do_not_change_routes_or_discard_cached_nodes() {
    let mut network = network();
    let mut routes = controller(vec![local(None), remote(None)]);
    routes.reconcile_all(&mut network).unwrap();
    network.inner_mut().clear_calls();
    routes.handle_event(NodeEvent::Bookmark, &mut network);
    routes.handle_event(NodeEvent::Error("watch expired".into()), &mut network);
    assert!(network.inner().calls().is_empty());
    assert_eq!(network.inner().route(CIDR), Some(Route::Direct("192.0.2.2".into())));
    // The cached peer remains available for subsequent reconciliation.
    routes.handle_event(NodeEvent::Modified(local(Some("a"))), &mut network);
    assert_eq!(network.inner().route(CIDR), Some(Route::Tunnel(get_tunnel_name("remote"))));
}

#[test]
fn late_group_labels_reconcile_the_unlabeled_default_group() {
    let mut network = network();
    let mut routes = controller(vec![local(None), remote(None)]);
    routes.reconcile_all(&mut network).unwrap();
    assert_eq!(network.inner().route(CIDR), Some(Route::Direct("192.0.2.2".into())));
    routes.handle_event(NodeEvent::Modified(remote(Some("a"))), &mut network);
    assert_eq!(network.inner().route(CIDR), Some(Route::Tunnel(get_tunnel_name("remote"))));
    routes.handle_event(NodeEvent::Modified(local(Some("a"))), &mut network);
    assert_eq!(network.inner().route(CIDR), Some(Route::Direct("192.0.2.2".into())));
    assert_eq!(network.inner().tunnel_count(), 0);
}

#[test]
fn subnet_change_is_rechecked_on_the_next_node_event() {
    let mut network = network();
    let peer = node("remote", "192.0.2.129", Some(CIDR), Some("a"));
    let mut routes = controller(vec![local(Some("a")), peer.clone()]);
    routes.reconcile_all(&mut network).unwrap();
    assert_eq!(network.inner().route(CIDR), Some(Route::Direct("192.0.2.129".into())));
    network.inner_mut().addresses = "2: eth0 inet 192.0.2.1/25".into();
    routes.handle_event(NodeEvent::Modified(peer.clone()), &mut network);
    assert_eq!(network.inner().route(CIDR), Some(Route::Tunnel(get_tunnel_name("remote"))));
    network.inner_mut().addresses = "2: eth0 inet 192.0.2.1/24".into();
    routes.handle_event(NodeEvent::Modified(peer), &mut network);
    assert_eq!(network.inner().route(CIDR), Some(Route::Direct("192.0.2.129".into())));
    assert_eq!(network.inner().tunnel_count(), 0);
}

#[test]
fn startup_reconciles_existing_peers_without_touching_local_routes() {
    let mut network = network();
    let routes = controller(vec![
        local(Some("a")),
        remote(Some("a")),
        node("other", "198.51.100.2", Some("10.244.3.0/24"), Some("a")),
        Node::default(),
    ]);
    routes.reconcile_all(&mut network).unwrap();
    assert_eq!(network.inner().route(CIDR), Some(Route::Direct("192.0.2.2".into())));
    assert_eq!(network.inner().route("10.244.3.0/24"), Some(Route::Tunnel(get_tunnel_name("other"))));
    assert_eq!(network.inner().route_count(), 2);
    assert_eq!(network.inner().tunnel_count(), 1);
    let tunnel = network.inner().tunnel(&get_tunnel_name("other")).unwrap();
    assert_eq!(tunnel.local, "192.0.2.1");
    assert_eq!(tunnel.remote, "198.51.100.2");
}

#[test]
fn startup_requires_local_node_and_does_not_modify_network_if_missing() {
    let mut network = network();
    let error = controller(vec![remote(None)]).reconcile_all(&mut network).unwrap_err();
    assert_eq!(error.kind(), IoErrorKind::NotFound);
    assert!(network.inner().calls().is_empty());
}

#[test]
fn startup_keeps_reconciling_other_peers_after_command_failure() {
    let mut network = failing_on(vec!["route", "replace", CIDR, "via", "192.0.2.2"]);
    let routes = controller(vec![
        local(None),
        remote(None),
        node("other", "192.0.2.3", Some("10.244.3.0/24"), None),
    ]);
    routes.reconcile_all(&mut network).unwrap();
    assert_eq!(network.inner().route(CIDR), None);
    assert_eq!(network.inner().route("10.244.3.0/24"), Some(Route::Direct("192.0.2.3".into())));
}

#[test]
fn delayed_pod_cidr_add_modify_delete_lifecycle_cleans_both_routing_modes() {
    for group in [Some("a"), Some("b")] {
        let mut network = network();
        let mut routes = controller(vec![local(Some("a"))]);
        let mut peer = remote(group);
        peer.pod_cidr = None;
        routes.handle_event(NodeEvent::Added(peer.clone()), &mut network);
        assert!(network.inner().calls().is_empty());

        peer.pod_cidr = Some(CIDR.into());
        routes.handle_event(NodeEvent::Modified(peer.clone()), &mut network);
        let expected = if group == Some("a") {
            Route::Direct("192.0.2.2".into())
        } else {
            Route::Tunnel(get_tunnel_name("remote"))
        };
        assert_eq!(network.inner().route(CIDR), Some(expected.clone()));

        // A duplicate event must not create duplicate tunnels or lose the route.
        routes.handle_event(NodeEvent::Modified(peer.clone()), &mut network);
        assert_eq!(network.inner().route_count(), 1);
        assert_eq!(network.inner().route(CIDR), Some(expected));
        routes.handle_event(NodeEvent::Deleted(peer.clone()), &mut network);
        assert_eq!(network.inner().route_count(), 0);
        assert_eq!(network.inner().tunnel_count(), 0);

        // Deleted peers must not be resurrected by a later local-node update.
        routes.handle_event(NodeEvent::Modified(local(Some("b"))), &mut network);
        assert_eq!(network.inner().route_count(), 0);
        routes.handle_event(NodeEvent::Deleted(peer), &mut network);
        assert_eq!(network.inner().tunnel_count(), 0);
    }
}

#[test]
fn changed_and_removed_pod_cidr_leave_no_old_routes() {
    for group in [Some("a"), Some("b")] {
        let mut network = network();
        let mut peer = remote(group);
        let mut routes = controller(vec![local(Some("a")), peer.clone()]);
        routes.reconcile_all(&mut network).unwrap();
        peer.pod_cidr = Some("10.244.4.0/24".into());
        routes.handle_event(NodeEvent::Modified(peer.clone()), &mut network);
        assert_eq!(network.inner().route(CIDR), None);
        assert!(network.inner().route("10.244.4.0/24").is_some());
        assert_eq!(network.inner().route_count(), 1);

        peer.pod_cidr = None;
        routes.handle_event(NodeEvent::Modified(peer), &mut network);
        assert_eq!(network.inner().route_count(), 0);
        assert_eq!(network.inner().tunnel_count(), 0);
    }
}

#[test]
fn remote_label_changes_switch_between_direct_and_ipip() {
    let mut network = network();
    let mut routes = controller(vec![local(Some("a")), remote(Some("a"))]);
    routes.reconcile_all(&mut network).unwrap();
    assert_eq!(network.inner().route(CIDR), Some(Route::Direct("192.0.2.2".into())));
    routes.handle_event(NodeEvent::Modified(remote(Some("b"))), &mut network);
    assert_eq!(network.inner().route(CIDR), Some(Route::Tunnel(get_tunnel_name("remote"))));
    routes.handle_event(NodeEvent::Modified(remote(Some("a"))), &mut network);
    assert_eq!(network.inner().route(CIDR), Some(Route::Direct("192.0.2.2".into())));
    assert_eq!(network.inner().tunnel_count(), 0);
}

#[test]
fn local_label_changes_reconcile_every_cached_peer() {
    let mut network = network();
    let mut routes = controller(vec![
        local(Some("a")),
        remote(Some("a")),
        node("other", "192.0.2.3", Some("10.244.3.0/24"), Some("b")),
    ]);
    routes.reconcile_all(&mut network).unwrap();
    routes.handle_event(NodeEvent::Modified(local(Some("b"))), &mut network);
    assert_eq!(network.inner().route(CIDR), Some(Route::Tunnel(get_tunnel_name("remote"))));
    assert_eq!(network.inner().route("10.244.3.0/24"), Some(Route::Direct("192.0.2.3".into())));
    assert_eq!(network.inner().tunnel_count(), 1);
    assert!(network.inner().tunnel(&get_tunnel_name("other")).is_none());
}

#[test]
fn peers_wait_for_local_node_then_reconcile_on_arrival() {
    let mut network = network();
    let mut routes = controller(vec![]);
    routes.handle_event(NodeEvent::Added(remote(None)), &mut network);
    assert!(network.inner().calls().is_empty());
    routes.handle_event(NodeEvent::Added(local(None)), &mut network);
    assert_eq!(network.inner().route(CIDR), Some(Route::Direct("192.0.2.2".into())));
}

#[test]
fn deleting_local_node_preserves_local_pod_route_and_waits_for_return() {
    let mut network = network();
    let local_route = Route::Direct("192.0.2.1".into());
    network.inner_mut().insert_route("10.244.1.0/24".into(), local_route.clone());
    let mut routes = controller(vec![local(None)]);
    routes.handle_event(NodeEvent::Deleted(local(None)), &mut network);
    routes.handle_event(NodeEvent::Added(remote(None)), &mut network);
    assert!(network.inner().calls().is_empty());
    assert_eq!(network.inner().route("10.244.1.0/24"), Some(local_route));
    routes.handle_event(NodeEvent::Added(local(None)), &mut network);
    assert!(network.inner().route(CIDR).is_some());
}

#[test]
fn incomplete_node_events_do_not_install_routes() {
    let mut network = network();
    let mut routes = controller(vec![local(None)]);
    for name in [None, Some(String::new())] {
        let mut peer = remote(None);
        peer.name = name;
        routes.handle_event(NodeEvent::Added(peer), &mut network);
    }
    let mut peer = remote(None);
    peer.addresses = None;
    routes.handle_event(NodeEvent::Added(peer), &mut network);
    assert!(network.inner().calls().is_empty());
    routes.handle_event(NodeEvent::Modified(remote(None)), &mut network);
    assert_eq!(network.inner().route(CIDR), Some(Route::Direct("192.0.2.2".into())));
}

#[test]
fn reconciliation_failure_preserves_cached_node_for_next_event() {
    let mut network = failing_on(vec!["route", "replace", CIDR, "via", "192.0.2.2"]);
    let mut routes = controller(vec![local(None)]);
    routes.handle_event(NodeEvent::Added(remote(None)), &mut network);
    assert_eq!(network.inner().route(CIDR), None);
    network.inner_mut().fail_on = None;
    routes.handle_event(NodeEvent::Modified(local(None)), &mut network);
    assert_eq!(network.inner().route(CIDR), Some(Route::Direct("192.0.2.2".into())));
}
