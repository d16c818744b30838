use cilium_ipip_router::controller::builder::RoutingMode;
use cilium_ipip_router::controller::handle::ControllerCommand;
use cilium_ipip_router::controller::node_routes::{NodeEvent, NodeRoutes};
use cilium_ipip_router::ipip::address::is_same_ipv4_subnet;
use cilium_ipip_router::ipip::executor::{
    check_ip_arguments, find_node, get_local_ipv4_prefix, ip_command_reply, reconcile_route_with_executor,
    run_ip_command, FinishedCommand, IoError, LoggedExecutor, RouteConfig,
};
use cilium_ipip_router::ipip::text::trim;
use cilium_ipip_router::controller::root::ControllerInner;
use cilium_ipip_router::ipip::node::{get_node_group, get_node_ip, Node, NodeAddress};
use cilium_ipip_router::ipip::protocol::IoErrorKind;
use cilium_ipip_router::ipip::tunnel::{get_tunnel_name, tunnel_name_from_digest};
use cilium_ipip_router::test_support::{config, node, Network, Route, GROUP};

#[test]
fn empty_ip_arguments_are_refused_before_running() {
    let error = check_ip_arguments(&[]).unwrap_err();
    assert_eq!(error.kind(), IoErrorKind::InvalidInput);
    assert_eq!(error.message(), "ip command requires at least one argument");
    assert!(check_ip_arguments(&["link", "show"]).is_ok());
}

#[test]
fn successful_ip_command_keeps_its_output() {
    let output = ip_command_reply(true, b"1: lo".to_vec(), "exit status: 0", b"").unwrap();
    assert!(output.success);
    assert_eq!(output.stdout, b"1: lo".to_vec());
}

#[test]
fn failed_ip_command_quotes_status_and_decoded_stderr() {
    let error = ip_command_reply(false, vec![], "exit status: 2", b"Cannot find device \xff\n").unwrap_err();
    assert_eq!(error.kind(), IoErrorKind::Other);
    assert_eq!(error.message(), "ip command failed (exit: exit status: 2): Cannot find device \u{fffd}\n");
}

#[test]
fn find_node_returns_the_first_node_with_the_name() {
    let mut second = node("b", "192.0.2.3", None, None);
    second.pod_cidr = Some("10.0.0.0/24".into());
    let nodes = vec![node("a", "192.0.2.1", None, None), node("b", "192.0.2.2", None, None), second];
    let found = find_node(nodes, "b").unwrap();
    assert_eq!(found.addresses.unwrap()[0].address, "192.0.2.2");
    assert!(find_node(vec![node("a", "192.0.2.1", None, None)], "c").is_none());
    assert!(find_node(vec![Node::default()], "").is_none());
}

#[test]
fn only_a_graceful_stop_ends_the_watch() {
    assert!(ControllerCommand::Stop { graceful: true }.stops_watch());
    assert!(!ControllerCommand::Stop { graceful: false }.stops_watch());
}

#[test]
fn routing_mode_setting_ignores_letter_case() {
    assert_eq!(RoutingMode::from_setting(Some("native".into())), RoutingMode::Native);
    assert_eq!(RoutingMode::from_setting(Some("NATIVE".into())), RoutingMode::Native);
    assert_eq!(RoutingMode::from_setting(Some("Native".into())), RoutingMode::Native);
    assert_eq!(RoutingMode::from_setting(Some("direct".into())), RoutingMode::Direct);
    assert_eq!(RoutingMode::from_setting(Some("native ".into())), RoutingMode::Direct);
    assert_eq!(RoutingMode::from_setting(None), RoutingMode::Direct);
    assert_eq!(RoutingMode::from_lowercased("native"), RoutingMode::Native);
    assert_eq!(RoutingMode::from_lowercased("NATIVE"), RoutingMode::Direct);
    assert_eq!(RoutingMode::default(), RoutingMode::Direct);
}

#[test]
fn group_label_trims_unicode_whitespace_and_is_stable() {
    let config = RouteConfig::new(Some("\u{3000}router.example.com/group\u{a0}\t".into()));
    assert_eq!(config.node_group_label(), Some("router.example.com/group"));
    let again = RouteConfig::new(config.node_group_label().map(str::to_owned));
    assert_eq!(again.node_group_label(), config.node_group_label());
    assert_eq!(RouteConfig::new(None).node_group_label(), None);
    assert_eq!(RouteConfig::new(Some("\u{2003}".into())).node_group_label(), None);
}

#[test]
fn empty_group_label_value_is_the_default_group() {
    let labelled = node("a", "192.0.2.1", None, Some(""));
    assert_eq!(get_node_group(&labelled, GROUP), None);
    let rack = node("b", "192.0.2.2", None, Some("rack"));
    assert_eq!(get_node_group(&rack, GROUP), Some("rack".to_string()));
}

#[test]
fn tunnel_name_is_tun_and_eleven_hex_digits_of_the_digest() {
    let digest = [0x01, 0x23, 0x45, 0x67, 0x89, 0xab, 0xcd, 0xef, 0, 0, 0, 0, 0, 0, 0, 0];
    assert_eq!(tunnel_name_from_digest(&digest), "tun-0123456789a");
    for name in ["", "a", "node-1", "a-much-longer-node-name.example.com"] {
        let tunnel = get_tunnel_name(name);
        assert_eq!(tunnel.len(), 15);
        assert!(tunnel.starts_with("tun-"));
        assert!(tunnel[4..].chars().all(|c| c.is_ascii_hexdigit() && !c.is_ascii_uppercase()));
    }
    assert_ne!(get_tunnel_name("node-1"), get_tunnel_name("node-2"));
}

#[test]
fn subnet_membership_is_symmetric_and_shrinks_with_longer_prefixes() {
    for prefix in 0..=32u8 {
        assert_eq!(
            is_same_ipv4_subnet("10.1.2.3", "10.1.200.3", prefix),
            is_same_ipv4_subnet("10.1.200.3", "10.1.2.3", prefix)
        );
        assert!(is_same_ipv4_subnet("10.1.2.3", "10.1.2.3", prefix));
    }
    assert!(is_same_ipv4_subnet("10.1.2.3", "10.1.200.3", 16));
    assert!(is_same_ipv4_subnet("10.1.2.3", "10.1.200.3", 8));
    assert!(!is_same_ipv4_subnet("10.1.2.3", "10.1.200.3", 17));
    assert!(!is_same_ipv4_subnet("10.1.2.3", "10.1.2.3", 40));
}

#[test]
fn prefix_lookup_reads_output_with_invalid_utf8() {
    assert_eq!(get_local_ipv4_prefix(b"\xff\n2: eth0 inet 192.0.2.1/24 brd 192.0.2.255\n", "192.0.2.1"), Some(24));
    assert_eq!(get_local_ipv4_prefix(b"2: eth0 inet 192.0.2.1/24\xff", "192.0.2.1"), None);
    assert_eq!(get_local_ipv4_prefix(b"2: eth0 inet 192.0.2.01/24", "192.0.2.1"), None);
}

#[test]
fn reconciling_twice_keeps_one_route_and_one_tunnel() {
    let local = node("local", "192.0.2.1", Some("10.244.1.0/24"), Some("a"));
    let remote = node("remote", "192.0.2.2", Some("10.244.2.0/24"), Some("b"));
    let mut network = LoggedExecutor::new(Network::default());
    reconcile_route_with_executor(&local, &remote, &config(), &mut network).unwrap();
    reconcile_route_with_executor(&local, &remote, &config(), &mut network).unwrap();
    assert_eq!(network.inner().route_count(), 1);
    assert_eq!(network.inner().tunnel_count(), 1);
    assert_eq!(network.inner().route("10.244.2.0/24"), Some(Route::Tunnel(get_tunnel_name("remote"))));
}

#[test]
fn a_node_that_named_itself_like_the_local_node_gets_no_route() {
    let local = node("same", "192.0.2.1", Some("10.244.1.0/24"), None);
    let remote = node("same", "192.0.2.2", Some("10.244.2.0/24"), None);
    let mut network = LoggedExecutor::new(Network::default());
    reconcile_route_with_executor(&local, &remote, &config(), &mut network).unwrap();
    assert!(network.inner().calls().is_empty());
}

#[test]
fn a_changed_pod_cidr_first_removes_the_old_route() {
    let local = node("local", "192.0.2.1", Some("10.244.1.0/24"), Some("a"));
    let mut remote = node("remote", "192.0.2.2", Some("10.244.2.0/24"), Some("a"));
    let mut routes = NodeRoutes::new("local".into(), config(), vec![local, remote.clone()]);
    let mut network = LoggedExecutor::new(Network::default());
    routes.reconcile_all(&mut network).unwrap();
    network.inner_mut().clear_calls();
    remote.pod_cidr = Some("10.244.9.0/24".into());
    routes.handle_event(NodeEvent::Modified(remote.clone()), &mut network);
    assert_eq!(network.inner().calls()[0], vec!["route", "del", "10.244.2.0/24"]);
    assert_eq!(network.inner().route("10.244.2.0/24"), None);
    assert_eq!(network.inner().route("10.244.9.0/24"), Some(Route::Direct("192.0.2.2".into())));

    // The same event again only reconciles the Node again.
    network.inner_mut().clear_calls();
    routes.handle_event(NodeEvent::Modified(remote), &mut network);
    assert!(network.inner().calls().iter().all(|call| call[1] != "del"));
    assert_eq!(network.inner().route_count(), 1);
}

#[test]
fn ip_command_without_arguments_starts_nothing() {
    let mut started = false;
    let error = run_ip_command(&[], || {
        started = true;
        Err(IoError::new(IoErrorKind::Other, "must not start"))
    })
    .unwrap_err();
    assert!(!started);
    assert_eq!(error.kind(), IoErrorKind::InvalidInput);
    assert_eq!(error.message(), "ip command requires at least one argument");
}

#[test]
fn ip_command_outcome_decides_the_reply() {
    let error = run_ip_command(&["link"], || Err(IoError::new(IoErrorKind::NotFound, "No such file or directory")))
        .unwrap_err();
    assert_eq!(error.kind(), IoErrorKind::NotFound);
    assert_eq!(error.message(), "No such file or directory");

    let output = run_ip_command(&["link", "show", "lo"], || {
        Ok(FinishedCommand { success: true, status: "exit status: 0".into(), stdout: b"1: lo".to_vec(), stderr: vec![] })
    })
    .unwrap();
    assert!(output.success);
    assert_eq!(output.stdout, b"1: lo".to_vec());

    let error = run_ip_command(&["nonexistent", "command"], || {
        Ok(FinishedCommand {
            success: false,
            status: "exit status: 255".into(),
            stdout: vec![],
            stderr: b"Object \"nonexistent\" is unknown".to_vec(),
        })
    })
    .unwrap_err();
    assert_eq!(error.kind(), IoErrorKind::Other);
    assert_eq!(error.message(), "ip command failed (exit: exit status: 255): Object \"nonexistent\" is unknown");
}

#[test]
fn trim_removes_unicode_whitespace_at_both_ends_only() {
    assert_eq!(trim("  a b  "), "a b");
    assert_eq!(trim("\u{3000}\u{85}x\u{2029}"), "x");
    assert_eq!(trim(" \t\n "), "");
    assert_eq!(trim(""), "");
    assert_eq!(trim("\u{200B}x"), "\u{200B}x");
    for text in ["", " ", "x", " x ", "\u{a0}x\u{1680}y\u{205f}", "\r\nz\x0b"] {
        assert_eq!(trim(text), text.trim());
    }
}

#[test]
fn prefix_lookup_on_valid_utf8_reads_the_decoded_text() {
    let text = "2: eth0 inet 192.0.2.1/24 brd 192.0.2.255 scope global eth0 \u{e9}t\u{e9}\n";
    assert_eq!(get_local_ipv4_prefix(text.as_bytes(), "192.0.2.1"), Some(24));
}

#[test]
fn route_config_clones_and_compares_by_label() {
    let a = RouteConfig::new(Some(" rack ".into()));
    let b = a.clone();
    assert!(a == b);
    assert!(a == RouteConfig::new(Some("rack".into())));
    assert!(a != RouteConfig::default());
    assert!(RouteConfig::new(Some("  ".into())) == RouteConfig::default());
}

#[test]
fn controller_node_ip_takes_the_first_external_or_internal_address() {
    let mut n = Node::default();
    n.addresses = Some(vec![
        NodeAddress { type_: "Hostname".into(), address: "node-a".into() },
        NodeAddress { type_: "ExternalIP".into(), address: "203.0.113.1".into() },
        NodeAddress { type_: "InternalIP".into(), address: "10.0.0.1".into() },
    ]);
    assert_eq!(ControllerInner::get_node_ip(&n), Some("203.0.113.1".to_string()));
    assert_eq!(get_node_ip(&n), Some("10.0.0.1".to_string()));
    n.addresses = Some(vec![NodeAddress { type_: "Hostname".into(), address: "node-a".into() }]);
    assert_eq!(ControllerInner::get_node_ip(&n), None);
}
