use cilium_ipip_router::ipip::executor::{
    delete_route_with_executor, ensure_tunnel, get_route_mode, local_node_name_from, reconcile_route_with_executor,
    route_exists, tunnel_exists, CommandOutput, IoError, IpCommandExecutor, LoggedExecutor, RouteConfig,
};
use cilium_ipip_router::ipip::node::{get_node_cidr, get_node_ip, Node, NodeAddress};
use cilium_ipip_router::ipip::protocol::{IoErrorKind, RouteMode};
use cilium_ipip_router::ipip::tunnel::get_tunnel_name;
use cilium_ipip_router::test_support::{config, node, Network, Route};

struct MockExecutor {
    should_succeed: bool,
}

impl IpCommandExecutor for MockExecutor {
    fn run(&mut self, _args: &[&str]) -> Result<CommandOutput, IoError> {
        if self.should_succeed {
            Ok(CommandOutput { success: true, stdout: vec![] })
        } else {
            Err(IoError::new(IoErrorKind::Other, "command failed"))
        }
    }

    fn disable_reverse_path_filter(&mut self, _interface: &str) -> Result<(), IoError> {
        if self.should_succeed {
            Ok(())
        } else {
            Err(IoError::new(IoErrorKind::Other, "command failed"))
        }
    }
}

#[test]
fn test_tunnel_exists_success() {
    let mut mock = LoggedExecutor::new(MockExecutor { should_succeed: true });
    let result = tunnel_exists(&mut mock, "tun-test");
    assert!(result.unwrap());
}

#[test]
fn direct_route_in_model_network() {
    let local = node("local", "192.0.2.1", Some("10.244.1.0/24"), Some("a"));
    let remote = node("remote", "192.0.2.2", Some("10.244.2.0/24"), Some("a"));
    let mut network = LoggedExecutor::new(Network::default());
    reconcile_route_with_executor(&local, &remote, &config(), &mut network).unwrap();
    assert_eq!(network.inner().route("10.244.2.0/24"), Some(Route::Direct("192.0.2.2".into())));
    let _ = RouteConfig::default();
}

#[test]
fn test_tunnel_exists_failure() {
    let mut mock = LoggedExecutor::new(MockExecutor { should_succeed: false });
    let result = tunnel_exists(&mut mock, "tun-nonexistent");
    assert!(!result.unwrap());
}

struct ErrorMock;

impl IpCommandExecutor for ErrorMock {
    fn run(&mut self, _args: &[&str]) -> Result<CommandOutput, IoError> {
        Err(IoError::new(IoErrorKind::Other, "command failed"))
    }

    fn disable_reverse_path_filter(&mut self, _interface: &str) -> Result<(), IoError> {
        Err(IoError::new(IoErrorKind::Other, "command failed"))
    }
}

#[test]
fn test_tunnel_exists_error() {
    let mut mock = LoggedExecutor::new(ErrorMock);
    let result = tunnel_exists(&mut mock, "tun-test");
    assert!(!result.unwrap());
}

#[test]
fn test_route_config_trims_empty_values() {
    assert_eq!(RouteConfig::new(Some("  ".into())).node_group_label(), None);
    assert_eq!(
        RouteConfig::new(Some("  router.example.com/group  ".into())).node_group_label(),
        Some("router.example.com/group")
    );
}

#[test]
fn test_node_name_prefers_downward_api_value() {
    assert_eq!(
        local_node_name_from(Some("node-a".into()), Some("pod-name".into())),
        Some("node-a".into())
    );
}

#[test]
fn test_node_name_falls_back_to_hostname() {
    assert_eq!(
        local_node_name_from(None, Some("node-a".into())),
        Some("node-a".into())
    );
}

fn routing_node(name: &str, ip: &str, cidr: Option<&str>, group: Option<&str>) -> Node {
    let mut node = Node::default();
    node.name = Some(name.to_string());
    node.labels = match group {
        Some(value) => vec![("router.example.com/group".to_string(), value.to_string())],
        None => vec![],
    };
    node.pod_cidr = cidr.map(str::to_string);
    node.addresses = Some(vec![NodeAddress {
        type_: "InternalIP".to_string(),
        address: ip.to_string(),
    }]);
    node
}

fn status_only(addresses: Option<Vec<NodeAddress>>) -> Node {
    let mut node = Node::default();
    node.addresses = addresses;
    node
}

#[test]
fn executor_test_get_node_ip_with_external_ip() {
    let node = status_only(Some(vec![NodeAddress {
        type_: "ExternalIP".to_string(),
        address: "192.168.1.1".to_string(),
    }]));
    let ip = get_node_ip(&node);
    assert_eq!(ip, Some("192.168.1.1".to_string()));
}

#[test]
fn executor_test_get_node_ip_with_internal_ip() {
    let node = status_only(Some(vec![NodeAddress {
        type_: "InternalIP".to_string(),
        address: "10.0.0.1".to_string(),
    }]));
    let ip = get_node_ip(&node);
    assert_eq!(ip, Some("10.0.0.1".to_string()));
}

#[test]
fn test_get_node_ip_prefers_internal_ip() {
    let node = status_only(Some(vec![
        NodeAddress {
            type_: "ExternalIP".to_string(),
            address: "192.0.2.10".to_string(),
        },
        NodeAddress {
            type_: "InternalIP".to_string(),
            address: "10.0.0.10".to_string(),
        },
    ]));

    assert_eq!(get_node_ip(&node), Some("10.0.0.10".to_string()));
}

#[test]
fn test_get_node_ip_with_no_addresses() {
    let node = status_only(Some(vec![]));
    let ip = get_node_ip(&node);
    assert_eq!(ip, None);
}

#[test]
fn test_get_node_ip_with_no_status() {
    let node = status_only(None);
    let ip = get_node_ip(&node);
    assert_eq!(ip, None);
}

#[test]
fn test_get_node_cidr_with_cidr() {
    let mut node = Node::default();
    node.pod_cidr = Some("10.244.0.0/24".to_string());
    let cidr = get_node_cidr(&node);
    assert_eq!(cidr, Some("10.244.0.0/24".to_string()));
}

#[test]
fn test_get_node_cidr_with_no_cidr() {
    let mut node = Node::default();
    node.pod_cidr = None;
    let cidr = get_node_cidr(&node);
    assert_eq!(cidr, None);
}

#[test]
fn test_get_node_cidr_with_no_spec() {
    let node = Node::default();
    let cidr = get_node_cidr(&node);
    assert_eq!(cidr, None);
}

struct RouteMock {
    has_tunnel: bool,
}

impl IpCommandExecutor for RouteMock {
    fn run(&mut self, _args: &[&str]) -> Result<CommandOutput, IoError> {
        let stdout = if self.has_tunnel {
            b"10.244.0.0/24 via tun-test dev tun-test\n".to_vec()
        } else {
            b"10.244.1.0/24 via tun-other dev tun-other\n".to_vec()
        };
        Ok(CommandOutput { success: true, stdout })
    }

    fn disable_reverse_path_filter(&mut self, _interface: &str) -> Result<(), IoError> {
        Ok(())
    }
}

#[test]
fn test_route_exists_success_with_tunnel() {
    let mut mock = LoggedExecutor::new(RouteMock { has_tunnel: true });
    let result = route_exists(&mut mock, "10.244.0.0/24", "tun-test");
    assert!(result.unwrap());
}

#[test]
fn test_route_exists_success_without_tunnel() {
    let mut mock = LoggedExecutor::new(RouteMock { has_tunnel: false });
    let result = route_exists(&mut mock, "10.244.0.0/24", "tun-test");
    assert!(!result.unwrap());
}

#[test]
fn test_route_exists_error() {
    let mut mock = LoggedExecutor::new(ErrorMock);
    let result = route_exists(&mut mock, "10.244.0.0/24", "tun-test");
    assert!(!result.unwrap());
}

struct SubnetLookupMock {
    addresses: Option<&'static str>,
}

impl IpCommandExecutor for SubnetLookupMock {
    fn run(&mut self, args: &[&str]) -> Result<CommandOutput, IoError> {
        assert_eq!(args, ["-o", "-4", "addr", "show"]);
        let Some(addresses) = self.addresses else {
            return Err(IoError::new(IoErrorKind::Other, "address lookup failed"));
        };
        Ok(CommandOutput { success: true, stdout: addresses.as_bytes().to_vec() })
    }

    fn disable_reverse_path_filter(&mut self, _interface: &str) -> Result<(), IoError> {
        Ok(())
    }
}

#[test]
fn test_same_non_empty_node_group_uses_direct_route() {
    let local = routing_node("node-a", "192.0.2.1", Some("10.0.1.0/24"), Some("rack-a"));
    let remote = routing_node("node-b", "192.0.2.2", Some("10.0.2.0/24"), Some("rack-a"));
    let config = RouteConfig::new(Some("router.example.com/group".into()));
    let mut mock = LoggedExecutor::new(SubnetLookupMock {
        addresses: Some("2: eth0    inet 192.0.2.1/24 brd 192.0.2.255 scope global eth0"),
    });

    assert_eq!(get_route_mode(&local, &remote, &config, &mut mock), RouteMode::Direct);
}

#[test]
fn test_nodes_without_group_labels_share_default_group() {
    let local = routing_node("node-a", "192.0.2.1", Some("10.0.1.0/24"), None);
    let remote = routing_node("node-b", "192.0.2.2", Some("10.0.2.0/24"), None);
    let config = RouteConfig::new(Some("router.example.com/group".into()));
    let mut mock = LoggedExecutor::new(SubnetLookupMock {
        addresses: Some("2: eth0    inet 192.0.2.1/24 brd 192.0.2.255 scope global eth0"),
    });

    assert_eq!(get_route_mode(&local, &remote, &config, &mut mock), RouteMode::Direct);
}

#[test]
fn test_different_or_one_missing_node_group_uses_ipip() {
    let local = routing_node("node-a", "192.0.2.1", Some("10.0.1.0/24"), Some("rack-a"));
    let different = routing_node("node-b", "192.0.2.2", Some("10.0.2.0/24"), Some("rack-b"));
    let missing = routing_node("node-c", "192.0.2.3", Some("10.0.3.0/24"), None);
    let config = RouteConfig::new(Some("router.example.com/group".into()));
    let mut mock = LoggedExecutor::new(SubnetLookupMock { addresses: None });

    assert_eq!(get_route_mode(&local, &different, &config, &mut mock), RouteMode::Ipip);
    assert_eq!(get_route_mode(&local, &missing, &config, &mut mock), RouteMode::Ipip);
    assert_eq!(
        get_route_mode(&local, &different, &RouteConfig::default(), &mut mock),
        RouteMode::Ipip
    );
}

#[test]
fn test_same_group_on_different_subnet_uses_ipip() {
    let local = routing_node("node-a", "192.0.2.1", Some("10.0.1.0/24"), Some("rack-a"));
    let remote = routing_node("node-b", "198.51.100.2", Some("10.0.2.0/24"), Some("rack-a"));
    let config = RouteConfig::new(Some("router.example.com/group".into()));
    let mut mock = LoggedExecutor::new(SubnetLookupMock {
        addresses: Some("2: eth0    inet 192.0.2.1/24 brd 192.0.2.255 scope global eth0"),
    });

    assert_eq!(get_route_mode(&local, &remote, &config, &mut mock), RouteMode::Ipip);
}

#[test]
fn test_same_group_subnet_lookup_failure_uses_ipip() {
    let local = routing_node("node-a", "192.0.2.1", Some("10.0.1.0/24"), Some("rack-a"));
    let remote = routing_node("node-b", "192.0.2.2", Some("10.0.2.0/24"), Some("rack-a"));
    let config = RouteConfig::new(Some("router.example.com/group".into()));
    let mut mock = LoggedExecutor::new(SubnetLookupMock { addresses: None });

    assert_eq!(get_route_mode(&local, &remote, &config, &mut mock), RouteMode::Ipip);
}

struct TunnelMock {
    tunnel_exists: bool,
    calls: Vec<Vec<String>>,
}

impl IpCommandExecutor for TunnelMock {
    fn run(&mut self, args: &[&str]) -> Result<CommandOutput, IoError> {
        self.calls.push(args.iter().map(|arg| (*arg).to_string()).collect());

        if args.starts_with(&["link", "show", "dev"]) && !self.tunnel_exists {
            return Err(IoError::new(IoErrorKind::NotFound, "not found"));
        }

        Ok(CommandOutput { success: true, stdout: vec![] })
    }

    fn disable_reverse_path_filter(&mut self, interface: &str) -> Result<(), IoError> {
        self.calls.push(vec!["rp_filter".to_string(), interface.to_string(), "0".to_string()]);
        Ok(())
    }
}

#[test]
fn test_ensure_tunnel_creates_and_brings_interface_up() {
    let mut mock = LoggedExecutor::new(TunnelMock { tunnel_exists: false, calls: vec![] });

    ensure_tunnel(&mut mock, "tun-test", "192.0.2.1", "192.0.2.2").unwrap();

    assert_eq!(
        mock.inner().calls,
        vec![
            vec!["link", "show", "dev", "tun-test"],
            vec!["tunnel", "add", "tun-test", "mode", "ipip", "local", "192.0.2.1", "remote", "192.0.2.2"],
            vec!["link", "set", "dev", "tun-test", "up"],
            vec!["rp_filter", "tun-test", "0"],
        ]
    );
}

#[test]
fn test_ensure_tunnel_brings_existing_interface_up() {
    let mut mock = LoggedExecutor::new(TunnelMock { tunnel_exists: true, calls: vec![] });

    ensure_tunnel(&mut mock, "tun-test", "192.0.2.1", "192.0.2.2").unwrap();

    assert_eq!(
        mock.inner().calls,
        vec![
            vec!["link", "show", "dev", "tun-test"],
            vec!["link", "set", "dev", "tun-test", "up"],
            vec!["rp_filter", "tun-test", "0"],
        ]
    );
}

struct ReconcileMock {
    tunnel_exists: bool,
    calls: Vec<Vec<String>>,
}

impl IpCommandExecutor for ReconcileMock {
    fn run(&mut self, args: &[&str]) -> Result<CommandOutput, IoError> {
        self.calls.push(args.iter().map(|arg| (*arg).to_string()).collect());

        if args.starts_with(&["link", "show", "dev"]) && !self.tunnel_exists {
            return Err(IoError::new(IoErrorKind::NotFound, "not found"));
        }

        let stdout = if args == ["-o", "-4", "addr", "show"] {
            b"2: eth0    inet 192.0.2.1/24 brd 192.0.2.255 scope global eth0\n".to_vec()
        } else {
            vec![]
        };
        Ok(CommandOutput { success: true, stdout })
    }

    fn disable_reverse_path_filter(&mut self, interface: &str) -> Result<(), IoError> {
        self.calls.push(vec!["rp_filter".to_string(), interface.to_string(), "0".to_string()]);
        Ok(())
    }
}

#[test]
fn test_reconcile_same_group_installs_direct_route_and_removes_tunnel() {
    let local = routing_node("node-a", "192.0.2.1", Some("10.0.1.0/24"), Some("rack-a"));
    let remote = routing_node("node-b", "192.0.2.2", Some("10.0.2.0/24"), Some("rack-a"));
    let config = RouteConfig::new(Some("router.example.com/group".into()));
    let mut mock = LoggedExecutor::new(ReconcileMock { tunnel_exists: true, calls: vec![] });
    let tunnel_name = get_tunnel_name("node-b");

    reconcile_route_with_executor(&local, &remote, &config, &mut mock).unwrap();

    assert_eq!(
        mock.inner().calls,
        vec![
            vec!["-o", "-4", "addr", "show"],
            vec!["route", "replace", "10.0.2.0/24", "via", "192.0.2.2"],
            vec!["link", "show", "dev", tunnel_name.as_str()],
            vec!["tunnel", "del", tunnel_name.as_str()],
        ]
    );
}

#[test]
fn test_reconcile_different_group_installs_ipip_route() {
    let local = routing_node("node-a", "192.0.2.1", Some("10.0.1.0/24"), Some("rack-a"));
    let remote = routing_node("node-b", "192.0.2.2", Some("10.0.2.0/24"), Some("rack-b"));
    let config = RouteConfig::new(Some("router.example.com/group".into()));
    let mut mock = LoggedExecutor::new(ReconcileMock { tunnel_exists: false, calls: vec![] });
    let tunnel_name = get_tunnel_name("node-b");

    reconcile_route_with_executor(&local, &remote, &config, &mut mock).unwrap();

    assert_eq!(
        mock.inner().calls,
        vec![
            vec!["link", "show", "dev", tunnel_name.as_str()],
            vec![
                "tunnel",
                "add",
                tunnel_name.as_str(),
                "mode",
                "ipip",
                "local",
                "192.0.2.1",
                "remote",
                "192.0.2.2",
            ],
            vec!["link", "set", "dev", tunnel_name.as_str(), "up"],
            vec!["rp_filter", tunnel_name.as_str(), "0"],
            vec!["route", "replace", "10.0.2.0/24", "dev", tunnel_name.as_str()],
        ]
    );
}

#[test]
fn test_reconcile_waits_for_delayed_pod_cidr() {
    let local = routing_node("node-a", "192.0.2.1", Some("10.0.1.0/24"), Some("rack-a"));
    let mut remote = routing_node("node-b", "192.0.2.2", None, Some("rack-b"));
    let config = RouteConfig::new(Some("router.example.com/group".into()));
    let mut mock = LoggedExecutor::new(ReconcileMock { tunnel_exists: false, calls: vec![] });

    reconcile_route_with_executor(&local, &remote, &config, &mut mock).unwrap();
    assert!(mock.inner().calls.is_empty());

    remote.pod_cidr = Some("10.0.2.0/24".to_string());
    reconcile_route_with_executor(&local, &remote, &config, &mut mock).unwrap();

    let expected_route = vec![
        "route".to_string(),
        "replace".to_string(),
        "10.0.2.0/24".to_string(),
        "dev".to_string(),
        get_tunnel_name("node-b"),
    ];
    assert!(mock.inner().calls.iter().any(|args| args == &expected_route));
}

#[test]
fn test_delete_route_removes_direct_or_ipip_route_and_tunnel() {
    let remote = routing_node("node-b", "192.0.2.2", Some("10.0.2.0/24"), Some("rack-a"));
    let mut mock = LoggedExecutor::new(ReconcileMock { tunnel_exists: true, calls: vec![] });
    let tunnel_name = get_tunnel_name("node-b");

    delete_route_with_executor(remote, &mut mock);

    assert_eq!(
        mock.inner().calls,
        vec![
            vec!["route", "del", "10.0.2.0/24"],
            vec!["link", "show", "dev", tunnel_name.as_str()],
            vec!["tunnel", "del", tunnel_name.as_str()],
        ]
    );
}
