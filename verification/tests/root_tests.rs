use cilium_ipip_router::controller::root::ControllerInner;
use cilium_ipip_router::ipip::node::{Node, NodeAddress};

fn with_addresses(addresses: Option<Vec<NodeAddress>>) -> Node {
    let mut node = Node::default();
    node.addresses = addresses;
    node
}

#[test]
fn root_tests_test_get_node_ip_with_internal_ip() {
    let node = with_addresses(Some(vec![NodeAddress {
        type_: "InternalIP".to_string(),
        address: "10.0.0.1".to_string(),
    }]));

    let node_ip = ControllerInner::get_node_ip(&node);
    assert_eq!(node_ip, Some("10.0.0.1".to_string()));
}

#[test]
fn test_get_node_ip_no_ip() {
    let node = with_addresses(Some(vec![]));

    let node_ip = ControllerInner::get_node_ip(&node);
    assert_eq!(node_ip, None);
}

#[test]
fn test_get_node_ip_no_status() {
    let node = with_addresses(None);

    let node_ip = ControllerInner::get_node_ip(&node);
    assert_eq!(node_ip, None);
}

#[test]
fn test_get_node_ip_no_addresses() {
    let node = with_addresses(None);

    let node_ip = ControllerInner::get_node_ip(&node);
    assert_eq!(node_ip, None);
}

#[test]
fn root_tests_test_get_node_ip_with_external_ip() {
    let node = with_addresses(Some(vec![
        NodeAddress {
            type_: "ExternalIP".to_string(),
            address: "203.0.113.1".to_string(),
        },
        NodeAddress {
            type_: "InternalIP".to_string(),
            address: "10.0.0.1".to_string(),
        },
    ]));

    let node_ip = ControllerInner::get_node_ip(&node);
    assert_eq!(node_ip, Some("203.0.113.1".to_string()));
}
