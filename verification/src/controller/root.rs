//! The controller's routing helpers.
use crate::ipip::executor::{self, IoError, IpCommandExecutor, LoggedExecutor};
use crate::ipip::node::{self, Node};
use crate::ipip::protocol;
use crate::ipip::tunnel;
use vstd::prelude::*;

verus! {

/// The routing operations that the controller uses.
pub struct ControllerInner {}

impl ControllerInner {
    /// The tunnel device name for a Node.
    pub fn get_tunnel_name(node_name: &str) -> (r: String)
        ensures
            r@ == tunnel::tunnel_name(node_name@),
            r@.len() == 15,
    {
        tunnel::get_tunnel_name(node_name)
    }

    /// The Node's first address of type ExternalIP or InternalIP, in the
    /// order of its status; unlike route selection, this does not prefer the
    /// InternalIP.
    pub fn get_node_ip(node: &Node) -> (r: Option<String>)
        ensures
            node::opt_view(r) == node::node_ip_any_order(node@),
    {
        node::get_node_ip_any_order(node)
    }

    /// The Node's PodCIDR.
    pub fn get_node_cidr(node: &Node) -> (r: Option<String>)
        ensures
            node::opt_view(r) == node@.pod_cidr,
    {
        node::get_node_cidr(node)
    }

    /// Whether the tunnel exists.
    pub fn tunnel_exists<T: IpCommandExecutor>(executor: &mut LoggedExecutor<T>, tunnel_name: &str) -> (r: Result<
        bool,
        IoError,
    >)
        ensures
            protocol::extends(final(executor).history(), old(executor).history()),
            final(executor).continues(*old(executor)),
            r matches Ok(b) && protocol::tunnel_exists_protocol(
                tunnel_name@,
                final(executor).history(),
                old(executor).history().len() as int,
            ) == Some((b, final(executor).history().len() as int)),
    {
        executor::tunnel_exists(executor, tunnel_name)
    }
}

} // verus!
