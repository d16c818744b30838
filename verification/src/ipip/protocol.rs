//! The host commands that routing issues, as a protocol over the log of
//! exchanges with an `IpCommandExecutor`.
//!
//! Each protocol reads the log from a start index and gives the outcome and the
//! index after its last exchange, or `None` when the log does not hold the
//! exchanges it asks for. What a command reports decides what comes next, so a
//! protocol is a function of the replies in the log.
use crate::ipip::address;
use crate::ipip::node::{self, NodeView};
use crate::ipip::text;
use crate::ipip::tunnel;
use vstd::prelude::*;

verus! {

/// What a finished command reports: whether it exited successfully, and its
/// standard output.
pub ghost struct OutputView {
    pub success: bool,
    pub stdout: Seq<u8>,
}

/// The kind of a failed command.
#[derive(Clone, Copy, Debug, PartialEq, Eq, Structural)]
pub enum IoErrorKind {
    NotFound,
    InvalidInput,
    ConnectionRefused,
    Other,
}

pub ghost struct IoErrorView {
    pub kind: IoErrorKind,
    pub message: Seq<char>,
}

/// One call of an executor and what it returned.
pub ghost enum Exchange {
    /// `ip` with the given arguments.
    Run { args: Seq<Seq<char>>, reply: Result<OutputView, IoErrorView> },
    /// Turning off reverse-path filtering on an interface.
    DisableRpFilter { interface: Seq<char>, outcome: Result<(), IoErrorView> },
}

/// Route selection for a remote Node.
#[derive(Clone, Copy, Debug, PartialEq, Eq, Structural)]
pub enum RouteMode {
    /// A next-hop route through the Node's InternalIP.
    Direct,
    /// A route through the Node's IPIP tunnel.
    Ipip,
}

/// The reply of `ip` with `args` at index `i` of the log.
pub open spec fn ran(log: Seq<Exchange>, i: int, args: Seq<Seq<char>>) -> Option<
    Result<OutputView, IoErrorView>,
> {
    if 0 <= i < log.len() {
        match log[i] {
            Exchange::Run { args: a, reply } => if a == args {
                Some(reply)
            } else {
                None
            },
            _ => None,
        }
    } else {
        None
    }
}

/// The reply of disabling reverse-path filtering on `interface` at index `i`.
pub open spec fn rp_disabled(log: Seq<Exchange>, i: int, interface: Seq<char>) -> Option<
    Result<(), IoErrorView>,
> {
    if 0 <= i < log.len() {
        match log[i] {
            Exchange::DisableRpFilter { interface: n, outcome } => if n == interface {
                Some(outcome)
            } else {
                None
            },
            _ => None,
        }
    } else {
        None
    }
}

/// The outcome of a command whose output is not read: only its error counts.
pub open spec fn status_of(reply: Result<OutputView, IoErrorView>) -> Result<(), IoErrorView> {
    match reply {
        Ok(_) => Ok(()),
        Err(e) => Err(e),
    }
}

pub open spec fn addr_show_cmd() -> Seq<Seq<char>> {
    seq!["-o"@, "-4"@, "addr"@, "show"@]
}

pub open spec fn link_show_cmd(name: Seq<char>) -> Seq<Seq<char>> {
    seq!["link"@, "show"@, "dev"@, name]
}

pub open spec fn tunnel_add_cmd(name: Seq<char>, local: Seq<char>, remote: Seq<char>) -> Seq<
    Seq<char>,
> {
    seq!["tunnel"@, "add"@, name, "mode"@, "ipip"@, "local"@, local, "remote"@, remote]
}

pub open spec fn link_up_cmd(name: Seq<char>) -> Seq<Seq<char>> {
    seq!["link"@, "set"@, "dev"@, name, "up"@]
}

pub open spec fn tunnel_del_cmd(name: Seq<char>) -> Seq<Seq<char>> {
    seq!["tunnel"@, "del"@, name]
}

pub open spec fn route_via_cmd(cidr: Seq<char>, ip: Seq<char>) -> Seq<Seq<char>> {
    seq!["route"@, "replace"@, cidr, "via"@, ip]
}

pub open spec fn route_dev_cmd(cidr: Seq<char>, name: Seq<char>) -> Seq<Seq<char>> {
    seq!["route"@, "replace"@, cidr, "dev"@, name]
}

pub open spec fn route_del_cmd(cidr: Seq<char>) -> Seq<Seq<char>> {
    seq!["route"@, "del"@, cidr]
}

pub open spec fn route_show_cmd(cidr: Seq<char>) -> Seq<Seq<char>> {
    seq!["route"@, "show"@, "to"@, cidr]
}

/// The text that `String::from_utf8_lossy` makes of `bytes`.
pub uninterp spec fn lossy_utf8(bytes: Seq<u8>) -> Seq<char>;

/// Whether the tunnel exists: `ip link show dev <name>` succeeds.
pub open spec fn tunnel_exists_protocol(name: Seq<char>, log: Seq<Exchange>, s: int) -> Option<
    (bool, int),
> {
    match ran(log, s, link_show_cmd(name)) {
        Some(Ok(o)) => Some((o.success, s + 1)),
        Some(Err(_)) => Some((false, s + 1)),
        None => None,
    }
}

/// Whether a route to `cidr` goes through the tunnel: the successful output of
/// `ip route show to <cidr>` mentions the tunnel.
pub open spec fn route_exists_protocol(
    cidr: Seq<char>,
    tunnel_name: Seq<char>,
    log: Seq<Exchange>,
    s: int,
) -> Option<(bool, int)> {
    match ran(log, s, route_show_cmd(cidr)) {
        Some(Ok(o)) => Some(
            (o.success && text::contains_seq(lossy_utf8(o.stdout), tunnel_name), s + 1),
        ),
        Some(Err(_)) => Some((false, s + 1)),
        None => None,
    }
}

/// Bringing a tunnel up and turning off its reverse-path filter, stopping at
/// the first error.
pub open spec fn tunnel_up_protocol(name: Seq<char>, log: Seq<Exchange>, s: int) -> Option<
    (Result<(), IoErrorView>, int),
> {
    match ran(log, s, link_up_cmd(name)) {
        Some(Err(e)) => Some((Err(e), s + 1)),
        Some(Ok(_)) => match rp_disabled(log, s + 1, name) {
            Some(r) => Some((r, s + 2)),
            None => None,
        },
        None => None,
    }
}

/// Creating the tunnel when it does not exist, then bringing it up and turning
/// off its reverse-path filter, stopping at the first error.
pub open spec fn ensure_tunnel_protocol(
    name: Seq<char>,
    local: Seq<char>,
    remote: Seq<char>,
    log: Seq<Exchange>,
    s: int,
) -> Option<(Result<(), IoErrorView>, int)> {
    match tunnel_exists_protocol(name, log, s) {
        Some((true, a)) => tunnel_up_protocol(name, log, a),
        Some((false, a)) => match ran(log, a, tunnel_add_cmd(name, local, remote)) {
            Some(Err(e)) => Some((Err(e), a + 1)),
            Some(Ok(_)) => tunnel_up_protocol(name, log, a + 1),
            None => None,
        },
        None => None,
    }
}

/// Deleting the tunnel when it exists.
pub open spec fn delete_tunnel_protocol(name: Seq<char>, log: Seq<Exchange>, s: int) -> Option<
    (Result<(), IoErrorView>, int),
> {
    match tunnel_exists_protocol(name, log, s) {
        Some((false, a)) => Some((Ok(()), a)),
        Some((true, a)) => match ran(log, a, tunnel_del_cmd(name)) {
            Some(r) => Some((status_of(r), a + 1)),
            None => None,
        },
        None => None,
    }
}

/// The route mode that the reply of `ip -o -4 addr show` gives for the two
/// InternalIPs: direct when it succeeded, names the local address with a
/// prefix, and the remote address lies in that subnet.
pub open spec fn lookup_route_mode(
    local_ip: Seq<char>,
    remote_ip: Seq<char>,
    reply: Result<OutputView, IoErrorView>,
) -> RouteMode {
    match reply {
        Ok(o) => if o.success {
            addresses_route_mode(local_ip, remote_ip, lossy_utf8(o.stdout))
        } else {
            RouteMode::Ipip
        },
        Err(_) => RouteMode::Ipip,
    }
}

/// The route mode that the text of `ip -o -4 addr show` gives for the two
/// InternalIPs.
pub open spec fn addresses_route_mode(
    local_ip: Seq<char>,
    remote_ip: Seq<char>,
    addresses: Seq<char>,
) -> RouteMode {
    match address::local_ipv4_prefix(addresses, local_ip) {
        Some(p) => if address::same_ipv4_subnet(local_ip, remote_ip, p) {
            RouteMode::Direct
        } else {
            RouteMode::Ipip
        },
        None => RouteMode::Ipip,
    }
}

/// The two InternalIPs whose subnet decides the route, when a direct route is
/// possible at all: a group label is configured, both Nodes are in one group,
/// and both have an InternalIP.
pub open spec fn subnet_candidates(
    local: NodeView,
    remote: NodeView,
    label: Option<Seq<char>>,
) -> Option<(Seq<char>, Seq<char>)> {
    match label {
        None => None,
        Some(key) => if node::same_group(node::node_group(local, key), node::node_group(remote, key)) {
            match (node::internal_ip(local), node::internal_ip(remote)) {
                (Some(l), Some(r)) => Some((l, r)),
                _ => None,
            }
        } else {
            None
        },
    }
}

/// The route mode for a remote Node: IPIP without any command unless a direct
/// route is possible; then the local address lookup decides.
pub open spec fn route_mode_protocol(
    local: NodeView,
    remote: NodeView,
    label: Option<Seq<char>>,
    log: Seq<Exchange>,
    s: int,
) -> Option<(RouteMode, int)> {
    match subnet_candidates(local, remote, label) {
        None => Some((RouteMode::Ipip, s)),
        Some((l, r)) => match ran(log, s, addr_show_cmd()) {
            Some(reply) => Some((lookup_route_mode(l, r, reply), s + 1)),
            None => None,
        },
    }
}

/// The route to a remote Node's PodCIDR.
///
/// Nothing happens for the local Node itself, nor for a Node without PodCIDR
/// or address. A direct route replaces the route through the remote address
/// and then deletes the Node's tunnel; an IPIP route, given a local address,
/// first makes the tunnel ready and then replaces the route through it. The
/// first error ends the protocol.
pub open spec fn reconcile_protocol(
    local: NodeView,
    remote: NodeView,
    label: Option<Seq<char>>,
    log: Seq<Exchange>,
    s: int,
) -> Option<(Result<(), IoErrorView>, int)> {
    if node::name_any(local) == node::name_any(remote) {
        Some((Ok(()), s))
    } else {
        match (remote.pod_cidr, node::node_ip(remote)) {
            (Some(cidr), Some(remote_ip)) => {
                let name = tunnel::tunnel_name(node::name_any(remote));
                match route_mode_protocol(local, remote, label, log, s) {
                    Some((RouteMode::Direct, m)) => match ran(log, m, route_via_cmd(cidr, remote_ip)) {
                        Some(Ok(_)) => delete_tunnel_protocol(name, log, m + 1),
                        Some(Err(e)) => Some((Err(e), m + 1)),
                        None => None,
                    },
                    Some((RouteMode::Ipip, m)) => match node::node_ip(local) {
                        None => Some((Ok(()), m)),
                        Some(local_ip) => match ensure_tunnel_protocol(
                            name,
                            local_ip,
                            remote_ip,
                            log,
                            m,
                        ) {
                            Some((Ok(()), k)) => match ran(log, k, route_dev_cmd(cidr, name)) {
                                Some(r) => Some((status_of(r), k + 1)),
                                None => None,
                            },
                            Some((Err(e), k)) => Some((Err(e), k)),
                            None => None,
                        },
                    },
                    None => None,
                }
            },
            _ => Some((Ok(()), s)),
        }
    }
}

/// Removing what routes to a deleted Node: the route to its PodCIDR when it
/// has one, whatever that reports, then its tunnel when it exists.
pub open spec fn delete_route_protocol(n: NodeView, log: Seq<Exchange>, s: int) -> Option<int> {
    let name = tunnel::tunnel_name(node::name_any(n));
    let after_route = match n.pod_cidr {
        Some(cidr) => match ran(log, s, route_del_cmd(cidr)) {
            Some(_) => Some(s + 1),
            None => None,
        },
        None => Some(s),
    };
    match after_route {
        Some(m) => match delete_tunnel_protocol(name, log, m) {
            Some((_, e)) => Some(e),
            None => None,
        },
        None => None,
    }
}

/// A reconciliation ends no earlier than it starts.
pub proof fn lemma_reconcile_end(
    local: NodeView,
    remote: NodeView,
    label: Option<Seq<char>>,
    log: Seq<Exchange>,
    s: int,
)
    ensures
        reconcile_protocol(local, remote, label, log, s) matches Some((_, e)) ==> s <= e,
{
}

/// A longer log that agrees with `h1` on its indices.
pub open spec fn extends(h2: Seq<Exchange>, h1: Seq<Exchange>) -> bool {
    h1.len() <= h2.len() && forall|i: int| 0 <= i < h1.len() ==> #[trigger] h2[i] == h1[i]
}

pub proof fn lemma_extends_trans(h3: Seq<Exchange>, h2: Seq<Exchange>, h1: Seq<Exchange>)
    requires
        extends(h3, h2),
        extends(h2, h1),
    ensures
        extends(h3, h1),
{
    assert forall|i: int| 0 <= i < h1.len() implies #[trigger] h3[i] == h1[i] by {
        assert(h3[i] == h2[i]);
    }
}

pub proof fn lemma_extends_push(h: Seq<Exchange>, x: Exchange)
    ensures
        extends(h.push(x), h),
{
    assert forall|i: int| 0 <= i < h.len() implies #[trigger] h.push(x)[i] == h[i] by {}
}

pub proof fn lemma_ran_stable(h2: Seq<Exchange>, h1: Seq<Exchange>, i: int, args: Seq<Seq<char>>)
    requires
        extends(h2, h1),
        0 <= i < h1.len(),
    ensures
        ran(h2, i, args) == ran(h1, i, args),
{
    assert(h2[i] == h1[i]);
}

pub proof fn lemma_rp_disabled_stable(h2: Seq<Exchange>, h1: Seq<Exchange>, i: int, n: Seq<char>)
    requires
        extends(h2, h1),
        0 <= i < h1.len(),
    ensures
        rp_disabled(h2, i, n) == rp_disabled(h1, i, n),
{
    assert(h2[i] == h1[i]);
}

pub proof fn lemma_tunnel_exists_stable(name: Seq<char>, h2: Seq<Exchange>, h1: Seq<Exchange>, s: int)
    requires
        extends(h2, h1),
        tunnel_exists_protocol(name, h1, s) matches Some((_, e)) && e <= h1.len(),
    ensures
        tunnel_exists_protocol(name, h2, s) == tunnel_exists_protocol(name, h1, s),
{
    lemma_ran_stable(h2, h1, s, link_show_cmd(name));
}

pub proof fn lemma_tunnel_up_stable(name: Seq<char>, h2: Seq<Exchange>, h1: Seq<Exchange>, s: int)
    requires
        extends(h2, h1),
        tunnel_up_protocol(name, h1, s) matches Some((_, e)) && e <= h1.len(),
    ensures
        tunnel_up_protocol(name, h2, s) == tunnel_up_protocol(name, h1, s),
{
    lemma_ran_stable(h2, h1, s, link_up_cmd(name));
    if s + 1 < h1.len() {
        lemma_rp_disabled_stable(h2, h1, s + 1, name);
    }
}

pub proof fn lemma_ensure_tunnel_stable(
    name: Seq<char>,
    local: Seq<char>,
    remote: Seq<char>,
    h2: Seq<Exchange>,
    h1: Seq<Exchange>,
    s: int,
)
    requires
        extends(h2, h1),
        ensure_tunnel_protocol(name, local, remote, h1, s) matches Some((_, e)) && e <= h1.len(),
    ensures
        ensure_tunnel_protocol(name, local, remote, h2, s) == ensure_tunnel_protocol(
            name,
            local,
            remote,
            h1,
            s,
        ),
{
    lemma_tunnel_exists_stable(name, h2, h1, s);
    match tunnel_exists_protocol(name, h1, s) {
        Some((true, a)) => {
            lemma_tunnel_up_stable(name, h2, h1, a);
        },
        Some((false, a)) => {
            lemma_ran_stable(h2, h1, a, tunnel_add_cmd(name, local, remote));
            if ran(h1, a, tunnel_add_cmd(name, local, remote)) matches Some(Ok(_)) {
                lemma_tunnel_up_stable(name, h2, h1, a + 1);
            }
        },
        None => {},
    }
}

pub proof fn lemma_delete_tunnel_stable(name: Seq<char>, h2: Seq<Exchange>, h1: Seq<Exchange>, s: int)
    requires
        extends(h2, h1),
        delete_tunnel_protocol(name, h1, s) matches Some((_, e)) && e <= h1.len(),
    ensures
        delete_tunnel_protocol(name, h2, s) == delete_tunnel_protocol(name, h1, s),
{
    lemma_tunnel_exists_stable(name, h2, h1, s);
    if let Some((true, a)) = tunnel_exists_protocol(name, h1, s) {
        lemma_ran_stable(h2, h1, a, tunnel_del_cmd(name));
    }
}

pub proof fn lemma_route_mode_stable(
    local: NodeView,
    remote: NodeView,
    label: Option<Seq<char>>,
    h2: Seq<Exchange>,
    h1: Seq<Exchange>,
    s: int,
)
    requires
        extends(h2, h1),
        route_mode_protocol(local, remote, label, h1, s) matches Some((_, e)) && e <= h1.len(),
    ensures
        route_mode_protocol(local, remote, label, h2, s) == route_mode_protocol(
            local,
            remote,
            label,
            h1,
            s,
        ),
{
    if subnet_candidates(local, remote, label) is Some {
        lemma_ran_stable(h2, h1, s, addr_show_cmd());
    }
}

pub proof fn lemma_reconcile_stable(
    local: NodeView,
    remote: NodeView,
    label: Option<Seq<char>>,
    h2: Seq<Exchange>,
    h1: Seq<Exchange>,
    s: int,
)
    requires
        extends(h2, h1),
        reconcile_protocol(local, remote, label, h1, s) matches Some((_, e)) && e <= h1.len(),
    ensures
        reconcile_protocol(local, remote, label, h2, s) == reconcile_protocol(
            local,
            remote,
            label,
            h1,
            s,
        ),
{
    if node::name_any(local) != node::name_any(remote) {
        if let (Some(cidr), Some(remote_ip)) = (remote.pod_cidr, node::node_ip(remote)) {
            let name = tunnel::tunnel_name(node::name_any(remote));
            lemma_route_mode_stable(local, remote, label, h2, h1, s);
            match route_mode_protocol(local, remote, label, h1, s) {
                Some((RouteMode::Direct, m)) => {
                    lemma_ran_stable(h2, h1, m, route_via_cmd(cidr, remote_ip));
                    if ran(h1, m, route_via_cmd(cidr, remote_ip)) matches Some(Ok(_)) {
                        lemma_delete_tunnel_stable(name, h2, h1, m + 1);
                    }
                },
                Some((RouteMode::Ipip, m)) => {
                    if let Some(local_ip) = node::node_ip(local) {
                        lemma_ensure_tunnel_stable(name, local_ip, remote_ip, h2, h1, m);
                        if let Some((Ok(()), k)) = ensure_tunnel_protocol(
                            name,
                            local_ip,
                            remote_ip,
                            h1,
                            m,
                        ) {
                            lemma_ran_stable(h2, h1, k, route_dev_cmd(cidr, name));
                        }
                    }
                },
                None => {},
            }
        }
    }
}

pub proof fn lemma_delete_route_stable(n: NodeView, h2: Seq<Exchange>, h1: Seq<Exchange>, s: int)
    requires
        extends(h2, h1),
        delete_route_protocol(n, h1, s) matches Some(e) && e <= h1.len(),
    ensures
        delete_route_protocol(n, h2, s) == delete_route_protocol(n, h1, s),
{
    let name = tunnel::tunnel_name(node::name_any(n));
    match n.pod_cidr {
        Some(cidr) => {
            lemma_ran_stable(h2, h1, s, route_del_cmd(cidr));
            lemma_delete_tunnel_stable(name, h2, h1, s + 1);
        },
        None => {
            lemma_delete_tunnel_stable(name, h2, h1, s);
        },
    }
}

} // verus!
