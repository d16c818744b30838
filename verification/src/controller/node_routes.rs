//! Node state shared by initial reconciliation and watch event handling.
//! Kubernetes transport and host commands are supplied by the caller so the
//! same event handling can be exercised without a live cluster or root access.
use crate::ipip::executor::{
    self, delete_route_with_executor, reconcile_route_with_executor, IoError, IpCommandExecutor, LoggedExecutor,
    RouteConfig,
};
use crate::ipip::node::{self, Node, NodeView};
use crate::ipip::protocol::{self, Exchange, IoErrorKind, IoErrorView};
use crate::ipip::text;
use vstd::prelude::*;
use vstd::string::StringExecFns;

verus! {

/// A change to a Node that the watch reports.
pub enum NodeEvent {
    Added(Node),
    Modified(Node),
    Deleted(Node),
    /// A bookmark carries no Node.
    Bookmark,
    /// The watch failed, with the status it reported.
    Error(String),
}

pub ghost enum NodeEventView {
    Added(NodeView),
    Modified(NodeView),
    Deleted(NodeView),
    Bookmark,
    /// The status the watch reported.
    Error(Seq<char>),
}

impl View for NodeEvent {
    type V = NodeEventView;

    open spec fn view(&self) -> NodeEventView {
        match self {
            NodeEvent::Added(n) => NodeEventView::Added(n@),
            NodeEvent::Modified(n) => NodeEventView::Modified(n@),
            NodeEvent::Deleted(n) => NodeEventView::Deleted(n@),
            NodeEvent::Bookmark => NodeEventView::Bookmark,
            NodeEvent::Error(status) => NodeEventView::Error(status@),
        }
    }
}

/// The cache of known Nodes, keyed by name, with the local Node's name and the
/// route configuration.
///
/// The Nodes are kept in a `Vec` with the invariant that no two share a name,
/// rather than in a hash map keyed by name: vstd specifies a hash map with
/// `String` keys too weakly to prove which Nodes it holds after an insert or a
/// removal. The `Vec` keeps the Nodes in the order they became known, which is
/// one of the orders in which a map could be walked when every Node is
/// reconciled.
pub struct NodeRoutes {
    local_node_name: String,
    config: RouteConfig,
    known_nodes: Vec<Node>,
}

pub ghost struct NodeRoutesView {
    pub local_node_name: Seq<char>,
    pub label: Option<Seq<char>>,
    /// The known Nodes, each under its own name, in the order they became known.
    pub nodes: Seq<NodeView>,
}

pub open spec fn nodes_view(v: Seq<Node>) -> Seq<NodeView> {
    v.map_values(|n: Node| n@)
}

impl View for NodeRoutes {
    type V = NodeRoutesView;

    closed spec fn view(&self) -> NodeRoutesView {
        NodeRoutesView {
            local_node_name: self.local_node_name@,
            label: self.config@,
            nodes: nodes_view(self.known_nodes@),
        }
    }
}

/// The name under which a Node is cached: its `metadata.name`, or the empty
/// string.
pub open spec fn key_of(n: NodeView) -> Seq<char> {
    match n.name {
        Some(x) => x,
        None => Seq::empty(),
    }
}

/// Every known Node has a name, and no two share one.
pub open spec fn unique_names(nodes: Seq<NodeView>) -> bool {
    &&& forall|i: int| 0 <= i < nodes.len() ==> (#[trigger] nodes[i]).name is Some
    &&& forall|i: int, j: int|
        0 <= i < j < nodes.len() ==> (#[trigger] nodes[i]).name != (#[trigger] nodes[j]).name
}

/// The index of the Node named `name`.
pub open spec fn node_index(nodes: Seq<NodeView>, name: Seq<char>) -> Option<int>
    decreases nodes.len(),
{
    if nodes.len() == 0 {
        None
    } else if nodes.last().name == Some(name) {
        Some(nodes.len() - 1)
    } else {
        node_index(nodes.drop_last(), name)
    }
}

/// The cached Node named `name`.
pub open spec fn cached(nodes: Seq<NodeView>, name: Seq<char>) -> Option<NodeView> {
    match node_index(nodes, name) {
        Some(i) => Some(nodes[i]),
        None => None,
    }
}

/// The cache after storing a named Node: it replaces the Node of the same name
/// in place, or comes last.
pub open spec fn insert_node(nodes: Seq<NodeView>, n: NodeView) -> Seq<NodeView> {
    match node_index(nodes, key_of(n)) {
        Some(i) => nodes.update(i, n),
        None => nodes.push(n),
    }
}

/// The cache without the Node named `name`.
pub open spec fn remove_node(nodes: Seq<NodeView>, name: Seq<char>) -> Seq<NodeView> {
    match node_index(nodes, name) {
        Some(i) => nodes.remove(i),
        None => nodes,
    }
}

/// The cache built from a list of Nodes: each named Node in turn, a later Node
/// replacing an earlier one of the same name.
pub open spec fn initial_nodes(ns: Seq<NodeView>) -> Seq<NodeView>
    decreases ns.len(),
{
    if ns.len() == 0 {
        Seq::empty()
    } else {
        let prev = initial_nodes(ns.drop_last());
        if ns.last().name is Some {
            insert_node(prev, ns.last())
        } else {
            prev
        }
    }
}

/// Reconciling the route to each Node of `remotes` in turn, whatever each
/// reconciliation returns.
pub open spec fn reconcile_each_protocol(
    local: NodeView,
    remotes: Seq<NodeView>,
    label: Option<Seq<char>>,
    log: Seq<Exchange>,
    s: int,
) -> Option<int>
    decreases remotes.len(),
{
    if remotes.len() == 0 {
        Some(s)
    } else {
        match reconcile_each_protocol(local, remotes.drop_last(), label, log, s) {
            Some(m) => match protocol::reconcile_protocol(local, remotes.last(), label, log, m) {
                Some((_, e)) => Some(e),
                None => None,
            },
            None => None,
        }
    }
}

/// The error of a start-up without the local Node.
pub open spec fn missing_local_error(name: Seq<char>) -> IoErrorView {
    IoErrorView {
        kind: IoErrorKind::NotFound,
        message: "local Kubernetes node "@ + name + " was not found"@,
    }
}

/// Reconciling every known Node against the local Node; without the local
/// Node, the `NotFound` error and no command.
pub open spec fn reconcile_all_protocol(v: NodeRoutesView, log: Seq<Exchange>, s: int) -> Option<
    (Result<(), IoErrorView>, int),
> {
    match cached(v.nodes, v.local_node_name) {
        None => Some((Err(missing_local_error(v.local_node_name)), s)),
        Some(local) => match reconcile_each_protocol(local, v.nodes, v.label, log, s) {
            Some(e) => Some((Ok(()), e)),
            None => None,
        },
    }
}

/// Handling one watch event: the cache afterwards, and the commands issued.
///
/// An added or modified Node with a name first removes the route of its cached
/// version when a remote Node's PodCIDR changed from one it had, is then
/// cached, and is then reconciled against the local Node when that is known;
/// an update of the local Node reconciles every known Node. A deleted Node
/// leaves the cache, and a deleted remote Node loses its route and tunnel.
/// Bookmarks, watch errors and Nodes without a name change nothing.
pub open spec fn event_protocol(
    v: NodeRoutesView,
    event: NodeEventView,
    log: Seq<Exchange>,
    s: int,
) -> Option<(NodeRoutesView, int)> {
    match event {
        NodeEventView::Added(n) => applied_protocol(v, n, log, s),
        NodeEventView::Modified(n) => applied_protocol(v, n, log, s),
        NodeEventView::Deleted(n) => {
            let name = key_of(n);
            let v2 = NodeRoutesView { nodes: remove_node(v.nodes, name), ..v };
            if name != v.local_node_name {
                match protocol::delete_route_protocol(n, log, s) {
                    Some(e) => Some((v2, e)),
                    None => None,
                }
            } else {
                Some((v2, s))
            }
        },
        NodeEventView::Bookmark => Some((v, s)),
        NodeEventView::Error(_) => Some((v, s)),
    }
}

/// Whether the cached version of a remote Node had a PodCIDR that the new
/// version changes.
pub open spec fn stale_route(v: NodeRoutesView, n: NodeView) -> Option<NodeView> {
    let name = key_of(n);
    match cached(v.nodes, name) {
        Some(prev) => if name != v.local_node_name && prev.pod_cidr != n.pod_cidr
            && prev.pod_cidr is Some {
            Some(prev)
        } else {
            None
        },
        None => None,
    }
}

pub open spec fn applied_protocol(v: NodeRoutesView, n: NodeView, log: Seq<Exchange>, s: int) -> Option<
    (NodeRoutesView, int),
> {
    let name = key_of(n);
    if name.len() == 0 {
        Some((v, s))
    } else {
        let after_delete = match stale_route(v, n) {
            Some(prev) => protocol::delete_route_protocol(prev, log, s),
            None => Some(s),
        };
        match after_delete {
            None => None,
            Some(m) => {
                let v2 = NodeRoutesView { nodes: insert_node(v.nodes, n), ..v };
                match cached(v2.nodes, v.local_node_name) {
                    None => Some((v2, m)),
                    Some(local) => if name == v.local_node_name {
                        match reconcile_each_protocol(local, v2.nodes, v.label, log, m) {
                            Some(e) => Some((v2, e)),
                            None => None,
                        }
                    } else {
                        match protocol::reconcile_protocol(local, n, v.label, log, m) {
                            Some((_, e)) => Some((v2, e)),
                            None => None,
                        }
                    },
                }
            },
        }
    }
}

pub proof fn lemma_node_index(nodes: Seq<NodeView>, name: Seq<char>)
    ensures
        node_index(nodes, name) matches Some(i) ==> 0 <= i < nodes.len() && nodes[i].name == Some(
            name,
        ),
        node_index(nodes, name) is None ==> forall|i: int|
            0 <= i < nodes.len() ==> (#[trigger] nodes[i]).name != Some(name),
    decreases nodes.len(),
{
    if nodes.len() > 0 {
        lemma_node_index(nodes.drop_last(), name);
        if node_index(nodes, name) is None {
            assert forall|i: int| 0 <= i < nodes.len() implies (#[trigger] nodes[i]).name != Some(
                name,
            ) by {
                if i < nodes.len() - 1 {
                    assert(nodes[i] == nodes.drop_last()[i]);
                }
            }
        }
    }
}

/// With unique names, the index of a name is the index that holds it.
pub proof fn lemma_node_index_unique(nodes: Seq<NodeView>, i: int)
    requires
        unique_names(nodes),
        0 <= i < nodes.len(),
    ensures
        node_index(nodes, nodes[i].name->0) == Some(i),
    decreases nodes.len(),
{
    let name = nodes[i].name->0;
    assert(nodes[i].name == Some(name));
    if i < nodes.len() - 1 {
        assert(nodes.last() == nodes[nodes.len() - 1]);
        assert(nodes.last().name != nodes[i].name);
        let d = nodes.drop_last();
        assert(unique_names(d)) by {
            assert forall|a: int| 0 <= a < d.len() implies (#[trigger] d[a]).name is Some by {
                assert(d[a] == nodes[a]);
            }
            assert forall|a: int, b: int| 0 <= a < b < d.len() implies (#[trigger] d[a]).name != (
            #[trigger] d[b]).name by {
                assert(d[a] == nodes[a]);
                assert(d[b] == nodes[b]);
            }
        }
        assert(d[i] == nodes[i]);
        lemma_node_index_unique(d, i);
    }
}

pub proof fn lemma_insert_unique(nodes: Seq<NodeView>, n: NodeView)
    requires
        unique_names(nodes),
        n.name is Some,
    ensures
        unique_names(insert_node(nodes, n)),
{
    lemma_node_index(nodes, key_of(n));
    let r = insert_node(nodes, n);
    assert forall|i: int, j: int| 0 <= i < j < r.len() implies (#[trigger] r[i]).name != (
    #[trigger] r[j]).name by {
        match node_index(nodes, key_of(n)) {
            Some(k) => {
                if i != k && j != k {
                    assert(r[i] == nodes[i] && r[j] == nodes[j]);
                }
            },
            None => {
                if j < nodes.len() {
                    assert(r[i] == nodes[i] && r[j] == nodes[j]);
                } else {
                    assert(r[i] == nodes[i]);
                }
            },
        }
    }
}

pub proof fn lemma_remove_unique(nodes: Seq<NodeView>, name: Seq<char>)
    requires
        unique_names(nodes),
    ensures
        unique_names(remove_node(nodes, name)),
{
    lemma_node_index(nodes, name);
    let r = remove_node(nodes, name);
    if let Some(k) = node_index(nodes, name) {
        assert forall|i: int| 0 <= i < r.len() implies (#[trigger] r[i]).name is Some by {
            if i < k {
                assert(r[i] == nodes[i]);
            } else {
                assert(r[i] == nodes[i + 1]);
            }
        }
        assert forall|i: int, j: int| 0 <= i < j < r.len() implies (#[trigger] r[i]).name != (
        #[trigger] r[j]).name by {
            let a = if i < k {
                i
            } else {
                i + 1
            };
            let b = if j < k {
                j
            } else {
                j + 1
            };
            assert(r[i] == nodes[a]);
            assert(r[j] == nodes[b]);
        }
    }
}

pub proof fn lemma_initial_unique(ns: Seq<NodeView>)
    ensures
        unique_names(initial_nodes(ns)),
    decreases ns.len(),
{
    if ns.len() > 0 {
        lemma_initial_unique(ns.drop_last());
        if ns.last().name is Some {
            lemma_insert_unique(initial_nodes(ns.drop_last()), ns.last());
        }
    }
}

pub proof fn lemma_reconcile_each_stable(
    local: NodeView,
    remotes: Seq<NodeView>,
    label: Option<Seq<char>>,
    h2: Seq<Exchange>,
    h1: Seq<Exchange>,
    s: int,
)
    requires
        protocol::extends(h2, h1),
        reconcile_each_protocol(local, remotes, label, h1, s) matches Some(e) && e <= h1.len(),
    ensures
        reconcile_each_protocol(local, remotes, label, h2, s) == reconcile_each_protocol(
            local,
            remotes,
            label,
            h1,
            s,
        ),
    decreases remotes.len(),
{
    if remotes.len() > 0 {
        let m = reconcile_each_protocol(local, remotes.drop_last(), label, h1, s)->0;
        lemma_reconcile_each_end(local, remotes.drop_last(), label, h1, s);
        protocol::lemma_reconcile_end(local, remotes.last(), label, h1, m);
        lemma_reconcile_each_stable(local, remotes.drop_last(), label, h2, h1, s);
        protocol::lemma_reconcile_stable(local, remotes.last(), label, h2, h1, m);
    }
}

pub proof fn lemma_reconcile_each_end(
    local: NodeView,
    remotes: Seq<NodeView>,
    label: Option<Seq<char>>,
    log: Seq<Exchange>,
    s: int,
)
    ensures
        reconcile_each_protocol(local, remotes, label, log, s) matches Some(e) ==> s <= e,
    decreases remotes.len(),
{
    if remotes.len() > 0 {
        lemma_reconcile_each_end(local, remotes.drop_last(), label, log, s);
        if let Some(m) = reconcile_each_protocol(local, remotes.drop_last(), label, log, s) {
            protocol::lemma_reconcile_end(local, remotes.last(), label, log, m);
        }
    }
}

fn opt_str_eq(a: &Option<String>, b: &Option<String>) -> (r: bool)
    ensures
        r == (node::opt_view(*a) == node::opt_view(*b)),
{
    match (a, b) {
        (Some(x), Some(y)) => text::str_eq(x.as_str(), y.as_str()),
        (None, None) => true,
        _ => false,
    }
}

/// A deleted Node leaves the cache, and every other cached Node stays.
pub proof fn law_deleted_node_leaves_cache(
    v: NodeRoutesView,
    n: NodeView,
    log: Seq<Exchange>,
    s: int,
    other: Seq<char>,
)
    requires
        unique_names(v.nodes),
        event_protocol(v, NodeEventView::Deleted(n), log, s) is Some,
    ensures
        ({
            let v2 = (event_protocol(v, NodeEventView::Deleted(n), log, s)->0).0;
            &&& cached(v2.nodes, key_of(n)) is None
            &&& other != key_of(n) ==> cached(v2.nodes, other) == cached(v.nodes, other)
            &&& v2.local_node_name == v.local_node_name && v2.label == v.label
        }),
{
    let name = key_of(n);
    let v2 = (event_protocol(v, NodeEventView::Deleted(n), log, s)->0).0;
    lemma_node_index(v.nodes, name);
    lemma_node_index(v.nodes, other);
    lemma_remove_unique(v.nodes, name);
    lemma_node_index(v2.nodes, name);
    lemma_node_index(v2.nodes, other);
    if let Some(k) = node_index(v.nodes, name) {
        if let Some(j) = node_index(v2.nodes, name) {
            let src = if j < k {
                j
            } else {
                j + 1
            };
            assert(v2.nodes[j] == v.nodes[src]);
            lemma_node_index_unique(v.nodes, src);
        }
        if other != name {
            match node_index(v.nodes, other) {
                Some(i) => {
                    let dst = if i < k {
                        i
                    } else {
                        i - 1
                    };
                    assert(v2.nodes[dst] == v.nodes[i]);
                    lemma_node_index_unique(v2.nodes, dst);
                },
                None => {
                    if let Some(j) = node_index(v2.nodes, other) {
                        let src = if j < k {
                            j
                        } else {
                            j + 1
                        };
                        assert(v2.nodes[j] == v.nodes[src]);
                    }
                },
            }
        }
    }
}

/// An added or modified Node with a name is cached as it came, and every other
/// cached Node stays.
pub proof fn law_applied_node_is_cached(
    v: NodeRoutesView,
    n: NodeView,
    log: Seq<Exchange>,
    s: int,
    other: Seq<char>,
)
    requires
        unique_names(v.nodes),
        key_of(n).len() > 0,
        applied_protocol(v, n, log, s) is Some,
    ensures
        ({
            let v2 = (applied_protocol(v, n, log, s)->0).0;
            &&& cached(v2.nodes, key_of(n)) == Some(n)
            &&& other != key_of(n) ==> cached(v2.nodes, other) == cached(v.nodes, other)
            &&& v2.local_node_name == v.local_node_name && v2.label == v.label
        }),
{
    let name = key_of(n);
    assert(n.name == Some(name));
    let v2 = (applied_protocol(v, n, log, s)->0).0;
    assert(v2.nodes == insert_node(v.nodes, n));
    lemma_node_index(v.nodes, name);
    lemma_node_index(v.nodes, other);
    lemma_insert_unique(v.nodes, n);
    lemma_node_index(v2.nodes, other);
    let k = match node_index(v.nodes, name) {
        Some(i) => i,
        None => v.nodes.len() as int,
    };
    assert(v2.nodes[k] == n);
    lemma_node_index_unique(v2.nodes, k);
    if other != name {
        match node_index(v.nodes, other) {
            Some(i) => {
                assert(v2.nodes[i] == v.nodes[i]);
                lemma_node_index_unique(v2.nodes, i);
            },
            None => {
                if let Some(j) = node_index(v2.nodes, other) {
                    if j != k {
                        assert(v2.nodes[j] == v.nodes[j]);
                    }
                }
            },
        }
    }
}

/// The last Node of `ns` named `name`.
pub open spec fn last_named(ns: Seq<NodeView>, name: Seq<char>) -> Option<NodeView>
    decreases ns.len(),
{
    if ns.len() == 0 {
        None
    } else if ns.last().name == Some(name) {
        Some(ns.last())
    } else {
        last_named(ns.drop_last(), name)
    }
}

/// Storing a named Node caches it under its name and keeps every other name.
pub proof fn lemma_cached_insert(nodes: Seq<NodeView>, n: NodeView, key: Seq<char>)
    requires
        unique_names(nodes),
        n.name is Some,
    ensures
        cached(insert_node(nodes, n), key) == if key == key_of(n) {
            Some(n)
        } else {
            cached(nodes, key)
        },
{
    let name = key_of(n);
    let v2 = insert_node(nodes, n);
    lemma_node_index(nodes, name);
    lemma_node_index(nodes, key);
    lemma_insert_unique(nodes, n);
    lemma_node_index(v2, key);
    let k = match node_index(nodes, name) {
        Some(i) => i,
        None => nodes.len() as int,
    };
    assert(v2[k] == n);
    lemma_node_index_unique(v2, k);
    if key != name {
        match node_index(nodes, key) {
            Some(i) => {
                assert(v2[i] == nodes[i]);
                lemma_node_index_unique(v2, i);
            },
            None => {
                if let Some(j) = node_index(v2, key) {
                    if j != k {
                        assert(v2[j] == nodes[j]);
                    }
                }
            },
        }
    }
}

/// The cache that start-up builds holds, under each name, the last of the
/// listed Nodes with that name, and nothing else: a Node without a name is
/// left out, and no two cached Nodes share a name.
pub proof fn law_initial_cache(ns: Seq<NodeView>, name: Seq<char>)
    ensures
        cached(initial_nodes(ns), name) == last_named(ns, name),
        unique_names(initial_nodes(ns)),
    decreases ns.len(),
{
    lemma_initial_unique(ns);
    if ns.len() > 0 {
        let prev = ns.drop_last();
        law_initial_cache(prev, name);
        if ns.last().name is Some {
            lemma_cached_insert(initial_nodes(prev), ns.last(), name);
        }
    } else {
        lemma_node_index(initial_nodes(ns), name);
    }
}

/// An added or modified remote Node with a name is reconciled against the
/// local Node at once when the local Node is cached, whether or not the Node
/// was cached before: after the removal of a stale route, if any, the commands
/// are exactly those of reconciling it. A Node that was not cached before has
/// no stale route, so its reconciliation comes first.
pub proof fn law_remote_event_reconciles_node(v: NodeRoutesView, n: NodeView, log: Seq<Exchange>, s: int)
    requires
        unique_names(v.nodes),
        key_of(n).len() > 0,
        key_of(n) != v.local_node_name,
        cached(v.nodes, v.local_node_name) is Some,
    ensures
        ({
            let local = cached(v.nodes, v.local_node_name)->0;
            let v2 = NodeRoutesView { nodes: insert_node(v.nodes, n), ..v };
            let after_delete = match stale_route(v, n) {
                Some(prev) => protocol::delete_route_protocol(prev, log, s),
                None => Some(s),
            };
            &&& applied_protocol(v, n, log, s) == match after_delete {
                None => None,
                Some(m) => match protocol::reconcile_protocol(local, n, v.label, log, m) {
                    Some((_, e)) => Some((v2, e)),
                    None => None,
                },
            }
            &&& cached(v.nodes, key_of(n)) is None ==> applied_protocol(v, n, log, s) == match protocol::reconcile_protocol(
                local,
                n,
                v.label,
                log,
                s,
            ) {
                Some((_, e)) => Some((v2, e)),
                None => None,
            }
        }),
{
    let name = key_of(n);
    assert(n.name == Some(name));
    lemma_cached_insert(v.nodes, n, v.local_node_name);
}

/// Start-up reconciles every known Node against the cached Node whose name is
/// the local Node's name, wherever it stands in the cache; reconciling that
/// Node against itself issues no command, so no route to the local PodCIDR is
/// installed.
pub proof fn law_startup_reconciles_against_local_node(v: NodeRoutesView, log: Seq<Exchange>, s: int, m: int)
    requires
        cached(v.nodes, v.local_node_name) is Some,
    ensures
        ({
            let local = cached(v.nodes, v.local_node_name)->0;
            &&& local.name == Some(v.local_node_name)
            &&& reconcile_all_protocol(v, log, s) == match reconcile_each_protocol(
                local,
                v.nodes,
                v.label,
                log,
                s,
            ) {
                Some(e) => Some((Ok::<(), IoErrorView>(()), e)),
                None => None,
            }
            &&& protocol::reconcile_protocol(local, local, v.label, log, m) == Some(
                (Ok::<(), IoErrorView>(()), m),
            )
        }),
{
    lemma_node_index(v.nodes, v.local_node_name);
}

/// When a cached remote Node comes back with another PodCIDR, the route to
/// the PodCIDR it had is removed first, with its tunnel, before anything else.
pub proof fn law_changed_pod_cidr_removes_old_route(v: NodeRoutesView, n: NodeView, log: Seq<Exchange>, s: int)
    requires
        key_of(n).len() > 0,
        key_of(n) != v.local_node_name,
        cached(v.nodes, key_of(n)) matches Some(p) && p.pod_cidr is Some && p.pod_cidr != n.pod_cidr,
        applied_protocol(v, n, log, s) is Some,
    ensures
        ({
            let p = cached(v.nodes, key_of(n))->0;
            &&& protocol::ran(log, s, protocol::route_del_cmd(p.pod_cidr->0)) is Some
            &&& protocol::delete_route_protocol(p, log, s) matches Some(m) && m <= (applied_protocol(
                v,
                n,
                log,
                s,
            )->0).1
        }),
{
    let p = cached(v.nodes, key_of(n))->0;
    assert(stale_route(v, n) == Some(p));
    let m = protocol::delete_route_protocol(p, log, s)->0;
    let v2 = NodeRoutesView { nodes: insert_node(v.nodes, n), ..v };
    if let Some(local) = cached(v2.nodes, v.local_node_name) {
        protocol::lemma_reconcile_end(local, n, v.label, log, m);
    }
}

/// A repeated event for a remote Node that is cached unchanged only reconciles
/// it again, once the local Node is known: it removes no route and leaves the
/// cache as it was.
pub proof fn law_repeated_event_only_reconciles_again(
    v: NodeRoutesView,
    n: NodeView,
    log: Seq<Exchange>,
    s: int,
)
    requires
        unique_names(v.nodes),
        key_of(n).len() > 0,
        key_of(n) != v.local_node_name,
        cached(v.nodes, key_of(n)) == Some(n),
    ensures
        applied_protocol(v, n, log, s) == match cached(v.nodes, v.local_node_name) {
            None => Some((v, s)),
            Some(local) => match protocol::reconcile_protocol(local, n, v.label, log, s) {
                Some((_, e)) => Some((v, e)),
                None => None,
            },
        },
{
    let name = key_of(n);
    lemma_node_index(v.nodes, name);
    let i = node_index(v.nodes, name)->0;
    assert(v.nodes.update(i, n) =~= v.nodes);
    assert(stale_route(v, n) is None);
    assert(NodeRoutesView { nodes: insert_node(v.nodes, n), ..v } == v);
}

/// An event for the local Node reconciles every cached Node, the local Node
/// among them, against the local Node as it came; no route is removed first.
pub proof fn law_local_update_reconciles_every_peer(
    v: NodeRoutesView,
    n: NodeView,
    log: Seq<Exchange>,
    s: int,
)
    requires
        unique_names(v.nodes),
        key_of(n).len() > 0,
        key_of(n) == v.local_node_name,
    ensures
        ({
            let v2 = NodeRoutesView { nodes: insert_node(v.nodes, n), ..v };
            applied_protocol(v, n, log, s) == match reconcile_each_protocol(n, v2.nodes, v.label, log, s) {
                Some(e) => Some((v2, e)),
                None => None,
            }
        }),
{
    let name = key_of(n);
    assert(n.name == Some(name));
    let nodes2 = insert_node(v.nodes, n);
    lemma_node_index(v.nodes, name);
    lemma_insert_unique(v.nodes, n);
    let k = match node_index(v.nodes, name) {
        Some(i) => i,
        None => v.nodes.len() as int,
    };
    assert(nodes2[k] == n);
    lemma_node_index_unique(nodes2, k);
    assert(cached(nodes2, v.local_node_name) == Some(n));
}

/// Start-up without the local Node among the known Nodes issues no command and
/// fails with `NotFound`, naming the local Node.
pub proof fn law_startup_needs_local_node(v: NodeRoutesView, log: Seq<Exchange>, s: int)
    requires
        cached(v.nodes, v.local_node_name) is None,
    ensures
        reconcile_all_protocol(v, log, s) == Some(
            (Err::<(), IoErrorView>(missing_local_error(v.local_node_name)), s),
        ),
        missing_local_error(v.local_node_name).kind == IoErrorKind::NotFound,
{
}

/// Deleting the local Node issues no command, so the local PodCIDR's route
/// stays; the Node just leaves the cache.
pub proof fn law_local_node_deletion_issues_no_command(
    v: NodeRoutesView,
    n: NodeView,
    log: Seq<Exchange>,
    s: int,
)
    requires
        key_of(n) == v.local_node_name,
    ensures
        event_protocol(v, NodeEventView::Deleted(n), log, s) == Some(
            (NodeRoutesView { nodes: remove_node(v.nodes, key_of(n)), ..v }, s),
        ),
{
}

/// Bookmarks and watch errors change neither the cache nor the routes.
pub proof fn law_bookmark_and_error_change_nothing(
    v: NodeRoutesView,
    status: Seq<char>,
    log: Seq<Exchange>,
    s: int,
)
    ensures
        event_protocol(v, NodeEventView::Bookmark, log, s) == Some((v, s)),
        event_protocol(v, NodeEventView::Error(status), log, s) == Some((v, s)),
{
}

/// An added or modified Node without a name changes neither the cache nor the
/// routes.
pub proof fn law_unnamed_node_event_changes_nothing(
    v: NodeRoutesView,
    n: NodeView,
    log: Seq<Exchange>,
    s: int,
)
    requires
        key_of(n).len() == 0,
    ensures
        event_protocol(v, NodeEventView::Added(n), log, s) == Some((v, s)),
        event_protocol(v, NodeEventView::Modified(n), log, s) == Some((v, s)),
{
}

/// Until the local Node is known, a remote Node's event reconciles nothing:
/// at most the route of its previous PodCIDR is removed.
pub proof fn law_peers_wait_for_local_node(v: NodeRoutesView, n: NodeView, log: Seq<Exchange>, s: int)
    requires
        unique_names(v.nodes),
        key_of(n).len() > 0,
        key_of(n) != v.local_node_name,
        cached(v.nodes, v.local_node_name) is None,
    ensures
        applied_protocol(v, n, log, s) == match stale_route(v, n) {
            Some(prev) => match protocol::delete_route_protocol(prev, log, s) {
                Some(e) => Some((NodeRoutesView { nodes: insert_node(v.nodes, n), ..v }, e)),
                None => None,
            },
            None => Some((NodeRoutesView { nodes: insert_node(v.nodes, n), ..v }, s)),
        },
{
    let name = key_of(n);
    assert(n.name == Some(name));
    let nodes2 = insert_node(v.nodes, n);
    lemma_node_index(v.nodes, name);
    lemma_node_index(v.nodes, v.local_node_name);
    lemma_node_index(nodes2, v.local_node_name);
    if let Some(j) = node_index(nodes2, v.local_node_name) {
        let k = match node_index(v.nodes, name) {
            Some(i) => i,
            None => v.nodes.len() as int,
        };
        if j != k {
            assert(nodes2[j] == v.nodes[j]);
        }
    }
}

impl NodeRoutes {
    /// Every known Node has a name, and no two share one.
    pub closed spec fn wf(&self) -> bool {
        unique_names(nodes_view(self.known_nodes@))
    }

    /// A cache of the named Nodes among `nodes`; a later Node replaces an
    /// earlier one of the same name.
    pub fn new(local_node_name: String, config: RouteConfig, nodes: Vec<Node>) -> (r: Self)
        ensures
            r.wf(),
            r@ == (NodeRoutesView {
                local_node_name: local_node_name@,
                label: config@,
                nodes: initial_nodes(nodes_view(nodes@)),
            }),
    {
        let ghost all = nodes_view(nodes@);
        let mut routes = NodeRoutes { local_node_name, config, known_nodes: Vec::new() };
        let mut nodes = nodes;
        // Take the Nodes in their order.
        let n = nodes.len();
        let mut i: usize = 0;
        assert(all.take(0) =~= Seq::<NodeView>::empty());
        while i < n
            invariant
                n == all.len(),
                i <= n,
                nodes_view(nodes@) == all.skip(i as int),
                routes.local_node_name@ == local_node_name@,
                routes.config@ == config@,
                nodes_view(routes.known_nodes@) == initial_nodes(all.take(i as int)),
                unique_names(nodes_view(routes.known_nodes@)),
            decreases n - i,
        {
            let ghost prev = nodes@;
            assert(nodes_view(prev).len() == prev.len());
            let node = nodes.remove(0);
            proof {
                assert(nodes_view(prev)[0] == node@);
                assert(nodes_view(nodes@) =~= nodes_view(prev).drop_first());
                assert(nodes_view(nodes@) =~= all.skip(i + 1));
                assert(all.take(i + 1).drop_last() =~= all.take(i as int));
                assert(all.take(i + 1).last() == node@);
            }
            routes.store(node);
            i = i + 1;
        }
        assert(all.take(n as int) =~= all);
        routes
    }

    /// The index of the Node named `name`.
    fn find(&self, name: &str) -> (r: Option<usize>)
        requires
            self.wf(),
        ensures
            match r {
                Some(i) => node_index(self@.nodes, name@) == Some(i as int),
                None => node_index(self@.nodes, name@) is None,
            },
    {
        let ghost all = nodes_view(self.known_nodes@);
        let mut i: usize = self.known_nodes.len();
        assert(all.take(i as int) =~= all);
        while i > 0
            invariant
                i <= self.known_nodes.len(),
                all == nodes_view(self.known_nodes@),
                node_index(all, name@) == node_index(all.take(i as int), name@),
            decreases i,
        {
            let ghost pre = all.take(i as int);
            assert(pre.last() == self.known_nodes@[i - 1]@);
            let hit = match &self.known_nodes[i - 1].name {
                Some(x) => text::str_eq(x.as_str(), name),
                None => false,
            };
            if hit {
                return Some(i - 1);
            }
            assert(pre.drop_last() =~= all.take(i - 1));
            i = i - 1;
        }
        None
    }

    /// Stores a named Node, replacing the Node of the same name.
    fn store(&mut self, node: Node)
        requires
            old(self).wf(),
        ensures
            final(self).wf(),
            node@.name is Some ==> final(self)@ == (NodeRoutesView {
                nodes: insert_node(old(self)@.nodes, node@),
                ..old(self)@
            }),
            node@.name is None ==> final(self)@ == old(self)@,
    {
        let name = match &node.name {
            Some(x) => x.clone(),
            None => return,
        };
        let found = self.find(name.as_str());
        proof {
            lemma_node_index(self@.nodes, name@);
            lemma_insert_unique(self@.nodes, node@);
        }
        match found {
            Some(i) => {
                self.known_nodes.set(i, node);
            },
            None => {
                self.known_nodes.push(node);
            },
        }
        assert(nodes_view(self.known_nodes@) =~= insert_node(old(self)@.nodes, node@));
    }

    /// Drops the Node named `name`.
    fn forget(&mut self, name: &str)
        requires
            old(self).wf(),
        ensures
            final(self).wf(),
            final(self)@ == (NodeRoutesView {
                nodes: remove_node(old(self)@.nodes, name@),
                ..old(self)@
            }),
    {
        let found = self.find(name);
        proof {
            lemma_node_index(self@.nodes, name@);
            lemma_remove_unique(self@.nodes, name@);
        }
        if let Some(i) = found {
            self.known_nodes.remove(i);
        }
        assert(nodes_view(self.known_nodes@) =~= remove_node(old(self)@.nodes, name@));
    }

    /// Reconciles every known Node against the Node at `local_index`.
    fn reconcile_each<T: IpCommandExecutor>(&self, local_index: usize, executor: &mut LoggedExecutor<T>)
        requires
            local_index < self@.nodes.len(),
        ensures
            protocol::extends(final(executor).history(), old(executor).history()),
            final(executor).continues(*old(executor)),
            reconcile_each_protocol(
                self@.nodes[local_index as int],
                self@.nodes,
                self@.label,
                final(executor).history(),
                old(executor).history().len() as int,
            ) == Some(final(executor).history().len() as int),
    {
        let ghost h0 = executor.history();
        let ghost e0 = *executor;
        let ghost local = self@.nodes[local_index as int];
        let ghost all = self@.nodes;
        assert(protocol::extends(h0, h0));
        assert(all.take(0) =~= Seq::<NodeView>::empty());
        let mut i: usize = 0;
        while i < self.known_nodes.len()
            invariant
                i <= self.known_nodes.len(),
                local_index < self.known_nodes.len(),
                all == self@.nodes,
                all == nodes_view(self.known_nodes@),
                local == all[local_index as int],
                protocol::extends(executor.history(), h0),
                executor.continues(e0),
                reconcile_each_protocol(local, all.take(i as int), self@.label, executor.history(), h0.len() as int)
                    == Some(executor.history().len() as int),
            decreases self.known_nodes.len() - i,
        {
            let ghost h1 = executor.history();
            let _ = reconcile_route_with_executor(
                &self.known_nodes[local_index],
                &self.known_nodes[i],
                &self.config,
                executor,
            );
            proof {
                let h2 = executor.history();
                protocol::lemma_extends_trans(h2, h1, h0);
                lemma_reconcile_each_stable(local, all.take(i as int), self@.label, h2, h1, h0.len() as int);
                assert(all.take(i + 1).drop_last() =~= all.take(i as int));
                assert(all.take(i + 1).last() == all[i as int]);
            }
            i = i + 1;
        }
        assert(all.take(self.known_nodes.len() as int) =~= all);
    }

    /// Reconciles every known Node against the local Node. Without the local
    /// Node it issues no command and returns a `NotFound` error.
    pub fn reconcile_all<T: IpCommandExecutor>(&self, executor: &mut LoggedExecutor<T>) -> (r: Result<(), IoError>)
        requires
            self.wf(),
        ensures
            protocol::extends(final(executor).history(), old(executor).history()),
            final(executor).continues(*old(executor)),
            reconcile_all_protocol(
                self@,
                final(executor).history(),
                old(executor).history().len() as int,
            ) == Some((executor::unit_reply(r), final(executor).history().len() as int)),
    {
        let found = self.find(self.local_node_name.as_str());
        proof {
            lemma_node_index(self@.nodes, self@.local_node_name);
        }
        match found {
            None => {
                proof {
                    reveal_strlit("local Kubernetes node ");
                    reveal_strlit(" was not found");
                }
                let mut message = "local Kubernetes node ".to_owned();
                message.append(self.local_node_name.as_str());
                message.append(" was not found");
                assert(protocol::extends(executor.history(), executor.history()));
                Err(IoError { kind: IoErrorKind::NotFound, message })
            },
            Some(i) => {
                self.reconcile_each(i, executor);
                Ok(())
            },
        }
    }

    /// Applies one watch event to the cache and the host routes.
    pub fn handle_event<T: IpCommandExecutor>(&mut self, event: NodeEvent, executor: &mut LoggedExecutor<T>)
        requires
            old(self).wf(),
        ensures
            final(self).wf(),
            protocol::extends(final(executor).history(), old(executor).history()),
            final(executor).continues(*old(executor)),
            event_protocol(
                old(self)@,
                event@,
                final(executor).history(),
                old(executor).history().len() as int,
            ) == Some((final(self)@, final(executor).history().len() as int)),
    {
        let ghost h0 = executor.history();
        assert(protocol::extends(h0, h0));
        match event {
            NodeEvent::Added(node) => self.apply(node, executor),
            NodeEvent::Modified(node) => self.apply(node, executor),
            NodeEvent::Deleted(node) => {
                let node_name = match &node.name {
                    Some(x) => x.clone(),
                    None => String::new(),
                };
                self.forget(node_name.as_str());
                if !text::str_eq(node_name.as_str(), self.local_node_name.as_str()) {
                    delete_route_with_executor(node, executor);
                }
            },
            NodeEvent::Bookmark => {},
            NodeEvent::Error(_) => {},
        }
    }

    /// An added or modified Node.
    fn apply<T: IpCommandExecutor>(&mut self, node: Node, executor: &mut LoggedExecutor<T>)
        requires
            old(self).wf(),
        ensures
            final(self).wf(),
            protocol::extends(final(executor).history(), old(executor).history()),
            final(executor).continues(*old(executor)),
            applied_protocol(
                old(self)@,
                node@,
                final(executor).history(),
                old(executor).history().len() as int,
            ) == Some((final(self)@, final(executor).history().len() as int)),
    {
        let ghost h0 = executor.history();
        let ghost v0 = self@;
        assert(protocol::extends(h0, h0));
        let node_name = match &node.name {
            Some(x) => x.clone(),
            None => String::new(),
        };
        if node_name.as_str().is_empty() {
            return;
        }
        let previous = self.find(node_name.as_str());
        proof {
            lemma_node_index(self@.nodes, node_name@);
        }
        if let Some(p) = previous {
            let is_local = text::str_eq(node_name.as_str(), self.local_node_name.as_str());
            let changed = !opt_str_eq(&self.known_nodes[p].pod_cidr, &node.pod_cidr);
            if !is_local && changed && self.known_nodes[p].pod_cidr.is_some() {
                let stale = self.known_nodes[p].clone();
                delete_route_with_executor(stale, executor);
            }
        }
        let ghost h1 = executor.history();
        let ghost event_node = node@;
        let ghost k = match node_index(v0.nodes, node_name@) {
            Some(i) => i,
            None => v0.nodes.len() as int,
        };
        self.store(node);
        assert(self@.nodes[k] == event_node);
        let local = self.find(self.local_node_name.as_str());
        proof {
            lemma_node_index(self@.nodes, self@.local_node_name);
        }
        let li = match local {
            Some(li) => li,
            None => return,
        };
        if text::str_eq(node_name.as_str(), self.local_node_name.as_str()) {
            self.reconcile_each(li, executor);
            proof {
                protocol::lemma_extends_trans(executor.history(), h1, h0);
                if let Some(prev) = stale_route(v0, event_node) {
                    protocol::lemma_delete_route_stable(prev, executor.history(), h1, h0.len() as int);
                }
            }
        } else {
            let index = self.find(node_name.as_str());
            proof {
                lemma_node_index(self@.nodes, node_name@);
                lemma_node_index_unique(self@.nodes, k);
            }
            let ni = match index {
                Some(ni) => ni,
                None => return,
            };
            let _ = reconcile_route_with_executor(
                &self.known_nodes[li],
                &self.known_nodes[ni],
                &self.config,
                executor,
            );
            proof {
                protocol::lemma_extends_trans(executor.history(), h1, h0);
                if let Some(prev) = stale_route(v0, event_node) {
                    protocol::lemma_delete_route_stable(prev, executor.history(), h1, h0.len() as int);
                }
            }
        }
    }
}

} // verus!
