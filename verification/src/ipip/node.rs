//! The parts of a Kubernetes Node that routing reads.
use crate::ipip::text;
use vstd::prelude::*;

verus! {

/// One entry of a Node's `status.addresses`.
#[derive(Debug)]
pub struct NodeAddress {
    pub type_: String,
    pub address: String,
}

pub ghost struct NodeAddressView {
    pub type_: Seq<char>,
    pub address: Seq<char>,
}

impl View for NodeAddress {
    type V = NodeAddressView;

    open spec fn view(&self) -> NodeAddressView {
        NodeAddressView { type_: self.type_@, address: self.address@ }
    }
}

impl Clone for NodeAddress {
    fn clone(&self) -> (r: Self)
        ensures
            r@ == self@,
    {
        NodeAddress { type_: self.type_.clone(), address: self.address.clone() }
    }
}

/// A Kubernetes Node as routing sees it: `metadata.name`,
/// `metadata.generateName`, `metadata.labels`, `spec.podCIDR` and
/// `status.addresses`. A Node without `spec` has no PodCIDR, and one without
/// `status` has no addresses.
#[derive(Debug)]
pub struct Node {
    pub name: Option<String>,
    pub generate_name: Option<String>,
    pub labels: Vec<(String, String)>,
    pub pod_cidr: Option<String>,
    pub addresses: Option<Vec<NodeAddress>>,
}

pub ghost struct NodeView {
    pub name: Option<Seq<char>>,
    pub generate_name: Option<Seq<char>>,
    pub labels: Seq<(Seq<char>, Seq<char>)>,
    pub pod_cidr: Option<Seq<char>>,
    pub addresses: Option<Seq<NodeAddressView>>,
}

pub open spec fn opt_view(o: Option<String>) -> Option<Seq<char>> {
    match o {
        Some(s) => Some(s@),
        None => None,
    }
}

pub open spec fn labels_view(l: Seq<(String, String)>) -> Seq<(Seq<char>, Seq<char>)> {
    l.map_values(|p: (String, String)| (p.0@, p.1@))
}

pub open spec fn addresses_view(a: Seq<NodeAddress>) -> Seq<NodeAddressView> {
    a.map_values(|x: NodeAddress| x@)
}

impl View for Node {
    type V = NodeView;

    open spec fn view(&self) -> NodeView {
        NodeView {
            name: opt_view(self.name),
            generate_name: opt_view(self.generate_name),
            labels: labels_view(self.labels@),
            pod_cidr: opt_view(self.pod_cidr),
            addresses: match self.addresses {
                Some(a) => Some(addresses_view(a@)),
                None => None,
            },
        }
    }
}

impl Default for Node {
    /// A Node with no name, no labels, no `spec` and no `status`.
    fn default() -> (r: Self)
        ensures
            r@ == (NodeView {
                name: None,
                generate_name: None,
                labels: Seq::empty(),
                pod_cidr: None,
                addresses: None,
            }),
    {
        let r = Node { name: None, generate_name: None, labels: Vec::new(), pod_cidr: None, addresses: None };
        assert(labels_view(r.labels@) =~= Seq::<(Seq<char>, Seq<char>)>::empty());
        r
    }
}

pub fn clone_opt_string(o: &Option<String>) -> (r: Option<String>)
    ensures
        r == *o,
        opt_view(r) == opt_view(*o),
{
    match o {
        Some(s) => Some(s.clone()),
        None => None,
    }
}

fn clone_labels(l: &Vec<(String, String)>) -> (r: Vec<(String, String)>)
    ensures
        labels_view(r@) == labels_view(l@),
{
    let mut r: Vec<(String, String)> = Vec::new();
    for i in 0..l.len()
        invariant
            r@.len() == i,
            forall|k: int| 0 <= k < i ==> #[trigger] r@[k] == l@[k],
    {
        r.push((l[i].0.clone(), l[i].1.clone()));
    }
    assert(r@ =~= l@);
    r
}

fn clone_addresses(a: &Vec<NodeAddress>) -> (r: Vec<NodeAddress>)
    ensures
        addresses_view(r@) == addresses_view(a@),
{
    let mut r: Vec<NodeAddress> = Vec::new();
    for i in 0..a.len()
        invariant
            r@.len() == i,
            forall|k: int| 0 <= k < i ==> (#[trigger] r@[k])@ == a@[k]@,
    {
        r.push(a[i].clone());
    }
    assert(addresses_view(r@) =~= addresses_view(a@));
    r
}

impl Clone for Node {
    fn clone(&self) -> (r: Self)
        ensures
            r@ == self@,
    {
        Node {
            name: clone_opt_string(&self.name),
            generate_name: clone_opt_string(&self.generate_name),
            labels: clone_labels(&self.labels),
            pod_cidr: clone_opt_string(&self.pod_cidr),
            addresses: match &self.addresses {
                Some(a) => Some(clone_addresses(a)),
                None => None,
            },
        }
    }
}

/// The address of the first entry of type `ty`.
pub open spec fn first_address(addrs: Seq<NodeAddressView>, ty: Seq<char>) -> Option<Seq<char>>
    decreases addrs.len(),
{
    if addrs.len() == 0 {
        None
    } else if addrs[0].type_ == ty {
        Some(addrs[0].address)
    } else {
        first_address(addrs.drop_first(), ty)
    }
}

/// The Node's first `InternalIP`.
pub open spec fn internal_ip(n: NodeView) -> Option<Seq<char>> {
    match n.addresses {
        Some(a) => first_address(a, "InternalIP"@),
        None => None,
    }
}

/// The Node's first `InternalIP`, or else its first `ExternalIP`.
pub open spec fn node_ip(n: NodeView) -> Option<Seq<char>> {
    match n.addresses {
        Some(a) => match first_address(a, "InternalIP"@) {
            Some(ip) => Some(ip),
            None => first_address(a, "ExternalIP"@),
        },
        None => None,
    }
}

/// The address of the first entry whose type is `ExternalIP` or `InternalIP`,
/// whichever comes first in the list.
pub open spec fn first_node_address(addrs: Seq<NodeAddressView>) -> Option<Seq<char>>
    decreases addrs.len(),
{
    if addrs.len() == 0 {
        None
    } else if addrs[0].type_ == "ExternalIP"@ || addrs[0].type_ == "InternalIP"@ {
        Some(addrs[0].address)
    } else {
        first_node_address(addrs.drop_first())
    }
}

/// The Node's first address of type `ExternalIP` or `InternalIP`, in list
/// order.
pub open spec fn node_ip_any_order(n: NodeView) -> Option<Seq<char>> {
    match n.addresses {
        Some(a) => first_node_address(a),
        None => None,
    }
}

/// `ResourceExt::name_any`: the name, else the generated-name prefix, else
/// the empty string.
pub open spec fn name_any(n: NodeView) -> Seq<char> {
    match n.name {
        Some(x) => x,
        None => match n.generate_name {
            Some(g) => g,
            None => Seq::empty(),
        },
    }
}

/// The value of the first label with the given key.
pub open spec fn label_value(labels: Seq<(Seq<char>, Seq<char>)>, key: Seq<char>) -> Option<
    Seq<char>,
>
    decreases labels.len(),
{
    if labels.len() == 0 {
        None
    } else if labels[0].0 == key {
        Some(labels[0].1)
    } else {
        label_value(labels.drop_first(), key)
    }
}

/// No two labels share a key, as in the map that Kubernetes keeps them in.
pub open spec fn unique_label_keys(labels: Seq<(Seq<char>, Seq<char>)>) -> bool {
    forall|i: int, j: int| 0 <= i < j < labels.len() ==> (#[trigger] labels[i]).0 != (#[trigger] labels[j]).0
}

/// Labels with unique keys read as a map: the value under a key is the value
/// of the one label with that key.
pub proof fn law_unique_labels_read_as_map(labels: Seq<(Seq<char>, Seq<char>)>, key: Seq<char>, value: Seq<char>)
    requires
        unique_label_keys(labels),
    ensures
        label_value(labels, key) == Some(value) <==> exists|i: int|
            0 <= i < labels.len() && #[trigger] labels[i] == (key, value),
    decreases labels.len(),
{
    if labels.len() > 0 {
        let t = labels.drop_first();
        assert(unique_label_keys(t)) by {
            assert forall|i: int, j: int| 0 <= i < j < t.len() implies (#[trigger] t[i]).0 != (#[trigger] t[j]).0 by {
                assert(t[i] == labels[i + 1] && t[j] == labels[j + 1]);
            }
        }
        law_unique_labels_read_as_map(t, key, value);
        if labels[0].0 == key {
            if exists|i: int| 0 <= i < labels.len() && #[trigger] labels[i] == (key, value) {
                let i = choose|i: int| 0 <= i < labels.len() && #[trigger] labels[i] == (key, value);
                if i > 0 {
                    assert(labels[0].0 != labels[i].0);
                }
            }
        } else {
            if exists|i: int| 0 <= i < labels.len() && #[trigger] labels[i] == (key, value) {
                let i = choose|i: int| 0 <= i < labels.len() && #[trigger] labels[i] == (key, value);
                assert(i > 0);
                assert(t[i - 1] == labels[i]);
            }
            if exists|i: int| 0 <= i < t.len() && #[trigger] t[i] == (key, value) {
                let i = choose|i: int| 0 <= i < t.len() && #[trigger] t[i] == (key, value);
                assert(labels[i + 1] == t[i]);
            }
        }
    }
}

/// The Node's group under a label key: the label's value when it is not empty.
pub open spec fn node_group(n: NodeView, key: Seq<char>) -> Option<Seq<char>> {
    match label_value(n.labels, key) {
        Some(v) => if v.len() > 0 {
            Some(v)
        } else {
            None
        },
        None => None,
    }
}

/// Two Nodes are in one group when both have the same group, or neither has one.
pub open spec fn same_group(a: Option<Seq<char>>, b: Option<Seq<char>>) -> bool {
    match (a, b) {
        (Some(x), Some(y)) => x == y,
        (None, None) => true,
        _ => false,
    }
}

fn find_address(addrs: &Vec<NodeAddress>, ty: &str) -> (r: Option<String>)
    ensures
        opt_view(r) == first_address(addresses_view(addrs@), ty@),
{
    let ghost all = addresses_view(addrs@);
    let mut i: usize = 0;
    assert(all.skip(0) =~= all);
    while i < addrs.len()
        invariant
            i <= addrs.len(),
            all == addresses_view(addrs@),
            first_address(all, ty@) == first_address(all.skip(i as int), ty@),
        decreases addrs.len() - i,
    {
        let ghost rest = all.skip(i as int);
        assert(rest[0] == addrs@[i as int]@);
        if text::str_eq(addrs[i].type_.as_str(), ty) {
            return Some(addrs[i].address.clone());
        }
        assert(rest.drop_first() =~= all.skip(i + 1));
        i = i + 1;
    }
    assert(all.skip(i as int).len() == 0);
    None
}

/// The Node's first `InternalIP`.
pub fn get_node_internal_ip(node: &Node) -> (r: Option<String>)
    ensures
        opt_view(r) == internal_ip(node@),
{
    match &node.addresses {
        Some(a) => find_address(a, "InternalIP"),
        None => None,
    }
}

/// The Node's address for tunnel endpoints and next hops: its first
/// `InternalIP`, or else its first `ExternalIP`.
pub fn get_node_ip(node: &Node) -> (r: Option<String>)
    ensures
        opt_view(r) == node_ip(node@),
{
    match &node.addresses {
        Some(a) => match find_address(a, "InternalIP") {
            Some(ip) => Some(ip),
            None => find_address(a, "ExternalIP"),
        },
        None => None,
    }
}

/// The Node's first address of type `ExternalIP` or `InternalIP`, whichever
/// comes first.
pub fn get_node_ip_any_order(node: &Node) -> (r: Option<String>)
    ensures
        opt_view(r) == node_ip_any_order(node@),
{
    let addrs = match &node.addresses {
        Some(a) => a,
        None => return None,
    };
    let ghost all = addresses_view(addrs@);
    let mut i: usize = 0;
    assert(all.skip(0) =~= all);
    while i < addrs.len()
        invariant
            i <= addrs.len(),
            all == addresses_view(addrs@),
            node@.addresses == Some(all),
            first_node_address(all) == first_node_address(all.skip(i as int)),
        decreases addrs.len() - i,
    {
        let ghost rest = all.skip(i as int);
        assert(rest[0] == addrs@[i as int]@);
        let external = text::str_eq(addrs[i].type_.as_str(), "ExternalIP");
        let internal = text::str_eq(addrs[i].type_.as_str(), "InternalIP");
        if external || internal {
            let a = addrs[i].address.clone();
            assert(first_node_address(rest) == Some(rest[0].address));
            return Some(a);
        }
        assert(rest.drop_first() =~= all.skip(i + 1));
        i = i + 1;
    }
    assert(all.skip(i as int).len() == 0);
    None
}

/// The Node's PodCIDR.
pub fn get_node_cidr(node: &Node) -> (r: Option<String>)
    ensures
        opt_view(r) == node@.pod_cidr,
{
    clone_opt_string(&node.pod_cidr)
}

impl Node {
    /// The Node's name, else its generated-name prefix, else the empty string.
    pub fn name_any(&self) -> (r: String)
        ensures
            r@ == name_any(self@),
    {
        match &self.name {
            Some(n) => n.clone(),
            None => match &self.generate_name {
                Some(g) => g.clone(),
                None => String::new(),
            },
        }
    }
}

/// The Node's group under the label key `key`.
pub fn get_node_group(node: &Node, key: &str) -> (r: Option<String>)
    ensures
        opt_view(r) == node_group(node@, key@),
{
    let ghost all = labels_view(node.labels@);
    let mut i: usize = 0;
    assert(all.skip(0) =~= all);
    while i < node.labels.len()
        invariant
            i <= node.labels.len(),
            all == labels_view(node.labels@),
            label_value(all, key@) == label_value(all.skip(i as int), key@),
        decreases node.labels.len() - i,
    {
        let ghost rest = all.skip(i as int);
        assert(rest[0] == (node.labels@[i as int].0@, node.labels@[i as int].1@));
        if text::str_eq(node.labels[i].0.as_str(), key) {
            let v = &node.labels[i].1;
            if v.as_str().is_empty() {
                return None;
            }
            return Some(v.clone());
        }
        assert(rest.drop_first() =~= all.skip(i + 1));
        i = i + 1;
    }
    assert(all.skip(i as int).len() == 0);
    None
}

} // verus!
