# cilium_ipip_router

A node-local router for Cilium: it watches Kubernetes Nodes and keeps one
kernel route per remote PodCIDR. Nodes in the same configured group whose
InternalIPs share the local interface subnet get a direct next-hop route; all
other Nodes are reached through a per-Node IPIP tunnel.

The library in `src/` is verified with Verus:

- `ipip/text.rs`, `ipip/address.rs`: whitespace, lines and fields; IPv4
  parsing, subnet comparison, and the local prefix in `ip -o -4 addr show`.
- `ipip/node.rs`: the parts of a Node that routing reads (name, labels,
  PodCIDR, addresses) and the rules that pick an address and a group.
- `ipip/tunnel.rs`: tunnel names from the MD5 digest of the Node name.
- `ipip/protocol.rs`: each routing operation as a protocol over the log of
  `ip` commands and their replies.
- `ipip/executor.rs`: the routing operations; each one states, over the
  executor's log, exactly which commands it issues and what it concludes.
- `ipip/laws.rs`: properties of route selection and naming.
- `controller/node_routes.rs`: the Node cache and watch-event handling, with
  its own protocol and laws.
- `test_support.rs`: a model host network that answers `ip` as Linux would,
  and laws on what routing leaves on it.

`app/` holds what runs on a host: the `ip` command, the Kubernetes list and
watch, the controller task, the health endpoint and signal handling.
