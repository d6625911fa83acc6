//! The registry of configuration nodes and its batch protocol: nodes are
//! attached, filled from the store in one pass, read and written through
//! handles, and drained back to the store in another pass.
//!
//! Every operation borrows the registry, mutably where it changes it; tasks
//! that share a registry hold it behind one lock, and that lock is the
//! exclusion domain: a write lands wholly before or wholly after a drain, and
//! a node attached while a read pass holds the lock waits for the next pass.
//! A registry holds values of one type; each type gets its own registry.
use vstd::prelude::*;
use crate::store::Store;
use crate::value::{decode_or_default, value_from_store, ConfigValue};

verus! {

/// Why a registry operation was refused.
#[derive(Clone, Copy, Debug, PartialEq, Eq, Structural)]
pub enum ConfigError {
    /// The node is already attached.
    AlreadyAttached,
    /// Another attached node has the same key.
    DuplicateKey,
    /// The handle's node was detached since the handle was issued.
    Detached,
}

/// What is known of a node.
pub struct NodeState<T> {
    pub key: Seq<char>,
    pub linked: bool,
    pub serviced: bool,
    pub dirty: bool,
    /// Counts the node's attach cycles; a handle belongs to one cycle.
    pub cycle: u64,
    pub cached: Option<T>,
}

/// What is known of a registry: its nodes by id, and the ids of the attached
/// ones in the order they were attached.
pub struct RegistryState<T> {
    pub nodes: Seq<NodeState<T>>,
    pub order: Seq<usize>,
}

/// Issued by `attach`: it turns into a handle once the node is serviced.
#[derive(Clone, Copy, Debug, PartialEq, Eq, Structural)]
pub struct AttachTicket {
    pub node: usize,
    pub cycle: u64,
}

/// Reads and writes one attached node.
#[derive(Clone, Copy, Debug, PartialEq, Eq, Structural)]
pub struct AttachHandle {
    pub node: usize,
    pub cycle: u64,
}

pub open spec fn next_cycle(c: u64) -> u64 {
    if c == u64::MAX {
        0
    } else {
        (c + 1) as u64
    }
}

/// A node after a read pass over `store`.
pub open spec fn service_node<T: ConfigValue>(s: NodeState<T>, store: Map<Seq<char>, Seq<u8>>) -> NodeState<T> {
    if s.linked && !s.serviced {
        NodeState {
            serviced: true,
            cached: Some(
                value_from_store::<T>(
                    if store.contains_key(s.key) {
                        Some(store[s.key])
                    } else {
                        None
                    },
                ),
            ),
            ..s
        }
    } else {
        s
    }
}

/// The pairs that draining the nodes `order` yields, in that order.
pub open spec fn batch_of<T: ConfigValue>(nodes: Seq<NodeState<T>>, order: Seq<usize>) -> Seq<(Seq<char>, Seq<u8>)>
    decreases order.len(),
{
    if order.len() == 0 {
        Seq::empty()
    } else {
        let s = nodes[order.last() as int];
        batch_of(nodes, order.drop_last()) + if s.dirty && s.cached is Some {
            seq![(s.key, T::encoding(s.cached.unwrap()))]
        } else {
            Seq::empty()
        }
    }
}

/// The keys and bytes of a batch of pairs.
pub open spec fn pairs_view(s: Seq<(String, Vec<u8>)>) -> Seq<(Seq<char>, Seq<u8>)> {
    s.map_values(|p: (String, Vec<u8>)| (p.0@, p.1@))
}

impl<T: ConfigValue> RegistryState<T> {
    pub open spec fn well_formed(self) -> bool {
        &&& self.order.no_duplicates()
        &&& forall|k: int| 0 <= k < self.order.len() ==> self.order[k] < self.nodes.len()
        &&& forall|i: int|
            0 <= i < self.nodes.len() ==> (#[trigger] self.nodes[i].linked <==> self.order.contains(
                i as usize,
            ))
        &&& forall|i: int|
            0 <= i < self.nodes.len() && #[trigger] self.nodes[i].serviced ==> self.nodes[i].linked
                && self.nodes[i].cached is Some
        &&& forall|i: int|
            0 <= i < self.nodes.len() && #[trigger] self.nodes[i].dirty ==> self.nodes[i].serviced
        &&& forall|i: int, j: int|
            0 <= i < self.nodes.len() && 0 <= j < self.nodes.len() && i != j
                && #[trigger] self.nodes[i].linked && #[trigger] self.nodes[j].linked
                ==> self.nodes[i].key != self.nodes[j].key
    }

    /// Whether `attach` on node `n` is refused, and why.
    pub open spec fn attach_refusal(self, n: int) -> Option<ConfigError> {
        if self.nodes[n].linked {
            Some(ConfigError::AlreadyAttached)
        } else if exists|j: int|
            0 <= j < self.nodes.len() && #[trigger] self.nodes[j].linked && self.nodes[j].key
                == self.nodes[n].key {
            Some(ConfigError::DuplicateKey)
        } else {
            None
        }
    }

    /// The registry after node `n` is attached.
    pub open spec fn attached(self, n: int) -> Self {
        let s = self.nodes[n];
        RegistryState {
            nodes: self.nodes.update(
                n,
                NodeState { linked: true, serviced: false, dirty: false, cycle: next_cycle(s.cycle), cached: None, ..s },
            ),
            order: self.order.push(n as usize),
        }
    }

    /// The registry after a read pass over `store`.
    pub open spec fn serviced(self, store: Map<Seq<char>, Seq<u8>>) -> Self {
        RegistryState {
            nodes: Seq::new(self.nodes.len(), |i: int| service_node(self.nodes[i], store)),
            order: self.order,
        }
    }

    /// The pairs a write pass yields.
    pub open spec fn drain_batch(self) -> Seq<(Seq<char>, Seq<u8>)> {
        batch_of(self.nodes, self.order)
    }

    /// The registry after a write pass.
    pub open spec fn drained(self) -> Self {
        RegistryState {
            nodes: Seq::new(self.nodes.len(), |i: int| NodeState { dirty: false, ..self.nodes[i] }),
            order: self.order,
        }
    }

    /// Whether a handle for node `n` in cycle `c` may be used.
    pub open spec fn valid(self, n: int, c: u64) -> bool {
        0 <= n < self.nodes.len() && self.nodes[n].linked && self.nodes[n].serviced
            && self.nodes[n].cycle == c
    }

    /// The registry after `v` is written to node `n`.
    pub open spec fn written(self, n: int, v: T) -> Self {
        RegistryState {
            nodes: self.nodes.update(n, NodeState { cached: Some(v), dirty: true, ..self.nodes[n] }),
            order: self.order,
        }
    }

    /// The registry after node `n` is detached; `k` is its place in the order.
    pub open spec fn detached(self, n: int, k: int) -> Self {
        RegistryState {
            nodes: self.nodes.update(
                n,
                NodeState { linked: false, serviced: false, dirty: false, cached: None, ..self.nodes[n] },
            ),
            order: self.order.remove(k),
        }
    }
}

/// Attaching a node that `attach` does not refuse keeps a registry well
/// formed.
pub proof fn lemma_attached_well_formed<T: ConfigValue>(o: RegistryState<T>, n: int)
    requires
        o.well_formed(),
        0 <= n < o.nodes.len(),
        o.nodes.len() <= usize::MAX,
        o.attach_refusal(n) is None,
    ensures
        o.attached(n).well_formed(),
{
    let a = o.attached(n);
    assert(!o.order.contains(n as usize));
    assert forall|i: int| 0 <= i < a.nodes.len() implies (#[trigger] a.nodes[i].linked
        <==> a.order.contains(i as usize)) by {
        if i != n {
            assert(o.nodes[i].linked <==> o.order.contains(i as usize));
            if o.order.contains(i as usize) {
                let q = choose|q: int| 0 <= q < o.order.len() && o.order[q] == i as usize;
                assert(a.order[q] == i as usize);
            }
            if a.order.contains(i as usize) {
                let q = choose|q: int| 0 <= q < a.order.len() && a.order[q] == i as usize;
                assert(q < o.order.len());
                assert(o.order[q] == i as usize);
            }
        } else {
            assert(a.order[o.order.len() as int] == n as usize);
        }
    }
    assert(a.order.no_duplicates()) by {
        assert forall|x: int, y: int|
            0 <= x < a.order.len() && 0 <= y < a.order.len() && x != y implies a.order[x]
            != a.order[y] by {
            if x < o.order.len() && y < o.order.len() {
            } else if x < o.order.len() {
                assert(o.order.contains(o.order[x]));
            } else if y < o.order.len() {
                assert(o.order.contains(o.order[y]));
            }
        }
    }
    assert forall|i: int, j: int|
        0 <= i < a.nodes.len() && 0 <= j < a.nodes.len() && i != j && #[trigger] a.nodes[i].linked
            && #[trigger] a.nodes[j].linked implies a.nodes[i].key != a.nodes[j].key by {
        if i == n {
            assert(o.nodes[j].linked);
        } else if j == n {
            assert(o.nodes[i].linked);
        }
    }
}

/// A typed configuration slot, registered once with its key.
pub struct ConfigNode<T> {
    key: String,
    linked: bool,
    serviced: bool,
    dirty: bool,
    cycle: u64,
    cached: Option<T>,
}

impl<T> ConfigNode<T> {
    pub closed spec fn state(&self) -> NodeState<T> {
        NodeState {
            key: self.key@,
            linked: self.linked,
            serviced: self.serviced,
            dirty: self.dirty,
            cycle: self.cycle,
            cached: self.cached,
        }
    }
}

/// Every registered node, and the attached ones in attach order.
pub struct ConfigRegistry<T> {
    nodes: Vec<ConfigNode<T>>,
    order: Vec<usize>,
}

impl<T: ConfigValue> View for ConfigRegistry<T> {
    type V = RegistryState<T>;

    closed spec fn view(&self) -> RegistryState<T> {
        RegistryState {
            nodes: Seq::new(self.nodes@.len(), |i: int| self.nodes@[i].state()),
            order: self.order@,
        }
    }
}

impl<T: ConfigValue> ConfigRegistry<T> {
    pub open spec fn wf(&self) -> bool {
        self@.well_formed()
    }

    pub fn new() -> (r: Self)
        ensures
            r.wf(),
            r@.nodes.len() == 0,
            r@.order.len() == 0,
    {
        ConfigRegistry { nodes: Vec::new(), order: Vec::new() }
    }

    /// Registers a node under `key`; it starts detached, with no value.
    pub fn register(&mut self, key: String) -> (id: usize)
        requires
            old(self).wf(),
        ensures
            final(self).wf(),
            id == old(self)@.nodes.len(),
            final(self)@.order == old(self)@.order,
            final(self)@.nodes == old(self)@.nodes.push(
                NodeState {
                    key: key@,
                    linked: false,
                    serviced: false,
                    dirty: false,
                    cycle: 0,
                    cached: None,
                },
            ),
    {
        let id = self.nodes.len();
        self.nodes.push(
            ConfigNode { key, linked: false, serviced: false, dirty: false, cycle: 0, cached: None },
        );
        proof {
            assert(self@.nodes =~= old(self)@.nodes.push(self.nodes@[id as int].state()));
            assert forall|i: int| 0 <= i < self@.nodes.len() implies (#[trigger] self@.nodes[i].linked
                <==> self@.order.contains(i as usize)) by {
                if i == id {
                    assert(!old(self)@.order.contains(i as usize));
                }
            }
        }
        id
    }

    /// Links node `n`; the ticket turns into a handle after the next read pass.
    pub fn attach(&mut self, n: usize) -> (r: Result<AttachTicket, ConfigError>)
        requires
            old(self).wf(),
            n < old(self)@.nodes.len(),
        ensures
            final(self).wf(),
            match old(self)@.attach_refusal(n as int) {
                Some(e) => r == Err::<AttachTicket, ConfigError>(e) && final(self)@ == old(self)@,
                None => final(self)@ == old(self)@.attached(n as int) && r == Ok::<
                    AttachTicket,
                    ConfigError,
                >(AttachTicket { node: n, cycle: final(self)@.nodes[n as int].cycle }),
            },
    {
        let _ = self.nodes.len();
        if self.nodes[n].linked {
            return Err(ConfigError::AlreadyAttached);
        }
        let mut k: usize = 0;
        while k < self.order.len()
            invariant
                self.wf(),
                n < self@.nodes.len(),
                !self@.nodes[n as int].linked,
                k <= self.order@.len(),
                forall|j: int|
                    0 <= j < k ==> #[trigger] self@.nodes[self.order@[j] as int].key != self@.nodes[n as int].key,
            decreases self.order.len() - k,
        {
            let m = self.order[k];
            if self.nodes[m].key == self.nodes[n].key {
                proof {
                    assert(self@.nodes[m as int].linked) by {
                        assert(self.order@.contains(m));
                    }
                }
                return Err(ConfigError::DuplicateKey);
            }
            k = k + 1;
        }
        proof {
            assert forall|j: int|
                0 <= j < self@.nodes.len() && #[trigger] self@.nodes[j].linked implies self@.nodes[j].key
                != self@.nodes[n as int].key by {
                assert(self@.order.contains(j as usize));
                let q = choose|q: int| 0 <= q < self.order@.len() && self.order@[q] == j as usize;
                assert(self@.nodes[self.order@[q] as int].key != self@.nodes[n as int].key);
            }
        }
        let old_node = &self.nodes[n];
        let cycle = if old_node.cycle == u64::MAX {
            0
        } else {
            old_node.cycle + 1
        };
        let node = ConfigNode {
            key: old_node.key.clone(),
            linked: true,
            serviced: false,
            dirty: false,
            cycle,
            cached: None,
        };
        self.nodes.set(n, node);
        self.order.push(n);
        proof {
            lemma_attached_well_formed(old(self)@, n as int);
            assert(self@.nodes =~= old(self)@.attached(n as int).nodes);
        }
        Ok(AttachTicket { node: n, cycle })
    }

    /// The handle a ticket has turned into, once its node is serviced; `None`
    /// while it waits, or when its node was detached meanwhile.
    pub fn poll_attach(&self, t: AttachTicket) -> (r: Option<AttachHandle>)
        requires
            self.wf(),
        ensures
            r == if self@.valid(t.node as int, t.cycle) {
                Some(AttachHandle { node: t.node, cycle: t.cycle })
            } else {
                None::<AttachHandle>
            },
    {
        if t.node < self.nodes.len() && self.nodes[t.node].linked && self.nodes[t.node].serviced
            && self.nodes[t.node].cycle == t.cycle {
            Some(AttachHandle { node: t.node, cycle: t.cycle })
        } else {
            None
        }
    }

    /// Services every attached node that is not serviced yet, in attach
    /// order: it takes the value decoded from its key's bytes in `store`, or
    /// the declared default where the key is absent or its bytes do not
    /// decode.
    pub fn process_reads(&mut self, store: &Store)
        requires
            old(self).wf(),
        ensures
            final(self).wf(),
            final(self)@ == old(self)@.serviced(store@),
    {
        let _ = self.nodes.len();
        let ghost o = self@;
        let mut k: usize = 0;
        while k < self.order.len()
            invariant
                o.well_formed(),
                self.order@ == o.order,
                self@.nodes.len() == o.nodes.len(),
                k <= o.order.len(),
                self.nodes@.len() <= usize::MAX,
                forall|i: int|
                    0 <= i < o.nodes.len() ==> #[trigger] self@.nodes[i] == if o.order.take(k as int).contains(
                        i as usize,
                    ) {
                        service_node(o.nodes[i], store@)
                    } else {
                        o.nodes[i]
                    },
            decreases self.order.len() - k,
        {
            let n = self.order[k];
            proof {
                assert(!o.order.take(k as int).contains(n)) by {
                    if o.order.take(k as int).contains(n) {
                        let q = choose|q: int| 0 <= q < k && #[trigger] o.order.take(k as int)[q] == n;
                        assert(o.order[q] == o.order[k as int]);
                    }
                }
                assert(o.nodes[n as int].linked) by {
                    assert(o.order.contains(n));
                }
            }
            let ghost before = self@;
            assert(before.nodes[n as int] == o.nodes[n as int]);
            if !self.nodes[n].serviced {
                let found = store.get(&self.nodes[n].key);
                let v = decode_or_default::<T>(found);
                let node = ConfigNode {
                    key: self.nodes[n].key.clone(),
                    linked: true,
                    serviced: true,
                    dirty: self.nodes[n].dirty,
                    cycle: self.nodes[n].cycle,
                    cached: Some(v),
                };
                self.nodes.set(n, node);
                assert(self@.nodes[n as int] == service_node(o.nodes[n as int], store@));
            }
            proof {
                assert forall|i: int| 0 <= i < o.nodes.len() && i != n implies #[trigger] self@.nodes[i] == before.nodes[i] by {
                    assert(self.nodes@[i].state() == before.nodes[i]);
                }
                assert forall|i: int| 0 <= i < o.nodes.len() implies #[trigger] self@.nodes[i] == if o.order.take(
                    k + 1,
                ).contains(i as usize) {
                    service_node(o.nodes[i], store@)
                } else {
                    o.nodes[i]
                } by {
                    if i == n as int {
                        assert(o.order.take(k + 1)[k as int] == n);
                    } else {
                        if o.order.take(k + 1).contains(i as usize) {
                            let q = choose|q: int| 0 <= q < k + 1 && #[trigger] o.order.take(k + 1)[q] == i as usize;
                            assert(o.order.take(k as int)[q] == i as usize);
                        }
                        if o.order.take(k as int).contains(i as usize) {
                            let q = choose|q: int| 0 <= q < k && #[trigger] o.order.take(k as int)[q] == i as usize;
                            assert(o.order.take(k + 1)[q] == i as usize);
                        }
                    }
                }
            }
            k = k + 1;
        }
        proof {
            assert(o.order.take(o.order.len() as int) == o.order);
            assert(self@.nodes =~= o.serviced(store@).nodes);
        }
    }

    /// Drains every dirty node, in attach order: appends its key and the
    /// encoding of its value to `out`, and clears its dirty flag.
    pub fn process_writes(&mut self, out: &mut Vec<(String, Vec<u8>)>)
        requires
            old(self).wf(),
        ensures
            final(self).wf(),
            final(self)@ == old(self)@.drained(),
            pairs_view(final(out)@) == pairs_view(old(out)@) + old(self)@.drain_batch(),
    {
        let _ = self.nodes.len();
        let ghost o = self@;
        let ghost out0 = out@;
        let mut k: usize = 0;
        while k < self.order.len()
            invariant
                o.well_formed(),
                self.order@ == o.order,
                self@.nodes.len() == o.nodes.len(),
                k <= o.order.len(),
                self.nodes@.len() <= usize::MAX,
                pairs_view(out@) == pairs_view(out0) + batch_of(o.nodes, o.order.take(k as int)),
                forall|i: int|
                    0 <= i < o.nodes.len() ==> #[trigger] self@.nodes[i] == if o.order.take(k as int).contains(
                        i as usize,
                    ) {
                        NodeState { dirty: false, ..o.nodes[i] }
                    } else {
                        o.nodes[i]
                    },
            decreases self.order.len() - k,
        {
            let n = self.order[k];
            proof {
                assert(!o.order.take(k as int).contains(n)) by {
                    if o.order.take(k as int).contains(n) {
                        let q = choose|q: int| 0 <= q < k && #[trigger] o.order.take(k as int)[q] == n;
                        assert(o.order[q] == o.order[k as int]);
                    }
                }
                assert(o.order.take(k + 1).drop_last() == o.order.take(k as int));
            }
            let ghost before = self@;
            let ghost out_before = out@;
            assert(before.nodes[n as int] == o.nodes[n as int]);
            if self.nodes[n].dirty {
                match &self.nodes[n].cached {
                    Some(v) => {
                        let bytes = v.encode();
                        let node = ConfigNode {
                            key: self.nodes[n].key.clone(),
                            linked: self.nodes[n].linked,
                            serviced: self.nodes[n].serviced,
                            dirty: false,
                            cycle: self.nodes[n].cycle,
                            cached: Some(v.duplicate()),
                        };
                        out.push((self.nodes[n].key.clone(), bytes));
                        self.nodes.set(n, node);
                        proof {
                            assert(pairs_view(out@) == pairs_view(out_before) + seq![(o.nodes[n as int].key, T::encoding(o.nodes[n as int].cached.unwrap()))]);
                        }
                    },
                    None => {},
                }
            }
            proof {
                assert(self@.nodes[n as int] == NodeState { dirty: false, ..o.nodes[n as int] });
                assert forall|i: int| 0 <= i < o.nodes.len() && i != n implies #[trigger] self@.nodes[i] == before.nodes[i] by {
                    assert(self.nodes@[i].state() == before.nodes[i]);
                }
                assert forall|i: int| 0 <= i < o.nodes.len() implies #[trigger] self@.nodes[i] == if o.order.take(
                    k + 1,
                ).contains(i as usize) {
                    NodeState { dirty: false, ..o.nodes[i] }
                } else {
                    o.nodes[i]
                } by {
                    if i == n as int {
                        assert(o.order.take(k + 1)[k as int] == n);
                    } else {
                        if o.order.take(k + 1).contains(i as usize) {
                            let q = choose|q: int| 0 <= q < k + 1 && #[trigger] o.order.take(k + 1)[q] == i as usize;
                            assert(o.order.take(k as int)[q] == i as usize);
                        }
                        if o.order.take(k as int).contains(i as usize) {
                            let q = choose|q: int| 0 <= q < k && #[trigger] o.order.take(k as int)[q] == i as usize;
                            assert(o.order.take(k + 1)[q] == i as usize);
                        }
                    }
                }
            }
            k = k + 1;
        }
        proof {
            assert(o.order.take(o.order.len() as int) == o.order);
            assert forall|i: int| 0 <= i < o.nodes.len() implies #[trigger] self@.nodes[i] == o.drained().nodes[i] by {
                if !o.order.contains(i as usize) {
                    assert(!o.nodes[i].linked);
                    assert(!o.nodes[i].serviced);
                    assert(!o.nodes[i].dirty);
                }
            }
            assert(self@.nodes =~= o.drained().nodes);
        }
    }

    /// The value of a handle's node.
    pub fn load(&self, h: &AttachHandle) -> (r: Result<T, ConfigError>)
        requires
            self.wf(),
        ensures
            if self@.valid(h.node as int, h.cycle) {
                r == Ok::<T, ConfigError>(self@.nodes[h.node as int].cached.unwrap())
            } else {
                r == Err::<T, ConfigError>(ConfigError::Detached)
            },
    {
        if h.node < self.nodes.len() && self.nodes[h.node].linked && self.nodes[h.node].serviced
            && self.nodes[h.node].cycle == h.cycle {
            match &self.nodes[h.node].cached {
                Some(v) => Ok(v.duplicate()),
                None => Err(ConfigError::Detached),
            }
        } else {
            Err(ConfigError::Detached)
        }
    }

    /// Replaces the value of a handle's node and marks it dirty.
    pub fn write(&mut self, h: &AttachHandle, v: T) -> (r: Result<(), ConfigError>)
        requires
            old(self).wf(),
        ensures
            final(self).wf(),
            if old(self)@.valid(h.node as int, h.cycle) {
                r == Ok::<(), ConfigError>(()) && final(self)@ == old(self)@.written(h.node as int, v)
            } else {
                r == Err::<(), ConfigError>(ConfigError::Detached) && final(self)@ == old(self)@
            },
    {
        if h.node < self.nodes.len() && self.nodes[h.node].linked && self.nodes[h.node].serviced
            && self.nodes[h.node].cycle == h.cycle {
            let node = ConfigNode {
                key: self.nodes[h.node].key.clone(),
                linked: true,
                serviced: true,
                dirty: true,
                cycle: h.cycle,
                cached: Some(v),
            };
            self.nodes.set(h.node, node);
            proof {
                assert(self@.nodes =~= old(self)@.written(h.node as int, v).nodes);
            }
            Ok(())
        } else {
            Err(ConfigError::Detached)
        }
    }

    /// Unlinks a handle's node; its handles stop working and its value is
    /// dropped.
    pub fn detach(&mut self, h: &AttachHandle) -> (r: Result<(), ConfigError>)
        requires
            old(self).wf(),
        ensures
            final(self).wf(),
            if old(self)@.valid(h.node as int, h.cycle) {
                r == Ok::<(), ConfigError>(()) && exists|k: int|
                    0 <= k < old(self)@.order.len() && old(self)@.order[k] == h.node
                        && final(self)@ == old(self)@.detached(h.node as int, k)
            } else {
                r == Err::<(), ConfigError>(ConfigError::Detached) && final(self)@ == old(self)@
            },
    {
        let _ = self.nodes.len();
        if !(h.node < self.nodes.len() && self.nodes[h.node].linked && self.nodes[h.node].serviced
            && self.nodes[h.node].cycle == h.cycle) {
            return Err(ConfigError::Detached);
        }
        let ghost o = self@;
        assert(o.nodes[h.node as int].linked);
        assert(o.order.contains(h.node));
        let _ = self.order.len();
        let mut k: usize = 0;
        while self.order[k] != h.node
            invariant
                self@ == o,
                o.well_formed(),
                o.order.contains(h.node),
                k < o.order.len(),
                o.order.len() <= usize::MAX,
                forall|j: int| 0 <= j < k ==> o.order[j] != h.node,
            decreases o.order.len() - k,
        {
            assert(k + 1 < o.order.len()) by {
                let q = choose|q: int| 0 <= q < o.order.len() && o.order[q] == h.node;
                assert(q > k);
            }
            k = k + 1;
        }
        let node = ConfigNode {
            key: self.nodes[h.node].key.clone(),
            linked: false,
            serviced: false,
            dirty: false,
            cycle: h.cycle,
            cached: None,
        };
        self.nodes.set(h.node, node);
        self.order.remove(k);
        proof {
            let d = o.detached(h.node as int, k as int);
            assert(self@.nodes =~= d.nodes);
            assert(self@ == d);
            assert forall|i: int| 0 <= i < d.nodes.len() implies (#[trigger] d.nodes[i].linked
                <==> d.order.contains(i as usize)) by {
                if d.order.contains(i as usize) {
                    let q = choose|q: int| 0 <= q < d.order.len() && d.order[q] == i as usize;
                    if q < k {
                        assert(o.order[q] == i as usize);
                    } else {
                        assert(o.order[q + 1] == i as usize);
                    }
                    assert(o.order.contains(i as usize));
                }
                if i != h.node && o.order.contains(i as usize) {
                    let q = choose|q: int| 0 <= q < o.order.len() && o.order[q] == i as usize;
                    assert(q != k);
                    if q < k {
                        assert(d.order[q] == i as usize);
                    } else {
                        assert(d.order[q - 1] == i as usize);
                    }
                }
            }
        }
        Ok(())
    }
}

} // verus!
