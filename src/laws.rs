//! What holds of the registry across its operations.
use vstd::prelude::*;
use crate::registry::{batch_of, lemma_attached_well_formed, NodeState, RegistryState};
use crate::value::ConfigValue;

verus! {

/// After a read pass, a node that was waiting holds the value decoded from
/// its key's bytes in the store; the declared default where the key is
/// absent or its bytes do not decode. Its handle then reads that value.
pub proof fn lemma_read_pass_fills<T: ConfigValue>(
    r: RegistryState<T>,
    store: Map<Seq<char>, Seq<u8>>,
    n: int,
)
    requires
        r.well_formed(),
        0 <= n < r.nodes.len(),
        r.nodes[n].linked,
        !r.nodes[n].serviced,
    ensures
        r.serviced(store).valid(n, r.nodes[n].cycle),
        !store.contains_key(r.nodes[n].key) ==> r.serviced(store).nodes[n].cached == Some(
            T::declared_default(),
        ),
        store.contains_key(r.nodes[n].key) && T::decoding(store[r.nodes[n].key]) is Some
            ==> r.serviced(store).nodes[n].cached == T::decoding(store[r.nodes[n].key]),
        store.contains_key(r.nodes[n].key) && T::decoding(store[r.nodes[n].key]) is None
            ==> r.serviced(store).nodes[n].cached == Some(T::declared_default()),
{
}

/// A read pass with no node attached since the last one changes nothing,
/// whatever the store then holds.
pub proof fn lemma_read_pass_idempotent<T: ConfigValue>(
    r: RegistryState<T>,
    first: Map<Seq<char>, Seq<u8>>,
    second: Map<Seq<char>, Seq<u8>>,
)
    requires
        r.well_formed(),
    ensures
        r.serviced(first).serviced(second) == r.serviced(first),
{
    let s = r.serviced(first);
    assert(s.serviced(second).nodes =~= s.nodes);
}

/// The bytes that a batch holds under `key`, in order.
pub open spec fn bytes_under(batch: Seq<(Seq<char>, Seq<u8>)>, key: Seq<char>) -> Seq<Seq<u8>>
    decreases batch.len(),
{
    if batch.len() == 0 {
        Seq::empty()
    } else {
        bytes_under(batch.drop_last(), key) + if batch.last().0 == key {
            seq![batch.last().1]
        } else {
            Seq::empty()
        }
    }
}

proof fn lemma_bytes_under_batch<T: ConfigValue>(r: RegistryState<T>, n: int, v: T, k: int)
    requires
        r.well_formed(),
        0 <= n < r.nodes.len(),
        r.nodes[n].linked,
        r.nodes[n].dirty,
        r.nodes[n].cached == Some(v),
        0 <= k <= r.order.len(),
        r.nodes.len() <= usize::MAX,
    ensures
        bytes_under(batch_of(r.nodes, r.order.take(k)), r.nodes[n].key) == if r.order.take(
            k,
        ).contains(n as usize) {
            seq![T::encoding(v)]
        } else {
            Seq::<Seq<u8>>::empty()
        },
    decreases k,
{
    reveal_with_fuel(bytes_under, 2);
    if k > 0 {
        let t = r.order.take(k);
        assert(t.drop_last() == r.order.take(k - 1));
        lemma_bytes_under_batch(r, n, v, k - 1);
        let m = t.last() as int;
        let s = r.nodes[m];
        let tail = if s.dirty && s.cached is Some {
            seq![(s.key, T::encoding(s.cached.unwrap()))]
        } else {
            Seq::empty()
        };
        let head = batch_of(r.nodes, r.order.take(k - 1));
        assert(batch_of(r.nodes, t) == head + tail);
        lemma_bytes_under_append(head, tail, r.nodes[n].key);
        assert(r.order.contains(m as usize));
        assert(r.nodes[m].linked);
        if m == n {
            assert(t.contains(n as usize));
            assert(!r.order.take(k - 1).contains(n as usize)) by {
                if r.order.take(k - 1).contains(n as usize) {
                    let q = choose|q: int| 0 <= q < k - 1 && #[trigger] r.order.take(k - 1)[q] == n as usize;
                    assert(r.order[q] == r.order[k - 1]);
                }
            }
            assert(bytes_under(tail, r.nodes[n].key) == seq![T::encoding(v)]) by {
                assert(tail.drop_last() == Seq::<(Seq<char>, Seq<u8>)>::empty());
            }
        } else {
            assert(bytes_under(tail, r.nodes[n].key) == Seq::<Seq<u8>>::empty()) by {
                if tail.len() > 0 {
                    assert(tail.drop_last() == Seq::<(Seq<char>, Seq<u8>)>::empty());
                }
            }
            assert(t.contains(n as usize) == r.order.take(k - 1).contains(n as usize)) by {
                if t.contains(n as usize) {
                    let q = choose|q: int| 0 <= q < k && #[trigger] t[q] == n as usize;
                    assert(r.order.take(k - 1)[q] == n as usize);
                }
                if r.order.take(k - 1).contains(n as usize) {
                    let q = choose|q: int| 0 <= q < k - 1 && #[trigger] r.order.take(k - 1)[q] == n as usize;
                    assert(t[q] == n as usize);
                }
            }
        }
    } else {
        assert(r.order.take(0) == Seq::<usize>::empty());
    }
}

proof fn lemma_bytes_under_append(
    a: Seq<(Seq<char>, Seq<u8>)>,
    b: Seq<(Seq<char>, Seq<u8>)>,
    key: Seq<char>,
)
    ensures
        bytes_under(a + b, key) == bytes_under(a, key) + bytes_under(b, key),
    decreases b.len(),
{
    if b.len() == 0 {
        assert(a + b == a);
    } else {
        assert((a + b).drop_last() == a + b.drop_last());
        lemma_bytes_under_append(a, b.drop_last(), key);
    }
}

proof fn lemma_clean_batch_empty<T: ConfigValue>(nodes: Seq<NodeState<T>>, order: Seq<usize>)
    requires
        forall|k: int| 0 <= k < order.len() ==> order[k] < nodes.len(),
        forall|i: int| 0 <= i < nodes.len() ==> !(#[trigger] nodes[i]).dirty,
    ensures
        batch_of(nodes, order) == Seq::<(Seq<char>, Seq<u8>)>::empty(),
    decreases order.len(),
{
    if order.len() > 0 {
        lemma_clean_batch_empty(nodes, order.drop_last());
        assert(!nodes[order.last() as int].dirty);
    }
}

/// A write followed by a write pass yields exactly one pair under the
/// node's key, and its bytes decode to the written value; a second write
/// pass with no write between yields nothing.
pub proof fn lemma_write_then_drain<T: ConfigValue>(r: RegistryState<T>, n: int, c: u64, v: T)
    requires
        r.well_formed(),
        r.nodes.len() <= usize::MAX,
        r.valid(n, c),
    ensures
        bytes_under(r.written(n, v).drain_batch(), r.nodes[n].key) == seq![T::encoding(v)],
        T::decoding(T::encoding(v)) == Some(v),
        r.written(n, v).drained().drain_batch() == Seq::<(Seq<char>, Seq<u8>)>::empty(),
{
    let w = r.written(n, v);
    assert forall|i: int| 0 <= i < w.nodes.len() implies (#[trigger] w.nodes[i].linked
        <==> w.order.contains(i as usize)) by {
        assert(r.nodes[i].linked <==> r.order.contains(i as usize));
    }
    assert forall|i: int, j: int|
        0 <= i < w.nodes.len() && 0 <= j < w.nodes.len() && i != j && #[trigger] w.nodes[i].linked
            && #[trigger] w.nodes[j].linked implies w.nodes[i].key != w.nodes[j].key by {
        assert(r.nodes[i].linked && r.nodes[j].linked);
    }
    assert(w.well_formed());
    lemma_bytes_under_batch(w, n, v, w.order.len() as int);
    assert(w.order.take(w.order.len() as int) == w.order);
    assert(w.order.contains(n as usize));
    T::lemma_round_trip(v);
    let d = w.drained();
    lemma_clean_batch_empty(d.nodes, d.order);
}

/// The outcome of attaching the nodes `ns` one after another, and the ids
/// of the attaches that succeeded, in order.
pub open spec fn attach_all<T: ConfigValue>(r: RegistryState<T>, ns: Seq<usize>) -> (RegistryState<T>, Seq<usize>)
    decreases ns.len(),
{
    if ns.len() == 0 {
        (r, Seq::empty())
    } else {
        let (s, done) = attach_all(r, ns.drop_last());
        let n = ns.last() as int;
        if n < s.nodes.len() && s.attach_refusal(n) is None {
            (s.attached(n), done.push(n as usize))
        } else {
            (s, done)
        }
    }
}

/// However many attaches run, one after another under the registry's
/// exclusion, the attached list is the earlier list followed by the nodes
/// whose attach succeeded, with no node in it twice.
pub proof fn lemma_attach_all<T: ConfigValue>(r: RegistryState<T>, ns: Seq<usize>)
    requires
        r.well_formed(),
        r.nodes.len() <= usize::MAX,
    ensures
        attach_all(r, ns).0.well_formed(),
        attach_all(r, ns).0.order == r.order + attach_all(r, ns).1,
        attach_all(r, ns).0.order.no_duplicates(),
        attach_all(r, ns).0.nodes.len() == r.nodes.len(),
    decreases ns.len(),
{
    if ns.len() > 0 {
        lemma_attach_all(r, ns.drop_last());
        let (s, done) = attach_all(r, ns.drop_last());
        let n = ns.last() as int;
        if n < s.nodes.len() && s.attach_refusal(n) is None {
            lemma_attached_well_formed(s, n);
            assert(r.order + done.push(n as usize) == (r.order + done).push(n as usize));
        }
    }
}

} // verus!
