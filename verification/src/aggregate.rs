//! Values read across a whole hierarchy: sums of energy and snapshots.
//!
//! The entities of one level are visited in ascending order of their
//! identifiers. A visit that fails ends the walk, and its failure is the
//! outcome: there are no partial sums and no partial snapshots.

use crate::discovery::{keyed_by_id, DomainView, SocketView};
use crate::reader::{read_bool, read_text, read_u64, ReadErrorView};
use crate::tree::NodeView;
use vstd::prelude::*;

verus! {

/// The outcomes of `f` on the values of `m` whose key is below `below`, in
/// ascending order of the keys, or the first failure among them.
pub open spec fn gathered<V, T>(
    m: Map<u8, V>,
    below: nat,
    f: spec_fn(V) -> Result<T, ReadErrorView>,
) -> Result<Seq<T>, ReadErrorView>
    recommends
        below <= 256,
    decreases below,
{
    if below == 0 {
        Ok(Seq::empty())
    } else {
        let key = (below - 1) as u8;
        match gathered(m, (below - 1) as nat, f) {
            Ok(earlier) => if m.contains_key(key) {
                match f(m[key]) {
                    Ok(value) => Ok(earlier.push(value)),
                    Err(e) => Err(e),
                }
            } else {
                Ok(earlier)
            },
            Err(e) => Err(e),
        }
    }
}

/// The keys of `m` that are below `below`.
pub open spec fn keys_below<V>(m: Map<u8, V>, below: nat) -> Set<u8> {
    m.dom().filter(|key: u8| (key as nat) < below)
}

/// The sum of `values`.
pub open spec fn total(values: Seq<nat>) -> nat
    decreases values.len(),
{
    if values.len() == 0 {
        0
    } else {
        total(values.drop_last()) + values.last()
    }
}

/// The reading of the energy counter of a domain.
pub open spec fn domain_energy(tree: Map<Seq<char>, NodeView>) -> spec_fn(DomainView) -> Result<
    nat,
    ReadErrorView,
> {
    |domain: DomainView|
        match read_u64(tree, domain.energy) {
            Ok(value) => Ok(value as nat),
            Err(e) => Err(e),
        }
}

/// The energy of a socket and of its domains together.
pub open spec fn socket_energy(tree: Map<Seq<char>, NodeView>) -> spec_fn(SocketView) -> Result<
    nat,
    ReadErrorView,
> {
    |socket: SocketView|
        match read_u64(tree, socket.energy) {
            Ok(own) => match gathered(socket.domains, 256, domain_energy(tree)) {
                Ok(readings) => Ok((own + total(readings)) as nat),
                Err(e) => Err(e),
            },
            Err(e) => Err(e),
        }
}

/// The energy of all `sockets` and of their domains together.
pub open spec fn sockets_energy(
    tree: Map<Seq<char>, NodeView>,
    sockets: Map<u8, SocketView>,
) -> Result<nat, ReadErrorView> {
    match gathered(sockets, 256, socket_energy(tree)) {
        Ok(totals) => Ok(total(totals)),
        Err(e) => Err(e),
    }
}

/// The values of one domain at one moment.
pub struct DomainSnapshotView {
    pub id: u8,
    pub name: Seq<char>,
    pub enabled: bool,
    pub energy: u64,
    pub max_energy_range: u64,
}

/// The values of one socket and of its domains at one moment.
pub struct SocketSnapshotView {
    pub id: u8,
    pub enabled: bool,
    pub energy: u64,
    pub max_energy_range: u64,
    pub domains: Seq<DomainSnapshotView>,
}

/// The snapshot of a domain: its name, its flag, its energy and the range of
/// its counter, read in this order.
pub open spec fn domain_snapshot(tree: Map<Seq<char>, NodeView>) -> spec_fn(DomainView) -> Result<
    DomainSnapshotView,
    ReadErrorView,
> {
    |domain: DomainView|
        match read_text(tree, domain.name) {
            Ok(name) => match read_bool(tree, domain.enabled) {
                Ok(enabled) => match read_u64(tree, domain.energy) {
                    Ok(energy) => match read_u64(tree, domain.max_energy_range) {
                        Ok(max_energy_range) => Ok(
                            DomainSnapshotView {
                                id: domain.id,
                                name,
                                enabled,
                                energy,
                                max_energy_range,
                            },
                        ),
                        Err(e) => Err(e),
                    },
                    Err(e) => Err(e),
                },
                Err(e) => Err(e),
            },
            Err(e) => Err(e),
        }
}

/// The snapshot of a socket: its flag, its energy and the range of its
/// counter, read in this order, and then the snapshots of its domains.
pub open spec fn socket_snapshot(tree: Map<Seq<char>, NodeView>) -> spec_fn(SocketView) -> Result<
    SocketSnapshotView,
    ReadErrorView,
> {
    |socket: SocketView|
        match read_bool(tree, socket.enabled) {
            Ok(enabled) => match read_u64(tree, socket.energy) {
                Ok(energy) => match read_u64(tree, socket.max_energy_range) {
                    Ok(max_energy_range) => match gathered(
                        socket.domains,
                        256,
                        domain_snapshot(tree),
                    ) {
                        Ok(domains) => Ok(
                            SocketSnapshotView {
                                id: socket.id,
                                enabled,
                                energy,
                                max_energy_range,
                                domains,
                            },
                        ),
                        Err(e) => Err(e),
                    },
                    Err(e) => Err(e),
                },
                Err(e) => Err(e),
            },
            Err(e) => Err(e),
        }
}

/// The keys below a bound are finitely many, no more than the bound.
pub proof fn lemma_keys_below<V>(m: Map<u8, V>, below: nat)
    requires
        below <= 256,
    ensures
        keys_below(m, below).finite(),
        keys_below(m, below).len() <= below,
        below > 0 ==> keys_below(m, below).len() == keys_below(m, (below - 1) as nat).len() + (if m.contains_key(
            (below - 1) as u8,
        ) {
            1nat
        } else {
            0nat
        }),
    decreases below,
{
    if below == 0 {
        assert(keys_below(m, 0) =~= Set::<u8>::empty());
    } else {
        let key = (below - 1) as u8;
        let earlier = keys_below(m, (below - 1) as nat);
        lemma_keys_below(m, (below - 1) as nat);
        if m.contains_key(key) {
            assert(keys_below(m, below) =~= earlier.insert(key));
        } else {
            assert(keys_below(m, below) =~= earlier);
        }
    }
}

/// Every key is below 256, so the keys of a map are finitely many.
pub proof fn lemma_all_keys<V>(m: Map<u8, V>)
    ensures
        keys_below(m, 256) == m.dom(),
        m.dom().finite(),
        m.dom().len() <= 256,
{
    lemma_keys_below(m, 256);
    assert(keys_below(m, 256) =~= m.dom());
}

/// Where no visit fails, each key below the bound gives one outcome.
pub proof fn lemma_gathered_len<V, T>(
    m: Map<u8, V>,
    below: nat,
    f: spec_fn(V) -> Result<T, ReadErrorView>,
)
    requires
        below <= 256,
    ensures
        gathered(m, below, f) matches Ok(outcomes) ==> outcomes.len() == keys_below(m, below).len(),
    decreases below,
{
    lemma_keys_below(m, below);
    if below > 0 {
        lemma_gathered_len(m, (below - 1) as nat, f);
    }
}

/// Where no visit fails, there are as many outcomes as the map has keys.
pub proof fn lemma_gathered_all<V, T>(m: Map<u8, V>, f: spec_fn(V) -> Result<T, ReadErrorView>)
    ensures
        gathered(m, 256, f) matches Ok(outcomes) ==> outcomes.len() == m.dom().len(),
{
    lemma_gathered_len(m, 256, f);
    lemma_all_keys(m);
}

/// A visit fails exactly when `f` fails on one of the values, and where none
/// fails the outcomes are those of `f`, key by key.
pub proof fn lemma_gathered_ok<V, T>(
    m: Map<u8, V>,
    below: nat,
    f: spec_fn(V) -> Result<T, ReadErrorView>,
)
    requires
        below <= 256,
    ensures
        gathered(m, below, f) is Ok <==> forall|key: u8|
            (key as nat) < below && m.contains_key(key) ==> (#[trigger] f(m[key])) is Ok,
    decreases below,
{
    if below > 0 {
        lemma_gathered_ok(m, (below - 1) as nat, f);
        let last = (below - 1) as u8;
        if gathered(m, below, f) is Ok {
            assert forall|key: u8| (key as nat) < below && m.contains_key(key) implies (
            #[trigger] f(m[key])) is Ok by {
                if key != last {
                    assert((key as nat) < below - 1);
                }
            }
        }
    }
}

/// A walk that has failed stays failed, with the same failure.
pub proof fn lemma_gathered_fails<V, T>(
    m: Map<u8, V>,
    below: nat,
    f: spec_fn(V) -> Result<T, ReadErrorView>,
)
    requires
        below <= 256,
    ensures
        gathered(m, below, f) matches Err(e) ==> gathered(m, 256, f) == Err::<
            Seq<T>,
            ReadErrorView,
        >(e),
    decreases 256 - below,
{
    if below < 256 {
        lemma_gathered_fails(m, below + 1, f);
    }
}

/// Without keys there is nothing to visit.
pub proof fn lemma_gathered_empty<V, T>(
    m: Map<u8, V>,
    below: nat,
    f: spec_fn(V) -> Result<T, ReadErrorView>,
)
    requires
        m.dom() == Set::<u8>::empty(),
    ensures
        gathered(m, below, f) == Ok::<Seq<T>, ReadErrorView>(Seq::empty()),
    decreases below,
{
    if below > 0 {
        lemma_gathered_empty(m, (below - 1) as nat, f);
    }
}

/// The sum of a run of values and one more is the sum of the run plus the one.
pub proof fn lemma_total_push(values: Seq<nat>, value: nat)
    ensures
        total(values.push(value)) == total(values) + value,
{
    assert(values.push(value).drop_last() == values);
}

/// Without one of its keys a walk still succeeds, and the sum of its outcomes
/// is smaller by the outcome of that key, where the key is below the bound.
pub proof fn lemma_total_without<V>(
    m: Map<u8, V>,
    below: nat,
    f: spec_fn(V) -> Result<nat, ReadErrorView>,
    key: u8,
)
    requires
        below <= 256,
        m.contains_key(key),
        gathered(m, below, f) is Ok,
    ensures
        gathered(m.remove(key), below, f) is Ok,
        (key as nat) < below ==> f(m[key]) is Ok,
        total(gathered(m, below, f)->Ok_0) == total(gathered(m.remove(key), below, f)->Ok_0) + (if (
        key as nat) < below {
            f(m[key])->Ok_0
        } else {
            0nat
        }),
    decreases below,
{
    if below > 0 {
        let last = (below - 1) as u8;
        lemma_total_without(m, (below - 1) as nat, f, key);
        let earlier = gathered(m, (below - 1) as nat, f)->Ok_0;
        let fewer = gathered(m.remove(key), (below - 1) as nat, f)->Ok_0;
        if last == key {
            lemma_total_push(earlier, f(m[key])->Ok_0);
        } else if m.contains_key(last) {
            assert(m.remove(key)[last] == m[last]);
            lemma_total_push(earlier, f(m[last])->Ok_0);
            lemma_total_push(fewer, f(m[last])->Ok_0);
        }
    }
}

/// A socket without domains uses the energy of its own counter.
pub proof fn lemma_socket_without_domains(tree: Map<Seq<char>, NodeView>, socket: SocketView)
    requires
        socket.domains.dom() == Set::<u8>::empty(),
    ensures
        socket_energy(tree)(socket) == match read_u64(tree, socket.energy) {
            Ok(own) => Ok::<nat, ReadErrorView>(own as nat),
            Err(e) => Err(e),
        },
{
    lemma_gathered_empty(socket.domains, 256, domain_energy(tree));
}

/// No socket uses no energy.
pub proof fn lemma_no_socket_no_energy(tree: Map<Seq<char>, NodeView>)
    ensures
        sockets_energy(tree, Map::<u8, SocketView>::empty()) == Ok::<nat, ReadErrorView>(0),
{
    lemma_gathered_empty(Map::<u8, SocketView>::empty(), 256, socket_energy(tree));
}

/// The energy of all sockets is the energy of one of them, its own counter
/// and the counters of its domains, plus the energy of all the others. The
/// total is a sum over the sockets, whatever the order of the walk.
pub proof fn lemma_sockets_energy_without(
    tree: Map<Seq<char>, NodeView>,
    sockets: Map<u8, SocketView>,
    key: u8,
)
    requires
        sockets.contains_key(key),
        sockets_energy(tree, sockets) is Ok,
    ensures
        socket_energy(tree)(sockets[key]) is Ok,
        sockets_energy(tree, sockets.remove(key)) is Ok,
        sockets_energy(tree, sockets)->Ok_0 == sockets_energy(tree, sockets.remove(key))->Ok_0
            + socket_energy(tree)(sockets[key])->Ok_0,
        socket_energy(tree)(sockets[key])->Ok_0 == read_u64(tree, sockets[key].energy)->Ok_0
            + total(gathered(sockets[key].domains, 256, domain_energy(tree))->Ok_0),
{
    lemma_total_without(sockets, 256, socket_energy(tree), key);
}

/// The keys of `m` that are below `below`, in ascending order.
pub open spec fn keys_in_order<V>(m: Map<u8, V>, below: nat) -> Seq<u8>
    recommends
        below <= 256,
    decreases below,
{
    if below == 0 {
        Seq::empty()
    } else {
        let key = (below - 1) as u8;
        let earlier = keys_in_order(m, (below - 1) as nat);
        if m.contains_key(key) {
            earlier.push(key)
        } else {
            earlier
        }
    }
}

/// The keys in order are keys of the map, each below the bound, each once and
/// ascending, and none of the keys below the bound is left out.
pub proof fn lemma_keys_in_order<V>(m: Map<u8, V>, below: nat)
    requires
        below <= 256,
    ensures
        forall|i: int|
            0 <= i < keys_in_order(m, below).len() ==> m.contains_key(
                #[trigger] keys_in_order(m, below)[i],
            ) && (keys_in_order(m, below)[i] as nat) < below,
        forall|i: int, j: int|
            0 <= i < j < keys_in_order(m, below).len() ==> (#[trigger] keys_in_order(m, below)[i])
                < (#[trigger] keys_in_order(m, below)[j]),
        forall|key: u8|
            (key as nat) < below && #[trigger] m.contains_key(key) ==> keys_in_order(
                m,
                below,
            ).contains(key),
    decreases below,
{
    if below > 0 {
        let last = (below - 1) as u8;
        let earlier = keys_in_order(m, (below - 1) as nat);
        let keys = keys_in_order(m, below);
        lemma_keys_in_order(m, (below - 1) as nat);
        assert forall|key: u8| (key as nat) < below && #[trigger] m.contains_key(key)
            implies keys.contains(key) by {
            if key == last {
                assert(keys[keys.len() - 1] == key);
            } else {
                assert(earlier.contains(key));
                let i = choose|i: int| 0 <= i < earlier.len() && earlier[i] == key;
                assert(keys[i] == key);
            }
        }
    }
}

/// Where no visit fails, the outcomes are those of the keys in order, one for
/// one.
pub proof fn lemma_gathered_by_key<V, T>(
    m: Map<u8, V>,
    below: nat,
    f: spec_fn(V) -> Result<T, ReadErrorView>,
)
    requires
        below <= 256,
        gathered(m, below, f) is Ok,
    ensures
        gathered(m, below, f)->Ok_0.len() == keys_in_order(m, below).len(),
        forall|i: int|
            0 <= i < keys_in_order(m, below).len() ==> f(m[#[trigger] keys_in_order(m, below)[i]])
                == Ok::<T, ReadErrorView>(gathered(m, below, f)->Ok_0[i]),
    decreases below,
{
    if below > 0 {
        lemma_gathered_by_key(m, (below - 1) as nat, f);
    }
}

/// The snapshots of the domains of a socket, where each domain stands under
/// its own identifier: there is one per domain, in ascending order of the
/// identifiers, and each is the snapshot of the domain whose identifier it
/// carries.
pub proof fn lemma_domain_snapshots_by_id(
    tree: Map<Seq<char>, NodeView>,
    domains: Map<u8, DomainView>,
)
    requires
        forall|id: u8| #[trigger] domains.contains_key(id) ==> domains[id].id == id,
        gathered(domains, 256, domain_snapshot(tree)) is Ok,
    ensures
        ({
            let taken = gathered(domains, 256, domain_snapshot(tree))->Ok_0;
            &&& taken.len() == domains.dom().len()
            &&& forall|i: int|
                0 <= i < taken.len() ==> domains.contains_key((#[trigger] taken[i]).id)
                    && domain_snapshot(tree)(domains[taken[i].id]) == Ok::<
                    DomainSnapshotView,
                    ReadErrorView,
                >(taken[i])
            &&& forall|i: int, j: int|
                0 <= i < j < taken.len() ==> (#[trigger] taken[i]).id < (#[trigger] taken[j]).id
            &&& forall|id: u8| #[trigger]
                domains.contains_key(id) ==> exists|i: int|
                    0 <= i < taken.len() && (#[trigger] taken[i]).id == id
        }),
{
    let f = domain_snapshot(tree);
    let taken = gathered(domains, 256, f)->Ok_0;
    let keys = keys_in_order(domains, 256);
    lemma_gathered_all(domains, f);
    lemma_gathered_by_key(domains, 256, f);
    lemma_keys_in_order(domains, 256);
    assert forall|i: int| 0 <= i < taken.len() implies (#[trigger] taken[i]).id == keys[i] by {
        assert(domains.contains_key(keys[i]));
        assert(f(domains[keys[i]]) == Ok::<DomainSnapshotView, ReadErrorView>(taken[i]));
    }
    assert forall|id: u8| #[trigger] domains.contains_key(id) implies exists|i: int|
        0 <= i < taken.len() && (#[trigger] taken[i]).id == id by {
        assert(keys.contains(id));
        let i = choose|i: int| 0 <= i < keys.len() && keys[i] == id;
        assert(taken[i].id == id);
    }
}

/// The snapshots of the sockets of a hierarchy in which every socket and
/// every domain stands under its own identifier: there is one per socket, in
/// ascending order of the identifiers; each is the snapshot of the socket
/// whose identifier it carries, and holds as many domains as that socket has.
pub proof fn lemma_socket_snapshots_by_id(
    tree: Map<Seq<char>, NodeView>,
    sockets: Map<u8, SocketView>,
)
    requires
        keyed_by_id(sockets),
        gathered(sockets, 256, socket_snapshot(tree)) is Ok,
    ensures
        ({
            let taken = gathered(sockets, 256, socket_snapshot(tree))->Ok_0;
            &&& taken.len() == sockets.dom().len()
            &&& forall|i: int|
                0 <= i < taken.len() ==> {
                    &&& sockets.contains_key((#[trigger] taken[i]).id)
                    &&& socket_snapshot(tree)(sockets[taken[i].id]) == Ok::<
                        SocketSnapshotView,
                        ReadErrorView,
                    >(taken[i])
                    &&& taken[i].domains.len() == sockets[taken[i].id].domains.dom().len()
                }
            &&& forall|i: int, j: int|
                0 <= i < j < taken.len() ==> (#[trigger] taken[i]).id < (#[trigger] taken[j]).id
            &&& forall|id: u8| #[trigger]
                sockets.contains_key(id) ==> exists|i: int|
                    0 <= i < taken.len() && (#[trigger] taken[i]).id == id
        }),
{
    let f = socket_snapshot(tree);
    let taken = gathered(sockets, 256, f)->Ok_0;
    let keys = keys_in_order(sockets, 256);
    lemma_gathered_all(sockets, f);
    lemma_gathered_by_key(sockets, 256, f);
    lemma_keys_in_order(sockets, 256);
    assert forall|i: int| 0 <= i < taken.len() implies (#[trigger] taken[i]).id == keys[i]
        && taken[i].domains.len() == sockets[keys[i]].domains.dom().len() by {
        assert(sockets.contains_key(keys[i]));
        assert(f(sockets[keys[i]]) == Ok::<SocketSnapshotView, ReadErrorView>(taken[i]));
        lemma_gathered_all(sockets[keys[i]].domains, domain_snapshot(tree));
    }
    assert forall|id: u8| #[trigger] sockets.contains_key(id) implies exists|i: int|
        0 <= i < taken.len() && (#[trigger] taken[i]).id == id by {
        assert(keys.contains(id));
        let i = choose|i: int| 0 <= i < keys.len() && keys[i] == id;
        assert(taken[i].id == id);
    }
}

} // verus!
