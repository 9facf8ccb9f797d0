//! What discovery finds in a record of the filesystem.
//!
//! Discovery lists one directory and keeps the entries that are directories
//! and whose path names an entity. Each kept entry gives one entity; where two
//! entries give the same identifier, the later one stays. An entry of any
//! other name is passed over. A directory that names a socket is listed in
//! turn for its domains, and where that listing fails the discovery fails.

use crate::naming::{domain_id, joined, socket_id};
use crate::tree::{dir_entries, is_dir, IoFailure, NodeView};
use vstd::prelude::*;

verus! {

/// A domain as discovery knows it: its identifier and the paths of its files.
pub struct DomainView {
    pub id: u8,
    pub name: Seq<char>,
    pub enabled: Seq<char>,
    pub energy: Seq<char>,
    pub max_energy_range: Seq<char>,
}

/// A socket as discovery knows it: its identifier, the paths of its files,
/// and its domains by identifier.
pub struct SocketView {
    pub id: u8,
    pub enabled: Seq<char>,
    pub energy: Seq<char>,
    pub max_energy_range: Seq<char>,
    pub domains: Map<u8, DomainView>,
}

/// The domain `id` whose directory is `root`.
pub open spec fn domain_at(id: u8, root: Seq<char>) -> DomainView {
    DomainView {
        id,
        name: joined(root, "name"@),
        enabled: joined(root, "enabled"@),
        energy: joined(root, "energy_uj"@),
        max_energy_range: joined(root, "max_energy_range_uj"@),
    }
}

/// The domains of socket `socket` that the listing `entries` holds.
pub open spec fn discovered_domains(
    tree: Map<Seq<char>, NodeView>,
    entries: Seq<Seq<char>>,
    socket: u8,
) -> Map<u8, DomainView>
    decreases entries.len(),
{
    if entries.len() == 0 {
        Map::empty()
    } else {
        let earlier = discovered_domains(tree, entries.drop_last(), socket);
        let path = entries.last();
        match domain_id(path, socket) {
            Some(id) => if is_dir(tree, path) {
                earlier.insert(id, domain_at(id, path))
            } else {
                earlier
            },
            None => earlier,
        }
    }
}

/// The socket `id` whose directory is `root`, or why the directory cannot be
/// listed.
pub open spec fn socket_at(tree: Map<Seq<char>, NodeView>, id: u8, root: Seq<char>) -> Result<
    SocketView,
    IoFailure,
> {
    match dir_entries(tree, root) {
        Ok(entries) => Ok(
            SocketView {
                id,
                enabled: joined(root, "enabled"@),
                energy: joined(root, "energy_uj"@),
                max_energy_range: joined(root, "max_energy_range_uj"@),
                domains: discovered_domains(tree, entries, id),
            },
        ),
        Err(e) => Err(e),
    }
}

/// The sockets that the listing `entries` holds, or the failure of the first
/// entry that is a directory, names a socket and cannot be listed itself.
pub open spec fn discovered_sockets(
    tree: Map<Seq<char>, NodeView>,
    entries: Seq<Seq<char>>,
) -> Result<Map<u8, SocketView>, IoFailure>
    decreases entries.len(),
{
    if entries.len() == 0 {
        Ok(Map::empty())
    } else {
        let path = entries.last();
        match discovered_sockets(tree, entries.drop_last()) {
            Ok(earlier) => match socket_id(path) {
                Some(id) => if is_dir(tree, path) {
                    match socket_at(tree, id, path) {
                        Ok(socket) => Ok(earlier.insert(id, socket)),
                        Err(e) => Err(e),
                    }
                } else {
                    Ok(earlier)
                },
                None => Ok(earlier),
            },
            Err(e) => Err(e),
        }
    }
}

/// The sockets below the directory `path`, or why the directory, or the
/// directory of one of its sockets, cannot be listed.
pub open spec fn sockets_at(tree: Map<Seq<char>, NodeView>, path: Seq<char>) -> Result<
    Map<u8, SocketView>,
    IoFailure,
> {
    match dir_entries(tree, path) {
        Ok(entries) => discovered_sockets(tree, entries),
        Err(e) => Err(e),
    }
}

/// The sockets of the power-capping directory `path`: those below its
/// `intel-rapl` directory, and none where it has no such directory.
pub open spec fn power_cap_at(tree: Map<Seq<char>, NodeView>, path: Seq<char>) -> Result<
    Map<u8, SocketView>,
    IoFailure,
> {
    match dir_entries(tree, path) {
        Ok(_) => if is_dir(tree, joined(path, "intel-rapl"@)) {
            sockets_at(tree, joined(path, "intel-rapl"@))
        } else {
            Ok(Map::empty())
        },
        Err(e) => Err(e),
    }
}

/// Whether entry `i` of a listing is a directory that names domain `id` of
/// socket `socket`.
pub open spec fn names_domain(
    tree: Map<Seq<char>, NodeView>,
    entries: Seq<Seq<char>>,
    socket: u8,
    id: u8,
    i: int,
) -> bool {
    0 <= i < entries.len() && is_dir(tree, entries[i]) && domain_id(entries[i], socket) == Some(id)
}

/// Whether entry `i` of a listing is a directory that names socket `id`.
pub open spec fn names_socket(
    tree: Map<Seq<char>, NodeView>,
    entries: Seq<Seq<char>>,
    id: u8,
    i: int,
) -> bool {
    0 <= i < entries.len() && is_dir(tree, entries[i]) && socket_id(entries[i]) == Some(id)
}

/// Whether entry `i` of a listing is a directory that names a socket and
/// cannot be listed itself.
pub open spec fn fails_socket(
    tree: Map<Seq<char>, NodeView>,
    entries: Seq<Seq<char>>,
    i: int,
) -> bool {
    0 <= i < entries.len() && is_dir(tree, entries[i]) && socket_id(entries[i]) is Some
        && dir_entries(tree, entries[i]) is Err
}

/// Whether every socket and every domain stands under its own identifier.
pub open spec fn keyed_by_id(sockets: Map<u8, SocketView>) -> bool {
    forall|id: u8| #[trigger]
        sockets.contains_key(id) ==> {
            &&& sockets[id].id == id
            &&& forall|domain: u8| #[trigger]
                sockets[id].domains.contains_key(domain) ==> sockets[id].domains[domain].id
                    == domain
        }
}

/// A domain is discovered under an identifier exactly when a listed directory
/// names that identifier. It is then the domain of the last such directory,
/// and it carries the identifier that the path of this directory ends with.
pub proof fn lemma_discovered_domains(
    tree: Map<Seq<char>, NodeView>,
    entries: Seq<Seq<char>>,
    socket: u8,
    id: u8,
)
    ensures
        discovered_domains(tree, entries, socket).contains_key(id) <==> exists|i: int|
            names_domain(tree, entries, socket, id, i),
        discovered_domains(tree, entries, socket).contains_key(id) ==> exists|i: int|
            {
                &&& names_domain(tree, entries, socket, id, i)
                &&& forall|j: int| i < j ==> !names_domain(tree, entries, socket, id, j)
                &&& discovered_domains(tree, entries, socket)[id] == domain_at(id, entries[i])
            },
        discovered_domains(tree, entries, socket).contains_key(id) ==> discovered_domains(
            tree,
            entries,
            socket,
        )[id].id == id,
    decreases entries.len(),
{
    if entries.len() > 0 {
        let earlier = entries.drop_last();
        let last = entries.len() - 1;
        lemma_discovered_domains(tree, earlier, socket, id);
        assert forall|i: int| names_domain(tree, earlier, socket, id, i) implies names_domain(
            tree,
            entries,
            socket,
            id,
            i,
        ) by {
            assert(earlier[i] == entries[i]);
        }
        assert forall|i: int| i < last && names_domain(tree, entries, socket, id, i)
            implies names_domain(tree, earlier, socket, id, i) by {
            assert(earlier[i] == entries[i]);
        }
        if names_domain(tree, entries, socket, id, last) {
            assert(forall|j: int| last < j ==> !names_domain(tree, entries, socket, id, j));
        } else if discovered_domains(tree, entries, socket).contains_key(id) {
            assert(discovered_domains(tree, earlier, socket).contains_key(id));
            let i = choose|i: int|
                {
                    &&& names_domain(tree, earlier, socket, id, i)
                    &&& forall|j: int| i < j ==> !names_domain(tree, earlier, socket, id, j)
                    &&& discovered_domains(tree, earlier, socket)[id] == domain_at(id, earlier[i])
                };
            assert(names_domain(tree, entries, socket, id, i));
            assert forall|j: int| i < j implies !names_domain(tree, entries, socket, id, j) by {
                if j < last {
                    assert(!names_domain(tree, earlier, socket, id, j));
                }
            }
            assert(earlier[i] == entries[i]);
        }
    }
}

/// Discovery fails exactly when a listed directory names a socket and cannot
/// be listed itself; the failure is that of the first such directory.
pub proof fn lemma_discovery_fails(tree: Map<Seq<char>, NodeView>, entries: Seq<Seq<char>>)
    ensures
        discovered_sockets(tree, entries) is Err <==> exists|i: int| fails_socket(tree, entries, i),
        discovered_sockets(tree, entries) matches Err(e) ==> exists|i: int|
            {
                &&& fails_socket(tree, entries, i)
                &&& forall|j: int| j < i ==> !fails_socket(tree, entries, j)
                &&& dir_entries(tree, entries[i]) == Err::<Seq<Seq<char>>, IoFailure>(e)
            },
    decreases entries.len(),
{
    if entries.len() > 0 {
        let earlier = entries.drop_last();
        let last = entries.len() - 1;
        lemma_discovery_fails(tree, earlier);
        assert forall|i: int| fails_socket(tree, earlier, i) implies fails_socket(
            tree,
            entries,
            i,
        ) by {
            assert(earlier[i] == entries[i]);
        }
        assert forall|i: int| i < last && fails_socket(tree, entries, i) implies fails_socket(
            tree,
            earlier,
            i,
        ) by {
            assert(earlier[i] == entries[i]);
        }
        match discovered_sockets(tree, earlier) {
            Err(e) => {
                let i = choose|i: int|
                    {
                        &&& fails_socket(tree, earlier, i)
                        &&& forall|j: int| j < i ==> !fails_socket(tree, earlier, j)
                        &&& dir_entries(tree, earlier[i]) == Err::<Seq<Seq<char>>, IoFailure>(e)
                    };
                assert(earlier[i] == entries[i]);
                assert(fails_socket(tree, entries, i));
                assert forall|j: int| j < i implies !fails_socket(tree, entries, j) by {
                    assert(!fails_socket(tree, earlier, j));
                }
            },
            Ok(_) => {
                if fails_socket(tree, entries, last) {
                    assert forall|j: int| j < last implies !fails_socket(tree, entries, j) by {
                        assert(!fails_socket(tree, earlier, j));
                    }
                } else {
                    assert forall|i: int| !fails_socket(tree, entries, i) by {
                        if i < last {
                            assert(!fails_socket(tree, earlier, i));
                        }
                    }
                }
            },
        }
    }
}

/// A discovery that has failed on the first entries of a listing fails on the
/// whole listing, with the same failure.
pub proof fn lemma_failure_stays(
    tree: Map<Seq<char>, NodeView>,
    entries: Seq<Seq<char>>,
    i: int,
)
    requires
        0 <= i <= entries.len(),
    ensures
        discovered_sockets(tree, entries.take(i)) matches Err(e) ==> discovered_sockets(
            tree,
            entries,
        ) == Err::<Map<u8, SocketView>, IoFailure>(e),
    decreases entries.len() - i,
{
    if i < entries.len() {
        lemma_failure_stays(tree, entries, i + 1);
        assert(entries.take(i + 1).drop_last() == entries.take(i));
    } else {
        assert(entries.take(i) == entries);
    }
}

/// Where discovery succeeds, a socket is discovered under an identifier
/// exactly when a listed directory names that identifier. It is then the
/// socket of the last such directory, and it carries the identifier that the
/// path of this directory ends with.
pub proof fn lemma_discovered_sockets(
    tree: Map<Seq<char>, NodeView>,
    entries: Seq<Seq<char>>,
    id: u8,
)
    requires
        discovered_sockets(tree, entries) is Ok,
    ensures
        discovered_sockets(tree, entries)->Ok_0.contains_key(id) <==> exists|i: int|
            names_socket(tree, entries, id, i),
        discovered_sockets(tree, entries)->Ok_0.contains_key(id) ==> exists|i: int|
            {
                &&& names_socket(tree, entries, id, i)
                &&& forall|j: int| i < j ==> !names_socket(tree, entries, id, j)
                &&& socket_at(tree, id, entries[i]) == Ok::<SocketView, IoFailure>(
                    discovered_sockets(tree, entries)->Ok_0[id],
                )
            },
        discovered_sockets(tree, entries)->Ok_0.contains_key(id) ==> discovered_sockets(
            tree,
            entries,
        )->Ok_0[id].id == id,
    decreases entries.len(),
{
    if entries.len() > 0 {
        let earlier = entries.drop_last();
        let last = entries.len() - 1;
        let found = discovered_sockets(tree, entries)->Ok_0;
        let before = discovered_sockets(tree, earlier)->Ok_0;
        lemma_discovered_sockets(tree, earlier, id);
        assert forall|i: int| names_socket(tree, earlier, id, i) implies names_socket(
            tree,
            entries,
            id,
            i,
        ) by {
            assert(earlier[i] == entries[i]);
        }
        assert forall|i: int| i < last && names_socket(tree, entries, id, i) implies names_socket(
            tree,
            earlier,
            id,
            i,
        ) by {
            assert(earlier[i] == entries[i]);
        }
        if names_socket(tree, entries, id, last) {
            assert(forall|j: int| last < j ==> !names_socket(tree, entries, id, j));
        } else if found.contains_key(id) {
            assert(before.contains_key(id));
            let i = choose|i: int|
                {
                    &&& names_socket(tree, earlier, id, i)
                    &&& forall|j: int| i < j ==> !names_socket(tree, earlier, id, j)
                    &&& socket_at(tree, id, earlier[i]) == Ok::<SocketView, IoFailure>(
                        before[id],
                    )
                };
            assert(names_socket(tree, entries, id, i));
            assert forall|j: int| i < j implies !names_socket(tree, entries, id, j) by {
                if j < last {
                    assert(!names_socket(tree, earlier, id, j));
                }
            }
            assert(earlier[i] == entries[i]);
        }
    }
}

/// Every socket and every domain that discovery finds stands under its own
/// identifier.
pub proof fn lemma_discovered_keyed_by_id(tree: Map<Seq<char>, NodeView>, entries: Seq<Seq<char>>)
    requires
        discovered_sockets(tree, entries) is Ok,
    ensures
        keyed_by_id(discovered_sockets(tree, entries)->Ok_0),
{
    let found = discovered_sockets(tree, entries)->Ok_0;
    assert forall|id: u8| #[trigger] found.contains_key(id) implies {
        &&& found[id].id == id
        &&& forall|domain: u8| #[trigger]
            found[id].domains.contains_key(domain) ==> found[id].domains[domain].id == domain
    } by {
        lemma_discovered_sockets(tree, entries, id);
        let i = choose|i: int|
            {
                &&& names_socket(tree, entries, id, i)
                &&& forall|j: int| i < j ==> !names_socket(tree, entries, id, j)
                &&& socket_at(tree, id, entries[i]) == Ok::<SocketView, IoFailure>(found[id])
            };
        assert forall|domain: u8| #[trigger]
            found[id].domains.contains_key(domain) implies found[id].domains[domain].id
            == domain by {
            lemma_socket_at_domains(tree, id, entries[i], domain);
        }
    }
}

/// Every domain of a discovered socket carries the identifier under which it
/// stands.
pub proof fn lemma_socket_at_domains(
    tree: Map<Seq<char>, NodeView>,
    id: u8,
    root: Seq<char>,
    domain: u8,
)
    requires
        socket_at(tree, id, root) is Ok,
        socket_at(tree, id, root)->Ok_0.domains.contains_key(domain),
    ensures
        socket_at(tree, id, root)->Ok_0.id == id,
        socket_at(tree, id, root)->Ok_0.domains[domain].id == domain,
{
    lemma_discovered_domains(tree, dir_entries(tree, root)->Ok_0, id, domain);
}

/// A listing in which no path names a domain of the socket gives no domain.
pub proof fn lemma_no_domain_named(
    tree: Map<Seq<char>, NodeView>,
    entries: Seq<Seq<char>>,
    socket: u8,
)
    requires
        forall|i: int| 0 <= i < entries.len() ==> domain_id(#[trigger] entries[i], socket) is None,
    ensures
        discovered_domains(tree, entries, socket) == Map::<u8, DomainView>::empty(),
    decreases entries.len(),
{
    if entries.len() > 0 {
        let earlier = entries.drop_last();
        assert forall|i: int| 0 <= i < earlier.len() implies domain_id(
            #[trigger] earlier[i],
            socket,
        ) is None by {
            assert(earlier[i] == entries[i]);
        }
        lemma_no_domain_named(tree, earlier, socket);
        assert(domain_id(entries[entries.len() - 1], socket) is None);
    }
}

/// A listing in which no path names a socket gives no socket.
pub proof fn lemma_no_socket_named(tree: Map<Seq<char>, NodeView>, entries: Seq<Seq<char>>)
    requires
        forall|i: int| 0 <= i < entries.len() ==> socket_id(#[trigger] entries[i]) is None,
    ensures
        discovered_sockets(tree, entries) == Ok::<Map<u8, SocketView>, IoFailure>(Map::empty()),
    decreases entries.len(),
{
    if entries.len() > 0 {
        let earlier = entries.drop_last();
        assert forall|i: int| 0 <= i < earlier.len() implies socket_id(
            #[trigger] earlier[i],
        ) is None by {
            assert(earlier[i] == entries[i]);
        }
        lemma_no_socket_named(tree, earlier);
        assert(socket_id(entries[entries.len() - 1]) is None);
    }
}

/// A directory that can be listed and holds no entry whose path names a
/// socket is discovered without failure, and without sockets.
pub proof fn lemma_sockets_at_unnamed(tree: Map<Seq<char>, NodeView>, path: Seq<char>)
    requires
        dir_entries(tree, path) is Ok,
        forall|i: int|
            0 <= i < dir_entries(tree, path)->Ok_0.len() ==> socket_id(
                #[trigger] dir_entries(tree, path)->Ok_0[i],
            ) is None,
    ensures
        sockets_at(tree, path) == Ok::<Map<u8, SocketView>, IoFailure>(Map::empty()),
{
    lemma_no_socket_named(tree, dir_entries(tree, path)->Ok_0);
}

/// A socket directory that can be listed and holds no directory of a domain
/// gives a socket without domains.
pub proof fn lemma_socket_at_unnamed(tree: Map<Seq<char>, NodeView>, id: u8, root: Seq<char>)
    requires
        dir_entries(tree, root) is Ok,
        forall|i: int|
            0 <= i < dir_entries(tree, root)->Ok_0.len() ==> domain_id(
                #[trigger] dir_entries(tree, root)->Ok_0[i],
                id,
            ) is None,
    ensures
        socket_at(tree, id, root) is Ok,
        socket_at(tree, id, root)->Ok_0.domains == Map::<u8, DomainView>::empty(),
{
    lemma_no_domain_named(tree, dir_entries(tree, root)->Ok_0, id);
}

/// A power-capping directory that cannot be listed gives the failure of the
/// listing; one that can be listed and has no `intel-rapl` directory gives no
/// socket, and no failure.
pub proof fn lemma_power_cap_at(tree: Map<Seq<char>, NodeView>, path: Seq<char>)
    ensures
        dir_entries(tree, path) matches Err(e) ==> power_cap_at(tree, path) == Err::<
            Map<u8, SocketView>,
            IoFailure,
        >(e),
        dir_entries(tree, path) is Ok && !is_dir(tree, joined(path, "intel-rapl"@))
            ==> power_cap_at(tree, path) == Ok::<Map<u8, SocketView>, IoFailure>(Map::empty()),
        dir_entries(tree, path) is Ok && is_dir(tree, joined(path, "intel-rapl"@))
            ==> power_cap_at(tree, path) == sockets_at(tree, joined(path, "intel-rapl"@)),
{
}

} // verus!
