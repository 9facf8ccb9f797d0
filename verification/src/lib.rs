//! Energy counters of the Intel RAPL power-capping hierarchy.
//!
//! The operating system shows one directory per CPU socket and, inside it, one
//! per power domain; each holds a few files with one value apiece. Discovery
//! turns a listing of those directories into sockets and domains that know
//! their identifier and where their files are. Reading a metric, summing the
//! energy of a whole hierarchy and taking a snapshot all look the values up in
//! a `FileTree`, the record of what the filesystem showed.

pub mod aggregate;
pub mod discovery;
pub mod helper;
pub mod mock;
pub mod naming;
pub mod reader;
pub mod text;
pub mod tree;

use crate::aggregate::{
    domain_energy, domain_snapshot, gathered, lemma_gathered_all, lemma_gathered_fails,
    socket_energy, socket_snapshot,
    sockets_energy, total,
    DomainSnapshotView, SocketSnapshotView,
};
use crate::discovery::{
    discovered_domains, discovered_sockets, domain_at, keyed_by_id, lemma_discovered_keyed_by_id,
    lemma_failure_stays, power_cap_at, socket_at, sockets_at, DomainView, SocketView,
};
use crate::naming::{domain_id_of, join, socket_id_of};
pub use crate::reader::ReadError;
use crate::reader::{read_bool, read_text, read_u64, viewed, FileReader, ReadErrorView, Reader};
use crate::tree::{dir_entries, texts, FileTree, IoFailure};
use std::collections::HashMap;
use vstd::prelude::*;

verus! {

broadcast use vstd::std_specs::hash::group_hash_axioms;

/// Why a hierarchy could not be built.
#[derive(Debug)]
pub enum BuildError {
    /// A directory could not be listed.
    Io(IoFailure),
    /// A name could not be understood; the description says why.
    Parse(String),
}

/// `BuildError` with its description as a sequence of characters.
pub enum BuildErrorView {
    Io(IoFailure),
    Parse(Seq<char>),
}

impl View for BuildError {
    type V = BuildErrorView;

    open spec fn view(&self) -> BuildErrorView {
        match self {
            BuildError::Io(e) => BuildErrorView::Io(*e),
            BuildError::Parse(description) => BuildErrorView::Parse(description@),
        }
    }
}

impl From<IoFailure> for BuildError {
    fn from(err: IoFailure) -> (e: BuildError) {
        BuildError::Io(err)
    }
}

impl vstd::std_specs::convert::FromSpecImpl<IoFailure> for BuildError {
    open spec fn obeys_from_spec() -> bool {
        true
    }

    open spec fn from_spec(err: IoFailure) -> BuildError {
        BuildError::Io(err)
    }
}

/// One power domain of a socket.
#[derive(Debug)]
pub struct Domain {
    /// The identifier of the domain within its socket.
    pub id: u8,
    /// The reader of the name.
    pub name: FileReader,
    /// The reader of the flag that says whether the domain is enabled.
    pub enabled: FileReader,
    /// The reader of the energy counter.
    pub energy: FileReader,
    /// The reader of the range of the energy counter.
    pub max_energy_range: FileReader,
}

impl View for Domain {
    type V = DomainView;

    open spec fn view(&self) -> DomainView {
        DomainView {
            id: self.id,
            name: self.name@,
            enabled: self.enabled@,
            energy: self.energy@,
            max_energy_range: self.max_energy_range@,
        }
    }
}

impl Domain {
    /// The domain `id` whose directory is `root`.
    pub fn from(id: u8, root: &str) -> (domain: Domain)
        ensures
            domain@ == domain_at(id, root@),
    {
        Domain {
            id,
            name: FileReader::from(join(root, "name")),
            enabled: FileReader::from(join(root, "enabled")),
            energy: FileReader::from(join(root, "energy_uj")),
            max_energy_range: FileReader::from(join(root, "max_energy_range_uj")),
        }
    }

    /// The name of the domain.
    pub fn name(&self, tree: &FileTree) -> (outcome: Result<String, ReadError>)
        ensures
            viewed(outcome) == read_text(tree@, self@.name),
    {
        self.name.read(tree)
    }

    /// Whether the domain is enabled.
    pub fn enabled(&self, tree: &FileTree) -> (outcome: Result<bool, ReadError>)
        ensures
            viewed(outcome) == read_bool(tree@, self@.enabled),
    {
        self.enabled.read(tree)
    }

    /// The energy that the domain has used, in microjoules.
    pub fn energy(&self, tree: &FileTree) -> (outcome: Result<u64, ReadError>)
        ensures
            viewed(outcome) == read_u64(tree@, self@.energy),
    {
        self.energy.read(tree)
    }

    /// The value at which the energy counter starts again from zero.
    pub fn max_energy_range(&self, tree: &FileTree) -> (outcome: Result<u64, ReadError>)
        ensures
            viewed(outcome) == read_u64(tree@, self@.max_energy_range),
    {
        self.max_energy_range.read(tree)
    }

    /// The values of the domain at this moment: name, flag, energy and range,
    /// read in this order; the first failure where a read fails.
    pub fn snapshot(&self, tree: &FileTree) -> (outcome: Result<DomainSnapshot, ReadError>)
        ensures
            viewed(outcome) == domain_snapshot(tree@)(self@),
    {
        let name = match self.name(tree) {
            Ok(value) => value,
            Err(e) => {
                return Err(e);
            },
        };
        let enabled = match self.enabled(tree) {
            Ok(value) => value,
            Err(e) => {
                return Err(e);
            },
        };
        let energy = match self.energy(tree) {
            Ok(value) => value,
            Err(e) => {
                return Err(e);
            },
        };
        let max_energy_range = match self.max_energy_range(tree) {
            Ok(value) => value,
            Err(e) => {
                return Err(e);
            },
        };
        Ok(DomainSnapshot { id: self.id, name, enabled, energy, max_energy_range })
    }
}

/// The values of one domain at one moment.
#[derive(Debug)]
pub struct DomainSnapshot {
    pub id: u8,
    pub name: String,
    pub enabled: bool,
    pub energy: u64,
    pub max_energy_range: u64,
}

impl View for DomainSnapshot {
    type V = DomainSnapshotView;

    open spec fn view(&self) -> DomainSnapshotView {
        DomainSnapshotView {
            id: self.id,
            name: self.name@,
            enabled: self.enabled,
            energy: self.energy,
            max_energy_range: self.max_energy_range,
        }
    }
}

/// The views of the items of `items`, in order.
pub open spec fn views<T: View>(items: Seq<T>) -> Seq<T::V> {
    Seq::new(items.len(), |i: int| items[i]@)
}

/// The domains of a map, each by its view.
pub open spec fn domain_views(domains: Map<u8, Domain>) -> Map<u8, DomainView> {
    domains.map_values(|domain: Domain| domain@)
}

/// The sockets of a map, each by its view.
pub open spec fn socket_views(sockets: Map<u8, Socket>) -> Map<u8, SocketView> {
    sockets.map_values(|socket: Socket| socket@)
}

/// One CPU socket and its power domains.
#[derive(Debug)]
pub struct Socket {
    /// The identifier of the socket.
    pub id: u8,
    /// The domains of the socket, by identifier.
    pub domains: HashMap<u8, Domain>,
    /// The reader of the flag that says whether the socket is enabled.
    pub enabled: FileReader,
    /// The reader of the energy counter.
    pub energy: FileReader,
    /// The reader of the range of the energy counter.
    pub max_energy_range: FileReader,
}

impl View for Socket {
    type V = SocketView;

    open spec fn view(&self) -> SocketView {
        SocketView {
            id: self.id,
            enabled: self.enabled@,
            energy: self.energy@,
            max_energy_range: self.max_energy_range@,
            domains: domain_views(self.domains@),
        }
    }
}

impl Socket {
    /// The socket `id` whose directory is `root`, with the domains that a
    /// listing of the directory shows. Fails where the directory cannot be
    /// listed.
    pub fn try_from(tree: &FileTree, id: u8, root: &str) -> (outcome: Result<Socket, BuildError>)
        ensures
            match outcome {
                Ok(socket) => socket_at(tree@, id, root@) == Ok::<SocketView, IoFailure>(socket@),
                Err(e) => socket_at(tree@, id, root@) matches Err(failure) && e@
                    == BuildErrorView::Io(failure),
            },
    {
        let entries = match tree.read_dir(root) {
            Ok(entries) => entries,
            Err(e) => {
                return Err(BuildError::from(e));
            },
        };
        let mut domains: HashMap<u8, Domain> = HashMap::new();
        let mut i: usize = 0;
        while i < entries.len()
            invariant
                i <= entries.len(),
                domain_views(domains@) == discovered_domains(
                    tree@,
                    texts(entries@).take(i as int),
                    id,
                ),
            decreases entries.len() - i,
        {
            let entry: &String = &entries[i];
            proof {
                let listed = texts(entries@).take(i + 1);
                assert(listed.drop_last() == texts(entries@).take(i as int));
                assert(listed.last() == entry@);
            }
            if tree.is_dir(entry.as_str()) {
                match domain_id_of(entry.as_str(), id) {
                    Some(found) => {
                        let ghost before = domains@;
                        let domain = Domain::from(found, entry.as_str());
                        domains.insert(found, domain);
                        proof {
                            assert(domain_views(domains@) == domain_views(before).insert(
                                found,
                                domain@,
                            ));
                        }
                    },
                    None => {},
                }
            }
            i += 1;
        }
        proof {
            assert(texts(entries@).take(entries.len() as int) == texts(entries@));
        }
        Ok(
            Socket {
                id,
                domains,
                enabled: FileReader::from(join(root, "enabled")),
                energy: FileReader::from(join(root, "energy_uj")),
                max_energy_range: FileReader::from(join(root, "max_energy_range_uj")),
            },
        )
    }

    /// Whether the socket is enabled.
    pub fn enabled(&self, tree: &FileTree) -> (outcome: Result<bool, ReadError>)
        ensures
            viewed(outcome) == read_bool(tree@, self@.enabled),
    {
        self.enabled.read(tree)
    }

    /// The energy that the socket has used, in microjoules.
    pub fn energy(&self, tree: &FileTree) -> (outcome: Result<u64, ReadError>)
        ensures
            viewed(outcome) == read_u64(tree@, self@.energy),
    {
        self.energy.read(tree)
    }

    /// The value at which the energy counter starts again from zero.
    pub fn max_energy_range(&self, tree: &FileTree) -> (outcome: Result<u64, ReadError>)
        ensures
            viewed(outcome) == read_u64(tree@, self@.max_energy_range),
    {
        self.max_energy_range.read(tree)
    }

    /// The energy that the socket and its domains have used, in microjoules:
    /// the counter of the socket plus the counter of each domain.
    pub fn total_energy(&self, tree: &FileTree) -> (outcome: Result<u128, ReadError>)
        ensures
            match outcome {
                Ok(sum) => socket_energy(tree@)(self@) == Ok::<nat, ReadErrorView>(sum as nat),
                Err(e) => socket_energy(tree@)(self@) == Err::<nat, ReadErrorView>(e@),
            },
            outcome matches Ok(sum) ==> sum <= 257 * u64::MAX,
    {
        let own = match self.energy(tree) {
            Ok(value) => value,
            Err(e) => {
                return Err(e);
            },
        };
        let mut sum: u128 = own as u128;
        let ghost mut readings: Seq<nat> = Seq::empty();
        let mut next: u16 = 0;
        while next < 256
            invariant
                next <= 256,
                read_u64(tree@, self@.energy) == Ok::<u64, ReadErrorView>(own),
                gathered(self@.domains, next as nat, domain_energy(tree@)) == Ok::<
                    Seq<nat>,
                    ReadErrorView,
                >(readings),
                sum == own + total(readings),
                sum <= (next + 1) * u64::MAX,
            decreases 256 - next,
        {
            let key: u8 = next as u8;
            match self.domains.get(&key) {
                Some(domain) => {
                    match domain.energy(tree) {
                        Ok(value) => {
                            proof {
                                assert(readings.push(value as nat).drop_last() == readings);
                                readings = readings.push(value as nat);
                            }
                            sum = sum + value as u128;
                        },
                        Err(e) => {
                            proof {
                                lemma_gathered_fails(
                                    self@.domains,
                                    next as nat + 1,
                                    domain_energy(tree@),
                                );
                            }
                            return Err(e);
                        },
                    }
                },
                None => {},
            }
            next += 1;
        }
        Ok(sum)
    }

    /// The values of the socket at this moment: flag, energy and range, read
    /// in this order, then the snapshot of each domain in ascending order of
    /// the identifiers; the first failure where a read fails.
    pub fn snapshot(&self, tree: &FileTree) -> (outcome: Result<SocketSnapshot, ReadError>)
        ensures
            viewed(outcome) == socket_snapshot(tree@)(self@),
            outcome matches Ok(taken) ==> taken.domains@.len() == self.domains@.len(),
    {
        let enabled = match self.enabled(tree) {
            Ok(value) => value,
            Err(e) => {
                return Err(e);
            },
        };
        let energy = match self.energy(tree) {
            Ok(value) => value,
            Err(e) => {
                return Err(e);
            },
        };
        let max_energy_range = match self.max_energy_range(tree) {
            Ok(value) => value,
            Err(e) => {
                return Err(e);
            },
        };
        let mut domains: Vec<DomainSnapshot> = Vec::new();
        let mut next: u16 = 0;
        proof {
            assert(views(domains@) == Seq::<DomainSnapshotView>::empty());
        }
        while next < 256
            invariant
                next <= 256,
                read_bool(tree@, self@.enabled) == Ok::<bool, ReadErrorView>(enabled),
                read_u64(tree@, self@.energy) == Ok::<u64, ReadErrorView>(energy),
                read_u64(tree@, self@.max_energy_range) == Ok::<u64, ReadErrorView>(
                    max_energy_range,
                ),
                gathered(self@.domains, next as nat, domain_snapshot(tree@)) == Ok::<
                    Seq<DomainSnapshotView>,
                    ReadErrorView,
                >(views(domains@)),
            decreases 256 - next,
        {
            let key: u8 = next as u8;
            match self.domains.get(&key) {
                Some(domain) => {
                    match domain.snapshot(tree) {
                        Ok(taken) => {
                            let ghost before = views(domains@);
                            let ghost view = taken@;
                            domains.push(taken);
                            proof {
                                assert(views(domains@) == before.push(view));
                            }
                        },
                        Err(e) => {
                            proof {
                                lemma_gathered_fails(
                                    self@.domains,
                                    next as nat + 1,
                                    domain_snapshot(tree@),
                                );
                            }
                            return Err(e);
                        },
                    }
                },
                None => {},
            }
            next += 1;
        }
        proof {
            lemma_gathered_all(self@.domains, domain_snapshot(tree@));
            assert(self@.domains.dom() == self.domains@.dom());
        }
        Ok(SocketSnapshot { id: self.id, enabled, energy, max_energy_range, domains })
    }
}

/// The values of one socket and of its domains at one moment.
#[derive(Debug)]
pub struct SocketSnapshot {
    pub id: u8,
    pub enabled: bool,
    pub energy: u64,
    pub max_energy_range: u64,
    pub domains: Vec<DomainSnapshot>,
}

impl View for SocketSnapshot {
    type V = SocketSnapshotView;

    open spec fn view(&self) -> SocketSnapshotView {
        SocketSnapshotView {
            id: self.id,
            enabled: self.enabled,
            energy: self.energy,
            max_energy_range: self.max_energy_range,
            domains: views(self.domains@),
        }
    }
}

/// The sockets of the `intel-rapl` directory.
#[derive(Debug)]
pub struct IntelRapl {
    /// The sockets, by identifier.
    pub sockets: HashMap<u8, Socket>,
}

impl View for IntelRapl {
    type V = Map<u8, SocketView>;

    open spec fn view(&self) -> Map<u8, SocketView> {
        socket_views(self.sockets@)
    }
}

impl IntelRapl {
    /// The sockets that a listing of the directory `path` shows. Fails where
    /// the directory cannot be listed, and where the directory of one of its
    /// sockets cannot be listed: with the failure of the first such socket in
    /// the listing.
    pub fn try_from(tree: &FileTree, path: &str) -> (outcome: Result<IntelRapl, BuildError>)
        ensures
            match outcome {
                Ok(found) => sockets_at(tree@, path@) == Ok::<Map<u8, SocketView>, IoFailure>(
                    found@,
                ),
                Err(e) => sockets_at(tree@, path@) matches Err(failure) && e@ == BuildErrorView::Io(
                    failure,
                ),
            },
            outcome matches Ok(found) ==> keyed_by_id(found@),
    {
        let entries = match tree.read_dir(path) {
            Ok(entries) => entries,
            Err(e) => {
                return Err(BuildError::from(e));
            },
        };
        let mut sockets: HashMap<u8, Socket> = HashMap::new();
        let mut i: usize = 0;
        proof {
            assert(socket_views(sockets@) == Map::<u8, SocketView>::empty());
        }
        while i < entries.len()
            invariant
                i <= entries.len(),
                dir_entries(tree@, path@) == Ok::<Seq<Seq<char>>, IoFailure>(texts(entries@)),
                discovered_sockets(tree@, texts(entries@).take(i as int)) == Ok::<
                    Map<u8, SocketView>,
                    IoFailure,
                >(socket_views(sockets@)),
            decreases entries.len() - i,
        {
            let entry: &String = &entries[i];
            proof {
                let listed = texts(entries@).take(i + 1);
                assert(listed.drop_last() == texts(entries@).take(i as int));
                assert(listed.last() == entry@);
            }
            if tree.is_dir(entry.as_str()) {
                match socket_id_of(entry.as_str()) {
                    Some(id) => {
                        match Socket::try_from(tree, id, entry.as_str()) {
                            Ok(socket) => {
                                let ghost before = sockets@;
                                let ghost view = socket@;
                                sockets.insert(socket.id, socket);
                                proof {
                                    assert(socket_views(sockets@) == socket_views(before).insert(
                                        id,
                                        view,
                                    ));
                                }
                            },
                            Err(e) => {
                                proof {
                                    lemma_failure_stays(tree@, texts(entries@), i + 1);
                                }
                                return Err(e);
                            },
                        }
                    },
                    None => {},
                }
            }
            i += 1;
        }
        proof {
            assert(texts(entries@).take(entries.len() as int) == texts(entries@));
            lemma_discovered_keyed_by_id(tree@, texts(entries@));
        }
        Ok(IntelRapl { sockets })
    }

    /// The energy that all sockets and their domains have used, in
    /// microjoules: for each socket its own counter plus the counters of its
    /// domains.
    pub fn total_energy(&self, tree: &FileTree) -> (outcome: Result<u128, ReadError>)
        ensures
            match outcome {
                Ok(sum) => sockets_energy(tree@, self@) == Ok::<nat, ReadErrorView>(sum as nat),
                Err(e) => sockets_energy(tree@, self@) == Err::<nat, ReadErrorView>(e@),
            },
    {
        let mut sum: u128 = 0;
        let ghost mut totals: Seq<nat> = Seq::empty();
        let mut next: u16 = 0;
        while next < 256
            invariant
                next <= 256,
                gathered(self@, next as nat, socket_energy(tree@)) == Ok::<
                    Seq<nat>,
                    ReadErrorView,
                >(totals),
                sum == total(totals),
                sum <= next * (257 * u64::MAX),
            decreases 256 - next,
        {
            let key: u8 = next as u8;
            match self.sockets.get(&key) {
                Some(socket) => {
                    match socket.total_energy(tree) {
                        Ok(value) => {
                            proof {
                                assert(totals.push(value as nat).drop_last() == totals);
                                totals = totals.push(value as nat);
                            }
                            sum = sum + value;
                        },
                        Err(e) => {
                            proof {
                                lemma_gathered_fails(self@, next as nat + 1, socket_energy(tree@));
                            }
                            return Err(e);
                        },
                    }
                },
                None => {},
            }
            next += 1;
        }
        Ok(sum)
    }

    /// The values of every socket at this moment, in ascending order of the
    /// identifiers; the first failure where a read fails.
    pub fn snapshot(&self, tree: &FileTree) -> (outcome: Result<IntelRaplSnapshot, ReadError>)
        ensures
            viewed(outcome) == gathered(self@, 256, socket_snapshot(tree@)),
            outcome matches Ok(taken) ==> taken.sockets@.len() == self.sockets@.len(),
    {
        let mut sockets: Vec<SocketSnapshot> = Vec::new();
        let mut next: u16 = 0;
        proof {
            assert(views(sockets@) == Seq::<SocketSnapshotView>::empty());
        }
        while next < 256
            invariant
                next <= 256,
                gathered(self@, next as nat, socket_snapshot(tree@)) == Ok::<
                    Seq<SocketSnapshotView>,
                    ReadErrorView,
                >(views(sockets@)),
            decreases 256 - next,
        {
            let key: u8 = next as u8;
            match self.sockets.get(&key) {
                Some(socket) => {
                    match socket.snapshot(tree) {
                        Ok(taken) => {
                            let ghost before = views(sockets@);
                            let ghost view = taken@;
                            sockets.push(taken);
                            proof {
                                assert(views(sockets@) == before.push(view));
                            }
                        },
                        Err(e) => {
                            proof {
                                lemma_gathered_fails(
                                    self@,
                                    next as nat + 1,
                                    socket_snapshot(tree@),
                                );
                            }
                            return Err(e);
                        },
                    }
                },
                None => {},
            }
            next += 1;
        }
        proof {
            lemma_gathered_all(self@, socket_snapshot(tree@));
            assert(self@.dom() == self.sockets@.dom());
        }
        Ok(IntelRaplSnapshot { sockets })
    }
}

/// The values of every socket at one moment.
#[derive(Debug)]
pub struct IntelRaplSnapshot {
    pub sockets: Vec<SocketSnapshot>,
}

impl View for IntelRaplSnapshot {
    type V = Seq<SocketSnapshotView>;

    open spec fn view(&self) -> Seq<SocketSnapshotView> {
        views(self.sockets@)
    }
}

/// The power-capping directory of the system.
#[derive(Debug)]
pub struct PowerCap {
    /// What stands below its `intel-rapl` directory.
    pub intel_rapl: IntelRapl,
}

impl View for PowerCap {
    type V = Map<u8, SocketView>;

    open spec fn view(&self) -> Map<u8, SocketView> {
        self.intel_rapl@
    }
}

impl PowerCap {
    /// The hierarchy below `/sys/class/powercap`.
    pub fn try_default(tree: &FileTree) -> (outcome: Result<PowerCap, BuildError>)
        ensures
            match outcome {
                Ok(found) => power_cap_at(tree@, "/sys/class/powercap"@) == Ok::<
                    Map<u8, SocketView>,
                    IoFailure,
                >(found@),
                Err(e) => power_cap_at(tree@, "/sys/class/powercap"@) matches Err(failure) && e@
                    == BuildErrorView::Io(failure),
            },
            outcome matches Ok(found) ==> keyed_by_id(found@),
    {
        PowerCap::try_from(tree, "/sys/class/powercap")
    }

    /// The hierarchy below the power-capping directory `path`. Fails where
    /// `path` cannot be listed, or where its `intel-rapl` directory exists
    /// and it or the directory of one of its sockets cannot be listed;
    /// without an `intel-rapl` directory there are no sockets.
    pub fn try_from(tree: &FileTree, path: &str) -> (outcome: Result<PowerCap, BuildError>)
        ensures
            match outcome {
                Ok(found) => power_cap_at(tree@, path@) == Ok::<Map<u8, SocketView>, IoFailure>(
                    found@,
                ),
                Err(e) => power_cap_at(tree@, path@) matches Err(failure) && e@
                    == BuildErrorView::Io(failure),
            },
            outcome matches Ok(found) ==> keyed_by_id(found@),
    {
        match tree.read_dir(path) {
            Ok(_) => {},
            Err(e) => {
                return Err(BuildError::from(e));
            },
        }
        let below = join(path, "intel-rapl");
        if tree.is_dir(below.as_str()) {
            match IntelRapl::try_from(tree, below.as_str()) {
                Ok(intel_rapl) => Ok(PowerCap { intel_rapl }),
                Err(e) => Err(e),
            }
        } else {
            let sockets: HashMap<u8, Socket> = HashMap::new();
            proof {
                assert(socket_views(sockets@) == Map::<u8, SocketView>::empty());
            }
            Ok(PowerCap { intel_rapl: IntelRapl { sockets } })
        }
    }
}

} // verus!
