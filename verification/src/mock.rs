//! A made-up hierarchy, for trying the library without the hardware.
//!
//! The builder lays out what the operating system would show: below the
//! power-capping directory one `intel-rapl` directory, in it one directory per
//! socket, and in each of these the domains `core`, `nocore` and `dram`. The
//! values of the counters come from generators that the caller may replace.

use crate::naming::{join, joined, marker};
use crate::text::{decimal_text, digits_of};
use crate::tree::{
    extended, lemma_extended_once, lemma_extended_twice, texts, FileTree, Node, NodeView,
};
use vstd::prelude::*;

verus! {

/// A source of one value per socket.
trait SocketGenerator {
    /// Whether `value` may come out for `socket`.
    spec fn yields(&self, socket: usize, value: u64) -> bool;

    fn generate(&self, socket: usize) -> (value: u64)
        ensures
            self.yields(socket, value),
    ;
}

/// A source of one value per domain of a socket.
trait DomainGenerator {
    /// Whether `value` may come out for domain `domain` of `socket`.
    spec fn yields(&self, socket: usize, domain: usize, value: u64) -> bool;

    fn generate(&self, socket: usize, domain: usize) -> (value: u64)
        ensures
            self.yields(socket, domain, value),
    ;
}

/// A function of the socket that can be called for every socket.
struct SocketFn<G: Fn(usize) -> u64>(G);

impl<G: Fn(usize) -> u64> SocketFn<G> {
    #[verifier::type_invariant]
    spec fn callable(self) -> bool {
        forall|socket: usize| call_requires(self.0, (socket,))
    }

    fn new(generator: Box<G>) -> (wrapped: Self)
        requires
            forall|socket: usize| call_requires(*generator, (socket,)),
        ensures
            forall|socket: usize, value: u64|
                wrapped.yields(socket, value) == call_ensures(*generator, (socket,), value),
    {
        SocketFn(*generator)
    }
}

impl<G: Fn(usize) -> u64> SocketGenerator for SocketFn<G> {
    closed spec fn yields(&self, socket: usize, value: u64) -> bool {
        call_ensures(self.0, (socket,), value)
    }

    fn generate(&self, socket: usize) -> (value: u64) {
        proof {
            use_type_invariant(self);
        }
        (self.0)(socket)
    }
}

/// A function of socket and domain that can be called for every pair.
struct DomainFn<G: Fn(usize, usize) -> u64>(G);

impl<G: Fn(usize, usize) -> u64> DomainFn<G> {
    #[verifier::type_invariant]
    spec fn callable(self) -> bool {
        forall|socket: usize, domain: usize| call_requires(self.0, (socket, domain))
    }

    fn new(generator: Box<G>) -> (wrapped: Self)
        requires
            forall|socket: usize, domain: usize| call_requires(*generator, (socket, domain)),
        ensures
            forall|socket: usize, domain: usize, value: u64|
                wrapped.yields(socket, domain, value) == call_ensures(
                    *generator,
                    (socket, domain),
                    value,
                ),
    {
        DomainFn(*generator)
    }
}

impl<G: Fn(usize, usize) -> u64> DomainGenerator for DomainFn<G> {
    closed spec fn yields(&self, socket: usize, domain: usize, value: u64) -> bool {
        call_ensures(self.0, (socket, domain), value)
    }

    fn generate(&self, socket: usize, domain: usize) -> (value: u64) {
        proof {
            use_type_invariant(self);
        }
        (self.0)(socket, domain)
    }
}

/// The value of a socket where no generator was given.
pub fn default_socket_generator(_socket: usize) -> (value: u64)
    ensures
        value == 1234,
{
    1234
}

/// The value of a domain where no generator was given.
pub fn default_domain_generator(_socket: usize, _domain: usize) -> (value: u64)
    ensures
        value == 1234,
{
    1234
}

/// The values that the generators gave for one socket: its energy, the range
/// of its counter, and the same two for each of its domains.
pub struct SocketValues {
    pub energy: u64,
    pub range: u64,
    pub domains: Seq<(u64, u64)>,
}

/// The text of a flag.
pub open spec fn flag_text(enabled: bool) -> Seq<char> {
    if enabled {
        "1"@
    } else {
        "0"@
    }
}

/// The paths of the four metric files of the directory `dir`.
pub open spec fn metric_paths(dir: Seq<char>) -> Seq<Seq<char>> {
    seq![
        joined(dir, "name"@),
        joined(dir, "enabled"@),
        joined(dir, "energy_uj"@),
        joined(dir, "max_energy_range_uj"@),
    ]
}

/// The four metric files of the directory `dir`.
pub open spec fn metric_nodes(
    dir: Seq<char>,
    name: Seq<char>,
    enabled: bool,
    energy: u64,
    range: u64,
) -> Seq<(Seq<char>, NodeView)> {
    seq![
        (joined(dir, "name"@), NodeView::File(Ok(name))),
        (joined(dir, "enabled"@), NodeView::File(Ok(flag_text(enabled)))),
        (joined(dir, "energy_uj"@), NodeView::File(Ok(digits_of(energy as nat)))),
        (joined(dir, "max_energy_range_uj"@), NodeView::File(Ok(digits_of(range as nat)))),
    ]
}

/// The directory `dir` of a domain, and its files.
pub open spec fn domain_nodes(
    dir: Seq<char>,
    name: Seq<char>,
    enabled: bool,
    energy: u64,
    range: u64,
) -> Seq<(Seq<char>, NodeView)> {
    seq![(dir, NodeView::Directory(Ok(metric_paths(dir))))] + metric_nodes(
        dir,
        name,
        enabled,
        energy,
        range,
    )
}

/// The name of the directory of socket `socket`.
pub open spec fn socket_dir_name(socket: usize) -> Seq<char> {
    marker() + digits_of(socket as nat)
}

/// The name of the directory of domain `domain` of socket `socket`.
pub open spec fn domain_dir_name(socket: usize, domain: usize) -> Seq<char> {
    socket_dir_name(socket) + seq![':'] + digits_of(domain as nat)
}

/// The name that the domain `domain` of a socket goes by.
pub open spec fn domain_name(domain: usize) -> Seq<char> {
    if domain == 0 {
        "core"@
    } else if domain == 1 {
        "nocore"@
    } else {
        "dram"@
    }
}

/// The directory `dir` of socket `socket`, its files, and its three domains.
pub open spec fn socket_nodes(dir: Seq<char>, enabled: bool, socket: usize, values: SocketValues) -> Seq<
    (Seq<char>, NodeView),
> {
    seq![
        (
            dir,
            NodeView::Directory(
                Ok(
                    metric_paths(dir) + seq![
                        joined(dir, domain_dir_name(socket, 0)),
                        joined(dir, domain_dir_name(socket, 1)),
                        joined(dir, domain_dir_name(socket, 2)),
                    ],
                ),
            ),
        ),
    ] + metric_nodes(
        dir,
        "package-"@ + digits_of(socket as nat),
        enabled,
        values.energy,
        values.range,
    ) + domain_nodes(
        joined(dir, domain_dir_name(socket, 0)),
        domain_name(0),
        enabled,
        values.domains[0].0,
        values.domains[0].1,
    ) + domain_nodes(
        joined(dir, domain_dir_name(socket, 1)),
        domain_name(1),
        enabled,
        values.domains[1].0,
        values.domains[1].1,
    ) + domain_nodes(
        joined(dir, domain_dir_name(socket, 2)),
        domain_name(2),
        enabled,
        values.domains[2].0,
        values.domains[2].1,
    )
}

/// The paths of the directories of the first `count` sockets below `dir`.
pub open spec fn socket_dirs(dir: Seq<char>, count: nat) -> Seq<Seq<char>> {
    Seq::new(count, |socket: int| joined(dir, socket_dir_name(socket as usize)))
}

/// The directories and files of the sockets below `dir`, one after the other.
pub open spec fn sockets_nodes(dir: Seq<char>, enabled: bool, values: Seq<SocketValues>) -> Seq<
    (Seq<char>, NodeView),
>
    decreases values.len(),
{
    if values.len() == 0 {
        Seq::empty()
    } else {
        sockets_nodes(dir, enabled, values.drop_last()) + socket_nodes(
            joined(dir, socket_dir_name((values.len() - 1) as usize)),
            enabled,
            (values.len() - 1) as usize,
            values.last(),
        )
    }
}

/// The `intel-rapl` directory `dir`, its flag, and its sockets.
pub open spec fn intel_rapl_nodes(dir: Seq<char>, enabled: bool, values: Seq<SocketValues>) -> Seq<
    (Seq<char>, NodeView),
> {
    seq![
        (
            dir,
            NodeView::Directory(Ok(seq![joined(dir, "enabled"@)] + socket_dirs(dir, values.len()))),
        ),
        (joined(dir, "enabled"@), NodeView::File(Ok(flag_text(enabled)))),
    ] + sockets_nodes(dir, enabled, values)
}

/// The record of a power-capping directory `path` whose counters hold `values`.
pub open spec fn mock_tree(path: Seq<char>, enabled: bool, values: Seq<SocketValues>) -> Map<
    Seq<char>,
    NodeView,
> {
    extended(
        Map::empty(),
        seq![(path, NodeView::Directory(Ok(seq![joined(path, "intel-rapl"@)])))] + intel_rapl_nodes(
            joined(path, "intel-rapl"@),
            enabled,
            values,
        ),
    )
}

/// Builds the record of a made-up hierarchy.
pub struct MockBuilder {
    enabled: bool,
    sockets: usize,
    socket_energy_generator: Box<dyn SocketGenerator>,
    socket_max_energy_range_generator: Box<dyn SocketGenerator>,
    domain_energy_generator: Box<dyn DomainGenerator>,
    domain_max_energy_range_generator: Box<dyn DomainGenerator>,
}

impl Default for MockBuilder {
    /// One enabled socket, and 1234 for every counter and every range.
    fn default() -> (builder: MockBuilder)
        ensures
            builder.is_enabled(),
            builder.socket_count() == 1,
            forall|socket: usize, value: u64| #[trigger]
                builder.socket_energy()(socket, value) ==> value == 1234,
            forall|socket: usize, value: u64| #[trigger]
                builder.socket_range()(socket, value) ==> value == 1234,
            forall|socket: usize, domain: usize, value: u64| #[trigger]
                builder.domain_energy()(socket, domain, value) ==> value == 1234,
            forall|socket: usize, domain: usize, value: u64| #[trigger]
                builder.domain_range()(socket, domain, value) ==> value == 1234,
    {
        MockBuilder {
            enabled: true,
            sockets: 1,
            socket_energy_generator: Box::new(SocketFn::new(Box::new(default_socket_generator))),
            socket_max_energy_range_generator: Box::new(
                SocketFn::new(Box::new(default_socket_generator)),
            ),
            domain_energy_generator: Box::new(DomainFn::new(Box::new(default_domain_generator))),
            domain_max_energy_range_generator: Box::new(
                DomainFn::new(Box::new(default_domain_generator)),
            ),
        }
    }
}

impl MockBuilder {
    /// Whether the flags of the hierarchy will be set.
    pub closed spec fn is_enabled(&self) -> bool {
        self.enabled
    }

    /// How many sockets the hierarchy will have.
    pub closed spec fn socket_count(&self) -> usize {
        self.sockets
    }

    /// Which energy a socket may get.
    pub closed spec fn socket_energy(&self) -> spec_fn(usize, u64) -> bool {
        |socket: usize, value: u64| self.socket_energy_generator.yields(socket, value)
    }

    /// Which range the counter of a socket may get.
    pub closed spec fn socket_range(&self) -> spec_fn(usize, u64) -> bool {
        |socket: usize, value: u64| self.socket_max_energy_range_generator.yields(socket, value)
    }

    /// Which energy a domain of a socket may get.
    pub closed spec fn domain_energy(&self) -> spec_fn(usize, usize, u64) -> bool {
        |socket: usize, domain: usize, value: u64|
            self.domain_energy_generator.yields(socket, domain, value)
    }

    /// Which range the counter of a domain of a socket may get.
    pub closed spec fn domain_range(&self) -> spec_fn(usize, usize, u64) -> bool {
        |socket: usize, domain: usize, value: u64|
            self.domain_max_energy_range_generator.yields(socket, domain, value)
    }

    /// Whether `values` may come out of the generators for the sockets of the
    /// hierarchy.
    pub open spec fn generated(&self, values: Seq<SocketValues>) -> bool {
        &&& values.len() == self.socket_count()
        &&& forall|socket: int|
            0 <= socket < values.len() ==> self.generated_for(
                socket as usize,
                #[trigger] values[socket],
            )
    }

    /// Whether `values` may come out of the generators for socket `socket`.
    pub open spec fn generated_for(&self, socket: usize, values: SocketValues) -> bool {
        &&& self.socket_energy()(socket, values.energy)
        &&& self.socket_range()(socket, values.range)
        &&& values.domains.len() == 3
        &&& forall|domain: int|
            0 <= domain < 3 ==> {
                &&& self.domain_energy()(socket, domain as usize, (#[trigger] values.domains[domain]).0)
                &&& self.domain_range()(socket, domain as usize, values.domains[domain].1)
            }
    }

    /// Sets the flags of the hierarchy.
    pub fn with_enabled(self, value: bool) -> (builder: MockBuilder)
        ensures
            builder.is_enabled() == value,
            builder.socket_count() == self.socket_count(),
            builder.socket_energy() == self.socket_energy(),
            builder.socket_range() == self.socket_range(),
            builder.domain_energy() == self.domain_energy(),
            builder.domain_range() == self.domain_range(),
    {
        let mut builder = self;
        builder.enabled = value;
        builder
    }

    /// Sets the number of sockets.
    pub fn with_sockets(self, value: usize) -> (builder: MockBuilder)
        ensures
            builder.is_enabled() == self.is_enabled(),
            builder.socket_count() == value,
            builder.socket_energy() == self.socket_energy(),
            builder.socket_range() == self.socket_range(),
            builder.domain_energy() == self.domain_energy(),
            builder.domain_range() == self.domain_range(),
    {
        let mut builder = self;
        builder.sockets = value;
        builder
    }

    /// Sets where the energy of a socket comes from.
    pub fn with_socket_energy_generator<G: Fn(usize) -> u64 + 'static>(
        self,
        value: Box<G>,
    ) -> (builder: MockBuilder)
        requires
            forall|socket: usize| call_requires(*value, (socket,)),
        ensures
            builder.is_enabled() == self.is_enabled(),
            builder.socket_count() == self.socket_count(),
            forall|socket: usize, energy: u64| #[trigger]
                builder.socket_energy()(socket, energy) == call_ensures(*value, (socket,), energy),
            builder.socket_range() == self.socket_range(),
            builder.domain_energy() == self.domain_energy(),
            builder.domain_range() == self.domain_range(),
    {
        let mut builder = self;
        builder.socket_energy_generator = Box::new(SocketFn::new(value));
        builder
    }

    /// Sets where the range of the counter of a socket comes from.
    pub fn with_socket_max_energy_range_generator<G: Fn(usize) -> u64 + 'static>(
        self,
        value: Box<G>,
    ) -> (builder: MockBuilder)
        requires
            forall|socket: usize| call_requires(*value, (socket,)),
        ensures
            builder.is_enabled() == self.is_enabled(),
            builder.socket_count() == self.socket_count(),
            builder.socket_energy() == self.socket_energy(),
            forall|socket: usize, range: u64| #[trigger]
                builder.socket_range()(socket, range) == call_ensures(*value, (socket,), range),
            builder.domain_energy() == self.domain_energy(),
            builder.domain_range() == self.domain_range(),
    {
        let mut builder = self;
        builder.socket_max_energy_range_generator = Box::new(SocketFn::new(value));
        builder
    }

    /// Sets where the energy of a domain comes from.
    pub fn with_domain_energy_generator<G: Fn(usize, usize) -> u64 + 'static>(
        self,
        value: Box<G>,
    ) -> (builder: MockBuilder)
        requires
            forall|socket: usize, domain: usize| call_requires(*value, (socket, domain)),
        ensures
            builder.is_enabled() == self.is_enabled(),
            builder.socket_count() == self.socket_count(),
            builder.socket_energy() == self.socket_energy(),
            builder.socket_range() == self.socket_range(),
            forall|socket: usize, domain: usize, energy: u64| #[trigger]
                builder.domain_energy()(socket, domain, energy) == call_ensures(
                    *value,
                    (socket, domain),
                    energy,
                ),
            builder.domain_range() == self.domain_range(),
    {
        let mut builder = self;
        builder.domain_energy_generator = Box::new(DomainFn::new(value));
        builder
    }

    /// Sets where the range of the counter of a domain comes from.
    pub fn with_domain_max_energy_range_generator<G: Fn(usize, usize) -> u64 + 'static>(
        self,
        value: Box<G>,
    ) -> (builder: MockBuilder)
        requires
            forall|socket: usize, domain: usize| call_requires(*value, (socket, domain)),
        ensures
            builder.is_enabled() == self.is_enabled(),
            builder.socket_count() == self.socket_count(),
            builder.socket_energy() == self.socket_energy(),
            builder.socket_range() == self.socket_range(),
            builder.domain_energy() == self.domain_energy(),
            forall|socket: usize, domain: usize, range: u64| #[trigger]
                builder.domain_range()(socket, domain, range) == call_ensures(
                    *value,
                    (socket, domain),
                    range,
                ),
    {
        let mut builder = self;
        builder.domain_max_energy_range_generator = Box::new(DomainFn::new(value));
        builder
    }

    /// Enters the four metric files of the directory `dir`.
    fn build_metrics(
        &self,
        tree: &mut FileTree,
        dir: &str,
        name: String,
        energy: u64,
        range: u64,
    )
        ensures
            final(tree)@ == extended(
                old(tree)@,
                metric_nodes(dir@, name@, self.is_enabled(), energy, range),
            ),
    {
        let ghost start = tree@;
        let ghost nodes = metric_nodes(dir@, name@, self.is_enabled(), energy, range);
        let flag = if self.enabled {
            String::from_str("1")
        } else {
            String::from_str("0")
        };
        tree.insert(join(dir, "name"), Node::File(Ok(name)));
        tree.insert(join(dir, "enabled"), Node::File(Ok(flag)));
        tree.insert(join(dir, "energy_uj"), Node::File(Ok(decimal_text(energy))));
        tree.insert(join(dir, "max_energy_range_uj"), Node::File(Ok(decimal_text(range))));
        proof {
            reveal_with_fuel(extended, 5);
            assert(nodes.drop_last().drop_last().drop_last().drop_last() =~= Seq::empty());
            assert(nodes.drop_last().drop_last().drop_last() =~= seq![nodes[0]]);
            assert(nodes.drop_last().drop_last() =~= seq![nodes[0], nodes[1]]);
            assert(nodes.drop_last() =~= seq![nodes[0], nodes[1], nodes[2]]);
        }
    }

    /// The paths of the four metric files of the directory `dir`.
    fn metric_paths_of(dir: &str) -> (paths: Vec<String>)
        ensures
            texts(paths@) == metric_paths(dir@),
    {
        let mut paths: Vec<String> = Vec::new();
        paths.push(join(dir, "name"));
        paths.push(join(dir, "enabled"));
        paths.push(join(dir, "energy_uj"));
        paths.push(join(dir, "max_energy_range_uj"));
        proof {
            assert(texts(paths@) =~= metric_paths(dir@));
        }
        paths
    }

    /// Enters the directory `path` of domain `domain` of socket `socket`, and
    /// its files.
    fn build_domain(
        &self,
        tree: &mut FileTree,
        path: &str,
        socket: usize,
        domain: usize,
        name: &str,
    ) -> (values: Ghost<(u64, u64)>)
        ensures
            self.domain_energy()(socket, domain, values@.0),
            self.domain_range()(socket, domain, values@.1),
            final(tree)@ == extended(
                old(tree)@,
                domain_nodes(path@, name@, self.is_enabled(), values@.0, values@.1),
            ),
    {
        let ghost start = tree@;
        let energy = self.domain_energy_generator.generate(socket, domain);
        let range = self.domain_max_energy_range_generator.generate(socket, domain);
        tree.insert(path.to_owned(), Node::Directory(Ok(Self::metric_paths_of(path))));
        self.build_metrics(tree, path, name.to_owned(), energy, range);
        proof {
            let head = seq![(path@, NodeView::Directory(Ok(metric_paths(path@))))];
            lemma_extended_once(start, path@, NodeView::Directory(Ok(metric_paths(path@))));
            lemma_extended_twice(
                start,
                head,
                metric_nodes(path@, name@, self.is_enabled(), energy, range),
            );
        }
        Ghost((energy, range))
    }

    /// The name of the directory of socket `socket`.
    fn socket_dir_name_of(socket: usize) -> (name: String)
        ensures
            name@ == socket_dir_name(socket),
    {
        String::from_str("intel-rapl:").concat(decimal_text(socket as u64).as_str())
    }

    /// The name of the directory of domain `domain` of socket `socket`.
    fn domain_dir_name_of(socket: usize, domain: usize) -> (name: String)
        ensures
            name@ == domain_dir_name(socket, domain),
    {
        proof {
            reveal_strlit(":");
            assert(":"@ =~= seq![':']);
        }
        Self::socket_dir_name_of(socket).concat(":").concat(decimal_text(domain as u64).as_str())
    }

    /// Enters the directory `path` of socket `socket`, its files, and its
    /// three domains.
    fn build_socket(&self, tree: &mut FileTree, path: &str, socket: usize) -> (values: Ghost<
        SocketValues,
    >)
        ensures
            self.generated_for(socket, values@),
            final(tree)@ == extended(
                old(tree)@,
                socket_nodes(path@, self.is_enabled(), socket, values@),
            ),
    {
        let ghost start = tree@;
        let energy = self.socket_energy_generator.generate(socket);
        let range = self.socket_max_energy_range_generator.generate(socket);
        let core = join(path, Self::domain_dir_name_of(socket, 0).as_str());
        let nocore = join(path, Self::domain_dir_name_of(socket, 1).as_str());
        let dram = join(path, Self::domain_dir_name_of(socket, 2).as_str());
        let mut entries = Self::metric_paths_of(path);
        entries.push(core.clone());
        entries.push(nocore.clone());
        entries.push(dram.clone());
        let ghost listing = metric_paths(path@) + seq![core@, nocore@, dram@];
        proof {
            assert(texts(entries@) =~= listing);
        }
        tree.insert(path.to_owned(), Node::Directory(Ok(entries)));
        let name = String::from_str("package-").concat(decimal_text(socket as u64).as_str());
        let ghost label = name@;
        self.build_metrics(tree, path, name, energy, range);
        let first = self.build_domain(tree, core.as_str(), socket, 0, "core");
        let second = self.build_domain(tree, nocore.as_str(), socket, 1, "nocore");
        let third = self.build_domain(tree, dram.as_str(), socket, 2, "dram");
        let ghost values = SocketValues {
            energy,
            range,
            domains: seq![first@, second@, third@],
        };
        proof {
            let head = seq![(path@, NodeView::Directory(Ok(listing)))];
            let metrics = metric_nodes(path@, label, self.is_enabled(), energy, range);
            let one = domain_nodes(core@, "core"@, self.is_enabled(), first@.0, first@.1);
            let two = domain_nodes(nocore@, "nocore"@, self.is_enabled(), second@.0, second@.1);
            let three = domain_nodes(dram@, "dram"@, self.is_enabled(), third@.0, third@.1);
            lemma_extended_once(start, path@, NodeView::Directory(Ok(listing)));
            lemma_extended_twice(start, head, metrics);
            lemma_extended_twice(start, head + metrics, one);
            lemma_extended_twice(start, head + metrics + one, two);
            lemma_extended_twice(start, head + metrics + one + two, three);
            assert(socket_nodes(path@, self.is_enabled(), socket, values) == head + metrics + one
                + two + three);
        }
        Ghost(values)
    }

    /// Enters the `intel-rapl` directory `path`, its flag, and its sockets.
    fn build_intel_rapl(&self, tree: &mut FileTree, path: &str) -> (values: Ghost<
        Seq<SocketValues>,
    >)
        ensures
            self.generated(values@),
            final(tree)@ == extended(
                old(tree)@,
                intel_rapl_nodes(path@, self.is_enabled(), values@),
            ),
    {
        let ghost start = tree@;
        let flag_path = join(path, "enabled");
        let mut entries: Vec<String> = Vec::new();
        entries.push(flag_path.clone());
        let mut listed: usize = 0;
        while listed < self.sockets
            invariant
                listed <= self.sockets,
                flag_path@ == joined(path@, "enabled"@),
                texts(entries@) == seq![flag_path@] + socket_dirs(path@, listed as nat),
            decreases self.sockets - listed,
        {
            let ghost before = texts(entries@);
            let dir = join(path, Self::socket_dir_name_of(listed).as_str());
            entries.push(dir);
            proof {
                assert(texts(entries@) =~= before.push(
                    joined(path@, socket_dir_name(listed)),
                ));
                assert(socket_dirs(path@, listed as nat + 1) =~= socket_dirs(
                    path@,
                    listed as nat,
                ).push(joined(path@, socket_dir_name(listed))));
            }
            listed += 1;
        }
        let ghost listing = texts(entries@);
        let flag = if self.enabled {
            String::from_str("1")
        } else {
            String::from_str("0")
        };
        tree.insert(path.to_owned(), Node::Directory(Ok(entries)));
        tree.insert(flag_path, Node::File(Ok(flag)));
        let ghost head = seq![
            (path@, NodeView::Directory(Ok(listing))),
            (joined(path@, "enabled"@), NodeView::File(Ok(flag_text(self.is_enabled())))),
        ];
        proof {
            reveal_with_fuel(extended, 3);
            assert(head.drop_last() =~= seq![head[0]]);
            assert(head.drop_last().drop_last() =~= Seq::empty());
            assert(tree@ == extended(start, head));
        }
        let ghost mut values: Seq<SocketValues> = Seq::empty();
        let mut socket: usize = 0;
        while socket < self.sockets
            invariant
                socket <= self.sockets,
                values.len() == socket,
                forall|built: int|
                    0 <= built < values.len() ==> self.generated_for(
                        built as usize,
                        #[trigger] values[built],
                    ),
                tree@ == extended(start, head + sockets_nodes(path@, self.is_enabled(), values)),
            decreases self.sockets - socket,
        {
            let ghost before = values;
            let dir = join(path, Self::socket_dir_name_of(socket).as_str());
            let built = self.build_socket(tree, dir.as_str(), socket);
            proof {
                values = before.push(built@);
                assert(values.drop_last() == before);
                lemma_extended_twice(
                    start,
                    head + sockets_nodes(path@, self.is_enabled(), before),
                    socket_nodes(dir@, self.is_enabled(), socket, built@),
                );
                assert(head + sockets_nodes(path@, self.is_enabled(), values) == head
                    + sockets_nodes(path@, self.is_enabled(), before) + socket_nodes(
                    dir@,
                    self.is_enabled(),
                    socket,
                    built@,
                ));
            }
            socket += 1;
        }
        Ghost(values)
    }

    /// The record of a hierarchy below the power-capping directory `path`,
    /// with the values that the generators give.
    pub fn build(&self, path: &str) -> (tree: FileTree)
        ensures
            exists|values: Seq<SocketValues>|
                self.generated(values) && tree@ == mock_tree(path@, self.is_enabled(), values),
    {
        let mut tree = FileTree::new();
        let intel_rapl = join(path, "intel-rapl");
        let mut entries: Vec<String> = Vec::new();
        entries.push(intel_rapl.clone());
        proof {
            assert(texts(entries@) =~= seq![intel_rapl@]);
        }
        tree.insert(path.to_owned(), Node::Directory(Ok(entries)));
        let values = self.build_intel_rapl(&mut tree, intel_rapl.as_str());
        proof {
            let top = NodeView::Directory(Ok(seq![joined(path@, "intel-rapl"@)]));
            lemma_extended_once(Map::empty(), path@, top);
            lemma_extended_twice(
                Map::empty(),
                seq![(path@, top)],
                intel_rapl_nodes(intel_rapl@, self.is_enabled(), values@),
            );
            assert(self.generated(values@));
        }
        tree
    }
}

} // verus!
