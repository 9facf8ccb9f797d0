use powercap::mock::MockBuilder;
use powercap::tree::{FileTree, IoFailure, Node};
use powercap::{BuildError, Domain, IntelRapl, PowerCap, ReadError, Socket};

fn file(tree: &mut FileTree, path: &str, text: &str) {
    tree.insert(path.to_string(), Node::File(Ok(text.to_string())));
}

fn dir(tree: &mut FileTree, path: &str, entries: &[&str]) {
    tree.insert(
        path.to_string(),
        Node::Directory(Ok(entries.iter().map(|e| e.to_string()).collect())),
    );
}

fn metrics(tree: &mut FileTree, root: &str, name: &str, enabled: &str, energy: &str, range: &str) {
    file(tree, &format!("{}/name", root), name);
    file(tree, &format!("{}/enabled", root), enabled);
    file(tree, &format!("{}/energy_uj", root), energy);
    file(tree, &format!("{}/max_energy_range_uj", root), range);
}

/// One socket with energy 100 and range 500, and three domains with energy 10
/// and range 50 each.
fn one_socket_three_domains() -> FileTree {
    let mut tree = FileTree::new();
    dir(&mut tree, "/pc", &["/pc/intel-rapl"]);
    dir(
        &mut tree,
        "/pc/intel-rapl",
        &["/pc/intel-rapl/enabled", "/pc/intel-rapl/intel-rapl:0", "/pc/intel-rapl/power"],
    );
    file(&mut tree, "/pc/intel-rapl/enabled", "1\n");
    dir(&mut tree, "/pc/intel-rapl/power", &[]);
    dir(
        &mut tree,
        "/pc/intel-rapl/intel-rapl:0",
        &[
            "/pc/intel-rapl/intel-rapl:0/name",
            "/pc/intel-rapl/intel-rapl:0/enabled",
            "/pc/intel-rapl/intel-rapl:0/energy_uj",
            "/pc/intel-rapl/intel-rapl:0/max_energy_range_uj",
            "/pc/intel-rapl/intel-rapl:0/intel-rapl:0:0",
            "/pc/intel-rapl/intel-rapl:0/intel-rapl:0:1",
            "/pc/intel-rapl/intel-rapl:0/intel-rapl:0:2",
            "/pc/intel-rapl/intel-rapl:0/uevent",
        ],
    );
    metrics(&mut tree, "/pc/intel-rapl/intel-rapl:0", "package-0\n", "1\n", "100\n", "500\n");
    file(&mut tree, "/pc/intel-rapl/intel-rapl:0/uevent", "");
    for (i, name) in ["core", "uncore", "dram"].iter().enumerate() {
        let root = format!("/pc/intel-rapl/intel-rapl:0/intel-rapl:0:{}", i);
        dir(&mut tree, &root, &[]);
        metrics(&mut tree, &root, name, "1", "10", "50");
    }
    tree
}

#[test]
fn build_and_measure() {
    let root = "/tmp/mock";
    let tree = MockBuilder::default()
        .with_enabled(true)
        .with_sockets(1)
        .with_socket_energy_generator(Box::new(|_| 100))
        .with_socket_max_energy_range_generator(Box::new(|_| 500))
        .with_domain_energy_generator(Box::new(|_, _| 10))
        .with_domain_max_energy_range_generator(Box::new(|_, _| 50))
        .build(root);
    let cap = PowerCap::try_from(&tree, root).unwrap();
    let value = cap.intel_rapl.total_energy(&tree).unwrap();
    assert_eq!(value, 130);
    for socket in cap.intel_rapl.sockets.values() {
        assert!(socket.enabled(&tree).unwrap());
        assert_eq!(socket.energy(&tree).unwrap(), 100);
        assert_eq!(socket.max_energy_range(&tree).unwrap(), 500);
        assert_eq!(socket.total_energy(&tree).unwrap(), 130);
        for domain in socket.domains.values() {
            assert!(domain.name(&tree).is_ok());
            assert_eq!(domain.energy(&tree).unwrap(), 10);
            assert_eq!(domain.max_energy_range(&tree).unwrap(), 50);
        }
    }
    let snap = cap.intel_rapl.snapshot(&tree).unwrap();
    assert_eq!(snap.sockets.len(), cap.intel_rapl.sockets.len());
    assert_eq!(snap.sockets.len(), 1);
    assert_eq!(snap.sockets[0].domains.len(), 3);
}

#[test]
fn serialize_all() {
    let root = "/tmp/mock";
    let tree = MockBuilder::default().build(root);
    let cap = PowerCap::try_from(&tree, root).unwrap();
    let snap = cap.intel_rapl.snapshot(&tree).unwrap();
    assert_eq!(snap.sockets.len(), 1);
    let socket = &snap.sockets[0];
    assert_eq!(socket.id, 0);
    assert!(socket.enabled);
    assert_eq!(socket.energy, 1234);
    assert_eq!(socket.max_energy_range, 1234);
    let names: Vec<&str> = socket.domains.iter().map(|d| d.name.as_str()).collect();
    assert_eq!(names, vec!["core", "nocore", "dram"]);
    for (i, domain) in socket.domains.iter().enumerate() {
        assert_eq!(domain.id as usize, i);
        assert!(domain.enabled);
        assert_eq!(domain.energy, 1234);
        assert_eq!(domain.max_energy_range, 1234);
    }
}

#[test]
fn identifiers_come_from_the_directory_names() {
    let mut tree = FileTree::new();
    dir(
        &mut tree,
        "/r",
        &["/r/intel-rapl:3", "/r/intel-rapl:17", "/r/intel-rapl:255", "/r/intel-rapl:007"],
    );
    dir(&mut tree, "/r/intel-rapl:3", &["/r/intel-rapl:3/intel-rapl:3:9"]);
    dir(&mut tree, "/r/intel-rapl:3/intel-rapl:3:9", &[]);
    dir(&mut tree, "/r/intel-rapl:17", &[]);
    dir(&mut tree, "/r/intel-rapl:255", &[]);
    dir(&mut tree, "/r/intel-rapl:007", &[]);
    let rapl = IntelRapl::try_from(&tree, "/r").unwrap();
    let mut ids: Vec<u8> = rapl.sockets.keys().copied().collect();
    ids.sort();
    assert_eq!(ids, vec![3, 7, 17, 255]);
    for (id, socket) in rapl.sockets.iter() {
        assert_eq!(*id, socket.id);
        for (domain_id, domain) in socket.domains.iter() {
            assert_eq!(*domain_id, domain.id);
        }
    }
    let socket = &rapl.sockets[&3];
    assert_eq!(socket.domains.len(), 1);
    assert_eq!(socket.domains[&9].id, 9);
    assert_eq!(socket.energy.path(), "/r/intel-rapl:3/energy_uj");
    assert_eq!(socket.enabled.path(), "/r/intel-rapl:3/enabled");
    assert_eq!(socket.max_energy_range.path(), "/r/intel-rapl:3/max_energy_range_uj");
    let domain = &socket.domains[&9];
    assert_eq!(domain.name.path(), "/r/intel-rapl:3/intel-rapl:3:9/name");
    assert_eq!(domain.enabled.path(), "/r/intel-rapl:3/intel-rapl:3:9/enabled");
    assert_eq!(domain.energy.path(), "/r/intel-rapl:3/intel-rapl:3:9/energy_uj");
    assert_eq!(
        domain.max_energy_range.path(),
        "/r/intel-rapl:3/intel-rapl:3:9/max_energy_range_uj"
    );
    assert_eq!(rapl.sockets[&7].energy.path(), "/r/intel-rapl:007/energy_uj");
}

#[test]
fn other_names_give_an_empty_collection() {
    let mut tree = FileTree::new();
    dir(
        &mut tree,
        "/r",
        &["/r/power", "/r/uevent", "/r/subsystem", "/r/intel-rapl", "/r/intel-rapl:x", "/r/intel-rapl:256"],
    );
    dir(&mut tree, "/r/power", &[]);
    dir(&mut tree, "/r/subsystem", &[]);
    dir(&mut tree, "/r/intel-rapl", &[]);
    dir(&mut tree, "/r/intel-rapl:x", &[]);
    dir(&mut tree, "/r/intel-rapl:256", &[]);
    file(&mut tree, "/r/uevent", "");
    let rapl = IntelRapl::try_from(&tree, "/r").unwrap();
    assert!(rapl.sockets.is_empty());
    assert_eq!(rapl.total_energy(&tree).unwrap(), 0);
    assert!(rapl.snapshot(&tree).unwrap().sockets.is_empty());
    let socket = Socket::try_from(&tree, 0, "/r").unwrap();
    assert!(socket.domains.is_empty());
}

#[test]
fn empty_directory_gives_an_empty_collection() {
    let mut tree = FileTree::new();
    dir(&mut tree, "/r", &[]);
    assert!(IntelRapl::try_from(&tree, "/r").unwrap().sockets.is_empty());
}

#[test]
fn plain_files_in_a_listing_are_ignored() {
    let mut tree = FileTree::new();
    dir(&mut tree, "/r", &["/r/intel-rapl:0", "/r/intel-rapl:1", "/r/intel-rapl:2"]);
    file(&mut tree, "/r/intel-rapl:0", "a file with the name of a socket");
    dir(&mut tree, "/r/intel-rapl:1", &["/r/intel-rapl:1/intel-rapl:1:0", "/r/intel-rapl:1/intel-rapl:1:1"]);
    file(&mut tree, "/r/intel-rapl:1/intel-rapl:1:0", "a file with the name of a domain");
    dir(&mut tree, "/r/intel-rapl:1/intel-rapl:1:1", &[]);
    let rapl = IntelRapl::try_from(&tree, "/r").unwrap();
    let mut ids: Vec<u8> = rapl.sockets.keys().copied().collect();
    ids.sort();
    assert_eq!(ids, vec![1]);
    let domains: Vec<u8> = rapl.sockets[&1].domains.keys().copied().collect();
    assert_eq!(domains, vec![1]);
}

#[test]
fn domains_of_another_socket_are_left_out() {
    let mut tree = FileTree::new();
    dir(
        &mut tree,
        "/r/intel-rapl:0",
        &["/r/intel-rapl:0/intel-rapl:0:0", "/r/intel-rapl:0/intel-rapl:1:1", "/r/intel-rapl:0/intel-rapl:00:2"],
    );
    dir(&mut tree, "/r/intel-rapl:0/intel-rapl:0:0", &[]);
    dir(&mut tree, "/r/intel-rapl:0/intel-rapl:1:1", &[]);
    dir(&mut tree, "/r/intel-rapl:0/intel-rapl:00:2", &[]);
    let socket = Socket::try_from(&tree, 0, "/r/intel-rapl:0").unwrap();
    let mut ids: Vec<u8> = socket.domains.keys().copied().collect();
    ids.sort();
    assert_eq!(ids, vec![0, 2]);
}

#[test]
fn later_entry_replaces_earlier_with_the_same_identifier() {
    let mut tree = FileTree::new();
    dir(&mut tree, "/r", &["/r/a/intel-rapl:1", "/r/b/intel-rapl:01", "/r/c/intel-rapl:2"]);
    dir(&mut tree, "/r/a/intel-rapl:1", &["/r/a/intel-rapl:1/intel-rapl:1:0"]);
    dir(&mut tree, "/r/a/intel-rapl:1/intel-rapl:1:0", &[]);
    dir(&mut tree, "/r/b/intel-rapl:01", &[]);
    dir(&mut tree, "/r/c/intel-rapl:2", &[]);
    let rapl = IntelRapl::try_from(&tree, "/r").unwrap();
    assert_eq!(rapl.sockets.len(), 2);
    assert_eq!(rapl.sockets[&1].energy.path(), "/r/b/intel-rapl:01/energy_uj");
    assert!(rapl.sockets[&1].domains.is_empty());

    let mut other = FileTree::new();
    dir(&mut other, "/s", &["/s/x/intel-rapl:4:1", "/s/y/intel-rapl:4:1"]);
    dir(&mut other, "/s/x/intel-rapl:4:1", &[]);
    dir(&mut other, "/s/y/intel-rapl:4:1", &[]);
    let socket = Socket::try_from(&other, 4, "/s").unwrap();
    assert_eq!(socket.domains.len(), 1);
    assert_eq!(socket.domains[&1].energy.path(), "/s/y/intel-rapl:4:1/energy_uj");
}

#[test]
fn unreadable_directory_is_a_build_error() {
    let tree = FileTree::new();
    assert!(matches!(
        IntelRapl::try_from(&tree, "/r"),
        Err(BuildError::Io(IoFailure::NotFound))
    ));
    assert!(matches!(
        Socket::try_from(&tree, 0, "/r/intel-rapl:0"),
        Err(BuildError::Io(IoFailure::NotFound))
    ));
    assert!(matches!(
        PowerCap::try_from(&tree, "/pc"),
        Err(BuildError::Io(IoFailure::NotFound))
    ));
    let mut denied = FileTree::new();
    denied.insert("/pc".to_string(), Node::Directory(Err(IoFailure::PermissionDenied)));
    assert!(matches!(
        PowerCap::try_from(&denied, "/pc"),
        Err(BuildError::Io(IoFailure::PermissionDenied))
    ));
    let mut plain = FileTree::new();
    file(&mut plain, "/pc", "");
    assert!(matches!(
        PowerCap::try_from(&plain, "/pc"),
        Err(BuildError::Io(IoFailure::NotADirectory))
    ));
}

#[test]
fn missing_intel_rapl_directory_gives_no_sockets() {
    let mut tree = FileTree::new();
    dir(&mut tree, "/pc", &["/pc/other"]);
    dir(&mut tree, "/pc/other", &[]);
    let cap = PowerCap::try_from(&tree, "/pc").unwrap();
    assert!(cap.intel_rapl.sockets.is_empty());
    assert_eq!(cap.intel_rapl.total_energy(&tree).unwrap(), 0);

    let mut plain = FileTree::new();
    dir(&mut plain, "/pc", &["/pc/intel-rapl"]);
    file(&mut plain, "/pc/intel-rapl", "");
    assert!(PowerCap::try_from(&plain, "/pc").unwrap().intel_rapl.sockets.is_empty());
}

#[test]
fn unreadable_intel_rapl_directory_is_a_build_error() {
    let mut tree = FileTree::new();
    dir(&mut tree, "/pc", &["/pc/intel-rapl"]);
    tree.insert(
        "/pc/intel-rapl".to_string(),
        Node::Directory(Err(IoFailure::PermissionDenied)),
    );
    assert!(matches!(
        PowerCap::try_from(&tree, "/pc"),
        Err(BuildError::Io(IoFailure::PermissionDenied))
    ));
}

#[test]
fn socket_that_cannot_be_listed_is_a_build_error() {
    let mut tree = FileTree::new();
    dir(&mut tree, "/r", &["/r/intel-rapl:0", "/r/intel-rapl:1"]);
    tree.insert("/r/intel-rapl:0".to_string(), Node::Directory(Err(IoFailure::PermissionDenied)));
    dir(&mut tree, "/r/intel-rapl:1", &[]);
    assert!(matches!(
        IntelRapl::try_from(&tree, "/r"),
        Err(BuildError::Io(IoFailure::PermissionDenied))
    ));

    let mut later = FileTree::new();
    dir(&mut later, "/r", &["/r/intel-rapl:1", "/r/intel-rapl:0"]);
    dir(&mut later, "/r/intel-rapl:1", &[]);
    later.insert("/r/intel-rapl:0".to_string(), Node::Directory(Err(IoFailure::Os(5))));
    assert!(matches!(
        IntelRapl::try_from(&later, "/r"),
        Err(BuildError::Io(IoFailure::Os(5)))
    ));
}

#[test]
fn first_socket_that_cannot_be_listed_gives_the_failure() {
    let mut tree = FileTree::new();
    dir(&mut tree, "/r", &["/r/intel-rapl:2", "/r/intel-rapl:7", "/r/intel-rapl:1"]);
    dir(&mut tree, "/r/intel-rapl:2", &[]);
    tree.insert("/r/intel-rapl:7".to_string(), Node::Directory(Err(IoFailure::Other)));
    tree.insert("/r/intel-rapl:1".to_string(), Node::Directory(Err(IoFailure::PermissionDenied)));
    assert!(matches!(
        IntelRapl::try_from(&tree, "/r"),
        Err(BuildError::Io(IoFailure::Other))
    ));
}

#[test]
fn power_cap_hands_on_the_failure_of_a_socket() {
    let mut tree = FileTree::new();
    dir(&mut tree, "/pc", &["/pc/intel-rapl"]);
    dir(&mut tree, "/pc/intel-rapl", &["/pc/intel-rapl/intel-rapl:0", "/pc/intel-rapl/intel-rapl:1"]);
    dir(&mut tree, "/pc/intel-rapl/intel-rapl:0", &[]);
    tree.insert(
        "/pc/intel-rapl/intel-rapl:1".to_string(),
        Node::Directory(Err(IoFailure::PermissionDenied)),
    );
    assert!(matches!(
        PowerCap::try_from(&tree, "/pc"),
        Err(BuildError::Io(IoFailure::PermissionDenied))
    ));
}

#[test]
fn listed_socket_that_is_missing_is_passed_over() {
    let mut tree = FileTree::new();
    dir(&mut tree, "/r", &["/r/intel-rapl:0", "/r/intel-rapl:1", "/r/intel-rapl:2"]);
    dir(&mut tree, "/r/intel-rapl:1", &[]);
    tree.insert("/r/intel-rapl:2".to_string(), Node::File(Err(IoFailure::PermissionDenied)));
    let rapl = IntelRapl::try_from(&tree, "/r").unwrap();
    let ids: Vec<u8> = rapl.sockets.keys().copied().collect();
    assert_eq!(ids, vec![1]);
}

#[test]
fn unlistable_directory_of_another_name_is_passed_over() {
    let mut tree = FileTree::new();
    dir(&mut tree, "/r", &["/r/power", "/r/intel-rapl:256", "/r/intel-rapl:3"]);
    tree.insert("/r/power".to_string(), Node::Directory(Err(IoFailure::PermissionDenied)));
    tree.insert("/r/intel-rapl:256".to_string(), Node::Directory(Err(IoFailure::PermissionDenied)));
    dir(&mut tree, "/r/intel-rapl:3", &["/r/intel-rapl:3/intel-rapl:3:0"]);
    tree.insert(
        "/r/intel-rapl:3/intel-rapl:3:0".to_string(),
        Node::Directory(Err(IoFailure::PermissionDenied)),
    );
    let rapl = IntelRapl::try_from(&tree, "/r").unwrap();
    let ids: Vec<u8> = rapl.sockets.keys().copied().collect();
    assert_eq!(ids, vec![3]);
    assert_eq!(rapl.sockets[&3].domains.len(), 1);
}

#[test]
fn snapshot_elements_are_found_by_their_identifier() {
    let tree = MockBuilder::default()
        .with_sockets(4)
        .with_socket_energy_generator(Box::new(|s| 100 + s as u64))
        .with_domain_energy_generator(Box::new(|s, d| (10 * s + d) as u64))
        .build("/pc");
    let cap = PowerCap::try_from(&tree, "/pc").unwrap();
    for (key, socket) in cap.intel_rapl.sockets.iter() {
        assert_eq!(*key, socket.id);
        for (domain_key, domain) in socket.domains.iter() {
            assert_eq!(*domain_key, domain.id);
        }
    }
    let snap = cap.intel_rapl.snapshot(&tree).unwrap();
    for key in cap.intel_rapl.sockets.keys() {
        let found: Vec<_> = snap.sockets.iter().filter(|s| s.id == *key).collect();
        assert_eq!(found.len(), 1);
        assert_eq!(found[0].energy, 100 + *key as u64);
        let socket = &cap.intel_rapl.sockets[key];
        assert_eq!(found[0].domains.len(), socket.domains.len());
        for domain_key in socket.domains.keys() {
            let domains: Vec<_> = found[0].domains.iter().filter(|d| d.id == *domain_key).collect();
            assert_eq!(domains.len(), 1);
            assert_eq!(domains[0].energy, 10 * (*key as u64) + *domain_key as u64);
        }
    }
}

#[test]
fn default_path_is_sys_class_powercap() {
    let tree = MockBuilder::default().with_sockets(2).build("/sys/class/powercap");
    let cap = PowerCap::try_default(&tree).unwrap();
    assert_eq!(cap.intel_rapl.sockets.len(), 2);
    let elsewhere = MockBuilder::default().build("/elsewhere");
    assert!(matches!(
        PowerCap::try_default(&elsewhere),
        Err(BuildError::Io(IoFailure::NotFound))
    ));
}

#[test]
fn metrics_are_the_parsed_trimmed_text() {
    let mut tree = FileTree::new();
    metrics(&mut tree, "/d", " core \n", " 1\n", "\t262143328850\n", "18446744073709551615\n");
    let domain = Domain::from(5, "/d");
    assert_eq!(domain.id, 5);
    assert_eq!(domain.name(&tree).unwrap(), "core");
    assert_eq!(domain.enabled(&tree).unwrap(), true);
    assert_eq!(domain.energy(&tree).unwrap(), 262143328850);
    assert_eq!(domain.max_energy_range(&tree).unwrap(), u64::MAX);
    let mut off = FileTree::new();
    metrics(&mut off, "/d", "", "0", "0", "0");
    assert_eq!(domain.name(&off).unwrap(), "");
    assert_eq!(domain.enabled(&off).unwrap(), false);
    assert_eq!(domain.energy(&off).unwrap(), 0);
    let mut many = FileTree::new();
    metrics(&mut many, "/d", "x", "2", "1", "1");
    assert_eq!(domain.enabled(&many).unwrap(), true);
}

#[test]
fn total_energy_of_one_socket_and_three_domains() {
    let tree = one_socket_three_domains();
    let cap = PowerCap::try_from(&tree, "/pc").unwrap();
    assert_eq!(cap.intel_rapl.sockets.len(), 1);
    assert_eq!(cap.intel_rapl.sockets[&0].domains.len(), 3);
    assert_eq!(cap.intel_rapl.total_energy(&tree).unwrap(), 130);
    assert_eq!(cap.intel_rapl.sockets[&0].total_energy(&tree).unwrap(), 130);
}

#[test]
fn total_energy_is_the_sum_over_sockets_and_domains() {
    let tree = MockBuilder::default()
        .with_sockets(3)
        .with_socket_energy_generator(Box::new(|s| 1000 * (s as u64 + 1)))
        .with_domain_energy_generator(Box::new(|s, d| 10 * (s as u64) + d as u64))
        .build("/pc");
    let cap = PowerCap::try_from(&tree, "/pc").unwrap();
    let mut expected: u128 = 0;
    for socket in cap.intel_rapl.sockets.values() {
        let mut own = socket.energy(&tree).unwrap() as u128;
        for domain in socket.domains.values() {
            own += domain.energy(&tree).unwrap() as u128;
        }
        assert_eq!(socket.total_energy(&tree).unwrap(), own);
        expected += own;
    }
    assert_eq!(cap.intel_rapl.total_energy(&tree).unwrap(), expected);
    assert_eq!(expected, 1000 + 2000 + 3000 + (0 + 1 + 2) + (10 + 11 + 12) + (20 + 21 + 22));
}

#[test]
fn total_energy_does_not_wrap() {
    let tree = MockBuilder::default()
        .with_sockets(2)
        .with_socket_energy_generator(Box::new(|_| u64::MAX))
        .with_domain_energy_generator(Box::new(|_, _| u64::MAX))
        .build("/pc");
    let cap = PowerCap::try_from(&tree, "/pc").unwrap();
    assert_eq!(cap.intel_rapl.total_energy(&tree).unwrap(), 8 * (u64::MAX as u128));
    assert_eq!(cap.intel_rapl.sockets[&1].total_energy(&tree).unwrap(), 4 * (u64::MAX as u128));
}

#[test]
fn snapshot_counts_are_those_of_the_hierarchy() {
    let tree = MockBuilder::default().with_sockets(5).build("/pc");
    let cap = PowerCap::try_from(&tree, "/pc").unwrap();
    let snap = cap.intel_rapl.snapshot(&tree).unwrap();
    assert_eq!(snap.sockets.len(), cap.intel_rapl.sockets.len());
    assert_eq!(snap.sockets.len(), 5);
    for taken in snap.sockets.iter() {
        let socket = &cap.intel_rapl.sockets[&taken.id];
        assert_eq!(taken.domains.len(), socket.domains.len());
        assert_eq!(taken.domains.len(), 3);
        let own = socket.snapshot(&tree).unwrap();
        assert_eq!(own.id, taken.id);
        assert_eq!(own.domains.len(), taken.domains.len());
    }
}

#[test]
fn snapshot_goes_by_ascending_identifier() {
    let tree = MockBuilder::default().with_sockets(12).build("/pc");
    let cap = PowerCap::try_from(&tree, "/pc").unwrap();
    let snap = cap.intel_rapl.snapshot(&tree).unwrap();
    let ids: Vec<u8> = snap.sockets.iter().map(|s| s.id).collect();
    assert_eq!(ids, (0..12).collect::<Vec<u8>>());
    for socket in snap.sockets.iter() {
        let domains: Vec<u8> = socket.domains.iter().map(|d| d.id).collect();
        assert_eq!(domains, vec![0, 1, 2]);
    }
}

#[test]
fn snapshot_holds_what_the_files_say() {
    let tree = one_socket_three_domains();
    let cap = PowerCap::try_from(&tree, "/pc").unwrap();
    let snap = cap.intel_rapl.snapshot(&tree).unwrap();
    assert_eq!(snap.sockets.len(), 1);
    let socket = &snap.sockets[0];
    assert_eq!((socket.id, socket.enabled, socket.energy, socket.max_energy_range), (0, true, 100, 500));
    let names: Vec<&str> = socket.domains.iter().map(|d| d.name.as_str()).collect();
    assert_eq!(names, vec!["core", "uncore", "dram"]);
    for (i, domain) in socket.domains.iter().enumerate() {
        assert_eq!(domain.id as usize, i);
        assert_eq!((domain.enabled, domain.energy, domain.max_energy_range), (true, 10, 50));
    }
    let domain = cap.intel_rapl.sockets[&0].domains[&1].snapshot(&tree).unwrap();
    assert_eq!(domain.id, 1);
    assert_eq!(domain.name, "uncore");
}

#[test]
fn malformed_energy_fails_that_read_alone() {
    let mut tree = one_socket_three_domains();
    file(
        &mut tree,
        "/pc/intel-rapl/intel-rapl:0/intel-rapl:0:1/energy_uj",
        "not-a-number",
    );
    let cap = PowerCap::try_from(&tree, "/pc").unwrap();
    let domain = &cap.intel_rapl.sockets[&0].domains[&1];
    assert!(matches!(domain.energy(&tree), Err(ReadError::Parse(_))));
    assert_eq!(domain.enabled(&tree).unwrap(), true);
    assert_eq!(domain.name(&tree).unwrap(), "uncore");
    assert_eq!(domain.max_energy_range(&tree).unwrap(), 50);
    assert!(matches!(domain.snapshot(&tree), Err(ReadError::Parse(_))));
    assert!(matches!(
        cap.intel_rapl.sockets[&0].snapshot(&tree),
        Err(ReadError::Parse(_))
    ));
    assert!(matches!(cap.intel_rapl.snapshot(&tree), Err(ReadError::Parse(_))));
    assert!(matches!(
        cap.intel_rapl.sockets[&0].total_energy(&tree),
        Err(ReadError::Parse(_))
    ));
    assert!(matches!(cap.intel_rapl.total_energy(&tree), Err(ReadError::Parse(_))));
    assert_eq!(cap.intel_rapl.sockets[&0].domains[&0].energy(&tree).unwrap(), 10);
}

#[test]
fn socket_without_domains_totals_its_own_energy() {
    let mut tree = FileTree::new();
    dir(&mut tree, "/pc", &["/pc/intel-rapl"]);
    dir(&mut tree, "/pc/intel-rapl", &["/pc/intel-rapl/intel-rapl:0"]);
    dir(
        &mut tree,
        "/pc/intel-rapl/intel-rapl:0",
        &[
            "/pc/intel-rapl/intel-rapl:0/name",
            "/pc/intel-rapl/intel-rapl:0/enabled",
            "/pc/intel-rapl/intel-rapl:0/energy_uj",
            "/pc/intel-rapl/intel-rapl:0/max_energy_range_uj",
        ],
    );
    metrics(&mut tree, "/pc/intel-rapl/intel-rapl:0", "package-0", "1", "777", "1000");
    let cap = PowerCap::try_from(&tree, "/pc").unwrap();
    let socket = &cap.intel_rapl.sockets[&0];
    assert!(socket.domains.is_empty());
    assert_eq!(socket.energy(&tree).unwrap(), 777);
    assert_eq!(socket.total_energy(&tree).unwrap(), 777);
    assert!(socket.snapshot(&tree).unwrap().domains.is_empty());
}

#[test]
fn first_failure_ends_a_snapshot() {
    let mut tree = one_socket_three_domains();
    let socket = Socket::try_from(&tree, 0, "/pc/intel-rapl/intel-rapl:0").unwrap();
    file(&mut tree, "/pc/intel-rapl/intel-rapl:0/energy_uj", "x");
    tree.insert(
        "/pc/intel-rapl/intel-rapl:0/enabled".to_string(),
        Node::File(Err(IoFailure::PermissionDenied)),
    );
    assert!(matches!(
        socket.snapshot(&tree),
        Err(ReadError::Io(IoFailure::PermissionDenied))
    ));
    assert!(matches!(socket.total_energy(&tree), Err(ReadError::Parse(_))));

    let mut other = one_socket_three_domains();
    file(&mut other, "/pc/intel-rapl/intel-rapl:0/intel-rapl:0:2/name", "");
    other.insert(
        "/pc/intel-rapl/intel-rapl:0/intel-rapl:0:1/name".to_string(),
        Node::File(Err(IoFailure::Other)),
    );
    file(&mut other, "/pc/intel-rapl/intel-rapl:0/intel-rapl:0:1/energy_uj", "x");
    assert!(matches!(socket.snapshot(&other), Err(ReadError::Io(IoFailure::Other))));
    assert!(matches!(
        socket.domains[&1].snapshot(&other),
        Err(ReadError::Io(IoFailure::Other))
    ));
}

#[test]
fn missing_metric_file_is_an_io_error() {
    let mut tree = FileTree::new();
    file(&mut tree, "/d/name", "core");
    file(&mut tree, "/d/enabled", "1");
    let domain = Domain::from(0, "/d");
    assert!(matches!(domain.energy(&tree), Err(ReadError::Io(IoFailure::NotFound))));
    assert!(matches!(domain.max_energy_range(&tree), Err(ReadError::Io(IoFailure::NotFound))));
    assert!(matches!(domain.snapshot(&tree), Err(ReadError::Io(IoFailure::NotFound))));
    assert_eq!(domain.name(&tree).unwrap(), "core");
}

#[test]
fn hierarchy_stays_while_values_change() {
    let first = MockBuilder::default().with_socket_energy_generator(Box::new(|_| 1)).build("/pc");
    let second = MockBuilder::default().with_socket_energy_generator(Box::new(|_| 2)).build("/pc");
    let cap = PowerCap::try_from(&first, "/pc").unwrap();
    assert_eq!(cap.intel_rapl.sockets[&0].energy(&first).unwrap(), 1);
    assert_eq!(cap.intel_rapl.sockets[&0].energy(&second).unwrap(), 2);
    assert_eq!(cap.intel_rapl.total_energy(&first).unwrap(), 1 + 3 * 1234);
    assert_eq!(cap.intel_rapl.total_energy(&second).unwrap(), 2 + 3 * 1234);
}

#[test]
fn build_error_comes_from_an_io_failure() {
    assert!(matches!(
        BuildError::from(IoFailure::PermissionDenied),
        BuildError::Io(IoFailure::PermissionDenied)
    ));
}
