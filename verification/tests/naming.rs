use powercap::naming::{domain_id_of, join, socket_id_of};

#[test]
fn socket_id_is_the_numeric_suffix() {
    assert_eq!(socket_id_of("intel-rapl:0"), Some(0));
    assert_eq!(socket_id_of("/sys/class/powercap/intel-rapl/intel-rapl:1"), Some(1));
    assert_eq!(socket_id_of("/sys/class/powercap/intel-rapl/intel-rapl:255"), Some(255));
    assert_eq!(socket_id_of("/x/intel-rapl:007"), Some(7));
    assert_eq!(socket_id_of("/x/prefixintel-rapl:12"), Some(12));
    assert_eq!(socket_id_of("intel-rapl:1intel-rapl:2"), Some(2));
}

#[test]
fn socket_id_of_other_names_is_none() {
    assert_eq!(socket_id_of(""), None);
    assert_eq!(socket_id_of("intel-rapl"), None);
    assert_eq!(socket_id_of("intel-rapl:"), None);
    assert_eq!(socket_id_of("intel-rapl:x"), None);
    assert_eq!(socket_id_of("intel-rapl:1x"), None);
    assert_eq!(socket_id_of("intel-rapl:1/"), None);
    assert_eq!(socket_id_of("intel-rapl:256"), None);
    assert_eq!(socket_id_of("intel-rapl:99999999999999999999999999"), None);
    assert_eq!(socket_id_of("intel-rapl:+1"), None);
    assert_eq!(socket_id_of("intel-rapl:-1"), None);
    assert_eq!(socket_id_of("intel-rapl:0:1"), None);
    assert_eq!(socket_id_of("Intel-rapl:1"), None);
    assert_eq!(socket_id_of("intel_rapl:1"), None);
    assert_eq!(socket_id_of("/sys/class/powercap/intel-rapl/power"), None);
    assert_eq!(socket_id_of("/sys/class/powercap/intel-rapl/uevent"), None);
    assert_eq!(socket_id_of("12"), None);
    assert_eq!(socket_id_of("intel-rapl:\u{663}"), None);
    assert_eq!(socket_id_of("intel-rapl:1\u{663}"), None);
    assert_eq!(socket_id_of("intel-rapl:\u{663}1"), None);
}

#[test]
fn domain_id_is_the_numeric_suffix() {
    assert_eq!(domain_id_of("intel-rapl:0:0", 0), Some(0));
    assert_eq!(domain_id_of("/r/intel-rapl:0/intel-rapl:0:2", 0), Some(2));
    assert_eq!(domain_id_of("/r/intel-rapl:3/intel-rapl:3:255", 3), Some(255));
    assert_eq!(domain_id_of("/r/intel-rapl:3/intel-rapl:03:010", 3), Some(10));
    assert_eq!(domain_id_of("intel-rapl:255:1", 255), Some(1));
}

#[test]
fn domain_id_asks_for_the_socket() {
    assert_eq!(domain_id_of("intel-rapl:0:1", 1), None);
    assert_eq!(domain_id_of("intel-rapl:1:1", 0), None);
    assert_eq!(domain_id_of("intel-rapl:256:1", 0), None);
}

#[test]
fn domain_id_of_other_names_is_none() {
    assert_eq!(domain_id_of("", 0), None);
    assert_eq!(domain_id_of("intel-rapl:0", 0), None);
    assert_eq!(domain_id_of("intel-rapl:0:", 0), None);
    assert_eq!(domain_id_of("intel-rapl:0:x", 0), None);
    assert_eq!(domain_id_of("intel-rapl:0:256", 0), None);
    assert_eq!(domain_id_of("intel-rapl::1", 0), None);
    assert_eq!(domain_id_of("intel-rapl:0:1:2", 0), None);
    assert_eq!(domain_id_of("intel-rapl:0-1", 0), None);
    assert_eq!(domain_id_of(":1", 0), None);
    assert_eq!(domain_id_of("1", 0), None);
    assert_eq!(domain_id_of("/r/intel-rapl:0/name", 0), None);
}

#[test]
fn join_puts_a_slash_between() {
    assert_eq!(join("/sys/class/powercap", "intel-rapl"), "/sys/class/powercap/intel-rapl");
    assert_eq!(join("", "name"), "/name");
    assert_eq!(join("a", ""), "a/");
}
