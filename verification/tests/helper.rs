use powercap::helper::check_modules;

fn names(list: &[&str]) -> Vec<String> {
    list.iter().map(|n| n.to_string()).collect()
}

#[test]
fn check_modules_are_loaded() {
    assert!(check_modules(&names(&["intel_rapl"])));
}

#[test]
fn split_modules_suffice_together() {
    assert!(check_modules(&names(&["ext4", "intel_rapl_msr", "intel_rapl_common"])));
    assert!(check_modules(&names(&["intel_rapl_common", "intel_rapl_msr"])));
    assert!(check_modules(&names(&["intel_rapl_common", "intel_rapl"])));
}

#[test]
fn one_split_module_does_not_suffice() {
    assert!(!check_modules(&names(&[])));
    assert!(!check_modules(&names(&["intel_rapl_msr"])));
    assert!(!check_modules(&names(&["intel_rapl_common"])));
    assert!(!check_modules(&names(&["intel_rapl_msr", "intel_rapl_commo"])));
    assert!(!check_modules(&names(&["intel_rapl2", "xintel_rapl", "INTEL_RAPL"])));
}
