//! Whether the kernel modules that publish the counters are loaded.

use crate::tree::texts;
use vstd::prelude::*;

verus! {

/// Whether the modules named in `names` suffice: `intel_rapl` alone, or
/// `intel_rapl_msr` together with `intel_rapl_common`.
pub open spec fn modules_suffice(names: Seq<Seq<char>>) -> bool {
    names.contains("intel_rapl"@) || (names.contains("intel_rapl_msr"@) && names.contains(
        "intel_rapl_common"@,
    ))
}

/// Whether `name` is among `names`.
fn has_module(names: &Vec<String>, name: &str) -> (found: bool)
    ensures
        found == texts(names@).contains(name@),
{
    let wanted: String = name.to_owned();
    let mut i: usize = 0;
    while i < names.len()
        invariant
            i <= names.len(),
            wanted@ == name@,
            forall|j: int| 0 <= j < i ==> texts(names@)[j] != name@,
        decreases names.len() - i,
    {
        if names[i] == wanted {
            assert(texts(names@)[i as int] == name@);
            return true;
        }
        i += 1;
    }
    false
}

/// Whether the loaded modules `modules` suffice for the counters to be there.
pub fn check_modules(modules: &Vec<String>) -> (loaded: bool)
    ensures
        loaded == modules_suffice(texts(modules@)),
{
    has_module(modules, "intel_rapl") || (has_module(modules, "intel_rapl_msr") && has_module(
        modules,
        "intel_rapl_common",
    ))
}

} // verus!
