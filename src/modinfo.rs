//! What is known of a module loaded now.

use vstd::prelude::*;

verus! {

/// A module loaded now, as the kernel's list of loaded modules shows it.
#[allow(dead_code)]
pub struct ModInfo {
    /// The module's name.
    name: String,
    /// The memory it takes, in bytes.
    memsize: usize,
    /// How many instances are loaded.
    instances: u8,
    /// The loaded modules that use it.
    dependencies: Vec<String>,
    /// Where it is loaded; known to the superuser only.
    memoffset: usize,
}

impl ModInfo {
    /// The module's name.
    pub closed spec fn module_name(&self) -> Seq<char> {
        self.name@
    }

    /// The module's name.
    pub fn name(&self) -> (r: &String)
        ensures
            r@ == self.module_name(),
    {
        &self.name
    }
}

/// The modules loaded now. Reading the kernel's list of loaded modules is
/// not done here, so the snapshot is empty.
pub fn lsmod() -> (r: Vec<ModInfo>)
    ensures
        r@.len() == 0,
{
    Vec::new()
}

} // verus!
