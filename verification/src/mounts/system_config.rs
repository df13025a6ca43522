//! The system config mount: the live configuration as one file of the tree.

use vstd::prelude::*;
use crate::mounts::MountConfig;

verus! {

/// Where the configuration file appears in the tree.
pub struct SystemConfigTarget {
    pub virtual_path: String,
}

/// `target_from_mount`: the configuration file is the mount's path.
pub fn target_from_mount(mount: &MountConfig, virtual_path: &str) -> (res: SystemConfigTarget)
    ensures
        res.virtual_path@ == virtual_path@,
{
    SystemConfigTarget { virtual_path: virtual_path.to_owned() }
}

} // verus!
