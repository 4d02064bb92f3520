//! The privilege check that guards every operation that changes the module
//! tree or the registry.

use vstd::prelude::*;
use crate::error::ModError;

verus! {

/// No error when the effective user and group (`euid`, `egid`) are both the
/// superuser's; `PermissionDenied` otherwise.
pub fn user_is_root(euid: u32, egid: u32) -> (r: Result<(), ModError>)
    ensures
        r is Ok <==> euid == 0 && egid == 0,
        r matches Err(e) ==> e == ModError::PermissionDenied,
{
    if euid != 0 || egid != 0 {
        return Err(ModError::PermissionDenied);
    }
    Ok(())
}

} // verus!
