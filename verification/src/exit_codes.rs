//! Exit code constants following the sysexits convention.

use vstd::prelude::*;

verus! {

pub const SUCCESS: i32 = 0;

pub const GENERAL_ERROR: i32 = 1;

pub const NO_SUCH_FILE: i32 = 2;

pub const PERMISSION_DENIED: i32 = 13;

pub const DATA_ERROR: i32 = 65;

pub const CONFIG_ERROR: i32 = 78;

pub const COMMAND_NOT_FOUND: i32 = 127;

} // verus!
