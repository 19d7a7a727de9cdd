//! Registry value type tags, creation dispositions, access masks and the
//! error taxonomy of this library.
//!
//! The numeric codes produced by [`RegType::code`] match the on-disk type
//! codes of the Windows registry format exactly, so values written by this
//! library are readable by any other program that understands that format.
use vstd::prelude::*;

verus! {

/// Type tag of a registry value, one variant per on-disk type code.
#[allow(non_camel_case_types)]
#[derive(Clone, Copy, Debug, PartialEq, Eq, Structural)]
pub enum RegType {
    REG_NONE,
    REG_SZ,
    REG_EXPAND_SZ,
    REG_BINARY,
    REG_DWORD,
    REG_DWORD_BIG_ENDIAN,
    REG_LINK,
    REG_MULTI_SZ,
    REG_RESOURCE_LIST,
    REG_FULL_RESOURCE_DESCRIPTOR,
    REG_RESOURCE_REQUIREMENTS_LIST,
    REG_QWORD,
}

impl RegType {
    /// The numeric type code of this tag in the registry's wire format.
    pub open spec fn spec_code(self) -> u32 {
        match self {
            RegType::REG_NONE => 0,
            RegType::REG_SZ => 1,
            RegType::REG_EXPAND_SZ => 2,
            RegType::REG_BINARY => 3,
            RegType::REG_DWORD => 4,
            RegType::REG_DWORD_BIG_ENDIAN => 5,
            RegType::REG_LINK => 6,
            RegType::REG_MULTI_SZ => 7,
            RegType::REG_RESOURCE_LIST => 8,
            RegType::REG_FULL_RESOURCE_DESCRIPTOR => 9,
            RegType::REG_RESOURCE_REQUIREMENTS_LIST => 10,
            RegType::REG_QWORD => 11,
        }
    }

    /// Numeric type code of this tag, as persisted by the external store.
    pub fn code(self) -> (c: u32)
        ensures
            c == self.spec_code(),
    {
        match self {
            RegType::REG_NONE => 0,
            RegType::REG_SZ => 1,
            RegType::REG_EXPAND_SZ => 2,
            RegType::REG_BINARY => 3,
            RegType::REG_DWORD => 4,
            RegType::REG_DWORD_BIG_ENDIAN => 5,
            RegType::REG_LINK => 6,
            RegType::REG_MULTI_SZ => 7,
            RegType::REG_RESOURCE_LIST => 8,
            RegType::REG_FULL_RESOURCE_DESCRIPTOR => 9,
            RegType::REG_RESOURCE_REQUIREMENTS_LIST => 10,
            RegType::REG_QWORD => 11,
        }
    }

    /// The tag for a numeric type code; `None` for codes the format does not
    /// define.
    pub fn from_code(c: u32) -> (r: Option<RegType>)
        ensures
            r matches Some(t) ==> t.spec_code() == c,
            r is None <==> c > 11,
    {
        match c {
            0 => Some(RegType::REG_NONE),
            1 => Some(RegType::REG_SZ),
            2 => Some(RegType::REG_EXPAND_SZ),
            3 => Some(RegType::REG_BINARY),
            4 => Some(RegType::REG_DWORD),
            5 => Some(RegType::REG_DWORD_BIG_ENDIAN),
            6 => Some(RegType::REG_LINK),
            7 => Some(RegType::REG_MULTI_SZ),
            8 => Some(RegType::REG_RESOURCE_LIST),
            9 => Some(RegType::REG_FULL_RESOURCE_DESCRIPTOR),
            10 => Some(RegType::REG_RESOURCE_REQUIREMENTS_LIST),
            11 => Some(RegType::REG_QWORD),
            _ => None,
        }
    }
}

/// Whether `create_subkey` created the terminal key or opened an existing one.
#[allow(non_camel_case_types)]
#[derive(Clone, Copy, Debug, PartialEq, Eq, Structural)]
pub enum RegDisposition {
    REG_CREATED_NEW_KEY,
    REG_OPENED_EXISTING_KEY,
}

/// Error taxonomy of the library.
///
/// The internal buffer-too-small signal of the value query protocol is
/// recovered by the bounded growth retry and never surfaces here.
#[derive(Clone, Copy, Debug, PartialEq, Eq, Structural)]
pub enum RegError {
    /// The named key or value does not exist in the addressed state.
    NotFound,
    /// `delete_subkey` was asked to remove a key that still has child keys.
    HasChildren,
    /// Stored bytes violate the invariant of their type tag.
    Malformed,
    /// The stored type tag cannot be interpreted as the requested type.
    TypeMismatch,
    /// Any other status code, passed through opaquely.
    OsError(u32),
}

/// Identifier of the per-machine classes root.
pub const HKEY_CLASSES_ROOT: u64 = 0x80000000;

/// Identifier of the per-user settings root.
pub const HKEY_CURRENT_USER: u64 = 0x80000001;

/// Identifier of the per-machine settings root.
pub const HKEY_LOCAL_MACHINE: u64 = 0x80000002;

/// Identifier of the root holding every user's settings.
pub const HKEY_USERS: u64 = 0x80000003;

/// Identifier of the performance-data root.
pub const HKEY_PERFORMANCE_DATA: u64 = 0x80000004;

/// Identifier of the current-config root.
pub const HKEY_CURRENT_CONFIG: u64 = 0x80000005;

/// Identifier of the legacy dynamic-data root.
pub const HKEY_DYN_DATA: u64 = 0x80000006;

/// Identifier of the local-settings variant of the per-user root.
pub const HKEY_CURRENT_USER_LOCAL_SETTINGS: u64 = 0x80000007;

/// Identifier of the performance-text root.
pub const HKEY_PERFORMANCE_TEXT: u64 = 0x80000050;

/// Identifier of the localized performance-text root.
pub const HKEY_PERFORMANCE_NLSTEXT: u64 = 0x80000060;

/// Right to read values of a key.
pub const KEY_QUERY_VALUE: u32 = 0x0001;

/// Right to create, change or delete values of a key.
pub const KEY_SET_VALUE: u32 = 0x0002;

/// Right to create child keys under a key.
pub const KEY_CREATE_SUB_KEY: u32 = 0x0004;

/// Right to enumerate the child keys of a key.
pub const KEY_ENUMERATE_SUB_KEYS: u32 = 0x0008;

/// Right to ask for change notifications.
pub const KEY_NOTIFY: u32 = 0x0010;

/// Right to create symbolic links under a key.
pub const KEY_CREATE_LINK: u32 = 0x0020;

/// Selects the 64-bit registry view.
pub const KEY_WOW64_64KEY: u32 = 0x0100;

/// Selects the 32-bit registry view.
pub const KEY_WOW64_32KEY: u32 = 0x0200;

/// Combined read rights: query, enumerate and notify.
pub const KEY_READ: u32 = 0x20019;

/// Combined write rights: set values and create child keys.
pub const KEY_WRITE: u32 = 0x20006;

/// Execute rights, equal to the combined read rights.
pub const KEY_EXECUTE: u32 = 0x20019;

/// Every right the store recognizes.
pub const KEY_ALL_ACCESS: u32 = 0xF003F;

/// Status code for an operation refused for missing access rights.
pub const ERROR_ACCESS_DENIED: u32 = 5;

/// Status code for an operation under a transaction that is no longer active.
pub const ERROR_TRANSACTION_NOT_ACTIVE: u32 = 6700;

} // verus!
