use winreg::RegKey;
use winreg::RegValue;
use winreg::enums::HKEY_CURRENT_USER;
use winreg::enums::HKEY_LOCAL_MACHINE;
use winreg::enums::KEY_READ;
use winreg::enums::RegType;
use winreg::registry::Registry;
use winreg::types::FromRegValue;

#[test]
fn lib_test_open_subkey_with_flags_query_info() {
    let mut reg = Registry::new();
    let hklm = RegKey::predef(HKEY_LOCAL_MACHINE);
    hklm.create_subkey(&mut reg, "Software\\Microsoft\\Windows\\CurrentVersion")
        .unwrap();
    let win = hklm
        .open_subkey_with_flags(&reg, "Software\\Microsoft\\Windows", KEY_READ)
        .unwrap();
    assert!(win.query_info(&reg).is_ok());
    assert!(win.open_subkey_with_flags(&reg, "CurrentVersion\\", KEY_READ).is_ok());
    assert!(hklm
        .open_subkey_with_flags(&reg, "i\\just\\hope\\nobody\\created\\that\\key", KEY_READ)
        .is_err());
}

#[test]
#[allow(unused_variables)]
fn test_create_delete_all_subkey() {
    let mut reg = Registry::new();
    let mut path = "Software\\WinRegRsTest".to_string();
    path.push_str("CreateDeleteAllSubkey");
    let key = RegKey::predef(HKEY_CURRENT_USER)
        .create_subkey(&mut reg, &path)
        .unwrap()
        .0;
    RegKey::predef(HKEY_CURRENT_USER)
        .delete_subkey_all(&mut reg, &path)
        .unwrap();
}

#[test]
fn lib_test_delete_subkey() {
    let mut reg = Registry::new();
    let path = "Software\\WinRegRsTestDeleteSubkey";
    RegKey::predef(HKEY_CURRENT_USER).create_subkey(&mut reg, path).unwrap();
    assert!(RegKey::predef(HKEY_CURRENT_USER).delete_subkey(&mut reg, path).is_ok());
}

#[test]
fn lib_test_long_value() {
    let mut reg = Registry::new();
    let mut path = "Software\\WinRegRsTest".to_string();
    path.push_str("LongValue");
    let key = RegKey::predef(HKEY_CURRENT_USER)
        .create_subkey(&mut reg, &path)
        .unwrap()
        .0;
    let name = "RustLongVal";
    let val1 = RegValue {
        vtype: RegType::REG_BINARY,
        bytes: (0..6000).map(|_| rand::random::<u8>()).collect(),
    };
    key.set_raw_value(&mut reg, name, &val1).unwrap();
    let val2 = key.get_raw_value(&reg, name).unwrap();
    assert_eq!(val1, val2);
    RegKey::predef(HKEY_CURRENT_USER)
        .delete_subkey_all(&mut reg, &path)
        .unwrap();
}

#[test]
fn lib_test_string_value() {
    let mut reg = Registry::new();
    let mut path = "Software\\WinRegRsTest".to_string();
    path.push_str("StringValue");
    let key = RegKey::predef(HKEY_CURRENT_USER)
        .create_subkey(&mut reg, &path)
        .unwrap()
        .0;
    let name = "RustStringVal";
    let val1 = "Test123 \n$%^&|+-*/\\()".to_string();
    key.set_value(&mut reg, name, &val1).unwrap();
    let val2: String = key.get_value(&reg, name).unwrap();
    assert_eq!(val1, val2);
    RegKey::predef(HKEY_CURRENT_USER)
        .delete_subkey_all(&mut reg, &path)
        .unwrap();
}

#[test]
fn lib_test_u32_value() {
    let mut reg = Registry::new();
    let mut path = "Software\\WinRegRsTest".to_string();
    path.push_str("U32Value");
    let key = RegKey::predef(HKEY_CURRENT_USER)
        .create_subkey(&mut reg, &path)
        .unwrap()
        .0;
    let name = "RustU32Val";
    let val1 = 1234567890u32;
    key.set_value(&mut reg, name, &val1).unwrap();
    let val2: u32 = key.get_value(&reg, name).unwrap();
    assert_eq!(val1, val2);
    RegKey::predef(HKEY_CURRENT_USER)
        .delete_subkey_all(&mut reg, &path)
        .unwrap();
}

#[test]
fn lib_test_u64_value() {
    let mut reg = Registry::new();
    let mut path = "Software\\WinRegRsTest".to_string();
    path.push_str("U64Value");
    let key = RegKey::predef(HKEY_CURRENT_USER)
        .create_subkey(&mut reg, &path)
        .unwrap()
        .0;
    let name = "RustU64Val";
    let val1 = 1234567891011121314u64;
    key.set_value(&mut reg, name, &val1).unwrap();
    let val2: u64 = key.get_value(&reg, name).unwrap();
    assert_eq!(val1, val2);
    RegKey::predef(HKEY_CURRENT_USER)
        .delete_subkey_all(&mut reg, &path)
        .unwrap();
}

#[test]
fn lib_test_delete_value() {
    let mut reg = Registry::new();
    let mut path = "Software\\WinRegRsTest".to_string();
    path.push_str("DeleteValue");
    let key = RegKey::predef(HKEY_CURRENT_USER)
        .create_subkey(&mut reg, &path)
        .unwrap()
        .0;
    let name = "WinregRsTestVal";
    key.set_value(&mut reg, name, &"Qwerty123").unwrap();
    assert!(key.delete_value(&mut reg, name).is_ok());
    RegKey::predef(HKEY_CURRENT_USER)
        .delete_subkey_all(&mut reg, &path)
        .unwrap();
}

#[test]
fn lib_test_enum_keys() {
    let mut reg = Registry::new();
    let mut path = "Software\\WinRegRsTest".to_string();
    path.push_str("EnumKeys");
    let key = RegKey::predef(HKEY_CURRENT_USER)
        .create_subkey(&mut reg, &path)
        .unwrap()
        .0;
    let mut keys1 = vec!["qwerty", "asdf", "1", "2", "3", "5", "8", "йцукен"];
    keys1.sort();
    for i in &keys1 {
        key.create_subkey(&mut reg, i).unwrap();
    }
    let mut keys2: Vec<String> = Vec::new();
    let mut cursor = key.enum_keys();
    while let Some(x) = cursor.next(&reg) {
        keys2.push(x.unwrap());
    }
    assert_eq!(keys1, keys2);
    RegKey::predef(HKEY_CURRENT_USER)
        .delete_subkey_all(&mut reg, &path)
        .unwrap();
}

#[test]
fn lib_test_enum_values() {
    let mut reg = Registry::new();
    let mut path = "Software\\WinRegRsTest".to_string();
    path.push_str("EnumValues");
    let key = RegKey::predef(HKEY_CURRENT_USER)
        .create_subkey(&mut reg, &path)
        .unwrap()
        .0;
    let mut vals1 = vec!["qwerty", "asdf", "1", "2", "3", "5", "8", "йцукен"];
    vals1.sort();
    for i in &vals1 {
        key.set_value(&mut reg, i, i).unwrap();
    }
    let mut vals2: Vec<String> = Vec::with_capacity(vals1.len());
    let mut vals3: Vec<String> = Vec::with_capacity(vals1.len());
    let mut cursor = key.enum_values();
    while let Some(x) = cursor.next(&reg) {
        let (name, val) = x.unwrap();
        vals2.push(name);
        vals3.push(String::from_reg_value(&val).unwrap());
    }
    assert_eq!(vals1, vals2);
    assert_eq!(vals1, vals3);
    RegKey::predef(HKEY_CURRENT_USER)
        .delete_subkey_all(&mut reg, &path)
        .unwrap();
}
