use rand::Rng;
use std::collections::HashMap;
use winreg::RegKey;
use winreg::RegValue;
use winreg::enums::HKEY_CURRENT_USER;
use winreg::enums::HKEY_LOCAL_MACHINE;
use winreg::enums::KEY_READ;
use winreg::enums::KEY_WOW64_32KEY;
use winreg::enums::RegDisposition;
use winreg::enums::RegType;
use winreg::registry::Registry;
use winreg::types::FromRegValue;

fn with_key_setup(reg: &mut Registry, suffix: &str) -> (RegKey, String) {
    let mut path = "Software\\WinRegRsTest".to_owned();
    path.push_str(suffix);
    let (k, _disp) = RegKey::predef(HKEY_CURRENT_USER)
        .create_subkey(reg, &path)
        .unwrap();
    (k, path)
}

fn with_key_teardown(reg: &mut Registry, path: String) {
    RegKey::predef(HKEY_CURRENT_USER)
        .delete_subkey_all(reg, &path)
        .unwrap();
}

#[test]
fn reg_key_test_open_subkey_with_flags_query_info() {
    let mut reg = Registry::new();
    let hklm = RegKey::predef(HKEY_LOCAL_MACHINE);
    hklm.create_subkey(&mut reg, "Software\\Microsoft\\Windows\\CurrentVersion")
        .unwrap();
    let win = hklm
        .open_subkey_with_flags(&reg, "Software\\Microsoft\\Windows", KEY_READ)
        .unwrap();
    win.query_info(&reg).unwrap();
    assert!(win
        .open_subkey_with_flags(&reg, "CurrentVersion\\", KEY_READ)
        .is_ok());
    assert!(hklm
        .open_subkey_with_flags(&reg, "i\\just\\hope\\nobody\\created\\that\\key", KEY_READ)
        .is_err());
}

#[test]
fn test_create_subkey_disposition() {
    let mut reg = Registry::new();
    let hkcu = RegKey::predef(HKEY_CURRENT_USER);
    let path = "Software\\WinRegRsTestCreateSubkey";
    let (_subkey, disp) = hkcu.create_subkey(&mut reg, path).unwrap();
    assert_eq!(disp, RegDisposition::REG_CREATED_NEW_KEY);
    let (_subkey2, disp2) = hkcu.create_subkey(&mut reg, path).unwrap();
    assert_eq!(disp2, RegDisposition::REG_OPENED_EXISTING_KEY);
    hkcu.delete_subkey_all(&mut reg, path).unwrap();
}

#[test]
fn reg_key_test_delete_subkey() {
    let mut reg = Registry::new();
    let path = "Software\\WinRegRsTestDeleteSubkey";
    RegKey::predef(HKEY_CURRENT_USER)
        .create_subkey(&mut reg, path)
        .unwrap();
    assert!(RegKey::predef(HKEY_CURRENT_USER)
        .delete_subkey(&mut reg, path)
        .is_ok());
}

#[test]
fn test_delete_subkey_with_flags() {
    let mut reg = Registry::new();
    let path = "Software\\Classes\\WinRegRsTestDeleteSubkeyWithFlags";
    RegKey::predef(HKEY_CURRENT_USER)
        .create_subkey_with_flags(&mut reg, path, KEY_WOW64_32KEY)
        .unwrap();
    assert!(RegKey::predef(HKEY_CURRENT_USER)
        .delete_subkey_with_flags(&mut reg, path, KEY_WOW64_32KEY)
        .is_ok());
}

#[test]
fn test_copy_tree() {
    let mut reg = Registry::new();
    let (key, path) = with_key_setup(&mut reg, "CopyTree");
    let (sub_tree, _sub_tree_disp) = key.create_subkey(&mut reg, "Src\\Sub\\Tree").unwrap();
    for v in &["one", "two", "three"] {
        sub_tree.set_value(&mut reg, v, v).unwrap();
    }
    let (dst, _dst_disp) = key.create_subkey(&mut reg, "Dst").unwrap();
    assert!(key.copy_tree(&mut reg, "Src", &dst).is_ok());
    with_key_teardown(&mut reg, path);
}

#[test]
fn reg_key_test_long_value() {
    let mut reg = Registry::new();
    let (key, path) = with_key_setup(&mut reg, "LongValue");
    let name = "RustLongVal";
    let val1 = RegValue {
        vtype: RegType::REG_BINARY,
        bytes: (0..6000).map(|_| rand::random::<u8>()).collect(),
    };
    key.set_raw_value(&mut reg, name, &val1).unwrap();
    let val2 = key.get_raw_value(&reg, name).unwrap();
    assert_eq!(val1, val2);
    with_key_teardown(&mut reg, path);
}

#[test]
fn reg_key_test_string_value() {
    let mut reg = Registry::new();
    let (key, path) = with_key_setup(&mut reg, "StringValue");
    let name = "RustStringVal";
    let val1 = "Test123 \n$%^&|+-*/\\()".to_owned();
    key.set_value(&mut reg, name, &val1).unwrap();
    let val2: String = key.get_value(&reg, name).unwrap();
    assert_eq!(val1, val2);
    with_key_teardown(&mut reg, path);
}

#[test]
fn test_long_string_value() {
    let mut reg = Registry::new();
    let (key, path) = with_key_setup(&mut reg, "LongStringValue");
    let name = "RustLongStringVal";
    let val1: String = rand::thread_rng()
        .sample_iter(&rand::distributions::Alphanumeric)
        .take(7000)
        .map(char::from)
        .collect();
    key.set_value(&mut reg, name, &val1).unwrap();
    let val2: String = key.get_value(&reg, name).unwrap();
    assert_eq!(val1, val2);
    with_key_teardown(&mut reg, path);
}

#[test]
fn reg_key_test_u32_value() {
    let mut reg = Registry::new();
    let (key, path) = with_key_setup(&mut reg, "U32Value");
    let name = "RustU32Val";
    let val1 = 1_234_567_890u32;
    key.set_value(&mut reg, name, &val1).unwrap();
    let val2: u32 = key.get_value(&reg, name).unwrap();
    assert_eq!(val1, val2);
    with_key_teardown(&mut reg, path);
}

#[test]
fn reg_key_test_u64_value() {
    let mut reg = Registry::new();
    let (key, path) = with_key_setup(&mut reg, "U64Value");
    let name = "RustU64Val";
    let val1 = 1_234_567_891_011_121_314u64;
    key.set_value(&mut reg, name, &val1).unwrap();
    let val2: u64 = key.get_value(&reg, name).unwrap();
    assert_eq!(val1, val2);
    with_key_teardown(&mut reg, path);
}

#[test]
fn reg_key_test_delete_value() {
    let mut reg = Registry::new();
    let (key, path) = with_key_setup(&mut reg, "DeleteValue");
    let name = "WinregRsTestVal";
    key.set_value(&mut reg, name, &"Qwerty123").unwrap();
    assert!(key.delete_value(&mut reg, name).is_ok());
    with_key_teardown(&mut reg, path);
}

#[test]
fn reg_key_test_enum_keys() {
    let mut reg = Registry::new();
    let (key, path) = with_key_setup(&mut reg, "EnumKeys");
    let mut keys1 = vec!["qwerty", "asdf", "1", "2", "3", "5", "8", "йцукен"];
    keys1.sort();
    for i in &keys1 {
        key.create_subkey(&mut reg, i).unwrap();
    }
    let mut keys2: Vec<String> = Vec::new();
    let mut cursor = key.enum_keys();
    while let Some(x) = cursor.next(&reg) {
        keys2.push(x.unwrap());
    }
    assert_eq!(keys1, keys2);
    with_key_teardown(&mut reg, path);
}

#[test]
fn reg_key_test_enum_values() {
    let mut reg = Registry::new();
    let (key, path) = with_key_setup(&mut reg, "EnumValues");
    let mut vals1 = vec!["qwerty", "asdf", "1", "2", "3", "5", "8", "йцукен"];
    vals1.sort();
    for i in &vals1 {
        key.set_value(&mut reg, i, i).unwrap();
    }
    let mut vals2: Vec<String> = Vec::with_capacity(vals1.len());
    let mut vals3: Vec<String> = Vec::with_capacity(vals1.len());
    let mut cursor = key.enum_values();
    while let Some(x) = cursor.next(&reg) {
        let (name, val) = x.unwrap();
        vals2.push(name);
        vals3.push(String::from_reg_value(&val).unwrap());
    }
    assert_eq!(vals1, vals2);
    assert_eq!(vals1, vals3);
    with_key_teardown(&mut reg, path);
}

#[test]
fn test_enum_long_values() {
    let mut reg = Registry::new();
    let (key, path) = with_key_setup(&mut reg, "EnumLongValues");
    let mut vals = HashMap::with_capacity(3);

    for i in &[5500, 9500, 15000] {
        let name: String = format!("val{}", i);
        let val = RegValue {
            vtype: RegType::REG_BINARY,
            bytes: (0..*i).map(|_| rand::random::<u8>()).collect(),
        };
        key.set_raw_value(&mut reg, &name, &val).unwrap();
        vals.insert(name, val);
    }

    let mut cursor = key.enum_values();
    while let Some(x) = cursor.next(&reg) {
        let (name, val) = x.unwrap();
        assert_eq!(val.bytes, vals[&name].bytes);
    }
    with_key_teardown(&mut reg, path);
}
