use winreg::RegKey;
use winreg::RegValue;
use winreg::enums::ERROR_ACCESS_DENIED;
use winreg::enums::ERROR_TRANSACTION_NOT_ACTIVE;
use winreg::enums::HKEY_CURRENT_USER;
use winreg::enums::KEY_READ;
use winreg::enums::RegDisposition;
use winreg::enums::RegError;
use winreg::enums::RegType;
use winreg::registry::Registry;
use winreg::transaction::Transaction;

#[test]
fn test_create_twice_dispositions_and_usable_handles() {
    let mut reg = Registry::new();
    let hkcu = RegKey::predef(HKEY_CURRENT_USER);
    let (k1, d1) = hkcu.create_subkey(&mut reg, "Software\\Twice").unwrap();
    assert_eq!(d1, RegDisposition::REG_CREATED_NEW_KEY);
    let (k2, d2) = hkcu.create_subkey(&mut reg, "Software\\Twice").unwrap();
    assert_eq!(d2, RegDisposition::REG_OPENED_EXISTING_KEY);
    k1.set_value(&mut reg, "a", &1u32).unwrap();
    k2.set_value(&mut reg, "b", &2u32).unwrap();
    let a: u32 = k2.get_value(&reg, "a").unwrap();
    let b: u32 = k1.get_value(&reg, "b").unwrap();
    assert_eq!((a, b), (1, 2));
}

#[test]
fn test_delete_with_children_fails_then_subtree_succeeds() {
    let mut reg = Registry::new();
    let hkcu = RegKey::predef(HKEY_CURRENT_USER);
    hkcu.create_subkey(&mut reg, "Software\\Parent\\Child").unwrap();
    let e = hkcu.delete_subkey(&mut reg, "Software\\Parent").unwrap_err();
    assert_eq!(e, RegError::HasChildren);
    hkcu.delete_subkey_all(&mut reg, "Software\\Parent").unwrap();
    assert_eq!(
        hkcu.open_subkey(&reg, "Software\\Parent").unwrap_err(),
        RegError::NotFound
    );
    assert_eq!(
        hkcu.open_subkey(&reg, "Software\\Parent\\Child").unwrap_err(),
        RegError::NotFound
    );
}

#[test]
fn test_enumerates_eight_children_once_then_exhausts() {
    let mut reg = Registry::new();
    let hkcu = RegKey::predef(HKEY_CURRENT_USER);
    let (key, _) = hkcu.create_subkey(&mut reg, "Software\\Eight").unwrap();
    let names = ["echo", "alfa", "hotel", "bravo", "golf", "delta", "foxtrot", "charlie"];
    for n in &names {
        key.create_subkey(&mut reg, n).unwrap();
    }
    let mut seen: Vec<String> = Vec::new();
    let mut cursor = key.enum_keys();
    while let Some(x) = cursor.next(&reg) {
        seen.push(x.unwrap());
    }
    // Exactly the eight created names, each once, in the store's
    // enumeration order, which is creation order.
    assert_eq!(seen, names.iter().map(|s| s.to_string()).collect::<Vec<_>>());
    // Exhaustion is terminal: advancing again keeps signalling it.
    assert!(cursor.next(&reg).is_none());
    assert!(cursor.next(&reg).is_none());
}

#[test]
fn test_transaction_rollback_hides_value() {
    let mut reg = Registry::new();
    let hkcu = RegKey::predef(HKEY_CURRENT_USER);
    hkcu.create_subkey(&mut reg, "Software\\Tx").unwrap();
    let t = Transaction::new(&mut reg).unwrap();
    let k = hkcu
        .open_subkey_transacted(&reg, "Software\\Tx", &t)
        .unwrap();
    k.set_value(&mut reg, "v", &42u32).unwrap();
    // Inside the transaction the value is there.
    let inside: u32 = k.get_value(&reg, "v").unwrap();
    assert_eq!(inside, 42);
    // Outside it is not.
    let outside = hkcu.open_subkey(&reg, "Software\\Tx").unwrap();
    assert_eq!(outside.get_value::<u32>(&reg, "v").unwrap_err(), RegError::NotFound);
    t.rollback(&mut reg).unwrap();
    assert_eq!(outside.get_value::<u32>(&reg, "v").unwrap_err(), RegError::NotFound);
}

#[test]
fn test_transaction_drop_without_commit_hides_value() {
    let mut reg = Registry::new();
    let hkcu = RegKey::predef(HKEY_CURRENT_USER);
    hkcu.create_subkey(&mut reg, "Software\\Tx").unwrap();
    {
        let t = Transaction::new(&mut reg).unwrap();
        let k = hkcu
            .open_subkey_transacted(&reg, "Software\\Tx", &t)
            .unwrap();
        k.set_value(&mut reg, "v", &7u32).unwrap();
        // The transaction handle is dropped here without a commit.
    }
    let outside = hkcu.open_subkey(&reg, "Software\\Tx").unwrap();
    assert_eq!(outside.get_value::<u32>(&reg, "v").unwrap_err(), RegError::NotFound);
}

#[test]
fn test_transaction_commit_publishes_value() {
    let mut reg = Registry::new();
    let hkcu = RegKey::predef(HKEY_CURRENT_USER);
    hkcu.create_subkey(&mut reg, "Software\\Tx").unwrap();
    let t = Transaction::new(&mut reg).unwrap();
    let k = hkcu
        .open_subkey_transacted(&reg, "Software\\Tx", &t)
        .unwrap();
    k.set_value(&mut reg, "v", &42u32).unwrap();
    t.commit(&mut reg).unwrap();
    let outside = hkcu.open_subkey(&reg, "Software\\Tx").unwrap();
    let v: u32 = outside.get_value(&reg, "v").unwrap();
    assert_eq!(v, 42);
    // The transacted handle's context is gone after the commit.
    assert_eq!(
        k.get_value::<u32>(&reg, "v").unwrap_err(),
        RegError::OsError(ERROR_TRANSACTION_NOT_ACTIVE)
    );
}

#[test]
fn test_create_nested_establishes_intermediates() {
    let mut reg = Registry::new();
    let hkcu = RegKey::predef(HKEY_CURRENT_USER);
    assert_eq!(hkcu.open_subkey(&reg, "A").unwrap_err(), RegError::NotFound);
    let (_key, disp) = hkcu.create_subkey(&mut reg, "A\\B\\C").unwrap();
    assert_eq!(disp, RegDisposition::REG_CREATED_NEW_KEY);
    assert!(hkcu.open_subkey(&reg, "A").is_ok());
    assert!(hkcu.open_subkey(&reg, "A\\B").is_ok());
    assert!(hkcu.open_subkey(&reg, "A\\B\\C").is_ok());
}

#[test]
fn test_access_rights_are_enforced() {
    let mut reg = Registry::new();
    let hkcu = RegKey::predef(HKEY_CURRENT_USER);
    hkcu.create_subkey(&mut reg, "Software\\Guarded").unwrap();
    let read_only = hkcu
        .open_subkey_with_flags(&reg, "Software\\Guarded", KEY_READ)
        .unwrap();
    assert_eq!(
        read_only.set_value(&mut reg, "v", &1u32).unwrap_err(),
        RegError::OsError(ERROR_ACCESS_DENIED)
    );
    assert_eq!(
        read_only.delete_value(&mut reg, "v").unwrap_err(),
        RegError::OsError(ERROR_ACCESS_DENIED)
    );
    assert_eq!(
        read_only.create_subkey(&mut reg, "x").unwrap_err(),
        RegError::OsError(ERROR_ACCESS_DENIED)
    );
    // Reading through the read handle still works.
    assert!(read_only.query_info(&reg).is_ok());
}

#[test]
fn test_get_value_malformed_payload() {
    let mut reg = Registry::new();
    let hkcu = RegKey::predef(HKEY_CURRENT_USER);
    let (key, _) = hkcu.create_subkey(&mut reg, "Software\\Odd").unwrap();
    let raw = RegValue { vtype: RegType::REG_DWORD, bytes: vec![1, 2] };
    key.set_raw_value(&mut reg, "short", &raw).unwrap();
    assert_eq!(key.get_value::<u32>(&reg, "short").unwrap_err(), RegError::Malformed);
}

#[test]
fn test_default_value_is_the_empty_name() {
    let mut reg = Registry::new();
    let hkcu = RegKey::predef(HKEY_CURRENT_USER);
    let (key, _) = hkcu.create_subkey(&mut reg, "Software\\Default").unwrap();
    key.set_value(&mut reg, "", &"default text").unwrap();
    let v: String = key.get_value(&reg, "").unwrap();
    assert_eq!(v, "default text");
    key.delete_value(&mut reg, "").unwrap();
    assert_eq!(key.get_value::<String>(&reg, "").unwrap_err(), RegError::NotFound);
}

#[test]
fn test_query_info_counts_and_maxima() {
    let mut reg = Registry::new();
    let hkcu = RegKey::predef(HKEY_CURRENT_USER);
    let (key, _) = hkcu.create_subkey(&mut reg, "Software\\Info").unwrap();
    key.create_subkey(&mut reg, "aa").unwrap();
    key.create_subkey(&mut reg, "bbbb").unwrap();
    key.set_value(&mut reg, "name1", &1u32).unwrap();
    key.set_value(&mut reg, "longest-name", &"seven77").unwrap();
    key.set_value(&mut reg, "x", &3u64).unwrap();
    let md = key.query_info(&reg).unwrap();
    assert_eq!(md.sub_keys, 2);
    assert_eq!(md.max_sub_key_len, 4);
    assert_eq!(md.values, 3);
    assert_eq!(md.max_value_name_len, 12);
    // "seven77" stores seven UTF-16 units and one terminator: 16 bytes.
    assert_eq!(md.max_value_len, 16);
    assert_eq!(md.max_class_len, 0);
}

#[test]
fn test_copy_tree_copies_keys_and_values() {
    let mut reg = Registry::new();
    let hkcu = RegKey::predef(HKEY_CURRENT_USER);
    let (key, _) = hkcu.create_subkey(&mut reg, "Software\\CopyDeep").unwrap();
    let (src, _) = key.create_subkey(&mut reg, "Src").unwrap();
    src.set_value(&mut reg, "top", &1u32).unwrap();
    let (sub, _) = key.create_subkey(&mut reg, "Src\\Sub").unwrap();
    sub.set_value(&mut reg, "inner", &"text").unwrap();
    let (dst, _) = key.create_subkey(&mut reg, "Dst").unwrap();
    key.copy_tree(&mut reg, "Src", &dst).unwrap();
    let top: u32 = dst.get_value(&reg, "top").unwrap();
    assert_eq!(top, 1);
    let copied_sub = dst.open_subkey(&reg, "Sub").unwrap();
    let inner: String = copied_sub.get_value(&reg, "inner").unwrap();
    assert_eq!(inner, "text");
}

#[test]
fn test_buffer_growth_retry_returns_large_value() {
    let mut reg = Registry::new();
    let hkcu = RegKey::predef(HKEY_CURRENT_USER);
    let (key, _) = hkcu.create_subkey(&mut reg, "Software\\Grow").unwrap();
    // Larger than the protocol's starting capacity, so the single
    // growth retry is exercised.
    let big = RegValue { vtype: RegType::REG_BINARY, bytes: vec![0xAB; 5000] };
    key.set_raw_value(&mut reg, "big", &big).unwrap();
    let back = key.get_raw_value(&reg, "big").unwrap();
    assert_eq!(back, big);
}
