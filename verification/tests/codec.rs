use winreg::RegValue;
use winreg::enums::RegError;
use winreg::enums::RegType;
use winreg::types::FromRegValue;
use winreg::types::ToRegValue;

#[test]
fn test_u32_wire_format() {
    let v = 0x01020304u32;
    let raw = v.to_reg_value();
    assert_eq!(raw.vtype, RegType::REG_DWORD);
    assert_eq!(raw.bytes, vec![0x04, 0x03, 0x02, 0x01]);
    let back: u32 = u32::from_reg_value(&raw).unwrap();
    assert_eq!(back, v);
}

#[test]
fn test_u64_wire_format() {
    let v = 0x0102030405060708u64;
    let raw = v.to_reg_value();
    assert_eq!(raw.vtype, RegType::REG_QWORD);
    assert_eq!(raw.bytes, vec![0x08, 0x07, 0x06, 0x05, 0x04, 0x03, 0x02, 0x01]);
    let back: u64 = u64::from_reg_value(&raw).unwrap();
    assert_eq!(back, v);
}

#[test]
fn test_string_wire_format() {
    let raw = "AB".to_reg_value();
    assert_eq!(raw.vtype, RegType::REG_SZ);
    assert_eq!(raw.bytes, vec![0x41, 0x00, 0x42, 0x00, 0x00, 0x00]);
    let back: String = String::from_reg_value(&raw).unwrap();
    assert_eq!(back, "AB");
}

#[test]
fn test_string_round_trip_non_ascii() {
    let v = "héllo, мир, 漢字, a😀b".to_string();
    let back: String = String::from_reg_value(&v.to_reg_value()).unwrap();
    assert_eq!(back, v);
}

#[test]
fn test_string_round_trip_interior_nul() {
    let v = "a\u{0}b".to_string();
    let back: String = String::from_reg_value(&v.to_reg_value()).unwrap();
    assert_eq!(back, v);
}

#[test]
fn test_string_trailing_nul_is_stripped() {
    let v = "abc\u{0}".to_string();
    let back: String = String::from_reg_value(&v.to_reg_value()).unwrap();
    assert_eq!(back, "abc");
}

#[test]
fn test_lossy_decode_unpaired_surrogate() {
    let raw = RegValue { vtype: RegType::REG_SZ, bytes: vec![0x00, 0xD8, 0x41, 0x00] };
    let back: String = String::from_reg_value(&raw).unwrap();
    assert_eq!(back, "\u{FFFD}A");
}

#[test]
fn test_multi_string_round_trip() {
    let v: Vec<String> = vec![
        "one".to_string(),
        "".to_string(),
        "three".to_string(),
    ];
    let raw = v.to_reg_value();
    assert_eq!(raw.vtype, RegType::REG_MULTI_SZ);
    let back: Vec<String> = Vec::from_reg_value(&raw).unwrap();
    assert_eq!(back, v);
}

#[test]
fn test_multi_string_round_trip_empty_list() {
    let v: Vec<String> = Vec::new();
    let raw = v.to_reg_value();
    assert_eq!(raw.bytes, vec![0x00, 0x00]);
    let back: Vec<String> = Vec::from_reg_value(&raw).unwrap();
    assert_eq!(back, v);
}

#[test]
fn test_multi_string_round_trip_single_empty_element() {
    let v: Vec<String> = vec!["".to_string()];
    let raw = v.to_reg_value();
    assert_eq!(raw.bytes, vec![0x00, 0x00, 0x00, 0x00]);
    let back: Vec<String> = Vec::from_reg_value(&raw).unwrap();
    assert_eq!(back, v);
}

#[test]
fn test_multi_string_reads_as_joined_string() {
    let v: Vec<String> = vec!["ab".to_string(), "cd".to_string()];
    let joined: String = String::from_reg_value(&v.to_reg_value()).unwrap();
    assert_eq!(joined, "ab\ncd");
}

#[test]
fn test_decode_type_mismatch() {
    let raw = "12".to_reg_value();
    assert_eq!(u32::from_reg_value(&raw).unwrap_err(), RegError::TypeMismatch);
    assert_eq!(u64::from_reg_value(&raw).unwrap_err(), RegError::TypeMismatch);
    let raw_num = 7u32.to_reg_value();
    assert_eq!(
        String::from_reg_value(&raw_num).unwrap_err(),
        RegError::TypeMismatch
    );
    assert_eq!(
        <Vec<String>>::from_reg_value(&raw_num).unwrap_err(),
        RegError::TypeMismatch
    );
}

#[test]
fn test_decode_malformed_integer_payload() {
    let raw = RegValue { vtype: RegType::REG_DWORD, bytes: vec![0x01, 0x02, 0x03] };
    assert_eq!(u32::from_reg_value(&raw).unwrap_err(), RegError::Malformed);
    let raw8 = RegValue { vtype: RegType::REG_QWORD, bytes: vec![0x01, 0x02] };
    assert_eq!(u64::from_reg_value(&raw8).unwrap_err(), RegError::Malformed);
}

#[test]
fn test_type_codes_match_wire_format() {
    assert_eq!(RegType::REG_NONE.code(), 0);
    assert_eq!(RegType::REG_SZ.code(), 1);
    assert_eq!(RegType::REG_EXPAND_SZ.code(), 2);
    assert_eq!(RegType::REG_BINARY.code(), 3);
    assert_eq!(RegType::REG_DWORD.code(), 4);
    assert_eq!(RegType::REG_DWORD_BIG_ENDIAN.code(), 5);
    assert_eq!(RegType::REG_LINK.code(), 6);
    assert_eq!(RegType::REG_MULTI_SZ.code(), 7);
    assert_eq!(RegType::REG_RESOURCE_LIST.code(), 8);
    assert_eq!(RegType::REG_FULL_RESOURCE_DESCRIPTOR.code(), 9);
    assert_eq!(RegType::REG_RESOURCE_REQUIREMENTS_LIST.code(), 10);
    assert_eq!(RegType::REG_QWORD.code(), 11);
    assert_eq!(RegType::from_code(7), Some(RegType::REG_MULTI_SZ));
    assert_eq!(RegType::from_code(12), None);
}
