use aes_gcm::aead::generic_array::GenericArray;
use aes_gcm::aead::{Aead, NewAead};
use aes_gcm::Aes128Gcm;
use icfpc2023::secret::{api_password, decrypt, has_fitting_nonce, SecretError};
use icfpc2023::sql::{CellValue, Row, RowError};

fn encrypt(password: &[u8], nonce: &[u8; 12], plain: &str) -> String {
    let cipher = Aes128Gcm::new(GenericArray::from_slice(&password[0..16]));
    let ct = cipher
        .encrypt(GenericArray::from_slice(nonce), plain.as_bytes())
        .unwrap();
    format!("UNAGI::{}::{}", hex::encode(nonce), hex::encode(ct))
}

#[test]
fn decrypt_round_trip() {
    let password = b"0123456789abcdefEXTRA";
    let secret = encrypt(password, b"nonce-twelve", "hello, world");
    assert_eq!(decrypt(password, &secret), Ok("hello, world".to_string()));
}

#[test]
fn decrypt_errors() {
    let password = b"0123456789abcdef";
    assert_eq!(decrypt(password, "UNAGI::00"), Err(SecretError::InvalidFormat));
    assert_eq!(decrypt(password, "OTHER::00::11"), Err(SecretError::InvalidFormat));
    assert_eq!(decrypt(password, "UNAGI::zz::11"), Err(SecretError::InvalidHex));
    let secret = encrypt(password, b"nonce-twelve", "x");
    assert_eq!(decrypt(b"fedcba9876543210", &secret), Err(SecretError::DecryptionFailed));
    assert_eq!(
        decrypt(password, "UNAGI::000000000000000000000000::00"),
        Err(SecretError::DecryptionFailed)
    );
}

#[test]
fn embedded_password_needs_the_right_key() {
    assert_eq!(api_password(b"not-the-password"), Err(SecretError::DecryptionFailed));
}

fn sample_row() -> Row {
    Row::new(
        vec![b"id".to_vec(), b"name".to_vec(), b"note".to_vec()],
        vec![
            Some(CellValue::Int(7)),
            Some(CellValue::Bytes(b"unagi".to_vec())),
            Some(CellValue::Null),
        ],
    )
}

#[test]
fn row_cells() {
    let row = sample_row();
    assert_eq!(row.at::<i64>(0), Ok(7));
    assert_eq!(row.at_option::<i64>(2), Ok(None));
    assert_eq!(row.at_option::<i64>(9), Ok(None));
    assert_eq!(row.get::<String>("name"), Ok("unagi".to_string()));
    assert_eq!(row.get_option::<String>("note"), Ok(None));
    assert_eq!(
        row.at::<i64>(2),
        Err(RowError::UnexpectedNull { column: b"note".to_vec(), index: 2 })
    );
    assert_eq!(
        row.get::<i64>("missing"),
        Err(RowError::ColumnNotFound { name: "missing".to_string() })
    );
    match row.at::<i64>(1) {
        Err(RowError::Conversion { column, index, .. }) => {
            assert_eq!(column, b"name".to_vec());
            assert_eq!(index, 1);
        }
        other => panic!("unexpected {:?}", other),
    }
}

#[test]
fn nonce_length_check() {
    assert!(has_fitting_nonce("UNAGI::76254259ff4e8fd2a63b360b::3fd40d"));
    assert!(!has_fitting_nonce("UNAGI::7625::3fd40d"));
    // Not hexadecimal, or not a secret at all: decrypt reports the error.
    assert!(has_fitting_nonce("UNAGI::zz::00"));
    assert!(has_fitting_nonce("hello"));
}

#[test]
fn row_column_count() {
    let row = Row::new(vec![b"a".to_vec(), b"b".to_vec()], vec![Some(CellValue::Null), None]);
    assert_eq!(row.n_columns(), 2);
    assert_eq!(Row::new(vec![], vec![]).n_columns(), 0);
}

fn typed_row() -> Row {
    Row::new(
        vec![b"n".to_vec(), b"big".to_vec(), b"flag".to_vec(), b"bin".to_vec(), b"when".to_vec()],
        vec![
            Some(CellValue::Bytes(b"-12".to_vec())),
            Some(CellValue::UInt(5_000_000_000)),
            Some(CellValue::Bytes(b"1".to_vec())),
            Some(CellValue::Bytes(vec![0xff, 0x00])),
            Some(CellValue::Other(mysql::Value::Date(2023, 7, 7, 12, 0, 0, 0))),
        ],
    )
}

#[test]
fn row_conversions() {
    let row = typed_row();
    assert_eq!(row.at::<i64>(0), Ok(-12));
    assert_eq!(row.at::<i32>(0), Ok(-12));
    assert!(matches!(row.at::<u64>(0), Err(RowError::Conversion { index: 0, .. })));
    assert_eq!(row.get::<i64>("big"), Ok(5_000_000_000));
    assert_eq!(row.get::<u64>("big"), Ok(5_000_000_000));
    assert!(matches!(row.get::<i32>("big"), Err(RowError::Conversion { index: 1, .. })));
    assert!(matches!(row.get::<u32>("big"), Err(RowError::Conversion { index: 1, .. })));
    assert_eq!(row.get::<bool>("flag"), Ok(true));
    assert_eq!(row.get::<usize>("flag"), Ok(1));
    assert!(matches!(row.get::<bool>("n"), Err(RowError::Conversion { index: 0, .. })));
    assert_eq!(row.get::<Vec<u8>>("bin"), Ok(vec![0xff, 0x00]));
    assert!(matches!(row.get::<String>("bin"), Err(RowError::Conversion { index: 3, .. })));
    assert!(matches!(row.get::<String>("big"), Err(RowError::Conversion { index: 1, .. })));
    assert_eq!(row.get_option::<String>("n"), Ok(Some("-12".to_string())));
    assert!(matches!(row.get::<i64>("when"), Err(RowError::Conversion { index: 4, .. })));
}

#[test]
fn decimal_numerals_in_cells() {
    let row = Row::new(
        vec![b"a".to_vec(), b"b".to_vec(), b"c".to_vec(), b"d".to_vec(), b"e".to_vec()],
        vec![
            Some(CellValue::Bytes(b"+7".to_vec())),
            Some(CellValue::Bytes(b"-0".to_vec())),
            Some(CellValue::Bytes(b"-".to_vec())),
            Some(CellValue::Bytes(b" 5".to_vec())),
            Some(CellValue::Bytes(b"9223372036854775808".to_vec())),
        ],
    );
    assert_eq!(row.at::<i64>(0), Ok(7));
    assert_eq!(row.at::<u64>(1), Ok(0));
    assert!(row.at::<i64>(2).is_err());
    assert!(row.at::<i64>(3).is_err());
    assert!(row.at::<i64>(4).is_err());
    assert_eq!(row.at::<u64>(4), Ok(9_223_372_036_854_775_808));
    assert_eq!(row.at::<bool>(1).is_err(), true);
}

#[test]
fn row_error_texts() {
    let row = sample_row();
    let e = row.at::<i64>(2).unwrap_err();
    assert_eq!(e.text(), "Column note (#2) is unexpectedly null");
    let e = row.get::<i64>("missing").unwrap_err();
    assert_eq!(e.text(), "Column missing is not found");
    let e = row.at::<i64>(1).unwrap_err();
    assert!(e.text().starts_with("Error in column name (#1): "));
}

#[test]
fn other_values_never_convert() {
    let row = Row::new(
        vec![b"x".to_vec()],
        vec![Some(CellValue::Other(mysql::Value::Double(1.5)))],
    );
    assert!(matches!(row.at::<i64>(0), Err(RowError::Conversion { index: 0, .. })));
    assert!(matches!(row.at::<bool>(0), Err(RowError::Conversion { index: 0, .. })));
    assert!(matches!(row.at::<String>(0), Err(RowError::Conversion { index: 0, .. })));
    assert!(matches!(row.at::<Vec<u8>>(0), Err(RowError::Conversion { index: 0, .. })));
    assert!(matches!(row.at_option::<u64>(0), Err(RowError::Conversion { index: 0, .. })));
}
