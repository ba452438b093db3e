use dupsort_kv::codec::{encode_sharded_key, encode_u64};
use dupsort_kv::cursor::Cursor;
use dupsort_kv::dups::KeyLayout;
use dupsort_kv::env::{ClientVersion, DatabaseArguments, DatabaseEnv, DatabaseEnvKind, TableDef};
use dupsort_kv::error::{
    DatabaseError, DatabaseErrorInfo, DatabaseWriteError, DatabaseWriteOperation,
};
use dupsort_kv::tx::Tx;
use dupsort_kv::walker::{KeyBound, ReverseWalker, Walker};

const ERROR_DB_CREATION: &str = "Not able to create the database.";
const ERROR_PUT: &str = "Not able to insert value into table.";
const ERROR_APPEND: &str = "Not able to append the value to the table.";
const ERROR_UPSERT: &str = "Not able to upsert the value to the table.";
const ERROR_GET: &str = "Not able to get value from table.";
const ERROR_COMMIT: &str = "Not able to commit transaction.";
const ERROR_RETURN_VALUE: &str = "Mismatching result.";
const ERROR_INIT_TX: &str = "Failed to create a transaction.";

const HEADERS: &str = "Headers";
const CANONICAL_HEADERS: &str = "CanonicalHeaders";
const PLAIN_ACCOUNT_STATE: &str = "PlainAccountState";
const PLAIN_STORAGE_STATE: &str = "PlainStorageState";
const ACCOUNT_CHANGE_SETS: &str = "AccountChangeSets";
const ACCOUNTS_HISTORY: &str = "AccountsHistory";

fn def(name: &str, layout: KeyLayout) -> TableDef {
    TableDef { name: name.to_string(), layout }
}

/// Create database for testing
fn create_test_db(kind: DatabaseEnvKind) -> DatabaseEnv {
    let defs = vec![
        def(HEADERS, KeyLayout::Plain),
        def(CANONICAL_HEADERS, KeyLayout::Plain),
        def(PLAIN_ACCOUNT_STATE, KeyLayout::Plain),
        def(PLAIN_STORAGE_STATE, KeyLayout::DupSort { key_len: 20, subkey_len: 32 }),
        def(ACCOUNT_CHANGE_SETS, KeyLayout::DupSort { key_len: 8, subkey_len: 20 }),
        def(ACCOUNTS_HISTORY, KeyLayout::Plain),
    ];
    let version = ClientVersion {
        version: String::new(),
        git_sha: String::new(),
        build_timestamp: String::new(),
    };
    let mut env = DatabaseEnv::open(kind, DatabaseArguments::new(version), &defs)
        .expect(ERROR_DB_CREATION);
    env.create_tables().expect("Not able to create tables.");
    env
}

fn id(env: &DatabaseEnv, name: &str) -> usize {
    env.table_id(name).expect("table should exist")
}

/// One write in a transaction of its own.
fn update(env: &mut DatabaseEnv, table: usize, key: &[u8], value: &[u8]) {
    let mut tx = env.tx_mut().expect(ERROR_INIT_TX);
    tx.put(table, key, value).expect(ERROR_PUT);
    tx.commit().expect(ERROR_COMMIT);
}

fn b256_zero() -> Vec<u8> {
    vec![0u8; 32]
}

fn b256_with_last_byte(b: u8) -> Vec<u8> {
    let mut v = vec![0u8; 32];
    v[31] = b;
    v
}

fn u256(x: u64) -> Vec<u8> {
    let mut v = vec![0u8; 24];
    v.extend_from_slice(&encode_u64(x));
    v
}

fn address_with_last_byte(b: u8) -> Vec<u8> {
    let mut v = vec![0u8; 20];
    v[19] = b;
    v
}

fn address_from_hex(hex: &str) -> Vec<u8> {
    let digits = hex.trim_start_matches("0x").as_bytes();
    let nibble = |c: u8| -> u8 {
        match c {
            b'0'..=b'9' => c - b'0',
            b'a'..=b'f' => c - b'a' + 10,
            _ => c - b'A' + 10,
        }
    };
    let mut v = Vec::new();
    let mut i = 0;
    while i + 1 < digits.len() {
        v.push(nibble(digits[i]) * 16 + nibble(digits[i + 1]));
        i += 2;
    }
    v
}

/// An address that no other test value uses.
fn address_random() -> Vec<u8> {
    vec![
        0x5a, 0x17, 0xc3, 0x08, 0x9e, 0x41, 0xd2, 0x6b, 0x77, 0x0f, 0xe9, 0x34, 0xa6, 0x1d, 0x82,
        0xcb, 0x50, 0x3f, 0x94, 0x2e,
    ]
}

fn b256_random(seed: u8) -> Vec<u8> {
    let mut v = Vec::new();
    let mut x = seed;
    for _ in 0..32 {
        x = x.wrapping_mul(167).wrapping_add(13);
        v.push(x);
    }
    v
}

/// A header that holds nothing but defaults.
fn header_default() -> Vec<u8> {
    vec![0u8; 8]
}

/// An account with the given nonce and defaults otherwise.
fn account(nonce: u64) -> Vec<u8> {
    encode_u64(nonce)
}

/// A storage entry: the slot key, then the value.
fn storage_entry(key: &[u8], value: &[u8]) -> Vec<u8> {
    let mut v = key.to_vec();
    v.extend_from_slice(value);
    v
}

/// An account before a block, with no account information.
fn account_before_tx(address: &[u8]) -> Vec<u8> {
    address.to_vec()
}

fn integer_list(items: &[u64]) -> Vec<u8> {
    let mut v = Vec::new();
    for item in items {
        v.extend_from_slice(&encode_u64(*item));
    }
    v
}

fn put_all(tx: &mut Tx, table: usize, keys: &[u64]) {
    for key in keys {
        tx.put(table, &encode_u64(*key), &b256_zero()).expect(ERROR_PUT);
    }
}

fn walk_keys(cursor: Cursor) -> Vec<u64> {
    let mut walker = cursor.walk(None).unwrap();
    let mut res = Vec::new();
    while let Some(item) = walker.next() {
        let (key, _) = item.unwrap();
        res.push(dupsort_kv::codec::decode_u64(&key).unwrap());
    }
    res
}

fn pair(key: u64) -> Option<Result<(Vec<u8>, Vec<u8>), DatabaseError>> {
    Some(Ok((encode_u64(key), b256_zero())))
}

#[test]
fn db_manual_put_get() {
    let mut env = create_test_db(DatabaseEnvKind::RW);
    let headers = id(&env, HEADERS);

    let value = header_default();
    let key = encode_u64(1);

    // PUT
    let mut tx = env.tx_mut().expect(ERROR_INIT_TX);
    tx.put(headers, &key, &value).expect(ERROR_PUT);
    tx.commit().expect(ERROR_COMMIT);

    // GET
    let tx = env.tx().expect(ERROR_INIT_TX);
    let result = tx.get(headers, &key).expect(ERROR_GET).expect(ERROR_RETURN_VALUE);
    assert!(result == value);
    tx.commit().expect(ERROR_COMMIT);
}

#[test]
fn db_manual_put_get_dup() {
    let mut env = create_test_db(DatabaseEnvKind::RW);
    let table = id(&env, ACCOUNT_CHANGE_SETS);

    let address0 = address_with_last_byte(0);
    let address1 = address_with_last_byte(1);

    let mut tx = env.tx_mut().expect(ERROR_INIT_TX);
    tx.put(table, &encode_u64(1), &account_before_tx(&address0)).expect(ERROR_PUT);
    tx.put(table, &encode_u64(1), &account_before_tx(&address1)).expect(ERROR_PUT);
    tx.put(table, &encode_u64(2), &account_before_tx(&address1)).expect(ERROR_PUT);
    tx.commit().expect(ERROR_COMMIT);

    // GET
    let tx = env.tx().expect(ERROR_INIT_TX);
    let result = tx.get(table, &encode_u64(1)).expect(ERROR_GET).expect(ERROR_RETURN_VALUE);
    assert!(result == account_before_tx(&address0));
    tx.commit().expect(ERROR_COMMIT);

    let mut tx = env.tx().expect(ERROR_INIT_TX);
    let cursor = tx.cursor_read(table).unwrap();
    let mut walker =
        cursor.walk_range(Some(&encode_u64(0)), KeyBound::Included(encode_u64(1))).unwrap();
    assert_eq!(walker.next(), Some(Ok((encode_u64(1), account_before_tx(&address0)))));
    assert_eq!(walker.next(), Some(Ok((encode_u64(1), account_before_tx(&address1)))));
    assert_eq!(walker.next(), None,);

    let mut cursor = tx.cursor_read(table).unwrap();

    assert_eq!(
        cursor.seek_exact(&encode_u64(2)),
        Ok(Some((encode_u64(2), account_before_tx(&address1))))
    );
}

#[test]
fn db_cursor_walk() {
    let mut env = create_test_db(DatabaseEnvKind::RW);
    let headers = id(&env, HEADERS);

    let value = header_default();
    let key = encode_u64(1);

    // PUT
    let mut tx = env.tx_mut().expect(ERROR_INIT_TX);
    tx.put(headers, &key, &value).expect(ERROR_PUT);
    tx.commit().expect(ERROR_COMMIT);

    // Cursor
    let mut tx = env.tx().expect(ERROR_INIT_TX);
    let mut cursor = tx.cursor_read(headers).unwrap();

    let first = cursor.first();
    assert!(first.unwrap().is_some(), "First should be our put");

    // Walk
    let mut walk = cursor.walk(Some(&key)).unwrap();
    let first = walk.next().unwrap().unwrap();
    assert_eq!(first.1, value, "First next should be put value");
}

#[test]
fn db_cursor_walk_range() {
    let mut db = create_test_db(DatabaseEnvKind::RW);
    let table = id(&db, CANONICAL_HEADERS);

    // PUT (0, 0), (1, 0), (2, 0), (3, 0)
    let mut tx = db.tx_mut().expect(ERROR_INIT_TX);
    put_all(&mut tx, table, &[0, 1, 2, 3]);
    tx.commit().expect(ERROR_COMMIT);

    let mut tx = db.tx().expect(ERROR_INIT_TX);
    let cursor = tx.cursor_read(table).unwrap();

    // [1, 3)
    let mut walker =
        cursor.walk_range(Some(&encode_u64(1)), KeyBound::Excluded(encode_u64(3))).unwrap();
    assert_eq!(walker.next(), pair(1));
    assert_eq!(walker.next(), pair(2));
    assert_eq!(walker.next(), None);
    // next() returns None after walker is done
    assert_eq!(walker.next(), None);
    let cursor = walker.into_cursor();

    // [1, 2]
    let mut walker =
        cursor.walk_range(Some(&encode_u64(1)), KeyBound::Included(encode_u64(2))).unwrap();
    assert_eq!(walker.next(), pair(1));
    assert_eq!(walker.next(), pair(2));
    // next() returns None after walker is done
    assert_eq!(walker.next(), None);
    let cursor = walker.into_cursor();

    // [1, ∞)
    let mut walker = cursor.walk_range(Some(&encode_u64(1)), KeyBound::Unbounded).unwrap();
    assert_eq!(walker.next(), pair(1));
    assert_eq!(walker.next(), pair(2));
    assert_eq!(walker.next(), pair(3));
    // next() returns None after walker is done
    assert_eq!(walker.next(), None);
    let cursor = walker.into_cursor();

    // [2, 4)
    let mut walker =
        cursor.walk_range(Some(&encode_u64(2)), KeyBound::Excluded(encode_u64(4))).unwrap();
    assert_eq!(walker.next(), pair(2));
    assert_eq!(walker.next(), pair(3));
    assert_eq!(walker.next(), None);
    // next() returns None after walker is done
    assert_eq!(walker.next(), None);
    let cursor = walker.into_cursor();

    // (∞, 3)
    let mut walker = cursor.walk_range(None, KeyBound::Excluded(encode_u64(3))).unwrap();
    assert_eq!(walker.next(), pair(0));
    assert_eq!(walker.next(), pair(1));
    assert_eq!(walker.next(), pair(2));
    // next() returns None after walker is done
    assert_eq!(walker.next(), None);
    let cursor = walker.into_cursor();

    // (∞, ∞)
    let mut walker = cursor.walk_range(None, KeyBound::Unbounded).unwrap();
    assert_eq!(walker.next(), pair(0));
    assert_eq!(walker.next(), pair(1));
    assert_eq!(walker.next(), pair(2));
    assert_eq!(walker.next(), pair(3));
    // next() returns None after walker is done
    assert_eq!(walker.next(), None);
}

#[test]
fn db_cursor_walk_range_on_dup_table() {
    let mut db = create_test_db(DatabaseEnvKind::RW);
    let table = id(&db, ACCOUNT_CHANGE_SETS);

    let address0 = address_with_last_byte(0);
    let address1 = address_with_last_byte(1);
    let address2 = address_with_last_byte(2);

    let mut tx = db.tx_mut().expect(ERROR_INIT_TX);
    tx.put(table, &encode_u64(0), &account_before_tx(&address0)).expect(ERROR_PUT);
    tx.put(table, &encode_u64(0), &account_before_tx(&address1)).expect(ERROR_PUT);
    tx.put(table, &encode_u64(0), &account_before_tx(&address2)).expect(ERROR_PUT);
    tx.put(table, &encode_u64(1), &account_before_tx(&address0)).expect(ERROR_PUT);
    tx.put(table, &encode_u64(1), &account_before_tx(&address1)).expect(ERROR_PUT);
    tx.put(table, &encode_u64(1), &account_before_tx(&address2)).expect(ERROR_PUT);
    // <- should not be returned by the walker
    tx.put(table, &encode_u64(2), &account_before_tx(&address0)).expect(ERROR_PUT);
    tx.commit().expect(ERROR_COMMIT);

    let mut tx = db.tx().expect(ERROR_INIT_TX);
    let cursor = tx.cursor_read(table).unwrap();

    let mut walker = cursor.walk_range(None, KeyBound::Unbounded).unwrap();

    let entries = walker.collect().unwrap();
    assert_eq!(entries.len(), 7);
    let cursor = walker.into_cursor();

    let mut walker =
        cursor.walk_range(Some(&encode_u64(0)), KeyBound::Included(encode_u64(1))).unwrap();
    assert_eq!(walker.next(), Some(Ok((encode_u64(0), account_before_tx(&address0)))));
    assert_eq!(walker.next(), Some(Ok((encode_u64(0), account_before_tx(&address1)))));
    assert_eq!(walker.next(), Some(Ok((encode_u64(0), account_before_tx(&address2)))));
    assert_eq!(walker.next(), Some(Ok((encode_u64(1), account_before_tx(&address0)))));
    assert_eq!(walker.next(), Some(Ok((encode_u64(1), account_before_tx(&address1)))));
    assert_eq!(walker.next(), Some(Ok((encode_u64(1), account_before_tx(&address2)))));
    assert_eq!(walker.next(), None);
}

#[test]
fn db_cursor_walk_range_invalid() {
    let mut db = create_test_db(DatabaseEnvKind::RW);
    let table = id(&db, CANONICAL_HEADERS);

    // PUT (0, 0), (1, 0), (2, 0), (3, 0)
    let mut tx = db.tx_mut().expect(ERROR_INIT_TX);
    put_all(&mut tx, table, &[0, 1, 2, 3]);
    tx.commit().expect(ERROR_COMMIT);

    let mut tx = db.tx().expect(ERROR_INIT_TX);
    let cursor = tx.cursor_read(table).unwrap();

    // start bound greater than end bound
    let mut res =
        cursor.walk_range(Some(&encode_u64(3)), KeyBound::Excluded(encode_u64(1))).unwrap();
    assert_eq!(res.next(), None);
    let cursor = res.into_cursor();

    // start bound greater than end bound
    res = cursor.walk_range(Some(&encode_u64(15)), KeyBound::Included(encode_u64(2))).unwrap();
    assert_eq!(res.next(), None);
    let cursor = res.into_cursor();

    // returning nothing
    let mut walker =
        cursor.walk_range(Some(&encode_u64(1)), KeyBound::Excluded(encode_u64(1))).unwrap();
    assert_eq!(walker.next(), None);
}

#[test]
fn db_walker() {
    let mut db = create_test_db(DatabaseEnvKind::RW);
    let table = id(&db, CANONICAL_HEADERS);

    // PUT (0, 0), (1, 0), (3, 0)
    let mut tx = db.tx_mut().expect(ERROR_INIT_TX);
    put_all(&mut tx, table, &[0, 1, 3]);
    tx.commit().expect(ERROR_COMMIT);

    let mut tx = db.tx().expect(ERROR_INIT_TX);
    let cursor = tx.cursor_read(table).unwrap();

    let mut walker = Walker::new(cursor, None);

    assert_eq!(walker.next(), pair(0));
    assert_eq!(walker.next(), pair(1));
    assert_eq!(walker.next(), pair(3));
    assert_eq!(walker.next(), None);

    // transform to ReverseWalker
    let mut reverse_walker = walker.rev().unwrap();
    assert_eq!(reverse_walker.next(), pair(3));
    assert_eq!(reverse_walker.next(), pair(1));
    assert_eq!(reverse_walker.next(), pair(0));
    assert_eq!(reverse_walker.next(), None);
}

#[test]
fn db_reverse_walker() {
    let mut db = create_test_db(DatabaseEnvKind::RW);
    let table = id(&db, CANONICAL_HEADERS);

    // PUT (0, 0), (1, 0), (3, 0)
    let mut tx = db.tx_mut().expect(ERROR_INIT_TX);
    put_all(&mut tx, table, &[0, 1, 3]);
    tx.commit().expect(ERROR_COMMIT);

    let mut tx = db.tx().expect(ERROR_INIT_TX);
    let cursor = tx.cursor_read(table).unwrap();

    let mut reverse_walker = ReverseWalker::new(cursor, None);

    assert_eq!(reverse_walker.next(), pair(3));
    assert_eq!(reverse_walker.next(), pair(1));
    assert_eq!(reverse_walker.next(), pair(0));
    assert_eq!(reverse_walker.next(), None);

    // transform to Walker
    let mut walker = reverse_walker.forward().unwrap();
    assert_eq!(walker.next(), pair(0));
    assert_eq!(walker.next(), pair(1));
    assert_eq!(walker.next(), pair(3));
    assert_eq!(walker.next(), None);
}

#[test]
fn db_walk_back() {
    let mut db = create_test_db(DatabaseEnvKind::RW);
    let table = id(&db, CANONICAL_HEADERS);

    // PUT (0, 0), (1, 0), (3, 0)
    let mut tx = db.tx_mut().expect(ERROR_INIT_TX);
    put_all(&mut tx, table, &[0, 1, 3]);
    tx.commit().expect(ERROR_COMMIT);

    let mut tx = db.tx().expect(ERROR_INIT_TX);
    let cursor = tx.cursor_read(table).unwrap();

    let mut reverse_walker = cursor.walk_back(Some(&encode_u64(1))).unwrap();
    assert_eq!(reverse_walker.next(), pair(1));
    assert_eq!(reverse_walker.next(), pair(0));
    assert_eq!(reverse_walker.next(), None);
    let cursor = reverse_walker.into_cursor();

    let mut reverse_walker = cursor.walk_back(Some(&encode_u64(2))).unwrap();
    assert_eq!(reverse_walker.next(), pair(3));
    assert_eq!(reverse_walker.next(), pair(1));
    assert_eq!(reverse_walker.next(), pair(0));
    assert_eq!(reverse_walker.next(), None);
    let cursor = reverse_walker.into_cursor();

    let mut reverse_walker = cursor.walk_back(Some(&encode_u64(4))).unwrap();
    assert_eq!(reverse_walker.next(), pair(3));
    assert_eq!(reverse_walker.next(), pair(1));
    assert_eq!(reverse_walker.next(), pair(0));
    assert_eq!(reverse_walker.next(), None);
    let cursor = reverse_walker.into_cursor();

    let mut reverse_walker = cursor.walk_back(None).unwrap();
    assert_eq!(reverse_walker.next(), pair(3));
    assert_eq!(reverse_walker.next(), pair(1));
    assert_eq!(reverse_walker.next(), pair(0));
    assert_eq!(reverse_walker.next(), None);
}

#[test]
fn db_cursor_seek_exact_or_previous_key() {
    let mut db = create_test_db(DatabaseEnvKind::RW);
    let table = id(&db, CANONICAL_HEADERS);

    // PUT
    let mut tx = db.tx_mut().expect(ERROR_INIT_TX);
    put_all(&mut tx, table, &[0, 1, 3]);
    tx.commit().expect(ERROR_COMMIT);

    // Cursor
    let missing_key = 2;
    let mut tx = db.tx().expect(ERROR_INIT_TX);
    let mut cursor = tx.cursor_read(table).unwrap();
    assert_eq!(cursor.current(), Ok(None));

    // Seek exact
    let exact = cursor.seek_exact(&encode_u64(missing_key)).unwrap();
    assert_eq!(exact, None);
    assert_eq!(cursor.current(), Ok(Some((encode_u64(missing_key + 1), b256_zero()))));
    assert_eq!(cursor.prev(), Ok(Some((encode_u64(missing_key - 1), b256_zero()))));
    assert_eq!(cursor.prev(), Ok(Some((encode_u64(missing_key - 2), b256_zero()))));
}

#[test]
fn db_cursor_insert() {
    let mut db = create_test_db(DatabaseEnvKind::RW);
    let table = id(&db, CANONICAL_HEADERS);

    // PUT
    let mut tx = db.tx_mut().expect(ERROR_INIT_TX);
    put_all(&mut tx, table, &[0, 1, 3, 4, 5]);
    tx.commit().expect(ERROR_COMMIT);

    let key_to_insert = 2;
    let mut tx = db.tx_mut().expect(ERROR_INIT_TX);
    let mut cursor = tx.cursor_write(table).unwrap();

    // INSERT
    assert_eq!(cursor.insert(&encode_u64(key_to_insert), &b256_zero()), Ok(()));
    assert_eq!(cursor.current(), Ok(Some((encode_u64(key_to_insert), b256_zero()))));

    // INSERT (failure)
    assert_eq!(
        cursor.insert(&encode_u64(key_to_insert), &b256_zero()),
        Err(DatabaseError::Write(DatabaseWriteError {
            info: DatabaseErrorInfo { message: "AlreadyExists".into(), code: 1 },
            operation: DatabaseWriteOperation::CursorInsert,
            table_name: CANONICAL_HEADERS.into(),
            key: encode_u64(key_to_insert),
        }))
    );
    assert_eq!(cursor.current(), Ok(Some((encode_u64(key_to_insert), b256_zero()))));

    tx.commit().expect(ERROR_COMMIT);

    // Confirm the result
    let mut tx = db.tx().expect(ERROR_INIT_TX);
    let cursor = tx.cursor_read(table).unwrap();
    let res = walk_keys(cursor);
    assert_eq!(res, vec![0, 1, 2, 3, 4, 5]);
    tx.commit().expect(ERROR_COMMIT);
}

#[test]
fn db_cursor_insert_dup() {
    let mut db = create_test_db(DatabaseEnvKind::RW);
    let table = id(&db, PLAIN_STORAGE_STATE);
    let mut tx = db.tx_mut().expect(ERROR_INIT_TX);

    let mut dup_cursor = tx.cursor_dup_write(table).unwrap();
    let key = address_random();
    let subkey1 = b256_random(1);
    let subkey2 = b256_random(2);

    let entry1 = storage_entry(&subkey1, &u256(0));
    assert!(dup_cursor.insert(&key, &entry1).is_ok());

    // Can't insert
    let entry2 = storage_entry(&subkey2, &u256(0));
    assert!(dup_cursor.insert(&key, &entry2).is_err());
}

#[test]
fn db_cursor_delete_current_non_existent() {
    let mut db = create_test_db(DatabaseEnvKind::RW);
    let table = id(&db, PLAIN_ACCOUNT_STATE);
    let mut tx = db.tx_mut().expect(ERROR_INIT_TX);

    let key1 = address_with_last_byte(1);
    let key2 = address_with_last_byte(2);
    let key3 = address_with_last_byte(3);
    let mut cursor = tx.cursor_write(table).unwrap();

    assert!(cursor.insert(&key1, &account(0)).is_ok());
    assert!(cursor.insert(&key2, &account(0)).is_ok());
    assert!(cursor.insert(&key3, &account(0)).is_ok());

    // Seek & delete key2
    cursor.seek_exact(&key2).unwrap();
    assert_eq!(cursor.delete_current(), Ok(()));
    assert_eq!(cursor.seek_exact(&key2), Ok(None));

    // Seek & delete key2 again
    assert_eq!(cursor.seek_exact(&key2), Ok(None));
    assert_eq!(cursor.delete_current(), Ok(()));
    // Assert that key1 is still there
    assert_eq!(cursor.seek_exact(&key1), Ok(Some((key1, account(0)))));
    // Assert that key3 was deleted
    assert_eq!(cursor.seek_exact(&key3), Ok(None));
}

#[test]
fn db_cursor_insert_wherever_cursor_is() {
    let mut db = create_test_db(DatabaseEnvKind::RW);
    let table = id(&db, CANONICAL_HEADERS);
    let mut tx = db.tx_mut().expect(ERROR_INIT_TX);

    // PUT
    put_all(&mut tx, table, &[0, 1, 3, 5, 7, 9]);
    tx.commit().expect(ERROR_COMMIT);

    let mut tx = db.tx_mut().expect(ERROR_INIT_TX);
    let mut cursor = tx.cursor_write(table).unwrap();

    // INSERT (cursor starts at last)
    cursor.last().unwrap();
    assert_eq!(cursor.current(), Ok(Some((encode_u64(9), b256_zero()))));

    for pos in (2..=8).step_by(2) {
        assert_eq!(cursor.insert(&encode_u64(pos), &b256_zero()), Ok(()));
        assert_eq!(cursor.current(), Ok(Some((encode_u64(pos), b256_zero()))));
    }
    tx.commit().expect(ERROR_COMMIT);

    // Confirm the result
    let mut tx = db.tx().expect(ERROR_INIT_TX);
    let cursor = tx.cursor_read(table).unwrap();
    let res = walk_keys(cursor);
    assert_eq!(res, vec![0, 1, 2, 3, 4, 5, 6, 7, 8, 9]);
    tx.commit().expect(ERROR_COMMIT);
}

#[test]
fn db_cursor_append() {
    let mut db = create_test_db(DatabaseEnvKind::RW);
    let table = id(&db, CANONICAL_HEADERS);

    // PUT
    let mut tx = db.tx_mut().expect(ERROR_INIT_TX);
    put_all(&mut tx, table, &[0, 1, 2, 3, 4]);
    tx.commit().expect(ERROR_COMMIT);

    // APPEND
    let key_to_append = 5;
    let mut tx = db.tx_mut().expect(ERROR_INIT_TX);
    let mut cursor = tx.cursor_write(table).unwrap();
    assert_eq!(cursor.append(&encode_u64(key_to_append), &b256_zero()), Ok(()));
    tx.commit().expect(ERROR_COMMIT);

    // Confirm the result
    let mut tx = db.tx().expect(ERROR_INIT_TX);
    let cursor = tx.cursor_read(table).unwrap();
    let res = walk_keys(cursor);
    assert_eq!(res, vec![0, 1, 2, 3, 4, 5]);
    tx.commit().expect(ERROR_COMMIT);
}

#[test]
fn db_cursor_append_failure() {
    let mut db = create_test_db(DatabaseEnvKind::RW);
    let table = id(&db, CANONICAL_HEADERS);

    // PUT
    let mut tx = db.tx_mut().expect(ERROR_INIT_TX);
    put_all(&mut tx, table, &[0, 1, 3, 4, 5]);
    tx.commit().expect(ERROR_COMMIT);

    // APPEND
    let key_to_append = 2;
    let mut tx = db.tx_mut().expect(ERROR_INIT_TX);
    let mut cursor = tx.cursor_write(table).unwrap();
    assert_eq!(
        cursor.append(&encode_u64(key_to_append), &b256_zero()),
        Err(DatabaseError::Write(DatabaseWriteError {
            info: DatabaseErrorInfo { message: "KeyMismatch".into(), code: 1 },
            operation: DatabaseWriteOperation::CursorAppend,
            table_name: CANONICAL_HEADERS.into(),
            key: encode_u64(key_to_append),
        }))
    );
    assert_eq!(cursor.current(), Ok(Some((encode_u64(5), b256_zero())))); // the end of table
    tx.commit().expect(ERROR_COMMIT);

    // Confirm the result
    let mut tx = db.tx().expect(ERROR_INIT_TX);
    let cursor = tx.cursor_read(table).unwrap();
    let res = walk_keys(cursor);
    assert_eq!(res, vec![0, 1, 3, 4, 5]);
    tx.commit().expect(ERROR_COMMIT);
}

#[test]
fn db_cursor_upsert() {
    let mut db = create_test_db(DatabaseEnvKind::RW);
    let accounts = id(&db, PLAIN_ACCOUNT_STATE);
    let storage = id(&db, PLAIN_STORAGE_STATE);
    let mut tx = db.tx_mut().expect(ERROR_INIT_TX);

    let mut cursor = tx.cursor_write(accounts).unwrap();
    let key = address_random();

    let account0 = account(0);
    cursor.upsert(&key, &account0).expect(ERROR_UPSERT);
    assert_eq!(cursor.seek_exact(&key), Ok(Some((key.clone(), account0))));

    let account1 = account(1);
    cursor.upsert(&key, &account1).expect(ERROR_UPSERT);
    assert_eq!(cursor.seek_exact(&key), Ok(Some((key.clone(), account1))));

    let account2 = account(2);
    cursor.upsert(&key, &account2).expect(ERROR_UPSERT);
    assert_eq!(cursor.seek_exact(&key), Ok(Some((key.clone(), account2))));

    let mut dup_cursor = tx.cursor_dup_write(storage).unwrap();
    let subkey = b256_random(3);

    let value = u256(1);
    let entry1 = storage_entry(&subkey, &value);
    dup_cursor.upsert(&key, &entry1).expect(ERROR_UPSERT);
    assert_eq!(dup_cursor.seek_by_key_subkey(&key, &subkey), Ok(Some(entry1.clone())));

    // A second value with the same subkey joins the first one.
    let value = u256(2);
    let entry2 = storage_entry(&subkey, &value);
    dup_cursor.upsert(&key, &entry2).expect(ERROR_UPSERT);
    assert_eq!(dup_cursor.seek_by_key_subkey(&key, &subkey), Ok(Some(entry1)));
    assert_eq!(dup_cursor.next_dup_val(), Ok(Some(entry2)));
}

#[test]
fn db_cursor_dupsort_append() {
    let mut db = create_test_db(DatabaseEnvKind::RW);
    let table = id(&db, ACCOUNT_CHANGE_SETS);

    let transition_id = 2;

    let mut tx = db.tx_mut().expect(ERROR_INIT_TX);
    let mut cursor = tx.cursor_write(table).unwrap();
    for val in [0u8, 1, 3, 4, 5] {
        cursor
            .append(
                &encode_u64(transition_id),
                &account_before_tx(&address_with_last_byte(val)),
            )
            .expect(ERROR_APPEND);
    }
    tx.commit().expect(ERROR_COMMIT);

    // APPEND DUP & APPEND
    let subkey_to_append = 2;
    let mut tx = db.tx_mut().expect(ERROR_INIT_TX);
    let mut cursor = tx.cursor_write(table).unwrap();
    assert_eq!(
        cursor.append_dup(
            &encode_u64(transition_id),
            &account_before_tx(&address_with_last_byte(subkey_to_append))
        ),
        Err(DatabaseError::Write(DatabaseWriteError {
            info: DatabaseErrorInfo { message: "KeyMismatch".into(), code: 1 },
            operation: DatabaseWriteOperation::CursorAppendDup,
            table_name: ACCOUNT_CHANGE_SETS.into(),
            key: encode_u64(transition_id),
        }))
    );
    assert_eq!(
        cursor.append(
            &encode_u64(transition_id - 1),
            &account_before_tx(&address_with_last_byte(subkey_to_append))
        ),
        Err(DatabaseError::Write(DatabaseWriteError {
            info: DatabaseErrorInfo { message: "KeyMismatch".into(), code: 1 },
            operation: DatabaseWriteOperation::CursorAppend,
            table_name: ACCOUNT_CHANGE_SETS.into(),
            key: encode_u64(transition_id - 1),
        }))
    );
    assert_eq!(
        cursor.append(
            &encode_u64(transition_id),
            &account_before_tx(&address_with_last_byte(subkey_to_append))
        ),
        Ok(())
    );
}

#[test]
fn db_dup_sort() {
    let mut env = create_test_db(DatabaseEnvKind::RW);
    let table = id(&env, PLAIN_STORAGE_STATE);
    let key = address_from_hex("0xa2c122be93b0074270ebee7f6b7292c7deb45047");

    // PUT (0,0)
    let value00 = storage_entry(&b256_zero(), &u256(0));
    update(&mut env, table, &key, &value00);

    // PUT (2,2)
    let value22 = storage_entry(&b256_with_last_byte(2), &u256(2));
    update(&mut env, table, &key, &value22);

    // PUT (1,1)
    let value11 = storage_entry(&b256_with_last_byte(1), &u256(1));
    update(&mut env, table, &key, &value11);

    // Iterate with cursor
    {
        let mut tx = env.tx().expect(ERROR_INIT_TX);
        let mut cursor = tx.cursor_dup_read(table).unwrap();

        // Notice that value11 and value22 have been ordered in the DB.
        assert!(Some(value00.clone()) == cursor.next_dup_val().unwrap());
        assert!(Some(value11.clone()) == cursor.next_dup_val().unwrap());
        assert!(Some(value22.clone()) == cursor.next_dup_val().unwrap());
    }

    // Seek value with exact subkey
    {
        let mut tx = env.tx().expect(ERROR_INIT_TX);
        let cursor = tx.cursor_dup_read(table).unwrap();
        let mut walker = cursor.walk_dup(Some(&key), Some(&b256_with_last_byte(1))).unwrap();
        assert_eq!(
            (key, value11),
            walker
                .next()
                .expect("element should exist.")
                .expect("should be able to retrieve it.")
        );
    }
}

#[test]
fn db_iterate_over_all_dup_values() {
    let mut env = create_test_db(DatabaseEnvKind::RW);
    let table = id(&env, PLAIN_STORAGE_STATE);
    let key1 = address_from_hex("0x1111111111111111111111111111111111111111");
    let key2 = address_from_hex("0x2222222222222222222222222222222222222222");

    // PUT key1 (0,0)
    let value00 = storage_entry(&b256_zero(), &u256(0));
    update(&mut env, table, &key1, &value00);

    // PUT key1 (1,1)
    let value11 = storage_entry(&b256_with_last_byte(1), &u256(1));
    update(&mut env, table, &key1, &value11);

    // PUT key2 (2,2)
    let value22 = storage_entry(&b256_with_last_byte(2), &u256(2));
    update(&mut env, table, &key2, &value22);

    // Iterate with walk_dup
    {
        let mut tx = env.tx().expect(ERROR_INIT_TX);
        let cursor = tx.cursor_dup_read(table).unwrap();
        let mut walker = cursor.walk_dup(None, None).unwrap();

        // Notice that value11 and value22 have been ordered in the DB.
        assert_eq!(Some(Ok((key1.clone(), value00.clone()))), walker.next());
        assert_eq!(Some(Ok((key1.clone(), value11.clone()))), walker.next());
        // NOTE: Dup cursor does NOT iterates on all values but only on duplicated values of the
        // same key.
        assert_eq!(None, walker.next());
    }

    // Iterate by using `walk`
    {
        let mut tx = env.tx().expect(ERROR_INIT_TX);
        let mut cursor = tx.cursor_dup_read(table).unwrap();
        let first = cursor.first().unwrap().unwrap();
        let mut walker = cursor.walk(Some(&first.0)).unwrap();
        assert_eq!(Some(Ok((key1.clone(), value00))), walker.next());
        assert_eq!(Some(Ok((key1, value11))), walker.next());
        assert_eq!(Some(Ok((key2, value22))), walker.next());
    }
}

#[test]
fn dup_value_with_same_subkey() {
    let mut env = create_test_db(DatabaseEnvKind::RW);
    let table = id(&env, PLAIN_STORAGE_STATE);
    let key1 = vec![0x11u8; 20];
    let key2 = vec![0x22u8; 20];

    // PUT key1 (0,1)
    let value01 = storage_entry(&b256_with_last_byte(0), &u256(1));
    update(&mut env, table, &key1, &value01);

    // PUT key1 (0,0)
    let value00 = storage_entry(&b256_with_last_byte(0), &u256(0));
    update(&mut env, table, &key1, &value00);

    // PUT key2 (2,2)
    let value22 = storage_entry(&b256_with_last_byte(2), &u256(2));
    update(&mut env, table, &key2, &value22);

    // Iterate with walk
    {
        let mut tx = env.tx().expect(ERROR_INIT_TX);
        let mut cursor = tx.cursor_dup_read(table).unwrap();
        let first = cursor.first().unwrap().unwrap();
        let mut walker = cursor.walk(Some(&first.0)).unwrap();

        // NOTE: Both values are present
        assert_eq!(Some(Ok((key1.clone(), value00.clone()))), walker.next());
        assert_eq!(Some(Ok((key1.clone(), value01))), walker.next());
        assert_eq!(Some(Ok((key2, value22.clone()))), walker.next());
    }

    // seek_by_key_subkey
    {
        let mut tx = env.tx().expect(ERROR_INIT_TX);
        let mut cursor = tx.cursor_dup_read(table).unwrap();

        // NOTE: There are two values with same SubKey but only first one is shown
        assert_eq!(Ok(Some(value00.clone())), cursor.seek_by_key_subkey(&key1, &value00[0..32]));
        // key1 but value is greater than the one in the DB
        assert_eq!(Ok(None), cursor.seek_by_key_subkey(&key1, &value22[0..32]));
    }
}

#[test]
fn db_sharded_key() {
    let mut db = create_test_db(DatabaseEnvKind::RW);
    let table = id(&db, ACCOUNTS_HISTORY);
    let real_key = address_from_hex("0xa2c122be93b0074270ebee7f6b7292c7deb45047");

    for i in 1..5 {
        let key = encode_sharded_key(&real_key, i * 100);
        let list = integer_list(&[i * 100u64]);

        update(&mut db, table, &key, &list);
    }

    // Seek value with non existing key.
    {
        let mut tx = db.tx().expect(ERROR_INIT_TX);
        let cursor = tx.cursor_read(table).unwrap();

        // It will seek the one greater or equal to the query. Since we have `Address | 100`,
        // `Address | 200` in the database and we're querying `Address | 150` it will return us
        // `Address | 200`.
        let mut walker = cursor.walk(Some(&encode_sharded_key(&real_key, 150))).unwrap();
        let (key, list) = walker
            .next()
            .expect("element should exist.")
            .expect("should be able to retrieve it.");

        assert_eq!(encode_sharded_key(&real_key, 200), key);
        let list200 = integer_list(&[200u64]);
        assert_eq!(list200, list);
    }
    // Seek greatest index
    {
        let mut tx = db.tx().expect(ERROR_INIT_TX);
        let mut cursor = tx.cursor_read(table).unwrap();

        // It will seek the MAX value of transition index and try to use prev to get first
        // biggers.
        let _unknown = cursor.seek_exact(&encode_sharded_key(&real_key, u64::MAX)).unwrap();
        let (key, list) = cursor
            .prev()
            .expect("element should exist.")
            .expect("should be able to retrieve it.");

        assert_eq!(encode_sharded_key(&real_key, 400), key);
        let list400 = integer_list(&[400u64]);
        assert_eq!(list400, list);
    }
}

#[test]
fn db_creation() {
    create_test_db(DatabaseEnvKind::RW);
}
