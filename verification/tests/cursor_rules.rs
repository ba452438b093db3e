use dupsort_kv::codec::encode_u64;
use dupsort_kv::cursor::{Cursor, CursorState};
use dupsort_kv::dups::KeyLayout;
use dupsort_kv::error::{
    DatabaseError, DatabaseErrorInfo, DatabaseReadError, DatabaseReadOperation,
    DatabaseWriteError, DatabaseWriteOperation,
};
use dupsort_kv::table::{Pair, Table};
use dupsort_kv::walker::{DupWalker, KeyBound, Walker};

fn dup_table() -> Table {
    Table::new("Storage", KeyLayout::DupSort { key_len: 2, subkey_len: 1 }).unwrap()
}

fn plain_table() -> Table {
    Table::new("Plain", KeyLayout::Plain).unwrap()
}

fn all_pairs(table: &mut Table) -> Vec<Pair> {
    let cursor = Cursor::new(table, false);
    let mut walker = cursor.walk(None).unwrap();
    walker.collect().unwrap()
}

fn raw_entries(table: &Table) -> Vec<Pair> {
    let mut out = Vec::new();
    for i in 0..table.len() {
        out.push((table.raw_key(i).to_vec(), table.raw_value(i).to_vec()));
    }
    out
}

fn p(key: &[u8], value: &[u8]) -> Pair {
    (key.to_vec(), value.to_vec())
}

fn read_error(op: DatabaseReadOperation, message: &str, table: &str, key: &[u8]) -> DatabaseError {
    DatabaseError::Read(DatabaseReadError {
        info: DatabaseErrorInfo { message: message.into(), code: 1 },
        operation: op,
        table_name: table.into(),
        key: key.to_vec(),
    })
}

fn write_error(op: DatabaseWriteOperation, message: &str, table: &str, key: &[u8]) -> DatabaseError {
    DatabaseError::Write(DatabaseWriteError {
        info: DatabaseErrorInfo { message: message.into(), code: 1 },
        operation: op,
        table_name: table.into(),
        key: key.to_vec(),
    })
}

/// Storage entries for three addresses, each with several values written out
/// of order, come out as one sorted sequence, grouped by address.
#[test]
fn sorted_walk_after_unordered_upserts() {
    let mut table = dup_table();
    let a1 = [0u8, 1];
    let a2 = [0u8, 2];
    let a3 = [0u8, 3];
    {
        let mut cursor = Cursor::new(&mut table, true);
        cursor.upsert(&a2, &[7, 1]).unwrap();
        cursor.upsert(&a2, &[3, 9]).unwrap();
        cursor.upsert(&a2, &[7, 0]).unwrap();
        cursor.upsert(&a1, &[5, 5]).unwrap();
        cursor.upsert(&a1, &[5, 4]).unwrap();
        cursor.upsert(&a1, &[5, 6]).unwrap();
        cursor.upsert(&a1, &[1]).unwrap();
        cursor.upsert(&a3, &[9, 2]).unwrap();
        cursor.upsert(&a3, &[0, 2]).unwrap();
        cursor.upsert(&a3, &[9, 1]).unwrap();
    }
    assert_eq!(
        all_pairs(&mut table),
        vec![
            p(&a1, &[1]),
            p(&a1, &[5, 4]),
            p(&a1, &[5, 5]),
            p(&a1, &[5, 6]),
            p(&a2, &[3, 9]),
            p(&a2, &[7, 0]),
            p(&a2, &[7, 1]),
            p(&a3, &[0, 2]),
            p(&a3, &[9, 1]),
            p(&a3, &[9, 2]),
        ]
    );
}

/// The physical keys hold the primary key, the subkey and a tie-breaker that
/// rises with the value.
#[test]
fn physical_keys_of_ties() {
    let mut table = dup_table();
    {
        let mut cursor = Cursor::new(&mut table, true);
        cursor.upsert(&[0, 1], &[5, 5]).unwrap();
        cursor.upsert(&[0, 1], &[5, 7]).unwrap();
        cursor.upsert(&[0, 1], &[5, 6]).unwrap();
        cursor.upsert(&[0, 1], &[5, 4]).unwrap();
    }
    assert_eq!(
        raw_entries(&table),
        vec![
            p(&[0, 1, 5, 0, 0, 0, 0, 0, 0, 0, 0], &[5, 4]),
            p(&[0, 1, 5, 0, 0, 0, 0, 0, 0, 0, 1], &[5, 5]),
            p(&[0, 1, 5, 0, 0, 0, 0, 0, 0, 0, 2], &[5, 6]),
            p(&[0, 1, 5, 0, 0, 0, 0, 0, 0, 0, 3], &[5, 7]),
        ]
    );
}

/// A value finds its place among ties that a delete has left apart.
#[test]
fn upsert_after_delete_keeps_ties_sorted() {
    let mut table = dup_table();
    {
        let mut cursor = Cursor::new(&mut table, true);
        cursor.upsert(&[0, 1], &[5, 1]).unwrap();
        cursor.upsert(&[0, 1], &[5, 3]).unwrap();
        cursor.upsert(&[0, 1], &[5, 5]).unwrap();
        cursor.seek_by_key_subkey(&[0, 1], &[5]).unwrap();
        cursor.next_dup().unwrap();
        assert_eq!(cursor.current(), Ok(Some(p(&[0, 1], &[5, 3]))));
        cursor.delete_current().unwrap();
        assert_eq!(cursor.current(), Ok(Some(p(&[0, 1], &[5, 5]))));
        cursor.upsert(&[0, 1], &[5, 2]).unwrap();
        assert_eq!(cursor.current(), Ok(Some(p(&[0, 1], &[5, 2]))));
    }
    assert_eq!(
        raw_entries(&table),
        vec![
            p(&[0, 1, 5, 0, 0, 0, 0, 0, 0, 0, 0], &[5, 1]),
            p(&[0, 1, 5, 0, 0, 0, 0, 0, 0, 0, 1], &[5, 2]),
            p(&[0, 1, 5, 0, 0, 0, 0, 0, 0, 0, 3], &[5, 5]),
        ]
    );
    assert_eq!(
        all_pairs(&mut table),
        vec![p(&[0, 1], &[5, 1]), p(&[0, 1], &[5, 2]), p(&[0, 1], &[5, 5])]
    );
}

/// Writing the same pair twice stores it once.
#[test]
fn upsert_twice_is_one_entry() {
    let mut table = dup_table();
    {
        let mut cursor = Cursor::new(&mut table, true);
        cursor.upsert(&[0, 1], &[5, 5]).unwrap();
        cursor.upsert(&[0, 1], &[5, 6]).unwrap();
    }
    let before = raw_entries(&table);
    {
        let mut cursor = Cursor::new(&mut table, true);
        cursor.upsert(&[0, 1], &[5, 5]).unwrap();
        assert_eq!(cursor.state, CursorState::At(0));
        cursor.upsert(&[0, 1], &[5, 6]).unwrap();
        assert_eq!(cursor.state, CursorState::At(1));
    }
    assert_eq!(raw_entries(&table), before);
    assert_eq!(before.len(), 2);
}

/// In a plain table the second write replaces the first.
#[test]
fn upsert_replaces_in_plain_table() {
    let mut table = plain_table();
    {
        let mut cursor = Cursor::new(&mut table, false);
        cursor.upsert(&[2], &[1]).unwrap();
        cursor.upsert(&[1], &[1]).unwrap();
        cursor.upsert(&[2], &[9]).unwrap();
        assert_eq!(cursor.state, CursorState::At(1));
    }
    assert_eq!(all_pairs(&mut table), vec![p(&[1], &[1]), p(&[2], &[9])]);
}

/// An insert under a key that has a value is refused and changes nothing.
#[test]
fn insert_is_exclusive() {
    let mut table = dup_table();
    {
        let mut cursor = Cursor::new(&mut table, true);
        cursor.insert(&[0, 1], &[5, 5]).unwrap();
        cursor.insert(&[0, 3], &[5, 5]).unwrap();
    }
    let before = raw_entries(&table);
    {
        let mut cursor = Cursor::new(&mut table, true);
        let refused =
            write_error(DatabaseWriteOperation::CursorInsert, "AlreadyExists", "Storage", &[0, 1]);
        assert_eq!(cursor.insert(&[0, 1], &[5, 5]), Err(refused.clone()));
        assert_eq!(cursor.current(), Ok(Some(p(&[0, 1], &[5, 5]))));
        assert_eq!(cursor.insert(&[0, 1], &[6, 0]), Err(refused));
        // The first entry at or after the key and subkey of the refused pair.
        assert_eq!(cursor.current(), Ok(Some(p(&[0, 3], &[5, 5]))));
    }
    assert_eq!(raw_entries(&table), before);

    let mut plain = plain_table();
    {
        let mut cursor = Cursor::new(&mut plain, false);
        cursor.insert(&[7], &[1]).unwrap();
        assert_eq!(
            cursor.insert(&[7], &[2]),
            Err(write_error(DatabaseWriteOperation::CursorInsert, "AlreadyExists", "Plain", &[7]))
        );
    }
    assert_eq!(all_pairs(&mut plain), vec![p(&[7], &[1])]);
}

/// Appending above the last key succeeds, at the last key too, and below it is
/// refused without a change.
#[test]
fn append_keeps_order() {
    let mut table = plain_table();
    {
        let mut cursor = Cursor::new(&mut table, false);
        assert_eq!(cursor.append(&encode_u64(1), &[1]), Ok(()));
        assert_eq!(cursor.append(&encode_u64(3), &[3]), Ok(()));
        assert_eq!(cursor.append(&encode_u64(3), &[4]), Ok(()));
        assert_eq!(
            cursor.append(&encode_u64(2), &[2]),
            Err(write_error(
                DatabaseWriteOperation::CursorAppend,
                "KeyMismatch",
                "Plain",
                &encode_u64(2)
            ))
        );
        assert_eq!(cursor.state, CursorState::At(1));
    }
    assert_eq!(all_pairs(&mut table), vec![p(&encode_u64(1), &[1]), p(&encode_u64(3), &[4])]);
}

/// Appending a duplicate goes after the last value of its subkey, and is
/// refused below it and when the key has a higher subkey with no value of this
/// one.
#[test]
fn append_dup_keeps_order() {
    let mut table = dup_table();
    let refused =
        write_error(DatabaseWriteOperation::CursorAppendDup, "KeyMismatch", "Storage", &[0, 1]);
    {
        let mut cursor = Cursor::new(&mut table, true);
        assert_eq!(cursor.append_dup(&[0, 1], &[5, 5]), Ok(()));
        assert_eq!(cursor.append_dup(&[0, 1], &[5, 7]), Ok(()));
        assert_eq!(cursor.append_dup(&[0, 1], &[5, 7]), Ok(()));
        assert_eq!(cursor.append_dup(&[0, 1], &[5, 6]), Err(refused.clone()));
        assert_eq!(cursor.append_dup(&[0, 1], &[4, 9]), Err(refused.clone()));
        assert_eq!(cursor.append_dup(&[0, 1], &[8]), Ok(()));
        // After the last value of its subkey, though a higher subkey follows.
        assert_eq!(cursor.append_dup(&[0, 1], &[5, 9]), Ok(()));
        assert_eq!(cursor.append_dup(&[0, 0], &[1]), Ok(()));
    }
    assert_eq!(
        all_pairs(&mut table),
        vec![
            p(&[0, 0], &[1]),
            p(&[0, 1], &[5, 5]),
            p(&[0, 1], &[5, 7]),
            p(&[0, 1], &[5, 9]),
            p(&[0, 1], &[8]),
        ]
    );
    let mut plain = plain_table();
    let mut cursor = Cursor::new(&mut plain, false);
    assert_eq!(
        cursor.append_dup(&[1], &[1]),
        Err(write_error(DatabaseWriteOperation::CursorAppendDup, "InvalidKey", "Plain", &[1]))
    );
}

fn three_keys() -> Table {
    let mut table = dup_table();
    {
        let mut cursor = Cursor::new(&mut table, true);
        cursor.upsert(&[0, 1], &[1]).unwrap();
        cursor.upsert(&[0, 1], &[2]).unwrap();
        cursor.upsert(&[0, 1], &[3]).unwrap();
        cursor.upsert(&[0, 2], &[1]).unwrap();
        cursor.upsert(&[0, 4], &[1]).unwrap();
        cursor.upsert(&[0, 4], &[2]).unwrap();
    }
    table
}

/// Steps within a key return its values and then nothing, and stay within it.
#[test]
fn next_dup_stays_within_key() {
    let mut table = three_keys();
    let mut cursor = Cursor::new(&mut table, true);
    assert_eq!(cursor.seek_exact(&[0, 1]), Ok(Some(p(&[0, 1], &[1]))));
    assert_eq!(cursor.next_dup(), Ok(Some(p(&[0, 1], &[2]))));
    assert_eq!(cursor.next_dup(), Ok(Some(p(&[0, 1], &[3]))));
    assert_eq!(cursor.next_dup(), Ok(None));
    // The cursor has not moved on.
    assert_eq!(cursor.current(), Ok(Some(p(&[0, 1], &[3]))));
    assert_eq!(cursor.next_dup(), Ok(None));
    assert_eq!(cursor.next(), Ok(Some(p(&[0, 2], &[1]))));
    assert_eq!(cursor.next_dup_val(), Ok(None));
    assert_eq!(cursor.current(), Ok(Some(p(&[0, 2], &[1]))));
}

/// A step to the next key skips the values of the current one, and stays if
/// there is no next key.
#[test]
fn next_no_dup_skips_values() {
    let mut table = three_keys();
    let mut cursor = Cursor::new(&mut table, true);
    assert_eq!(cursor.next_no_dup(), Ok(Some(p(&[0, 1], &[1]))));
    assert_eq!(cursor.next_no_dup(), Ok(Some(p(&[0, 2], &[1]))));
    assert_eq!(cursor.next_no_dup(), Ok(Some(p(&[0, 4], &[1]))));
    assert_eq!(cursor.next_no_dup(), Ok(None));
    assert_eq!(cursor.current(), Ok(Some(p(&[0, 4], &[1]))));
    assert_eq!(cursor.next(), Ok(Some(p(&[0, 4], &[2]))));
    assert_eq!(cursor.next(), Ok(None));
    assert_eq!(cursor.state, CursorState::End);
    assert_eq!(cursor.next_no_dup(), Ok(None));
}

/// The state machine at the ends of the table.
#[test]
fn navigation_at_the_ends() {
    let mut empty = plain_table();
    let mut cursor = Cursor::new(&mut empty, false);
    assert_eq!(cursor.state, CursorState::Start);
    assert_eq!(cursor.current(), Ok(None));
    assert_eq!(cursor.first(), Ok(None));
    assert_eq!(cursor.state, CursorState::End);
    assert_eq!(cursor.last(), Ok(None));
    assert_eq!(cursor.state, CursorState::End);
    assert_eq!(cursor.prev(), Ok(None));
    assert_eq!(cursor.seek(&[1]), Ok(None));

    let mut table = three_keys();
    let mut cursor = Cursor::new(&mut table, false);
    assert_eq!(cursor.prev(), Ok(Some(p(&[0, 4], &[2]))));
    assert_eq!(cursor.next(), Ok(None));
    assert_eq!(cursor.state, CursorState::End);
    assert_eq!(cursor.next(), Ok(None));
    assert_eq!(cursor.prev(), Ok(Some(p(&[0, 4], &[2]))));
    assert_eq!(cursor.first(), Ok(Some(p(&[0, 1], &[1]))));
    assert_eq!(cursor.prev(), Ok(None));
    assert_eq!(cursor.state, CursorState::Start);
    assert_eq!(cursor.next(), Ok(Some(p(&[0, 1], &[1]))));
    assert_eq!(cursor.seek(&[0, 3]), Ok(Some(p(&[0, 4], &[1]))));
    assert_eq!(cursor.seek(&[0, 5]), Ok(None));
    assert_eq!(cursor.state, CursorState::End);
    assert_eq!(
        cursor.seek(&[0]),
        Err(read_error(DatabaseReadOperation::Seek, "InvalidKey", "Storage", &[0]))
    );
    assert_eq!(cursor.state, CursorState::End);
    assert_eq!(
        cursor.seek_exact(&[0, 2, 0]),
        Err(read_error(DatabaseReadOperation::Seek, "InvalidKey", "Storage", &[0, 2, 0]))
    );
}

/// A search by key and subkey stops at the first value at or after the
/// subkey, and leaves the cursor there when the value is of another key.
#[test]
fn seek_by_key_subkey_positions() {
    let mut table = three_keys();
    let mut cursor = Cursor::new(&mut table, true);
    assert_eq!(cursor.seek_by_key_subkey(&[0, 1], &[2]), Ok(Some(vec![2])));
    assert_eq!(cursor.seek_by_key_subkey(&[0, 1], &[0]), Ok(Some(vec![1])));
    assert_eq!(cursor.seek_by_key_subkey(&[0, 1], &[4]), Ok(None));
    assert_eq!(cursor.current(), Ok(Some(p(&[0, 2], &[1]))));
    assert_eq!(cursor.seek_by_key_subkey(&[0, 3], &[0]), Ok(None));
    assert_eq!(cursor.current(), Ok(Some(p(&[0, 4], &[1]))));
    assert_eq!(cursor.seek_by_key_subkey(&[0, 4], &[3]), Ok(None));
    assert_eq!(cursor.state, CursorState::End);
    let invalid = |table: &str, key: &[u8]| {
        Err(read_error(DatabaseReadOperation::SeekBySubkey, "InvalidKey", table, key))
    };
    assert_eq!(cursor.seek_by_key_subkey(&[0, 4], &[3, 3]), invalid("Storage", &[0, 4]));
    assert_eq!(cursor.seek_by_key_subkey(&[4], &[3]), invalid("Storage", &[4]));
    let mut plain = plain_table();
    let mut cursor = Cursor::new(&mut plain, false);
    assert_eq!(cursor.seek_by_key_subkey(&[4], &[]), invalid("Plain", &[4]));
}

/// Deleting the entry that a walk has just yielded does not disturb the walk.
#[test]
fn delete_during_walk() {
    let mut table = dup_table();
    {
        let mut cursor = Cursor::new(&mut table, true);
        cursor.upsert(&[0, 1], &[1]).unwrap();
        cursor.upsert(&[0, 1], &[2]).unwrap();
        cursor.upsert(&[0, 2], &[1]).unwrap();
    }
    {
        let cursor = Cursor::new(&mut table, true);
        let mut walker = cursor.walk(None).unwrap();
        assert_eq!(walker.next(), Some(Ok(p(&[0, 1], &[1]))));
        assert_eq!(walker.delete_current(), Ok(()));
        assert_eq!(walker.next(), Some(Ok(p(&[0, 1], &[2]))));
        assert_eq!(walker.next(), Some(Ok(p(&[0, 2], &[1]))));
        assert_eq!(walker.delete_current(), Ok(()));
        assert_eq!(walker.next(), None);
        let cursor = walker.into_cursor();
        assert_eq!(cursor.state, CursorState::End);
    }
    assert_eq!(all_pairs(&mut table), vec![p(&[0, 1], &[2])]);
}

/// Deleting while walking back goes on with the entry before the deleted one.
#[test]
fn delete_during_reverse_walk() {
    let mut table = three_keys();
    {
        let cursor = Cursor::new(&mut table, false);
        let mut walker = cursor.walk_back(None).unwrap();
        assert_eq!(walker.next(), Some(Ok(p(&[0, 4], &[2]))));
        assert_eq!(walker.delete_current(), Ok(()));
        assert_eq!(walker.next(), Some(Ok(p(&[0, 4], &[1]))));
        assert_eq!(walker.next(), Some(Ok(p(&[0, 2], &[1]))));
        assert_eq!(walker.delete_current(), Ok(()));
        assert_eq!(walker.next(), Some(Ok(p(&[0, 1], &[3]))));
        assert_eq!(
            walker.collect().unwrap(),
            vec![p(&[0, 1], &[2]), p(&[0, 1], &[1])]
        );
    }
    assert_eq!(
        all_pairs(&mut table),
        vec![p(&[0, 1], &[1]), p(&[0, 1], &[2]), p(&[0, 1], &[3]), p(&[0, 4], &[1])]
    );
}

/// A walk through the values of a key, with deletes, ends with the key.
#[test]
fn delete_during_dup_walk() {
    let mut table = three_keys();
    {
        let cursor = Cursor::new(&mut table, true);
        let mut walker = cursor.walk_dup(Some(&[0, 1]), None).unwrap();
        assert_eq!(walker.next(), Some(Ok(p(&[0, 1], &[1]))));
        assert_eq!(walker.next(), Some(Ok(p(&[0, 1], &[2]))));
        assert_eq!(walker.delete_current(), Ok(()));
        assert_eq!(walker.next(), Some(Ok(p(&[0, 1], &[3]))));
        assert_eq!(walker.delete_current(), Ok(()));
        assert_eq!(walker.next(), None);
        assert_eq!(walker.into_cursor().state, CursorState::End);
    }
    assert_eq!(
        all_pairs(&mut table),
        vec![p(&[0, 1], &[1]), p(&[0, 2], &[1]), p(&[0, 4], &[1]), p(&[0, 4], &[2])]
    );
}

/// A cursor that was never moved has nothing to delete.
#[test]
fn delete_at_start_is_an_error() {
    let mut table = three_keys();
    {
        let mut cursor = Cursor::new(&mut table, true);
        let refused = read_error(
            DatabaseReadOperation::DeleteCurrent,
            "Deleting from uninitialized cursor",
            "Storage",
            &[],
        );
        assert_eq!(cursor.delete_current(), Err(refused.clone()));
        assert_eq!(cursor.delete_current_duplicates(), Err(refused.clone()));
        let mut walker = Walker::new(cursor, None);
        assert_eq!(walker.delete_current(), Err(refused.clone()));
        let mut walker = DupWalker::new(walker.into_cursor(), None);
        assert_eq!(walker.delete_current(), Err(refused));
        let mut cursor = walker.into_cursor();
        cursor.seek(&[0, 9]).unwrap();
        assert_eq!(cursor.delete_current(), Ok(()));
        assert_eq!(cursor.delete_current_duplicates(), Ok(()));
    }
    assert_eq!(table.len(), 6);
}

/// Deleting the duplicates of a key leaves the cursor at the next key.
#[test]
fn delete_current_duplicates_removes_the_key() {
    let mut table = three_keys();
    {
        let mut cursor = Cursor::new(&mut table, true);
        cursor.seek_by_key_subkey(&[0, 1], &[2]).unwrap();
        assert_eq!(cursor.delete_current_duplicates(), Ok(()));
        assert_eq!(cursor.current(), Ok(Some(p(&[0, 2], &[1]))));
        cursor.last().unwrap();
        assert_eq!(cursor.delete_current_duplicates(), Ok(()));
        assert_eq!(cursor.state, CursorState::End);
    }
    assert_eq!(all_pairs(&mut table), vec![p(&[0, 2], &[1])]);
}

/// A range walk yields the keys from the start up to the end bound.
#[test]
fn range_walk_bounds() {
    let mut table = three_keys();
    let cursor = Cursor::new(&mut table, false);
    let mut walker = cursor.walk_range(Some(&[0, 2]), KeyBound::Excluded(vec![0, 4])).unwrap();
    assert_eq!(walker.collect().unwrap(), vec![p(&[0, 2], &[1])]);
    let cursor = walker.into_cursor();
    let mut walker = cursor.walk_range(Some(&[0, 2]), KeyBound::Included(vec![0, 4])).unwrap();
    assert_eq!(
        walker.collect().unwrap(),
        vec![p(&[0, 2], &[1]), p(&[0, 4], &[1]), p(&[0, 4], &[2])]
    );
    let cursor = walker.into_cursor();
    let mut walker = cursor.walk_range(Some(&[0, 4]), KeyBound::Excluded(vec![0, 2])).unwrap();
    assert_eq!(walker.collect().unwrap(), vec![]);
    let cursor = walker.into_cursor();
    let mut walker = cursor.walk_range(Some(&[0, 3]), KeyBound::Excluded(vec![0, 3])).unwrap();
    assert_eq!(walker.next(), None);
    let cursor = walker.into_cursor();
    assert_eq!(
        cursor.walk_range(Some(&[0]), KeyBound::Unbounded).err(),
        Some(read_error(DatabaseReadOperation::Seek, "InvalidKey", "Storage", &[0]))
    );
}

/// Where a walk through the values of a key starts, and when it cannot.
#[test]
fn walk_dup_starts() {
    let mut table = three_keys();
    let cursor = Cursor::new(&mut table, true);
    let mut walker = cursor.walk_dup(Some(&[0, 1]), Some(&[2])).unwrap();
    assert_eq!(walker.collect().unwrap(), vec![p(&[0, 1], &[2]), p(&[0, 1], &[3])]);
    let cursor = walker.into_cursor();
    let mut walker = cursor.walk_dup(Some(&[0, 4]), None).unwrap();
    assert_eq!(walker.collect().unwrap(), vec![p(&[0, 4], &[1]), p(&[0, 4], &[2])]);
    let cursor = walker.into_cursor();
    // The key has no value from this subkey on, and the table goes on.
    let mut walker = cursor.walk_dup(Some(&[0, 1]), Some(&[4])).unwrap();
    assert_eq!(walker.next(), None);
    let cursor = walker.into_cursor();
    assert_eq!(cursor.state, CursorState::End);
    // The table ends where the key would be.
    let mut walker = cursor.walk_dup(Some(&[0, 5]), None).unwrap();
    assert_eq!(walker.next(), None);
    let cursor = walker.into_cursor();
    let mut walker = cursor.walk_dup(Some(&[0, 4]), Some(&[3])).unwrap();
    assert_eq!(walker.next(), None);
}

#[test]
fn walk_dup_missing_start() {
    let mut table = three_keys();
    let missing =
        |key: &[u8]| read_error(DatabaseReadOperation::WalkDup, "MissingStart", "Storage", key);
    assert_eq!(
        Cursor::new(&mut table, true).walk_dup(Some(&[0, 3]), None).err(),
        Some(missing(&[0, 3]))
    );
    assert_eq!(
        Cursor::new(&mut table, true).walk_dup(Some(&[0, 3]), Some(&[0])).err(),
        Some(missing(&[0, 3]))
    );
    assert_eq!(
        Cursor::new(&mut table, true).walk_dup(Some(&[0, 0]), Some(&[0])).err(),
        Some(missing(&[0, 0]))
    );
    assert_eq!(
        Cursor::new(&mut table, true).walk_dup(None, Some(&[0])).err(),
        Some(read_error(DatabaseReadOperation::WalkDup, "Unsupported", "Storage", &[]))
    );
    assert_eq!(
        Cursor::new(&mut table, true).walk_dup(Some(&[0]), None).err(),
        Some(read_error(DatabaseReadOperation::Seek, "InvalidKey", "Storage", &[0]))
    );
    assert_eq!(
        Cursor::new(&mut table, true).walk_dup(Some(&[0, 1]), Some(&[])).err(),
        Some(read_error(DatabaseReadOperation::SeekBySubkey, "InvalidKey", "Storage", &[0, 1]))
    );
}

/// A pair that does not fit the layout of the table is refused.
#[test]
fn writes_of_wrong_width_are_refused() {
    let mut table = dup_table();
    let mut cursor = Cursor::new(&mut table, true);
    assert_eq!(
        cursor.upsert(&[1], &[5, 5]),
        Err(write_error(DatabaseWriteOperation::CursorUpsert, "InvalidKey", "Storage", &[1]))
    );
    assert_eq!(
        cursor.upsert(&[0, 1], &[]),
        Err(write_error(DatabaseWriteOperation::CursorUpsert, "InvalidKey", "Storage", &[0, 1]))
    );
    assert_eq!(
        cursor.insert(&[0, 1, 2], &[5]),
        Err(write_error(DatabaseWriteOperation::CursorInsert, "InvalidKey", "Storage", &[0, 1, 2]))
    );
    assert_eq!(
        cursor.append_dup(&[0, 1], &[]),
        Err(write_error(DatabaseWriteOperation::CursorAppendDup, "InvalidKey", "Storage", &[0, 1]))
    );
    assert_eq!(cursor.state, CursorState::Start);
    assert_eq!(cursor.append(&[0, 1], &[5]), Ok(()));
    assert_eq!(
        cursor.append(&[1], &[5]),
        Err(write_error(DatabaseWriteOperation::CursorUpsert, "InvalidKey", "Storage", &[1]))
    );
}

/// Physical entries enter a table as they are, if the table stays consistent.
#[test]
fn raw_writes_keep_the_table_consistent() {
    let mut table = dup_table();
    let key = |tie: u8| vec![0u8, 1, 5, 0, 0, 0, 0, 0, 0, 0, tie];
    assert_eq!(table.put_raw(&key(4), &[5, 4]), Ok(()));
    assert_eq!(table.put_raw(&key(8), &[5, 8]), Ok(()));
    assert_eq!(table.put_raw(&key(6), &[5, 6]), Ok(()));
    // The value of an entry may change while it stays between its neighbours.
    assert_eq!(table.put_raw(&key(6), &[5, 7]), Ok(()));
    let mismatch = |raw: &[u8]| {
        Err(write_error(DatabaseWriteOperation::Put, "KeyMismatch", "Storage", raw))
    };
    let invalid = |raw: &[u8]| {
        Err(write_error(DatabaseWriteOperation::Put, "InvalidKey", "Storage", raw))
    };
    assert_eq!(table.put_raw(&key(6), &[5, 8]), mismatch(&key(6)));
    assert_eq!(table.put_raw(&key(6), &[5, 4]), mismatch(&key(6)));
    assert_eq!(table.put_raw(&key(5), &[5, 3]), mismatch(&key(5)));
    assert_eq!(table.put_raw(&key(9), &[5, 8]), mismatch(&key(9)));
    assert_eq!(table.put_raw(&key(3), &[5, 4, 0]), mismatch(&key(3)));
    // The key does not carry the subkey of the value.
    assert_eq!(table.put_raw(&key(9), &[6, 9]), invalid(&key(9)));
    assert_eq!(table.put_raw(&key(9)[0..10], &[5, 9]), invalid(&key(9)[0..10]));
    assert_eq!(table.put_raw(&key(9), &[]), invalid(&key(9)));
    let sentinel = [0u8, 1, 5, 255, 255, 255, 255, 255, 255, 255, 255];
    assert_eq!(table.put_raw(&sentinel, &[5, 9]), invalid(&sentinel));
    assert_eq!(
        raw_entries(&table),
        vec![p(&key(4), &[5, 4]), p(&key(6), &[5, 7]), p(&key(8), &[5, 8])]
    );
    // A write through the cursor finds its place among the ties that are there.
    {
        let mut cursor = Cursor::new(&mut table, true);
        cursor.upsert(&[0, 1], &[5, 5]).unwrap();
    }
    assert_eq!(
        raw_entries(&table),
        vec![
            p(&key(4), &[5, 4]),
            p(&key(5), &[5, 5]),
            p(&key(7), &[5, 7]),
            p(&key(9), &[5, 8]),
        ]
    );
    let mut plain = plain_table();
    assert_eq!(plain.put_raw(&[3], &[]), Ok(()));
    assert_eq!(plain.put_raw(&[], &[1]), Ok(()));
    assert_eq!(raw_entries(&plain), vec![p(&[], &[1]), p(&[3], &[])]);
}

/// The last tie-breaker below the sentinel leaves no room above it.
#[test]
fn ties_can_be_used_up() {
    let mut table = dup_table();
    let top = [0u8, 1, 5, 255, 255, 255, 255, 255, 255, 255, 254];
    assert_eq!(table.put_raw(&top, &[5, 5]), Ok(()));
    let before = raw_entries(&table);
    {
        let mut cursor = Cursor::new(&mut table, true);
        let refused =
            write_error(DatabaseWriteOperation::CursorUpsert, "TieExhausted", "Storage", &[0, 1]);
        assert_eq!(cursor.upsert(&[0, 1], &[5, 6]), Err(refused.clone()));
        assert_eq!(cursor.upsert(&[0, 1], &[5, 4]), Err(refused.clone()));
        assert_eq!(cursor.append_dup(&[0, 1], &[5, 6]), Err(refused));
        assert_eq!(cursor.state, CursorState::Start);
        // The pair that is there and pairs of other subkeys are not concerned.
        assert_eq!(cursor.upsert(&[0, 1], &[5, 5]), Ok(()));
        assert_eq!(cursor.upsert(&[0, 1], &[6]), Ok(()));
    }
    assert_eq!(table.len(), 2);
    assert_eq!(raw_entries(&table)[0], before[0]);
}

/// The cursor knows the physical key of its position.
#[test]
fn position_key_is_the_physical_key() {
    let mut table = three_keys();
    let mut cursor = Cursor::new(&mut table, true);
    assert_eq!(cursor.position_key(), None);
    cursor.seek_by_key_subkey(&[0, 1], &[2]).unwrap();
    assert_eq!(cursor.position_key(), Some(vec![0, 1, 2, 0, 0, 0, 0, 0, 0, 0, 0]));
    cursor.last().unwrap();
    assert_eq!(cursor.position_key(), Some(vec![0, 4, 2, 0, 0, 0, 0, 0, 0, 0, 0]));
    cursor.next().unwrap();
    assert_eq!(cursor.position_key(), None);
}
