use rembackup::indexfile::IndexFile;
use rembackup::repr_file::{load_lines, save_lines, KeyValues, LoadError, ReprFile};

fn rec(size: u64, last_modified: Option<u64>) -> IndexFile {
    IndexFile { size, last_modified }
}

#[test]
fn save_without_timestamp() {
    assert_eq!(rec(10, None).save(), b"Len=10\n".to_vec());
}

#[test]
fn save_with_timestamp() {
    assert_eq!(rec(10, Some(12345)).save(), b"Len=10\nAge=12345\n".to_vec());
}

#[test]
fn round_trip_plain() {
    let r = rec(10, None);
    assert_eq!(IndexFile::load(&r.save()), Ok(r));
}

#[test]
fn round_trip_with_timestamp() {
    let r = rec(98765432100, Some(1700000000));
    assert_eq!(IndexFile::load(&r.save()), Ok(r));
}

#[test]
fn round_trip_extremes() {
    for r in [
        rec(0, None),
        rec(0, Some(0)),
        rec(u64::MAX, Some(u64::MAX)),
        rec(1, Some(9)),
    ] {
        assert_eq!(IndexFile::load(&r.save()), Ok(r));
    }
}

#[test]
fn load_missing_len_is_an_error() {
    assert_eq!(
        IndexFile::load(&b"Age=5\n".to_vec()),
        Err(LoadError::MissingLen)
    );
    assert_eq!(IndexFile::load(&b"".to_vec()), Err(LoadError::MissingLen));
}

#[test]
fn load_unparsable_len_is_an_error() {
    assert_eq!(
        IndexFile::load(&b"Len=abc\n".to_vec()),
        Err(LoadError::MissingLen)
    );
    // one past the largest size
    assert_eq!(
        IndexFile::load(&b"Len=18446744073709551616\n".to_vec()),
        Err(LoadError::MissingLen)
    );
}

#[test]
fn load_line_without_equals_is_an_error() {
    assert_eq!(
        IndexFile::load(&b"Len=1\nbroken\n".to_vec()),
        Err(LoadError::LineWithoutEquals)
    );
}

#[test]
fn load_unparsable_age_is_dropped() {
    assert_eq!(
        IndexFile::load(&b"Len=7\nAge=later\n".to_vec()),
        Ok(rec(7, None))
    );
}

#[test]
fn load_later_key_overrides() {
    assert_eq!(
        IndexFile::load(&b"Len=1\nLen=2\n".to_vec()),
        Ok(rec(2, None))
    );
}

#[test]
fn load_accepts_plus_sign_and_crlf() {
    // the standard unsigned parse accepts one leading plus sign
    assert_eq!(IndexFile::load(&b"Len=+5\n".to_vec()), Ok(rec(5, None)));
    assert_eq!(
        IndexFile::load(&b"Len=5\r\nAge=6\r\n".to_vec()),
        Ok(rec(5, Some(6)))
    );
}

#[test]
fn load_ignores_unknown_keys_and_empty_lines() {
    assert_eq!(
        IndexFile::load(&b"Other=x\n\nLen=3\n".to_vec()),
        Ok(rec(3, None))
    );
}

#[test]
fn key_values_get_takes_latest() {
    let kv = KeyValues::load_kv(&b"a=1\nb=2\na=3\n".to_vec()).unwrap();
    assert_eq!(kv.get(&b"a".to_vec()), Some(&b"3".to_vec()));
    assert_eq!(kv.get(&b"b".to_vec()), Some(&b"2".to_vec()));
    assert_eq!(kv.get(&b"c".to_vec()), None);
}

#[test]
fn key_values_save_writes_pairs() {
    let kv = KeyValues::load_kv(&b"a=1\nb=2\n".to_vec()).unwrap();
    assert_eq!(ReprFile::save(&kv), b"a=1\nb=2\n".to_vec());
}

#[test]
fn lines_save_concatenates_and_load_splits() {
    let lines: Vec<Vec<u8>> = vec![b"ab".to_vec(), b"cd".to_vec()];
    assert_eq!(save_lines(&lines), b"abcd".to_vec());
    assert_eq!(
        load_lines(&b"ab\ncd".to_vec()),
        vec![b"ab".to_vec(), b"cd".to_vec()]
    );
    // a trailing line feed adds no empty line; a carriage return before a
    // line feed is dropped
    assert_eq!(
        load_lines(&b"ab\r\ncd\n".to_vec()),
        vec![b"ab".to_vec(), b"cd".to_vec()]
    );
}
