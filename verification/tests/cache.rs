use redb::backends::InMemoryBackend;
use redb::{Database, ReadableTable, TableDefinition};
use tidyrs::cache::{decode_key_path, encode_key, sweep, Key};
use tidyrs::paths::FilePath;

const TABLE: TableDefinition<&[u8], [u8; 32]> = TableDefinition::new("hashes");

struct Cache {
    db: Database,
}

fn fresh() -> Cache {
    let db = Database::builder().create_with_backend(InMemoryBackend::new()).unwrap();
    let wtx = db.begin_write().unwrap();
    {
        let _ = wtx.open_table(TABLE).unwrap();
    }
    wtx.commit().unwrap();
    Cache { db }
}

impl Cache {
    fn get(&self, key: Key) -> Option<[u8; 32]> {
        let rtx = self.db.begin_read().unwrap();
        let table = rtx.open_table(TABLE).unwrap();
        let found = table.get(encode_key(&key).as_slice()).unwrap().map(|v| v.value());
        found
    }

    fn put(&self, key: Key, hash: [u8; 32]) {
        let wtx = self.db.begin_write().unwrap();
        {
            let mut table = wtx.open_table(TABLE).unwrap();
            table.insert(encode_key(&key).as_slice(), hash).unwrap();
        }
        wtx.commit().unwrap();
    }

    fn sweep(&self, is_there: fn(&FilePath) -> bool) -> usize {
        let mut keys: Vec<Vec<u8>> = Vec::new();
        {
            let rtx = self.db.begin_read().unwrap();
            let table = rtx.open_table(TABLE).unwrap();
            for row in table.iter().unwrap() {
                let (k, _) = row.unwrap();
                keys.push(k.value().to_vec());
            }
        }
        let present: Vec<bool> = keys.iter().map(|k| is_there(&decode_key_path(k))).collect();
        let gone = sweep(&present);
        let wtx = self.db.begin_write().unwrap();
        {
            let mut table = wtx.open_table(TABLE).unwrap();
            for i in &gone {
                table.remove(keys[*i].as_slice()).unwrap();
            }
        }
        wtx.commit().unwrap();
        gone.len()
    }
}

#[test]
fn miss_then_hit() {
    let c = fresh();
    let p = FilePath::new("/tmp/example.txt");
    let k = Key { path: &p, size: 100, mtime: 42 };
    assert!(c.get(k).is_none());
    let h = [7u8; 32];
    c.put(k, h);
    assert_eq!(c.get(k), Some(h));
}

#[test]
fn size_change_invalidates() {
    let c = fresh();
    let p = FilePath::new("/tmp/example.txt");
    c.put(Key { path: &p, size: 100, mtime: 42 }, [1u8; 32]);
    let miss = c.get(Key { path: &p, size: 200, mtime: 42 });
    assert!(miss.is_none());
}

#[test]
fn mtime_change_invalidates() {
    let c = fresh();
    let p = FilePath::new("/tmp/example.txt");
    c.put(Key { path: &p, size: 100, mtime: 42 }, [1u8; 32]);
    let miss = c.get(Key { path: &p, size: 100, mtime: 99 });
    assert!(miss.is_none());
}

#[test]
fn put_overwrites() {
    let c = fresh();
    let p = FilePath::new("/tmp/example.txt");
    let k = Key { path: &p, size: 100, mtime: 42 };
    c.put(k, [1u8; 32]);
    c.put(k, [2u8; 32]);
    assert_eq!(c.get(k), Some([2u8; 32]));
}

#[test]
fn sweep_removes_missing_paths() {
    let cache = fresh();
    let real = FilePath::new("/d/real.txt");
    let gone = FilePath::new("/d/gone.txt");

    cache.put(Key { path: &real, size: 2, mtime: 0 }, [1u8; 32]);
    cache.put(Key { path: &gone, size: 2, mtime: 0 }, [2u8; 32]);

    let removed = cache.sweep(|p| *p == FilePath::new("/d/real.txt"));
    assert_eq!(removed, 1);
    assert!(cache.get(Key { path: &real, size: 2, mtime: 0 }).is_some());
    assert!(cache.get(Key { path: &gone, size: 2, mtime: 0 }).is_none());
}

#[test]
fn keys_are_laid_out_in_little_endian() {
    let p = FilePath::new("/ab");
    let key = encode_key(&Key { path: &p, size: 0x0102, mtime: -2 });
    let mut expected: Vec<u8> = vec![3, 0];
    expected.extend_from_slice(b"/ab");
    expected.extend_from_slice(&0x0102u64.to_le_bytes());
    expected.extend_from_slice(&(-2i64).to_le_bytes());
    assert_eq!(key, expected);
    assert_eq!(decode_key_path(&key).bytes, b"/ab".to_vec());
    let least = encode_key(&Key { path: &p, size: u64::MAX, mtime: i64::MIN });
    assert_eq!(least[5..13].to_vec(), vec![255u8; 8]);
    assert_eq!(least[13..21].to_vec(), i64::MIN.to_le_bytes().to_vec());
}

#[test]
fn paths_of_any_bytes_come_back() {
    let p = FilePath::from_bytes(b"/x\xff\x00/y");
    let key = encode_key(&Key { path: &p, size: 1, mtime: 1 });
    assert_eq!(decode_key_path(&key).bytes, b"/x\xff\x00/y".to_vec());
}

#[test]
fn nothing_is_swept_where_all_is_there() {
    assert!(sweep(&vec![true, true]).is_empty());
    assert_eq!(sweep(&vec![false, true, false]), vec![0, 2]);
}
