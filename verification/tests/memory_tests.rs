use std::collections::BTreeMap;

use mem_core::memory::ScannedEntry;
use mem_core::{MemoryKey, MemoryRow, MemoryStore};

/// A stand-in for the memory table: rows in key order, as the storage engine
/// keeps them.
struct Table {
    rows: BTreeMap<(u64, u64), MemoryRow>,
    ids: MemoryStore,
}

impl Table {
    fn open_empty() -> Table {
        Table { rows: BTreeMap::new(), ids: MemoryStore::open(&Vec::new()) }
    }

    fn reopen(rows: BTreeMap<(u64, u64), MemoryRow>) -> Table {
        let keys: Vec<MemoryKey> =
            rows.keys().map(|&(user_id, id)| MemoryKey { user_id, id }).collect();
        Table { ids: MemoryStore::open(&keys), rows }
    }

    fn store(&mut self, user_id: u64, text: &str, created_at: u64) -> u64 {
        let (key, row) = self.ids.store(user_id, text, created_at);
        self.rows.insert((key.user_id, key.id), row);
        key.id
    }

    /// The user-prefixed scan: every key of the user, rebuilt from the
    /// suffix that follows the user's prefix, with its row.
    fn scan(&self, user_id: u64) -> Vec<ScannedEntry> {
        let (prefix, header_len) = MemoryStore::user_prefix(user_id);
        assert_eq!(header_len, 3);
        self.rows
            .range((user_id, 0)..=(user_id, u64::MAX))
            .map(|(&(_, id), row)| {
                let suffix = id.to_be_bytes();
                let key = MemoryStore::key_from_scan(&prefix, &suffix);
                (key, self.rows.get(&(key.user_id, key.id)).cloned())
            })
            .collect()
    }

    fn search(&self, user_id: u64, query: &str) -> Vec<(u64, String)> {
        MemoryStore::search(query, &self.scan(user_id))
    }

    fn all_keys(&self) -> Vec<MemoryKey> {
        self.rows.keys().map(|&(user_id, id)| MemoryKey { user_id, id }).collect()
    }
}

#[test]
fn store_and_search_roundtrip() {
    let mut mem = Table::open_empty();

    let id1 = mem.store(101, "krystallizer uses Fjall for storage", 1_000);
    let _id2 = mem.store(101, "unrelated note about rust macros", 1_001);
    let _id3 = mem.store(202, "krystallizer note from another user", 1_002);

    let hits = mem.search(101, "Fjall");
    assert_eq!(hits.len(), 1, "user-scoped: other users' rows excluded");
    assert_eq!(hits[0].0, id1);
    assert!(hits[0].1.contains("Fjall"));

    assert!(mem.search(101, "krystallizer").len() == 1);
    assert!(mem.search(202, "nonexistent").is_empty());
    assert!(mem.search(303, "krystallizer").is_empty());
    assert!(mem.search(101, "").is_empty());
}

#[test]
fn reopens_from_disk() {
    let rows = {
        let mut mem = Table::open_empty();
        mem.store(7, "persisted across reopen", 42);
        mem.rows
    };
    let mem = Table::reopen(rows);
    assert_eq!(mem.search(7, "persisted").len(), 1);
}

#[test]
fn key_layout_hex_stability() {
    let key = MemoryKey {
        user_id: 0x0102_0304_0506_0708,
        id: 0x1122_3344_5566_7788,
    };
    let hex: String = key.encode().iter().map(|b| format!("{b:02x}")).collect();
    // Payload only (ns header excluded): [user_id 8B be][id 8B be].
    assert_eq!(hex, "01020304050607081122334455667788");
}

#[test]
fn key_decode_inverts_encode() {
    let key = MemoryKey { user_id: 0xdead_beef_0000_0001, id: 42 };
    let bytes = key.encode();
    assert_eq!(bytes.len(), 16);
    assert_eq!(MemoryKey::decode(&bytes), key);
    let raw: Vec<u8> = (0u8..16).collect();
    assert_eq!(MemoryKey::decode(&raw).encode(), raw);
}

#[test]
fn key_bytes_sort_in_user_then_id_order() {
    let keys = [
        MemoryKey { user_id: 1, id: 300 },
        MemoryKey { user_id: 1, id: 2 },
        MemoryKey { user_id: 0, id: u64::MAX },
        MemoryKey { user_id: 256, id: 0 },
        MemoryKey { user_id: 2, id: 1 },
    ];
    let mut by_bytes: Vec<Vec<u8>> = keys.iter().map(|k| k.encode()).collect();
    by_bytes.sort();
    let decoded: Vec<(u64, u64)> =
        by_bytes.iter().map(|b| MemoryKey::decode(b)).map(|k| (k.user_id, k.id)).collect();
    assert_eq!(decoded, vec![(0, u64::MAX), (1, 2), (1, 300), (2, 1), (256, 0)]);
}

#[test]
fn user_prefix_layout() {
    let (prefix, header_len) = MemoryStore::user_prefix(0x0102_0304_0506_0708);
    assert_eq!(prefix, vec![0x00, 0x20, 0x00, 1, 2, 3, 4, 5, 6, 7, 8]);
    assert_eq!(header_len, 3);
    assert_eq!(&prefix[header_len..], &0x0102_0304_0506_0708u64.to_be_bytes());
}

#[test]
fn key_from_scan_rebuilds_the_key() {
    let (prefix, _) = MemoryStore::user_prefix(9);
    let key = MemoryStore::key_from_scan(&prefix, &[0, 0, 0, 0, 0, 0, 1, 2]);
    assert_eq!(key, MemoryKey { user_id: 9, id: 258 });
}

#[test]
fn open_recovers_past_the_largest_id() {
    assert_eq!(MemoryStore::open(&Vec::new()).next_id(), 1);
    // The largest id need not be in the last key of the table.
    let keys = vec![
        MemoryKey { user_id: 1, id: 2 },
        MemoryKey { user_id: 2, id: 1 },
    ];
    assert_eq!(MemoryStore::open(&keys).next_id(), 3);
    let keys = vec![MemoryKey { user_id: 5, id: u64::MAX }];
    assert_eq!(MemoryStore::open(&keys).next_id(), u64::MAX);
}

#[test]
fn store_assigns_increasing_ids() {
    let mut ids = MemoryStore::open(&vec![MemoryKey { user_id: 3, id: 10 }]);
    let (k1, r1) = ids.store(3, "first", 5);
    let (k2, _) = ids.store(4, "second", 6);
    assert_eq!(k1, MemoryKey { user_id: 3, id: 11 });
    assert_eq!(r1, MemoryRow { text: "first".to_string(), created_at: 5 });
    assert_eq!(k2, MemoryKey { user_id: 4, id: 12 });
    assert_eq!(ids.next_id(), 13);
}

#[test]
fn list_and_search_skip_missing_rows() {
    let row = |t: &str| Some(MemoryRow { text: t.to_string(), created_at: 0 });
    let scanned: Vec<ScannedEntry> = vec![
        (MemoryKey { user_id: 1, id: 1 }, row("alpha beta")),
        (MemoryKey { user_id: 1, id: 2 }, None),
        (MemoryKey { user_id: 1, id: 3 }, row("gamma")),
        (MemoryKey { user_id: 1, id: 4 }, row("beta gamma")),
    ];
    assert_eq!(
        MemoryStore::list(&scanned),
        vec![(1, "alpha beta".to_string()), (3, "gamma".to_string()), (4, "beta gamma".to_string())]
    );
    assert_eq!(
        MemoryStore::search("beta", &scanned),
        vec![(1, "alpha beta".to_string()), (4, "beta gamma".to_string())]
    );
    assert_eq!(MemoryStore::search("delta", &scanned), vec![]);
    assert_eq!(MemoryStore::search("", &scanned), vec![]);
    // Substring match over characters, case-sensitive.
    assert_eq!(MemoryStore::search("ta ga", &scanned), vec![(4, "beta gamma".to_string())]);
    assert_eq!(MemoryStore::search("Beta", &scanned), vec![]);
    // A longer query keeps only part of a shorter query's hits, in order.
    assert_eq!(MemoryStore::search("beta g", &scanned), vec![(4, "beta gamma".to_string())]);
}

#[test]
fn search_matches_non_ascii_text() {
    let scanned: Vec<ScannedEntry> = vec![(
        MemoryKey { user_id: 1, id: 1 },
        Some(MemoryRow { text: "记忆核心 memory".to_string(), created_at: 0 }),
    )];
    assert_eq!(MemoryStore::search("核心", &scanned).len(), 1);
    assert_eq!(MemoryStore::search("核忆", &scanned).len(), 0);
}

#[test]
fn stats_counts_per_user_and_total() {
    let mut mem = Table::open_empty();
    mem.store(1, "a", 0);
    mem.store(2, "b", 0);
    mem.store(1, "c", 0);
    let stats = MemoryStore::stats(&mem.all_keys());
    assert_eq!(stats.total, 3);
    assert_eq!(stats.per_user.len(), 2);
    assert_eq!(stats.per_user.get(&1), Some(&2));
    assert_eq!(stats.per_user.get(&2), Some(&1));
    assert_eq!(stats.per_user.values().sum::<u64>(), stats.total);
    let empty = MemoryStore::stats(&Vec::new());
    assert_eq!(empty, mem_core::MemoryStats::default());
    assert_eq!(empty.total, 0);
}

#[test]
fn stored_ids_never_collide_after_reopen() {
    let mut mem = Table::open_empty();
    mem.store(2, "first", 0);
    mem.store(1, "second", 0);
    let mut mem = Table::reopen(mem.rows);
    let id = mem.store(1, "third", 0);
    assert_eq!(id, 3);
    assert_eq!(mem.rows.len(), 3);
    assert_eq!(mem.search(1, "second").len(), 1);
}

#[test]
fn store_then_list_appends_for_that_user_only() {
    let mut mem = Table::open_empty();
    mem.store(1, "one", 0);
    mem.store(2, "two", 0);
    let before_1 = MemoryStore::list(&mem.scan(1));
    let before_2 = MemoryStore::list(&mem.scan(2));
    let id = mem.store(1, "three", 0);
    let mut expected = before_1.clone();
    expected.push((id, "three".to_string()));
    assert_eq!(MemoryStore::list(&mem.scan(1)), expected);
    assert_eq!(MemoryStore::list(&mem.scan(2)), before_2);
}

#[test]
fn stats_agree_with_list_lengths() {
    let mut mem = Table::open_empty();
    mem.store(1, "a", 0);
    mem.store(2, "b", 0);
    mem.store(1, "c", 0);
    mem.store(3, "d", 0);
    let stats = MemoryStore::stats(&mem.all_keys());
    let mut sum = 0u64;
    for (&u, &n) in stats.per_user.iter() {
        let len = MemoryStore::list(&mem.scan(u)).len() as u64;
        assert_eq!(n, len);
        sum += len;
    }
    assert_eq!(sum, stats.total);
}
