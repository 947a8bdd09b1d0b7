//! Flat memory table (ns 32): one row per stored memory, keyed by
//! `[user_id 8B BE][id 8B BE]` behind the table header `[ns 2B][slot 1B]`.

use vstd::prelude::*;
use std::collections::HashMap;
use crate::codec::{
    lemma_be_u64_roundtrip, lemma_lex_concat, lemma_u64_be_order, lemma_u64_be_roundtrip,
    lex_lt, push_u64_be, read_u64_be, u64_be, u64_from_be,
};

verus! {

/// Namespace of the flat memory table.
pub const MEMORY_NS: u16 = 32;

/// Slot byte of the table's primary entries.
pub const PRIMARY_SLOT: u8 = 0;

/// Length of the table header `[ns 2B][slot 1B]` in front of every key.
pub const KEY_HEADER_LEN: usize = 3;

/// Length of an encoded key payload `[user_id 8B][id 8B]`.
pub const KEY_LEN: usize = 16;

/// Length of a user scan prefix `[ns 2B][slot 1B][user_id 8B]`.
pub const USER_PREFIX_LEN: usize = 11;

/// The table header: the namespace big-endian, then the primary slot.
pub open spec fn table_header() -> Seq<u8> {
    seq![(MEMORY_NS >> 8u16) as u8, MEMORY_NS as u8, PRIMARY_SLOT]
}

/// The bytes of a user's scan prefix: the table header, then the user id.
pub open spec fn user_scan_prefix(user_id: u64) -> Seq<u8> {
    table_header() + u64_be(user_id)
}

/// Flat memory identity: user-scoped surrogate id.
#[derive(Clone, Copy, PartialEq, Eq, Structural, Debug, Default)]
pub struct MemoryKey {
    pub user_id: u64,
    pub id: u64,
}

impl MemoryKey {
    /// The key payload: user id, then id, both big-endian.
    pub open spec fn encoded(self) -> Seq<u8> {
        u64_be(self.user_id) + u64_be(self.id)
    }

    /// The key read from a 16-byte payload.
    pub open spec fn decoded(bytes: Seq<u8>) -> MemoryKey {
        MemoryKey {
            user_id: u64_from_be(bytes.subrange(0, 8)),
            id: u64_from_be(bytes.subrange(8, 16)),
        }
    }

    /// The full key the table stores: header, then payload.
    pub open spec fn table_key(self) -> Seq<u8> {
        table_header() + self.encoded()
    }

    /// Encodes the key payload (the table header is not part of it).
    pub fn encode(&self) -> (r: Vec<u8>)
        ensures
            r@ == self.encoded(),
            r@.len() == KEY_LEN,
    {
        let mut out: Vec<u8> = Vec::with_capacity(KEY_LEN);
        push_u64_be(&mut out, self.user_id);
        push_u64_be(&mut out, self.id);
        assert(out@ =~= self.encoded());
        out
    }

    /// Decodes a key payload.
    pub fn decode(bytes: &[u8]) -> (r: MemoryKey)
        requires
            bytes@.len() == KEY_LEN,
        ensures
            r == MemoryKey::decoded(bytes@),
    {
        MemoryKey { user_id: read_u64_be(bytes, 0), id: read_u64_be(bytes, 8) }
    }
}


impl MemoryKey {
    /// `self` comes before `other` in (user id, id) order.
    pub open spec fn sorts_before(self, other: MemoryKey) -> bool {
        ||| self.user_id < other.user_id
        ||| (self.user_id == other.user_id && self.id < other.id)
    }
}

/// Decoding an encoded key gives the key back.
pub proof fn lemma_key_roundtrip(k: MemoryKey)
    ensures
        MemoryKey::decoded(k.encoded()) == k,
        k.encoded().len() == KEY_LEN,
{
    lemma_u64_be_roundtrip(k.user_id);
    lemma_u64_be_roundtrip(k.id);
    assert(k.encoded().subrange(0, 8) =~= u64_be(k.user_id));
    assert(k.encoded().subrange(8, 16) =~= u64_be(k.id));
}

/// Every 16-byte payload is the encoding of the key decoded from it, so the
/// layout is a one-to-one correspondence between keys and payloads.
pub proof fn lemma_payload_roundtrip(bytes: Seq<u8>)
    requires
        bytes.len() == KEY_LEN,
    ensures
        MemoryKey::decoded(bytes).encoded() == bytes,
{
    lemma_be_u64_roundtrip(bytes.subrange(0, 8));
    lemma_be_u64_roundtrip(bytes.subrange(8, 16));
    assert(MemoryKey::decoded(bytes).encoded() =~= bytes);
}

/// The table keeps keys in (user id, id) order: the byte order of two table
/// keys is the order of their user ids, then of their ids.
pub proof fn lemma_key_order(k1: MemoryKey, k2: MemoryKey)
    ensures
        lex_lt(k1.table_key(), k2.table_key()) <==> k1.sorts_before(k2),
{
    lemma_lex_concat(u64_be(k1.user_id), u64_be(k1.id), u64_be(k2.user_id), u64_be(k2.id));
    lemma_u64_be_order(k1.user_id, k2.user_id);
    lemma_u64_be_order(k1.id, k2.id);
    lemma_u64_be_roundtrip(k1.user_id);
    lemma_u64_be_roundtrip(k2.user_id);
    lemma_lex_concat(table_header(), k1.encoded(), table_header(), k2.encoded());
    assert(!lex_lt(table_header(), table_header()));
}

/// A user's scan prefix selects exactly that user's keys, and what follows
/// the prefix in such a key is the id, big-endian.
pub proof fn lemma_user_prefix_scope(k: MemoryKey, user_id: u64)
    ensures
        user_scan_prefix(user_id).is_prefix_of(k.table_key()) <==> k.user_id == user_id,
        k.user_id == user_id ==> k.table_key() == user_scan_prefix(user_id) + u64_be(k.id),
{
    let p = user_scan_prefix(user_id);
    let t = k.table_key();
    assert(t =~= user_scan_prefix(k.user_id) + u64_be(k.id));
    if p.is_prefix_of(t) {
        assert(u64_be(user_id) =~= p.subrange(3, 11));
        assert(u64_be(k.user_id) =~= t.subrange(3, 11));
        lemma_u64_be_roundtrip(user_id);
        lemma_u64_be_roundtrip(k.user_id);
    }
    if k.user_id == user_id {
        assert(t.subrange(0, p.len() as int) =~= p);
    }
}

/// A user's scan hands back, after the user's prefix, the id bytes of each
/// key; rebuilding the key from the prefix and that suffix gives the key.
pub proof fn lemma_scan_rebuilds_key(k: MemoryKey)
    ensures
        MemoryKey::decoded(
            (user_scan_prefix(k.user_id) + u64_be(k.id)).subrange(
                KEY_HEADER_LEN as int,
                USER_PREFIX_LEN + 8,
            ),
        ) == k,
{
    assert((user_scan_prefix(k.user_id) + u64_be(k.id)).subrange(3, 19) =~= k.encoded());
    lemma_key_roundtrip(k);
}

/// Flat memory row: free text plus a monotonic insert counter.
#[derive(Clone, PartialEq, Debug)]
pub struct MemoryRow {
    pub text: String,
    pub created_at: u64,
}

/// Per-user counts plus the table-wide total.
#[derive(Debug, Clone, PartialEq)]
pub struct MemoryStats {
    pub total: u64,
    pub per_user: HashMap<u64, u64>,
}

impl Default for MemoryStats {
    fn default() -> (r: MemoryStats)
        ensures
            r.total == 0,
            r.per_user@ == Map::<u64, u64>::empty(),
    {
        MemoryStats { total: 0, per_user: HashMap::new() }
    }
}

/// One entry of a user's scan, in key order: the key reconstructed from the
/// scanned suffix, and the row read back for it (`None` when the table had
/// no row for that key any more).
pub type ScannedEntry = (MemoryKey, Option<MemoryRow>);

/// `(id, text)` pairs as plain values.
pub open spec fn entries_view(entries: Seq<(u64, String)>) -> Seq<(u64, Seq<char>)> {
    entries.map_values(|e: (u64, String)| (e.0, e.1@))
}

/// `text` holds `pattern` as a contiguous run of characters.
pub open spec fn has_substring(text: Seq<char>, pattern: Seq<char>) -> bool {
    exists|i: int|
        0 <= i && i + pattern.len() <= text.len() && #[trigger] text.subrange(
            i,
            i + pattern.len(),
        ) == pattern
}

/// A user's memories in scan order: the id and text of every scanned key
/// whose row was found.
pub open spec fn listed(scanned: Seq<ScannedEntry>) -> Seq<(u64, Seq<char>)>
    decreases scanned.len(),
{
    if scanned.len() == 0 {
        Seq::empty()
    } else {
        let rest = listed(scanned.drop_last());
        match scanned.last().1 {
            Some(row) => rest.push((scanned.last().0.id, row.text@)),
            None => rest,
        }
    }
}

/// The search result: nothing for an empty query, otherwise the listed
/// memories whose text contains the query, in scan order.
pub open spec fn search_hits(query: Seq<char>, scanned: Seq<ScannedEntry>) -> Seq<(u64, Seq<char>)> {
    if query.len() == 0 {
        Seq::empty()
    } else {
        listed(scanned).filter(|e: (u64, Seq<char>)| has_substring(e.1, query))
    }
}

/// The largest id among `keys`, 0 when there is none.
pub open spec fn max_id(keys: Seq<MemoryKey>) -> u64
    decreases keys.len(),
{
    if keys.len() == 0 {
        0
    } else {
        let rest = max_id(keys.drop_last());
        if keys.last().id > rest {
            keys.last().id
        } else {
            rest
        }
    }
}

/// The id counter recovered from the stored keys: one past the largest
/// stored id (saturating), 1 for an empty table.
pub open spec fn recovered_next_id(keys: Seq<MemoryKey>) -> u64 {
    if max_id(keys) == u64::MAX {
        u64::MAX
    } else {
        (max_id(keys) + 1) as u64
    }
}

/// Number of keys that belong to `user_id`.
pub open spec fn user_count(keys: Seq<MemoryKey>, user_id: u64) -> nat {
    keys.filter(|k: MemoryKey| k.user_id == user_id).len()
}

/// Every id in `keys` is below `next_id`.
pub open spec fn ids_below(keys: Seq<MemoryKey>, next_id: u64) -> bool {
    forall|i: int| 0 <= i < keys.len() ==> #[trigger] keys[i].id < next_id
}

proof fn lemma_max_id_bounds(keys: Seq<MemoryKey>)
    ensures
        forall|i: int| 0 <= i < keys.len() ==> #[trigger] keys[i].id <= max_id(keys),
    decreases keys.len(),
{
    if keys.len() > 0 {
        lemma_max_id_bounds(keys.drop_last());
        assert forall|i: int| 0 <= i < keys.len() implies #[trigger] keys[i].id <= max_id(keys) by {
            if i < keys.len() - 1 {
                assert(keys.drop_last()[i] == keys[i]);
            }
        }
    }
}

/// Calls std's `str::contains` with a `&str` pattern. Trusted to return
/// whether the characters of `pattern` occur contiguously in `text`: std
/// documents that it returns true when the pattern matches a sub-slice, and a
/// byte-wise match of UTF-8 text is a match of whole characters.
#[verifier::external_body]
fn text_contains(text: &str, pattern: &str) -> (r: bool)
    ensures
        r == has_substring(text@, pattern@),
{
    text.contains(pattern)
}

/// Identity allocation for the flat memory table. The table itself is held
/// by the caller, who scans it and hands the keys and rows to the functions
/// here, and writes the rows they return.
pub struct MemoryStore {
    next_id: u64,
}

impl MemoryStore {
    /// The id the next stored memory gets.
    pub closed spec fn spec_next_id(&self) -> u64 {
        self.next_id
    }

    /// The id the next stored memory gets.
    #[verifier::when_used_as_spec(spec_next_id)]
    pub fn next_id(&self) -> (r: u64)
        ensures
            r == self.spec_next_id(),
    {
        self.next_id
    }

    /// Recovers the id counter from the keys already in the table, so that a
    /// fresh process does not hand out an id that a stored row has: the
    /// counter continues past the largest stored id, or starts at 1.
    pub fn open(stored: &Vec<MemoryKey>) -> (r: MemoryStore)
        ensures
            r.spec_next_id() == recovered_next_id(stored@),
            r.spec_next_id() >= 1,
            max_id(stored@) < u64::MAX ==> ids_below(stored@, r.spec_next_id()),
            stored@.len() == 0 ==> r.spec_next_id() == 1,
            stored@.len() > 0 ==> exists|i: int|
                0 <= i < stored@.len() && (forall|j: int|
                    0 <= j < stored@.len() ==> #[trigger] stored@[j].id <= stored@[i].id)
                    && r.spec_next_id() == (if stored@[i].id == u64::MAX {
                    u64::MAX
                } else {
                    (stored@[i].id + 1) as u64
                }),
    {
        let mut max: u64 = 0;
        let mut i: usize = 0;
        while i < stored.len()
            invariant
                i <= stored.len(),
                max == max_id(stored@.take(i as int)),
            decreases stored.len() - i,
        {
            assert(stored@.take(i + 1).drop_last() =~= stored@.take(i as int));
            if stored[i].id > max {
                max = stored[i].id;
            }
            i += 1;
        }
        assert(stored@.take(i as int) =~= stored@);
        proof {
            lemma_max_id_bounds(stored@);
            lemma_recovered_counter(stored@);
        }
        MemoryStore { next_id: max.saturating_add(1) }
    }

    /// Stores one memory for `user_id`: takes the next id and returns the
    /// key and row the caller writes to the table. The returned key's id is
    /// the assigned id.
    pub fn store(&mut self, user_id: u64, text: &str, created_at: u64) -> (r: (MemoryKey, MemoryRow))
        requires
            old(self).spec_next_id() < u64::MAX,
        ensures
            r.0 == (MemoryKey { user_id, id: old(self).spec_next_id() }),
            r.1.text@ == text@,
            r.1.created_at == created_at,
            final(self).spec_next_id() == old(self).spec_next_id() + 1,
    {
        let id = self.next_id;
        self.next_id = self.next_id + 1;
        let key = MemoryKey { user_id, id };
        let row = MemoryRow { text: text.to_owned(), created_at };
        (key, row)
    }

    /// Scan prefix for one user's primary entries: `[ns 2B][slot 0][user_id 8B]`.
    /// Returns the prefix bytes and the header length (3): the key payload
    /// starts right after it, so a scanned suffix appended to the prefix
    /// decodes from `[3..]`.
    pub fn user_prefix(user_id: u64) -> (r: (Vec<u8>, usize))
        ensures
            r.0@ == user_scan_prefix(user_id),
            r.1 == KEY_HEADER_LEN,
    {
        let mut prefix: Vec<u8> = Vec::with_capacity(USER_PREFIX_LEN);
        prefix.push((MEMORY_NS >> 8u16) as u8);
        prefix.push(MEMORY_NS as u8);
        prefix.push(PRIMARY_SLOT);
        push_u64_be(&mut prefix, user_id);
        assert(prefix@ =~= user_scan_prefix(user_id));
        (prefix, KEY_HEADER_LEN)
    }

    /// Rebuilds the key of a scanned entry: the scan prefix followed by the
    /// suffix the scan returned is a full table key, whose payload starts
    /// after the header.
    pub fn key_from_scan(prefix: &Vec<u8>, suffix: &[u8]) -> (r: MemoryKey)
        requires
            prefix@.len() == USER_PREFIX_LEN,
            suffix@.len() == 8,
        ensures
            r == MemoryKey::decoded((prefix@ + suffix@).subrange(KEY_HEADER_LEN as int, USER_PREFIX_LEN + 8)),
    {
        let mut full: Vec<u8> = Vec::with_capacity(USER_PREFIX_LEN + 8);
        let mut i: usize = 0;
        while i < prefix.len()
            invariant
                i <= prefix@.len(),
                full@ == prefix@.take(i as int),
            decreases prefix@.len() - i,
        {
            full.push(prefix[i]);
            i += 1;
            assert(full@ =~= prefix@.take(i as int));
        }
        let mut j: usize = 0;
        while j < suffix.len()
            invariant
                prefix@.len() == USER_PREFIX_LEN,
                j <= suffix@.len(),
                full@ == prefix@ + suffix@.take(j as int),
            decreases suffix@.len() - j,
        {
            full.push(suffix[j]);
            j += 1;
            assert(full@ =~= prefix@ + suffix@.take(j as int));
        }
        assert(suffix@.take(j as int) =~= suffix@);
        let ghost payload = full@.subrange(KEY_HEADER_LEN as int, USER_PREFIX_LEN + 8);
        let user_id = read_u64_be(full.as_slice(), KEY_HEADER_LEN);
        let id = read_u64_be(full.as_slice(), KEY_HEADER_LEN + 8);
        assert(full@.subrange(3, 11) =~= payload.subrange(0, 8));
        assert(full@.subrange(11, 19) =~= payload.subrange(8, 16));
        MemoryKey { user_id, id }
    }

    /// Brute-force substring search over one user's scanned entries: keeps
    /// the rows whose text contains the query, in scan order (key order,
    /// which is insert order by id). An empty query finds nothing.
    pub fn search(query: &str, scanned: &Vec<ScannedEntry>) -> (r: Vec<(u64, String)>)
        ensures
            entries_view(r@) == search_hits(query@, scanned@),
    {
        let mut out: Vec<(u64, String)> = Vec::new();
        if query.is_empty() {
            assert(entries_view(out@) =~= Seq::empty());
            return out;
        }
        let ghost pred = |e: (u64, Seq<char>)| has_substring(e.1, query@);
        let mut i: usize = 0;
        while i < scanned.len()
            invariant
                i <= scanned@.len(),
                query@.len() > 0,
                pred == (|e: (u64, Seq<char>)| has_substring(e.1, query@)),
                entries_view(out@) == listed(scanned@.take(i as int)).filter(pred),
            decreases scanned@.len() - i,
        {
            let ghost before = listed(scanned@.take(i as int));
            assert(scanned@.take(i + 1).drop_last() =~= scanned@.take(i as int));
            let entry = &scanned[i];
            match &entry.1 {
                Some(row) => {
                    assert(listed(scanned@.take(i + 1)) == before.push((entry.0.id, row.text@)));
                    proof {
                        before.lemma_filter_push((entry.0.id, row.text@), pred);
                    }
                    if text_contains(row.text.as_str(), query) {
                        out.push((entry.0.id, row.text.clone()));
                    }
                },
                None => {},
            }
            i += 1;
            assert(entries_view(out@) =~= listed(scanned@.take(i as int)).filter(pred));
        }
        assert(scanned@.take(i as int) =~= scanned@);
        out
    }

    /// All of a user's memories from their scanned entries, in scan order
    /// (key order, which is insert order by id).
    pub fn list(scanned: &Vec<ScannedEntry>) -> (r: Vec<(u64, String)>)
        ensures
            entries_view(r@) == listed(scanned@),
    {
        let mut out: Vec<(u64, String)> = Vec::new();
        let mut i: usize = 0;
        while i < scanned.len()
            invariant
                i <= scanned@.len(),
                entries_view(out@) == listed(scanned@.take(i as int)),
            decreases scanned@.len() - i,
        {
            assert(scanned@.take(i + 1).drop_last() =~= scanned@.take(i as int));
            let entry = &scanned[i];
            match &entry.1 {
                Some(row) => {
                    out.push((entry.0.id, row.text.clone()));
                },
                None => {},
            }
            i += 1;
            assert(entries_view(out@) =~= listed(scanned@.take(i as int)));
        }
        assert(scanned@.take(i as int) =~= scanned@);
        out
    }

    /// Per-user counts plus the table-wide total over all stored keys.
    pub fn stats(keys: &Vec<MemoryKey>) -> (r: MemoryStats)
        ensures
            r.total == keys@.len(),
            forall|u: u64|
                #[trigger] r.per_user@.contains_key(u) <==> exists|i: int|
                    0 <= i < keys@.len() && keys@[i].user_id == u,
            forall|u: u64|
                #[trigger] r.per_user@.contains_key(u) ==> r.per_user@[u] == user_count(keys@, u),
    {
        broadcast use vstd::std_specs::hash::group_hash_axioms;
        let mut stats = MemoryStats::default();
        let mut i: usize = 0;
        while i < keys.len()
            invariant
                i <= keys@.len(),
                stats.total == i,
                forall|u: u64|
                    #[trigger] stats.per_user@.contains_key(u) <==> exists|j: int|
                        0 <= j < i && keys@[j].user_id == u,
                forall|u: u64|
                    #[trigger] stats.per_user@.contains_key(u) ==> stats.per_user@[u]
                        == user_count(keys@.take(i as int), u),
                forall|u: u64|
                    !stats.per_user@.contains_key(u) ==> user_count(keys@.take(i as int), u)
                        == 0,
            decreases keys@.len() - i,
        {
            let key = keys[i];
            let u = key.user_id;
            let ghost prev = keys@.take(i as int);
            assert(keys@.take(i + 1) =~= prev.push(key));
            proof {
                assert forall|v: u64| true implies user_count(prev.push(key), v) == if v == u {
                    user_count(prev, v) + 1
                } else {
                    user_count(prev, v)
                } by {
                    prev.lemma_filter_push(key, |k: MemoryKey| k.user_id == v);
                }
                prev.lemma_filter_len(|k: MemoryKey| k.user_id == u);
            }
            let count: u64 = match stats.per_user.get(&u) {
                Some(c) => *c,
                None => 0,
            };
            stats.per_user.insert(u, count + 1);
            stats.total = stats.total + 1;
            i += 1;
        }
        assert(keys@.take(i as int) =~= keys@);
        stats
    }
}

/// A store never hands out an id that a stored row already has: when every
/// stored id is below the counter (which `open` establishes), the assigned
/// id is new, and afterwards every stored id, the new one included, is
/// below the advanced counter again.
pub proof fn lemma_store_id_is_fresh(
    stored: Seq<MemoryKey>,
    before: MemoryStore,
    after: MemoryStore,
    key: MemoryKey,
)
    requires
        ids_below(stored, before.spec_next_id()),
        key.id == before.spec_next_id(),
        after.spec_next_id() == before.spec_next_id() + 1,
    ensures
        forall|i: int| 0 <= i < stored.len() ==> #[trigger] stored[i].id != key.id,
        ids_below(stored.push(key), after.spec_next_id()),
{
    assert forall|i: int| 0 <= i < stored.push(key).len() implies #[trigger] stored.push(key)[i].id
        < after.spec_next_id() by {
        if i < stored.len() {
            assert(stored.push(key)[i] == stored[i]);
        }
    }
}

/// The distinct user ids of `keys`, in order of first appearance.
pub open spec fn users_of(keys: Seq<MemoryKey>) -> Seq<u64>
    decreases keys.len(),
{
    if keys.len() == 0 {
        Seq::empty()
    } else {
        let rest = users_of(keys.drop_last());
        if rest.contains(keys.last().user_id) {
            rest
        } else {
            rest.push(keys.last().user_id)
        }
    }
}

/// The sum of the per-user counts of `keys` over the users in `users`.
pub open spec fn sum_user_counts(keys: Seq<MemoryKey>, users: Seq<u64>) -> nat
    decreases users.len(),
{
    if users.len() == 0 {
        0
    } else {
        sum_user_counts(keys, users.drop_last()) + user_count(keys, users.last())
    }
}

proof fn lemma_user_count_push(keys: Seq<MemoryKey>, k: MemoryKey, v: u64)
    ensures
        user_count(keys.push(k), v) == user_count(keys, v) + if k.user_id == v {
            1nat
        } else {
            0nat
        },
{
    keys.lemma_filter_push(k, |x: MemoryKey| x.user_id == v);
}

proof fn lemma_user_count_absent(keys: Seq<MemoryKey>, v: u64)
    requires
        forall|i: int| 0 <= i < keys.len() ==> #[trigger] keys[i].user_id != v,
    ensures
        user_count(keys, v) == 0,
    decreases keys.len(),
{
    if keys.len() > 0 {
        let rest = keys.drop_last();
        assert forall|i: int| 0 <= i < rest.len() implies #[trigger] rest[i].user_id != v by {
            assert(rest[i] == keys[i]);
        }
        lemma_user_count_absent(rest, v);
        assert(keys =~= rest.push(keys.last()));
        lemma_user_count_push(rest, keys.last(), v);
    }
}

proof fn lemma_sum_user_counts_push(keys: Seq<MemoryKey>, k: MemoryKey, users: Seq<u64>)
    requires
        users.no_duplicates(),
    ensures
        sum_user_counts(keys.push(k), users) == sum_user_counts(keys, users) + if users.contains(
            k.user_id,
        ) {
            1nat
        } else {
            0nat
        },
    decreases users.len(),
{
    if users.len() > 0 {
        let rest = users.drop_last();
        let w = users.last();
        assert(rest.no_duplicates());
        lemma_sum_user_counts_push(keys, k, rest);
        lemma_user_count_push(keys, k, w);
        if w == k.user_id {
            if rest.contains(k.user_id) {
                let j = choose|j: int| 0 <= j < rest.len() && rest[j] == k.user_id;
                assert(users[j] == users[users.len() - 1]);
            }
        } else {
            if users.contains(k.user_id) {
                let j = choose|j: int| 0 <= j < users.len() && users[j] == k.user_id;
                assert(rest[j] == k.user_id);
            }
            if rest.contains(k.user_id) {
                let j = choose|j: int| 0 <= j < rest.len() && rest[j] == k.user_id;
                assert(users[j] == k.user_id);
            }
        }
    }
}

/// The table-wide total is the sum of the per-user counts: the users of the
/// stored keys (each listed once) are exactly the users that occur in them,
/// and their counts add up to the number of keys. With `stats`, whose
/// per-user map holds exactly these users with these counts, the per-user
/// counts sum to `total`.
pub proof fn lemma_user_counts_sum_to_total(keys: Seq<MemoryKey>)
    ensures
        users_of(keys).no_duplicates(),
        forall|u: u64|
            #[trigger] users_of(keys).contains(u) <==> exists|i: int|
                0 <= i < keys.len() && keys[i].user_id == u,
        sum_user_counts(keys, users_of(keys)) == keys.len(),
    decreases keys.len(),
{
    if keys.len() > 0 {
        let rest = keys.drop_last();
        let k = keys.last();
        let ur = users_of(rest);
        lemma_user_counts_sum_to_total(rest);
        assert(keys =~= rest.push(k));
        lemma_sum_user_counts_push(rest, k, ur);
        assert forall|u: u64|
            #[trigger] users_of(keys).contains(u) <==> exists|i: int|
                0 <= i < keys.len() && keys[i].user_id == u by {
            if users_of(keys).contains(u) {
                if ur.contains(u) {
                    let i = choose|i: int| 0 <= i < rest.len() && rest[i].user_id == u;
                    assert(keys[i] == rest[i]);
                } else {
                    assert(keys[keys.len() - 1].user_id == u);
                }
            }
            if exists|i: int| 0 <= i < keys.len() && keys[i].user_id == u {
                let i = choose|i: int| 0 <= i < keys.len() && keys[i].user_id == u;
                if i < keys.len() - 1 {
                    assert(rest[i] == keys[i]);
                    assert(ur.contains(u));
                    if !ur.contains(k.user_id) {
                        let j = choose|j: int| 0 <= j < ur.len() && ur[j] == u;
                        assert(ur.push(k.user_id)[j] == u);
                    }
                } else {
                    if !ur.contains(k.user_id) {
                        assert(ur.push(k.user_id)[ur.len() as int] == u);
                    }
                }
            }
        }
        if !ur.contains(k.user_id) {
            assert forall|i: int| 0 <= i < rest.len() implies #[trigger] rest[i].user_id != k.user_id by {
                if rest[i].user_id == k.user_id {
                    assert(ur.contains(k.user_id));
                }
            }
            lemma_user_count_absent(rest, k.user_id);
            lemma_user_count_push(rest, k, k.user_id);
            let up = ur.push(k.user_id);
            assert(up.drop_last() =~= ur);
            assert forall|a: int, b: int| 0 <= a < b < up.len() implies up[a] != up[b] by {
                if b == ur.len() {
                    assert(ur.contains(up[a]) ==> up[a] != k.user_id);
                    assert(up[a] == ur[a]);
                }
            }
        }
    }
}

/// Searching never finds more than listing: with a non-empty query a
/// memory is a hit exactly when it is listed and its text contains the
/// query; with an empty query nothing is a hit.
pub proof fn lemma_search_within_list(query: Seq<char>, scanned: Seq<ScannedEntry>)
    ensures
        forall|e: (u64, Seq<char>)|
            #[trigger] search_hits(query, scanned).contains(e) <==> (query.len() > 0
                && listed(scanned).contains(e) && has_substring(e.1, query)),
{
    broadcast use vstd::seq_lib::group_filter_ensures;
    let pred = |e: (u64, Seq<char>)| has_substring(e.1, query);
    assert forall|e: (u64, Seq<char>)|
        #[trigger] search_hits(query, scanned).contains(e) implies (query.len() > 0
            && listed(scanned).contains(e) && has_substring(e.1, query)) by {
        if query.len() > 0 {
            listed(scanned).lemma_filter_contains_rev(pred, e);
            let j = choose|j: int| 0 <= j < search_hits(query, scanned).len()
                && search_hits(query, scanned)[j] == e;
            assert(pred(listed(scanned).filter(pred)[j]));
        }
    }
    assert forall|e: (u64, Seq<char>)|
        (query.len() > 0 && listed(scanned).contains(e) && has_substring(e.1, query)) implies
        #[trigger] search_hits(query, scanned).contains(e) by {
        let j = choose|j: int| 0 <= j < listed(scanned).len() && listed(scanned)[j] == e;
        listed(scanned).lemma_filter_contains(pred, j);
    }
}

/// Substring containment is transitive.
proof fn lemma_substring_trans(a: Seq<char>, b: Seq<char>, c: Seq<char>)
    requires
        has_substring(a, b),
        has_substring(b, c),
    ensures
        has_substring(a, c),
{
    let i = choose|i: int|
        0 <= i && i + b.len() <= a.len() && #[trigger] a.subrange(i, i + b.len()) == b;
    let j = choose|j: int|
        0 <= j && j + c.len() <= b.len() && #[trigger] b.subrange(j, j + c.len()) == c;
    assert forall|k: int| 0 <= k < c.len() implies a.subrange(i + j, i + j + c.len())[k] == c[k] by {
        assert(a.subrange(i, i + b.len())[j + k] == b[j + k]);
        assert(b.subrange(j, j + c.len())[k] == c[k]);
    }
    assert(a.subrange(i + j, i + j + c.len()) =~= c);
}

/// Filtering by a stronger predicate after a weaker one is filtering by the
/// stronger one.
proof fn lemma_filter_refine<E>(s: Seq<E>, weak: spec_fn(E) -> bool, strong: spec_fn(E) -> bool)
    requires
        forall|e: E| #[trigger] strong(e) ==> weak(e),
    ensures
        s.filter(weak).filter(strong) == s.filter(strong),
    decreases s.len(),
{
    if s.len() == 0 {
        reveal(Seq::filter);
        assert(s.filter(weak).filter(strong) =~= s.filter(strong));
    } else {
        let rest = s.drop_last();
        let x = s.last();
        lemma_filter_refine(rest, weak, strong);
        assert(s =~= rest.push(x));
        rest.lemma_filter_push(x, weak);
        rest.lemma_filter_push(x, strong);
        rest.filter(weak).lemma_filter_push(x, strong);
    }
}

/// A longer query narrows the search: when `longer` contains a non-empty
/// `shorter`, the hits for `longer` are exactly the hits for `shorter` whose
/// text also contains `longer`, in the same order, so they are a
/// subsequence of the hits for `shorter`.
pub proof fn lemma_longer_query_narrows(
    shorter: Seq<char>,
    longer: Seq<char>,
    scanned: Seq<ScannedEntry>,
)
    requires
        shorter.len() > 0,
        has_substring(longer, shorter),
    ensures
        search_hits(longer, scanned) == search_hits(shorter, scanned).filter(
            |e: (u64, Seq<char>)| has_substring(e.1, longer),
        ),
{
    let weak = |e: (u64, Seq<char>)| has_substring(e.1, shorter);
    let strong = |e: (u64, Seq<char>)| has_substring(e.1, longer);
    let i = choose|i: int|
        0 <= i && i + shorter.len() <= longer.len() && #[trigger] longer.subrange(
            i,
            i + shorter.len(),
        ) == shorter;
    assert(longer.len() > 0);
    assert forall|e: (u64, Seq<char>)| #[trigger] strong(e) implies weak(e) by {
        lemma_substring_trans(e.1, longer, shorter);
    }
    lemma_filter_refine(listed(scanned), weak, strong);
}

proof fn lemma_listed_len_all_found(scan: Seq<ScannedEntry>)
    requires
        forall|i: int| 0 <= i < scan.len() ==> (#[trigger] scan[i]).1 is Some,
    ensures
        listed(scan).len() == scan.len(),
    decreases scan.len(),
{
    if scan.len() > 0 {
        let rest = scan.drop_last();
        assert forall|i: int| 0 <= i < rest.len() implies (#[trigger] rest[i]).1 is Some by {
            assert(rest[i] == scan[i]);
        }
        lemma_listed_len_all_found(rest);
        assert(scan.last() == scan[scan.len() - 1]);
    }
}

/// Store, then list: the key a store assigns to `user_id` comes after every
/// key of the user's scan (whose ids are below the assigned one, which
/// `open` and `store` keep), so the table scans it last; the user's listing
/// is then the old listing with `(id, text)` appended. Another user's scan
/// prefix does not select the new key, so other users' listings do not
/// change.
pub proof fn lemma_store_then_list(scanned: Seq<ScannedEntry>, key: MemoryKey, row: MemoryRow)
    requires
        forall|i: int|
            0 <= i < scanned.len() ==> (#[trigger] scanned[i]).0.user_id == key.user_id
                && scanned[i].0.id < key.id,
    ensures
        forall|i: int|
            0 <= i < scanned.len() ==> lex_lt((#[trigger] scanned[i]).0.table_key(), key.table_key()),
        user_scan_prefix(key.user_id).is_prefix_of(key.table_key()),
        forall|u: u64| u != key.user_id ==> !(#[trigger] user_scan_prefix(u)).is_prefix_of(key.table_key()),
        listed(scanned.push((key, Some(row)))) == listed(scanned).push((key.id, row.text@)),
{
    assert forall|i: int| 0 <= i < scanned.len() implies lex_lt(
        (#[trigger] scanned[i]).0.table_key(),
        key.table_key(),
    ) by {
        lemma_key_order(scanned[i].0, key);
    }
    lemma_user_prefix_scope(key, key.user_id);
    assert forall|u: u64| u != key.user_id implies !(#[trigger] user_scan_prefix(u)).is_prefix_of(
        key.table_key(),
    ) by {
        lemma_user_prefix_scope(key, u);
    }
    assert(scanned.push((key, Some(row))).drop_last() =~= scanned);
}

/// The listed lengths of the scans of `users`, summed.
pub open spec fn sum_listed(scans: spec_fn(u64) -> Seq<ScannedEntry>, users: Seq<u64>) -> nat
    decreases users.len(),
{
    if users.len() == 0 {
        0
    } else {
        sum_listed(scans, users.drop_last()) + listed(scans(users.last())).len()
    }
}

/// Stats against list: when each user's scan holds exactly that user's
/// stored keys (in the table's order), each with its row, the user's count
/// in `stats` is the length of the user's listing, and the total is the sum
/// of the listing lengths over the users that have keys.
pub proof fn lemma_stats_match_lists(keys: Seq<MemoryKey>, scans: spec_fn(u64) -> Seq<ScannedEntry>)
    requires
        forall|u: u64|
            (#[trigger] scans(u)).map_values(|e: ScannedEntry| e.0) == keys.filter(
                |k: MemoryKey| k.user_id == u,
            ),
        forall|u: u64, i: int| 0 <= i < scans(u).len() ==> (#[trigger] scans(u)[i]).1 is Some,
    ensures
        forall|u: u64| #[trigger] listed(scans(u)).len() == user_count(keys, u),
        sum_listed(scans, users_of(keys)) == keys.len(),
{
    assert forall|u: u64| #[trigger] listed(scans(u)).len() == user_count(keys, u) by {
        let s = scans(u);
        assert forall|i: int| 0 <= i < s.len() implies (#[trigger] s[i]).1 is Some by {
            assert(scans(u)[i].1 is Some);
        }
        lemma_listed_len_all_found(s);
        assert(s.map_values(|e: ScannedEntry| e.0).len() == s.len());
    }
    lemma_user_counts_sum_to_total(keys);
    lemma_sum_listed_is_sum_counts(keys, scans, users_of(keys));
}

proof fn lemma_sum_listed_is_sum_counts(
    keys: Seq<MemoryKey>,
    scans: spec_fn(u64) -> Seq<ScannedEntry>,
    users: Seq<u64>,
)
    requires
        forall|u: u64| #[trigger] listed(scans(u)).len() == user_count(keys, u),
    ensures
        sum_listed(scans, users) == sum_user_counts(keys, users),
    decreases users.len(),
{
    if users.len() > 0 {
        lemma_sum_listed_is_sum_counts(keys, scans, users.drop_last());
        assert(listed(scans(users.last())).len() == user_count(keys, users.last()));
    }
}

proof fn lemma_max_id_attained(keys: Seq<MemoryKey>)
    requires
        keys.len() > 0,
    ensures
        exists|i: int| 0 <= i < keys.len() && keys[i].id == max_id(keys),
    decreases keys.len(),
{
    let rest = keys.drop_last();
    let n = keys.len() - 1;
    assert(keys[n] == keys.last());
    if keys.last().id > max_id(rest) || rest.len() == 0 {
        if rest.len() == 0 {
            assert(max_id(rest) == 0);
        }
        assert(keys[n].id == max_id(keys));
    } else {
        lemma_max_id_attained(rest);
        let i = choose|i: int| 0 <= i < rest.len() && rest[i].id == max_id(rest);
        assert(keys[i] == rest[i]);
        assert(keys[i].id == max_id(keys));
    }
}

/// The recovered id counter is one past the largest stored id: 1 for an
/// empty table; otherwise some stored key has an id that no stored id
/// exceeds, and the counter is that id plus one (saturating at
/// `u64::MAX`). It depends on the keys' ids only.
pub proof fn lemma_recovered_counter(keys: Seq<MemoryKey>)
    ensures
        keys.len() == 0 ==> recovered_next_id(keys) == 1,
        keys.len() > 0 ==> exists|i: int|
            0 <= i < keys.len() && (forall|j: int|
                0 <= j < keys.len() ==> #[trigger] keys[j].id <= keys[i].id)
                && recovered_next_id(keys) == (if keys[i].id == u64::MAX {
                u64::MAX
            } else {
                (keys[i].id + 1) as u64
            }),
{
    if keys.len() > 0 {
        lemma_max_id_bounds(keys);
        lemma_max_id_attained(keys);
        let i = choose|i: int| 0 <= i < keys.len() && keys[i].id == max_id(keys);
        assert(forall|j: int| 0 <= j < keys.len() ==> #[trigger] keys[j].id <= keys[i].id);
    }
}

/// The plain `(id, text)` entry of a scanned entry whose row was found.
pub open spec fn found_entry(e: ScannedEntry) -> (u64, Seq<char>) {
    (e.0.id, e.1->0.text@)
}

/// Positions in `scanned` of the found rows whose entry satisfies `p`.
spec fn positions(scanned: Seq<ScannedEntry>, p: spec_fn((u64, Seq<char>)) -> bool) -> Seq<int>
    decreases scanned.len(),
{
    if scanned.len() == 0 {
        Seq::empty()
    } else {
        let rest = positions(scanned.drop_last(), p);
        if scanned.last().1 is Some && p(found_entry(scanned.last())) {
            rest.push(scanned.len() - 1)
        } else {
            rest
        }
    }
}

proof fn lemma_positions(scanned: Seq<ScannedEntry>, p: spec_fn((u64, Seq<char>)) -> bool)
    ensures
        ({
            let pos = positions(scanned, p);
            let out = listed(scanned).filter(p);
            &&& pos.len() == out.len()
            &&& forall|k: int|
                0 <= k < pos.len() ==> 0 <= #[trigger] pos[k] < scanned.len() && scanned[pos[k]].1 is Some
                    && p(found_entry(scanned[pos[k]])) && out[k] == found_entry(scanned[pos[k]])
            &&& forall|k1: int, k2: int| 0 <= k1 < k2 < pos.len() ==> pos[k1] < pos[k2]
            &&& forall|i: int|
                0 <= i < scanned.len() && (#[trigger] scanned[i]).1 is Some && p(
                    found_entry(scanned[i]),
                ) ==> exists|k: int| 0 <= k < pos.len() && pos[k] == i
        }),
    decreases scanned.len(),
{
    if scanned.len() > 0 {
        let rest = scanned.drop_last();
        let last = scanned.last();
        lemma_positions(rest, p);
        let rpos = positions(rest, p);
        let pos = positions(scanned, p);
        assert forall|i: int| 0 <= i < rest.len() implies rest[i] == scanned[i] by {}
        match last.1 {
            Some(row) => {
                listed(rest).lemma_filter_push((last.0.id, row.text@), p);
                assert(listed(scanned) == listed(rest).push((last.0.id, row.text@)));
            },
            None => {
                assert(listed(scanned) == listed(rest));
            },
        }
        assert forall|k: int|
            0 <= k < pos.len() implies 0 <= #[trigger] pos[k] < scanned.len() && scanned[pos[k]].1 is Some
                && p(found_entry(scanned[pos[k]])) && listed(scanned).filter(p)[k]
                == found_entry(scanned[pos[k]]) by {
            if k < rpos.len() {
                assert(pos[k] == rpos[k]);
                assert(rest[rpos[k]] == scanned[rpos[k]]);
            }
        }
        assert forall|i: int|
            0 <= i < scanned.len() && (#[trigger] scanned[i]).1 is Some && p(
                found_entry(scanned[i]),
            ) implies exists|k: int| 0 <= k < pos.len() && pos[k] == i by {
            if i < rest.len() {
                assert(rest[i] == scanned[i]);
                let k = choose|k: int| 0 <= k < rpos.len() && rpos[k] == i;
                assert(pos[k] == i);
            } else {
                assert(pos[pos.len() - 1] == i);
            }
        }
    }
}

/// What a non-empty search finds, stated over the scan itself: the hits are
/// the found rows whose text contains the query, each exactly once, at
/// increasing positions of the scan, so in scan order (key order, which is
/// insert order by id); an empty query finds nothing.
pub proof fn lemma_search_is_scan_ordered_filter(query: Seq<char>, scanned: Seq<ScannedEntry>)
    ensures
        query.len() == 0 ==> search_hits(query, scanned).len() == 0,
        query.len() > 0 ==> exists|pos: Seq<int>|
            #![trigger pos.len()]
            {
                let hits = search_hits(query, scanned);
                &&& pos.len() == hits.len()
                &&& forall|k: int|
                    0 <= k < pos.len() ==> 0 <= #[trigger] pos[k] < scanned.len()
                        && scanned[pos[k]].1 is Some && hits[k] == found_entry(scanned[pos[k]])
                        && has_substring(hits[k].1, query)
                &&& forall|k1: int, k2: int| 0 <= k1 < k2 < pos.len() ==> pos[k1] < pos[k2]
                &&& forall|i: int|
                    0 <= i < scanned.len() && (#[trigger] scanned[i]).1 is Some && has_substring(
                        scanned[i].1->0.text@,
                        query,
                    ) ==> exists|k: int| 0 <= k < pos.len() && pos[k] == i
            },
{
    if query.len() > 0 {
        let p = |e: (u64, Seq<char>)| has_substring(e.1, query);
        lemma_positions(scanned, p);
        let pos = positions(scanned, p);
        assert(search_hits(query, scanned) == listed(scanned).filter(p));
        assert forall|i: int|
            0 <= i < scanned.len() && (#[trigger] scanned[i]).1 is Some && has_substring(
                scanned[i].1->0.text@,
                query,
            ) implies exists|k: int| 0 <= k < pos.len() && pos[k] == i by {
            assert(p(found_entry(scanned[i])));
        }
    }
}

/// What listing gives, stated over the scan itself: every found row exactly
/// once, at increasing positions of the scan, so in scan order.
pub proof fn lemma_list_is_scan_ordered(scanned: Seq<ScannedEntry>)
    ensures
        exists|pos: Seq<int>|
            #![trigger pos.len()]
            {
                let all = listed(scanned);
                &&& pos.len() == all.len()
                &&& forall|k: int|
                    0 <= k < pos.len() ==> 0 <= #[trigger] pos[k] < scanned.len()
                        && scanned[pos[k]].1 is Some && all[k] == found_entry(scanned[pos[k]])
                &&& forall|k1: int, k2: int| 0 <= k1 < k2 < pos.len() ==> pos[k1] < pos[k2]
                &&& forall|i: int|
                    0 <= i < scanned.len() && (#[trigger] scanned[i]).1 is Some ==> exists|k: int|
                        0 <= k < pos.len() && pos[k] == i
            },
{
    let p = |e: (u64, Seq<char>)| true;
    lemma_positions(scanned, p);
    lemma_filter_all(listed(scanned));
    let pos = positions(scanned, p);
    assert forall|i: int|
        0 <= i < scanned.len() && (#[trigger] scanned[i]).1 is Some implies exists|k: int|
        0 <= k < pos.len() && pos[k] == i by {
        assert(p(found_entry(scanned[i])));
    }
}

proof fn lemma_filter_all(s: Seq<(u64, Seq<char>)>)
    ensures
        s.filter(|e: (u64, Seq<char>)| true) == s,
    decreases s.len(),
{
    if s.len() > 0 {
        lemma_filter_all(s.drop_last());
        s.drop_last().lemma_filter_push(s.last(), |e: (u64, Seq<char>)| true);
        assert(s =~= s.drop_last().push(s.last()));
    } else {
        reveal(Seq::filter);
    }
}

} // verus!
