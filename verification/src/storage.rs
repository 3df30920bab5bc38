//! The key-value store: eight namespaced trees of byte keys and byte
//! values, each kept in ascending key order, with an atomic batch
//! primitive spanning all trees.
//!
//! Every tree is modelled as a map from key bytes to value bytes; scans
//! are specified over the ordered sequence of entries. A batch either
//! applies completely or — when a simulated failure is armed — changes
//! nothing, which is the ledger's single atomic write boundary.

use vstd::prelude::*;
use crate::types::{Account, Block, ChainState, ContractId, PublicKey, Transaction};
use crate::codec::{
    enc_account, enc_block, enc_chain_state, enc_tx, encode_account, encode_block,
    encode_chain_state, tx_to_bytes, decode_account, decode_block, decode_chain_state, decode_tx,
    block_full_parsed, no_block_full, tx_eqv,
};
use crate::keys::{
    block_tx_key, block_tx_key_spec, block_tx_scan_prefix, block_tx_scan_prefix_spec,
    chain_state_key, chain_state_key_spec, contract_state_key, contract_state_key_spec, hash_key,
    height_key, height_key_spec, height_prefix, height_prefix_bytes, lemma_height_key_prefixed,
};

verus! {

broadcast use vstd::array::group_array_axioms;

/// Errors from the storage layer.
#[derive(Debug, Clone, Copy, PartialEq, Eq)]
pub enum StorageError {
    DatabaseError,
    NotFound,
    SerializationError,
    CryptoError,
}

/// Strict lexicographic order on byte sequences.
pub open spec fn lex_lt(a: Seq<u8>, b: Seq<u8>) -> bool
    decreases a.len(),
{
    if b.len() == 0 {
        false
    } else if a.len() == 0 {
        true
    } else if a[0] < b[0] {
        true
    } else if a[0] > b[0] {
        false
    } else {
        lex_lt(a.drop_first(), b.drop_first())
    }
}

/// Exactly one of `a < b`, `a == b`, `b < a` holds.
pub proof fn lemma_lex_trichotomy(a: Seq<u8>, b: Seq<u8>)
    ensures
        lex_lt(a, b) || lex_lt(b, a) || a == b,
        lex_lt(a, b) ==> !lex_lt(b, a),
        lex_lt(a, b) ==> a != b,
    decreases a.len(),
{
    if a.len() == 0 || b.len() == 0 {
        if a.len() == 0 && b.len() == 0 {
            assert(a =~= b);
        }
    } else {
        lemma_lex_trichotomy(a.drop_first(), b.drop_first());
        if a[0] == b[0] && a.drop_first() == b.drop_first() {
            assert(a =~= b) by {
                assert(forall|i: int| 1 <= i < a.len() ==> a[i] == a.drop_first()[i - 1]);
                assert(forall|i: int| 1 <= i < b.len() ==> b[i] == b.drop_first()[i - 1]);
            }
        }
        if a == b {
            assert(a.drop_first() =~= b.drop_first());
        }
    }
}

/// Lexicographic order is transitive.
pub proof fn lemma_lex_trans(a: Seq<u8>, b: Seq<u8>, c: Seq<u8>)
    requires
        lex_lt(a, b),
        lex_lt(b, c),
    ensures
        lex_lt(a, c),
    decreases a.len(),
{
    if a.len() == 0 || b.len() == 0 || c.len() == 0 {
    } else {
        if a[0] == b[0] && b[0] == c[0] {
            lemma_lex_trans(a.drop_first(), b.drop_first(), c.drop_first());
        }
    }
}

/// Whether `p` is a prefix of `k`.
pub open spec fn has_prefix(k: Seq<u8>, p: Seq<u8>) -> bool {
    p.len() <= k.len() && k.subrange(0, p.len() as int) == p
}

/// Compare two byte vectors for equality of contents.
pub fn bytes_eq(a: &Vec<u8>, b: &Vec<u8>) -> (r: bool)
    ensures
        r == (a@ == b@),
{
    if a.len() != b.len() {
        proof {
            assert(a@ != b@);
        }
        return false;
    }
    let mut i: usize = 0;
    let mut eq = true;
    while i < a.len()
        invariant
            0 <= i <= a.len(),
            a.len() == b.len(),
            eq == (forall|k: int| 0 <= k < i ==> a@[k] == b@[k]),
        decreases a.len() - i,
    {
        if a[i] != b[i] {
            eq = false;
        }
        i = i + 1;
    }
    proof {
        if eq {
            assert(a@ =~= b@);
        }
    }
    eq
}

/// Compare two 32-byte arrays for equality of contents.
pub fn bytes32_eq(a: &[u8; 32], b: &[u8; 32]) -> (r: bool)
    ensures
        r == (a@ == b@),
        r == (*a == *b),
{
    let mut i: usize = 0;
    let mut eq = true;
    while i < 32
        invariant
            0 <= i <= 32,
            eq == (forall|k: int| 0 <= k < i ==> a@[k] == b@[k]),
        decreases 32 - i,
    {
        if a[i] != b[i] {
            eq = false;
        }
        i = i + 1;
    }
    proof {
        if eq {
            assert(*a =~= *b) by {
                assert(forall|k: int| 0 <= k < 32 ==> a@[k] == b@[k]);
            }
            assert(a@ =~= b@);
        } else {
            let k = choose|k: int| 0 <= k < 32 && a@[k] != b@[k];
            assert(a[k] != b[k]);
            if *a == *b {
                assert(*a =~= *b);
                assert(false);
            }
        }
    }
    eq
}

/// Copy a byte vector.
pub fn copy_bytes(v: &Vec<u8>) -> (r: Vec<u8>)
    ensures
        r@ == v@,
{
    let mut out: Vec<u8> = Vec::new();
    let mut i: usize = 0;
    while i < v.len()
        invariant
            0 <= i <= v.len(),
            out@ == v@.take(i as int),
        decreases v.len() - i,
    {
        out.push(v[i]);
        assert(out@ =~= v@.take(i + 1 as int));
        i = i + 1;
    }
    assert(v@.take(v.len() as int) =~= v@);
    out
}

/// Decide the strict lexicographic order on two byte vectors.
pub fn lex_less(a: &Vec<u8>, b: &Vec<u8>) -> (r: bool)
    ensures
        r == lex_lt(a@, b@),
{
    let mut i: usize = 0;
    proof {
        assert(a@.skip(0) =~= a@);
        assert(b@.skip(0) =~= b@);
    }
    loop
        invariant
            0 <= i <= a.len(),
            i <= b.len(),
            lex_lt(a@, b@) == lex_lt(a@.skip(i as int), b@.skip(i as int)),
        decreases a.len() - i,
    {
        if i >= b.len() {
            assert(b@.skip(i as int).len() == 0);
            return false;
        }
        if i >= a.len() {
            assert(a@.skip(i as int).len() == 0);
            assert(b@.skip(i as int).len() > 0);
            return true;
        }
        let x = a[i];
        let y = b[i];
        assert(a@.skip(i as int)[0] == a@[i as int]);
        assert(b@.skip(i as int)[0] == b@[i as int]);
        if x < y {
            return true;
        }
        if x > y {
            return false;
        }
        assert(a@.skip(i as int).drop_first() =~= a@.skip(i + 1));
        assert(b@.skip(i as int).drop_first() =~= b@.skip(i + 1));
        i = i + 1;
    }
}

/// Whether `p` is a prefix of `k`, decided on byte vectors.
pub fn is_prefix_of(k: &Vec<u8>, p: &Vec<u8>) -> (r: bool)
    ensures
        r == has_prefix(k@, p@),
{
    if p.len() > k.len() {
        return false;
    }
    let mut i: usize = 0;
    let mut eq = true;
    while i < p.len()
        invariant
            0 <= i <= p.len(),
            p.len() <= k.len(),
            eq == (forall|j: int| 0 <= j < i ==> k@[j] == p@[j]),
        decreases p.len() - i,
    {
        if k[i] != p[i] {
            eq = false;
        }
        i = i + 1;
    }
    proof {
        if eq {
            assert(k@.subrange(0, p@.len() as int) =~= p@);
        } else {
            if has_prefix(k@, p@) {
                let j = choose|j: int| 0 <= j < p@.len() && k@[j] != p@[j];
                assert(k@.subrange(0, p@.len() as int)[j] == p@[j]);
            }
        }
    }
    eq
}

/// The map a sequence of key-value entries denotes: later entries win,
/// though with unique keys the order does not matter.
pub open spec fn kv_map(s: Seq<(Vec<u8>, Vec<u8>)>) -> Map<Seq<u8>, Seq<u8>>
    decreases s.len(),
{
    if s.len() == 0 {
        Map::empty()
    } else {
        kv_map(s.drop_last()).insert(s.last().0@, s.last().1@)
    }
}

/// Keys of the entry map are exactly the keys of the entries.
pub proof fn lemma_kv_map_dom(s: Seq<(Vec<u8>, Vec<u8>)>, k: Seq<u8>)
    ensures
        kv_map(s).contains_key(k) <==> exists|i: int| 0 <= i < s.len() && (#[trigger] s[i]).0@
            == k,
    decreases s.len(),
{
    if s.len() > 0 {
        lemma_kv_map_dom(s.drop_last(), k);
        if s.last().0@ == k {
            assert(s[s.len() - 1].0@ == k);
        } else {
            if kv_map(s).contains_key(k) {
                let dl = s.drop_last();
                let i = choose|i: int| 0 <= i < dl.len() && (#[trigger] dl[i]).0@ == k;
                assert(s[i].0@ == k);
            }
            if exists|i: int| 0 <= i < s.len() && (#[trigger] s[i]).0@ == k {
                let i = choose|i: int| 0 <= i < s.len() && (#[trigger] s[i]).0@ == k;
                assert(i < s.len() - 1);
                assert(s.drop_last()[i].0@ == k);
            }
        }
    }
}

/// All entry keys are distinct.
pub open spec fn unique_keys(s: Seq<(Vec<u8>, Vec<u8>)>) -> bool {
    forall|i: int, j: int|
        0 <= i < j < s.len() ==> (#[trigger] s[i]).0@ != (#[trigger] s[j]).0@
}

/// With unique keys, the entry map sends each entry key to its value.
pub proof fn lemma_kv_map_index(s: Seq<(Vec<u8>, Vec<u8>)>, i: int)
    requires
        unique_keys(s),
        0 <= i < s.len(),
    ensures
        kv_map(s).contains_key(s[i].0@),
        kv_map(s)[s[i].0@] == s[i].1@,
    decreases s.len(),
{
    if i == s.len() - 1 {
        assert(s[i] == s.last());
    } else {
        assert(unique_keys(s.drop_last())) by {
            assert(forall|x: int, y: int|
                0 <= x < y < s.drop_last().len() ==> (#[trigger] s.drop_last()[x]).0@ != (
                #[trigger] s.drop_last()[y]).0@) by {
                assert(forall|x: int|
                    0 <= x < s.drop_last().len() ==> #[trigger] s.drop_last()[x] == s[x]);
            }
        }
        lemma_kv_map_index(s.drop_last(), i);
        assert(s.drop_last()[i] == s[i]);
        assert(s[i].0@ != s.last().0@);
    }
}

/// Entries in strictly ascending key order.
pub open spec fn sorted_keys(s: Seq<(Vec<u8>, Vec<u8>)>) -> bool {
    forall|i: int, j: int|
        0 <= i < j < s.len() ==> lex_lt((#[trigger] s[i]).0@, (#[trigger] s[j]).0@)
}

/// Strictly sorted entries have unique keys.
pub proof fn lemma_sorted_unique(s: Seq<(Vec<u8>, Vec<u8>)>)
    requires
        sorted_keys(s),
    ensures
        unique_keys(s),
{
    assert forall|i: int, j: int| 0 <= i < j < s.len() implies (#[trigger] s[i]).0@ != (
    #[trigger] s[j]).0@ by {
        lemma_lex_trichotomy(s[i].0@, s[j].0@);
    }
}

/// One namespaced tree: entries in ascending key order.
#[derive(Debug, Clone, PartialEq, Eq)]
pub struct KvTree {
    pub entries: Vec<(Vec<u8>, Vec<u8>)>,
}

impl KvTree {
    /// The entries in ascending key order, as view pairs.
    pub open spec fn entries_view(self) -> Seq<(Seq<u8>, Seq<u8>)> {
        self.entries@.map_values(|e: (Vec<u8>, Vec<u8>)| (e.0@, e.1@))
    }

    /// The map this tree denotes.
    pub open spec fn view(self) -> Map<Seq<u8>, Seq<u8>> {
        kv_map(self.entries@)
    }

    /// Entries are strictly sorted by key.
    pub open spec fn wf(self) -> bool {
        sorted_keys(self.entries@)
    }

    /// An empty tree.
    pub fn new() -> (r: Self)
        ensures
            r.wf(),
            r@ == Map::<Seq<u8>, Seq<u8>>::empty(),
            r.entries_view() == Seq::<(Seq<u8>, Seq<u8>)>::empty(),
    {
        let r = KvTree { entries: Vec::new() };
        assert(r.entries_view() =~= Seq::<(Seq<u8>, Seq<u8>)>::empty());
        r
    }

    /// Look a key up, returning a copy of its value.
    pub fn get(&self, key: &Vec<u8>) -> (r: Option<Vec<u8>>)
        requires
            self.wf(),
        ensures
            r is Some <==> self@.contains_key(key@),
            r matches Some(v) ==> self@.contains_key(key@) && v@ == self@[key@],
    {
        proof {
            lemma_sorted_unique(self.entries@);
            lemma_kv_map_dom(self.entries@, key@);
        }
        let mut i: usize = 0;
        while i < self.entries.len()
            invariant
                0 <= i <= self.entries@.len(),
                forall|j: int| 0 <= j < i ==> (#[trigger] self.entries@[j]).0@ != key@,
                unique_keys(self.entries@),
                self@ == kv_map(self.entries@),
            decreases self.entries@.len() - i,
        {
            if bytes_eq(&self.entries[i].0, key) {
                proof {
                    lemma_kv_map_index(self.entries@, i as int);
                }
                return Some(copy_bytes(&self.entries[i].1));
            }
            i = i + 1;
        }
        proof {
            lemma_kv_map_dom(self.entries@, key@);
        }
        None
    }

    /// Insert or replace one key.
    pub fn put(&mut self, key: Vec<u8>, value: Vec<u8>)
        requires
            old(self).wf(),
        ensures
            final(self).wf(),
            final(self)@ == old(self)@.insert(key@, value@),
    {
        let mut pos: usize = 0;
        loop
            invariant
                0 <= pos <= self.entries@.len(),
                forall|j: int| 0 <= j < pos ==> lex_lt((#[trigger] self.entries@[j]).0@, key@),
                self.entries@ == old(self).entries@,
            ensures
                0 <= pos <= self.entries@.len(),
                forall|j: int| 0 <= j < pos ==> lex_lt((#[trigger] self.entries@[j]).0@, key@),
                pos < self.entries@.len() ==> !lex_lt(self.entries@[pos as int].0@, key@),
                self.entries@ == old(self).entries@,
            decreases self.entries@.len() - pos,
        {
            if pos >= self.entries.len() {
                break ;
            }
            if !lex_less(&self.entries[pos].0, &key) {
                break ;
            }
            pos = pos + 1;
        }
        proof {
            lemma_sorted_unique(self.entries@);
        }
        if pos < self.entries.len() && bytes_eq(&self.entries[pos].0, &key) {
            let ghost olds = self.entries@;
            self.entries.set(pos, (key, value));
            proof {
                lemma_kv_map_replace(olds, pos as int, self.entries@[pos as int]);
                assert(self.entries@ =~= olds.update(pos as int, self.entries@[pos as int]));
                assert forall|i: int, j: int| 0 <= i < j < self.entries@.len() implies lex_lt(
                    (#[trigger] self.entries@[i]).0@,
                    (#[trigger] self.entries@[j]).0@,
                ) by {
                    assert(olds[i].0@ == self.entries@[i].0@ || i == pos);
                    assert(olds[j].0@ == self.entries@[j].0@ || j == pos);
                    assert(lex_lt(olds[i].0@, olds[j].0@));
                }
            }
        } else {
            let ghost olds = self.entries@;
            proof {
                if pos < self.entries@.len() {
                    lemma_lex_trichotomy(self.entries@[pos as int].0@, key@);
                }
            }
            self.entries.insert(pos, (key, value));
            proof {
                let news = self.entries@;
                assert(news == olds.insert(pos as int, news[pos as int]));
                assert(news[pos as int].0@ == key@);
                assert forall|i: int| 0 <= i < olds.len() implies (#[trigger] olds[i]).0@ != key@
                by {
                    if i < pos {
                        lemma_lex_trichotomy(olds[i].0@, key@);
                    } else {
                        assert(!lex_lt(olds[pos as int].0@, key@));
                        if i > pos {
                            lemma_lex_trichotomy(key@, olds[i].0@);
                            if lex_lt(olds[i].0@, key@) {
                                lemma_lex_trans(olds[pos as int].0@, olds[i].0@, key@);
                            }
                        } else {
                            lemma_lex_trichotomy(olds[pos as int].0@, key@);
                        }
                    }
                }
                lemma_kv_map_insert_at(olds, pos as int, news[pos as int]);
                assert forall|i: int, j: int| 0 <= i < j < news.len() implies lex_lt(
                    (#[trigger] news[i]).0@,
                    (#[trigger] news[j]).0@,
                ) by {
                    let oi = if i < pos {
                        i
                    } else {
                        i - 1
                    };
                    let oj = if j < pos {
                        j
                    } else {
                        j - 1
                    };
                    if i == pos {
                        // key < every entry at or after pos
                        assert(!lex_lt(olds[pos as int].0@, key@));
                        lemma_lex_trichotomy(olds[pos as int].0@, key@);
                        if oj == pos {
                            assert(news[j].0@ == olds[pos as int].0@);
                        } else {
                            lemma_lex_trans(key@, olds[pos as int].0@, olds[oj].0@);
                        }
                    } else if j == pos {
                        assert(lex_lt(olds[oi].0@, key@));
                    } else {
                        assert(lex_lt(olds[oi].0@, olds[oj].0@));
                    }
                }
            }
        }
    }

    /// Remove one key if present.
    pub fn delete(&mut self, key: &Vec<u8>)
        requires
            old(self).wf(),
        ensures
            final(self).wf(),
            final(self)@ == old(self)@.remove(key@),
    {
        proof {
            lemma_sorted_unique(self.entries@);
        }
        let mut i: usize = 0;
        while i < self.entries.len()
            invariant
                0 <= i <= self.entries@.len(),
                forall|j: int| 0 <= j < i ==> (#[trigger] self.entries@[j]).0@ != key@,
                self.entries@ == old(self).entries@,
                sorted_keys(self.entries@),
            decreases self.entries@.len() - i,
        {
            if bytes_eq(&self.entries[i].0, key) {
                let ghost olds = self.entries@;
                self.entries.remove(i);
                proof {
                    lemma_sorted_unique(olds);
                    assert(self.entries@ =~= olds.remove(i as int));
                    lemma_kv_map_remove_at(olds, i as int);
                    assert forall|x: int, y: int| 0 <= x < y < self.entries@.len() implies lex_lt(
                        (#[trigger] self.entries@[x]).0@,
                        (#[trigger] self.entries@[y]).0@,
                    ) by {
                        let ox = if x < i {
                            x
                        } else {
                            x + 1
                        };
                        let oy = if y < i {
                            y
                        } else {
                            y + 1
                        };
                        assert(lex_lt(olds[ox].0@, olds[oy].0@));
                    }
                }
                return ;
            }
            i = i + 1;
        }
        proof {
            lemma_kv_map_dom(self.entries@, key@);
            assert(!self@.contains_key(key@));
            assert(self@.remove(key@) =~= self@);
        }
    }
}

/// Replacing the entry at a position whose key already stands there is
/// a map insert of that key.
proof fn lemma_kv_map_replace(s: Seq<(Vec<u8>, Vec<u8>)>, p: int, el: (Vec<u8>, Vec<u8>))
    requires
        unique_keys(s),
        0 <= p < s.len(),
        el.0@ == s[p].0@,
    ensures
        kv_map(s.update(p, el)) == kv_map(s).insert(el.0@, el.1@),
    decreases s.len(),
{
    let news = s.update(p, el);
    if p == s.len() - 1 {
        assert(news.drop_last() =~= s.drop_last());
        assert(news.last() == el);
        assert(kv_map(news) == kv_map(s.drop_last()).insert(el.0@, el.1@));
        assert(kv_map(s).insert(el.0@, el.1@) =~= kv_map(s.drop_last()).insert(
            s.last().0@,
            s.last().1@,
        ).insert(el.0@, el.1@));
        assert(kv_map(news) =~= kv_map(s).insert(el.0@, el.1@));
    } else {
        assert(unique_keys(s.drop_last())) by {
            assert(forall|x: int|
                0 <= x < s.drop_last().len() ==> #[trigger] s.drop_last()[x] == s[x]);
        }
        assert(s.drop_last()[p] == s[p]);
        lemma_kv_map_replace(s.drop_last(), p, el);
        assert(news.drop_last() =~= s.drop_last().update(p, el));
        assert(news.last() == s.last());
        assert(kv_map(news) == kv_map(s.drop_last()).insert(el.0@, el.1@).insert(
            s.last().0@,
            s.last().1@,
        ));
        assert(s[p].0@ != s.last().0@);
        assert(kv_map(news) =~= kv_map(s).insert(el.0@, el.1@));
    }
}

/// Inserting an entry with a fresh key at any position is a map insert.
proof fn lemma_kv_map_insert_at(s: Seq<(Vec<u8>, Vec<u8>)>, p: int, el: (Vec<u8>, Vec<u8>))
    requires
        0 <= p <= s.len(),
        forall|i: int| 0 <= i < s.len() ==> (#[trigger] s[i]).0@ != el.0@,
    ensures
        kv_map(s.insert(p, el)) == kv_map(s).insert(el.0@, el.1@),
    decreases s.len() - p,
{
    let news = s.insert(p, el);
    if p == s.len() {
        assert(news =~= s.push(el));
        assert(news.drop_last() =~= s);
        assert(kv_map(news) == kv_map(s).insert(el.0@, el.1@));
    } else {
        assert(news.last() == s.last());
        assert(news.drop_last() =~= s.drop_last().insert(p, el));
        assert(forall|i: int|
            0 <= i < s.drop_last().len() ==> (#[trigger] s.drop_last()[i]).0@ != el.0@);
        lemma_kv_map_insert_at(s.drop_last(), p, el);
        assert(kv_map(news) == kv_map(s.drop_last()).insert(el.0@, el.1@).insert(
            s.last().0@,
            s.last().1@,
        ));
        assert(s[s.len() - 1].0@ != el.0@);
        assert(kv_map(news) =~= kv_map(s).insert(el.0@, el.1@));
    }
}

/// Removing the entry at a position is a map remove of its key.
proof fn lemma_kv_map_remove_at(s: Seq<(Vec<u8>, Vec<u8>)>, p: int)
    requires
        unique_keys(s),
        0 <= p < s.len(),
    ensures
        kv_map(s.remove(p)) == kv_map(s).remove(s[p].0@),
    decreases s.len(),
{
    let news = s.remove(p);
    if p == s.len() - 1 {
        assert(news =~= s.drop_last());
        lemma_kv_map_dom(s.drop_last(), s[p].0@);
        assert(forall|i: int|
            0 <= i < s.drop_last().len() ==> (#[trigger] s.drop_last()[i]).0@ != s[p].0@);
        assert(!kv_map(s.drop_last()).contains_key(s[p].0@));
        assert(kv_map(news) =~= kv_map(s).remove(s[p].0@));
    } else {
        assert(unique_keys(s.drop_last())) by {
            assert(forall|x: int|
                0 <= x < s.drop_last().len() ==> #[trigger] s.drop_last()[x] == s[x]);
        }
        lemma_kv_map_remove_at(s.drop_last(), p);
        assert(news.drop_last() =~= s.drop_last().remove(p));
        assert(news.last() == s.last());
        assert(kv_map(news) == kv_map(s.drop_last()).remove(s[p].0@).insert(
            s.last().0@,
            s.last().1@,
        ));
        assert(s[p].0@ != s.last().0@);
        assert(kv_map(news) =~= kv_map(s).remove(s[p].0@));
    }
}

impl KvTree {
    /// All entries whose key starts with `prefix`, in ascending key
    /// order, as copies.
    pub fn scan_prefix(&self, prefix: &Vec<u8>) -> (r: Vec<(Vec<u8>, Vec<u8>)>)
        requires
            self.wf(),
        ensures
            r@.map_values(|e: (Vec<u8>, Vec<u8>)| (e.0@, e.1@)) == self.entries_view().filter(
                |e: (Seq<u8>, Seq<u8>)| has_prefix(e.0, prefix@),
            ),
    {
        let ghost pred = |e: (Seq<u8>, Seq<u8>)| has_prefix(e.0, prefix@);
        let mut out: Vec<(Vec<u8>, Vec<u8>)> = Vec::new();
        let mut i: usize = 0;
        proof {
            assert(self.entries_view().take(0) =~= Seq::<(Seq<u8>, Seq<u8>)>::empty());
            reveal_with_fuel(Seq::filter, 1);
            assert(out@.map_values(|e: (Vec<u8>, Vec<u8>)| (e.0@, e.1@)) =~= self.entries_view()
                .take(0).filter(pred));
        }
        while i < self.entries.len()
            invariant
                0 <= i <= self.entries@.len(),
                out@.map_values(|e: (Vec<u8>, Vec<u8>)| (e.0@, e.1@)) == self.entries_view().take(
                    i as int,
                ).filter(|e: (Seq<u8>, Seq<u8>)| has_prefix(e.0, prefix@)),
            decreases self.entries@.len() - i,
        {
            let ghost pre = self.entries_view().take(i as int);
            let ghost post = self.entries_view().take(i + 1);
            proof {
                reveal_with_fuel(Seq::filter, 2);
                assert(post.drop_last() =~= pre);
                assert(post.last() == self.entries_view()[i as int]);
                assert(self.entries_view()[i as int] == (
                    self.entries@[i as int].0@,
                    self.entries@[i as int].1@,
                ));
            }
            let e = &self.entries[i];
            if is_prefix_of(&e.0, prefix) {
                let ghost before = out@;
                out.push((copy_bytes(&e.0), copy_bytes(&e.1)));
                proof {
                    assert(out@.drop_last() =~= before);
                    assert(out@.map_values(|x: (Vec<u8>, Vec<u8>)| (x.0@, x.1@)) =~= post.filter(
                        |x: (Seq<u8>, Seq<u8>)| has_prefix(x.0, prefix@),
                    ));
                }
            } else {
                proof {
                    assert(out@.map_values(|x: (Vec<u8>, Vec<u8>)| (x.0@, x.1@)) =~= post.filter(
                        |x: (Seq<u8>, Seq<u8>)| has_prefix(x.0, prefix@),
                    ));
                }
            }
            i = i + 1;
        }
        proof {
            assert(self.entries_view().take(self.entries@.len() as int) =~= self.entries_view());
        }
        out
    }
}

/// The eight namespaced trees of the store.
#[derive(Debug, Clone, Copy, PartialEq, Eq)]
pub enum TreeId {
    Blocks,
    Transactions,
    Mempool,
    Accounts,
    ContractCode,
    ContractStorage,
    ChainStateTree,
    TxByBlock,
}

/// One staged write: a put or a delete in a named tree.
pub enum StorageOperation {
    Put(TreeId, Vec<u8>, Vec<u8>),
    Delete(TreeId, Vec<u8>),
}

/// A heterogeneous set of staged writes, applied atomically.
pub struct StorageBatch {
    pub ops: Vec<StorageOperation>,
}

impl StorageBatch {
    /// An empty batch.
    pub fn new() -> (r: Self)
        ensures
            r.ops@.len() == 0,
    {
        StorageBatch { ops: Vec::new() }
    }
}

/// Whether a staged write is a put of the given tree, key and value.
pub open spec fn op_is_put(op: StorageOperation, t: TreeId, k: Seq<u8>, v: Seq<u8>) -> bool {
    match op {
        StorageOperation::Put(t2, k2, v2) => t2 == t && k2@ == k && v2@ == v,
        StorageOperation::Delete(..) => false,
    }
}

/// Whether a staged write is a delete of the given tree and key.
pub open spec fn op_is_delete(op: StorageOperation, t: TreeId, k: Seq<u8>) -> bool {
    match op {
        StorageOperation::Delete(t2, k2) => t2 == t && k2@ == k,
        StorageOperation::Put(..) => false,
    }
}

/// The effect of one staged write on one tree's map.
pub open spec fn apply_op(m: Map<Seq<u8>, Seq<u8>>, t: TreeId, op: StorageOperation) -> Map<
    Seq<u8>,
    Seq<u8>,
> {
    match op {
        StorageOperation::Put(t2, k, v) => if t2 == t {
            m.insert(k@, v@)
        } else {
            m
        },
        StorageOperation::Delete(t2, k) => if t2 == t {
            m.remove(k@)
        } else {
            m
        },
    }
}

/// The effect of a sequence of staged writes on one tree's map.
pub open spec fn tree_after_ops(
    m: Map<Seq<u8>, Seq<u8>>,
    t: TreeId,
    ops: Seq<StorageOperation>,
) -> Map<Seq<u8>, Seq<u8>>
    decreases ops.len(),
{
    if ops.len() == 0 {
        m
    } else {
        tree_after_ops(apply_op(m, t, ops[0]), t, ops.drop_first())
    }
}

/// Applying one more staged write extends the effect by one step.
pub proof fn lemma_tree_after_ops_snoc(
    m: Map<Seq<u8>, Seq<u8>>,
    t: TreeId,
    ops: Seq<StorageOperation>,
    i: int,
)
    requires
        0 <= i < ops.len(),
    ensures
        tree_after_ops(m, t, ops.take(i + 1)) == apply_op(tree_after_ops(m, t, ops.take(i)), t, ops[i]),
    decreases i,
{
    let t1 = ops.take(i + 1);
    if i == 0 {
        assert(t1.drop_first() =~= ops.take(0));
        assert(ops.take(0).len() == 0);
        assert(t1[0] == ops[0]);
        assert(t1.len() == 1);
        assert(tree_after_ops(m, t, t1) == tree_after_ops(apply_op(m, t, t1[0]), t,
            t1.drop_first()));
        assert(tree_after_ops(apply_op(m, t, t1[0]), t, t1.drop_first()) == apply_op(m, t,
            ops[0]));
        assert(tree_after_ops(m, t, ops.take(0)) == m);
    } else {
        lemma_tree_after_ops_snoc(apply_op(m, t, ops[0]), t, ops.drop_first(), i - 1);
        assert(t1.drop_first() =~= ops.drop_first().take(i));
        assert(ops.take(i).drop_first() =~= ops.drop_first().take(i - 1));
        assert(ops.drop_first()[i - 1] == ops[i]);
        assert(t1[0] == ops[0]);
        assert(ops.take(i)[0] == ops[0]);
        assert(tree_after_ops(m, t, t1) == tree_after_ops(
            apply_op(m, t, ops[0]),
            t,
            ops.drop_first().take(i),
        ));
        assert(tree_after_ops(m, t, ops.take(i)) == tree_after_ops(
            apply_op(m, t, ops[0]),
            t,
            ops.drop_first().take(i - 1),
        ));
    }
}

/// The key-value store: eight trees and one atomic write boundary.
/// A simulated failure can be armed for the next batch, to exercise
/// the all-or-nothing commit.
#[derive(Debug, Clone, PartialEq, Eq)]
pub struct KvStore {
    pub blocks: KvTree,
    pub transactions: KvTree,
    pub mempool: KvTree,
    pub accounts: KvTree,
    pub contract_code: KvTree,
    pub contract_storage: KvTree,
    pub chain_state: KvTree,
    pub tx_by_block: KvTree,
    pub fail_next_batch: bool,
}

impl KvStore {
    /// The map one tree denotes.
    pub open spec fn tree_map(self, t: TreeId) -> Map<Seq<u8>, Seq<u8>> {
        match t {
            TreeId::Blocks => self.blocks@,
            TreeId::Transactions => self.transactions@,
            TreeId::Mempool => self.mempool@,
            TreeId::Accounts => self.accounts@,
            TreeId::ContractCode => self.contract_code@,
            TreeId::ContractStorage => self.contract_storage@,
            TreeId::ChainStateTree => self.chain_state@,
            TreeId::TxByBlock => self.tx_by_block@,
        }
    }

    /// All eight trees are well formed.
    pub open spec fn wf(self) -> bool {
        &&& self.blocks.wf()
        &&& self.transactions.wf()
        &&& self.mempool.wf()
        &&& self.accounts.wf()
        &&& self.contract_code.wf()
        &&& self.contract_storage.wf()
        &&& self.chain_state.wf()
        &&& self.tx_by_block.wf()
    }

    /// Two stores hold the same contents in every tree.
    pub open spec fn same_trees(a: KvStore, b: KvStore) -> bool {
        forall|t: TreeId| #[trigger] a.tree_map(t) == b.tree_map(t)
    }

    /// A fresh store: every tree empty, no failure armed.
    pub fn new() -> (r: Self)
        ensures
            r.wf(),
            forall|t: TreeId| #[trigger] r.tree_map(t) == Map::<Seq<u8>, Seq<u8>>::empty(),
            !r.fail_next_batch,
    {
        KvStore {
            blocks: KvTree::new(),
            transactions: KvTree::new(),
            mempool: KvTree::new(),
            accounts: KvTree::new(),
            contract_code: KvTree::new(),
            contract_storage: KvTree::new(),
            chain_state: KvTree::new(),
            tx_by_block: KvTree::new(),
            fail_next_batch: false,
        }
    }

    /// Arm a simulated failure: the next batch will be refused and
    /// leave every tree unchanged.
    pub fn arm_failure(&mut self)
        ensures
            final(self).fail_next_batch,
            KvStore::same_trees(*final(self), *old(self)),
            final(self).wf() == old(self).wf(),
    {
        self.fail_next_batch = true;
    }

    /// Read one key of one tree.
    pub fn get(&self, t: TreeId, key: &Vec<u8>) -> (r: Option<Vec<u8>>)
        requires
            self.wf(),
        ensures
            r is Some <==> self.tree_map(t).contains_key(key@),
            r matches Some(v) ==> self.tree_map(t).contains_key(key@) && v@ == self.tree_map(
                t,
            ).index(key@),
    {
        match t {
            TreeId::Blocks => self.blocks.get(key),
            TreeId::Transactions => self.transactions.get(key),
            TreeId::Mempool => self.mempool.get(key),
            TreeId::Accounts => self.accounts.get(key),
            TreeId::ContractCode => self.contract_code.get(key),
            TreeId::ContractStorage => self.contract_storage.get(key),
            TreeId::ChainStateTree => self.chain_state.get(key),
            TreeId::TxByBlock => self.tx_by_block.get(key),
        }
    }

    /// Write one key of one tree, outside any batch.
    pub fn put(&mut self, t: TreeId, key: Vec<u8>, value: Vec<u8>)
        requires
            old(self).wf(),
        ensures
            final(self).wf(),
            final(self).tree_map(t) == old(self).tree_map(t).insert(key@, value@),
            forall|t2: TreeId| t2 != t ==> #[trigger] final(self).tree_map(t2) == old(
                self,
            ).tree_map(t2),
            final(self).fail_next_batch == old(self).fail_next_batch,
    {
        match t {
            TreeId::Blocks => self.blocks.put(key, value),
            TreeId::Transactions => self.transactions.put(key, value),
            TreeId::Mempool => self.mempool.put(key, value),
            TreeId::Accounts => self.accounts.put(key, value),
            TreeId::ContractCode => self.contract_code.put(key, value),
            TreeId::ContractStorage => self.contract_storage.put(key, value),
            TreeId::ChainStateTree => self.chain_state.put(key, value),
            TreeId::TxByBlock => self.tx_by_block.put(key, value),
        }
    }

    /// Delete one key of one tree, outside any batch.
    pub fn delete(&mut self, t: TreeId, key: &Vec<u8>)
        requires
            old(self).wf(),
        ensures
            final(self).wf(),
            final(self).tree_map(t) == old(self).tree_map(t).remove(key@),
            forall|t2: TreeId| t2 != t ==> #[trigger] final(self).tree_map(t2) == old(
                self,
            ).tree_map(t2),
            final(self).fail_next_batch == old(self).fail_next_batch,
    {
        match t {
            TreeId::Blocks => self.blocks.delete(key),
            TreeId::Transactions => self.transactions.delete(key),
            TreeId::Mempool => self.mempool.delete(key),
            TreeId::Accounts => self.accounts.delete(key),
            TreeId::ContractCode => self.contract_code.delete(key),
            TreeId::ContractStorage => self.contract_storage.delete(key),
            TreeId::ChainStateTree => self.chain_state.delete(key),
            TreeId::TxByBlock => self.tx_by_block.delete(key),
        }
    }

    /// Scan one tree for keys starting with a prefix, in ascending key
    /// order.
    pub fn scan_prefix(&self, t: TreeId, prefix: &Vec<u8>) -> (r: Vec<(Vec<u8>, Vec<u8>)>)
        requires
            self.wf(),
        ensures
            r@.map_values(|e: (Vec<u8>, Vec<u8>)| (e.0@, e.1@)) == self.tree_entries(t).filter(
                |e: (Seq<u8>, Seq<u8>)| has_prefix(e.0, prefix@),
            ),
    {
        match t {
            TreeId::Blocks => self.blocks.scan_prefix(prefix),
            TreeId::Transactions => self.transactions.scan_prefix(prefix),
            TreeId::Mempool => self.mempool.scan_prefix(prefix),
            TreeId::Accounts => self.accounts.scan_prefix(prefix),
            TreeId::ContractCode => self.contract_code.scan_prefix(prefix),
            TreeId::ContractStorage => self.contract_storage.scan_prefix(prefix),
            TreeId::ChainStateTree => self.chain_state.scan_prefix(prefix),
            TreeId::TxByBlock => self.tx_by_block.scan_prefix(prefix),
        }
    }

    /// The ordered entries of one tree, as view pairs.
    pub open spec fn tree_entries(self, t: TreeId) -> Seq<(Seq<u8>, Seq<u8>)> {
        match t {
            TreeId::Blocks => self.blocks.entries_view(),
            TreeId::Transactions => self.transactions.entries_view(),
            TreeId::Mempool => self.mempool.entries_view(),
            TreeId::Accounts => self.accounts.entries_view(),
            TreeId::ContractCode => self.contract_code.entries_view(),
            TreeId::ContractStorage => self.contract_storage.entries_view(),
            TreeId::ChainStateTree => self.chain_state.entries_view(),
            TreeId::TxByBlock => self.tx_by_block.entries_view(),
        }
    }

    /// Apply a batch of writes atomically: all of them, or — when a
    /// simulated failure is armed — none.
    pub fn apply_batch(&mut self, batch: StorageBatch) -> (r: Result<(), StorageError>)
        requires
            old(self).wf(),
        ensures
            final(self).wf(),
            !final(self).fail_next_batch,
            old(self).fail_next_batch ==> r == Err::<(), StorageError>(
                StorageError::DatabaseError,
            ) && KvStore::same_trees(*final(self), *old(self)),
            !old(self).fail_next_batch ==> r is Ok && forall|t: TreeId|
                #[trigger] final(self).tree_map(t) == tree_after_ops(
                    old(self).tree_map(t),
                    t,
                    batch.ops@,
                ),
    {
        if self.fail_next_batch {
            self.fail_next_batch = false;
            assert(KvStore::same_trees(*self, *old(self)));
            return Err(StorageError::DatabaseError);
        }
        let ops = batch.ops;
        let mut i: usize = 0;
        proof {
            assert(forall|t: TreeId| #[trigger] self.tree_map(t) == tree_after_ops(
                old(self).tree_map(t),
                t,
                ops@.take(0),
            ));
        }
        while i < ops.len()
            invariant
                0 <= i <= ops@.len(),
                self.wf(),
                !self.fail_next_batch,
                forall|t: TreeId| #[trigger] self.tree_map(t) == tree_after_ops(
                    old(self).tree_map(t),
                    t,
                    ops@.take(i as int),
                ),
            decreases ops@.len() - i,
        {
            let ghost prev = *self;
            match &ops[i] {
                StorageOperation::Put(t, k, v) => {
                    let key = copy_bytes(k);
                    let value = copy_bytes(v);
                    self.put(*t, key, value);
                },
                StorageOperation::Delete(t, k) => {
                    self.delete(*t, k);
                },
            }
            proof {
                assert forall|t: TreeId| #[trigger] self.tree_map(t) == tree_after_ops(
                    old(self).tree_map(t),
                    t,
                    ops@.take(i + 1),
                ) by {
                    lemma_tree_after_ops_snoc(old(self).tree_map(t), t, ops@, i as int);
                    assert(self.tree_map(t) == apply_op(prev.tree_map(t), t, ops@[i as int]));
                }
            }
            i = i + 1;
        }
        proof {
            assert(ops@.take(ops@.len() as int) =~= ops@);
        }
        Ok(())
    }
}

impl KvStore {
    /// Store a block under its hash key and its height key.
    pub fn put_block(&mut self, block: &Block)
        requires
            old(self).wf(),
        ensures
            final(self).wf(),
            final(self).tree_map(TreeId::Blocks) == old(self).tree_map(TreeId::Blocks).insert(
                block.hash@,
                enc_block(*block),
            ).insert(height_key_spec(block.index), enc_block(*block)),
            forall|t2: TreeId| t2 != TreeId::Blocks ==> #[trigger] final(self).tree_map(t2)
                == old(self).tree_map(t2),
            final(self).fail_next_batch == old(self).fail_next_batch,
    {
        let encoded = encode_block(block);
        let encoded2 = copy_bytes(&encoded);
        self.put(TreeId::Blocks, hash_key(&block.hash), encoded);
        self.put(TreeId::Blocks, height_key(block.index), encoded2);
    }

    /// Retrieve a block by its hash.
    pub fn get_block(&self, hash: &[u8; 32]) -> (r: Result<Option<Block>, StorageError>)
        requires
            self.wf(),
        ensures
            r == Ok::<Option<Block>, StorageError>(Option::None) <==> !self.tree_map(
                TreeId::Blocks,
            ).contains_key(hash@),
            r matches Ok(Some(b)) ==> self.tree_map(TreeId::Blocks).contains_key(hash@)
                && self.tree_map(TreeId::Blocks).index(hash@) == enc_block(b)
                && block_full_parsed(self.tree_map(TreeId::Blocks).index(hash@), b),
            r is Err <==> self.tree_map(TreeId::Blocks).contains_key(hash@) && no_block_full(
                self.tree_map(TreeId::Blocks).index(hash@),
            ),
    {
        let key = hash_key(hash);
        match self.get(TreeId::Blocks, &key) {
            Option::None => Ok(None),
            Option::Some(encoded) => {
                match decode_block(&encoded) {
                    Option::Some(b) => Ok(Some(b)),
                    Option::None => Err(StorageError::SerializationError),
                }
            },
        }
    }

    /// Retrieve a block by its height.
    pub fn get_block_by_height(&self, height: u64) -> (r: Result<Option<Block>, StorageError>)
        requires
            self.wf(),
        ensures
            r == Ok::<Option<Block>, StorageError>(Option::None) <==> !self.tree_map(
                TreeId::Blocks,
            ).contains_key(height_key_spec(height)),
            r matches Ok(Some(b)) ==> self.tree_map(TreeId::Blocks).contains_key(
                height_key_spec(height),
            ) && self.tree_map(TreeId::Blocks).index(height_key_spec(height)) == enc_block(b)
                && block_full_parsed(
                self.tree_map(TreeId::Blocks).index(height_key_spec(height)),
                b,
            ),
            r is Err <==> self.tree_map(TreeId::Blocks).contains_key(height_key_spec(height))
                && no_block_full(self.tree_map(TreeId::Blocks).index(height_key_spec(height))),
    {
        let key = height_key(height);
        match self.get(TreeId::Blocks, &key) {
            Option::None => Ok(None),
            Option::Some(encoded) => {
                match decode_block(&encoded) {
                    Option::Some(b) => Ok(Some(b)),
                    Option::None => Err(StorageError::SerializationError),
                }
            },
        }
    }

    /// Store a transaction under its hash.
    pub fn put_transaction(&mut self, tx: &Transaction)
        requires
            old(self).wf(),
        ensures
            final(self).wf(),
            final(self).tree_map(TreeId::Transactions) == old(self).tree_map(
                TreeId::Transactions,
            ).insert(tx.hash@, enc_tx(*tx)),
            forall|t2: TreeId| t2 != TreeId::Transactions ==> #[trigger] final(self).tree_map(t2)
                == old(self).tree_map(t2),
            final(self).fail_next_batch == old(self).fail_next_batch,
    {
        let encoded = tx_to_bytes(tx);
        self.put(TreeId::Transactions, hash_key(&tx.hash), encoded);
    }

    /// Retrieve a transaction by its hash.
    pub fn get_transaction(&self, tx_hash: &[u8; 32]) -> (r: Result<
        Option<Transaction>,
        StorageError,
    >)
        requires
            self.wf(),
        ensures
            r == Ok::<Option<Transaction>, StorageError>(Option::None) <==> !self.tree_map(
                TreeId::Transactions,
            ).contains_key(tx_hash@),
            r matches Ok(Some(t)) ==> self.tree_map(TreeId::Transactions).contains_key(tx_hash@)
                && self.tree_map(TreeId::Transactions).index(tx_hash@) == enc_tx(t) && (
            forall|t0: Transaction|
                self.tree_map(TreeId::Transactions).index(tx_hash@) == enc_tx(t0) ==> tx_eqv(
                    t,
                    t0,
                )),
            r is Err <==> self.tree_map(TreeId::Transactions).contains_key(tx_hash@) && (
            forall|t0: Transaction|
                self.tree_map(TreeId::Transactions).index(tx_hash@) != #[trigger] enc_tx(t0)),
    {
        let key = hash_key(tx_hash);
        match self.get(TreeId::Transactions, &key) {
            Option::None => Ok(None),
            Option::Some(encoded) => {
                match decode_tx(&encoded) {
                    Option::Some(t) => Ok(Some(t)),
                    Option::None => Err(StorageError::SerializationError),
                }
            },
        }
    }

    /// Retrieve a transaction by its identifier.
    pub fn get_transaction_by_id(&self, tx_hash: &[u8; 32]) -> (r: Result<
        Option<Transaction>,
        StorageError,
    >)
        requires
            self.wf(),
        ensures
            r == Ok::<Option<Transaction>, StorageError>(Option::None) <==> !self.tree_map(
                TreeId::Transactions,
            ).contains_key(tx_hash@),
            r matches Ok(Some(t)) ==> self.tree_map(TreeId::Transactions).contains_key(tx_hash@)
                && self.tree_map(TreeId::Transactions).index(tx_hash@) == enc_tx(t),
            r is Err <==> self.tree_map(TreeId::Transactions).contains_key(tx_hash@) && (
            forall|t0: Transaction|
                self.tree_map(TreeId::Transactions).index(tx_hash@) != #[trigger] enc_tx(t0)),
    {
        self.get_transaction(tx_hash)
    }

    /// Remove a pending transaction from the mempool tree.
    pub fn remove_pending_transaction(&mut self, tx_hash: &[u8; 32])
        requires
            old(self).wf(),
        ensures
            final(self).wf(),
            final(self).tree_map(TreeId::Mempool) == old(self).tree_map(TreeId::Mempool).remove(
                tx_hash@,
            ),
            forall|t2: TreeId| t2 != TreeId::Mempool ==> #[trigger] final(self).tree_map(t2)
                == old(self).tree_map(t2),
            final(self).fail_next_batch == old(self).fail_next_batch,
    {
        let key = hash_key(tx_hash);
        self.delete(TreeId::Mempool, &key);
    }

    /// Index one transaction of one block for fast per-block lookup.
    pub fn index_transaction(&mut self, tx_hash: &[u8; 32], block_hash: &[u8; 32], i: u32)
        requires
            old(self).wf(),
        ensures
            final(self).wf(),
            final(self).tree_map(TreeId::TxByBlock) == old(self).tree_map(
                TreeId::TxByBlock,
            ).insert(block_tx_key_spec(block_hash@, tx_hash@, i as u64), tx_hash@),
            forall|t2: TreeId| t2 != TreeId::TxByBlock ==> #[trigger] final(self).tree_map(t2)
                == old(self).tree_map(t2),
            final(self).fail_next_batch == old(self).fail_next_batch,
    {
        let key = block_tx_key(block_hash, tx_hash, i as u64);
        self.put(TreeId::TxByBlock, key, hash_key(tx_hash));
    }

    /// Store an account's record under its key bytes.
    pub fn put_account(&mut self, address: &PublicKey, account: &Account)
        requires
            old(self).wf(),
        ensures
            final(self).wf(),
            final(self).tree_map(TreeId::Accounts) == old(self).tree_map(TreeId::Accounts).insert(
                address.bytes@,
                enc_account(*account),
            ),
            forall|t2: TreeId| t2 != TreeId::Accounts ==> #[trigger] final(self).tree_map(t2)
                == old(self).tree_map(t2),
            final(self).fail_next_batch == old(self).fail_next_batch,
    {
        let encoded = encode_account(account);
        self.put(TreeId::Accounts, hash_key(&address.bytes), encoded);
    }

    /// Retrieve an account's record.
    pub fn get_account(&self, address: &PublicKey) -> (r: Result<Option<Account>, StorageError>)
        requires
            self.wf(),
        ensures
            r == Ok::<Option<Account>, StorageError>(Option::None) <==> !self.tree_map(
                TreeId::Accounts,
            ).contains_key(address.bytes@),
            r matches Ok(Some(a)) ==> self.tree_map(TreeId::Accounts).contains_key(address.bytes@)
                && self.tree_map(TreeId::Accounts).index(address.bytes@) == enc_account(a) && (
            forall|a0: Account|
                self.tree_map(TreeId::Accounts).index(address.bytes@) == enc_account(a0) ==> a0
                    == a),
            r is Err <==> self.tree_map(TreeId::Accounts).contains_key(address.bytes@) && (
            forall|a0: Account|
                self.tree_map(TreeId::Accounts).index(address.bytes@) != #[trigger] enc_account(
                    a0,
                )),
    {
        let key = hash_key(&address.bytes);
        match self.get(TreeId::Accounts, &key) {
            Option::None => Ok(None),
            Option::Some(encoded) => {
                match decode_account(&encoded) {
                    Option::Some(a) => Ok(Some(a)),
                    Option::None => Err(StorageError::SerializationError),
                }
            },
        }
    }

    /// Delete an account's record.
    pub fn delete_account(&mut self, address: &PublicKey)
        requires
            old(self).wf(),
        ensures
            final(self).wf(),
            final(self).tree_map(TreeId::Accounts) == old(self).tree_map(TreeId::Accounts).remove(
                address.bytes@,
            ),
            forall|t2: TreeId| t2 != TreeId::Accounts ==> #[trigger] final(self).tree_map(t2)
                == old(self).tree_map(t2),
            final(self).fail_next_batch == old(self).fail_next_batch,
    {
        let key = hash_key(&address.bytes);
        self.delete(TreeId::Accounts, &key);
    }

    /// Store the chain-state summary under its fixed key.
    pub fn put_chain_state(&mut self, state: &ChainState)
        requires
            old(self).wf(),
        ensures
            final(self).wf(),
            final(self).tree_map(TreeId::ChainStateTree) == old(self).tree_map(
                TreeId::ChainStateTree,
            ).insert(chain_state_key_spec(), enc_chain_state(*state)),
            forall|t2: TreeId| t2 != TreeId::ChainStateTree ==> #[trigger] final(self).tree_map(
                t2,
            ) == old(self).tree_map(t2),
            final(self).fail_next_batch == old(self).fail_next_batch,
    {
        let encoded = encode_chain_state(state);
        self.put(TreeId::ChainStateTree, chain_state_key(), encoded);
    }

    /// Retrieve the chain-state summary.
    pub fn get_chain_state(&self) -> (r: Result<Option<ChainState>, StorageError>)
        requires
            self.wf(),
        ensures
            r == Ok::<Option<ChainState>, StorageError>(Option::None) <==> !self.tree_map(
                TreeId::ChainStateTree,
            ).contains_key(chain_state_key_spec()),
            r matches Ok(Some(c)) ==> self.tree_map(TreeId::ChainStateTree).contains_key(
                chain_state_key_spec(),
            ) && self.tree_map(TreeId::ChainStateTree).index(chain_state_key_spec())
                == enc_chain_state(c) && (forall|c0: ChainState|
                self.tree_map(TreeId::ChainStateTree).index(chain_state_key_spec())
                    == enc_chain_state(c0) ==> c0 == c),
            r is Err <==> self.tree_map(TreeId::ChainStateTree).contains_key(
                chain_state_key_spec(),
            ) && (forall|c0: ChainState|
                self.tree_map(TreeId::ChainStateTree).index(chain_state_key_spec()) != #[trigger]
                enc_chain_state(c0)),
    {
        let key = chain_state_key();
        match self.get(TreeId::ChainStateTree, &key) {
            Option::None => Ok(None),
            Option::Some(encoded) => {
                match decode_chain_state(&encoded) {
                    Option::Some(c) => Ok(Some(c)),
                    Option::None => Err(StorageError::SerializationError),
                }
            },
        }
    }

    /// Store a contract's code under its identifier.
    pub fn put_contract_code(&mut self, contract_id: &ContractId, wasm_bytes: &Vec<u8>)
        requires
            old(self).wf(),
        ensures
            final(self).wf(),
            final(self).tree_map(TreeId::ContractCode) == old(self).tree_map(
                TreeId::ContractCode,
            ).insert(contract_id.id@, wasm_bytes@),
            forall|t2: TreeId| t2 != TreeId::ContractCode ==> #[trigger] final(self).tree_map(t2)
                == old(self).tree_map(t2),
            final(self).fail_next_batch == old(self).fail_next_batch,
    {
        self.put(TreeId::ContractCode, hash_key(&contract_id.id), copy_bytes(wasm_bytes));
    }

    /// Retrieve a contract's code.
    pub fn get_contract_code(&self, contract_id: &ContractId) -> (r: Result<
        Option<Vec<u8>>,
        StorageError,
    >)
        requires
            self.wf(),
        ensures
            r matches Ok(Some(v)) ==> self.tree_map(TreeId::ContractCode).contains_key(
                contract_id.id@,
            ) && v@ == self.tree_map(TreeId::ContractCode).index(contract_id.id@),
            r matches Ok(None) <==> !self.tree_map(TreeId::ContractCode).contains_key(
                contract_id.id@,
            ),
            r is Ok,
    {
        let key = hash_key(&contract_id.id);
        match self.get(TreeId::ContractCode, &key) {
            Option::None => Ok(None),
            Option::Some(v) => Ok(Some(v)),
        }
    }

    /// Read one contract-storage cell.
    pub fn contract_storage_read(&self, contract_id: &ContractId, key: &Vec<u8>) -> (r: Result<
        Option<Vec<u8>>,
        StorageError,
    >)
        requires
            self.wf(),
        ensures
            r matches Ok(Some(v)) ==> self.tree_map(TreeId::ContractStorage).contains_key(
                contract_state_key_spec(contract_id.id@, key@),
            ) && v@ == self.tree_map(TreeId::ContractStorage).index(
                contract_state_key_spec(contract_id.id@, key@),
            ),
            r matches Ok(None) <==> !self.tree_map(TreeId::ContractStorage).contains_key(
                contract_state_key_spec(contract_id.id@, key@),
            ),
            r is Ok,
    {
        let full_key = contract_state_key(&contract_id.id, key);
        match self.get(TreeId::ContractStorage, &full_key) {
            Option::None => Ok(None),
            Option::Some(v) => Ok(Some(v)),
        }
    }

    /// Write one contract-storage cell.
    pub fn contract_storage_write(&mut self, contract_id: &ContractId, key: &Vec<u8>, value: &Vec<u8>)
        requires
            old(self).wf(),
        ensures
            final(self).wf(),
            final(self).tree_map(TreeId::ContractStorage) == old(self).tree_map(
                TreeId::ContractStorage,
            ).insert(contract_state_key_spec(contract_id.id@, key@), value@),
            forall|t2: TreeId| t2 != TreeId::ContractStorage ==> #[trigger] final(self).tree_map(
                t2,
            ) == old(self).tree_map(t2),
            final(self).fail_next_batch == old(self).fail_next_batch,
    {
        let full_key = contract_state_key(&contract_id.id, key);
        self.put(TreeId::ContractStorage, full_key, copy_bytes(value));
    }

    /// Remove one contract-storage cell.
    pub fn contract_storage_remove(&mut self, contract_id: &ContractId, key: &Vec<u8>)
        requires
            old(self).wf(),
        ensures
            final(self).wf(),
            final(self).tree_map(TreeId::ContractStorage) == old(self).tree_map(
                TreeId::ContractStorage,
            ).remove(contract_state_key_spec(contract_id.id@, key@)),
            forall|t2: TreeId| t2 != TreeId::ContractStorage ==> #[trigger] final(self).tree_map(
                t2,
            ) == old(self).tree_map(t2),
            final(self).fail_next_batch == old(self).fail_next_batch,
    {
        let full_key = contract_state_key(&contract_id.id, key);
        self.delete(TreeId::ContractStorage, &full_key);
    }
}

/// Appending one staged write extends the effect by one step.
pub proof fn lemma_tree_after_ops_push(
    m: Map<Seq<u8>, Seq<u8>>,
    t: TreeId,
    ops: Seq<StorageOperation>,
    op: StorageOperation,
)
    ensures
        tree_after_ops(m, t, ops.push(op)) == apply_op(tree_after_ops(m, t, ops), t, op),
    decreases ops.len(),
{
    if ops.len() == 0 {
        assert(ops.push(op)[0] == op);
        assert(ops.push(op).drop_first() =~= Seq::<StorageOperation>::empty());
        assert(tree_after_ops(m, t, ops.push(op)) == tree_after_ops(
            apply_op(m, t, op),
            t,
            ops.push(op).drop_first(),
        ));
    } else {
        assert(ops.push(op)[0] == ops[0]);
        assert(ops.push(op).drop_first() =~= ops.drop_first().push(op));
        lemma_tree_after_ops_push(apply_op(m, t, ops[0]), t, ops.drop_first(), op);
    }
}

/// A put affects only its own tree, as a map insert.
pub proof fn lemma_apply_op_put(
    m: Map<Seq<u8>, Seq<u8>>,
    t: TreeId,
    op: StorageOperation,
    t0: TreeId,
    k: Seq<u8>,
    v: Seq<u8>,
)
    requires
        op_is_put(op, t0, k, v),
    ensures
        t == t0 ==> apply_op(m, t, op) == m.insert(k, v),
        t != t0 ==> apply_op(m, t, op) == m,
{
}

impl KvStore {
    /// Whether some mempool entry's value is not a transaction
    /// encoding.
    pub open spec fn mempool_has_undecodable(self) -> bool {
        exists|j: int|
            #![trigger self.tree_entries(TreeId::Mempool)[j]]
            0 <= j < self.tree_entries(TreeId::Mempool).len() && (forall|t: Transaction|
                self.tree_entries(TreeId::Mempool)[j].1 != #[trigger] enc_tx(t))
    }

    /// All pending transactions in the mempool tree, decoded, in key
    /// order. A stored value that is not a transaction encoding is a
    /// serialization error.
    pub fn get_pending_transactions(&self) -> (r: Result<Vec<Transaction>, StorageError>)
        requires
            self.wf(),
        ensures
            r matches Ok(v) ==> v@.len() == self.tree_entries(TreeId::Mempool).len() && (
            forall|j: int|
                0 <= j < v@.len() ==> enc_tx(#[trigger] v@[j]) == self.tree_entries(
                    TreeId::Mempool,
                )[j].1),
            r is Err <==> self.mempool_has_undecodable(),
    {
        let entries = &self.mempool.entries;
        let mut out: Vec<Transaction> = Vec::new();
        let mut i: usize = 0;
        while i < entries.len()
            invariant
                0 <= i <= entries@.len(),
                self.tree_entries(TreeId::Mempool) == self.mempool.entries_view(),
                entries == self.mempool.entries,
                out@.len() == i,
                forall|j: int|
                    0 <= j < i ==> enc_tx(#[trigger] out@[j]) == self.mempool.entries_view()[j].1,
            decreases entries@.len() - i,
        {
            proof {
                assert(self.mempool.entries_view()[i as int].1 == entries@[i as int].1@);
            }
            match decode_tx(&entries[i].1) {
                Option::Some(t) => {
                    out.push(t);
                },
                Option::None => {
                    proof {
                        assert(forall|t: Transaction|
                            self.tree_entries(TreeId::Mempool)[i as int].1 != #[trigger] enc_tx(
                                t,
                            ));
                        assert(self.mempool_has_undecodable());
                    }
                    return Err(StorageError::SerializationError);
                },
            }
            i = i + 1;
        }
        proof {
            if self.mempool_has_undecodable() {
                let j = choose|j: int|
                    #![trigger self.tree_entries(TreeId::Mempool)[j]]
                    0 <= j < self.tree_entries(TreeId::Mempool).len() && (forall|t: Transaction|
                        self.tree_entries(TreeId::Mempool)[j].1 != #[trigger] enc_tx(t));
                assert(enc_tx(out@[j]) == self.tree_entries(TreeId::Mempool)[j].1);
                assert(false);
            }
        }
        Ok(out)
    }

    /// Whether some per-block index entry with this block's prefix
    /// references a stored transaction whose bytes are not a
    /// transaction encoding.
    pub open spec fn block_index_has_undecodable(self, block_hash: Seq<u8>) -> bool {
        exists|j: int|
            #![trigger self.tree_entries(TreeId::TxByBlock)[j]]
            0 <= j < self.tree_entries(TreeId::TxByBlock).len() && has_prefix(
                self.tree_entries(TreeId::TxByBlock)[j].0,
                block_tx_scan_prefix_spec(block_hash),
            ) && self.tree_map(TreeId::Transactions).contains_key(
                self.tree_entries(TreeId::TxByBlock)[j].1,
            ) && (forall|t: Transaction|
                self.tree_map(TreeId::Transactions).index(
                    self.tree_entries(TreeId::TxByBlock)[j].1,
                ) != #[trigger] enc_tx(t))
    }

    /// The transactions of one block, found through the per-block
    /// index: every index entry with the block's prefix whose stored
    /// transaction exists, decoded, in index order. A stored value
    /// that is not a transaction encoding is a serialization error.
    #[verifier::rlimit(100)]
    #[verifier::spinoff_prover]
    pub fn get_transactions_by_block(&self, block_hash: &[u8; 32]) -> (r: Result<
        Vec<Transaction>,
        StorageError,
    >)
        requires
            self.wf(),
        ensures
            r matches Ok(v) ==> {
                let present = self.tree_entries(TreeId::TxByBlock).filter(
                    |e: (Seq<u8>, Seq<u8>)| has_prefix(e.0, block_tx_scan_prefix_spec(block_hash@))
                        && self.tree_map(TreeId::Transactions).contains_key(e.1),
                );
                v@.len() == present.len() && (forall|j: int|
                    0 <= j < v@.len() ==> enc_tx(#[trigger] v@[j]) == self.tree_map(
                        TreeId::Transactions,
                    ).index(present[j].1))
            },
            r is Err <==> self.block_index_has_undecodable(block_hash@),
            r is Err ==> r == Err::<Vec<Transaction>, StorageError>(
                StorageError::SerializationError,
            ),
    {
        let prefix = block_tx_scan_prefix(block_hash);
        let entries = &self.tx_by_block.entries;
        let mut out: Vec<Transaction> = Vec::new();
        let mut i: usize = 0;
        proof {
            reveal_with_fuel(Seq::filter, 1);
            assert(self.tx_by_block.entries_view().take(0).filter(
                |e: (Seq<u8>, Seq<u8>)| has_prefix(e.0, block_tx_scan_prefix_spec(block_hash@))
                    && self.tree_map(TreeId::Transactions).contains_key(e.1),
            ) =~= Seq::<(Seq<u8>, Seq<u8>)>::empty());
        }
        while i < entries.len()
            invariant
                0 <= i <= entries@.len(),
                entries == self.tx_by_block.entries,
                prefix@ == block_tx_scan_prefix_spec(block_hash@),
                self.wf(),
                ({
                    let present = self.tx_by_block.entries_view().take(i as int).filter(
                        |e: (Seq<u8>, Seq<u8>)| has_prefix(
                            e.0,
                            block_tx_scan_prefix_spec(block_hash@),
                        ) && self.tree_map(TreeId::Transactions).contains_key(e.1),
                    );
                    out@.len() == present.len() && (forall|j: int|
                        0 <= j < out@.len() ==> enc_tx(#[trigger] out@[j]) == self.tree_map(
                            TreeId::Transactions,
                        ).index(present[j].1))
                }),
            decreases entries@.len() - i,
        {
            let ghost pre = self.tx_by_block.entries_view().take(i as int);
            let ghost post = self.tx_by_block.entries_view().take(i + 1);
            proof {
                reveal_with_fuel(Seq::filter, 2);
                assert(post.drop_last() =~= pre);
                assert(post.last() == self.tx_by_block.entries_view()[i as int]);
                assert(self.tx_by_block.entries_view()[i as int] == (
                    entries@[i as int].0@,
                    entries@[i as int].1@,
                ));
            }
            let e = &entries[i];
            if is_prefix_of(&e.0, &prefix) {
                match self.get(TreeId::Transactions, &e.1) {
                    Option::Some(encoded) => {
                        match decode_tx(&encoded) {
                            Option::Some(t) => {
                                out.push(t);
                            },
                            Option::None => {
                                proof {
                                    assert(self.tree_entries(TreeId::TxByBlock)[i as int] == (
                                        entries@[i as int].0@,
                                        entries@[i as int].1@,
                                    ));
                                    assert(forall|t: Transaction|
                                        self.tree_map(TreeId::Transactions).index(
                                            self.tree_entries(TreeId::TxByBlock)[i as int].1,
                                        ) != #[trigger] enc_tx(t));
                                    assert(self.block_index_has_undecodable(block_hash@));
                                }
                                return Err(StorageError::SerializationError);
                            },
                        }
                    },
                    Option::None => {},
                }
            }
            i = i + 1;
        }
        proof {
            assert(self.tx_by_block.entries_view().take(entries@.len() as int)
                =~= self.tx_by_block.entries_view());
            if self.block_index_has_undecodable(block_hash@) {
                let s = self.tree_entries(TreeId::TxByBlock);
                let j = choose|j: int|
                    #![trigger self.tree_entries(TreeId::TxByBlock)[j]]
                    0 <= j < s.len() && has_prefix(
                        s[j].0,
                        block_tx_scan_prefix_spec(block_hash@),
                    ) && self.tree_map(TreeId::Transactions).contains_key(s[j].1) && (
                    forall|t: Transaction|
                        self.tree_map(TreeId::Transactions).index(s[j].1) != #[trigger] enc_tx(
                            t,
                        ));
                s.filter_lemma(
                    |e: (Seq<u8>, Seq<u8>)| has_prefix(e.0, block_tx_scan_prefix_spec(block_hash@))
                        && self.tree_map(TreeId::Transactions).contains_key(e.1),
                );
                let present = s.filter(
                    |e: (Seq<u8>, Seq<u8>)| has_prefix(e.0, block_tx_scan_prefix_spec(block_hash@))
                        && self.tree_map(TreeId::Transactions).contains_key(e.1),
                );
                assert(present.contains(s[j]));
                let k = choose|k: int| 0 <= k < present.len() && present[k] == s[j];
                assert(enc_tx(out@[k]) == self.tree_map(TreeId::Transactions).index(
                    present[k].1,
                ));
                assert(false);
            }
        }
        Ok(out)
    }
}

impl KvStore {
    /// The entries of the blocks tree whose keys carry the `height:`
    /// prefix, in ascending key order.
    pub open spec fn height_entries(self) -> Seq<(Seq<u8>, Seq<u8>)> {
        height_entries_of(self.tree_entries(TreeId::Blocks))
    }

    /// The latest block of the height index: the last entry of the
    /// `height:` prefix range, decoded. Zero-padded decimal height
    /// keys order lexicographically as the heights order numerically
    /// ([`lemma_height_key_order`]), so for a store whose prefixed
    /// entries are height entries this is the maximum-height block.
    #[verifier::rlimit(100)]
    #[verifier::spinoff_prover]
    pub fn get_latest_block(&self) -> (r: Result<Option<Block>, StorageError>)
        requires
            self.wf(),
        ensures
            r == Ok::<Option<Block>, StorageError>(Option::None) <==> self.height_entries().len()
                == 0,
            r matches Ok(Some(b)) ==> self.height_entries().len() > 0
                && self.height_entries().last().1 == enc_block(b) && block_full_parsed(
                self.height_entries().last().1,
                b,
            ),
            r is Err <==> self.height_entries().len() > 0 && no_block_full(
                self.height_entries().last().1,
            ),
            r is Err ==> r == Err::<Option<Block>, StorageError>(
                StorageError::SerializationError,
            ),
            forall|h: u64|
                self.tree_map(TreeId::Blocks).contains_key(#[trigger] height_key_spec(h))
                    ==> self.height_entries().len() > 0 && (height_key_spec(h)
                    == self.height_entries().last().0 || lex_lt(
                    height_key_spec(h),
                    self.height_entries().last().0,
                )),
    {
        let entries = &self.blocks.entries;
        let prefix = height_prefix_bytes();
        let mut last_key: Vec<u8> = Vec::new();
        let mut last_val: Vec<u8> = Vec::new();
        let mut found: bool = false;
        let mut i: usize = 0;
        proof {
            reveal_with_fuel(Seq::filter, 1);
            assert(height_entries_of(self.blocks.entries_view().take(0)) =~= Seq::<
                (Seq<u8>, Seq<u8>),
            >::empty());
        }
        while i < entries.len()
            invariant
                0 <= i <= entries@.len(),
                entries == self.blocks.entries,
                prefix@ == height_prefix(),
                self.wf(),
                !found ==> height_entries_of(self.blocks.entries_view().take(i as int)).len()
                    == 0,
                found ==> height_entries_of(self.blocks.entries_view().take(i as int)).len() > 0
                    && last_key@ == height_entries_of(
                    self.blocks.entries_view().take(i as int),
                ).last().0 && last_val@ == height_entries_of(
                    self.blocks.entries_view().take(i as int),
                ).last().1,
                forall|j: int|
                    0 <= j < i && has_prefix(
                        (#[trigger] self.blocks.entries_view()[j]).0,
                        height_prefix(),
                    ) ==> found && (self.blocks.entries_view()[j].0 == last_key@ || lex_lt(
                        self.blocks.entries_view()[j].0,
                        last_key@,
                    )),
            decreases entries@.len() - i,
        {
            let ghost ev = self.blocks.entries_view();
            let ghost pre = ev.take(i as int);
            let ghost post = ev.take(i + 1);
            proof {
                reveal_with_fuel(Seq::filter, 2);
                assert(post.drop_last() =~= pre);
                assert(post.last() == ev[i as int]);
                assert(ev[i as int] == (entries@[i as int].0@, entries@[i as int].1@));
            }
            let e = &entries[i];
            if is_prefix_of(&e.0, &prefix) {
                last_key = copy_bytes(&e.0);
                last_val = copy_bytes(&e.1);
                found = true;
                proof {
                    assert(height_entries_of(post) == height_entries_of(pre).push(ev[i as int]));
                    assert forall|j: int|
                        0 <= j < i + 1 && has_prefix(
                            (#[trigger] ev[j]).0,
                            height_prefix(),
                        ) implies ev[j].0 == last_key@ || lex_lt(ev[j].0, last_key@) by {
                        if j < i {
                            assert(lex_lt(entries@[j].0@, entries@[i as int].0@));
                        }
                    }
                }
            } else {
                proof {
                    assert(height_entries_of(post) == height_entries_of(pre));
                }
            }
            i = i + 1;
        }
        proof {
            assert(self.blocks.entries_view().take(entries@.len() as int)
                =~= self.blocks.entries_view());
        }
        if !found {
            proof {
                assert forall|h: u64|
                    !self.tree_map(TreeId::Blocks).contains_key(
                        #[trigger] height_key_spec(h),
                    ) by {
                    if self.tree_map(TreeId::Blocks).contains_key(height_key_spec(h)) {
                        lemma_kv_map_dom(self.blocks.entries@, height_key_spec(h));
                        let j = choose|j: int|
                            0 <= j < self.blocks.entries@.len() && (#[trigger] self.blocks
                                .entries@[j]).0@ == height_key_spec(h);
                        lemma_height_key_prefixed(h);
                        assert(has_prefix(self.blocks.entries_view()[j].0, height_prefix()));
                        assert(false);
                    }
                }
            }
            return Ok(None);
        }
        proof {
            assert forall|h: u64|
                self.tree_map(TreeId::Blocks).contains_key(#[trigger] height_key_spec(h))
                    implies self.height_entries().len() > 0 && (height_key_spec(h)
                == self.height_entries().last().0 || lex_lt(
                height_key_spec(h),
                self.height_entries().last().0,
            )) by {
                lemma_kv_map_dom(self.blocks.entries@, height_key_spec(h));
                let j = choose|j: int|
                    0 <= j < self.blocks.entries@.len() && (#[trigger] self.blocks.entries@[
                        j
                    ]).0@ == height_key_spec(h);
                lemma_height_key_prefixed(h);
                assert(has_prefix(self.blocks.entries_view()[j].0, height_prefix()));
            }
        }
        match decode_block(&last_val) {
            Option::Some(b) => Ok(Some(b)),
            Option::None => Err(StorageError::SerializationError),
        }
    }

    /// The current chain height: the latest indexed block's number, or
    /// zero for a store with no height entries.
    pub fn get_chain_height(&self) -> (r: Result<u64, StorageError>)
        requires
            self.wf(),
        ensures
            self.height_entries().len() == 0 ==> r == Ok::<u64, StorageError>(0),
            forall|b: Block|
                (self.height_entries().len() > 0 && self.height_entries().last().1 == #[trigger]
                enc_block(b)) ==> r == Ok::<u64, StorageError>(b.index),
            r is Err <==> self.height_entries().len() > 0 && no_block_full(
                self.height_entries().last().1,
            ),
    {
        match self.get_latest_block() {
            Result::Ok(Option::Some(b)) => Ok(b.index),
            Result::Ok(Option::None) => Ok(0),
            Result::Err(e) => Err(e),
        }
    }
}

/// The entries of a tree view whose keys carry the `height:` prefix.
pub open spec fn height_entries_of(s: Seq<(Seq<u8>, Seq<u8>)>) -> Seq<(Seq<u8>, Seq<u8>)> {
    s.filter(|e: (Seq<u8>, Seq<u8>)| has_prefix(e.0, height_prefix()))
}

} // verus!
