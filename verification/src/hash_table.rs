//! Chained hash dictionary with incremental rehashing.
//!
//! Keys are byte strings hashed with 32-bit FNV-1a (zero-extended to 64
//! bits).  The dictionary starts at 4 buckets and, when the load factor
//! reaches 1 on insert, migrates into a table of twice the size a bounded
//! number of buckets at a time, spreading the work across subsequent
//! operations so no single request stalls.

use vstd::prelude::*;
use vstd::map::*;
use vstd::slice::slice_to_vec;
use crate::redis_object::{RedisObject, ObjectSpec, obj_of_bytes, obj_wf};

verus! {

/// One FNV-1a step: add the byte, multiply by the prime, keep 32 bits.
pub open spec fn fnv_step(h: int, b: u8) -> int {
    ((h + b) * 0x01000193) % 0x1_0000_0000
}

/// The 32-bit FNV-1a state after consuming `s`, seeded with 0x811C9DC5.
pub open spec fn fnv_state(s: Seq<u8>) -> int
    decreases s.len(),
{
    if s.len() == 0 {
        0x811C9DC5
    } else {
        fnv_step(fnv_state(s.drop_last()), s.last())
    }
}

pub proof fn lemma_fnv_bound(s: Seq<u8>)
    ensures
        0 <= fnv_state(s) < 0x1_0000_0000,
    decreases s.len(),
{
    if s.len() > 0 {
        lemma_fnv_bound(s.drop_last());
    }
}

/// The hash a key is filed under: the 32-bit FNV-1a state, zero-extended.
pub open spec fn fnv_hash(s: Seq<u8>) -> u64 {
    fnv_state(s) as u64
}

/// Hashes a key with FNV-1a; fixed, so bucket placement is deterministic.
pub fn hash_bytes(bytes: &[u8]) -> (r: u64)
    ensures
        r == fnv_hash(bytes@),
        r < 0x1_0000_0000,
{
    let mut h: u64 = 0x811C9DC5;
    let mut i: usize = 0;
    while i < bytes.len()
        invariant
            i <= bytes@.len(),
            h == fnv_state(bytes@.take(i as int)),
            h < 0x1_0000_0000,
        decreases bytes@.len() - i,
    {
        h = ((h + bytes[i] as u64) * 0x01000193) % 0x1_0000_0000;
        i = i + 1;
        proof {
            assert(bytes@.take(i as int).drop_last() =~= bytes@.take(i - 1));
            assert(bytes@.take(i as int).last() == bytes@[i - 1]);
        }
    }
    proof {
        assert(bytes@.take(bytes@.len() as int) =~= bytes@);
        lemma_fnv_bound(bytes@);
    }
    h
}

/// Whether two byte slices hold the same bytes.
pub fn bytes_eq(a: &[u8], b: &[u8]) -> (r: bool)
    ensures
        r == (a@ == b@),
{
    if a.len() != b.len() {
        return false;
    }
    let mut i: usize = 0;
    while i < a.len()
        invariant
            a@.len() == b@.len(),
            i <= a@.len(),
            forall|j: int| 0 <= j < i ==> a@[j] == b@[j],
        decreases a@.len() - i,
    {
        if a[i] != b[i] {
            return false;
        }
        i = i + 1;
    }
    proof {
        assert(a@ =~= b@);
    }
    true
}

pub open spec fn is_pow2(n: nat) -> bool
    decreases n,
{
    if n == 0 {
        false
    } else if n == 1 {
        true
    } else {
        n % 2 == 0 && is_pow2(n / 2)
    }
}

/// One key/value cell: the key bytes, the stored value, and the key's
/// cached FNV-1a hash.
pub struct HashNode {
    key: Vec<u8>,
    pub value: RedisObject,
    hash: u64,
}

impl HashNode {
    /// The key this node files its value under.
    pub closed spec fn key_spec(&self) -> Seq<u8> {
        self.key@
    }

    /// The value this node stores.
    pub closed spec fn value_spec(&self) -> ObjectSpec {
        self.value@
    }

    /// The cached hash is the key's FNV-1a hash, and any held list
    /// satisfies its layout invariant.
    pub closed spec fn wf(&self) -> bool {
        self.hash == fnv_hash(self.key@) && obj_wf(self.value)
    }

    pub fn new_from_object(key: &[u8], value: RedisObject) -> (r: HashNode)
        requires
            obj_wf(value),
        ensures
            r.wf(),
            r.key_spec() == key@,
            r.value_spec() == value@,
    {
        let node_hash = hash_bytes(key);
        HashNode { key: slice_to_vec(key), value, hash: node_hash }
    }

    pub fn new_from_bytes(key: &[u8], value: &[u8]) -> (r: HashNode)
        ensures
            r.wf(),
            r.key_spec() == key@,
            r.value_spec() == obj_of_bytes(value@),
    {
        let node_value = RedisObject::new_from_bytes(value);
        let node_hash = hash_bytes(key);
        HashNode { key: slice_to_vec(key), value: node_value, hash: node_hash }
    }
}

/// The bucket a key belongs in.
spec fn tab_home(tab: Seq<Vec<HashNode>>, k: Seq<u8>) -> int {
    fnv_hash(k) as int % tab.len() as int
}

/// Whether some node in the bucket holds key `k`.
spec fn bucket_has(s: Seq<HashNode>, k: Seq<u8>) -> bool {
    exists|j: int| 0 <= j < s.len() && s[j].key@ == k
}

/// The position of the node holding key `k`.
spec fn bucket_at(s: Seq<HashNode>, k: Seq<u8>) -> int {
    choose|j: int| 0 <= j < s.len() && s[j].key@ == k
}

/// Total number of nodes across all buckets.
spec fn buckets_count(bs: Seq<Vec<HashNode>>) -> nat
    decreases bs.len(),
{
    if bs.len() == 0 {
        0
    } else {
        buckets_count(bs.drop_last()) + bs.last()@.len()
    }
}

proof fn lemma_count_update(bs: Seq<Vec<HashNode>>, b: int, nb: Vec<HashNode>)
    requires
        0 <= b < bs.len(),
    ensures
        buckets_count(bs.update(b, nb)) == buckets_count(bs) - bs[b]@.len() + nb@.len(),
    decreases bs.len(),
{
    if b == bs.len() - 1 {
        assert(bs.update(b, nb).drop_last() =~= bs.drop_last());
        assert(bs.update(b, nb).last() == nb);
    } else {
        assert(bs.update(b, nb).drop_last() =~= bs.drop_last().update(b, nb));
        assert(bs.update(b, nb).last() == bs.last());
        lemma_count_update(bs.drop_last(), b, nb);
        assert(bs.drop_last()[b] == bs[b]);
    }
}

proof fn lemma_count_lower(bs: Seq<Vec<HashNode>>, b: int)
    requires
        0 <= b < bs.len(),
    ensures
        buckets_count(bs) >= bs[b]@.len(),
    decreases bs.len(),
{
    if b < bs.len() - 1 {
        lemma_count_lower(bs.drop_last(), b);
        assert(bs.drop_last()[b] == bs[b]);
    }
}

proof fn lemma_count_bound(bs: Seq<Vec<HashNode>>)
    ensures
        buckets_count(bs) <= bs.len() * 0xFFFF_FFFF_FFFF_FFFF,
    decreases bs.len(),
{
    if bs.len() > 0 {
        lemma_count_bound(bs.drop_last());
        let v = bs.last();
        vstd::std_specs::vec::axiom_spec_len(&v);
        assert(v@.len() <= 0xFFFF_FFFF_FFFF_FFFF);
        assert((bs.len() - 1) * 0xFFFF_FFFF_FFFF_FFFF + 0xFFFF_FFFF_FFFF_FFFF
            == bs.len() * 0xFFFF_FFFF_FFFF_FFFF) by (nonlinear_arith);
    }
}

/// Exchanges bucket `b` with a local vector.
fn swap_bucket(table: &mut Vec<Vec<HashNode>>, b: usize, bucket: &mut Vec<HashNode>)
    requires
        b < old(table)@.len(),
    ensures
        final(table)@ == old(table)@.update(b as int, *old(bucket)),
        *final(bucket) == old(table)@[b as int],
{
    let slot = &mut table[b];
    core::mem::swap(slot, bucket);
}

/// A chained hash table: an array of buckets, a node count, and the mask
/// (`size - 1`).  Placement of a key is its hash reduced modulo the size.
pub struct HashTable {
    table: Vec<Vec<HashNode>>,
    pub used: u128,
    mask: usize,
}

impl View for HashTable {
    type V = Map<Seq<u8>, ObjectSpec>;

    /// The key/value mapping the table holds.
    closed spec fn view(&self) -> Map<Seq<u8>, ObjectSpec> {
        tab_view(self.table@)
    }
}

impl HashTable {
    /// How many nodes bucket `b` holds.
    pub closed spec fn bucket_len_spec(&self, b: int) -> nat {
        self.table@[b]@.len()
    }

    /// The number of live nodes.
    pub closed spec fn used_spec(&self) -> nat {
        self.used as nat
    }

    /// The number of buckets.
    pub closed spec fn size(&self) -> nat {
        self.table@.len()
    }

    /// The size is a power of two with `mask == size - 1`, `used` counts the
    /// nodes, every node sits in its key's home bucket under its key's true
    /// hash, and no key appears twice.
    pub closed spec fn wf(&self) -> bool {
        &&& self.table@.len() >= 1
        &&& self.mask + 1 == self.table@.len()
        &&& is_pow2(self.table@.len() as nat)
        &&& self.used == buckets_count(self.table@)
        &&& forall|b: int| 0 <= b < self.table@.len()
            ==> tab_bucket_ok(self.table@, b) && tab_bucket_distinct(self.table@, b)
    }

    /// Allocates an empty table of `size` buckets.
    pub fn new(size: usize) -> (r: HashTable)
        requires
            size >= 1,
            is_pow2(size as nat),
        ensures
            r.wf(),
            r@ == Map::<Seq<u8>, ObjectSpec>::empty(),
            r.size() == size,
            r.used_spec() == 0,
    {
        let mut table: Vec<Vec<HashNode>> = Vec::new();
        let mut i: usize = 0;
        while i < size
            invariant
                i <= size,
                table@.len() == i,
                forall|b: int| 0 <= b < i ==> (#[trigger] table@[b])@.len() == 0,
            decreases size - i,
        {
            table.push(Vec::new());
            i = i + 1;
        }
        let r = HashTable { table, used: 0, mask: size - 1 };
        proof {
            lemma_count_zero(r.table@);
            assert(r@ =~= Map::<Seq<u8>, ObjectSpec>::empty());
        }
        r
    }

    /// Looks a key up without disturbing the table.
    pub fn lookup(&self, key: &[u8]) -> (r: Option<&RedisObject>)
        requires
            self.wf(),
        ensures
            match r {
                Some(v) => self@.contains_key(key@) && v@ == self@[key@] && obj_wf(*v),
                None => !self@.contains_key(key@),
            },
    {
        let hash = hash_bytes(key);
        let b = (hash as usize) % self.table.len();
        let bucket = &self.table[b];
        let mut j: usize = 0;
        while j < bucket.len()
            invariant
                self.wf(),
                b == tab_home(self.table@, key@),
                0 <= b < self.table@.len(),
                bucket@ == self.table@[b as int]@,
                j <= bucket@.len(),
                forall|x: int| 0 <= x < j ==> (#[trigger] bucket@[x]).key@ != key@,
            decreases bucket@.len() - j,
        {
            if bytes_eq(bucket[j].key.as_slice(), key) {
                proof {
                    assert(tab_bucket_distinct(self.table@, b as int));
                    assert(bucket_has(self.table@[tab_home(self.table@, key@)]@, key@));
                    let w = bucket_at(self.table@[tab_home(self.table@, key@)]@, key@);
                    if w != j {
                        if w < j {
                            assert((self.table@[b as int]@[w]).key@
                                != (self.table@[b as int]@[j as int]).key@);
                        } else {
                            assert((self.table@[b as int]@[j as int]).key@
                                != (self.table@[b as int]@[w]).key@);
                        }
                        assert(bucket@[w].key@ != key@ || bucket@[j as int].key@ != key@);
                        assert(false);
                    }
                }
                return Some(&bucket[j].value);
            }
            j = j + 1;
        }
        proof {
            assert(!bucket_has(self.table@[tab_home(self.table@, key@)]@, key@));
        }
        None
    }

    /// Inserts a node, overwriting any existing node under the same key.
    #[verifier::rlimit(100)]
    #[verifier::spinoff_prover]
    pub fn insert(&mut self, node: HashNode)
        requires
            old(self).wf(),
            node.wf(),
        ensures
            final(self).wf(),
            final(self)@ == old(self)@.insert(node.key_spec(), node.value_spec()),
            final(self).size() == old(self).size(),
            old(self)@.contains_key(node.key_spec()) ==> final(self).used_spec()
                == old(self).used_spec(),
            !old(self)@.contains_key(node.key_spec()) ==> final(self).used_spec()
                == old(self).used_spec() + 1,
    {
        proof {
            lemma_fnv_bound(node.key@);
        }
        let b = (node.hash as usize) % self.table.len();
        let ghost oldtab = self.table@;
        let ghost k = node.key@;
        let mut bucket: Vec<HashNode> = Vec::new();
        swap_bucket(&mut self.table, b, &mut bucket);
        let ghost placed = self.table@[b as int];
        let ghost obkt = bucket@;
        let mut j: usize = 0;
        let mut found: bool = false;
        while j < bucket.len() && !found
            invariant
                old(self).wf(),
                oldtab == old(self).table@,
                node.wf(),
                k == node.key@,
                0 <= b < oldtab.len(),
                b == fnv_hash(k) as int % oldtab.len() as int,
                self.table@ == oldtab.update(b as int, placed),
                placed@.len() == 0,
                self.used == old(self).used,
                self.mask == old(self).mask,
                obkt == oldtab[b as int]@,
                bucket@ == obkt,
                j <= bucket@.len(),
                found ==> j < bucket@.len() && bucket@[j as int].key@ == k,
                forall|x: int| 0 <= x < j ==> (#[trigger] obkt[x]).key@ != k,
            decreases bucket@.len() - j + (if found { 0int } else { 1int }),
        {
            if bytes_eq(bucket[j].key.as_slice(), node.key.as_slice()) {
                found = true;
            } else {
                j = j + 1;
            }
        }
        if found {
            proof {
                obkt.remove_ensures(j as int);
            }
            bucket.remove(j);
            bucket.push(node);
            swap_bucket(&mut self.table, b, &mut bucket);
            proof {
                assert(self.table@ =~= oldtab.update(b as int, self.table@[b as int]));
                assert(self.table@[b as int]@.len() == obkt.len());
                lemma_count_update(oldtab, b as int, self.table@[b as int]);
                self.lemma_after_replace(oldtab, obkt, b as int, j as int, k);
            }
        } else {
            proof {
                assert(forall|x: int| 0 <= x < obkt.len()
                    ==> (#[trigger] obkt[x]).key@ != k);
            }
            bucket.push(node);
            swap_bucket(&mut self.table, b, &mut bucket);
            proof {
                assert(self.table@ =~= oldtab.update(b as int, self.table@[b as int]));
                assert(self.table@[b as int]@.len() == obkt.len() + 1);
                lemma_count_update(oldtab, b as int, self.table@[b as int]);
                vstd::std_specs::vec::axiom_spec_len(&self.table);
                lemma_count_bound(oldtab);
                assert(oldtab.len() * 0xFFFF_FFFF_FFFF_FFFF
                    <= 0xFFFF_FFFF_FFFF_FFFF * 0xFFFF_FFFF_FFFF_FFFF) by (nonlinear_arith)
                    requires oldtab.len() <= 0xFFFF_FFFF_FFFF_FFFF;
            }
            self.used = self.used + 1;
            proof {
                self.lemma_after_append(oldtab, obkt, b as int, k);
            }
        }
    }

    /// Helper: the table after replacing the node for `k` in its bucket.
    #[verifier::rlimit(100)]
    #[verifier::spinoff_prover]
    proof fn lemma_after_replace(
        &self,
        oldtab: Seq<Vec<HashNode>>,
        obkt: Seq<HashNode>,
        b: int,
        j: int,
        k: Seq<u8>,
    )
        requires
            0 <= b < oldtab.len(),
            oldtab.len() == self.table@.len(),
            self.mask + 1 == self.table@.len(),
            is_pow2(self.table@.len() as nat),
            self.used == buckets_count(self.table@),
            obkt == oldtab[b]@,
            0 <= j < obkt.len(),
            obkt[j].key@ == k,
            forall|x: int| 0 <= x < j ==> (#[trigger] obkt[x]).key@ != k,
            self.table@ == oldtab.update(b, self.table@[b]),
            self.table@[b]@ == obkt.remove(j).push(self.table@[b]@.last()),
            self.table@[b]@.len() == obkt.len(),
            self.table@[b]@.last().key@ == k,
            self.table@[b]@.last().hash == fnv_hash(k),
            obj_wf(self.table@[b]@.last().value),
            fnv_hash(k) as int % oldtab.len() as int == b,
            forall|bb: int| 0 <= bb < oldtab.len() ==> tab_bucket_ok(oldtab, bb)
                && tab_bucket_distinct(oldtab, bb),
        ensures
            self.wf(),
            self@ == tab_view(oldtab).insert(k, self.table@[b]@.last().value@),
            tab_view(oldtab).contains_key(k),
    {        assert(tab_bucket_ok(oldtab, b));
        assert(tab_bucket_distinct(oldtab, b));

        obkt.remove_ensures(j);
        let rem = obkt.remove(j);
        let nb = self.table@[b]@;
        assert forall|x1: int, x2: int| 0 <= x1 < x2 < obkt.len() implies
            (#[trigger] obkt[x1]).key@ != (#[trigger] obkt[x2]).key@ by {
            assert(obkt[x1] == oldtab[b]@[x1]);
            assert(obkt[x2] == oldtab[b]@[x2]);
        }
        assert forall|x: int| 0 <= x < obkt.len() implies
            (#[trigger] obkt[x]).hash == fnv_hash(obkt[x].key@)
            && fnv_hash(obkt[x].key@) as int % oldtab.len() as int == b
            && obj_wf(obkt[x].value) by {
            assert(obkt[x] == oldtab[b]@[x]);
        }
        assert(nb.drop_last() =~= rem);
        assert forall|x: int| 0 <= x < nb.len() - 1 implies nb[x]
            == obkt[(if x < j { x } else { x + 1 })] by {
            assert(nb[x] == rem[x]);
        }
        // keys other than k in the old bucket are not k
        assert forall|x: int| 0 <= x < obkt.len() && x != j implies
            (#[trigger] obkt[x]).key@ != k by {
            if x < j {
                assert(obkt[x].key@ != obkt[j].key@);
            } else {
                assert(obkt[j].key@ != obkt[x].key@);
            }
        }
        assert forall|bb: int| 0 <= bb < self.table@.len() implies tab_bucket_ok(self.table@, bb)
            && tab_bucket_distinct(self.table@, bb) by {
            if bb != b {
                assert(self.table@[bb] == oldtab[bb]);
                assert(tab_bucket_ok(oldtab, bb) && tab_bucket_distinct(oldtab, bb));
                assert forall|x: int| 0 <= x < self.table@[bb]@.len() implies
                    (#[trigger] self.table@[bb]@[x]).hash
                        == fnv_hash(self.table@[bb]@[x].key@)
                    && fnv_hash(self.table@[bb]@[x].key@) as int
                        % self.table@.len() as int == bb
                    && obj_wf(self.table@[bb]@[x].value) by {
                    assert(oldtab[bb]@[x] == self.table@[bb]@[x]);
                }
            } else {
                assert forall|x: int| 0 <= x < nb.len() implies
                    (#[trigger] nb[x]).hash == fnv_hash(nb[x].key@)
                    && fnv_hash(nb[x].key@) as int % self.table@.len() as int == bb
                    && obj_wf(nb[x].value) by {
                    if x < nb.len() - 1 {
                        let o: int = if x < j { x } else { x + 1 };
                        assert(nb[x] == obkt[o]);
                    }
                }
                assert forall|j1: int, j2: int| 0 <= j1 < j2 < nb.len() implies
                    (#[trigger] nb[j1]).key@ != (#[trigger] nb[j2]).key@ by {
                    let o1: int = if j1 < j { j1 } else { j1 + 1 };
                    assert(nb[j1] == obkt[o1]);
                    if j2 < nb.len() - 1 {
                        let o2: int = if j2 < j { j2 } else { j2 + 1 };
                        assert(nb[j2] == obkt[o2]);
                    } else {
                        assert(nb[j2].key@ == k);
                        assert(o1 != j);
                        assert(obkt[o1].key@ != k);
                    }
                }
            }
        }
        assert(self.wf());
        assert(bucket_has(obkt, k));
        assert_maps_equal!(
            self.view(), tab_view(oldtab).insert(k, self.table@[b]@.last().value@),
            key => {
                let h = fnv_hash(key) as int % oldtab.len() as int;
                if key == k {
                    assert(nb[nb.len() - 1].key@ == key);
                    assert(bucket_has(nb, key));
                    let w = bucket_at(nb, key);
                    assert(nb[w].key@ == key);
                    if w != nb.len() - 1 {
                        let o: int = if w < j { w } else { w + 1 };
                        assert(nb[w] == obkt[o]);
                        assert(false);
                    }
                } else {
                    if h == b {
                        lemma_same_members(obkt, nb, j, key);
                    } else {
                        assert(self.table@[h] == oldtab[h]);
                    }
                }
            }
        );
    }

    /// Helper: the table after appending a fresh node for `k` to its bucket.
    #[verifier::rlimit(100)]
    #[verifier::spinoff_prover]
    proof fn lemma_after_append(
        &self,
        oldtab: Seq<Vec<HashNode>>,
        obkt: Seq<HashNode>,
        b: int,
        k: Seq<u8>,
    )
        requires
            0 <= b < oldtab.len(),
            oldtab.len() == self.table@.len(),
            self.mask + 1 == self.table@.len(),
            is_pow2(self.table@.len() as nat),
            self.used == buckets_count(self.table@),
            obkt == oldtab[b]@,
            forall|x: int| 0 <= x < obkt.len() ==> (#[trigger] obkt[x]).key@ != k,
            self.table@ == oldtab.update(b, self.table@[b]),
            self.table@[b]@ == obkt.push(self.table@[b]@.last()),
            self.table@[b]@.len() == obkt.len() + 1,
            self.table@[b]@.last().key@ == k,
            self.table@[b]@.last().hash == fnv_hash(k),
            obj_wf(self.table@[b]@.last().value),
            fnv_hash(k) as int % oldtab.len() as int == b,
            forall|bb: int| 0 <= bb < oldtab.len() ==> tab_bucket_ok(oldtab, bb)
                && tab_bucket_distinct(oldtab, bb),
        ensures
            self.wf(),
            self@ == tab_view(oldtab).insert(k, self.table@[b]@.last().value@),
            !tab_view(oldtab).contains_key(k),
    {        assert(tab_bucket_ok(oldtab, b));
        assert(tab_bucket_distinct(oldtab, b));

        let nb = self.table@[b]@;
        assert forall|x: int| 0 <= x < obkt.len() implies
            (#[trigger] obkt[x]).hash == fnv_hash(obkt[x].key@)
            && fnv_hash(obkt[x].key@) as int % oldtab.len() as int == b
            && obj_wf(obkt[x].value) by {
            assert(obkt[x] == oldtab[b]@[x]);
        }
        assert forall|x1: int, x2: int| 0 <= x1 < x2 < obkt.len() implies
            (#[trigger] obkt[x1]).key@ != (#[trigger] obkt[x2]).key@ by {
            assert(obkt[x1] == oldtab[b]@[x1]);
            assert(obkt[x2] == oldtab[b]@[x2]);
        }
        assert(nb.drop_last() =~= obkt);
        assert forall|x: int| 0 <= x < nb.len() - 1 implies nb[x] == obkt[x] by {
            assert(nb.drop_last()[x] == obkt[x]);
        }
        assert forall|bb: int| 0 <= bb < self.table@.len() implies tab_bucket_ok(self.table@, bb)
            && tab_bucket_distinct(self.table@, bb) by {
            if bb != b {
                assert(self.table@[bb] == oldtab[bb]);
                assert(tab_bucket_ok(oldtab, bb) && tab_bucket_distinct(oldtab, bb));
                assert forall|x: int| 0 <= x < self.table@[bb]@.len() implies
                    (#[trigger] self.table@[bb]@[x]).hash
                        == fnv_hash(self.table@[bb]@[x].key@)
                    && fnv_hash(self.table@[bb]@[x].key@) as int
                        % self.table@.len() as int == bb
                    && obj_wf(self.table@[bb]@[x].value) by {
                    assert(oldtab[bb]@[x] == self.table@[bb]@[x]);
                }
            } else {
                assert forall|x: int| 0 <= x < nb.len() implies
                    (#[trigger] nb[x]).hash == fnv_hash(nb[x].key@)
                    && fnv_hash(nb[x].key@) as int % self.table@.len() as int == bb
                    && obj_wf(nb[x].value) by {
                    if x < nb.len() - 1 {
                        assert(nb[x] == obkt[x]);
                    }
                }
                assert forall|j1: int, j2: int| 0 <= j1 < j2 < nb.len() implies
                    (#[trigger] nb[j1]).key@ != (#[trigger] nb[j2]).key@ by {
                    assert(nb[j1] == obkt[j1]);
                    if j2 < nb.len() - 1 {
                        assert(nb[j2] == obkt[j2]);
                    } else {
                        assert(nb[j2].key@ == k);
                        assert(obkt[j1].key@ != k);
                    }
                }
            }
        }
        assert(self.wf());
        assert(!bucket_has(obkt, k));
        assert_maps_equal!(
            self.view(), tab_view(oldtab).insert(k, self.table@[b]@.last().value@),
            key => {
                let h = fnv_hash(key) as int % oldtab.len() as int;
                if key == k {
                    assert(nb[nb.len() - 1].key@ == key);
                    assert(bucket_has(nb, key));
                    let w = bucket_at(nb, key);
                    assert(nb[w].key@ == key);
                    if w != nb.len() - 1 {
                        assert(nb[w] == obkt[w]);
                        assert(false);
                    }
                } else {
                    if h == b {
                        lemma_same_members_push(obkt, nb, key);
                    } else {
                        assert(self.table@[h] == oldtab[h]);
                    }
                }
            }
        );
    }

    /// Removes the node for a key, returning its value if one was there.
    #[verifier::rlimit(100)]
    #[verifier::spinoff_prover]
    pub fn take(&mut self, key: &[u8]) -> (r: Option<RedisObject>)
        requires
            old(self).wf(),
        ensures
            final(self).wf(),
            final(self)@ == old(self)@.remove(key@),
            final(self).size() == old(self).size(),
            match r {
                Some(v) => old(self)@.contains_key(key@) && v@ == old(self)@[key@]
                    && obj_wf(v)
                    && final(self).used_spec() == old(self).used_spec() - 1,
                None => !old(self)@.contains_key(key@)
                    && final(self).used_spec() == old(self).used_spec(),
            },
            forall|bb: int| 0 <= bb < old(self).size()
                ==> final(self).bucket_len_spec(bb) <= old(self).bucket_len_spec(bb),
    {
        let hash = hash_bytes(key);
        let b = (hash as usize) % self.table.len();
        let ghost oldtab = self.table@;
        let ghost k = key@;
        let mut bucket: Vec<HashNode> = Vec::new();
        swap_bucket(&mut self.table, b, &mut bucket);
        let ghost placed = self.table@[b as int];
        let ghost obkt = bucket@;
        let mut j: usize = 0;
        let mut found: bool = false;
        while j < bucket.len() && !found
            invariant
                old(self).wf(),
                oldtab == old(self).table@,
                k == key@,
                0 <= b < oldtab.len(),
                b == fnv_hash(k) as int % oldtab.len() as int,
                self.table@ == oldtab.update(b as int, placed),
                placed@.len() == 0,
                self.used == old(self).used,
                self.mask == old(self).mask,
                obkt == oldtab[b as int]@,
                bucket@ == obkt,
                j <= bucket@.len(),
                found ==> j < bucket@.len() && bucket@[j as int].key@ == k,
                forall|x: int| 0 <= x < j ==> (#[trigger] obkt[x]).key@ != k,
            decreases bucket@.len() - j + (if found { 0int } else { 1int }),
        {
            if bytes_eq(bucket[j].key.as_slice(), key) {
                found = true;
            } else {
                j = j + 1;
            }
        }
        if found {
            proof {
                lemma_count_lower(oldtab, b as int);
                obkt.remove_ensures(j as int);
            }
            let node = bucket.remove(j);
            swap_bucket(&mut self.table, b, &mut bucket);
            self.used = self.used - 1;
            proof {
                assert(self.table@ =~= oldtab.update(b as int, self.table@[b as int]));
                assert(self.table@[b as int]@.len() == obkt.len() - 1);
                lemma_count_update(oldtab, b as int, self.table@[b as int]);
                self.lemma_after_remove(oldtab, obkt, b as int, j as int, k);
                assert(tab_bucket_distinct(oldtab, b as int));
                let w = bucket_at(oldtab[b as int]@, k);
                if w != j {
                    if w < j as int {
                        assert((obkt[w]).key@ != (obkt[j as int]).key@);
                    } else {
                        assert((obkt[j as int]).key@ != (obkt[w]).key@);
                    }
                    assert(false);
                }
                assert forall|bb: int| 0 <= bb < oldtab.len() implies
                    self.bucket_len_spec(bb) <= oldtab[bb]@.len() by {
                    if bb != b {
                        assert(self.table@[bb] == oldtab[bb]);
                    }
                }
                assert(obkt[j as int] == oldtab[b as int]@[j as int]);
                assert(obj_wf(obkt[j as int].value));
            }
            Some(node.value)
        } else {
            swap_bucket(&mut self.table, b, &mut bucket);
            proof {
                assert(self.table@ =~= oldtab);
                assert(!bucket_has(oldtab[b as int]@, k));
                assert(!tab_view(oldtab).contains_key(k));
                assert(self@ =~= tab_view(oldtab).remove(k));
                assert forall|bb: int| 0 <= bb < oldtab.len() implies
                    self.bucket_len_spec(bb) <= oldtab[bb]@.len() by {
                }
            }
            None
        }
    }

    /// Removes the node for a key, reporting whether one was there.
    pub fn delete(&mut self, key: &[u8]) -> (r: bool)
        requires
            old(self).wf(),
        ensures
            final(self).wf(),
            final(self)@ == old(self)@.remove(key@),
            final(self).size() == old(self).size(),
            r == old(self)@.contains_key(key@),
            r ==> final(self).used_spec() == old(self).used_spec() - 1,
            !r ==> final(self).used_spec() == old(self).used_spec(),
    {
        match self.take(key) {
            Some(_) => true,
            None => false,
        }
    }

    /// Helper: the table after removing the node at `j` from `k`'s bucket.
    #[verifier::rlimit(100)]
    #[verifier::spinoff_prover]
    proof fn lemma_after_remove(
        &self,
        oldtab: Seq<Vec<HashNode>>,
        obkt: Seq<HashNode>,
        b: int,
        j: int,
        k: Seq<u8>,
    )
        requires
            0 <= b < oldtab.len(),
            oldtab.len() == self.table@.len(),
            self.mask + 1 == self.table@.len(),
            is_pow2(self.table@.len() as nat),
            self.used == buckets_count(self.table@),
            obkt == oldtab[b]@,
            0 <= j < obkt.len(),
            obkt[j].key@ == k,
            forall|x: int| 0 <= x < j ==> (#[trigger] obkt[x]).key@ != k,
            self.table@ == oldtab.update(b, self.table@[b]),
            self.table@[b]@ == obkt.remove(j),
            fnv_hash(k) as int % oldtab.len() as int == b,
            forall|bb: int| 0 <= bb < oldtab.len() ==> tab_bucket_ok(oldtab, bb)
                && tab_bucket_distinct(oldtab, bb),
        ensures
            self.wf(),
            self@ == tab_view(oldtab).remove(k),
            tab_view(oldtab).contains_key(k),
    {        assert(tab_bucket_ok(oldtab, b));
        assert(tab_bucket_distinct(oldtab, b));

        obkt.remove_ensures(j);
        let nb = self.table@[b]@;
        assert forall|x1: int, x2: int| 0 <= x1 < x2 < obkt.len() implies
            (#[trigger] obkt[x1]).key@ != (#[trigger] obkt[x2]).key@ by {
            assert(obkt[x1] == oldtab[b]@[x1]);
            assert(obkt[x2] == oldtab[b]@[x2]);
        }
        assert forall|x: int| 0 <= x < obkt.len() implies
            (#[trigger] obkt[x]).hash == fnv_hash(obkt[x].key@)
            && fnv_hash(obkt[x].key@) as int % oldtab.len() as int == b
            && obj_wf(obkt[x].value) by {
            assert(obkt[x] == oldtab[b]@[x]);
        }
        assert forall|x: int| 0 <= x < obkt.len() && x != j implies
            (#[trigger] obkt[x]).key@ != k by {
            if x < j {
                assert(obkt[x].key@ != obkt[j].key@);
            } else {
                assert(obkt[j].key@ != obkt[x].key@);
            }
        }
        assert forall|bb: int| 0 <= bb < self.table@.len() implies tab_bucket_ok(self.table@, bb)
            && tab_bucket_distinct(self.table@, bb) by {
            if bb != b {
                assert(self.table@[bb] == oldtab[bb]);
                assert(tab_bucket_ok(oldtab, bb) && tab_bucket_distinct(oldtab, bb));
                assert forall|x: int| 0 <= x < self.table@[bb]@.len() implies
                    (#[trigger] self.table@[bb]@[x]).hash
                        == fnv_hash(self.table@[bb]@[x].key@)
                    && fnv_hash(self.table@[bb]@[x].key@) as int
                        % self.table@.len() as int == bb
                    && obj_wf(self.table@[bb]@[x].value) by {
                    assert(oldtab[bb]@[x] == self.table@[bb]@[x]);
                }
            } else {
                assert forall|x: int| 0 <= x < nb.len() implies
                    (#[trigger] nb[x]).hash == fnv_hash(nb[x].key@)
                    && fnv_hash(nb[x].key@) as int % self.table@.len() as int == bb
                    && obj_wf(nb[x].value) by {
                    let o: int = if x < j { x } else { x + 1 };
                    assert(nb[x] == obkt[o]);
                }
                assert forall|j1: int, j2: int| 0 <= j1 < j2 < nb.len() implies
                    (#[trigger] nb[j1]).key@ != (#[trigger] nb[j2]).key@ by {
                    let o1: int = if j1 < j { j1 } else { j1 + 1 };
                    let o2: int = if j2 < j { j2 } else { j2 + 1 };
                    assert(nb[j1] == obkt[o1]);
                    assert(nb[j2] == obkt[o2]);
                }
            }
        }
        assert(self.wf());
        assert(bucket_has(obkt, k));
        assert_maps_equal!(
            self.view(), tab_view(oldtab).remove(k),
            key => {
                let h = fnv_hash(key) as int % oldtab.len() as int;
                if key == k {
                    if bucket_has(nb, key) {
                        let w = bucket_at(nb, key);
                        let o: int = if w < j { w } else { w + 1 };
                        assert(nb[w] == obkt[o]);
                        assert(obkt[o].key@ == k && o != j);
                        assert(false);
                    }
                } else {
                    if h == b {
                        lemma_same_members(obkt, nb, j, key);
                    } else {
                        assert(self.table@[h] == oldtab[h]);
                    }
                }
            }
        );
    }

    /// How many nodes sit in bucket `b`.
    fn bucket_len(&self, b: usize) -> (r: usize)
        requires
            self.wf(),
            b < self.size(),
        ensures
            r == self.table@[b as int]@.len(),
    {
        self.table[b].len()
    }

    /// Removes and returns the last node of bucket `b`, for migration.
    #[verifier::rlimit(100)]
    #[verifier::spinoff_prover]
    fn remove_last_in_bucket(&mut self, b: usize) -> (r: HashNode)
        requires
            old(self).wf(),
            b < old(self).size(),
            old(self).table@[b as int]@.len() > 0,
        ensures
            final(self).wf(),
            final(self).size() == old(self).size(),
            final(self).used_spec() == old(self).used_spec() - 1,
            r.wf(),
            old(self)@.contains_key(r.key_spec()),
            old(self)@[r.key_spec()] == r.value_spec(),
            final(self)@ == old(self)@.remove(r.key_spec()),
            final(self).table@[b as int]@.len() == old(self).table@[b as int]@.len() - 1,
            forall|bb: int| 0 <= bb < final(self).table@.len() && bb != b
                ==> final(self).table@[bb] == old(self).table@[bb],
    {
        let ghost oldtab = self.table@;
        let mut bucket: Vec<HashNode> = Vec::new();
        swap_bucket(&mut self.table, b, &mut bucket);
        let ghost obkt = bucket@;
        let ghost j = obkt.len() - 1;
        let ghost k = obkt.last().key@;
        proof {
            assert(tab_bucket_ok(oldtab, b as int));
            assert(tab_bucket_distinct(oldtab, b as int));
            lemma_count_lower(oldtab, b as int);
            obkt.remove_ensures(j);
            assert forall|x: int| 0 <= x < j implies (#[trigger] obkt[x]).key@ != k by {
                assert(obkt[x].key@ != obkt[j].key@);
            }
        }
        let node = match bucket.pop() {
            Some(n) => n,
            None => {
                proof {
                    assert(false);
                }
                return HashNode::new_from_object(&[], RedisObject::Int(0));
            }
        };
        swap_bucket(&mut self.table, b, &mut bucket);
        self.used = self.used - 1;
        proof {
            assert(obkt.remove(j) =~= obkt.drop_last());
            assert(self.table@ =~= oldtab.update(b as int, self.table@[b as int]));
            assert(self.table@[b as int]@ =~= obkt.remove(j));
            lemma_count_update(oldtab, b as int, self.table@[b as int]);
            self.lemma_after_remove(oldtab, obkt, b as int, j, k);
            assert(bucket_has(oldtab[b as int]@, k));
            let w = bucket_at(oldtab[b as int]@, k);
            if w != j {
                assert((obkt[w]).key@ != (obkt[j]).key@);
                assert(false);
            }
        }
        node
    }

    /// The number of buckets, as the callers see it.
    pub fn size_hint(&self) -> (r: usize)
        requires
            self.wf(),
        ensures
            r == self.size(),
    {
        self.table.len()
    }
}

/// Every node of bucket `b` carries its key's true hash and sits in its
/// home bucket.
spec fn tab_bucket_ok(tab: Seq<Vec<HashNode>>, b: int) -> bool {
    forall|j: int| 0 <= j < tab[b]@.len() ==> {
        &&& (#[trigger] tab[b]@[j]).hash == fnv_hash(tab[b]@[j].key@)
        &&& fnv_hash(tab[b]@[j].key@) as int % tab.len() as int == b
        &&& obj_wf(tab[b]@[j].value)
    }
}

spec fn tab_bucket_distinct(tab: Seq<Vec<HashNode>>, b: int) -> bool {
    forall|j1: int, j2: int| 0 <= j1 < j2 < tab[b]@.len()
        ==> (#[trigger] tab[b]@[j1]).key@ != (#[trigger] tab[b]@[j2]).key@
}

/// The map a table denotes: a key is present iff its home bucket holds a
/// node for it.
spec fn tab_view(tab: Seq<Vec<HashNode>>) -> Map<Seq<u8>, ObjectSpec> {
    Map::new(
        |k: Seq<u8>| bucket_has(tab[fnv_hash(k) as int % tab.len() as int]@, k),
        |k: Seq<u8>| tab[fnv_hash(k) as int % tab.len() as int]@[bucket_at(
            tab[fnv_hash(k) as int % tab.len() as int]@,
            k,
        )].value@,
    )
}

proof fn lemma_count_zero(bs: Seq<Vec<HashNode>>)
    requires
        forall|b: int| 0 <= b < bs.len() ==> (#[trigger] bs[b])@.len() == 0,
    ensures
        buckets_count(bs) == 0,
    decreases bs.len(),
{
    if bs.len() > 0 {
        lemma_count_zero(bs.drop_last());
    }
}

/// The migration state: either settled in one table, or moving nodes from
/// the primary into a table of twice the size, `resizing_pos` buckets in.
pub enum ResizeState {
    NotResizing,
    Resizing { new_ht: HashTable, resizing_pos: usize },
}

/// The union of primary and secondary: the secondary (newer) table wins.
pub open spec fn dict_union(
    m1: Map<Seq<u8>, ObjectSpec>,
    m2: Map<Seq<u8>, ObjectSpec>,
) -> Map<Seq<u8>, ObjectSpec> {
    Map::new(
        |k: Seq<u8>| m1.contains_key(k) || m2.contains_key(k),
        |k: Seq<u8>| if m2.contains_key(k) {
            m2[k]
        } else {
            m1[k]
        },
    )
}

/// The key/value store: a primary table, plus — while rehashing — a
/// secondary table that new inserts go to and lookups check first.
pub struct HashDict {
    pub main_ht: HashTable,
    pub state: ResizeState,
}

impl View for HashDict {
    type V = Map<Seq<u8>, ObjectSpec>;

    /// The mapping the dictionary holds, across both tables.
    open spec fn view(&self) -> Map<Seq<u8>, ObjectSpec> {
        match self.state {
            ResizeState::NotResizing => self.main_ht@,
            ResizeState::Resizing { new_ht, .. } => dict_union(self.main_ht@, new_ht@),
        }
    }
}

/// Buckets `[0, pos)` of a table hold no nodes.
spec fn prefix_empty(t: HashTable, pos: int) -> bool {
    forall|b: int| 0 <= b < pos && b < t.table@.len() ==> (#[trigger] t.table@[b])@.len() == 0
}

impl HashDict {
    /// The primary table is well formed; while migrating, the secondary is
    /// well formed and twice the size, no key lives in both tables, and the
    /// already-migrated prefix of the primary is empty.
    pub closed spec fn wf(&self) -> bool {
        &&& self.main_ht.wf()
        &&& match self.state {
            ResizeState::NotResizing => true,
            ResizeState::Resizing { new_ht, resizing_pos } => {
                &&& new_ht.wf()
                &&& new_ht.size() == 2 * self.main_ht.size()
                &&& forall|k: Seq<u8>| !(self.main_ht@.contains_key(k)
                    && #[trigger] new_ht@.contains_key(k))
                &&& prefix_empty(self.main_ht, resizing_pos as int)
            }
        }
    }

    /// An empty dictionary of the initial capacity, 4 buckets.
    pub fn new() -> (r: HashDict)
        ensures
            r.wf(),
            r@ == Map::<Seq<u8>, ObjectSpec>::empty(),
    {
        proof {
            assert(is_pow2(1));
            assert(is_pow2(2));
            assert(is_pow2(4));
        }
        HashDict { main_ht: HashTable::new(4), state: ResizeState::NotResizing }
    }

    /// Moves up to one bucket's nodes from the primary into the secondary.
    #[verifier::rlimit(100)]
    #[verifier::spinoff_prover]
    fn migrate_bucket(main: &mut HashTable, new_ht: &mut HashTable, p: usize)
        requires
            old(main).wf(),
            old(new_ht).wf(),
            p < old(main).size(),
            forall|k: Seq<u8>| !(old(main)@.contains_key(k)
                && #[trigger] old(new_ht)@.contains_key(k)),
        ensures
            final(main).wf(),
            final(new_ht).wf(),
            final(main).size() == old(main).size(),
            final(new_ht).size() == old(new_ht).size(),
            forall|k: Seq<u8>| !(final(main)@.contains_key(k)
                && #[trigger] final(new_ht)@.contains_key(k)),
            dict_union(final(main)@, final(new_ht)@) == dict_union(old(main)@, old(new_ht)@),
            final(main).table@[p as int]@.len() == 0,
            forall|bb: int| 0 <= bb < final(main).table@.len() && bb != p
                ==> final(main).table@[bb] == old(main).table@[bb],
    {
        let ghost un0 = dict_union(main@, new_ht@);
        let mut n = main.bucket_len(p);
        while n > 0
            invariant
                main.wf(),
                new_ht.wf(),
                p < main.size(),
                main.size() == old(main).size(),
                new_ht.size() == old(new_ht).size(),
                n == main.table@[p as int]@.len(),
                forall|k: Seq<u8>| !(main@.contains_key(k)
                    && #[trigger] new_ht@.contains_key(k)),
                dict_union(main@, new_ht@) == un0,
                forall|bb: int| 0 <= bb < main.table@.len() && bb != p
                    ==> main.table@[bb] == old(main).table@[bb],
            decreases n,
        {
            let ghost m0 = main@;
            let ghost w0 = new_ht@;
            let node = main.remove_last_in_bucket(p);
            let ghost k = node.key_spec();
            let ghost v = node.value_spec();
            new_ht.insert(node);
            proof {
                assert(!w0.contains_key(k));
                assert_maps_equal!(
                    dict_union(main.view(), new_ht.view()), un0,
                    key => {
                        if key != k {
                            assert(main@.contains_key(key) == m0.contains_key(key));
                            assert(new_ht@.contains_key(key) == w0.contains_key(key));
                        }
                    }
                );
                assert forall|kk: Seq<u8>| !(main@.contains_key(kk)
                    && #[trigger] new_ht@.contains_key(kk)) by {
                    if kk != k {
                        assert(main@.contains_key(kk) == m0.contains_key(kk));
                        assert(new_ht@.contains_key(kk) == w0.contains_key(kk));
                    }
                }
            }
            n = n - 1;
        }
    }

    /// Finishes a completed migration (swapping the tables in) and, if one
    /// is still running, moves up to 10 more buckets across.
    #[verifier::rlimit(100)]
    #[verifier::spinoff_prover]
    fn step_migration(&mut self)
        requires
            old(self).wf(),
        ensures
            final(self).wf(),
            final(self)@ == old(self)@,
    {
        let finished = match &self.state {
            ResizeState::Resizing { resizing_pos, .. } => *resizing_pos
                >= self.main_ht.size_hint(),
            ResizeState::NotResizing => false,
        };
        if finished {
            let mut st = ResizeState::NotResizing;
            core::mem::swap(&mut st, &mut self.state);
            match st {
                ResizeState::Resizing { mut new_ht, resizing_pos } => {
                    proof {
                        assert forall|k: Seq<u8>| !(#[trigger] self.main_ht@.contains_key(
                            k,
                        )) by {
                            if self.main_ht@.contains_key(k) {
                                let tab = self.main_ht.table@;
                                let b = tab_home(tab, k);
                                assert(bucket_has(tab[b]@, k));
                                assert(tab[b]@.len() == 0);
                            }
                        }
                        assert_maps_equal!(
                            dict_union(self.main_ht.view(), new_ht.view()), new_ht.view(),
                            key => {}
                        );
                    }
                    core::mem::swap(&mut self.main_ht, &mut new_ht);
                }
                ResizeState::NotResizing => {
                    proof {
                        assert(false);
                    }
                }
            }
            return ;
        }
        let still = match &self.state {
            ResizeState::Resizing { .. } => true,
            ResizeState::NotResizing => false,
        };
        if still {
            let mut moved: usize = 0;
            while moved < 10
                invariant
                    self.wf(),
                    self@ == old(self)@,
                    moved <= 10,
                    self.state matches ResizeState::Resizing { .. },
                decreases 10 - moved,
            {
                let pos_now = match &self.state {
                    ResizeState::Resizing { resizing_pos, .. } => *resizing_pos,
                    ResizeState::NotResizing => 0,
                };
                if pos_now >= self.main_ht.size_hint() {
                    return ;
                }
                match &mut self.state {
                    ResizeState::Resizing { new_ht, resizing_pos } => {
                        Self::migrate_bucket(&mut self.main_ht, new_ht, pos_now);
                        *resizing_pos = pos_now + 1;
                    }
                    ResizeState::NotResizing => {
                        proof {
                            assert(false);
                        }
                    }
                }
                proof {
                    assert forall|b: int| 0 <= b < pos_now + 1
                        && b < self.main_ht.table@.len() implies
                        (#[trigger] self.main_ht.table@[b])@.len() == 0 by {
                    }
                }
                moved = moved + 1;
            }
        }
    }

    /// Inserts or overwrites; during migration the node goes to the
    /// secondary table and any stale primary entry is dropped.
    #[verifier::rlimit(100)]
    #[verifier::spinoff_prover]
    pub fn insert(&mut self, node: HashNode)
        requires
            old(self).wf(),
            node.wf(),
        ensures
            final(self).wf(),
            final(self)@ == old(self)@.insert(node.key_spec(), node.value_spec()),
    {
        self.step_migration();
        let ghost view0 = self@;
        let ghost k = node.key_spec();
        let ghost v = node.value_spec();
        match &mut self.state {
            ResizeState::NotResizing => {
                self.main_ht.insert(node);
                let size = self.main_ht.size_hint();
                if self.main_ht.used >= size as u128 && size <= usize::MAX / 2 {
                    let ghost m0 = self.main_ht@;
                    proof {
                        assert(is_pow2((2 * size) as nat));
                    }
                    self.state = ResizeState::Resizing {
                        new_ht: HashTable::new(2 * size),
                        resizing_pos: 0,
                    };
                    proof {
                        assert_maps_equal!(self.view(), m0, key => {});
                    }
                }
            }
            ResizeState::Resizing { new_ht, resizing_pos } => {
                let ghost m0 = self.main_ht@;
                let ghost mt0 = self.main_ht;
                let ghost w0 = new_ht@;
                let ghost pos = *resizing_pos;
                self.main_ht.take(node.key.as_slice());
                new_ht.insert(node);
                proof {
                    assert_maps_equal!(
                        dict_union(self.main_ht.view(), new_ht.view()), view0.insert(k, v),
                        key => {
                            if key != k {
                                assert(self.main_ht@.contains_key(key)
                                    == m0.contains_key(key));
                                assert(new_ht@.contains_key(key) == w0.contains_key(key));
                            }
                        }
                    );
                    assert forall|kk: Seq<u8>| !(self.main_ht@.contains_key(kk)
                        && #[trigger] new_ht@.contains_key(kk)) by {
                        if kk != k {
                            assert(self.main_ht@.contains_key(kk) == m0.contains_key(kk));
                            assert(new_ht@.contains_key(kk) == w0.contains_key(kk));
                        }
                    }
                    assert forall|b: int| 0 <= b < pos
                        && b < self.main_ht.table@.len() implies
                        (#[trigger] self.main_ht.table@[b])@.len() == 0 by {
                        assert(mt0.table@[b]@.len() == 0);
                        assert(self.main_ht.bucket_len_spec(b) <= mt0.bucket_len_spec(b));
                    }
                }
            }
        }
    }

    /// Looks a key up; checks the secondary table first while migrating.
    /// The call also advances any running migration, which never changes
    /// the mapping the dictionary holds.
    pub fn lookup(&mut self, key: &[u8]) -> (r: Option<&RedisObject>)
        requires
            old(self).wf(),
        ensures
            final(self).wf(),
            final(self)@ == old(self)@,
            match r {
                Some(v) => old(self)@.contains_key(key@) && v@ == old(self)@[key@]
                    && obj_wf(*v),
                None => !old(self)@.contains_key(key@),
            },
    {
        self.step_migration();
        match &self.state {
            ResizeState::NotResizing => self.main_ht.lookup(key),
            ResizeState::Resizing { new_ht, .. } => {
                match new_ht.lookup(key) {
                    Some(v) => Some(v),
                    None => self.main_ht.lookup(key),
                }
            }
        }
    }

    /// Removes a key, returning its value; tries both tables.
    pub fn take_value(&mut self, key: &[u8]) -> (r: Option<RedisObject>)
        requires
            old(self).wf(),
        ensures
            final(self).wf(),
            final(self)@ == old(self)@.remove(key@),
            match r {
                Some(v) => old(self)@.contains_key(key@) && v@ == old(self)@[key@]
                    && obj_wf(v),
                None => !old(self)@.contains_key(key@),
            },
    {
        self.step_migration();
        let ghost view0 = self@;
        match &mut self.state {
            ResizeState::NotResizing => self.main_ht.take(key),
            ResizeState::Resizing { new_ht, resizing_pos } => {
                let ghost m0 = self.main_ht@;
                let ghost mt0 = self.main_ht;
                let ghost w0 = new_ht@;
                let ghost pos = *resizing_pos;
                let r1 = self.main_ht.take(key);
                let r2 = new_ht.take(key);
                proof {
                    assert_maps_equal!(
                        dict_union(self.main_ht.view(), new_ht.view()), view0.remove(key@),
                        key2 => {
                            if key2 != key@ {
                                assert(self.main_ht@.contains_key(key2)
                                    == m0.contains_key(key2));
                                assert(new_ht@.contains_key(key2) == w0.contains_key(key2));
                            }
                        }
                    );
                    assert forall|kk: Seq<u8>| !(self.main_ht@.contains_key(kk)
                        && #[trigger] new_ht@.contains_key(kk)) by {
                        if kk != key@ {
                            assert(self.main_ht@.contains_key(kk) == m0.contains_key(kk));
                            assert(new_ht@.contains_key(kk) == w0.contains_key(kk));
                        }
                    }
                    assert forall|b: int| 0 <= b < pos
                        && b < self.main_ht.table@.len() implies
                        (#[trigger] self.main_ht.table@[b])@.len() == 0 by {
                        assert(mt0.table@[b]@.len() == 0);
                        assert(self.main_ht.bucket_len_spec(b) <= mt0.bucket_len_spec(b));
                    }
                }
                match r1 {
                    Some(v) => Some(v),
                    None => r2,
                }
            }
        }
    }

    /// Deletes a key, reporting whether it was present.
    pub fn delete(&mut self, key: &[u8]) -> (r: bool)
        requires
            old(self).wf(),
        ensures
            final(self).wf(),
            final(self)@ == old(self)@.remove(key@),
            r == old(self)@.contains_key(key@),
    {
        match self.take_value(key) {
            Some(_) => true,
            None => false,
        }
    }
}

/// Dict round trip: inserting then looking up a key returns the value last
/// inserted under it, other keys are untouched, and deleting removes
/// exactly the deleted key.
pub proof fn lemma_dict_round_trip(
    m: Map<Seq<u8>, ObjectSpec>,
    k: Seq<u8>,
    v: ObjectSpec,
    k2: Seq<u8>,
)
    ensures
        m.insert(k, v)[k] == v,
        m.insert(k, v).contains_key(k),
        k2 != k ==> m.insert(k, v).contains_key(k2) == m.contains_key(k2),
        (k2 != k && m.contains_key(k2)) ==> m.insert(k, v)[k2] == m[k2],
        !m.remove(k).contains_key(k),
        k2 != k ==> m.remove(k).contains_key(k2) == m.contains_key(k2),
        (k2 != k && m.contains_key(k2)) ==> m.remove(k)[k2] == m[k2],
{
}

/// Rehash transparency: starting or finishing a migration does not change
/// the mapping — the union of a table with an empty partner is the table.
pub proof fn lemma_rehash_transparency(m: Map<Seq<u8>, ObjectSpec>)
    ensures
        dict_union(m, Map::<Seq<u8>, ObjectSpec>::empty()) == m,
        dict_union(Map::<Seq<u8>, ObjectSpec>::empty(), m) == m,
{
    assert_maps_equal!(dict_union(m, Map::<Seq<u8>, ObjectSpec>::empty()), m, key => {});
    assert_maps_equal!(dict_union(Map::<Seq<u8>, ObjectSpec>::empty(), m), m, key => {});
}

/// Membership and the found node for keys other than the removed one are
/// unchanged by removing index `j` and (possibly) appending a node with a
/// different key.
proof fn lemma_same_members(obkt: Seq<HashNode>, nb: Seq<HashNode>, j: int, key: Seq<u8>)
    requires
        0 <= j < obkt.len(),
        nb == obkt.remove(j) || (nb.len() == obkt.len() && nb.drop_last() == obkt.remove(j)
            && nb.last().key@ != key),
        obkt[j].key@ != key,
        forall|x1: int, x2: int| 0 <= x1 < x2 < obkt.len()
            ==> (#[trigger] obkt[x1]).key@ != (#[trigger] obkt[x2]).key@,
    ensures
        bucket_has(nb, key) == bucket_has(obkt, key),
        bucket_has(obkt, key) ==> nb[bucket_at(nb, key)].value@
            == obkt[bucket_at(obkt, key)].value@,
{
    obkt.remove_ensures(j);
    let rem = obkt.remove(j);
    assert forall|x: int| 0 <= x < rem.len() implies nb[x] == rem[x] by {
        if nb != rem {
            assert(nb.drop_last()[x] == rem[x]);
        }
    }
    if bucket_has(obkt, key) {
        let w = bucket_at(obkt, key);
        assert(obkt[w].key@ == key);
        assert(w != j);
        let w2: int = if w < j { w } else { w - 1 };
        assert(rem[w2] == obkt[w]);
        assert(nb[w2] == obkt[w]);
        assert(bucket_has(nb, key));
        let v = bucket_at(nb, key);
        assert(nb[v].key@ == key);
        if v < rem.len() {
            let o: int = if v < j { v } else { v + 1 };
            assert(nb[v] == rem[v]);
            assert(rem[v] == obkt[o]);
            if o != w {
                if o < w {
                    assert(obkt[o].key@ != obkt[w].key@);
                } else {
                    assert(obkt[w].key@ != obkt[o].key@);
                }
                assert(false);
            }
        } else {
            assert(v == nb.len() - 1 && nb != rem);
            assert(nb[v] == nb.last());
            assert(false);
        }
    } else {
        if bucket_has(nb, key) {
            let v = bucket_at(nb, key);
            assert(nb[v].key@ == key);
            if v < rem.len() {
                let o: int = if v < j { v } else { v + 1 };
                assert(nb[v] == rem[v]);
                assert(rem[v] == obkt[o]);
                assert(bucket_has(obkt, key));
                assert(false);
            } else {
                assert(v == nb.len() - 1 && nb != rem);
                assert(nb[v] == nb.last());
                assert(false);
            }
        }
    }
}

/// Membership for keys other than the appended one is unchanged by a push.
proof fn lemma_same_members_push(obkt: Seq<HashNode>, nb: Seq<HashNode>, key: Seq<u8>)
    requires
        nb.len() == obkt.len() + 1,
        nb.drop_last() == obkt,
        nb.last().key@ != key,
        forall|x1: int, x2: int| 0 <= x1 < x2 < obkt.len()
            ==> (#[trigger] obkt[x1]).key@ != (#[trigger] obkt[x2]).key@,
    ensures
        bucket_has(nb, key) == bucket_has(obkt, key),
        bucket_has(obkt, key) ==> nb[bucket_at(nb, key)].value@
            == obkt[bucket_at(obkt, key)].value@,
{
    assert forall|x: int| 0 <= x < obkt.len() implies nb[x] == obkt[x] by {
        assert(nb.drop_last()[x] == obkt[x]);
    }
    if bucket_has(obkt, key) {
        let w = bucket_at(obkt, key);
        assert(nb[w] == obkt[w]);
        assert(bucket_has(nb, key));
        let v = bucket_at(nb, key);
        assert(nb[v].key@ == key);
        if v == obkt.len() {
            assert(nb[v] == nb.last());
            assert(false);
        }
        assert(nb[v] == obkt[v]);
        if v != w {
            if v < w {
                assert(obkt[v].key@ != obkt[w].key@);
            } else {
                assert(obkt[w].key@ != obkt[v].key@);
            }
            assert(false);
        }
    } else {
        if bucket_has(nb, key) {
            let v = bucket_at(nb, key);
            assert(nb[v].key@ == key);
            if v == obkt.len() {
                assert(nb[v] == nb.last());
                assert(false);
            }
            assert(nb[v] == obkt[v]);
            assert(bucket_has(obkt, key));
            assert(false);
        }
    }
}

} // verus!
