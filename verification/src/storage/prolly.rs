//! Prolly trees.
//!
//! A Prolly tree is an N-ary search tree with a high fanout and a structure
//! similar to that of B+ trees. Unlike a B+ tree it does not balance itself
//! through rotations: a policy derives a pseudo-random value from each
//! `(height, key)` pair and compares it against a threshold depending on the
//! current node size to decide node boundaries. The structure of the tree is
//! therefore a pure function of its entries and the policy — two trees
//! holding the same entries are identical, a property called *unicity* —
//! which makes the root content hash a fingerprint of the whole map.

use crate::encoding::prefix_varint::{encode, encoding};
use crate::storage::vfs::{FileModel, MemoryFile, MemoryFileSystem};
use crate::storage::StorageError;
use vstd::prelude::*;

verus! {

/// Strict lexicographic order on byte strings, the key order of the tree.
pub open spec fn lex_lt(a: Seq<u8>, b: Seq<u8>) -> bool
    decreases a.len(),
{
    if b.len() == 0 {
        false
    } else if a.len() == 0 {
        true
    } else if a[0] < b[0] {
        true
    } else if a[0] > b[0] {
        false
    } else {
        lex_lt(a.drop_first(), b.drop_first())
    }
}

/// No byte string sorts below itself.
pub proof fn lemma_lex_lt_irrefl(a: Seq<u8>)
    ensures
        !lex_lt(a, a),
    decreases a.len(),
{
    if a.len() > 0 {
        lemma_lex_lt_irrefl(a.drop_first());
    }
}

/// The order is transitive.
pub proof fn lemma_lex_lt_trans(a: Seq<u8>, b: Seq<u8>, c: Seq<u8>)
    requires
        lex_lt(a, b),
        lex_lt(b, c),
    ensures
        lex_lt(a, c),
    decreases a.len(),
{
    if a.len() > 0 && b.len() > 0 && c.len() > 0 && a[0] == b[0] && b[0] == c[0] {
        lemma_lex_lt_trans(a.drop_first(), b.drop_first(), c.drop_first());
    }
}

/// The order is total: incomparable byte strings are equal.
pub proof fn lemma_lex_lt_connected(a: Seq<u8>, b: Seq<u8>)
    requires
        !lex_lt(a, b),
        !lex_lt(b, a),
    ensures
        a == b,
    decreases a.len(),
{
    if a.len() == 0 {
        assert(b.len() == 0) by {
            if b.len() > 0 {
                assert(lex_lt(a, b));
            }
        }
        assert(a =~= b);
    } else if b.len() == 0 {
        assert(lex_lt(b, a));
    } else {
        assert(a[0] == b[0]);
        lemma_lex_lt_connected(a.drop_first(), b.drop_first());
        assert(a.len() == b.len());
        assert forall|i: int| 0 <= i < a.len() implies a[i] == b[i] by {
            if i > 0 {
                assert(a.drop_first()[i - 1] == b.drop_first()[i - 1]);
            }
        }
        assert(a =~= b);
    }
}

/// The entries of a node or of the whole tree as mathematical pairs.
pub open spec fn pairs_of(entries: Seq<Entry>) -> Seq<(Seq<u8>, Seq<u8>)> {
    entries.map(|i: int, e: Entry| (e.key@, e.value@))
}

/// Keys strictly increase along the sequence.
pub open spec fn sorted_strict(s: Seq<(Seq<u8>, Seq<u8>)>) -> bool {
    forall|i: int, j: int| 0 <= i < j < s.len() ==> #[trigger] lex_lt(s[i].0, s[j].0)
}

/// The map an entry sequence denotes; on duplicate keys the earliest entry
/// wins, though a sorted sequence has none.
pub open spec fn map_of(s: Seq<(Seq<u8>, Seq<u8>)>) -> Map<Seq<u8>, Seq<u8>>
    decreases s.len(),
{
    if s.len() == 0 {
        Map::empty()
    } else {
        map_of(s.drop_first()).insert(s[0].0, s[0].1)
    }
}

/// A key is in the map exactly when some entry carries it.
pub proof fn lemma_map_of_dom(s: Seq<(Seq<u8>, Seq<u8>)>, k: Seq<u8>)
    ensures
        map_of(s).contains_key(k) <==> exists|i: int| 0 <= i < s.len() && (#[trigger] s[i]).0 == k,
    decreases s.len(),
{
    if s.len() > 0 {
        lemma_map_of_dom(s.drop_first(), k);
        if s[0].0 == k {
            assert(s[0].0 == k);
        } else if map_of(s).contains_key(k) {
            let i = choose|i: int| 0 <= i < s.drop_first().len() && (#[trigger] s.drop_first()[i]).0 == k;
            assert(s[i + 1].0 == k);
        } else {
            assert forall|i: int| 0 <= i < s.len() implies (#[trigger] s[i]).0 != k by {
                if i > 0 {
                    assert(s.drop_first()[i - 1].0 == s[i].0);
                }
            }
        }
    }
}

/// In a sequence of distinct keys, each entry is the map's answer for its key.
pub proof fn lemma_map_of_index(s: Seq<(Seq<u8>, Seq<u8>)>, i: int)
    requires
        0 <= i < s.len(),
        forall|x: int, y: int| 0 <= x < y < s.len() ==> (#[trigger] s[x]).0 != (#[trigger] s[y]).0,
    ensures
        map_of(s).contains_key(s[i].0),
        map_of(s)[s[i].0] == s[i].1,
    decreases s.len(),
{
    lemma_map_of_dom(s, s[i].0);
    if i == 0 {
    } else {
        let t = s.drop_first();
        assert forall|x: int, y: int| 0 <= x < y < t.len() implies (#[trigger] t[x]).0 != (
        #[trigger] t[y]).0 by {
            assert(t[x] == s[x + 1] && t[y] == s[y + 1]);
        }
        assert(t[i - 1] == s[i]);
        lemma_map_of_index(t, i - 1);
        assert(s[0].0 != s[i].0);
    }
}

/// Sorted keys are distinct.
pub proof fn lemma_sorted_distinct(s: Seq<(Seq<u8>, Seq<u8>)>)
    requires
        sorted_strict(s),
    ensures
        forall|x: int, y: int| 0 <= x < y < s.len() ==> (#[trigger] s[x]).0 != (#[trigger] s[y]).0,
{
    assert forall|x: int, y: int| 0 <= x < y < s.len() implies (#[trigger] s[x]).0 != (
    #[trigger] s[y]).0 by {
        assert(lex_lt(s[x].0, s[y].0));
        if s[x].0 == s[y].0 {
            lemma_lex_lt_irrefl(s[x].0);
        }
    }
}

/// One entry of a tree node: a key and, in a leaf, its value — in an
/// internal node, the content hash of the child the key leads to.
pub struct Entry {
    pub key: Vec<u8>,
    pub value: Vec<u8>,
}

/// Copies a byte vector.
fn copy_bytes(v: &[u8]) -> (r: Vec<u8>)
    ensures
        r@ == v@,
{
    let mut r: Vec<u8> = Vec::new();
    let mut i: usize = 0;
    while i < v.len()
        invariant
            i <= v@.len(),
            r@ == v@.take(i as int),
        decreases v@.len() - i,
    {
        r.push(v[i]);
        proof {
            assert(r@ =~= v@.take(i + 1));
        }
        i += 1;
    }
    proof {
        assert(v@.take(v@.len() as int) =~= v@);
    }
    r
}

/// Whether `a` sorts strictly below `b` in the key order.
pub fn bytes_lt(a: &[u8], b: &[u8]) -> (r: bool)
    ensures
        r == lex_lt(a@, b@),
{
    let n: usize = if a.len() < b.len() {
        a.len()
    } else {
        b.len()
    };
    let mut i: usize = 0;
    proof {
        assert(a@.skip(0) =~= a@);
        assert(b@.skip(0) =~= b@);
    }
    while i < n
        invariant
            i <= n,
            n == if a@.len() < b@.len() {
                a@.len() as int
            } else {
                b@.len() as int
            },
            forall|j: int| 0 <= j < i ==> a@[j] == b@[j],
            lex_lt(a@, b@) == lex_lt(a@.skip(i as int), b@.skip(i as int)),
        decreases n - i,
    {
        let x = a[i];
        let y = b[i];
        proof {
            let sa = a@.skip(i as int);
            let sb = b@.skip(i as int);
            assert(sa[0] == a@[i as int] && sb[0] == b@[i as int]);
            assert(sa.drop_first() =~= a@.skip(i + 1));
            assert(sb.drop_first() =~= b@.skip(i + 1));
        }
        if x < y {
            return true;
        }
        if x > y {
            return false;
        }
        i += 1;
    }
    proof {
        let sa = a@.skip(n as int);
        let sb = b@.skip(n as int);
        assert(sa.len() == 0 || sb.len() == 0);
    }
    a.len() < b.len()
}

/// Whether `a` and `b` hold the same bytes.
pub fn bytes_eq(a: &[u8], b: &[u8]) -> (r: bool)
    ensures
        r == (a@ == b@),
{
    if a.len() != b.len() {
        return false;
    }
    let mut i: usize = 0;
    while i < a.len()
        invariant
            i <= a@.len(),
            a@.len() == b@.len(),
            forall|j: int| 0 <= j < i ==> a@[j] == b@[j],
        decreases a@.len() - i,
    {
        if a[i] != b[i] {
            return false;
        }
        i += 1;
    }
    proof {
        assert(a@ =~= b@);
    }
    true
}

/// Inserting a fresh key at any position inserts it into the map.
proof fn lemma_map_of_insert_mid(s: Seq<(Seq<u8>, Seq<u8>)>, i: int, k: Seq<u8>, v: Seq<u8>)
    requires
        0 <= i <= s.len(),
        forall|j: int| 0 <= j < s.len() ==> (#[trigger] s[j]).0 != k,
    ensures
        map_of(s.insert(i, (k, v))) == map_of(s).insert(k, v),
    decreases i,
{
    let s2 = s.insert(i, (k, v));
    if i == 0 {
        assert(s2.drop_first() =~= s);
        assert(s2[0] == (k, v));
    } else {
        let t = s.drop_first();
        assert(s2[0] == s[0]);
        assert(s2.drop_first() =~= t.insert(i - 1, (k, v)));
        assert forall|j: int| 0 <= j < t.len() implies (#[trigger] t[j]).0 != k by {
            assert(t[j] == s[j + 1]);
        }
        lemma_map_of_insert_mid(t, i - 1, k, v);
        assert(map_of(s2) == map_of(t).insert(k, v).insert(s[0].0, s[0].1));
        assert(map_of(t).insert(k, v).insert(s[0].0, s[0].1) =~= map_of(t).insert(
            s[0].0,
            s[0].1,
        ).insert(k, v));
    }
}

/// Replacing the value at a position re-binds that entry's key.
proof fn lemma_map_of_update(s: Seq<(Seq<u8>, Seq<u8>)>, i: int, v: Seq<u8>)
    requires
        0 <= i < s.len(),
        forall|x: int, y: int| 0 <= x < y < s.len() ==> (#[trigger] s[x]).0 != (#[trigger] s[y]).0,
    ensures
        map_of(s.update(i, (s[i].0, v))) == map_of(s).insert(s[i].0, v),
    decreases i,
{
    let s2 = s.update(i, (s[i].0, v));
    if i == 0 {
        assert(s2.drop_first() =~= s.drop_first());
        assert(s2[0] == (s[0].0, v));
        assert(map_of(s.drop_first()).insert(s[0].0, v) =~= map_of(s.drop_first()).insert(
            s[0].0,
            s[0].1,
        ).insert(s[0].0, v));
    } else {
        let t = s.drop_first();
        assert(s2[0] == s[0]);
        assert(t[i - 1] == s[i]);
        assert(s2.drop_first() =~= t.update(i - 1, (t[i - 1].0, v)));
        assert forall|x: int, y: int| 0 <= x < y < t.len() implies (#[trigger] t[x]).0 != (
        #[trigger] t[y]).0 by {
            assert(t[x] == s[x + 1] && t[y] == s[y + 1]);
        }
        lemma_map_of_update(t, i - 1, v);
        assert(map_of(s2) == map_of(t).insert(s[i].0, v).insert(s[0].0, s[0].1));
        assert(s[0].0 != s[i].0);
        assert(map_of(t).insert(s[i].0, v).insert(s[0].0, s[0].1) =~= map_of(t).insert(
            s[0].0,
            s[0].1,
        ).insert(s[i].0, v));
    }
}

/// Removing the entry at a position removes its key from the map.
proof fn lemma_map_of_remove(s: Seq<(Seq<u8>, Seq<u8>)>, i: int)
    requires
        0 <= i < s.len(),
        forall|x: int, y: int| 0 <= x < y < s.len() ==> (#[trigger] s[x]).0 != (#[trigger] s[y]).0,
    ensures
        map_of(s.remove(i)) == map_of(s).remove(s[i].0),
    decreases i,
{
    let s2 = s.remove(i);
    let t = s.drop_first();
    if i == 0 {
        assert(s2 =~= t);
        lemma_map_of_dom(t, s[0].0);
        assert forall|j: int| 0 <= j < t.len() implies (#[trigger] t[j]).0 != s[0].0 by {
            assert(t[j] == s[j + 1]);
        }
        assert(!map_of(t).contains_key(s[0].0));
        assert(map_of(t) =~= map_of(t).insert(s[0].0, s[0].1).remove(s[0].0));
    } else {
        assert(s2[0] == s[0]);
        assert(s2.drop_first() =~= t.remove(i - 1));
        assert(t[i - 1] == s[i]);
        assert forall|x: int, y: int| 0 <= x < y < t.len() implies (#[trigger] t[x]).0 != (
        #[trigger] t[y]).0 by {
            assert(t[x] == s[x + 1] && t[y] == s[y + 1]);
        }
        lemma_map_of_remove(t, i - 1);
        assert(map_of(s2) == map_of(t).remove(s[i].0).insert(s[0].0, s[0].1));
        assert(s[0].0 != s[i].0);
        assert(map_of(t).remove(s[i].0).insert(s[0].0, s[0].1) =~= map_of(t).insert(
            s[0].0,
            s[0].1,
        ).remove(s[i].0));
    }
}

/// The policy of a Prolly tree: the boundary decision and the content hash.
///
/// A good policy is crucial for performance: the boundary probability must be
/// monotonically non-decreasing in the node size, so that node sizes stay
/// bounded in expectation while boundary shifts on insert converge quickly.
/// Unicity holds per policy: two trees agree in structure when they share
/// both their entries and their policy.
pub trait Policy: Sized {
    /// What the boundary decision returns, as a mathematical function.
    spec fn boundary_spec(&self, height: nat, key: Seq<u8>, size: nat) -> bool;

    /// What the content hash returns, as a mathematical function.
    spec fn hash_spec(&self, content: Seq<u8>) -> Seq<u8>;

    /// Returns `true` iff a node at `height` that just grew to `size`
    /// entries by taking the entry with `key` should end here. Must depend
    /// only on `(height, key)` apart from the size threshold, and must be
    /// monotonically non-decreasing in `size`.
    fn boundary_decision(&self, height: usize, key: &[u8], size: usize) -> (r: bool)
        ensures
            r == self.boundary_spec(height as nat, key@, size as nat),
    ;

    /// Returns a content hash of `content`: the fingerprint stored next to
    /// each child pointer, and the identity of a whole tree. Implementations
    /// meant to stand against adversarial data must supply a
    /// collision-resistant hash here.
    fn content_hash(&self, content: &[u8]) -> (r: Vec<u8>)
        ensures
            r@ == self.hash_spec(content@),
    ;
}

/// Seed of the mixing function behind [`BasicPolicy`].
pub const MIX_SEED: u64 = 0x9E3779B97F4A7C15;

/// One mixing step: rotate the state left by seven bits and fold in a byte.
pub open spec fn spec_mix(h: u64, b: u8) -> u64 {
    ((h << 7) | (h >> 57)) ^ (b as u64)
}

/// The state after folding a whole byte string into `h`.
pub open spec fn spec_mix_all(h: u64, s: Seq<u8>) -> u64
    decreases s.len(),
{
    if s.len() == 0 {
        h
    } else {
        spec_mix_all(spec_mix(h, s[0]), s.drop_first())
    }
}

/// Folds a byte string into `h`.
fn mix_all(h: u64, s: &[u8]) -> (r: u64)
    ensures
        r == spec_mix_all(h, s@),
{
    let mut acc = h;
    let mut i: usize = 0;
    proof {
        assert(s@.skip(0) =~= s@);
    }
    while i < s.len()
        invariant
            i <= s@.len(),
            spec_mix_all(h, s@) == spec_mix_all(acc, s@.skip(i as int)),
        decreases s@.len() - i,
    {
        proof {
            let t = s@.skip(i as int);
            assert(t[0] == s@[i as int]);
            assert(t.drop_first() =~= s@.skip(i + 1));
        }
        acc = ((acc << 7) | (acc >> 57)) ^ (s[i] as u64);
        i += 1;
    }
    acc
}

/// The standard policy: a rotate-and-xor mix of `(height, key)` against a
/// stepped size threshold, and an eight-byte mix of the content as the hash.
///
/// The mix spreads bytes deterministically but is not collision-resistant;
/// a deployment that must resist adversarial collisions plugs in its own
/// [`Policy`] with a cryptographic hash.
pub struct BasicPolicy;

/// The pseudo-random fingerprint [`BasicPolicy`] derives from a
/// `(height, key)` pair.
pub open spec fn spec_prf(height: nat, key: Seq<u8>) -> u64 {
    spec_mix_all(MIX_SEED ^ (height as u64), key)
}

impl Policy for BasicPolicy {
    /// Boundaries never fall before two entries, always fall at 64, and in
    /// between fall where the fingerprint of `(height, key)` has its three
    /// low bits clear — a threshold that never decreases with `size`.
    open spec fn boundary_spec(&self, height: nat, key: Seq<u8>, size: nat) -> bool {
        if size >= 64 {
            true
        } else if size < 2 {
            false
        } else {
            spec_prf(height, key) % 8 == 0
        }
    }

    open spec fn hash_spec(&self, content: Seq<u8>) -> Seq<u8> {
        crate::encoding::prefix_varint::le_bytes(spec_mix_all(MIX_SEED, content) as int, 8)
    }

    fn boundary_decision(&self, height: usize, key: &[u8], size: usize) -> (r: bool)
        ensures
            r == self.boundary_spec(height as nat, key@, size as nat),
    {
        if size >= 64 {
            true
        } else if size < 2 {
            false
        } else {
            let h = mix_all(MIX_SEED ^ (height as u64), key);
            h % 8 == 0
        }
    }

    fn content_hash(&self, content: &[u8]) -> (r: Vec<u8>)
        ensures
            r@ == self.hash_spec(content@),
    {
        let h = mix_all(MIX_SEED, content);
        let mut out: Vec<u8> = Vec::new();
        crate::encoding::prefix_varint::push_le_bytes(&mut out, h, 8);
        out
    }
}

/// The boundary threshold of [`BasicPolicy`] never decreases as a node
/// grows: once a `(height, key)` pair ends a node at some size, it ends it
/// at every larger size too. This keeps node sizes bounded while boundary
/// shifts on insert converge.
pub proof fn lemma_basic_policy_monotone(
    p: BasicPolicy,
    height: nat,
    key: Seq<u8>,
    s1: nat,
    s2: nat,
)
    requires
        s1 <= s2,
        p.boundary_spec(height, key, s1),
    ensures
        p.boundary_spec(height, key, s2),
{
}

/// Standard implementation of the Prolly tree: an ordered map from byte
/// strings to byte strings whose node structure — and so whose root content
/// hash — is a pure function of the entries and the policy.
pub struct BasicTree<P: Policy> {
    entries: Vec<Entry>,
    policy: P,
}

impl<P: Policy> BasicTree<P> {
    /// The entries of the tree, in key order.
    pub closed spec fn entries_seq(&self) -> Seq<(Seq<u8>, Seq<u8>)> {
        pairs_of(self.entries@)
    }

    /// The policy the tree was built with.
    pub closed spec fn policy_spec(&self) -> P {
        self.policy
    }

    /// Well-formedness: keys strictly increase.
    pub open spec fn wf(&self) -> bool {
        sorted_strict(self.entries_seq())
    }

    /// The map the tree holds.
    pub open spec fn as_map(&self) -> Map<Seq<u8>, Seq<u8>> {
        map_of(self.entries_seq())
    }

    /// An empty tree under `policy`.
    pub fn new(policy: P) -> (r: Self)
        ensures
            r.wf(),
            r.as_map() == Map::<Seq<u8>, Seq<u8>>::empty(),
            r.policy_spec() == policy,
            r.entries_seq() == Seq::<(Seq<u8>, Seq<u8>)>::empty(),
    {
        let r = BasicTree { entries: Vec::new(), policy };
        proof {
            assert(r.entries_seq() =~= Seq::<(Seq<u8>, Seq<u8>)>::empty());
        }
        r
    }

    /// Number of entries.
    pub fn len(&self) -> (n: usize)
        ensures
            n == self.entries_seq().len(),
    {
        self.entries.len()
    }

    /// The first position whose key is not below `key`: every key before it
    /// is smaller, and the key there — if any — is not.
    fn find_lower(&self, key: &[u8]) -> (idx: usize)
        requires
            self.wf(),
        ensures
            idx <= self.entries_seq().len(),
            forall|j: int| 0 <= j < idx ==> lex_lt(#[trigger] self.entries_seq()[j].0, key@),
            idx < self.entries_seq().len() ==> !lex_lt(self.entries_seq()[idx as int].0, key@),
    {
        let mut lo: usize = 0;
        let mut hi: usize = self.entries.len();
        while lo < hi
            invariant
                self.wf(),
                lo <= hi <= self.entries_seq().len(),
                self.entries_seq().len() == self.entries@.len(),
                forall|j: int| 0 <= j < lo ==> lex_lt(#[trigger] self.entries_seq()[j].0, key@),
                forall|j: int|
                    hi <= j < self.entries_seq().len() ==> !lex_lt(
                        #[trigger] self.entries_seq()[j].0,
                        key@,
                    ),
            decreases hi - lo,
        {
            let mid = lo + (hi - lo) / 2;
            if bytes_lt(self.entries[mid].key.as_slice(), key) {
                proof {
                    assert forall|j: int| 0 <= j < mid + 1 implies lex_lt(
                        #[trigger] self.entries_seq()[j].0,
                        key@,
                    ) by {
                        if j < mid {
                            lemma_lex_lt_trans(
                                self.entries_seq()[j].0,
                                self.entries_seq()[mid as int].0,
                                key@,
                            );
                        }
                    }
                }
                lo = mid + 1;
            } else {
                proof {
                    assert forall|j: int|
                        mid <= j < self.entries_seq().len() implies !lex_lt(
                        #[trigger] self.entries_seq()[j].0,
                        key@,
                    ) by {
                        if j > mid {
                            if lex_lt(self.entries_seq()[j].0, key@) {
                                lemma_lex_lt_trans(
                                    self.entries_seq()[mid as int].0,
                                    self.entries_seq()[j].0,
                                    key@,
                                );
                            }
                        }
                    }
                }
                hi = mid;
            }
        }
        lo
    }

    /// Returns a copy of the value bound to `key`, if any.
    pub fn get(&self, key: &[u8]) -> (r: Option<Vec<u8>>)
        requires
            self.wf(),
        ensures
            r is Some <==> self.as_map().contains_key(key@),
            r matches Some(v) ==> v@ == self.as_map()[key@],
    {
        let idx = self.find_lower(key);
        proof {
            lemma_sorted_distinct(self.entries_seq());
            lemma_map_of_dom(self.entries_seq(), key@);
        }
        if idx < self.entries.len() && bytes_eq(self.entries[idx].key.as_slice(), key) {
            proof {
                lemma_map_of_index(self.entries_seq(), idx as int);
            }
            Some(copy_bytes(self.entries[idx].value.as_slice()))
        } else {
            proof {
                assert forall|i: int|
                    0 <= i < self.entries_seq().len() implies (
                #[trigger] self.entries_seq()[i]).0 != key@ by {
                    if i < idx {
                        if self.entries_seq()[i].0 == key@ {
                            lemma_lex_lt_irrefl(key@);
                        }
                    } else if i > idx {
                        if self.entries_seq()[i].0 == key@ {
                            assert(lex_lt(
                                self.entries_seq()[idx as int].0,
                                self.entries_seq()[i].0,
                            ));
                        }
                    }
                }
            }
            None
        }
    }

    /// Binds `key` to `value`, keeping the entries sorted. Returns whether
    /// the key was already present.
    pub fn insert(&mut self, key: &[u8], value: &[u8]) -> (present: bool)
        requires
            old(self).wf(),
        ensures
            final(self).wf(),
            final(self).as_map() == old(self).as_map().insert(key@, value@),
            present == old(self).as_map().contains_key(key@),
            final(self).policy_spec() == old(self).policy_spec(),
    {
        let ghost s0 = self.entries_seq();
        let idx = self.find_lower(key);
        proof {
            lemma_sorted_distinct(s0);
            lemma_map_of_dom(s0, key@);
        }
        if idx < self.entries.len() && bytes_eq(self.entries[idx].key.as_slice(), key) {
            let v = copy_bytes(value);
            let e = &mut self.entries[idx];
            e.value = v;
            proof {
                assert(self.entries_seq() =~= s0.update(idx as int, (s0[idx as int].0, value@)));
                assert forall|x: int, y: int|
                    0 <= x < y < self.entries_seq().len() implies #[trigger] lex_lt(
                    self.entries_seq()[x].0,
                    self.entries_seq()[y].0,
                ) by {
                    assert(self.entries_seq()[x].0 == s0[x].0);
                    assert(self.entries_seq()[y].0 == s0[y].0);
                    assert(lex_lt(s0[x].0, s0[y].0));
                }
                lemma_map_of_update(s0, idx as int, value@);
                lemma_map_of_index(s0, idx as int);
            }
            true
        } else {
            proof {
                assert forall|i: int| 0 <= i < s0.len() implies (#[trigger] s0[i]).0 != key@ by {
                    if i < idx {
                        if s0[i].0 == key@ {
                            lemma_lex_lt_irrefl(key@);
                        }
                    } else if i > idx {
                        if s0[i].0 == key@ {
                            assert(lex_lt(s0[idx as int].0, s0[i].0));
                        }
                    }
                }
            }
            let e = Entry { key: copy_bytes(key), value: copy_bytes(value) };
            self.entries.insert(idx, e);
            proof {
                let s1 = self.entries_seq();
                assert(s1 =~= s0.insert(idx as int, (key@, value@)));
                assert forall|x: int, y: int| 0 <= x < y < s1.len() implies #[trigger] lex_lt(
                    s1[x].0,
                    s1[y].0,
                ) by {
                    let n = idx as int;
                    if y < n {
                        assert(lex_lt(s0[x].0, s0[y].0));
                    } else if x > n {
                        assert(lex_lt(s0[x - 1].0, s0[y - 1].0));
                    } else if x < n && y == n {
                        assert(lex_lt(s0[x].0, key@));
                    } else if x == n && y > n {
                        assert(!lex_lt(s0[y - 1].0, key@)) by {
                            if y - 1 > n {
                                if lex_lt(s0[y - 1].0, key@) {
                                    lemma_lex_lt_trans(s0[n].0, s0[y - 1].0, key@);
                                }
                            }
                        }
                        assert(s0[y - 1].0 != key@);
                        if !lex_lt(key@, s0[y - 1].0) {
                            lemma_lex_lt_connected(s0[y - 1].0, key@);
                        }
                    } else {
                        assert(x < n && y > n);
                        if y - 1 == x {
                            assert(false);
                        }
                        assert(lex_lt(s0[x].0, s0[y - 1].0));
                    }
                }
                lemma_map_of_insert_mid(s0, idx as int, key@, value@);
            }
            false
        }
    }

    /// Removes the binding of `key`, keeping the entries sorted. Returns
    /// whether the key was present.
    pub fn remove(&mut self, key: &[u8]) -> (present: bool)
        requires
            old(self).wf(),
        ensures
            final(self).wf(),
            final(self).as_map() == old(self).as_map().remove(key@),
            present == old(self).as_map().contains_key(key@),
            final(self).policy_spec() == old(self).policy_spec(),
    {
        let ghost s0 = self.entries_seq();
        let idx = self.find_lower(key);
        proof {
            lemma_sorted_distinct(s0);
            lemma_map_of_dom(s0, key@);
        }
        if idx < self.entries.len() && bytes_eq(self.entries[idx].key.as_slice(), key) {
            self.entries.remove(idx);
            proof {
                let s1 = self.entries_seq();
                assert(s1 =~= s0.remove(idx as int));
                assert forall|x: int, y: int| 0 <= x < y < s1.len() implies #[trigger] lex_lt(
                    s1[x].0,
                    s1[y].0,
                ) by {
                    let n = idx as int;
                    let x0: int = if x < n {
                        x
                    } else {
                        x + 1
                    };
                    let y0: int = if y < n {
                        y
                    } else {
                        y + 1
                    };
                    assert(s1[x].0 == s0[x0].0 && s1[y].0 == s0[y0].0);
                    assert(lex_lt(s0[x0].0, s0[y0].0));
                }
                lemma_map_of_remove(s0, idx as int);
            }
            true
        } else {
            proof {
                assert forall|i: int| 0 <= i < s0.len() implies (#[trigger] s0[i]).0 != key@ by {
                    if i < idx {
                        if s0[i].0 == key@ {
                            lemma_lex_lt_irrefl(key@);
                        }
                    } else if i > idx {
                        if s0[i].0 == key@ {
                            assert(lex_lt(s0[idx as int].0, s0[i].0));
                        }
                    }
                }
                assert(!map_of(s0).contains_key(key@));
                assert(map_of(s0).remove(key@) =~= map_of(s0));
            }
            false
        }
    }
}

/// One end of a key range: every key, or the keys relative to a given one.
pub enum Bound {
    Unbounded,
    Included(Vec<u8>),
    Excluded(Vec<u8>),
}

impl<P: Policy> BasicTree<P> {
    /// The first position whose key is above `key`: every key before it is
    /// not, and the key there — if any — is.
    fn find_upper(&self, key: &[u8]) -> (idx: usize)
        requires
            self.wf(),
        ensures
            idx <= self.entries_seq().len(),
            forall|j: int| 0 <= j < idx ==> !lex_lt(key@, #[trigger] self.entries_seq()[j].0),
            idx < self.entries_seq().len() ==> lex_lt(key@, self.entries_seq()[idx as int].0),
    {
        let mut lo: usize = 0;
        let mut hi: usize = self.entries.len();
        while lo < hi
            invariant
                self.wf(),
                lo <= hi <= self.entries_seq().len(),
                self.entries_seq().len() == self.entries@.len(),
                forall|j: int| 0 <= j < lo ==> !lex_lt(key@, #[trigger] self.entries_seq()[j].0),
                forall|j: int|
                    hi <= j < self.entries_seq().len() ==> lex_lt(
                        key@,
                        #[trigger] self.entries_seq()[j].0,
                    ),
            decreases hi - lo,
        {
            let mid = lo + (hi - lo) / 2;
            if bytes_lt(key, self.entries[mid].key.as_slice()) {
                proof {
                    assert forall|j: int|
                        mid <= j < self.entries_seq().len() implies lex_lt(
                        key@,
                        #[trigger] self.entries_seq()[j].0,
                    ) by {
                        if j > mid {
                            lemma_lex_lt_trans(
                                key@,
                                self.entries_seq()[mid as int].0,
                                self.entries_seq()[j].0,
                            );
                        }
                    }
                }
                hi = mid;
            } else {
                proof {
                    assert forall|j: int| 0 <= j < mid + 1 implies !lex_lt(
                        key@,
                        #[trigger] self.entries_seq()[j].0,
                    ) by {
                        if j < mid {
                            if lex_lt(key@, self.entries_seq()[j].0) {
                                lemma_lex_lt_trans(
                                    key@,
                                    self.entries_seq()[j].0,
                                    self.entries_seq()[mid as int].0,
                                );
                            }
                        }
                    }
                }
                lo = mid + 1;
            }
        }
        lo
    }

    /// A cursor on the gap before the smallest key satisfying `bound`.
    pub fn lower_bound(&self, bound: &Bound) -> (c: BasicCursor<P>)
        requires
            self.wf(),
        ensures
            c.wf(),
            c.tree_spec() == *self,
            match *bound {
                Bound::Unbounded => c.gap_spec() == 0,
                Bound::Included(ref k) => (forall|j: int|
                    0 <= j < c.gap_spec() ==> lex_lt(#[trigger] self.entries_seq()[j].0, k@)) && (
                c.gap_spec() < self.entries_seq().len() ==> !lex_lt(
                    self.entries_seq()[c.gap_spec()].0,
                    k@,
                )),
                Bound::Excluded(ref k) => (forall|j: int|
                    0 <= j < c.gap_spec() ==> !lex_lt(k@, #[trigger] self.entries_seq()[j].0)) && (
                c.gap_spec() < self.entries_seq().len() ==> lex_lt(
                    k@,
                    self.entries_seq()[c.gap_spec()].0,
                )),
            },
    {
        let gap = match bound {
            Bound::Unbounded => 0,
            Bound::Included(k) => self.find_lower(k.as_slice()),
            Bound::Excluded(k) => self.find_upper(k.as_slice()),
        };
        BasicCursor { tree: self, gap }
    }

    /// A cursor on the gap after the greatest key satisfying `bound`.
    pub fn upper_bound(&self, bound: &Bound) -> (c: BasicCursor<P>)
        requires
            self.wf(),
        ensures
            c.wf(),
            c.tree_spec() == *self,
            match *bound {
                Bound::Unbounded => c.gap_spec() == self.entries_seq().len(),
                Bound::Included(ref k) => (forall|j: int|
                    0 <= j < c.gap_spec() ==> !lex_lt(k@, #[trigger] self.entries_seq()[j].0)) && (
                c.gap_spec() < self.entries_seq().len() ==> lex_lt(
                    k@,
                    self.entries_seq()[c.gap_spec()].0,
                )),
                Bound::Excluded(ref k) => (forall|j: int|
                    0 <= j < c.gap_spec() ==> lex_lt(#[trigger] self.entries_seq()[j].0, k@)) && (
                c.gap_spec() < self.entries_seq().len() ==> !lex_lt(
                    self.entries_seq()[c.gap_spec()].0,
                    k@,
                )),
            },
    {
        let gap = match bound {
            Bound::Unbounded => self.entries.len(),
            Bound::Included(k) => self.find_upper(k.as_slice()),
            Bound::Excluded(k) => self.find_lower(k.as_slice()),
        };
        BasicCursor { tree: self, gap }
    }
}

/// A cursor into a tree snapshot. It names the gap between two adjacent
/// entries (or before the first, or after the last) and moves over one
/// entry at a time in either direction. It borrows the tree, so the tree
/// cannot be mutated while a cursor is alive.
pub struct BasicCursor<'a, P: Policy> {
    tree: &'a BasicTree<P>,
    gap: usize,
}

impl<'a, P: Policy> BasicCursor<'a, P> {
    /// The tree this cursor walks.
    pub closed spec fn tree_spec(&self) -> BasicTree<P> {
        *self.tree
    }

    /// The gap the cursor stands on: the number of entries before it.
    pub closed spec fn gap_spec(&self) -> int {
        self.gap as int
    }

    /// A cursor is well-formed when its tree is and its gap is in range.
    pub open spec fn wf(&self) -> bool {
        &&& self.tree_spec().wf()
        &&& 0 <= self.gap_spec() <= self.tree_spec().entries_seq().len()
    }

    /// Moves over the next entry, returning a copy of it; at the end of the
    /// map, returns nothing and stays put.
    pub fn next(&mut self) -> (r: Option<(Vec<u8>, Vec<u8>)>)
        requires
            old(self).wf(),
        ensures
            final(self).wf(),
            final(self).tree_spec() == old(self).tree_spec(),
            old(self).gap_spec() == old(self).tree_spec().entries_seq().len() ==> r is None
                && final(self).gap_spec() == old(self).gap_spec(),
            old(self).gap_spec() < old(self).tree_spec().entries_seq().len() ==> {
                &&& final(self).gap_spec() == old(self).gap_spec() + 1
                &&& r matches Some(kv) && (kv.0@, kv.1@) == old(self).tree_spec().entries_seq()[old(
                    self,
                ).gap_spec()]
            },
    {
        if self.gap < self.tree.entries.len() {
            let e = &self.tree.entries[self.gap];
            let k = copy_bytes(e.key.as_slice());
            let v = copy_bytes(e.value.as_slice());
            self.gap = self.gap + 1;
            Some((k, v))
        } else {
            None
        }
    }

    /// Moves over the previous entry, returning a copy of it; at the start
    /// of the map, returns nothing and stays put.
    pub fn prev(&mut self) -> (r: Option<(Vec<u8>, Vec<u8>)>)
        requires
            old(self).wf(),
        ensures
            final(self).wf(),
            final(self).tree_spec() == old(self).tree_spec(),
            old(self).gap_spec() == 0 ==> r is None && final(self).gap_spec() == old(
                self,
            ).gap_spec(),
            old(self).gap_spec() > 0 ==> {
                &&& final(self).gap_spec() == old(self).gap_spec() - 1
                &&& r matches Some(kv) && (kv.0@, kv.1@) == old(self).tree_spec().entries_seq()[old(
                    self,
                ).gap_spec() - 1]
            },
    {
        if self.gap > 0 {
            self.gap = self.gap - 1;
            let e = &self.tree.entries[self.gap];
            let k = copy_bytes(e.key.as_slice());
            let v = copy_bytes(e.value.as_slice());
            Some((k, v))
        } else {
            None
        }
    }

    /// Returns a copy of the next entry without moving.
    pub fn peek_next(&self) -> (r: Option<(Vec<u8>, Vec<u8>)>)
        requires
            self.wf(),
        ensures
            self.gap_spec() == self.tree_spec().entries_seq().len() ==> r is None,
            self.gap_spec() < self.tree_spec().entries_seq().len() ==> (r matches Some(kv) && (
            kv.0@, kv.1@) == self.tree_spec().entries_seq()[self.gap_spec()]),
    {
        if self.gap < self.tree.entries.len() {
            let e = &self.tree.entries[self.gap];
            Some((copy_bytes(e.key.as_slice()), copy_bytes(e.value.as_slice())))
        } else {
            None
        }
    }

    /// Returns a copy of the previous entry without moving.
    pub fn peek_prev(&self) -> (r: Option<(Vec<u8>, Vec<u8>)>)
        requires
            self.wf(),
        ensures
            self.gap_spec() == 0 ==> r is None,
            self.gap_spec() > 0 ==> (r matches Some(kv) && (kv.0@, kv.1@) == self.tree_spec(
            ).entries_seq()[self.gap_spec() - 1]),
    {
        if self.gap > 0 {
            let e = &self.tree.entries[self.gap - 1];
            Some((copy_bytes(e.key.as_slice()), copy_bytes(e.value.as_slice())))
        } else {
            None
        }
    }
}

/// Walking a well-formed tree from the unbounded lower bound visits the
/// keys in strictly ascending order, and those keys are exactly the keys of
/// the map, each bound to its map value.
pub proof fn lemma_iteration_in_order<P: Policy>(t: &BasicTree<P>)
    requires
        t.wf(),
    ensures
        forall|i: int, j: int|
            0 <= i < j < t.entries_seq().len() ==> #[trigger] lex_lt(
                t.entries_seq()[i].0,
                t.entries_seq()[j].0,
            ),
        forall|k: Seq<u8>|
            t.as_map().contains_key(k) <==> exists|i: int|
                0 <= i < t.entries_seq().len() && (#[trigger] t.entries_seq()[i]).0 == k,
        forall|i: int|
            0 <= i < t.entries_seq().len() ==> t.as_map().contains_key(
                (#[trigger] t.entries_seq()[i]).0,
            ) && t.as_map()[t.entries_seq()[i].0] == t.entries_seq()[i].1,
{
    lemma_sorted_distinct(t.entries_seq());
    assert forall|k: Seq<u8>|
        t.as_map().contains_key(k) <==> exists|i: int|
            0 <= i < t.entries_seq().len() && (#[trigger] t.entries_seq()[i]).0 == k by {
        lemma_map_of_dom(t.entries_seq(), k);
    }
    assert forall|i: int| 0 <= i < t.entries_seq().len() implies t.as_map().contains_key(
        (#[trigger] t.entries_seq()[i]).0,
    ) && t.as_map()[t.entries_seq()[i].0] == t.entries_seq()[i].1 by {
        lemma_map_of_index(t.entries_seq(), i);
    }
}

/// Point reads after updates: an insert binds its key to its value, and a
/// removal unbinds it, whatever the map held before.
pub proof fn lemma_point_round_trip(m: Map<Seq<u8>, Seq<u8>>, k: Seq<u8>, v: Seq<u8>)
    ensures
        m.insert(k, v).contains_key(k),
        m.insert(k, v)[k] == v,
        !m.remove(k).contains_key(k),
{
}

/// The serialized form of one entry: both lengths as prefix-varint frames,
/// then the key bytes, then the value bytes.
pub open spec fn spec_encode_pair(p: (Seq<u8>, Seq<u8>)) -> Seq<u8> {
    encoding(p.0.len() as u64) + encoding(p.1.len() as u64) + p.0 + p.1
}

/// The serialized form of a node's entry list, the input of the content
/// hash.
pub open spec fn spec_serialize(items: Seq<(Seq<u8>, Seq<u8>)>) -> Seq<u8>
    decreases items.len(),
{
    if items.len() == 0 {
        Seq::empty()
    } else {
        spec_encode_pair(items[0]) + spec_serialize(items.drop_first())
    }
}

proof fn lemma_serialize_push(items: Seq<(Seq<u8>, Seq<u8>)>, p: (Seq<u8>, Seq<u8>))
    ensures
        spec_serialize(items.push(p)) == spec_serialize(items) + spec_encode_pair(p),
    decreases items.len(),
{
    if items.len() == 0 {
        assert(items.push(p)[0] == p);
        assert(items.push(p).drop_first() =~= Seq::<(Seq<u8>, Seq<u8>)>::empty());
        assert(spec_encode_pair(p) + spec_serialize(Seq::<(Seq<u8>, Seq<u8>)>::empty()) =~= Seq::<
            u8,
        >::empty() + spec_encode_pair(p));
        assert(Seq::<u8>::empty() + spec_encode_pair(p) =~= spec_encode_pair(p));
        assert(spec_serialize(items) + spec_encode_pair(p) =~= spec_encode_pair(p));
    } else {
        assert(items.push(p)[0] == items[0]);
        assert(items.push(p).drop_first() =~= items.drop_first().push(p));
        lemma_serialize_push(items.drop_first(), p);
        assert(spec_encode_pair(items[0]) + (spec_serialize(items.drop_first())
            + spec_encode_pair(p)) =~= (spec_encode_pair(items[0]) + spec_serialize(
            items.drop_first(),
        )) + spec_encode_pair(p));
    }
}

/// The size of the first node cut from `items` at `height`, scanning from
/// candidate size `s`: the least size at which the policy places a
/// boundary, or all of `items` if it places none.
pub open spec fn chunk_len_from<P: Policy>(p: P, height: nat, items: Seq<(Seq<u8>, Seq<u8>)>, s: nat) -> nat
    decreases items.len() - s,
{
    if s >= items.len() {
        items.len()
    } else if p.boundary_spec(height, items[s - 1].0, s) {
        s
    } else {
        chunk_len_from(p, height, items, s + 1)
    }
}

/// The size of the first node cut from `items` at `height`.
pub open spec fn chunk_len<P: Policy>(p: P, height: nat, items: Seq<(Seq<u8>, Seq<u8>)>) -> nat {
    chunk_len_from(p, height, items, 1)
}

proof fn lemma_chunk_len_from_bounds<P: Policy>(
    p: P,
    height: nat,
    items: Seq<(Seq<u8>, Seq<u8>)>,
    s: nat,
)
    requires
        1 <= s <= items.len(),
    ensures
        s <= chunk_len_from(p, height, items, s) <= items.len(),
    decreases items.len() - s,
{
    if s < items.len() && !p.boundary_spec(height, items[s - 1].0, s) {
        lemma_chunk_len_from_bounds(p, height, items, s + 1);
    }
}

/// The first cut is at least one entry and at most all of them.
pub proof fn lemma_chunk_len_bounds<P: Policy>(p: P, height: nat, items: Seq<(Seq<u8>, Seq<u8>)>)
    requires
        items.len() >= 1,
    ensures
        1 <= chunk_len(p, height, items) <= items.len(),
{
    lemma_chunk_len_from_bounds(p, height, items, 1);
}

/// The summary entry an upper level holds for one node: the node's first
/// key and the content hash of the node's serialized entries.
pub open spec fn summarize<P: Policy>(p: P, chunk: Seq<(Seq<u8>, Seq<u8>)>) -> (Seq<u8>, Seq<u8>) {
    (chunk[0].0, p.hash_spec(spec_serialize(chunk)))
}

/// The nodes of one level: entries grouped left to right, each group closed
/// at the first size where the policy places a boundary.
pub open spec fn level_split<P: Policy>(p: P, height: nat, items: Seq<(Seq<u8>, Seq<u8>)>) -> Seq<
    Seq<(Seq<u8>, Seq<u8>)>,
>
    decreases items.len(),
{
    if items.len() == 0 {
        Seq::empty()
    } else {
        let l = chunk_len(p, height, items);
        if 1 <= l <= items.len() {
            seq![items.take(l as int)] + level_split(p, height, items.skip(l as int))
        } else {
            seq![items]
        }
    }
}

/// The summaries of one level's nodes, in order.
pub open spec fn level_up<P: Policy>(p: P, height: nat, items: Seq<(Seq<u8>, Seq<u8>)>) -> Seq<
    (Seq<u8>, Seq<u8>),
> {
    level_split(p, height, items).map(|i: int, c: Seq<(Seq<u8>, Seq<u8>)>| summarize(p, c))
}

/// The level above `items`: its node summaries — except that a level which
/// refuses to shrink is closed off as a single node, so that the build
/// always terminates whatever the policy does.
pub open spec fn next_level<P: Policy>(p: P, height: nat, items: Seq<(Seq<u8>, Seq<u8>)>) -> Seq<
    (Seq<u8>, Seq<u8>),
> {
    let up = level_up(p, height, items);
    if items.len() > 1 && up.len() >= items.len() {
        seq![summarize(p, items)]
    } else {
        up
    }
}

proof fn lemma_level_split_count<P: Policy>(p: P, height: nat, items: Seq<(Seq<u8>, Seq<u8>)>)
    ensures
        level_split(p, height, items).len() <= items.len(),
        items.len() >= 1 ==> level_split(p, height, items).len() >= 1,
    decreases items.len(),
{
    if items.len() > 0 {
        lemma_chunk_len_bounds(p, height, items);
        let l = chunk_len(p, height, items);
        lemma_level_split_count(p, height, items.skip(l as int));
    }
}

/// A level of two or more nodes always summarizes into strictly fewer.
pub proof fn lemma_next_level_shrinks<P: Policy>(p: P, height: nat, items: Seq<(Seq<u8>, Seq<u8>)>)
    requires
        items.len() >= 1,
    ensures
        1 <= next_level(p, height, items).len() <= items.len(),
        items.len() > 1 ==> next_level(p, height, items).len() < items.len(),
{
    lemma_level_split_count(p, height, items);
}

/// The root hash reached from a level of node summaries at `height`.
pub open spec fn root_from<P: Policy>(p: P, height: nat, items: Seq<(Seq<u8>, Seq<u8>)>) -> Seq<
    u8,
>
    decreases items.len(),
{
    if items.len() == 0 {
        p.hash_spec(Seq::empty())
    } else if items.len() == 1 {
        items[0].1
    } else {
        let nx = next_level(p, height, items);
        if nx.len() < items.len() {
            root_from(p, (height + 1) as nat, nx)
        } else {
            p.hash_spec(Seq::empty())
        }
    }
}

/// The root content hash of the tree holding `entries`: leaves are cut by
/// the policy at height zero, summarized, and the summaries stacked level
/// by level until one node — the root — remains. An empty tree has the
/// distinguished hash of the empty byte string.
pub open spec fn spec_root_hash<P: Policy>(p: P, entries: Seq<(Seq<u8>, Seq<u8>)>) -> Seq<u8> {
    if entries.len() == 0 {
        p.hash_spec(Seq::empty())
    } else {
        root_from(p, 1, next_level(p, 0, entries))
    }
}

/// Appends `v` to `out`.
fn push_bytes(out: &mut Vec<u8>, v: &[u8])
    ensures
        final(out)@ == old(out)@ + v@,
{
    let mut i: usize = 0;
    while i < v.len()
        invariant
            i <= v@.len(),
            out@ == old(out)@ + v@.take(i as int),
        decreases v@.len() - i,
    {
        out.push(v[i]);
        proof {
            assert(old(out)@ + v@.take(i + 1) =~= (old(out)@ + v@.take(i as int)).push(
                v@[i as int],
            ));
        }
        i += 1;
    }
    proof {
        assert(v@.take(v@.len() as int) =~= v@);
    }
}

/// Serializes the entries `items[start..end]`.
fn serialize_range(items: &Vec<Entry>, start: usize, end: usize) -> (out: Vec<u8>)
    requires
        start <= end <= items@.len(),
    ensures
        out@ == spec_serialize(pairs_of(items@).subrange(start as int, end as int)),
{
    let ghost ps = pairs_of(items@);
    let mut out: Vec<u8> = Vec::new();
    let mut i = start;
    proof {
        assert(ps.subrange(start as int, start as int) =~= Seq::<(Seq<u8>, Seq<u8>)>::empty());
    }
    while i < end
        invariant
            start <= i <= end <= items@.len(),
            ps == pairs_of(items@),
            out@ == spec_serialize(ps.subrange(start as int, i as int)),
        decreases end - i,
    {
        let ghost before = out@;
        encode(items[i].key.len() as u64, &mut out);
        encode(items[i].value.len() as u64, &mut out);
        push_bytes(&mut out, items[i].key.as_slice());
        push_bytes(&mut out, items[i].value.as_slice());
        proof {
            let pr = ps[i as int];
            assert(pr == (items@[i as int].key@, items@[i as int].value@));
            assert(out@ =~= before + spec_encode_pair(pr));
            assert(ps.subrange(start as int, i + 1) =~= ps.subrange(start as int, i as int).push(
                pr,
            ));
            lemma_serialize_push(ps.subrange(start as int, i as int), pr);
        }
        i += 1;
    }
    out
}

/// The size of the node that begins at `start`.
fn chunk_len_exec<P: Policy>(p: &P, height: usize, items: &Vec<Entry>, start: usize) -> (l: usize)
    requires
        start < items@.len(),
    ensures
        l == chunk_len(*p, height as nat, pairs_of(items@).skip(start as int)),
        1 <= l <= items@.len() - start,
{
    let ghost sub = pairs_of(items@).skip(start as int);
    let n = items.len() - start;
    let mut s: usize = 1;
    while s < n
        invariant
            1 <= s <= n,
            n == sub.len(),
            sub == pairs_of(items@).skip(start as int),
            start + n == items@.len(),
            start + n <= usize::MAX,
            chunk_len(*p, height as nat, sub) == chunk_len_from(*p, height as nat, sub, s as nat),
        decreases n - s,
    {
        proof {
            assert(sub[s - 1].0 == items@[start + s - 1].key@);
        }
        if p.boundary_decision(height, items[start + s - 1].key.as_slice(), s) {
            return s;
        }
        s += 1;
    }
    proof {
        lemma_chunk_len_from_bounds(*p, height as nat, sub, s as nat);
    }
    n
}

/// The summary entry for the node `items[start..end]`.
fn summarize_exec<P: Policy>(p: &P, items: &Vec<Entry>, start: usize, end: usize) -> (e: Entry)
    requires
        start < end <= items@.len(),
    ensures
        (e.key@, e.value@) == summarize(*p, pairs_of(items@).subrange(start as int, end as int)),
{
    let bytes = serialize_range(items, start, end);
    let h = p.content_hash(bytes.as_slice());
    let k = copy_bytes(items[start].key.as_slice());
    proof {
        assert(pairs_of(items@).subrange(start as int, end as int)[0] == pairs_of(
            items@,
        )[start as int]);
    }
    Entry { key: k, value: h }
}

/// Builds the level above `items`.
fn next_level_exec<P: Policy>(p: &P, height: usize, items: &Vec<Entry>) -> (out: Vec<Entry>)
    requires
        items@.len() >= 1,
    ensures
        pairs_of(out@) == next_level(*p, height as nat, pairs_of(items@)),
{
    let ghost full = pairs_of(items@);
    let mut out: Vec<Entry> = Vec::new();
    let mut start: usize = 0;
    proof {
        assert(pairs_of(out@) =~= Seq::<(Seq<u8>, Seq<u8>)>::empty());
        assert(full.skip(0) =~= full);
        assert(pairs_of(out@) + level_up(*p, height as nat, full) =~= level_up(
            *p,
            height as nat,
            full,
        ));
    }
    while start < items.len()
        invariant
            start <= items@.len(),
            full == pairs_of(items@),
            level_up(*p, height as nat, full) == pairs_of(out@) + level_up(
                *p,
                height as nat,
                full.skip(start as int),
            ),
        decreases items@.len() - start,
    {
        let l = chunk_len_exec(p, height, items, start);
        let e = summarize_exec(p, items, start, start + l);
        let ghost out_before = pairs_of(out@);
        out.push(e);
        proof {
            let rest = full.skip(start as int);
            let chunk = rest.take(l as int);
            assert(chunk =~= full.subrange(start as int, start + l));
            assert(rest.skip(l as int) =~= full.skip(start + l));
            let split = level_split(*p, height as nat, rest);
            assert(split == seq![chunk] + level_split(*p, height as nat, full.skip(start + l)));
            let f = |i: int, c: Seq<(Seq<u8>, Seq<u8>)>| summarize(*p, c);
            assert(level_up(*p, height as nat, rest) =~= seq![summarize(*p, chunk)] + level_up(
                *p,
                height as nat,
                full.skip(start + l),
            ));
            assert(pairs_of(out@) =~= out_before.push((e.key@, e.value@)));
            assert(pairs_of(out@) + level_up(*p, height as nat, full.skip(start + l)) =~=
                out_before + level_up(*p, height as nat, rest));
        }
        start += l;
    }
    proof {
        assert(full.skip(items@.len() as int) =~= Seq::<(Seq<u8>, Seq<u8>)>::empty());
        assert(level_up(*p, height as nat, Seq::<(Seq<u8>, Seq<u8>)>::empty()) =~= Seq::<
            (Seq<u8>, Seq<u8>),
        >::empty());
        assert(pairs_of(out@) =~= level_up(*p, height as nat, full));
    }
    if items.len() > 1 && out.len() >= items.len() {
        let m = summarize_exec(p, items, 0, items.len());
        let mut single: Vec<Entry> = Vec::new();
        single.push(m);
        proof {
            assert(full.subrange(0, items@.len() as int) =~= full);
            assert(pairs_of(single@) =~= seq![summarize(*p, full)]);
            assert(pairs_of(out@).len() == out@.len());
        }
        single
    } else {
        proof {
            assert(pairs_of(out@).len() == out@.len());
        }
        out
    }
}

impl<P: Policy> BasicTree<P> {
    /// The root content hash: the identity of the whole map under the
    /// tree's policy.
    pub fn root_hash(&self) -> (h: Vec<u8>)
        ensures
            h@ == spec_root_hash(self.policy_spec(), self.entries_seq()),
    {
        if self.entries.len() == 0 {
            let e: Vec<u8> = Vec::new();
            return self.policy.content_hash(e.as_slice());
        }
        let total = self.entries.len();
        let mut cur: Vec<Entry> = next_level_exec(&self.policy, 0, &self.entries);
        let mut height: usize = 1;
        proof {
            lemma_next_level_shrinks(self.policy_spec(), 0, self.entries_seq());
            assert(pairs_of(cur@).len() == cur@.len());
        }
        while cur.len() > 1
            invariant
                cur@.len() >= 1,
                total == self.entries@.len(),
                height + cur@.len() <= total + 1,
                spec_root_hash(self.policy_spec(), self.entries_seq()) == root_from(
                    self.policy_spec(),
                    height as nat,
                    pairs_of(cur@),
                ),
            decreases cur@.len(),
        {
            let nx = next_level_exec(&self.policy, height, &cur);
            proof {
                lemma_next_level_shrinks(self.policy_spec(), height as nat, pairs_of(cur@));
                assert(pairs_of(nx@).len() == nx@.len());
                assert(pairs_of(cur@).len() == cur@.len());
            }
            cur = nx;
            height += 1;
        }
        proof {
            assert(pairs_of(cur@)[0] == (cur@[0].key@, cur@[0].value@));
        }
        copy_bytes(cur[0].value.as_slice())
    }
}

proof fn lemma_chunk_len_from_props<P: Policy>(
    p: P,
    height: nat,
    items: Seq<(Seq<u8>, Seq<u8>)>,
    s: nat,
)
    requires
        1 <= s <= items.len(),
    ensures
        forall|t: nat|
            s <= t < chunk_len_from(p, height, items, s) ==> !p.boundary_spec(
                height,
                (#[trigger] items[t - 1]).0,
                t,
            ),
        chunk_len_from(p, height, items, s) < items.len() ==> p.boundary_spec(
            height,
            items[chunk_len_from(p, height, items, s) - 1].0,
            chunk_len_from(p, height, items, s),
        ),
    decreases items.len() - s,
{
    if s < items.len() && !p.boundary_spec(height, items[s - 1].0, s) {
        lemma_chunk_len_from_props(p, height, items, s + 1);
    }
}

/// The structural invariants of one level of the tree, as the policy cuts
/// it: every node is nonempty; the nodes partition the level's entries in
/// order; a boundary falls exactly where the policy dictates — no interior
/// position of a node accepts one, and every node but the rightmost ends on
/// one; and when the level is sorted, so is every node. A node's own key is
/// its first entry's key, and an upper level holds for each node exactly
/// the content hash of its serialized entries, both by the definition of
/// its summary.
pub proof fn lemma_level_invariants<P: Policy>(p: P, height: nat, items: Seq<(Seq<u8>, Seq<u8>)>)
    ensures
        forall|c: int|
            0 <= c < level_split(p, height, items).len() ==> (#[trigger] level_split(
                p,
                height,
                items,
            )[c]).len() >= 1,
        level_split(p, height, items).flatten() == items,
        forall|c: int, t: nat|
            0 <= c < level_split(p, height, items).len() && 1 <= t < level_split(
                p,
                height,
                items,
            )[c].len() ==> !(#[trigger] p.boundary_spec(
                height,
                level_split(p, height, items)[c][t - 1].0,
                t,
            )),
        forall|c: int|
            0 <= c < level_split(p, height, items).len() - 1 ==> p.boundary_spec(
                height,
                (#[trigger] level_split(p, height, items)[c]).last().0,
                level_split(p, height, items)[c].len() as nat,
            ),
        sorted_strict(items) ==> forall|c: int|
            0 <= c < level_split(p, height, items).len() ==> sorted_strict(
                #[trigger] level_split(p, height, items)[c],
            ),
    decreases items.len(),
{
    let chunks = level_split(p, height, items);
    if items.len() == 0 {
        assert(chunks.flatten() =~= items);
    } else {
        lemma_chunk_len_bounds(p, height, items);
        let l = chunk_len(p, height, items) as int;
        let head = items.take(l);
        let tail = items.skip(l);
        let rest = level_split(p, height, tail);
        lemma_chunk_len_from_props(p, height, items, 1);
        lemma_level_invariants(p, height, tail);
        assert(chunks == seq![head] + rest);
        assert(chunks.drop_first() =~= rest);
        assert(chunks.flatten() == head + rest.flatten());
        assert(head + tail =~= items);
        assert forall|c: int, t: nat|
            0 <= c < chunks.len() && 1 <= t < chunks[c].len() implies !(#[trigger] p.boundary_spec(
            height,
            chunks[c][t - 1].0,
            t,
        )) by {
            if c == 0 {
                assert(chunks[0] == head);
                assert(head[t - 1] == items[t - 1]);
            } else {
                assert(chunks[c] == rest[c - 1]);
            }
        }
        assert forall|c: int| 0 <= c < chunks.len() - 1 implies p.boundary_spec(
            height,
            (#[trigger] chunks[c]).last().0,
            chunks[c].len() as nat,
        ) by {
            if c == 0 {
                assert(chunks[0] == head);
                assert(rest.len() >= 1);
                assert(tail.len() >= 1);
                assert(l < items.len());
                assert(head.last() == items[l - 1]);
            } else {
                assert(chunks[c] == rest[c - 1]);
            }
        }
        if sorted_strict(items) {
            assert forall|x: int, y: int| 0 <= x < y < tail.len() implies #[trigger] lex_lt(
                tail[x].0,
                tail[y].0,
            ) by {
                assert(tail[x] == items[x + l] && tail[y] == items[y + l]);
                assert(lex_lt(items[x + l].0, items[y + l].0));
            }
            assert forall|c: int| 0 <= c < chunks.len() implies sorted_strict(
                #[trigger] chunks[c],
            ) by {
                if c == 0 {
                    assert(chunks[0] == head);
                    assert forall|x: int, y: int|
                        0 <= x < y < head.len() implies #[trigger] lex_lt(
                        head[x].0,
                        head[y].0,
                    ) by {
                        assert(head[x] == items[x] && head[y] == items[y]);
                        assert(lex_lt(items[x].0, items[y].0));
                    }
                } else {
                    assert(chunks[c] == rest[c - 1]);
                }
            }
        }
    }
}

/// One materialized node: its height, its entries, and its content hash —
/// what an internal entry one level up points at.
pub struct BasicNode {
    pub height: u64,
    pub entries: Vec<Entry>,
    pub hash: Vec<u8>,
}

/// Copies the entries `items[start..end]`.
fn copy_range(items: &Vec<Entry>, start: usize, end: usize) -> (out: Vec<Entry>)
    requires
        start <= end <= items@.len(),
    ensures
        pairs_of(out@) == pairs_of(items@).subrange(start as int, end as int),
{
    let mut out: Vec<Entry> = Vec::new();
    let mut i = start;
    while i < end
        invariant
            start <= i <= end <= items@.len(),
            out@.len() == i - start,
            forall|j: int|
                0 <= j < out@.len() ==> (#[trigger] out@[j]).key@ == items@[start + j].key@
                    && out@[j].value@ == items@[start + j].value@,
        decreases end - i,
    {
        let e = Entry {
            key: copy_bytes(items[i].key.as_slice()),
            value: copy_bytes(items[i].value.as_slice()),
        };
        out.push(e);
        i += 1;
    }
    proof {
        assert forall|j: int| 0 <= j < out@.len() implies pairs_of(out@)[j] == pairs_of(
            items@,
        ).subrange(start as int, end as int)[j] by {
            assert(pairs_of(out@)[j] == (out@[j].key@, out@[j].value@));
            assert(pairs_of(items@)[start + j] == (items@[start + j].key@, items@[start
                + j].value@));
        }
        assert(pairs_of(out@) =~= pairs_of(items@).subrange(start as int, end as int));
    }
    out
}

impl<P: Policy> BasicTree<P> {
    /// Materializes the leaf level: the nodes the policy cuts the entries
    /// into, each carrying its height, its entries, and its content hash.
    pub fn leaf_nodes(&self) -> (ns: Vec<BasicNode>)
        ensures
            ns@.len() == level_split(self.policy_spec(), 0, self.entries_seq()).len(),
            forall|c: int|
                0 <= c < ns@.len() ==> {
                    let chunk = level_split(self.policy_spec(), 0, self.entries_seq())[c];
                    &&& pairs_of((#[trigger] ns@[c]).entries@) == chunk
                    &&& ns@[c].height == 0
                    &&& ns@[c].hash@ == self.policy_spec().hash_spec(spec_serialize(chunk))
                },
    {
        let ghost full = self.entries_seq();
        let mut ns: Vec<BasicNode> = Vec::new();
        let ghost mut done: Seq<Seq<(Seq<u8>, Seq<u8>)>> = Seq::empty();
        let mut start: usize = 0;
        proof {
            assert(full.skip(0) =~= full);
            assert(done + level_split(self.policy_spec(), 0, full) =~= level_split(
                self.policy_spec(),
                0,
                full,
            ));
        }
        while start < self.entries.len()
            invariant
                start <= self.entries@.len(),
                full == self.entries_seq(),
                ns@.len() == done.len(),
                level_split(self.policy_spec(), 0, full) == done + level_split(
                    self.policy_spec(),
                    0,
                    full.skip(start as int),
                ),
                forall|c: int|
                    0 <= c < done.len() ==> {
                        let chunk = #[trigger] done[c];
                        &&& pairs_of(ns@[c].entries@) == chunk
                        &&& ns@[c].height == 0
                        &&& ns@[c].hash@ == self.policy_spec().hash_spec(spec_serialize(chunk))
                    },
            decreases self.entries@.len() - start,
        {
            let l = chunk_len_exec(&self.policy, 0, &self.entries, start);
            let bytes = serialize_range(&self.entries, start, start + l);
            let h = self.policy.content_hash(bytes.as_slice());
            let node = BasicNode { height: 0, entries: copy_range(&self.entries, start, start + l), hash: h };
            ns.push(node);
            proof {
                let rest = full.skip(start as int);
                let chunk = rest.take(l as int);
                assert(chunk =~= full.subrange(start as int, start + l));
                assert(rest.skip(l as int) =~= full.skip(start + l));
                assert(level_split(self.policy_spec(), 0, rest) == seq![chunk] + level_split(
                    self.policy_spec(),
                    0,
                    full.skip(start + l),
                ));
                assert(done + level_split(self.policy_spec(), 0, rest) =~= done.push(chunk)
                    + level_split(self.policy_spec(), 0, full.skip(start + l)));
                done = done.push(chunk);
            }
            start += l;
        }
        proof {
            assert(full.skip(self.entries@.len() as int) =~= Seq::<(Seq<u8>, Seq<u8>)>::empty());
            assert(level_split(self.policy_spec(), 0, Seq::<(Seq<u8>, Seq<u8>)>::empty())
                =~= Seq::<Seq<(Seq<u8>, Seq<u8>)>>::empty());
            assert(done + Seq::<Seq<(Seq<u8>, Seq<u8>)>>::empty() =~= done);
        }
        ns
    }
}

/// Interface of a Prolly tree held in a page store: the same vocabulary as
/// [`BasicTree`], phrased for an implementation whose nodes live in pages
/// and travel through a [`crate::storage::paging::Store`]. [`BasicTree`]
/// keeps its entries in memory instead, so its operations take no store.
pub trait Tree<S: crate::storage::paging::Store>: Sized {
    /// The type of cursors used by this tree.
    type Cursor;

    /// Returns a copy of the value corresponding to the key.
    fn get(&self, store: &mut S, key: &[u8]) -> Option<Vec<u8>>;

    /// Inserts or updates a key-value pair. Returns whether the key was
    /// present.
    fn insert(&mut self, store: &mut S, key: &[u8], value: &[u8]) -> bool;

    /// Removes a key-value pair. Returns whether the key was present.
    fn remove(&mut self, store: &mut S, key: &[u8]) -> bool;

    /// A cursor on the gap after the greatest key satisfying the bound.
    fn upper_bound(&self, store: &mut S, bound: &Bound) -> Self::Cursor;

    /// A cursor on the gap before the smallest key satisfying the bound.
    fn lower_bound(&self, store: &mut S, bound: &Bound) -> Self::Cursor;
}

/// Interface of a cursor over a store-backed tree; the counterpart of
/// [`BasicCursor`] for implementations that read nodes through a store.
pub trait Cursor<S: crate::storage::paging::Store> {
    /// Moves over the next entry, or returns nothing at the end of the map.
    fn next(&mut self, store: &mut S) -> Option<(Vec<u8>, Vec<u8>)>;

    /// Moves over the previous entry, or returns nothing at the start.
    fn prev(&mut self, store: &mut S) -> Option<(Vec<u8>, Vec<u8>)>;

    /// Returns the next entry without moving.
    fn peek_next(&mut self, store: &mut S) -> Option<(Vec<u8>, Vec<u8>)>;

    /// Returns the previous entry without moving.
    fn peek_prev(&mut self, store: &mut S) -> Option<(Vec<u8>, Vec<u8>)>;
}

/// The serialized snapshot of a whole tree: the entry count, then every
/// entry in key order, all lengths as prefix-varint frames.
pub open spec fn snapshot_bytes(s: Seq<(Seq<u8>, Seq<u8>)>) -> Seq<u8> {
    encoding(s.len() as u64) + spec_serialize(s)
}

/// Entry sequences whose count and lengths fit the 64-bit frames of the
/// snapshot format; every sequence held in memory does.
pub open spec fn snapshot_fits(s: Seq<(Seq<u8>, Seq<u8>)>) -> bool {
    &&& s.len() < 0x1_0000_0000_0000_0000
    &&& forall|i: int|
        0 <= i < s.len() ==> (#[trigger] s[i]).0.len() < 0x1_0000_0000_0000_0000 && s[i].1.len()
            < 0x1_0000_0000_0000_0000
}

proof fn lemma_encoding_prefix_injective(a: u64, b: u64, r1: Seq<u8>, r2: Seq<u8>)
    requires
        encoding(a) + r1 == encoding(b) + r2,
    ensures
        a == b,
        r1 == r2,
{
    crate::encoding::prefix_varint::lemma_round_trip(a);
    crate::encoding::prefix_varint::lemma_round_trip(b);
    let ea = encoding(a);
    let eb = encoding(b);
    assert((ea + r1)[0] == ea[0]);
    assert((eb + r2)[0] == eb[0]);
    assert(ea.len() == eb.len());
    assert((ea + r1).len() == (eb + r2).len());
    assert(r1.len() == r2.len());
    assert(ea =~= eb) by {
        assert forall|i: int| 0 <= i < ea.len() implies ea[i] == eb[i] by {
            assert((ea + r1)[i] == ea[i]);
            assert((eb + r2)[i] == eb[i]);
        }
    }
    assert(r1 =~= r2) by {
        assert forall|i: int| 0 <= i < r1.len() implies r1[i] == r2[i] by {
            assert((ea + r1)[ea.len() + i] == r1[i]);
            assert((eb + r2)[eb.len() + i] == r2[i]);
        }
    }
}

proof fn lemma_raw_prefix_injective(k1: Seq<u8>, k2: Seq<u8>, r1: Seq<u8>, r2: Seq<u8>)
    requires
        k1.len() == k2.len(),
        k1 + r1 == k2 + r2,
    ensures
        k1 == k2,
        r1 == r2,
{
    assert((k1 + r1).len() == k1.len() + r1.len());
    assert((k2 + r2).len() == k2.len() + r2.len());
    assert(r1.len() == r2.len());
    assert(k1 =~= k2) by {
        assert forall|i: int| 0 <= i < k1.len() implies k1[i] == k2[i] by {
            assert((k1 + r1)[i] == k1[i]);
            assert((k2 + r2)[i] == k2[i]);
        }
    }
    assert(r1 =~= r2) by {
        assert forall|i: int| 0 <= i < r1.len() implies r1[i] == r2[i] by {
            assert((k1 + r1)[k1.len() + i] == r1[i]);
            assert((k2 + r2)[k2.len() + i] == r2[i]);
        }
    }
}

proof fn lemma_encode_pair_prefix_injective(
    p1: (Seq<u8>, Seq<u8>),
    p2: (Seq<u8>, Seq<u8>),
    r1: Seq<u8>,
    r2: Seq<u8>,
)
    requires
        p1.0.len() < 0x1_0000_0000_0000_0000,
        p1.1.len() < 0x1_0000_0000_0000_0000,
        p2.0.len() < 0x1_0000_0000_0000_0000,
        p2.1.len() < 0x1_0000_0000_0000_0000,
        spec_encode_pair(p1) + r1 == spec_encode_pair(p2) + r2,
    ensures
        p1 == p2,
        r1 == r2,
{
    let kl1 = p1.0.len() as u64;
    let kl2 = p2.0.len() as u64;
    let vl1 = p1.1.len() as u64;
    let vl2 = p2.1.len() as u64;
    assert(spec_encode_pair(p1) + r1 =~= encoding(kl1) + (encoding(vl1) + (p1.0 + (p1.1 + r1))));
    assert(spec_encode_pair(p2) + r2 =~= encoding(kl2) + (encoding(vl2) + (p2.0 + (p2.1 + r2))));
    lemma_encoding_prefix_injective(
        kl1,
        kl2,
        encoding(vl1) + (p1.0 + (p1.1 + r1)),
        encoding(vl2) + (p2.0 + (p2.1 + r2)),
    );
    lemma_encoding_prefix_injective(vl1, vl2, p1.0 + (p1.1 + r1), p2.0 + (p2.1 + r2));
    lemma_raw_prefix_injective(p1.0, p2.0, p1.1 + r1, p2.1 + r2);
    lemma_raw_prefix_injective(p1.1, p2.1, r1, r2);
    assert(p1 =~= p2);
}

proof fn lemma_serialize_injective(s1: Seq<(Seq<u8>, Seq<u8>)>, s2: Seq<(Seq<u8>, Seq<u8>)>)
    requires
        s1.len() == s2.len(),
        snapshot_fits(s1),
        snapshot_fits(s2),
        spec_serialize(s1) == spec_serialize(s2),
    ensures
        s1 == s2,
    decreases s1.len(),
{
    if s1.len() == 0 {
        assert(s1 =~= s2);
    } else {
        lemma_encode_pair_prefix_injective(
            s1[0],
            s2[0],
            spec_serialize(s1.drop_first()),
            spec_serialize(s2.drop_first()),
        );
        let t1 = s1.drop_first();
        let t2 = s2.drop_first();
        assert(snapshot_fits(t1)) by {
            assert forall|i: int|
                0 <= i < t1.len() implies (#[trigger] t1[i]).0.len() < 0x1_0000_0000_0000_0000
                && t1[i].1.len() < 0x1_0000_0000_0000_0000 by {
                assert(t1[i] == s1[i + 1]);
            }
        }
        assert(snapshot_fits(t2)) by {
            assert forall|i: int|
                0 <= i < t2.len() implies (#[trigger] t2[i]).0.len() < 0x1_0000_0000_0000_0000
                && t2[i].1.len() < 0x1_0000_0000_0000_0000 by {
                assert(t2[i] == s2[i + 1]);
            }
        }
        lemma_serialize_injective(t1, t2);
        assert forall|i: int| 0 <= i < s1.len() implies s1[i] == s2[i] by {
            if i > 0 {
                assert(t1[i - 1] == t2[i - 1]);
            }
        }
        assert(s1 =~= s2);
    }
}

/// A snapshot pins down its entries: two entry sequences with the same
/// serialized snapshot are the same sequence. With [`lemma_unicity`] this
/// makes the snapshot on disk as canonical as the root hash.
pub proof fn lemma_snapshot_injective(s1: Seq<(Seq<u8>, Seq<u8>)>, s2: Seq<(Seq<u8>, Seq<u8>)>)
    requires
        snapshot_fits(s1),
        snapshot_fits(s2),
        snapshot_bytes(s1) == snapshot_bytes(s2),
    ensures
        s1 == s2,
{
    lemma_encoding_prefix_injective(
        s1.len() as u64,
        s2.len() as u64,
        spec_serialize(s1),
        spec_serialize(s2),
    );
    lemma_serialize_injective(s1, s2);
}

/// Serialization splits over concatenation.
proof fn lemma_serialize_concat(a: Seq<(Seq<u8>, Seq<u8>)>, b: Seq<(Seq<u8>, Seq<u8>)>)
    ensures
        spec_serialize(a + b) == spec_serialize(a) + spec_serialize(b),
    decreases a.len(),
{
    if a.len() == 0 {
        assert(a + b =~= b);
        assert(spec_serialize(a) + spec_serialize(b) =~= spec_serialize(b));
    } else {
        assert((a + b)[0] == a[0]);
        assert((a + b).drop_first() =~= a.drop_first() + b);
        lemma_serialize_concat(a.drop_first(), b);
        assert(spec_encode_pair(a[0]) + (spec_serialize(a.drop_first()) + spec_serialize(b)) =~= (
        spec_encode_pair(a[0]) + spec_serialize(a.drop_first())) + spec_serialize(b));
    }
}

/// Every entry takes at least two bytes.
proof fn lemma_serialize_min_len(s: Seq<(Seq<u8>, Seq<u8>)>)
    ensures
        spec_serialize(s).len() >= 2 * s.len(),
    decreases s.len(),
{
    if s.len() > 0 {
        lemma_serialize_min_len(s.drop_first());
        crate::encoding::prefix_varint::lemma_encoding_length(s[0].0.len() as u64);
        crate::encoding::prefix_varint::lemma_encoding_length(s[0].1.len() as u64);
    }
}

/// Where a snapshot places the pieces of its `i`-th entry, given that the
/// first `i` entries have been read off.
#[verifier::rlimit(100)]
proof fn lemma_snapshot_step(
    bytes: Seq<u8>,
    pos: int,
    count: u64,
    s: Seq<(Seq<u8>, Seq<u8>)>,
    i: int,
)
    requires
        snapshot_fits(s),
        bytes == snapshot_bytes(s),
        0 <= i < s.len(),
        s.len() == count,
        0 <= pos <= bytes.len(),
        bytes.subrange(0, pos) == encoding(count) + spec_serialize(s.take(i)),
    ensures
        ({
            let kl = s[i].0.len() as u64;
            let vl = s[i].1.len() as u64;
            let a = pos + encoding(kl).len();
            let b = a + encoding(vl).len();
            let c = b + s[i].0.len();
            let d = c + s[i].1.len();
            &&& d <= bytes.len()
            &&& bytes.subrange(pos, a) == encoding(kl)
            &&& bytes.subrange(a, b) == encoding(vl)
            &&& bytes.subrange(b, c) == s[i].0
            &&& bytes.subrange(c, d) == s[i].1
            &&& bytes.subrange(0, d) == encoding(count) + spec_serialize(s.take(i + 1))
        }),
{
    let kl = s[i].0.len() as u64;
    let vl = s[i].1.len() as u64;
    assert(s.take(i) + s.skip(i) =~= s);
    lemma_serialize_concat(s.take(i), s.skip(i));
    let rest = s.skip(i);
    assert(rest[0] == s[i]);
    assert(spec_serialize(rest) == spec_encode_pair(s[i]) + spec_serialize(rest.drop_first()));
    assert(rest.drop_first() =~= s.skip(i + 1));
    assert(bytes =~= bytes.subrange(0, pos) + bytes.subrange(pos, bytes.len() as int));
    assert((encoding(count) + spec_serialize(s.take(i))) + spec_serialize(rest) =~= encoding(
        count,
    ) + spec_serialize(s));
    assert(bytes.subrange(pos, bytes.len() as int) =~= spec_serialize(rest)) by {
        let p = bytes.subrange(0, pos);
        let t1 = bytes.subrange(pos, bytes.len() as int);
        let t2 = spec_serialize(rest);
        assert(p + t1 =~= bytes);
        assert(p + t2 =~= bytes);
        assert((p + t1).len() == p.len() + t1.len());
        assert((p + t2).len() == p.len() + t2.len());
        assert forall|j: int| 0 <= j < t1.len() implies t1[j] == t2[j] by {
            assert((p + t1)[p.len() + j] == t1[j]);
            assert((p + t2)[p.len() + j] == t2[j]);
        }
    }
    let a = pos + encoding(kl).len();
    let b = a + encoding(vl).len();
    let c = b + s[i].0.len();
    let d = c + s[i].1.len();
    assert(spec_encode_pair(s[i]) == encoding(kl) + encoding(vl) + s[i].0 + s[i].1);
    assert(bytes.subrange(pos, bytes.len() as int) =~= encoding(kl) + encoding(vl) + s[i].0
        + s[i].1 + spec_serialize(s.skip(i + 1)));
    assert(d <= bytes.len());
    assert(bytes.subrange(pos, a) =~= encoding(kl));
    assert(bytes.subrange(a, b) =~= encoding(vl));
    assert(bytes.subrange(b, c) =~= s[i].0);
    assert(bytes.subrange(c, d) =~= s[i].1);
    assert(s.take(i + 1) =~= s.take(i).push(s[i]));
    lemma_serialize_push(s.take(i), s[i]);
    assert(bytes.subrange(0, d) =~= (encoding(count) + spec_serialize(s.take(i))) + (encoding(kl)
        + encoding(vl) + s[i].0 + s[i].1));
    assert((encoding(count) + spec_serialize(s.take(i))) + spec_encode_pair(s[i]) =~= encoding(
        count,
    ) + spec_serialize(s.take(i + 1)));
}

/// Reads one canonical prefix-varint frame at `pos`. Rejects a truncated
/// frame, and a frame longer than the length rule gives its value, so that
/// each value is read back from exactly one byte string — and it fails
/// exactly when no canonical frame sits at `pos`.
fn read_frame(bytes: &Vec<u8>, pos: usize) -> (r: Result<(u64, usize), StorageError>)
    ensures
        r matches Ok((x, end)) ==> pos < end <= bytes@.len() && bytes@.subrange(
            pos as int,
            end as int,
        ) == encoding(x),
        r is Err ==> r == Err::<(u64, usize), StorageError>(StorageError::CorruptFormat),
        r is Err ==> forall|x: u64|
            #![trigger encoding(x)]
            pos + encoding(x).len() <= bytes@.len() ==> bytes@.subrange(
                pos as int,
                pos + encoding(x).len(),
            ) != encoding(x),
{
    let n = bytes.len();
    if pos >= n {
        proof {
            assert forall|x: u64|
                pos + encoding(x).len() <= bytes@.len() implies bytes@.subrange(
                pos as int,
                pos + (#[trigger] encoding(x)).len(),
            ) != encoding(x) by {
                crate::encoding::prefix_varint::lemma_encoding_length(x);
            }
        }
        return Err(StorageError::CorruptFormat);
    }
    let first = bytes[pos];
    let flen = crate::encoding::prefix_varint::length(first) as usize;
    if n - pos < flen {
        proof {
            assert forall|x: u64|
                pos + encoding(x).len() <= bytes@.len() implies bytes@.subrange(
                pos as int,
                pos + (#[trigger] encoding(x)).len(),
            ) != encoding(x) by {
                crate::encoding::prefix_varint::lemma_round_trip(x);
                if bytes@.subrange(pos as int, pos + encoding(x).len()) == encoding(x) {
                    assert(bytes@[pos as int] == encoding(x)[0]);
                }
            }
        }
        return Err(StorageError::CorruptFormat);
    }
    let sub = &bytes.as_slice()[pos..n];
    let x = crate::encoding::prefix_varint::decode(sub);
    let want = crate::encoding::prefix_varint::frame_bytes(x);
    if want != flen {
        proof {
            let s = bytes@.subrange(pos as int, n as int);
            assert(s[0] == bytes@[pos as int]);
            assert forall|y: u64|
                pos + encoding(y).len() <= bytes@.len() implies bytes@.subrange(
                pos as int,
                pos + (#[trigger] encoding(y)).len(),
            ) != encoding(y) by {
                crate::encoding::prefix_varint::lemma_round_trip(y);
                if bytes@.subrange(pos as int, pos + encoding(y).len()) == encoding(y) {
                    assert(s[0] == encoding(y)[0]);
                    assert(encoding(y).len() == flen);
                    assert(s =~= encoding(y) + s.skip(flen as int));
                    crate::encoding::prefix_varint::lemma_decode_ignores_trailing(
                        encoding(y),
                        s.skip(flen as int),
                    );
                    assert(x == y);
                }
            }
        }
        return Err(StorageError::CorruptFormat);
    }
    proof {
        let s = bytes@.subrange(pos as int, n as int);
        assert(s[0] == bytes@[pos as int]);
        crate::encoding::prefix_varint::lemma_canonical_frame(s);
        assert(s.take(flen as int) =~= bytes@.subrange(pos as int, (pos + flen) as int));
    }
    Ok((x, pos + flen))
}

/// Whether `bytes` is the snapshot of the sorted, representable entry
/// sequence `s` — exactly the byte strings the parser accepts.
pub open spec fn valid_snapshot_of(bytes: Seq<u8>, s: Seq<(Seq<u8>, Seq<u8>)>) -> bool {
    &&& sorted_strict(s)
    &&& snapshot_fits(s)
    &&& bytes == snapshot_bytes(s)
}

/// When the parser's two length frames sit where a snapshot of `s` puts
/// its `i`-th entry, they carry that entry's lengths and its bytes follow.
proof fn lemma_match_step(
    bytes: Seq<u8>,
    pos0: int,
    count: u64,
    s: Seq<(Seq<u8>, Seq<u8>)>,
    i: int,
    klen: u64,
    p1: int,
    vlen: u64,
    p2: int,
)
    requires
        snapshot_fits(s),
        bytes == snapshot_bytes(s),
        0 <= i < s.len(),
        s.len() == count,
        0 <= pos0 <= p1 <= p2 <= bytes.len(),
        bytes.subrange(0, pos0) == encoding(count) + spec_serialize(s.take(i)),
        bytes.subrange(pos0, p1) == encoding(klen),
        bytes.subrange(p1, p2) == encoding(vlen),
    ensures
        klen == s[i].0.len() as u64,
        vlen == s[i].1.len() as u64,
        p2 + s[i].0.len() + s[i].1.len() <= bytes.len(),
        bytes.subrange(p2, p2 + s[i].0.len() as int) == s[i].0,
        bytes.subrange(p2 + s[i].0.len() as int, p2 + s[i].0.len() + s[i].1.len() as int)
            == s[i].1,
        bytes.subrange(0, p2 + s[i].0.len() + s[i].1.len() as int) == encoding(count)
            + spec_serialize(s.take(i + 1)),
{
    lemma_snapshot_step(bytes, pos0, count, s, i);
    let skl = s[i].0.len() as u64;
    let svl = s[i].1.len() as u64;
    let a = pos0 + encoding(skl).len();
    let b = a + encoding(svl).len();
    let c = b + s[i].0.len();
    let d = c + s[i].1.len();
    assert(bytes.skip(pos0) =~= bytes.subrange(pos0, p1 as int) + bytes.skip(p1));
    assert(bytes.skip(pos0) =~= bytes.subrange(pos0, a) + bytes.skip(a));
    lemma_encoding_prefix_injective(klen, skl, bytes.skip(p1), bytes.skip(a));
    assert(p1 == a);
    assert(bytes.skip(p1) =~= bytes.subrange(p1, p2 as int) + bytes.skip(p2));
    assert(bytes.skip(p1) =~= bytes.subrange(a, b) + bytes.skip(b));
    lemma_encoding_prefix_injective(vlen, svl, bytes.skip(p2), bytes.skip(b));
    assert(p2 == b);
}

/// What the parser knows between entries: the bytes up to `pos0` are the
/// count frame followed by the `i` entries read so far, and any entry
/// sequence whose snapshot these bytes are agrees with them so far.
spec fn parse_inv(
    bytes: Seq<u8>,
    pos0: int,
    count: u64,
    done: Seq<(Seq<u8>, Seq<u8>)>,
    i: int,
) -> bool {
    &&& 0 <= pos0 <= bytes.len()
    &&& bytes.subrange(0, pos0) == encoding(count) + spec_serialize(done)
    &&& done.len() == i
    &&& 0 <= i < count
    &&& forall|s: Seq<(Seq<u8>, Seq<u8>)>|
        #[trigger] valid_snapshot_of(bytes, s) ==> s.len() == count && done == s.take(i)
}

proof fn lemma_err_first_frame(
    bytes: Seq<u8>,
    pos0: int,
    count: u64,
    done: Seq<(Seq<u8>, Seq<u8>)>,
    i: int,
)
    requires
        parse_inv(bytes, pos0, count, done, i),
        forall|x: u64|
            #![trigger encoding(x)]
            pos0 + encoding(x).len() <= bytes.len() ==> bytes.subrange(
                pos0,
                pos0 + encoding(x).len(),
            ) != encoding(x),
    ensures
        forall|s: Seq<(Seq<u8>, Seq<u8>)>| !(#[trigger] valid_snapshot_of(bytes, s)),
{
    assert forall|s: Seq<(Seq<u8>, Seq<u8>)>| !(#[trigger] valid_snapshot_of(bytes, s)) by {
        if valid_snapshot_of(bytes, s) {
            lemma_snapshot_step(bytes, pos0, count, s, i);
        }
    }
}

proof fn lemma_err_second_frame(
    bytes: Seq<u8>,
    pos0: int,
    count: u64,
    done: Seq<(Seq<u8>, Seq<u8>)>,
    i: int,
    klen: u64,
    p1: int,
)
    requires
        parse_inv(bytes, pos0, count, done, i),
        pos0 < p1 <= bytes.len(),
        bytes.subrange(pos0, p1) == encoding(klen),
        forall|x: u64|
            #![trigger encoding(x)]
            p1 + encoding(x).len() <= bytes.len() ==> bytes.subrange(
                p1,
                p1 + encoding(x).len(),
            ) != encoding(x),
    ensures
        forall|s: Seq<(Seq<u8>, Seq<u8>)>| !(#[trigger] valid_snapshot_of(bytes, s)),
{
    assert forall|s: Seq<(Seq<u8>, Seq<u8>)>| !(#[trigger] valid_snapshot_of(bytes, s)) by {
        if valid_snapshot_of(bytes, s) {
            lemma_snapshot_step(bytes, pos0, count, s, i);
            let skl = s[i].0.len() as u64;
            let a = pos0 + encoding(skl).len();
            assert(bytes.skip(pos0) =~= bytes.subrange(pos0, p1) + bytes.skip(p1));
            assert(bytes.skip(pos0) =~= bytes.subrange(pos0, a) + bytes.skip(a));
            lemma_encoding_prefix_injective(klen, skl, bytes.skip(p1), bytes.skip(a));
            assert(p1 == a);
        }
    }
}

proof fn lemma_err_entry_bounds(
    bytes: Seq<u8>,
    pos0: int,
    count: u64,
    done: Seq<(Seq<u8>, Seq<u8>)>,
    i: int,
    klen: u64,
    p1: int,
    vlen: u64,
    p2: int,
)
    requires
        parse_inv(bytes, pos0, count, done, i),
        pos0 < p1 < p2 <= bytes.len(),
        bytes.subrange(pos0, p1) == encoding(klen),
        bytes.subrange(p1, p2) == encoding(vlen),
        klen + vlen > bytes.len() - p2,
    ensures
        forall|s: Seq<(Seq<u8>, Seq<u8>)>| !(#[trigger] valid_snapshot_of(bytes, s)),
{
    assert forall|s: Seq<(Seq<u8>, Seq<u8>)>| !(#[trigger] valid_snapshot_of(bytes, s)) by {
        if valid_snapshot_of(bytes, s) {
            lemma_match_step(bytes, pos0, count, s, i, klen, p1, vlen, p2);
        }
    }
}

proof fn lemma_err_unsorted(
    bytes: Seq<u8>,
    pos0: int,
    count: u64,
    done: Seq<(Seq<u8>, Seq<u8>)>,
    i: int,
    klen: u64,
    p1: int,
    vlen: u64,
    p2: int,
    key: Seq<u8>,
)
    requires
        parse_inv(bytes, pos0, count, done, i),
        pos0 < p1 < p2 <= bytes.len(),
        bytes.subrange(pos0, p1) == encoding(klen),
        bytes.subrange(p1, p2) == encoding(vlen),
        key.len() < 0x1_0000_0000_0000_0000,
        key.len() as u64 == klen,
        p2 + key.len() <= bytes.len(),
        bytes.subrange(p2, p2 + key.len() as int) == key,
        i > 0,
        !lex_lt(done[i - 1].0, key),
    ensures
        forall|s: Seq<(Seq<u8>, Seq<u8>)>| !(#[trigger] valid_snapshot_of(bytes, s)),
{
    assert forall|s: Seq<(Seq<u8>, Seq<u8>)>| !(#[trigger] valid_snapshot_of(bytes, s)) by {
        if valid_snapshot_of(bytes, s) {
            lemma_match_step(bytes, pos0, count, s, i, klen, p1, vlen, p2);
            assert(key.len() == s[i].0.len());
            assert(key == s[i].0);
            assert(done[i - 1] == s.take(i)[i - 1]);
            assert(lex_lt(s[i - 1].0, s[i].0));
        }
    }
}

proof fn lemma_step_preserves(
    bytes: Seq<u8>,
    pos0: int,
    count: u64,
    done: Seq<(Seq<u8>, Seq<u8>)>,
    i: int,
    klen: u64,
    p1: int,
    vlen: u64,
    p2: int,
    key: Seq<u8>,
    value: Seq<u8>,
)
    requires
        parse_inv(bytes, pos0, count, done, i),
        pos0 < p1 < p2 <= bytes.len(),
        bytes.subrange(pos0, p1) == encoding(klen),
        bytes.subrange(p1, p2) == encoding(vlen),
        key.len() < 0x1_0000_0000_0000_0000,
        value.len() < 0x1_0000_0000_0000_0000,
        key.len() as u64 == klen,
        value.len() as u64 == vlen,
        p2 + key.len() + value.len() <= bytes.len(),
        bytes.subrange(p2, p2 + key.len() as int) == key,
        bytes.subrange(p2 + key.len() as int, p2 + key.len() + value.len() as int) == value,
    ensures
        forall|s: Seq<(Seq<u8>, Seq<u8>)>|
            #[trigger] valid_snapshot_of(bytes, s) ==> s.len() == count && done.push(
                (key, value),
            ) == s.take(i + 1),
{
    assert forall|s: Seq<(Seq<u8>, Seq<u8>)>|
        #[trigger] valid_snapshot_of(bytes, s) implies s.len() == count && done.push(
        (key, value),
    ) == s.take(i + 1) by {
        lemma_match_step(bytes, pos0, count, s, i, klen, p1, vlen, p2);
        assert(key.len() == s[i].0.len());
        assert(key == s[i].0);
        assert(value.len() == s[i].1.len());
        assert(value == s[i].1);
        assert((key, value) == s[i]);
        assert(done.push((key, value)) =~= s.take(i + 1));
    }
}

/// Parses a snapshot produced by [`snapshot_bytes`]: the entry count, then
/// each entry with its two length frames. Accepts only canonical frames,
/// strictly ascending keys, and no trailing bytes — so it accepts exactly
/// the snapshots of sorted entry sequences, and hands back byte for byte
/// the entries the accepted snapshot holds.
#[verifier::rlimit(100)]
fn parse_snapshot(bytes: &Vec<u8>) -> (r: Result<Vec<Entry>, StorageError>)
    ensures
        r matches Ok(es) ==> bytes@ == snapshot_bytes(pairs_of(es@)) && sorted_strict(
            pairs_of(es@),
        ),
        r is Err ==> r == Err::<Vec<Entry>, StorageError>(StorageError::CorruptFormat),
        r is Err ==> forall|s: Seq<(Seq<u8>, Seq<u8>)>| !(#[trigger] valid_snapshot_of(bytes@, s)),
{
    let n = bytes.len();
    let (count, mut pos) = match read_frame(bytes, 0) {
        Ok(p) => p,
        Err(e) => {
            proof {
                assert forall|s: Seq<(Seq<u8>, Seq<u8>)>|
                    !(#[trigger] valid_snapshot_of(bytes@, s)) by {
                    if valid_snapshot_of(bytes@, s) {
                        let slen = s.len() as u64;
                        assert(bytes@.subrange(0, encoding(slen).len() as int) =~= encoding(
                            slen,
                        ));
                    }
                }
            }
            return Err(e);
        },
    };
    if count > n as u64 {
        proof {
            assert forall|s: Seq<(Seq<u8>, Seq<u8>)>|
                !(#[trigger] valid_snapshot_of(bytes@, s)) by {
                if valid_snapshot_of(bytes@, s) {
                    let slen = s.len() as u64;
                    assert(bytes@ =~= bytes@.subrange(0, pos as int) + bytes@.skip(pos as int));
                    lemma_encoding_prefix_injective(
                        count,
                        slen,
                        bytes@.skip(pos as int),
                        spec_serialize(s),
                    );
                    lemma_serialize_min_len(s);
                }
            }
        }
        return Err(StorageError::CorruptFormat);
    }
    let cnt = count as usize;
    let mut es: Vec<Entry> = Vec::new();
    let mut i: usize = 0;
    proof {
        assert(pairs_of(es@) =~= Seq::<(Seq<u8>, Seq<u8>)>::empty());
        assert(encoding(count) + spec_serialize(pairs_of(es@)) =~= encoding(count));
        assert(bytes@.subrange(0, pos as int) == encoding(count));
        assert forall|s: Seq<(Seq<u8>, Seq<u8>)>|
            #[trigger] valid_snapshot_of(bytes@, s) implies s.len() == count && pairs_of(es@)
            == s.take(i as int) by {
            let slen = s.len() as u64;
            assert(bytes@ =~= bytes@.subrange(0, pos as int) + bytes@.skip(pos as int));
            lemma_encoding_prefix_injective(
                count,
                slen,
                bytes@.skip(pos as int),
                spec_serialize(s),
            );
            assert(pairs_of(es@) =~= s.take(0));
        }
    }
    while i < cnt
        invariant
            i <= cnt,
            cnt == count,
            pos <= n,
            n == bytes@.len(),
            es@.len() == i,
            sorted_strict(pairs_of(es@)),
            bytes@.subrange(0, pos as int) == encoding(count) + spec_serialize(pairs_of(es@)),
            forall|s: Seq<(Seq<u8>, Seq<u8>)>|
                #[trigger] valid_snapshot_of(bytes@, s) ==> s.len() == count && pairs_of(es@)
                    == s.take(i as int),
        decreases cnt - i,
    {
        let ghost done = pairs_of(es@);
        let ghost pos0 = pos as int;
        let (klen, p1) = match read_frame(bytes, pos) {
            Ok(p) => p,
            Err(e) => {
                proof {
                    lemma_err_first_frame(bytes@, pos0, count, done, i as int);
                }
                return Err(e);
            },
        };
        let (vlen, p2) = match read_frame(bytes, p1) {
            Ok(p) => p,
            Err(e) => {
                proof {
                    lemma_err_second_frame(bytes@, pos0, count, done, i as int, klen, p1 as int);
                }
                return Err(e);
            },
        };
        if klen > (n - p2) as u64 {
            proof {
                lemma_err_entry_bounds(
                    bytes@,
                    pos0,
                    count,
                    done,
                    i as int,
                    klen,
                    p1 as int,
                    vlen,
                    p2 as int,
                );
            }
            return Err(StorageError::CorruptFormat);
        }
        let kl = klen as usize;
        let key = copy_bytes(&bytes.as_slice()[p2..p2 + kl]);
        let p3 = p2 + kl;
        if vlen > (n - p3) as u64 {
            proof {
                lemma_err_entry_bounds(
                    bytes@,
                    pos0,
                    count,
                    done,
                    i as int,
                    klen,
                    p1 as int,
                    vlen,
                    p2 as int,
                );
            }
            return Err(StorageError::CorruptFormat);
        }
        let vl = vlen as usize;
        let value = copy_bytes(&bytes.as_slice()[p3..p3 + vl]);
        let p4 = p3 + vl;
        if es.len() > 0 {
            let lastkey = &es[es.len() - 1].key;
            if !bytes_lt(lastkey.as_slice(), key.as_slice()) {
                proof {
                    lemma_err_unsorted(
                        bytes@,
                        pos0,
                        count,
                        done,
                        i as int,
                        klen,
                        p1 as int,
                        vlen,
                        p2 as int,
                        key@,
                    );
                }
                return Err(StorageError::CorruptFormat);
            }
        }
        let ghost pair = (key@, value@);
        es.push(Entry { key, value });
        proof {
            lemma_step_preserves(
                bytes@,
                pos0,
                count,
                done,
                i as int,
                klen,
                p1 as int,
                vlen,
                p2 as int,
                pair.0,
                pair.1,
            );
            assert(pairs_of(es@).len() == es@.len());
            assert(pairs_of(es@) =~= done.push(pair));
            assert forall|x: int, y: int|
                0 <= x < y < pairs_of(es@).len() implies #[trigger] lex_lt(
                pairs_of(es@)[x].0,
                pairs_of(es@)[y].0,
            ) by {
                if y < done.len() {
                    assert(lex_lt(done[x].0, done[y].0));
                } else {
                    assert(pairs_of(es@)[y] == pair);
                    assert(lex_lt(done[done.len() - 1].0, pair.0));
                    if x < done.len() - 1 {
                        assert(lex_lt(done[x].0, done[done.len() - 1].0));
                        lemma_lex_lt_trans(done[x].0, done[done.len() - 1].0, pair.0);
                    }
                }
            }
            assert(spec_encode_pair(pair) == encoding(klen) + encoding(vlen) + key@ + value@) by {
                assert(key@.len() == kl);
                assert(key@.len() as u64 == klen);
                assert(value@.len() as u64 == vlen);
            }
            assert(bytes@.subrange(0, p4 as int) =~= bytes@.subrange(0, pos0) + bytes@.subrange(
                pos0,
                p1 as int,
            ) + bytes@.subrange(p1 as int, p2 as int) + bytes@.subrange(p2 as int, p3 as int)
                + bytes@.subrange(p3 as int, p4 as int));
            assert(bytes@.subrange(p2 as int, p3 as int) == key@);
            assert(bytes@.subrange(p3 as int, p4 as int) == value@);
            lemma_serialize_push(done, pair);
            assert(bytes@.subrange(0, p4 as int) =~= encoding(count) + spec_serialize(
                pairs_of(es@),
            ));
        }
        pos = p4;
        i += 1;
    }
    if pos != n {
        proof {
            assert forall|s: Seq<(Seq<u8>, Seq<u8>)>|
                !(#[trigger] valid_snapshot_of(bytes@, s)) by {
                if valid_snapshot_of(bytes@, s) {
                    assert(pairs_of(es@) == s.take(cnt as int));
                    assert(s.take(cnt as int) =~= s);
                    assert(bytes@.subrange(0, pos as int) =~= bytes@);
                }
            }
        }
        return Err(StorageError::CorruptFormat);
    }
    proof {
        assert(bytes@.subrange(0, n as int) =~= bytes@);
        assert(pairs_of(es@).len() as u64 == count);
    }
    Ok(es)
}

/// Two sorted entry sequences holding the same map are the same sequence.
pub proof fn lemma_sorted_seq_unique(s1: Seq<(Seq<u8>, Seq<u8>)>, s2: Seq<(Seq<u8>, Seq<u8>)>)
    requires
        sorted_strict(s1),
        sorted_strict(s2),
        map_of(s1) == map_of(s2),
    ensures
        s1 == s2,
    decreases s1.len(),
{
    lemma_sorted_distinct(s1);
    lemma_sorted_distinct(s2);
    if s1.len() == 0 {
        if s2.len() > 0 {
            lemma_map_of_index(s2, 0);
            assert(map_of(s1).contains_key(s2[0].0));
        }
        assert(s1 =~= s2);
    } else if s2.len() == 0 {
        lemma_map_of_index(s1, 0);
        assert(map_of(s2).contains_key(s1[0].0));
    } else {
        lemma_map_of_index(s1, 0);
        lemma_map_of_index(s2, 0);
        lemma_map_of_dom(s2, s1[0].0);
        lemma_map_of_dom(s1, s2[0].0);
        let j = choose|j: int| 0 <= j < s2.len() && (#[trigger] s2[j]).0 == s1[0].0;
        let i = choose|i: int| 0 <= i < s1.len() && (#[trigger] s1[i]).0 == s2[0].0;
        assert(s1[0].0 == s2[0].0) by {
            if j > 0 && i > 0 {
                assert(lex_lt(s2[0].0, s2[j].0));
                assert(lex_lt(s1[0].0, s1[i].0));
                lemma_lex_lt_trans(s1[0].0, s1[i].0, s2[j].0);
                lemma_lex_lt_irrefl(s1[0].0);
            }
        }
        assert(s1[0].1 == s2[0].1) by {
            assert(map_of(s1)[s1[0].0] == s1[0].1);
            assert(map_of(s2)[s2[0].0] == s2[0].1);
        }
        let t1 = s1.drop_first();
        let t2 = s2.drop_first();
        assert(sorted_strict(t1)) by {
            assert forall|x: int, y: int| 0 <= x < y < t1.len() implies #[trigger] lex_lt(
                t1[x].0,
                t1[y].0,
            ) by {
                assert(t1[x] == s1[x + 1] && t1[y] == s1[y + 1]);
                assert(lex_lt(s1[x + 1].0, s1[y + 1].0));
            }
        }
        assert(sorted_strict(t2)) by {
            assert forall|x: int, y: int| 0 <= x < y < t2.len() implies #[trigger] lex_lt(
                t2[x].0,
                t2[y].0,
            ) by {
                assert(t2[x] == s2[x + 1] && t2[y] == s2[y + 1]);
                assert(lex_lt(s2[x + 1].0, s2[y + 1].0));
            }
        }
        assert(map_of(t1) == map_of(t2)) by {
            lemma_map_of_remove(s1, 0);
            lemma_map_of_remove(s2, 0);
            assert(s1.remove(0) =~= t1);
            assert(s2.remove(0) =~= t2);
        }
        lemma_sorted_seq_unique(t1, t2);
        assert(s1.len() == s2.len());
        assert forall|x: int| 0 <= x < s1.len() implies s1[x] == s2[x] by {
            if x == 0 {
                assert(s1[0] =~= s2[0]);
            } else {
                assert(t1[x - 1] == t2[x - 1]);
            }
        }
        assert(s1 =~= s2);
    }
}

impl<P: Policy> BasicTree<P> {
    /// The entries of a tree held in memory fit the snapshot format.
    proof fn lemma_entries_fit(&self)
        ensures
            snapshot_fits(self.entries_seq()),
    {
        vstd::std_specs::vec::axiom_spec_len(&self.entries);
        assert forall|i: int|
            0 <= i < self.entries_seq().len() implies (
        #[trigger] self.entries_seq()[i]).0.len() < 0x1_0000_0000_0000_0000 && self.entries_seq(
        )[i].1.len() < 0x1_0000_0000_0000_0000 by {
            vstd::std_specs::vec::axiom_spec_len(&self.entries@[i].key);
            vstd::std_specs::vec::axiom_spec_len(&self.entries@[i].value);
        }
    }

    /// Writes the tree's snapshot over the whole file and flushes it. Only
    /// after this returns is the state durable: the file then holds exactly
    /// [`snapshot_bytes`] of the entries, whatever it held before.
    pub fn commit(
        &self,
        fs: &mut MemoryFileSystem,
        file: &MemoryFile,
    ) -> (r: Result<(), StorageError>)
        requires
            old(fs).wf(),
            old(fs).valid_id(file.id()),
        ensures
            final(fs).wf(),
            r is Ok,
            final(fs).model_of(file.id()) == (FileModel {
                bytes: snapshot_bytes(self.entries_seq()),
                locked: old(fs).model_of(file.id()).locked,
            }),
            forall|i: int| #[trigger] old(fs).valid_id(i) ==> final(fs).valid_id(i),
            forall|i: int|
                old(fs).valid_id(i) && i != file.id() ==> final(fs).model_of(i) == old(
                    fs,
                ).model_of(i),
            forall|q: Seq<char>| final(fs).path_id(q) == old(fs).path_id(q),
    {
        let n = self.entries.len();
        let mut out: Vec<u8> = Vec::new();
        encode(n as u64, &mut out);
        let body = serialize_range(&self.entries, 0, n);
        push_bytes(&mut out, body.as_slice());
        proof {
            assert(self.entries_seq().subrange(0, n as int) =~= self.entries_seq());
            assert(out@ == snapshot_bytes(self.entries_seq()));
        }
        let m = out.len();
        let r1 = file.truncate(fs, 0);
        let r2 = file.write(fs, 0, out.as_slice());
        let r3 = file.sync(fs);
        proof {
            let w = crate::storage::vfs::write_bytes(
                crate::storage::vfs::truncate_bytes(old(fs).model_of(file.id()).bytes, 0),
                0,
                out@,
            );
            assert(w =~= out@);
        }
        match (r1, r2, r3) {
            (Ok(()), Ok(()), Ok(())) => Ok(()),
            _ => Err(StorageError::IoFailure),
        }
    }

    /// Opens the tree stored in `file` under `policy`. On success the
    /// result is well-formed and the file holds exactly its snapshot; a
    /// file that is not a canonical snapshot of sorted entries is rejected
    /// with `CorruptFormat`.
    pub fn open(
        policy: P,
        fs: &MemoryFileSystem,
        file: &MemoryFile,
    ) -> (r: Result<BasicTree<P>, StorageError>)
        requires
            fs.wf(),
            fs.valid_id(file.id()),
        ensures
            r matches Ok(t) ==> t.wf() && t.policy_spec() == policy && snapshot_bytes(
                t.entries_seq(),
            ) == fs.model_of(file.id()).bytes,
            r is Err ==> r == Err::<BasicTree<P>, StorageError>(StorageError::CorruptFormat)
                && (forall|s: Seq<(Seq<u8>, Seq<u8>)>|
                !(#[trigger] valid_snapshot_of(fs.model_of(file.id()).bytes, s))),
    {
        let sz = match file.size(fs) {
            Ok(s) => s,
            Err(e) => {
                return Err(e);
            },
        };
        let m = sz as usize;
        let mut buf: Vec<u8> = Vec::new();
        while buf.len() < m
            invariant
                buf@.len() <= m,
            decreases m - buf@.len(),
        {
            buf.push(0);
        }
        match file.read(fs, 0, &mut buf) {
            Ok(()) => {},
            Err(e) => {
                return Err(e);
            },
        };
        proof {
            assert(buf@ =~= fs.model_of(file.id()).bytes);
        }
        let entries = match parse_snapshot(&buf) {
            Ok(es) => es,
            Err(e) => {
                return Err(e);
            },
        };
        Ok(BasicTree { entries, policy })
    }

    /// Drops every in-memory change, reloading the entries from the file:
    /// the state returns to whatever the last commit sealed. The policy is
    /// kept; a file that is not a canonical snapshot is rejected unchanged.
    pub fn discard(
        &mut self,
        fs: &MemoryFileSystem,
        file: &MemoryFile,
    ) -> (r: Result<(), StorageError>)
        requires
            fs.wf(),
            fs.valid_id(file.id()),
        ensures
            final(self).policy_spec() == old(self).policy_spec(),
            r is Ok ==> final(self).wf() && snapshot_bytes(final(self).entries_seq())
                == fs.model_of(file.id()).bytes,
            r is Err ==> *final(self) == *old(self) && r == Err::<(), StorageError>(
                StorageError::CorruptFormat,
            ) && (forall|s: Seq<(Seq<u8>, Seq<u8>)>|
                !(#[trigger] valid_snapshot_of(fs.model_of(file.id()).bytes, s))),
    {
        let sz = match file.size(fs) {
            Ok(s) => s,
            Err(e) => {
                return Err(e);
            },
        };
        let m = sz as usize;
        let mut buf: Vec<u8> = Vec::new();
        while buf.len() < m
            invariant
                buf@.len() <= m,
            decreases m - buf@.len(),
        {
            buf.push(0);
        }
        match file.read(fs, 0, &mut buf) {
            Ok(()) => {},
            Err(e) => {
                return Err(e);
            },
        };
        proof {
            assert(buf@ =~= fs.model_of(file.id()).bytes);
        }
        match parse_snapshot(&buf) {
            Ok(es) => {
                self.entries = es;
                Ok(())
            },
            Err(e) => Err(e),
        }
    }
}

/// Durability: two well-formed trees under one policy whose snapshots are
/// the same byte string hold the same entries and the same root hash. With
/// the contracts of `commit`, `open`, and `discard`, reopening a committed
/// file restores the committed root hash, and discarding uncommitted work
/// restores the root hash of the last commit.
pub proof fn lemma_snapshot_restores_root<P: Policy>(t1: &BasicTree<P>, t2: &BasicTree<P>)
    requires
        t1.wf(),
        t2.wf(),
        t1.policy_spec() == t2.policy_spec(),
        snapshot_bytes(t1.entries_seq()) == snapshot_bytes(t2.entries_seq()),
    ensures
        t1.entries_seq() == t2.entries_seq(),
        t1.as_map() == t2.as_map(),
        spec_root_hash(t1.policy_spec(), t1.entries_seq()) == spec_root_hash(
            t2.policy_spec(),
            t2.entries_seq(),
        ),
{
    t1.lemma_entries_fit();
    t2.lemma_entries_fit();
    lemma_snapshot_injective(t1.entries_seq(), t2.entries_seq());
}

/// Unicity: two well-formed trees holding the same map under the same
/// policy hold the same entries, and so the same root content hash —
/// however their entries were inserted, updated, or removed.
pub proof fn lemma_unicity<P: Policy>(t1: &BasicTree<P>, t2: &BasicTree<P>)
    requires
        t1.wf(),
        t2.wf(),
        t1.as_map() == t2.as_map(),
        t1.policy_spec() == t2.policy_spec(),
    ensures
        t1.entries_seq() == t2.entries_seq(),
        spec_root_hash(t1.policy_spec(), t1.entries_seq()) == spec_root_hash(
            t2.policy_spec(),
            t2.entries_seq(),
        ),
{
    lemma_sorted_seq_unique(t1.entries_seq(), t2.entries_seq());
}

} // verus!
