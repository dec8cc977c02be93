//! The balance commitment tree: a binary Merkle tree over the leaves sorted
//! by key, with inclusion proofs.

use vstd::prelude::*;
use crate::bytes::{
    be_bytes, bytes_copy, bytes_eq, bytes_le, lemma_lex_antisymmetric, lemma_lex_reflexive,
    lemma_lex_total, lemma_lex_transitive, lex_le, lex_lt, u128_be_bytes,
};
use crate::keccak::{keccak256, keccak256_pair};

verus! {

/// One balance to record: the owner, the token, and the amount.
#[derive(Debug)]
pub struct Balance {
    pub user_address: Vec<u8>,
    pub token_address: Vec<u8>,
    pub balance: u128,
}

/// The mathematical value of a leaf: its key and the balance it records.
pub ghost struct LeafView {
    pub key: Seq<u8>,
    pub value: u128,
}

/// The key of the leaf of an account: the digest of the owner followed by
/// the token.
pub open spec fn account_key(user: Seq<u8>, token: Seq<u8>) -> Seq<u8> {
    keccak256(user + token)
}

/// The hash of a leaf: the digest of its key followed by its value as
/// sixteen big-endian bytes.
pub open spec fn leaf_hash(key: Seq<u8>, value: u128) -> Seq<u8> {
    keccak256(key + be_bytes(value))
}

/// The hashes of the leaves, position by position.
pub open spec fn leaf_hashes(entries: Seq<LeafView>) -> Seq<Seq<u8>> {
    Seq::new(entries.len(), |i: int| leaf_hash(entries[i].key, entries[i].value))
}

/// The root of a tree without leaves: thirty-two zero bytes.
pub open spec fn zero_root() -> Seq<u8> {
    Seq::new(32, |i: int| 0u8)
}

/// The hash of the parent of two nodes: the digest of the two hashes, the
/// smaller one first.
pub open spec fn combine(a: Seq<u8>, b: Seq<u8>) -> Seq<u8> {
    if lex_le(a, b) {
        keccak256(a + b)
    } else {
        keccak256(b + a)
    }
}

/// The hash that node `i` of a level is paired with: its neighbour, or
/// itself where it is the last of an odd number of nodes.
pub open spec fn partner(level: Seq<Seq<u8>>, i: int) -> Seq<u8> {
    let p = if i % 2 == 0 {
        i + 1
    } else {
        i - 1
    };
    if p < level.len() {
        level[p]
    } else {
        level[i]
    }
}

/// The level above `level`: its nodes paired from the left.
pub open spec fn level_up(level: Seq<Seq<u8>>) -> Seq<Seq<u8>> {
    Seq::new((level.len() + 1) / 2, |j: int| combine(level[2 * j], partner(level, 2 * j)))
}

/// The root above a level of hashes.
pub open spec fn root_of(level: Seq<Seq<u8>>) -> Seq<u8>
    decreases level.len(),
{
    if level.len() == 0 {
        zero_root()
    } else if level.len() == 1 {
        level[0]
    } else {
        root_of(level_up(level))
    }
}

/// The sibling hashes on the way from node `i` of a level up to the root,
/// lowest first.
pub open spec fn path_of(level: Seq<Seq<u8>>, i: int) -> Seq<Seq<u8>>
    decreases level.len(),
{
    if level.len() <= 1 {
        Seq::empty()
    } else {
        seq![partner(level, i)] + path_of(level_up(level), i / 2)
    }
}

/// The number of levels above `n` leaves: the least `h` with `n <= 2^h`.
pub open spec fn tree_height(n: nat) -> nat
    decreases n,
{
    if n <= 1 {
        0
    } else {
        1 + tree_height((n + 1) / 2)
    }
}

/// The hash reached from `hash` by combining it with the hashes of `path`
/// in turn.
pub open spec fn climb(hash: Seq<u8>, path: Seq<Seq<u8>>) -> Seq<u8>
    decreases path.len(),
{
    if path.len() == 0 {
        hash
    } else {
        climb(combine(hash, path[0]), path.drop_first())
    }
}

/// The root of the tree over these leaves.
pub open spec fn tree_root(entries: Seq<LeafView>) -> Seq<u8> {
    root_of(leaf_hashes(entries))
}

/// The leaves stand in strictly ascending order of their keys.
pub open spec fn keys_sorted(entries: Seq<LeafView>) -> bool {
    forall|i: int, j: int|
        0 <= i < j < entries.len() ==> lex_lt(#[trigger] entries[i].key, #[trigger] entries[j].key)
}

/// The number of leading leaves whose key comes strictly before `key`.
pub open spec fn slot_of(entries: Seq<LeafView>, key: Seq<u8>) -> int
    decreases entries.len(),
{
    if entries.len() == 0 || lex_le(key, entries[0].key) {
        0
    } else {
        1 + slot_of(entries.drop_first(), key)
    }
}

/// The position of the leaf with this key, if there is one.
pub open spec fn position_of(entries: Seq<LeafView>, key: Seq<u8>) -> Option<int> {
    let p = slot_of(entries, key);
    if p < entries.len() && entries[p].key == key {
        Some(p)
    } else {
        None
    }
}

/// The leaves after `value` has been recorded under `key`: the leaf with
/// that key is replaced, or a new leaf enters in key order.
pub open spec fn upsert(entries: Seq<LeafView>, key: Seq<u8>, value: u128) -> Seq<LeafView> {
    let p = slot_of(entries, key);
    if p < entries.len() && entries[p].key == key {
        entries.update(p, LeafView { key, value })
    } else {
        entries.insert(p, LeafView { key, value })
    }
}

/// The leaves after the updates have been recorded one by one, in order.
pub open spec fn apply_updates(entries: Seq<LeafView>, updates: Seq<Balance>) -> Seq<LeafView>
    decreases updates.len(),
{
    if updates.len() == 0 {
        entries
    } else {
        upsert(
            apply_updates(entries, updates.drop_last()),
            account_key(updates.last().user_address@, updates.last().token_address@),
            updates.last().balance,
        )
    }
}

/// The balance recorded under `key`, or zero where there is none.
pub open spec fn value_of(entries: Seq<LeafView>, key: Seq<u8>) -> u128 {
    match position_of(entries, key) {
        Some(p) => entries[p].value,
        None => 0,
    }
}

/// The inclusion proof of the leaf with this key: its sibling hashes from
/// the leaves up. It is empty where no leaf has the key.
pub open spec fn proof_for(entries: Seq<LeafView>, key: Seq<u8>) -> Seq<Seq<u8>> {
    match position_of(entries, key) {
        Some(p) => path_of(leaf_hashes(entries), p),
        None => Seq::empty(),
    }
}

/// Whether `path` leads from the leaf of this account with this amount to
/// `root`.
pub open spec fn verifies(
    root: Seq<u8>,
    path: Seq<Seq<u8>>,
    user: Seq<u8>,
    token: Seq<u8>,
    amount: u128,
) -> bool {
    climb(leaf_hash(account_key(user, token), amount), path) == root
}

/// The byte strings held by a sequence of vectors, position by position.
pub open spec fn hash_views(hashes: Seq<Vec<u8>>) -> Seq<Seq<u8>> {
    Seq::new(hashes.len(), |i: int| hashes[i]@)
}

/// `slot_of` is the first position whose key does not come strictly before
/// `key`, or the number of leaves where there is none.
pub proof fn lemma_slot_of(entries: Seq<LeafView>, key: Seq<u8>)
    ensures
        0 <= slot_of(entries, key) <= entries.len(),
        forall|j: int| 0 <= j < slot_of(entries, key) ==> !lex_le(key, (#[trigger] entries[j]).key),
        slot_of(entries, key) < entries.len() ==> lex_le(key, entries[slot_of(entries, key)].key),
    decreases entries.len(),
{
    if !(entries.len() == 0 || lex_le(key, entries[0].key)) {
        let rest = entries.drop_first();
        lemma_slot_of(rest, key);
        let p = slot_of(rest, key);
        assert(forall|j: int| 0 <= j < rest.len() ==> rest[j] == entries[j + 1]);
        assert forall|j: int| 0 <= j < p + 1 implies !lex_le(key, (#[trigger] entries[j]).key) by {
            if j > 0 {
                assert(rest[j - 1] == entries[j]);
            }
        }
    }
}

/// Any position that splits the leaves as `slot_of` does is `slot_of`.
pub proof fn lemma_slot_of_unique(entries: Seq<LeafView>, key: Seq<u8>, p: int)
    requires
        0 <= p <= entries.len(),
        forall|j: int| 0 <= j < p ==> !lex_le(key, (#[trigger] entries[j]).key),
        p < entries.len() ==> lex_le(key, entries[p].key),
    ensures
        slot_of(entries, key) == p,
{
    lemma_slot_of(entries, key);
    let q = slot_of(entries, key);
    if q < p {
        assert(!lex_le(key, entries[q].key));
    }
    if p < q {
        assert(!lex_le(key, entries[p].key));
    }
}

/// In sorted leaves a leaf is found at its own position.
pub proof fn lemma_position_of_present(entries: Seq<LeafView>, i: int)
    requires
        keys_sorted(entries),
        0 <= i < entries.len(),
    ensures
        position_of(entries, entries[i].key) == Some(i),
{
    let key = entries[i].key;
    lemma_slot_of(entries, key);
    let p = slot_of(entries, key);
    lemma_lex_reflexive(key);
    if i < p {
        assert(!lex_le(key, entries[i].key));
    }
    if p < i {
        assert(lex_lt(entries[p].key, entries[i].key));
        lemma_lex_antisymmetric(key, entries[p].key);
    }
}

/// Sorted leaves stay sorted when a balance is recorded.
pub proof fn lemma_upsert_keeps_sorted(entries: Seq<LeafView>, key: Seq<u8>, value: u128)
    requires
        keys_sorted(entries),
    ensures
        keys_sorted(upsert(entries, key, value)),
{
    lemma_slot_of(entries, key);
    let p = slot_of(entries, key);
    let after = upsert(entries, key, value);
    if p < entries.len() && entries[p].key == key {
        assert forall|i: int, j: int| 0 <= i < j < after.len() implies lex_lt(
            #[trigger] after[i].key,
            #[trigger] after[j].key,
        ) by {
            assert(after[i].key == entries[i].key);
            assert(after[j].key == entries[j].key);
        }
    } else {
        assert forall|i: int, j: int| 0 <= i < j < after.len() implies lex_lt(
            #[trigger] after[i].key,
            #[trigger] after[j].key,
        ) by {
            if j == p {
                assert(after[i] == entries[i]);
                assert(!lex_le(key, entries[i].key));
                lemma_lex_total(key, entries[i].key);
            } else if i == p {
                assert(after[j] == entries[j - 1]);
                assert(lex_le(key, entries[p].key));
                if p < j - 1 {
                    assert(lex_lt(entries[p].key, entries[j - 1].key));
                    lemma_lex_transitive(key, entries[p].key, entries[j - 1].key);
                    if key == entries[j - 1].key {
                        lemma_lex_antisymmetric(entries[p].key, entries[j - 1].key);
                    }
                }
            } else {
                let bi = if i < p { i } else { i - 1 };
                let bj = if j < p { j } else { j - 1 };
                assert(after[i] == entries[bi]);
                assert(after[j] == entries[bj]);
                assert(lex_lt(entries[bi].key, entries[bj].key));
            }
        }
    }
}

/// The parent of two nodes does not depend on which of them is named
/// first.
pub proof fn lemma_combine_commutes(a: Seq<u8>, b: Seq<u8>)
    ensures
        combine(a, b) == combine(b, a),
{
    lemma_lex_total(a, b);
    if lex_le(a, b) && lex_le(b, a) {
        lemma_lex_antisymmetric(a, b);
    }
}

/// Climbing from any node of a level along its path ends at the root above
/// that level.
pub proof fn lemma_climb_reaches_root(level: Seq<Seq<u8>>, i: int)
    requires
        0 <= i < level.len(),
    ensures
        climb(level[i], path_of(level, i)) == root_of(level),
    decreases level.len(),
{
    if level.len() > 1 {
        let up = level_up(level);
        let path = path_of(level, i);
        let rest = path_of(up, i / 2);
        assert(path[0] == partner(level, i));
        assert(path.drop_first() =~= rest);
        if i % 2 == 0 {
            assert(up[i / 2] == combine(level[i], partner(level, i)));
        } else {
            assert(partner(level, i - 1) == level[i]);
            assert(up[i / 2] == combine(level[i - 1], level[i]));
            lemma_combine_commutes(level[i - 1], level[i]);
        }
        lemma_climb_reaches_root(up, i / 2);
    }
}

/// The path from a node of a level with `n` nodes to the root has
/// `tree_height(n)` hashes.
pub proof fn lemma_path_length(level: Seq<Seq<u8>>, i: int)
    ensures
        path_of(level, i).len() == tree_height(level.len()),
    decreases level.len(),
{
    if level.len() > 1 {
        lemma_path_length(level_up(level), i / 2);
    }
}

/// A leaf as the tree holds it: key, balance, and the hash of the two.
struct Leaf {
    key: Vec<u8>,
    value: u128,
    hash: Vec<u8>,
}

/// The values of the leaves, position by position.
spec fn leaf_views(leaves: Seq<Leaf>) -> Seq<LeafView> {
    Seq::new(leaves.len(), |i: int| LeafView { key: leaves[i].key@, value: leaves[i].value })
}

/// The leaves are sorted by key and each holds the hash of its key and
/// value.
spec fn leaves_ok(leaves: Seq<Leaf>) -> bool {
    &&& keys_sorted(leaf_views(leaves))
    &&& forall|i: int|
        0 <= i < leaves.len() ==> (#[trigger] leaves[i]).hash@ == leaf_hash(
            leaves[i].key@,
            leaves[i].value,
        )
}

/// A Merkle tree over account balances. The leaves are kept sorted by key,
/// so the root depends on the balances recorded and not on the order in
/// which they came.
pub struct OrderbookMerkleTree {
    root: Option<Vec<u8>>,
    leaves: Vec<Leaf>,
}

/// The key of the leaf of an account.
pub fn create_key(user_address: &[u8], token_address: &[u8]) -> (key: Vec<u8>)
    ensures
        key@ == account_key(user_address@, token_address@),
{
    keccak256_pair(user_address, token_address)
}

/// The hash of the leaf with this key and balance.
pub fn hash_node(key: &[u8], value: u128) -> (hash: Vec<u8>)
    ensures
        hash@ == leaf_hash(key@, value),
{
    let encoded = u128_be_bytes(value);
    keccak256_pair(key, encoded.as_slice())
}

/// The hash of the parent of two nodes, the smaller hash first.
pub fn hash_pair(a: &[u8], b: &[u8]) -> (parent: Vec<u8>)
    ensures
        parent@ == combine(a@, b@),
{
    if bytes_le(a, b) {
        keccak256_pair(a, b)
    } else {
        keccak256_pair(b, a)
    }
}

/// Builds the level above `level`, pairing its nodes from the left; a last
/// node without a neighbour is paired with itself.
pub fn next_level(level: &Vec<Vec<u8>>) -> (up: Vec<Vec<u8>>)
    ensures
        hash_views(up@) == level_up(hash_views(level@)),
{
    let ghost below = hash_views(level@);
    let n: usize = level.len();
    let pairs: usize = n / 2 + n % 2;
    let mut up: Vec<Vec<u8>> = Vec::new();
    let mut j: usize = 0;
    while j < pairs
        invariant
            j <= pairs,
            n == level.len(),
            pairs == n / 2 + n % 2,
            below == hash_views(level@),
            up@.len() == j,
            forall|k: int| 0 <= k < j ==> (#[trigger] up@[k])@ == level_up(below)[k],
        decreases pairs - j,
    {
        let left: usize = 2 * j;
        let right: usize = if left + 1 < n {
            left + 1
        } else {
            left
        };
        assert(below[left as int] == level@[left as int]@);
        assert(below[right as int] == level@[right as int]@);
        let parent = hash_pair(level[left].as_slice(), level[right].as_slice());
        up.push(parent);
        j = j + 1;
    }
    assert(hash_views(up@) =~= level_up(below));
    up
}

/// The hashes of the leaves, in key order.
fn leaf_level(leaves: &Vec<Leaf>) -> (level: Vec<Vec<u8>>)
    requires
        leaves_ok(leaves@),
    ensures
        hash_views(level@) == leaf_hashes(leaf_views(leaves@)),
{
    let mut level: Vec<Vec<u8>> = Vec::new();
    let mut i: usize = 0;
    while i < leaves.len()
        invariant
            i <= leaves.len(),
            leaves_ok(leaves@),
            level@.len() == i,
            forall|k: int|
                0 <= k < i ==> (#[trigger] level@[k])@ == leaf_hash(
                    leaves@[k].key@,
                    leaves@[k].value,
                ),
        decreases leaves.len() - i,
    {
        let copy = bytes_copy(leaves[i].hash.as_slice());
        level.push(copy);
        i = i + 1;
    }
    assert(hash_views(level@) =~= leaf_hashes(leaf_views(leaves@)));
    level
}

/// The root above a level of hashes, or `None` for an empty level.
pub fn fold_to_root(level: Vec<Vec<u8>>) -> (root: Option<Vec<u8>>)
    ensures
        match root {
            Some(hash) => level@.len() > 0 && hash@ == root_of(hash_views(level@)),
            None => level@.len() == 0,
        },
{
    if level.len() == 0 {
        return None;
    }
    let ghost start = hash_views(level@);
    let mut nodes = level;
    while nodes.len() > 1
        invariant
            nodes@.len() >= 1,
            root_of(hash_views(nodes@)) == root_of(start),
        decreases nodes@.len(),
    {
        let ghost below = hash_views(nodes@);
        nodes = next_level(&nodes);
        assert(hash_views(nodes@).len() == level_up(below).len());
    }
    let top = nodes.remove(0);
    Some(top)
}

/// Finds the position of the first leaf whose key does not come strictly
/// before `key`.
fn find_slot(leaves: &Vec<Leaf>, key: &[u8]) -> (slot: usize)
    ensures
        slot == slot_of(leaf_views(leaves@), key@),
        slot <= leaves.len(),
{
    let ghost entries = leaf_views(leaves@);
    let mut i: usize = 0;
    while i < leaves.len() && !bytes_le(key, leaves[i].key.as_slice())
        invariant
            i <= leaves.len(),
            entries == leaf_views(leaves@),
            forall|j: int| 0 <= j < i ==> !lex_le(key@, (#[trigger] entries[j]).key),
        decreases leaves.len() - i,
    {
        assert(entries[i as int].key == leaves@[i as int].key@);
        i = i + 1;
    }
    proof {
        if i < leaves.len() {
            assert(entries[i as int].key == leaves@[i as int].key@);
        }
        lemma_slot_of_unique(entries, key@, i as int);
    }
    i
}

/// Records `value` under `key` among the leaves.
fn upsert_leaf(leaves: &mut Vec<Leaf>, key: Vec<u8>, value: u128)
    requires
        leaves_ok(old(leaves)@),
    ensures
        leaves_ok(final(leaves)@),
        leaf_views(final(leaves)@) == upsert(leaf_views(old(leaves)@), key@, value),
{
    let ghost before = leaf_views(leaves@);
    let ghost held = leaves@;
    let hash = hash_node(key.as_slice(), value);
    let slot = find_slot(leaves, key.as_slice());
    let present = slot < leaves.len() && bytes_eq(leaves[slot].key.as_slice(), key.as_slice());
    proof {
        if slot < leaves.len() {
            assert(before[slot as int].key == leaves@[slot as int].key@);
        }
        lemma_upsert_keeps_sorted(before, key@, value);
    }
    let ghost fresh = LeafView { key: key@, value };
    let leaf = Leaf { key, value, hash };
    if present {
        leaves.set(slot, leaf);
        assert(leaf_views(leaves@) =~= before.update(slot as int, fresh));
        assert forall|i: int| 0 <= i < leaves.len() implies (#[trigger] leaves@[i]).hash@
            == leaf_hash(leaves@[i].key@, leaves@[i].value) by {
            if i != slot {
                assert(leaves@[i] == held[i]);
            }
        }
    } else {
        leaves.insert(slot, leaf);
        assert(leaf_views(leaves@) =~= before.insert(slot as int, fresh));
        assert forall|i: int| 0 <= i < leaves.len() implies (#[trigger] leaves@[i]).hash@
            == leaf_hash(leaves@[i].key@, leaves@[i].value) by {
            if i < slot {
                assert(leaves@[i] == held[i]);
            } else if i > slot {
                assert(leaves@[i] == held[i - 1]);
            }
        }
    }
}

impl OrderbookMerkleTree {
    /// The leaves of the tree, in key order.
    pub closed spec fn entries(&self) -> Seq<LeafView> {
        leaf_views(self.leaves@)
    }

    /// The leaves are sorted by key, each holds its hash, and the root held
    /// is the root above them.
    pub closed spec fn wf(&self) -> bool {
        &&& leaves_ok(self.leaves@)
        &&& match self.root {
            Some(hash) => self.leaves@.len() > 0 && hash@ == tree_root(self.entries()),
            None => self.leaves@.len() == 0,
        }
    }

    /// The leaves of a well-formed tree are sorted by key.
    pub proof fn lemma_entries_sorted(&self)
        requires
            self.wf(),
        ensures
            keys_sorted(self.entries()),
    {
    }

    /// A tree without leaves.
    pub fn new() -> (tree: OrderbookMerkleTree)
        ensures
            tree.wf(),
            tree.entries() == Seq::<LeafView>::empty(),
    {
        let tree = OrderbookMerkleTree { root: None, leaves: Vec::new() };
        assert(tree.entries() =~= Seq::<LeafView>::empty());
        tree
    }

    /// Records the balance of one account and rebuilds the tree.
    pub fn update_balance(&mut self, user_address: &[u8], token_address: &[u8], balance: u128)
        requires
            old(self).wf(),
        ensures
            final(self).wf(),
            final(self).entries() == upsert(
                old(self).entries(),
                account_key(user_address@, token_address@),
                balance,
            ),
    {
        let key = create_key(user_address, token_address);
        upsert_leaf(&mut self.leaves, key, balance);
        self.rebuild_tree();
    }

    /// Records the balances of `updates` one by one, in order, and rebuilds
    /// the tree once.
    pub fn batch_update(&mut self, updates: &[Balance])
        requires
            old(self).wf(),
        ensures
            final(self).wf(),
            final(self).entries() == apply_updates(old(self).entries(), updates@),
    {
        let ghost before = self.entries();
        let mut i: usize = 0;
        assert(updates@.take(0) =~= Seq::<Balance>::empty());
        while i < updates.len()
            invariant
                i <= updates.len(),
                leaves_ok(self.leaves@),
                leaf_views(self.leaves@) == apply_updates(before, updates@.take(i as int)),
            decreases updates.len() - i,
        {
            let update = &updates[i];
            let key = create_key(update.user_address.as_slice(), update.token_address.as_slice());
            proof {
                assert(updates@.take(i + 1).drop_last() =~= updates@.take(i as int));
                assert(updates@.take(i + 1).last() == updates@[i as int]);
            }
            upsert_leaf(&mut self.leaves, key, update.balance);
            i = i + 1;
        }
        assert(updates@.take(i as int) =~= updates@);
        self.rebuild_tree();
    }

    /// Computes the root anew from the leaves.
    fn rebuild_tree(&mut self)
        requires
            leaves_ok(old(self).leaves@),
        ensures
            final(self).wf(),
            final(self).leaves@ == old(self).leaves@,
    {
        let level = leaf_level(&self.leaves);
        assert(hash_views(level@).len() == self.leaves@.len());
        self.root = fold_to_root(level);
    }

    /// The root of the tree: thirty-two zero bytes while it has no leaves.
    pub fn get_root(&self) -> (root: Vec<u8>)
        requires
            self.wf(),
        ensures
            root@ == tree_root(self.entries()),
    {
        match &self.root {
            Some(hash) => bytes_copy(hash.as_slice()),
            None => {
                let mut zeros: Vec<u8> = Vec::new();
                let mut i: usize = 0;
                while i < 32
                    invariant
                        i <= 32,
                        zeros@.len() == i,
                        forall|j: int| 0 <= j < i ==> zeros@[j] == 0u8,
                    decreases 32 - i,
                {
                    zeros.push(0u8);
                    i = i + 1;
                }
                assert(zeros@ =~= zero_root());
                assert(leaf_hashes(self.entries()) =~= Seq::<Seq<u8>>::empty());
                zeros
            },
        }
    }

    /// The sibling hashes from the leaf with `target_key` up to the root,
    /// lowest first; none where no leaf has the key.
    fn collect_proof(&self, target_key: &[u8]) -> (proof: Vec<Vec<u8>>)
        requires
            self.wf(),
        ensures
            hash_views(proof@) == proof_for(self.entries(), target_key@),
    {
        let ghost entries = self.entries();
        let mut proof: Vec<Vec<u8>> = Vec::new();
        let slot = find_slot(&self.leaves, target_key);
        if !(slot < self.leaves.len() && bytes_eq(
            self.leaves[slot].key.as_slice(),
            target_key,
        )) {
            proof {
                if slot < self.leaves.len() {
                    assert(entries[slot as int].key == self.leaves@[slot as int].key@);
                }
                assert(hash_views(proof@) =~= Seq::<Seq<u8>>::empty());
            }
            return proof;
        }
        assert(entries[slot as int].key == self.leaves@[slot as int].key@);
        let mut nodes = leaf_level(&self.leaves);
        let ghost start = hash_views(nodes@);
        let mut idx: usize = slot;
        assert(hash_views(proof@) + path_of(hash_views(nodes@), idx as int) =~= path_of(
            start,
            slot as int,
        ));
        while nodes.len() > 1
            invariant
                idx < nodes@.len(),
                hash_views(proof@) + path_of(hash_views(nodes@), idx as int) == path_of(
                    start,
                    slot as int,
                ),
            decreases nodes@.len(),
        {
            let ghost level = hash_views(nodes@);
            let ghost sofar = hash_views(proof@);
            let ghost at = idx as int;
            let pair: usize = if idx % 2 == 0 {
                idx + 1
            } else {
                idx - 1
            };
            let from: usize = if pair < nodes.len() {
                pair
            } else {
                idx
            };
            assert(level[from as int] == nodes@[from as int]@);
            let sibling = bytes_copy(nodes[from].as_slice());
            assert(sibling@ == partner(level, idx as int));
            proof.push(sibling);
            nodes = next_level(&nodes);
            idx = idx / 2;
            assert(hash_views(nodes@).len() == level_up(level).len());
            assert(hash_views(proof@) =~= sofar.push(partner(level, at)));
            assert(hash_views(proof@) + path_of(hash_views(nodes@), idx as int) =~= sofar
                + path_of(level, at));
        }
        assert(path_of(hash_views(nodes@), idx as int) =~= Seq::<Seq<u8>>::empty());
        assert(hash_views(proof@) + Seq::<Seq<u8>>::empty() =~= hash_views(proof@));
        proof
    }

    /// The inclusion proof of an account: the sibling hashes, the balance
    /// recorded (zero where the account has no leaf), and the key of its
    /// leaf. For an account without a leaf the proof is empty; nothing is
    /// shown about accounts that are absent.
    pub fn generate_proof(&self, user_address: &[u8], token_address: &[u8]) -> (res: (
        Vec<Vec<u8>>,
        u128,
        Vec<u8>,
    ))
        requires
            self.wf(),
        ensures
            res.2@ == account_key(user_address@, token_address@),
            res.1 == value_of(self.entries(), res.2@),
            hash_views(res.0@) == proof_for(self.entries(), res.2@),
            position_of(self.entries(), res.2@).is_some() ==> res.0@.len() == tree_height(
                self.entries().len(),
            ),
    {
        let key = create_key(user_address, token_address);
        let slot = find_slot(&self.leaves, key.as_slice());
        let value: u128 = if slot < self.leaves.len() && bytes_eq(
            self.leaves[slot].key.as_slice(),
            key.as_slice(),
        ) {
            self.leaves[slot].value
        } else {
            0
        };
        proof {
            if slot < self.leaves.len() {
                assert(self.entries()[slot as int].key == self.leaves@[slot as int].key@);
                assert(self.entries()[slot as int].value == self.leaves@[slot as int].value);
            }
            lemma_path_length(leaf_hashes(self.entries()), slot as int);
        }
        let proof = self.collect_proof(key.as_slice());
        (proof, value, key)
    }

    /// Recomputes the root from the leaf of this account with this amount
    /// and the sibling hashes of `proof`, and compares it with `root`.
    pub fn verify_proof(
        root: &[u8],
        proof: &[Vec<u8>],
        user_address: &[u8],
        token_address: &[u8],
        amount: u128,
    ) -> (ok: bool)
        ensures
            ok == verifies(root@, hash_views(proof@), user_address@, token_address@, amount),
    {
        let key = create_key(user_address, token_address);
        let mut current = hash_node(key.as_slice(), amount);
        let ghost path = hash_views(proof@);
        let ghost leaf = current@;
        let mut i: usize = 0;
        assert(path.skip(0) =~= path);
        while i < proof.len()
            invariant
                i <= proof.len(),
                path == hash_views(proof@),
                climb(current@, path.skip(i as int)) == climb(leaf, path),
            decreases proof.len() - i,
        {
            assert(path.skip(i as int)[0] == proof@[i as int]@);
            assert(path.skip(i as int).drop_first() =~= path.skip(i + 1));
            current = hash_pair(current.as_slice(), proof[i].as_slice());
            i = i + 1;
        }
        bytes_eq(current.as_slice(), root)
    }
}

} // verus!
