//! What holds of every tree: the proof of a leaf that is present verifies
//! against the root, and a batch of updates is the same as its updates
//! applied one by one.

use vstd::prelude::*;
use crate::bytes::{
    be_bytes, lemma_be_bytes_injective, lemma_concat_injective, lemma_lex_antisymmetric, lex_le,
    lex_lt,
};
use crate::keccak::keccak256;
use crate::merkle::{
    climb, combine, leaf_hash, lemma_slot_of, position_of, slot_of, tree_height, account_key, apply_updates, keys_sorted, leaf_hashes, lemma_climb_reaches_root,
    lemma_position_of_present, lemma_upsert_keeps_sorted, proof_for, tree_root, upsert, value_of,
    verifies, Balance, LeafView, OrderbookMerkleTree,
};

verus! {

/// Round trip. For every leaf of a tree, the proof generated for its
/// account, with the balance recorded for it, verifies against the root.
pub proof fn lemma_proof_round_trip(entries: Seq<LeafView>, at: int, user: Seq<u8>, token: Seq<u8>)
    requires
        keys_sorted(entries),
        0 <= at < entries.len(),
        entries[at].key == account_key(user, token),
    ensures
        value_of(entries, account_key(user, token)) == entries[at].value,
        verifies(
            tree_root(entries),
            proof_for(entries, account_key(user, token)),
            user,
            token,
            entries[at].value,
        ),
{
    lemma_position_of_present(entries, at);
    lemma_climb_reaches_root(leaf_hashes(entries), at);
}

/// Round trip, after an update. The account whose balance has just been
/// recorded has a leaf, and its proof verifies with that balance against
/// the new root.
pub proof fn lemma_updated_account_verifies(
    entries: Seq<LeafView>,
    user: Seq<u8>,
    token: Seq<u8>,
    balance: u128,
)
    requires
        keys_sorted(entries),
    ensures
        ({
            let after = upsert(entries, account_key(user, token), balance);
            &&& value_of(after, account_key(user, token)) == balance
            &&& verifies(
                tree_root(after),
                proof_for(after, account_key(user, token)),
                user,
                token,
                balance,
            )
        }),
{
    let key = account_key(user, token);
    let after = upsert(entries, key, balance);
    lemma_slot_of(entries, key);
    let p = slot_of(entries, key);
    lemma_upsert_keeps_sorted(entries, key, balance);
    assert(after[p] == LeafView { key, value: balance });
    lemma_proof_round_trip(after, p, user, token);
}

/// Round trip, of a tree. What `lemma_proof_round_trip` says, of the leaves
/// of a well-formed tree.
pub proof fn lemma_tree_round_trip(
    tree: OrderbookMerkleTree,
    at: int,
    user: Seq<u8>,
    token: Seq<u8>,
)
    requires
        tree.wf(),
        0 <= at < tree.entries().len(),
        tree.entries()[at].key == account_key(user, token),
    ensures
        verifies(
            tree_root(tree.entries()),
            proof_for(tree.entries(), account_key(user, token)),
            user,
            token,
            value_of(tree.entries(), account_key(user, token)),
        ),
{
    tree.lemma_entries_sorted();
    lemma_proof_round_trip(tree.entries(), at, user, token);
}

/// The leaves after the updates have been recorded by single updates, the
/// first update first.
pub open spec fn one_by_one(entries: Seq<LeafView>, updates: Seq<Balance>) -> Seq<LeafView>
    decreases updates.len(),
{
    if updates.len() == 0 {
        entries
    } else {
        one_by_one(
            upsert(
                entries,
                account_key(updates[0].user_address@, updates[0].token_address@),
                updates[0].balance,
            ),
            updates.drop_first(),
        )
    }
}

/// Single updates applied one by one end with the last of them.
pub proof fn lemma_one_by_one_last(entries: Seq<LeafView>, updates: Seq<Balance>)
    requires
        updates.len() > 0,
    ensures
        one_by_one(entries, updates) == upsert(
            one_by_one(entries, updates.drop_last()),
            account_key(updates.last().user_address@, updates.last().token_address@),
            updates.last().balance,
        ),
    decreases updates.len(),
{
    let first = upsert(
        entries,
        account_key(updates[0].user_address@, updates[0].token_address@),
        updates[0].balance,
    );
    if updates.len() == 1 {
        assert(updates.drop_last() =~= Seq::<Balance>::empty());
        assert(updates.drop_first() =~= Seq::<Balance>::empty());
        assert(one_by_one(first, updates.drop_first()) == first);
        assert(one_by_one(entries, updates.drop_last()) == entries);
        assert(updates.last() == updates[0]);
    } else {
        let rest = updates.drop_first();
        let front = updates.drop_last();
        lemma_one_by_one_last(first, rest);
        assert(rest.drop_last() =~= front.drop_first());
        assert(rest.last() == updates.last());
        assert(front[0] == updates[0]);
        assert(one_by_one(entries, front) == one_by_one(first, front.drop_first()));
        assert(one_by_one(entries, updates) == one_by_one(first, rest));
    }
}

/// Batch equivalence. A batch of updates leaves the same leaves, and so the
/// same root, as its updates applied one by one in the same order.
pub proof fn lemma_batch_equals_single_updates(entries: Seq<LeafView>, updates: Seq<Balance>)
    ensures
        apply_updates(entries, updates) == one_by_one(entries, updates),
        tree_root(apply_updates(entries, updates)) == tree_root(one_by_one(entries, updates)),
    decreases updates.len(),
{
    if updates.len() > 0 {
        lemma_batch_equals_single_updates(entries, updates.drop_last());
        lemma_one_by_one_last(entries, updates);
    }
}

/// Two different byte strings have the same digest.
pub open spec fn digests_collide() -> bool {
    exists|x: Seq<u8>, y: Seq<u8>|
        #![trigger keccak256(x), keccak256(y)]
        x != y && keccak256(x) == keccak256(y)
}

/// Every digest has thirty-two bytes.
pub open spec fn digests_sized() -> bool {
    forall|x: Seq<u8>| (#[trigger] keccak256(x)).len() == 32
}

/// Every hash of the path has thirty-two bytes.
pub open spec fn path_sized(path: Seq<Seq<u8>>) -> bool {
    forall|i: int| 0 <= i < path.len() ==> (#[trigger] path[i]).len() == 32
}

/// The bytes that are hashed for the parent of two nodes: the two hashes,
/// the smaller one first.
pub open spec fn pair_input(a: Seq<u8>, b: Seq<u8>) -> Seq<u8> {
    if lex_le(a, b) {
        a + b
    } else {
        b + a
    }
}

/// Two different nodes of one length, paired with the same sibling of that
/// length, give different bytes to hash.
pub proof fn lemma_pair_input_differs(a: Seq<u8>, b: Seq<u8>, sibling: Seq<u8>)
    requires
        a != b,
        a.len() == sibling.len(),
        b.len() == sibling.len(),
    ensures
        pair_input(a, sibling) != pair_input(b, sibling),
{
    if pair_input(a, sibling) == pair_input(b, sibling) {
        if lex_le(a, sibling) {
            if lex_le(b, sibling) {
                lemma_concat_injective(a, sibling, b, sibling);
            } else {
                lemma_concat_injective(a, sibling, sibling, b);
            }
        } else {
            if lex_le(b, sibling) {
                lemma_concat_injective(sibling, a, b, sibling);
            } else {
                lemma_concat_injective(sibling, a, sibling, b);
            }
        }
    }
}

/// Two different hashes that climb along one path to the same hash show a
/// collision of digests on the way.
pub proof fn lemma_climb_apart(first: Seq<u8>, second: Seq<u8>, path: Seq<Seq<u8>>)
    requires
        first != second,
        first.len() == 32,
        second.len() == 32,
        path_sized(path),
        digests_sized(),
        climb(first, path) == climb(second, path),
    ensures
        digests_collide(),
    decreases path.len(),
{
    if path.len() > 0 {
        let sibling = path[0];
        let x = pair_input(first, sibling);
        let y = pair_input(second, sibling);
        lemma_pair_input_differs(first, second, sibling);
        assert(combine(first, sibling) == keccak256(x));
        assert(combine(second, sibling) == keccak256(y));
        if keccak256(x) != keccak256(y) {
            let rest = path.drop_first();
            assert forall|i: int| 0 <= i < rest.len() implies (#[trigger] rest[i]).len() == 32 by {
                assert(rest[i] == path[i + 1]);
            }
            lemma_climb_apart(keccak256(x), keccak256(y), rest);
        }
    }
}

/// Tamper detection, as far as it can be shown of a hash. Take two claims
/// that differ in the owner, the token or the amount, the two owners of one
/// length. If one root and one path of thirty-two-byte hashes verify both,
/// then two different byte strings have the same digest.
pub proof fn lemma_tampered_claim_needs_collision(
    root: Seq<u8>,
    path: Seq<Seq<u8>>,
    user: Seq<u8>,
    token: Seq<u8>,
    amount: u128,
    other_user: Seq<u8>,
    other_token: Seq<u8>,
    other_amount: u128,
)
    requires
        digests_sized(),
        path_sized(path),
        user.len() == other_user.len(),
        user != other_user || token != other_token || amount != other_amount,
        verifies(root, path, user, token, amount),
        verifies(root, path, other_user, other_token, other_amount),
    ensures
        digests_collide(),
{
    let key = account_key(user, token);
    let other_key = account_key(other_user, other_token);
    if user + token == other_user + other_token {
        lemma_concat_injective(user, token, other_user, other_token);
    }
    if key == other_key && user + token != other_user + other_token {
        assert(keccak256(user + token) == keccak256(other_user + other_token));
    } else {
        let x = key + be_bytes(amount);
        let y = other_key + be_bytes(other_amount);
        if x == y {
            lemma_concat_injective(key, be_bytes(amount), other_key, be_bytes(other_amount));
            lemma_be_bytes_injective(amount, other_amount);
        }
        assert(leaf_hash(key, amount) == keccak256(x));
        assert(leaf_hash(other_key, other_amount) == keccak256(y));
        if keccak256(x) != keccak256(y) {
            lemma_climb_apart(keccak256(x), keccak256(y), path);
        }
    }
}

/// Two to the power `h`.
pub open spec fn two_to(h: nat) -> nat
    decreases h,
{
    if h == 0 {
        1
    } else {
        2 * two_to((h - 1) as nat)
    }
}

/// The height of a tree over more than one leaf is the logarithm of the
/// number of its leaves to base two, rounded up.
pub proof fn lemma_height_is_log2_rounded_up(n: nat)
    requires
        n > 1,
    ensures
        tree_height(n) >= 1,
        two_to((tree_height(n) - 1) as nat) < n <= two_to(tree_height(n)),
    decreases n,
{
    let half = (n + 1) / 2;
    let below = tree_height(half);
    assert(tree_height(n) == 1 + below);
    assert(two_to(1 + below) == 2 * two_to(below));
    if half > 1 {
        lemma_height_is_log2_rounded_up(half);
        assert(two_to(below) == 2 * two_to((below - 1) as nat));
    } else {
        assert(below == 0);
        assert(two_to(0) == 1);
    }
}

/// The balance recorded under `key`, if a leaf has that key.
pub open spec fn lookup(entries: Seq<LeafView>, key: Seq<u8>) -> Option<u128> {
    match position_of(entries, key) {
        Some(p) => Some(entries[p].value),
        None => None,
    }
}

/// A position named by `position_of` lies among the leaves and holds the
/// key.
pub proof fn lemma_position_of(entries: Seq<LeafView>, key: Seq<u8>)
    ensures
        match position_of(entries, key) {
            Some(p) => 0 <= p < entries.len() && entries[p].key == key,
            None => true,
        },
{
    lemma_slot_of(entries, key);
}

/// After a balance has been recorded under a key, that key holds the new
/// balance and every other key holds what it held before.
pub proof fn lemma_upsert_lookup(entries: Seq<LeafView>, key: Seq<u8>, value: u128, query: Seq<u8>)
    requires
        keys_sorted(entries),
    ensures
        lookup(upsert(entries, key, value), query) == if query == key {
            Some(value)
        } else {
            lookup(entries, query)
        },
{
    let after = upsert(entries, key, value);
    lemma_upsert_keeps_sorted(entries, key, value);
    lemma_slot_of(entries, key);
    let p = slot_of(entries, key);
    let replaced = p < entries.len() && entries[p].key == key;
    assert(after[p] == LeafView { key, value });
    if query == key {
        lemma_position_of_present(after, p);
    } else {
        lemma_position_of(entries, query);
        lemma_position_of(after, query);
        match position_of(entries, query) {
            Some(i) => {
                let moved = if replaced || i < p {
                    i
                } else {
                    i + 1
                };
                assert(after[moved] == entries[i]);
                lemma_position_of_present(after, moved);
            },
            None => {
                match position_of(after, query) {
                    Some(j) => {
                        let from = if replaced || j < p {
                            j
                        } else {
                            j - 1
                        };
                        assert(after[j] == entries[from]);
                        lemma_position_of_present(entries, from);
                    },
                    None => {},
                }
            },
        }
    }
}

/// Behind the first leaf of sorted leaves, every key but the first holds
/// what it holds in the whole, and the first key holds nothing.
pub proof fn lemma_lookup_behind_first(entries: Seq<LeafView>, query: Seq<u8>)
    requires
        keys_sorted(entries),
        entries.len() > 0,
    ensures
        keys_sorted(entries.drop_first()),
        lookup(entries.drop_first(), query) == if query == entries[0].key {
            None
        } else {
            lookup(entries, query)
        },
{
    let rest = entries.drop_first();
    assert forall|i: int, j: int| 0 <= i < j < rest.len() implies lex_lt(
        #[trigger] rest[i].key,
        #[trigger] rest[j].key,
    ) by {
        assert(rest[i] == entries[i + 1]);
        assert(rest[j] == entries[j + 1]);
        assert(lex_lt(entries[i + 1].key, entries[j + 1].key));
    }
    lemma_position_of(rest, query);
    lemma_position_of(entries, query);
    match position_of(rest, query) {
        Some(p) => {
            assert(rest[p] == entries[p + 1]);
            assert(lex_lt(entries[0].key, entries[p + 1].key));
            lemma_position_of_present(entries, p + 1);
        },
        None => {
            match position_of(entries, query) {
                Some(q) => {
                    if q > 0 {
                        assert(rest[q - 1] == entries[q]);
                        lemma_position_of_present(rest, q - 1);
                    }
                },
                None => {
                    lemma_position_of_present(entries, 0);
                },
            }
        },
    }
}

/// Sorted leaves are determined by the balances they record: two sorted
/// sequences of leaves in which every key holds the same are equal.
pub proof fn lemma_leaves_determined_by_balances(first: Seq<LeafView>, second: Seq<LeafView>)
    requires
        keys_sorted(first),
        keys_sorted(second),
        forall|key: Seq<u8>|
            #![trigger lookup(first, key)]
            #![trigger lookup(second, key)]
            lookup(first, key) == lookup(second, key),
    ensures
        first == second,
    decreases first.len(),
{
    if first.len() == 0 {
        if second.len() > 0 {
            lemma_position_of_present(second, 0);
            assert(lookup(first, second[0].key) == lookup(second, second[0].key));
        }
        assert(first =~= second);
    } else {
        let ka = first[0].key;
        lemma_position_of_present(first, 0);
        assert(lookup(first, ka) == lookup(second, ka));
        lemma_position_of(second, ka);
        lemma_position_of(first, second[0].key);
        let j = position_of(second, ka).unwrap();
        let kb = second[0].key;
        lemma_position_of_present(second, 0);
        assert(lookup(first, kb) == lookup(second, kb));
        let i = position_of(first, kb).unwrap();
        if j > 0 {
            assert(lex_lt(second[0].key, second[j].key));
            if i > 0 {
                assert(lex_lt(first[0].key, first[i].key));
                lemma_lex_antisymmetric(ka, kb);
            }
        }
        if i > 0 {
            assert(lex_lt(first[0].key, first[i].key));
        }
        assert(first[0] == second[0]);
        let rest = first.drop_first();
        let other = second.drop_first();
        assert forall|key: Seq<u8>|
            #![trigger lookup(rest, key)]
            #![trigger lookup(other, key)]
            lookup(rest, key) == lookup(other, key) by {
            lemma_lookup_behind_first(first, key);
            lemma_lookup_behind_first(second, key);
            assert(lookup(first, key) == lookup(second, key));
        }
        lemma_lookup_behind_first(first, ka);
        lemma_lookup_behind_first(second, ka);
        lemma_leaves_determined_by_balances(rest, other);
        assert(first =~= seq![first[0]] + rest);
        assert(second =~= seq![second[0]] + other);
    }
}

/// The order in which the balances of two different accounts are recorded
/// does not matter: the leaves, and so the root, come out the same.
pub proof fn lemma_updates_commute(
    entries: Seq<LeafView>,
    key: Seq<u8>,
    value: u128,
    other_key: Seq<u8>,
    other_value: u128,
)
    requires
        keys_sorted(entries),
        key != other_key,
    ensures
        upsert(upsert(entries, key, value), other_key, other_value) == upsert(
            upsert(entries, other_key, other_value),
            key,
            value,
        ),
        tree_root(upsert(upsert(entries, key, value), other_key, other_value)) == tree_root(
            upsert(upsert(entries, other_key, other_value), key, value),
        ),
{
    let one = upsert(entries, key, value);
    let two = upsert(entries, other_key, other_value);
    let first = upsert(one, other_key, other_value);
    let second = upsert(two, key, value);
    lemma_upsert_keeps_sorted(entries, key, value);
    lemma_upsert_keeps_sorted(entries, other_key, other_value);
    lemma_upsert_keeps_sorted(one, other_key, other_value);
    lemma_upsert_keeps_sorted(two, key, value);
    assert forall|query: Seq<u8>|
        #![trigger lookup(first, query)]
        #![trigger lookup(second, query)]
        lookup(first, query) == lookup(second, query) by {
        lemma_upsert_lookup(entries, key, value, query);
        lemma_upsert_lookup(entries, other_key, other_value, query);
        lemma_upsert_lookup(one, other_key, other_value, query);
        lemma_upsert_lookup(two, key, value, query);
    }
    lemma_leaves_determined_by_balances(first, second);
}

} // verus!
