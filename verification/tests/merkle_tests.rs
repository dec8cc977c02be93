use orderbook::hex::hex_to_bytes;
use orderbook::merkle::{create_key, hash_node, hash_pair, Balance, OrderbookMerkleTree};
use sha3::{Digest, Keccak256};

fn create_test_address(s: &str) -> Vec<u8> {
    hex_to_bytes(s).expect("Failed to create test address")
}

fn keccak(data: &[u8]) -> Vec<u8> {
    let mut hasher = Keccak256::new();
    hasher.update(data);
    hasher.finalize().to_vec()
}

fn parent(a: &[u8], b: &[u8]) -> Vec<u8> {
    let (lo, hi) = if a <= b { (a, b) } else { (b, a) };
    let mut joined = lo.to_vec();
    joined.extend_from_slice(hi);
    keccak(&joined)
}

fn leaf(user: &[u8], token: &[u8], value: u128) -> (Vec<u8>, Vec<u8>) {
    let mut account = user.to_vec();
    account.extend_from_slice(token);
    let key = keccak(&account);
    let mut body = key.clone();
    body.extend_from_slice(&value.to_be_bytes());
    (key, keccak(&body))
}

#[test]
fn test_proof_generation() {
    let mut tree = OrderbookMerkleTree::new();

    let user1 = create_test_address("1111111111111111111111111111111111111111");
    let user2 = create_test_address("2222222222222222222222222222222222222222");
    let user3 = create_test_address("3333333333333333333333333333333333333333");
    let token = create_test_address("4444444444444444444444444444444444444444");

    tree.update_balance(&user1, &token, 1000);
    tree.update_balance(&user2, &token, 2000);
    tree.update_balance(&user3, &token, 3000);

    let (proof, value, _) = tree.generate_proof(&user2, &token);

    assert!(!proof.is_empty(), "Proof should not be empty");
    assert_eq!(value, 2000, "Value should match");
    assert_eq!(proof.len(), 2, "Proof length should be 2 for 3 leaves");
}

#[test]
fn test_complete_flow() -> Result<(), String> {
    let mut tree = OrderbookMerkleTree::new();

    let users = vec![
        hex_to_bytes("1111111111111111111111111111111111111111").map_err(|e| e.message())?,
        hex_to_bytes("2222222222222222222222222222222222222222").map_err(|e| e.message())?,
        hex_to_bytes("3333333333333333333333333333333333333333").map_err(|e| e.message())?,
        hex_to_bytes("4444444444444444444444444444444444444444").map_err(|e| e.message())?,
    ];
    let token = hex_to_bytes("5555555555555555555555555555555555555555").map_err(|e| e.message())?;

    for (i, user) in users.iter().enumerate() {
        tree.update_balance(user, &token, (1000 * (i + 1)) as u128);
    }

    for (i, user) in users.iter().enumerate() {
        let (proof, value, _) = tree.generate_proof(user, &token);
        assert!(!proof.is_empty(), "Proof should not be empty");
        assert_eq!(value, (1000 * (i + 1)) as u128, "Value should match");
        assert_eq!(proof.len(), 2, "Proof length should be 2 for 4 leaves");
    }

    Ok(())
}

#[test]
fn test_proof_verification() {
    let mut tree = OrderbookMerkleTree::new();

    let user1 = hex_to_bytes("1111111111111111111111111111111111111111").unwrap();
    let user2 = hex_to_bytes("2222222222222222222222222222222222222222").unwrap();
    let user3 = hex_to_bytes("3333333333333333333333333333333333333333").unwrap();
    let token = hex_to_bytes("4444444444444444444444444444444444444444").unwrap();

    tree.update_balance(&user1, &token, 1000);
    tree.update_balance(&user2, &token, 2000);
    tree.update_balance(&user3, &token, 3000);

    let root = tree.get_root();

    let (proof, value, _) = tree.generate_proof(&user2, &token);

    assert!(
        OrderbookMerkleTree::verify_proof(&root, &proof, &user2, &token, value),
        "Proof should verify successfully"
    );

    assert!(
        !OrderbookMerkleTree::verify_proof(&root, &proof, &user2, &token, value + 1),
        "Proof should fail with wrong amount"
    );

    assert!(
        !OrderbookMerkleTree::verify_proof(&root, &proof, &user1, &token, value),
        "Proof should fail with wrong user"
    );

    let wrong_token = hex_to_bytes("5555555555555555555555555555555555555555").unwrap();
    assert!(
        !OrderbookMerkleTree::verify_proof(&root, &proof, &user2, &wrong_token, value),
        "Proof should fail with wrong token"
    );
}

#[test]
fn test_comprehensive_verification() {
    let mut tree = OrderbookMerkleTree::new();

    let users: Vec<Vec<u8>> = (0..4)
        .map(|i| {
            let mut addr = vec![0u8; 20];
            addr[0] = i as u8 + 1;
            addr
        })
        .collect();

    let token = vec![0u8; 20];

    for (i, user) in users.iter().enumerate() {
        tree.update_balance(user, &token, (1000 * (i + 1)) as u128);
    }

    let root = tree.get_root();

    for (i, user) in users.iter().enumerate() {
        let (proof, value, _) = tree.generate_proof(user, &token);

        assert!(
            OrderbookMerkleTree::verify_proof(&root, &proof, user, &token, value),
            "Proof should verify for user {}",
            i
        );

        assert!(
            !OrderbookMerkleTree::verify_proof(&root, &proof, user, &token, value + 1),
            "Proof should fail with modified value for user {}",
            i
        );
    }
}

#[test]
fn empty_tree_has_zero_root() {
    let tree = OrderbookMerkleTree::new();
    assert_eq!(tree.get_root(), vec![0u8; 32]);
}

#[test]
fn empty_tree_proof_is_empty() {
    let tree = OrderbookMerkleTree::new();
    let (proof, value, key) = tree.generate_proof(&[1u8; 20], &[2u8; 20]);
    assert!(proof.is_empty());
    assert_eq!(value, 0);
    assert_eq!(key.len(), 32);
}

#[test]
fn key_is_keccak_of_empty_input() {
    let expected =
        hex_to_bytes("c5d2460186f7233c927e7db2dcc703c0e500b653ca82273b7bfad8045d85a470").unwrap();
    assert_eq!(create_key(&[], &[]), expected);
}

#[test]
fn key_is_keccak_of_owner_then_token() {
    let expected =
        hex_to_bytes("4e03657aea45a94fc7d47ba826c8d667c0d1e6e33a64a036ec44f58fa12d6c45").unwrap();
    assert_eq!(create_key(b"a", b"bc"), expected);
    assert_eq!(create_key(b"ab", b"c"), expected);
    assert_ne!(create_key(b"bc", b"a"), expected);
}

#[test]
fn leaf_hash_uses_sixteen_big_endian_bytes() {
    let key = vec![7u8; 32];
    let mut body = key.clone();
    body.extend_from_slice(&[0, 0, 0, 0, 0, 0, 0, 0, 0, 0, 0, 0, 0, 0, 0x03, 0xe8]);
    assert_eq!(hash_node(&key, 1000), keccak(&body));

    let big: u128 = 0x0102030405060708090a0b0c0d0e0f10;
    let mut body = key.clone();
    body.extend_from_slice(&[1, 2, 3, 4, 5, 6, 7, 8, 9, 10, 11, 12, 13, 14, 15, 16]);
    assert_eq!(hash_node(&key, big), keccak(&body));

    let mut body = key.clone();
    body.extend_from_slice(&[0xff; 16]);
    assert_eq!(hash_node(&key, u128::MAX), keccak(&body));
}

#[test]
fn pair_hash_puts_smaller_hash_first() {
    let a = vec![1u8; 32];
    let b = vec![2u8; 32];
    let mut joined = a.clone();
    joined.extend_from_slice(&b);
    assert_eq!(hash_pair(&a, &b), keccak(&joined));
    assert_eq!(hash_pair(&b, &a), keccak(&joined));
    let mut twice = a.clone();
    twice.extend_from_slice(&a);
    assert_eq!(hash_pair(&a, &a), keccak(&twice));
}

#[test]
fn single_leaf_root_is_leaf_hash() {
    let user = vec![9u8; 20];
    let token = vec![8u8; 20];
    let mut tree = OrderbookMerkleTree::new();
    tree.update_balance(&user, &token, 42);
    let (key, hash) = leaf(&user, &token, 42);
    assert_eq!(tree.get_root(), hash);
    let (proof, value, got_key) = tree.generate_proof(&user, &token);
    assert!(proof.is_empty());
    assert_eq!(value, 42);
    assert_eq!(got_key, key);
    assert!(OrderbookMerkleTree::verify_proof(&hash, &proof, &user, &token, 42));
    assert!(!OrderbookMerkleTree::verify_proof(&hash, &proof, &user, &token, 43));
}

#[test]
fn three_leaf_root_pairs_sorted_leaves_and_doubles_the_last() {
    let token = vec![4u8; 20];
    let users: Vec<Vec<u8>> = vec![vec![1u8; 20], vec![2u8; 20], vec![3u8; 20]];
    let mut tree = OrderbookMerkleTree::new();
    let mut leaves: Vec<(Vec<u8>, Vec<u8>)> = Vec::new();
    for (i, user) in users.iter().enumerate() {
        let value = 1000 * (i as u128 + 1);
        tree.update_balance(user, &token, value);
        leaves.push(leaf(user, &token, value));
    }
    leaves.sort();
    let left = parent(&leaves[0].1, &leaves[1].1);
    let right = parent(&leaves[2].1, &leaves[2].1);
    let root = parent(&left, &right);
    assert_eq!(tree.get_root(), root);

    for (i, user) in users.iter().enumerate() {
        let value = 1000 * (i as u128 + 1);
        let (key, hash) = leaf(user, &token, value);
        let at = leaves.iter().position(|l| l.0 == key).unwrap();
        let (proof, got, _) = tree.generate_proof(user, &token);
        assert_eq!(got, value);
        let expected = match at {
            0 => vec![leaves[1].1.clone(), right.clone()],
            1 => vec![leaves[0].1.clone(), right.clone()],
            _ => vec![hash.clone(), left.clone()],
        };
        assert_eq!(proof, expected);
        assert!(OrderbookMerkleTree::verify_proof(&root, &proof, user, &token, value));
    }
}

#[test]
fn proof_for_middle_key_verifies_2000_and_not_2001() {
    let token = vec![4u8; 20];
    let users: Vec<Vec<u8>> = vec![vec![1u8; 20], vec![2u8; 20], vec![3u8; 20]];
    let mut keyed: Vec<(Vec<u8>, Vec<u8>)> =
        users.iter().map(|u| (create_key(u, &token), u.clone())).collect();
    keyed.sort();
    let mut tree = OrderbookMerkleTree::new();
    for (i, (_, user)) in keyed.iter().enumerate() {
        tree.update_balance(user, &token, 1000 * (i as u128 + 1));
    }
    let root = tree.get_root();
    let middle = &keyed[1].1;
    let (proof, value, key) = tree.generate_proof(middle, &token);
    assert_eq!(key, keyed[1].0);
    assert_eq!(value, 2000);
    assert_eq!(proof.len(), 2);
    assert!(OrderbookMerkleTree::verify_proof(&root, &proof, middle, &token, 2000));
    assert!(!OrderbookMerkleTree::verify_proof(&root, &proof, middle, &token, 2001));
}

#[test]
fn proof_length_is_ceiling_of_log2() {
    let token = vec![0u8; 20];
    let expected = [0usize, 0, 1, 2, 2, 3, 3, 3, 3, 4];
    let mut tree = OrderbookMerkleTree::new();
    for n in 1..expected.len() {
        let mut user = vec![0u8; 20];
        user[0] = n as u8;
        tree.update_balance(&user, &token, n as u128);
        let root = tree.get_root();
        for m in 1..=n {
            let mut owner = vec![0u8; 20];
            owner[0] = m as u8;
            let (proof, value, _) = tree.generate_proof(&owner, &token);
            assert_eq!(proof.len(), expected[n]);
            assert_eq!(value, m as u128);
            assert!(OrderbookMerkleTree::verify_proof(&root, &proof, &owner, &token, value));
        }
    }
}

#[test]
fn update_replaces_an_existing_balance() {
    let user = vec![1u8; 20];
    let other = vec![2u8; 20];
    let token = vec![3u8; 20];
    let mut tree = OrderbookMerkleTree::new();
    tree.update_balance(&user, &token, 10);
    tree.update_balance(&other, &token, 20);
    let before = tree.get_root();
    tree.update_balance(&user, &token, 11);
    let after = tree.get_root();
    assert_ne!(before, after);
    let (proof, value, _) = tree.generate_proof(&user, &token);
    assert_eq!(value, 11);
    assert_eq!(proof.len(), 1);
    assert!(OrderbookMerkleTree::verify_proof(&after, &proof, &user, &token, 11));
    assert!(!OrderbookMerkleTree::verify_proof(&after, &proof, &user, &token, 10));
    tree.update_balance(&user, &token, 10);
    assert_eq!(tree.get_root(), before);
}

#[test]
fn batch_update_equals_single_updates() {
    let token = vec![5u8; 20];
    let updates: Vec<Balance> = (1u8..=7)
        .map(|i| Balance {
            user_address: vec![i % 5; 20],
            token_address: token.clone(),
            balance: 100 * i as u128,
        })
        .collect();
    let mut batched = OrderbookMerkleTree::new();
    batched.batch_update(&updates);
    let mut single = OrderbookMerkleTree::new();
    for u in updates.iter() {
        single.update_balance(&u.user_address, &u.token_address, u.balance);
    }
    assert_eq!(batched.get_root(), single.get_root());
    assert_ne!(batched.get_root(), vec![0u8; 32]);
    let (_, value, _) = batched.generate_proof(&vec![1u8; 20], &token);
    assert_eq!(value, 600);
}

#[test]
fn empty_batch_changes_nothing() {
    let mut tree = OrderbookMerkleTree::new();
    tree.batch_update(&[]);
    assert_eq!(tree.get_root(), vec![0u8; 32]);
    tree.update_balance(&[1u8; 20], &[2u8; 20], 5);
    let root = tree.get_root();
    tree.batch_update(&[]);
    assert_eq!(tree.get_root(), root);
}

#[test]
fn root_does_not_depend_on_insertion_order() {
    let token = vec![5u8; 20];
    let mut forward = OrderbookMerkleTree::new();
    let mut backward = OrderbookMerkleTree::new();
    for i in 1u8..=6 {
        forward.update_balance(&vec![i; 20], &token, i as u128);
    }
    for i in (1u8..=6).rev() {
        backward.update_balance(&vec![i; 20], &token, i as u128);
    }
    assert_eq!(forward.get_root(), backward.get_root());
}

#[test]
fn absent_account_gets_zero_and_an_empty_proof() {
    let token = vec![5u8; 20];
    let mut tree = OrderbookMerkleTree::new();
    for i in 1u8..=3 {
        tree.update_balance(&vec![i; 20], &token, i as u128);
    }
    let root = tree.get_root();
    let absent = vec![9u8; 20];
    let (proof, value, key) = tree.generate_proof(&absent, &token);
    assert_eq!(value, 0);
    assert!(proof.is_empty());
    assert_eq!(key, create_key(&absent, &token));
    assert!(!OrderbookMerkleTree::verify_proof(&root, &proof, &absent, &token, 1));
    assert!(!OrderbookMerkleTree::verify_proof(&root, &proof, &absent, &token, 0));
}

#[test]
fn tampered_claims_are_rejected() {
    let token = vec![5u8; 20];
    let mut tree = OrderbookMerkleTree::new();
    for i in 1u8..=5 {
        tree.update_balance(&vec![i; 20], &token, 10 * i as u128);
    }
    let root = tree.get_root();
    let user = vec![3u8; 20];
    let (proof, value, _) = tree.generate_proof(&user, &token);
    assert_eq!(value, 30);
    assert_eq!(proof.len(), 3);
    assert!(OrderbookMerkleTree::verify_proof(&root, &proof, &user, &token, 30));
    assert!(!OrderbookMerkleTree::verify_proof(&root, &proof, &user, &token, 31));
    assert!(!OrderbookMerkleTree::verify_proof(&root, &proof, &vec![4u8; 20], &token, 30));
    assert!(!OrderbookMerkleTree::verify_proof(&root, &proof, &user, &vec![6u8; 20], 30));
    let mut wrong_root = root.clone();
    wrong_root[0] ^= 1;
    assert!(!OrderbookMerkleTree::verify_proof(&wrong_root, &proof, &user, &token, 30));
    let mut short = proof.clone();
    short.pop();
    assert!(!OrderbookMerkleTree::verify_proof(&root, &short, &user, &token, 30));
}
