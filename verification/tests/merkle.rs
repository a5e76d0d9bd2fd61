use electrscash::query::merkle::{create_merkle_branch_and_root, merklize};

fn hash(text: &str) -> [u8; 32] {
    let mut hash = [0u8; 32];
    hash.copy_from_slice(&hex::decode(text).unwrap());
    hash
}

fn shown(text: &str) -> [u8; 32] {
    let mut hash = hash(text);
    hash.reverse();
    hash
}

fn climb(mut start: [u8; 32], mut index: usize, branch: &[[u8; 32]]) -> [u8; 32] {
    for other in branch {
        start = if index % 2 == 0 { merklize(start, *other) } else { merklize(*other, start) };
        index /= 2;
    }
    start
}

#[test]
fn root_and_branch_of_four_transactions() {
    let txids = vec![
        shown("8c14f0db3df150123e6f3dbbf30f8b955a8249b62ac1d1ff16284aefa3d06d87"),
        shown("fff2525b8931402dd09222c50775608f75787bd2b87e56995a7bdd30f79702c4"),
        shown("6359f0868171b1d194cbee1af2f16ea598ae8fad666d9b012c8ed2b79a236ec4"),
        shown("e9a66845e05d5abc0ad04ec80f774a7e585c6e8db975962d069a522137b80c1d"),
    ];
    let (branch, root) = create_merkle_branch_and_root(txids.clone(), 2);
    assert_eq!(root, shown("f3e94742aca4b5ef85488dc37c06c3282295ffec960994b2c0d5ac2a25a95766"));
    assert_eq!(
        branch,
        vec![
            txids[3],
            shown("ccdafb73d8dcd0173d5d5c3c9a0770d0b3953db889dab99ef05b1907518cb815")
        ]
    );
}

#[test]
fn odd_levels_repeat_their_last_node() {
    let hashes = vec![[1; 32], [2; 32], [3; 32]];
    let (branch, root) = create_merkle_branch_and_root(hashes, 2);
    assert_eq!(root, hash("223e023fadf1f053df26988871f893c821c28edf77d64a955e6c2a02d547bdac"));
    assert_eq!(
        branch,
        vec![
            [3; 32],
            hash("39ce20bede82c96b8908bec4a157b09c549b3db90b9b474bda9ae9b9030310b4")
        ]
    );
}

#[test]
fn one_hash_is_its_own_root() {
    assert_eq!(create_merkle_branch_and_root(vec![[9; 32]], 0), (vec![], [9; 32]));
    assert_eq!(create_merkle_branch_and_root(vec![[9; 32]], 17), (vec![], [9; 32]));
}

#[test]
fn branches_lead_to_the_root() {
    for count in 1..=9u8 {
        let hashes: Vec<[u8; 32]> = (0..count).map(|i| [i; 32]).collect();
        for index in 0..hashes.len() {
            let (branch, root) = create_merkle_branch_and_root(hashes.clone(), index);
            assert_eq!(climb(hashes[index], index, &branch), root);
        }
    }
}

#[test]
fn length_of_a_branch_depends_on_the_number_of_hashes() {
    for (count, levels) in [(1u8, 0), (2, 1), (3, 2), (4, 2), (5, 3), (8, 3), (9, 4)] {
        let hashes: Vec<[u8; 32]> = (0..count).map(|i| [i; 32]).collect();
        for index in 0..hashes.len() {
            assert_eq!(create_merkle_branch_and_root(hashes.clone(), index).0.len(), levels);
        }
    }
}
