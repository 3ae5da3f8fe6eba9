use antihash::frontier::Frontier;
use antihash::hash::hash_word;
use antihash::lists::sort_nodes;
use antihash::merge::{calc_diff, calc_sum, merge};
use antihash::order::order_lists;
use antihash::power::power_of_two;
use antihash::tree_attack::{
    find_collision, find_single_collision, make_leaves, TreeAttackNode,
};

fn hash(s: &str, base: u64, module: u64) -> u64 {
    let mut h = 0u128;
    for c in s.chars() {
        h = (h * base as u128 + c as u128) % module as u128;
    }
    h as u64
}

fn spelled_from(s: &str, alphabet: &[String]) -> bool {
    let width = alphabet[0].len();
    s.len() % width == 0
        && (0..s.len() / width)
            .all(|i| alphabet.iter().any(|w| w.as_str() == &s[i * width..(i + 1) * width]))
}

fn leaves_with_sums(sums: &[u64]) -> Vec<TreeAttackNode> {
    sums.iter()
        .map(|&s| TreeAttackNode::new_leaf(0, 0, 1, s, 0, u64::MAX, 1))
        .collect()
}

fn sums_of(list: &[TreeAttackNode]) -> Vec<i128> {
    list.iter().map(|n| n.get_sum()).collect()
}

fn links_of(list: &[TreeAttackNode]) -> Vec<(usize, bool, bool, usize, usize)> {
    list.iter()
        .map(|n| match n {
            TreeAttackNode::Internal(n) => (n.idx, n.rev_left, n.rev_right, n.pos_left, n.pos_right),
            TreeAttackNode::Leaf(_) => panic!("a merged node is internal"),
        })
        .collect()
}

#[test]
fn hash_word_values() {
    assert_eq!(hash_word(&"".to_string(), 9973, 1000000007), 0);
    assert_eq!(hash_word(&"abc".to_string(), 9973, 1000000007), 648668103);
    assert_eq!(hash_word(&"a".to_string(), u64::MAX, u64::MAX - 58), 97);
    assert_eq!(hash_word(&"zz".to_string(), u64::MAX, u64::MAX - 58), 7198);
    assert_eq!(hash_word(&"abc".to_string(), 7, 1), 0);
}

#[test]
fn power_of_two_values() {
    assert_eq!(power_of_two(0), 1);
    assert_eq!(power_of_two(3), 8);
    assert_eq!(power_of_two(11), 2048);
    assert_eq!(power_of_two(12), 4096);
}

#[test]
fn new_leaf_sum() {
    match TreeAttackNode::new_leaf(4, 1, 0, 2, 3, 5, 1) {
        TreeAttackNode::Leaf(n) => {
            assert_eq!((n.sum, n.idx, n.word1, n.word2), (4, 4, 1, 0));
        }
        TreeAttackNode::Internal(_) => panic!("a leaf was asked for"),
    }
    assert_eq!(TreeAttackNode::new_leaf(0, 0, 1, 3, 2, 5, 1).get_sum(), 1);
    assert_eq!(TreeAttackNode::new_leaf(0, 0, 1, 5, 7, 11, 3).get_sum(), 5);
    assert_eq!(TreeAttackNode::new_leaf(0, 0, 1, 6, 6, 11, 3).get_sum(), 0);
    let top = u64::MAX;
    assert_eq!(
        TreeAttackNode::new_leaf(0, 0, 1, top - 1, 0, top, top - 1).get_sum(),
        1
    );
}

#[test]
fn new_internal_keeps_its_fields() {
    match TreeAttackNode::new_internal(17, 5, true, false, 2, 3) {
        TreeAttackNode::Internal(n) => {
            assert_eq!(
                (n.sum, n.idx, n.rev_left, n.rev_right, n.pos_left, n.pos_right),
                (17, 5, true, false, 2, 3)
            );
        }
        TreeAttackNode::Leaf(_) => panic!("an internal node was asked for"),
    }
    assert_eq!(TreeAttackNode::new_internal(17, 5, true, false, 2, 3).get_sum(), 17);
}

#[test]
fn make_leaves_orders_and_drops_repeats() {
    // hashes 2, 3, 4 modulo 5 with the power 1: the differences are 1, 2, 3, 4, each twice
    let leaves = make_leaves(&vec![2, 3, 4], 5, 6, 1);
    assert_eq!(sums_of(&leaves), vec![1, 2, 3, 4]);
    for leaf in &leaves {
        match leaf {
            TreeAttackNode::Leaf(n) => {
                assert_eq!(n.idx, 6);
                assert_ne!(n.word1, n.word2);
                let hashes = [2i128, 3, 4];
                assert_eq!(n.sum, (hashes[n.word1] + 5 - hashes[n.word2]) % 5);
            }
            TreeAttackNode::Internal(_) => panic!("a leaf was asked for"),
        }
    }
}

#[test]
fn make_leaves_of_two_words() {
    let leaves = make_leaves(&vec![2, 3], 5, 0, 2);
    assert_eq!(sums_of(&leaves), vec![2, 3]);
    let equal = make_leaves(&vec![4, 4], 5, 0, 2);
    assert_eq!(sums_of(&equal), vec![0]);
    assert!(make_leaves(&vec![4], 5, 0, 2).is_empty());
}

#[test]
fn calc_sum_and_diff() {
    let left = leaves_with_sums(&[1, 4]);
    let right = leaves_with_sums(&[2, 3, 9]);
    assert_eq!(calc_sum(&left, &right, 1, 2), 13);
    assert_eq!(calc_sum(&left, &right, 0, 0), 3);
    assert_eq!(calc_diff(&left, &right, 1, 2), 5);
    assert_eq!(calc_diff(&left, &right, 1, 0), 2);
    assert_eq!(calc_diff(&left, &right, 1, 1), 1);
}

#[test]
fn merge_hands_out_values_in_order() {
    let left = leaves_with_sums(&[1, 4]);
    let right = leaves_with_sums(&[2, 3]);
    let mut frontier = Frontier::new(100);
    let (out, found) = merge(&left, &right, 9, 100, &mut frontier);
    assert!(!found);
    assert_eq!(sums_of(&out), vec![1, 2, 3, 4, 6, 7]);
    assert_eq!(
        links_of(&out),
        vec![
            (9, true, false, 0, 0),
            (9, true, false, 0, 1),
            (9, false, false, 0, 0),
            (9, false, false, 0, 1),
            (9, false, false, 1, 0),
            (9, false, false, 1, 1),
        ]
    );
}

#[test]
fn merge_stops_at_the_cluster_size() {
    let left = leaves_with_sums(&[1, 4]);
    let right = leaves_with_sums(&[2, 3]);
    let mut frontier = Frontier::new(3);
    let (out, found) = merge(&left, &right, 2, 3, &mut frontier);
    assert!(!found);
    assert_eq!(sums_of(&out), vec![1, 2, 3]);
    let (one, _) = merge(&left, &right, 2, 1, &mut frontier);
    assert_eq!(sums_of(&one), vec![1]);
}

#[test]
fn merge_reverses_the_smaller_side() {
    let left = leaves_with_sums(&[10]);
    let right = leaves_with_sums(&[4]);
    let mut frontier = Frontier::new(10);
    let (out, found) = merge(&left, &right, 1, 10, &mut frontier);
    assert!(!found);
    assert_eq!(sums_of(&out), vec![6, 14]);
    assert_eq!(links_of(&out), vec![(1, false, true, 0, 0), (1, false, false, 0, 0)]);
}

#[test]
fn merge_finds_a_shared_sum() {
    let left = leaves_with_sums(&[1, 4, 20]);
    let right = leaves_with_sums(&[3, 4, 9]);
    let mut frontier = Frontier::new(10);
    let (out, found) = merge(&left, &right, 5, 10, &mut frontier);
    assert!(found);
    assert_eq!(sums_of(&out), vec![0]);
    assert_eq!(links_of(&out), vec![(5, false, true, 1, 1)]);
}

#[test]
fn merge_of_two_zeros() {
    let left = leaves_with_sums(&[0, 5]);
    let right = leaves_with_sums(&[0]);
    let mut frontier = Frontier::new(10);
    let (out, found) = merge(&left, &right, 5, 10, &mut frontier);
    assert!(found);
    assert_eq!(sums_of(&out), vec![0]);
    assert_eq!(links_of(&out), vec![(5, false, true, 0, 0)]);
}

#[test]
fn merge_can_be_repeated_on_one_frontier() {
    let left = leaves_with_sums(&[1, 4]);
    let right = leaves_with_sums(&[2, 3]);
    let mut frontier = Frontier::new(100);
    let (first, _) = merge(&left, &right, 9, 100, &mut frontier);
    let (second, _) = merge(&left, &right, 9, 100, &mut frontier);
    assert_eq!(sums_of(&first), sums_of(&second));
}

#[test]
fn tree_single_answer() {
    let alphabet = vec!["ab".to_string(), "cd".to_string(), "ef".to_string()];
    let (s1, s2) =
        find_single_collision(31, 1000003, 1000, &alphabet).expect("collision not found");
    assert_ne!(s1, s2);
    assert_eq!(s1.len(), s2.len());
    let words = s1.len() / 2;
    assert!(words.is_power_of_two() && words >= 8 && words <= 2048);
    assert!(spelled_from(&s1, &alphabet));
    assert!(spelled_from(&s2, &alphabet));
    assert_eq!(hash(&s1, 31, 1000003), hash(&s2, 31, 1000003));
}

#[test]
fn tree_words_of_one_hash_are_found_at_once() {
    // modulo 1 every word has the hash 0
    let alphabet = vec!["a".to_string(), "b".to_string()];
    let (s1, s2) = find_single_collision(31, 1, 10, &alphabet).expect("collision not found");
    assert_eq!(s1.len(), 8);
    assert_eq!(s2.len(), 8);
    assert_ne!(s1, s2);
    // "ad" and "bB" have one hash for the base 31: 97 * 31 + 100 = 98 * 31 + 66 + 3
    let pair = vec!["bC".to_string(), "ab".to_string()];
    assert_eq!(hash("bC", 31, 1000003), hash("ab", 31, 1000003));
    let (t1, t2) = find_single_collision(31, 1000003, 10, &pair).expect("collision not found");
    assert_eq!(t1.len(), 16);
    assert_ne!(t1, t2);
    assert_eq!(hash(&t1, 31, 1000003), hash(&t2, 31, 1000003));
}

#[test]
fn tree_equal_words_give_equal_strings() {
    let alphabet = vec!["a".to_string(), "a".to_string()];
    let (s1, s2) = find_single_collision(31, 1009, 10, &alphabet).expect("collision not found");
    assert_eq!(s1, "aaaaaaaa");
    assert_eq!(s2, "aaaaaaaa");
}

#[test]
fn tree_pairs_the_lists_with_the_least_first_sums() {
    // With the base 2 and the module 5 the lists of leaves at the odd positions hold the
    // sums 1 and 4, and those at the even positions 2 and 3. Ordered by their first sums,
    // two lists of odd positions come first and are merged: they share a sum.
    let alphabet = vec!["a".to_string(), "b".to_string()];
    let (s1, s2) = find_single_collision(2, 5, 100, &alphabet).expect("collision not found");
    assert_eq!(s1.len(), 8);
    assert_eq!(s2.len(), 8);
    let apart: Vec<usize> = s1
        .chars()
        .zip(s2.chars())
        .enumerate()
        .filter(|(_, (c1, c2))| c1 != c2)
        .map(|(i, _)| i)
        .collect();
    // lists with one first sum keep their order, so that the first two odd positions meet
    assert_eq!(apart, vec![1, 3]);
    assert_eq!(hash(&s1, 2, 5), hash(&s2, 2, 5));
}

#[test]
fn sort_nodes_by_sum() {
    let mut nodes = leaves_with_sums(&[5, 3, 9, 3, 0, 7, 5, 1]);
    sort_nodes(&mut nodes);
    assert_eq!(sums_of(&nodes), vec![0, 1, 3, 3, 5, 5, 7, 9]);
    let mut one = leaves_with_sums(&[4]);
    sort_nodes(&mut one);
    assert_eq!(sums_of(&one), vec![4]);
    let mut none: Vec<TreeAttackNode> = Vec::new();
    sort_nodes(&mut none);
    assert!(none.is_empty());
    let mut many: Vec<TreeAttackNode> =
        leaves_with_sums(&(0..1000u64).map(|i| (i * 7919) % 1009).collect::<Vec<u64>>());
    sort_nodes(&mut many);
    let sums = sums_of(&many);
    assert_eq!(sums.len(), 1000);
    assert!(sums.windows(2).all(|w| w[0] <= w[1]));
    let mut expected: Vec<i128> = (0..1000i128).map(|i| (i * 7919) % 1009).collect();
    expected.sort();
    assert_eq!(sums, expected);
}

#[test]
fn order_lists_by_first_sum() {
    let mut tree: Vec<Vec<TreeAttackNode>> = vec![
        leaves_with_sums(&[9]),
        leaves_with_sums(&[7, 8]),
        leaves_with_sums(&[3, 30]),
        leaves_with_sums(&[5]),
        leaves_with_sums(&[3, 4]),
        leaves_with_sums(&[1, 2]),
        leaves_with_sums(&[0]),
    ];
    order_lists(&mut tree, 1, 6);
    let sums: Vec<Vec<i128>> = tree.iter().map(|list| sums_of(list)).collect();
    assert_eq!(
        sums,
        vec![
            vec![9],
            vec![1, 2],
            vec![3, 30],
            vec![3, 4],
            vec![5],
            vec![7, 8],
            vec![0],
        ]
    );
}

#[test]
fn order_lists_of_nothing_and_one() {
    let mut tree: Vec<Vec<TreeAttackNode>> =
        vec![leaves_with_sums(&[9]), leaves_with_sums(&[7, 8])];
    order_lists(&mut tree, 1, 1);
    order_lists(&mut tree, 0, 1);
    order_lists(&mut tree, 2, 2);
    let sums: Vec<Vec<i128>> = tree.iter().map(|list| sums_of(list)).collect();
    assert_eq!(sums, vec![vec![9], vec![7, 8]]);
    order_lists(&mut tree, 0, 2);
    let sums: Vec<Vec<i128>> = tree.iter().map(|list| sums_of(list)).collect();
    assert_eq!(sums, vec![vec![7, 8], vec![9]]);
}

#[test]
fn tree_lists_of_zeros_meet_at_once() {
    // modulo 2 with an even base all positions but the last weigh nothing
    let alphabet = vec!["a".to_string(), "b".to_string()];
    let (s1, s2) = find_single_collision(2, 2, 100, &alphabet).expect("collision not found");
    assert_eq!(s1.len(), 8);
    assert_eq!(hash(&s1, 2, 2), hash(&s2, 2, 2));
}

#[test]
fn tree_lengths_of_the_answers() {
    let two = vec!["a".to_string(), "b".to_string()];
    let cases: [(u64, u64, usize, usize); 5] = [
        (3, 1000003, 1, 128),
        (3, 1000003, 2, 64),
        (3, 1000003, 5, 64),
        (31, 1000003, 3, 128),
        (9973, 1000000007, 1, 512),
    ];
    for (base, module, cluster_size, len) in cases {
        let (s1, s2) =
            find_single_collision(base, module, cluster_size, &two).expect("collision not found");
        assert_eq!(s1.len(), len);
        assert_eq!(s2.len(), len);
        assert_ne!(s1, s2);
        assert_eq!(hash(&s1, base, module), hash(&s2, base, module));
    }
    let three = vec!["ab".to_string(), "cd".to_string(), "ef".to_string()];
    let (s1, s2) = find_single_collision(31, 1000003, 1000, &three).expect("collision not found");
    assert_eq!(s1.len(), 32);
    assert_eq!(hash(&s1, 31, 1000003), hash(&s2, 31, 1000003));
}

#[test]
fn tree_small_lists_against_a_large_module_find_nothing() {
    let two = vec!["a".to_string(), "b".to_string()];
    assert_eq!(find_single_collision(3, (1 << 61) - 1, 1, &two), None);
    assert_eq!(find_single_collision(5, (1 << 61) - 1, 2, &two), None);
    let other = vec!["a".to_string(), "c".to_string()];
    assert_eq!(find_single_collision(7, 18446744073709551557, 1, &other), None);
    assert_eq!(
        find_collision(vec![3], vec![(1 << 61) - 1], 1, two.clone()),
        None
    );
    assert_eq!(
        find_collision(vec![3, 5], vec![1000003, (1 << 61) - 1], 1, two),
        None
    );
}
