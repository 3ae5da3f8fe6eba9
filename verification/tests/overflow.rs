use antihash::overflow_attack::{find_collision, wrapping_hash};

fn wrapped(s: &str, base: u64) -> u64 {
    let mut h = 0u64;
    for c in s.chars() {
        h = h.wrapping_mul(base).wrapping_add(c as u64);
    }
    h
}

#[test]
fn overflow_pair_of_eight() {
    let (s1, s2) = find_collision(8).unwrap();
    assert_eq!(s1, "abbabaab");
    assert_eq!(s2, "baababba");
}

#[test]
fn overflow_length_is_rounded_up() {
    let (s1, s2) = find_collision(5).unwrap();
    assert_eq!(s1, "abbabaab");
    assert_eq!(s2, "baababba");
    let (t1, t2) = find_collision(1000).unwrap();
    assert_eq!(t1.len(), 1024);
    assert_eq!(t2.len(), 1024);
    let (u1, u2) = find_collision(1025).unwrap();
    assert_eq!(u1.len(), 2048);
    assert_eq!(u2.len(), 2048);
}

#[test]
fn overflow_length_zero_and_one() {
    assert_eq!(find_collision(0), Some(("a".to_string(), "b".to_string())));
    assert_eq!(find_collision(1), Some(("a".to_string(), "b".to_string())));
    assert_eq!(find_collision(2), Some(("ab".to_string(), "ba".to_string())));
}

#[test]
fn overflow_pair_differs_everywhere() {
    let (s1, s2) = find_collision(1024).unwrap();
    assert_ne!(s1, s2);
    assert_eq!(s1.len(), s2.len());
    for (c1, c2) in s1.chars().zip(s2.chars()) {
        assert!(c1 == 'a' || c1 == 'b');
        assert!(c2 == 'a' || c2 == 'b');
        assert_ne!(c1, c2);
    }
}

#[test]
fn overflow_collides_for_odd_bases() {
    let (s1, s2) = find_collision(513).unwrap();
    for base in [1u64, 3, 31, 257, 9973, 1000000007, u64::MAX] {
        assert_eq!(wrapped(&s1, base), wrapped(&s2, base));
        assert_eq!(wrapping_hash(&s1, base), wrapping_hash(&s2, base));
    }
}

#[test]
fn overflow_longer_pairs_collide_too() {
    let (s1, s2) = find_collision(4096).unwrap();
    assert_eq!(s1.len(), 4096);
    assert_eq!(wrapped(&s1, 9973), wrapped(&s2, 9973));
}

#[test]
fn overflow_short_pair_does_not_collide() {
    let (s1, s2) = find_collision(512).unwrap();
    assert_ne!(wrapped(&s1, 3), wrapped(&s2, 3));
}

#[test]
fn wrapping_hash_values() {
    assert_eq!(wrapping_hash(&"".to_string(), 31), 0);
    assert_eq!(wrapping_hash(&"ab".to_string(), 31), 3105);
    assert_eq!(wrapping_hash(&"hello".to_string(), 31), 99162322);
    assert_eq!(wrapping_hash(&"zzzzzzzzzzzz".to_string(), 9973), 17528150228797739336);
    assert_eq!(wrapping_hash(&"zzzzzzzzzzzz".to_string(), 9973), wrapped("zzzzzzzzzzzz", 9973));
}
