use antihash::birthday_attack::{
    append_drawn, draw_size, find_collision, find_single_collision, gen_string, get_hash,
    record_sample, sample_bound,
};
use std::collections::HashMap;

fn hash(s: &str, base: u64, module: u64) -> u64 {
    let mut h = 0u64;
    for c in s.chars() {
        h = (h * base + c as u64) % module;
    }
    h
}

fn spelled_from(s: &str, alphabet: &[String]) -> bool {
    let width = alphabet[0].len();
    s.len() % width == 0
        && (0..s.len() / width)
            .all(|i| alphabet.iter().any(|w| w.as_str() == &s[i * width..(i + 1) * width]))
}

#[test]
fn get_hash_values() {
    assert_eq!(get_hash(&"".to_string(), 9973, 1000000007), 0);
    assert_eq!(get_hash(&"a".to_string(), 9973, 1000000007), 97);
    assert_eq!(get_hash(&"abc".to_string(), 9973, 1000000007), 648668103);
    assert_eq!(get_hash(&"xcphdx".to_string(), 9973, 1000000007), 261467813);
    assert_eq!(get_hash(&"fsngso".to_string(), 9973, 1000000007), 799256689);
}

#[test]
fn get_hash_edge_coefficients() {
    assert_eq!(get_hash(&"abc".to_string(), 0, 1000), 99);
    assert_eq!(get_hash(&"abc".to_string(), 5, 1), 0);
    let top = 0xffff_ffffu64;
    assert_eq!(get_hash(&"zz~~".to_string(), top, top), hash("zz~~", top, top));
}

#[test]
fn sample_bound_values() {
    assert_eq!(sample_bound(0), 0);
    assert_eq!(sample_bound(1), 1);
    assert_eq!(sample_bound(15), 3);
    assert_eq!(sample_bound(16), 4);
    assert_eq!(sample_bound(1000000007), 31622);
    assert_eq!(sample_bound(0xffff_ffff), 65535);
}

#[test]
fn record_sample_files_a_new_word() {
    let mut samples: HashMap<u64, String> = HashMap::new();
    assert_eq!(record_sample(&mut samples, 7, "abc".to_string()), None);
    assert_eq!(samples.get(&7), Some(&"abc".to_string()));
    assert_eq!(samples.len(), 1);
}

#[test]
fn record_sample_ignores_the_same_word() {
    let mut samples: HashMap<u64, String> = HashMap::new();
    record_sample(&mut samples, 7, "abc".to_string());
    assert_eq!(record_sample(&mut samples, 7, "abc".to_string()), None);
    assert_eq!(samples.len(), 1);
}

#[test]
fn record_sample_reports_another_word() {
    let mut samples: HashMap<u64, String> = HashMap::new();
    record_sample(&mut samples, 7, "abc".to_string());
    record_sample(&mut samples, 8, "abd".to_string());
    assert_eq!(
        record_sample(&mut samples, 7, "xyz".to_string()),
        Some(("xyz".to_string(), "abc".to_string()))
    );
    assert_eq!(samples.get(&7), Some(&"xyz".to_string()));
    assert_eq!(samples.get(&8), Some(&"abd".to_string()));
}

#[test]
fn gen_string_spells_words_of_the_alphabet() {
    let alphabet = vec!["ab".to_string(), "cd".to_string(), "ef".to_string()];
    for len in [0u64, 1, 6, 63] {
        let word = gen_string(len, &alphabet);
        assert_eq!(word.len() as u64, 2 * len);
        assert!(spelled_from(&word, &alphabet));
    }
    let single = vec!["xyz".to_string()];
    assert_eq!(gen_string(3, &single), "xyzxyzxyz");
}

#[test]
fn birthday_single_answer() {
    let alphabet = vec!["ab".to_string(), "cd".to_string(), "ef".to_string()];
    let (s1, s2) = find_single_collision(31, 10007, &alphabet).expect("collision not found");
    assert_ne!(s1, s2);
    assert_eq!(s1.len(), s2.len());
    assert!(s1.len() >= 12 && s1.len() < 128);
    assert!(spelled_from(&s1, &alphabet));
    assert!(spelled_from(&s2, &alphabet));
    assert_eq!(hash(&s1, 31, 10007), hash(&s2, 31, 10007));
}

#[test]
fn birthday_one_word_gives_nothing() {
    let alphabet = vec!["a".to_string()];
    assert_eq!(find_single_collision(31, 101, &alphabet), None);
    assert_eq!(find_collision(vec![31], vec![101], alphabet), None);
}

#[test]
fn birthday_tiny_module_gives_nothing() {
    let alphabet = vec!["a".to_string(), "b".to_string()];
    assert_eq!(find_single_collision(31, 3, &alphabet), None);
}

#[test]
fn birthday_lifted_answer() {
    let bases = vec![31u64, 37, 41];
    let modules = vec![1009u64, 10007, 100003];
    let alphabet = vec!["ab".to_string(), "cd".to_string()];
    let (s1, s2) =
        find_collision(bases.clone(), modules.clone(), alphabet.clone()).expect("collision not found");
    assert_ne!(s1, s2);
    assert_eq!(s1.len(), s2.len());
    assert!(spelled_from(&s1, &alphabet));
    assert!(spelled_from(&s2, &alphabet));
    for (&b, &m) in bases.iter().zip(modules.iter()) {
        assert_eq!(hash(&s1, b, m), hash(&s2, b, m));
        assert_eq!(get_hash(&s1, b, m), get_hash(&s2, b, m));
    }
}

#[test]
fn birthday_answer_is_spelled_from_the_two_words() {
    let alphabet = vec!["xcphdx".to_string(), "fsngso".to_string()];
    let (s1, s2) = find_collision(vec![9973], vec![1000000007], alphabet.clone())
        .expect("collision not found");
    assert_ne!(s1, s2);
    assert_eq!(s1.len(), s2.len());
    assert!(spelled_from(&s1, &alphabet));
    assert!(spelled_from(&s2, &alphabet));
    assert_eq!(hash(&s1, 9973, 1000000007), hash(&s2, 9973, 1000000007));
    assert_eq!(s1.len() % 6, 0);
    assert!((6..=63).contains(&(s1.len() / 6)));
}

#[test]
fn draw_size_values() {
    assert_eq!(draw_size(26, 6), (6, 308915776));
    assert_eq!(draw_size(26, 1), (1, 26));
    assert_eq!(draw_size(2, 20), (20, 1 << 20));
    assert_eq!(draw_size(1, 63), (63, 1));
    assert_eq!(draw_size(10, 2), (2, 100));
    let (count, range) = draw_size(2, 1000);
    assert!(count >= 31 && count <= 63);
    assert_eq!(range, 1usize << count);
    let (count, range) = draw_size(usize::MAX, 5);
    assert_eq!((count, range), (1, usize::MAX));
}

#[test]
fn birthday_equal_words_give_nothing() {
    let alphabet = vec!["ab".to_string(), "ab".to_string(), "ab".to_string()];
    assert_eq!(find_single_collision(31, 101, &alphabet), None);
    assert_eq!(find_collision(vec![31, 37], vec![101, 103], alphabet), None);
}

#[test]
fn birthday_tiny_module_stops_the_chain() {
    let alphabet = vec!["a".to_string(), "b".to_string()];
    for module in [1u64, 2, 3] {
        assert_eq!(find_single_collision(31, module, &alphabet), None);
        assert_eq!(find_collision(vec![31], vec![module], alphabet.clone()), None);
        assert_eq!(find_collision(vec![31, 37], vec![101, module], alphabet.clone()), None);
        assert_eq!(find_collision(vec![31, 37], vec![module, 101], alphabet.clone()), None);
    }
}

#[test]
fn append_drawn_takes_the_digits_lowest_first() {
    let alphabet = vec!["a".to_string(), "b".to_string(), "c".to_string()];
    let mut word = "x".to_string();
    append_drawn(&mut word, 5, 3, &alphabet);
    assert_eq!(word, "xcba");
    append_drawn(&mut word, 0, 2, &alphabet);
    assert_eq!(word, "xcbaaa");
    append_drawn(&mut word, 26, 3, &alphabet);
    assert_eq!(word, "xcbaaaccc");
    append_drawn(&mut word, 7, 1, &alphabet);
    assert_eq!(word, "xcbaaacccb");
    append_drawn(&mut word, 7, 0, &alphabet);
    assert_eq!(word, "xcbaaacccb");
}

#[test]
fn append_drawn_takes_whole_words() {
    let alphabet = vec!["xcphdx".to_string(), "fsngso".to_string()];
    let mut word = String::new();
    append_drawn(&mut word, 0b0110, 4, &alphabet);
    assert_eq!(word, "xcphdxfsngsofsngsoxcphdx");
    let single = vec!["ab".to_string()];
    let mut word = String::new();
    append_drawn(&mut word, 0, 3, &single);
    assert_eq!(word, "ababab");
}

#[test]
fn birthday_lifted_answer_has_a_bounded_number_of_words() {
    let alphabet = vec!["ab".to_string(), "cd".to_string(), "ef".to_string()];
    let (s1, s2) = find_collision(vec![31, 37], vec![1009, 10007], alphabet.clone())
        .expect("collision not found");
    assert_eq!(s1.len(), s2.len());
    assert_eq!(s1.len() % 2, 0);
    assert!((36..=3969).contains(&(s1.len() / 2)));
}
