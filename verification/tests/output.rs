use antihash::lift::split_coefficients;
use antihash::output::{characters, render, reverse, to_ascii_uppercase, transform, uppercase};
use antihash::validate::WordValidator;
use antihash::words::{has_equal_width, letters};
use antihash::{birthday_attack, tree_attack};

#[test]
fn characters_in_order() {
    assert_eq!(characters(&"aé1".to_string()), vec!['a', 'é', '1']);
    assert_eq!(characters(&"".to_string()), Vec::<char>::new());
}

#[test]
fn reverse_values() {
    assert_eq!(reverse(&"abc".to_string()), "cba");
    assert_eq!(reverse(&"".to_string()), "");
    assert_eq!(reverse(&"aé1".to_string()), "1éa");
}

#[test]
fn reverse_twice_gives_the_string_back() {
    for s in ["", "a", "abbabaab", "xcphdxfsngso"] {
        assert_eq!(reverse(&reverse(&s.to_string())), s);
    }
}

#[test]
fn uppercase_values() {
    assert_eq!(to_ascii_uppercase('a'), 'A');
    assert_eq!(to_ascii_uppercase('z'), 'Z');
    assert_eq!(to_ascii_uppercase('A'), 'A');
    assert_eq!(to_ascii_uppercase('`'), '`');
    assert_eq!(to_ascii_uppercase('{'), '{');
    assert_eq!(to_ascii_uppercase('é'), 'é');
    assert_eq!(uppercase(&"abcXyz09é".to_string()), "ABCXYZ09é");
}

#[test]
fn uppercase_twice_is_uppercase_once() {
    for s in ["", "a", "abbaBAab", "xcphdx fsngso"] {
        let once = uppercase(&s.to_string());
        assert_eq!(uppercase(&once), once);
    }
}

#[test]
fn transform_reverses_before_it_uppercases() {
    assert_eq!(transform("abc".to_string(), false, false), "abc");
    assert_eq!(transform("abc".to_string(), true, false), "cba");
    assert_eq!(transform("abc".to_string(), false, true), "ABC");
    assert_eq!(transform("abc".to_string(), true, true), "CBA");
}

#[test]
fn render_values() {
    let pair = Some(("ab".to_string(), "cd".to_string()));
    assert_eq!(render(pair.clone(), false, false), "ab\ncd");
    assert_eq!(render(pair.clone(), true, false), "ba\ndc");
    assert_eq!(render(pair.clone(), true, true), "BA\nDC");
    assert_eq!(render(None, false, false), "Collision not found");
    assert_eq!(render(None, true, true), "Collision not found");
}

#[test]
fn validator_accepts_words_of_one_length() {
    let mut validator = WordValidator::new();
    assert_eq!(validator.len, None);
    assert_eq!(validator.validate(&"xcphdx".to_string()), Ok(()));
    assert_eq!(validator.len, Some(6));
    assert_eq!(validator.validate(&"fsngso".to_string()), Ok(()));
    assert_eq!(validator.len, Some(6));
}

#[test]
fn validator_rejects_another_length() {
    let mut validator = WordValidator::new();
    assert_eq!(validator.validate(&"ab".to_string()), Ok(()));
    assert_eq!(
        validator.validate(&"abc".to_string()),
        Err("words of the alphabet must have the same length".to_string())
    );
    assert_eq!(validator.len, Some(2));
    assert_eq!(validator.validate(&"cd".to_string()), Ok(()));
}

#[test]
fn validator_counts_bytes() {
    let mut validator = WordValidator::new();
    assert_eq!(validator.validate(&"é".to_string()), Ok(()));
    assert_eq!(validator.len, Some(2));
    assert_eq!(validator.validate(&"ab".to_string()), Ok(()));
    assert!(validator.validate(&"a".to_string()).is_err());
}

#[test]
fn coefficients_come_in_turns() {
    let (bases, modules) = split_coefficients(&vec![9973, 1000000007, 31, 998244353]);
    assert_eq!(bases, vec![9973, 31]);
    assert_eq!(modules, vec![1000000007, 998244353]);
    let (bases, modules) = split_coefficients(&vec![7, 11, 13]);
    assert_eq!(bases, vec![7, 13]);
    assert_eq!(modules, vec![11]);
    let (bases, modules) = split_coefficients(&vec![]);
    assert!(bases.is_empty() && modules.is_empty());
}

#[test]
fn letters_are_the_lower_case_alphabet() {
    let alphabet = letters();
    let expected: Vec<String> = "abcdefghijklmnopqrstuvwxyz".chars().map(|c| c.to_string()).collect();
    assert_eq!(alphabet, expected);
}

#[test]
fn equal_width_counts_characters() {
    assert!(has_equal_width(&vec![]));
    assert!(has_equal_width(&vec!["ab".to_string()]));
    assert!(has_equal_width(&vec!["ab".to_string(), "cd".to_string()]));
    assert!(!has_equal_width(&vec!["ab".to_string(), "c".to_string()]));
    assert!(has_equal_width(&vec!["é".to_string(), "e".to_string()]));
    assert!(!has_equal_width(&vec!["a".to_string(), "b".to_string(), "cc".to_string()]));
}

#[test]
fn birthday_accepts_what_it_can_hash() {
    let ab = vec!["a".to_string(), "b".to_string()];
    assert!(birthday_attack::accepts(&vec![9973], &vec![1000000007], &ab));
    assert!(birthday_attack::accepts(&vec![0], &vec![1], &vec!["a".to_string()]));
    assert!(birthday_attack::accepts(&vec![0xffff_ffff], &vec![0xffff_ffff], &ab));
    assert!(!birthday_attack::accepts(&vec![], &vec![], &ab));
    assert!(!birthday_attack::accepts(&vec![3], &vec![0], &ab));
    assert!(!birthday_attack::accepts(&vec![3], &vec![5, 7], &ab));
    assert!(!birthday_attack::accepts(&vec![0x1_0000_0000], &vec![5], &ab));
    assert!(!birthday_attack::accepts(&vec![3], &vec![0x1_0000_0000], &ab));
    assert!(!birthday_attack::accepts(&vec![3], &vec![5], &vec![]));
    assert!(!birthday_attack::accepts(&vec![3], &vec![5], &vec!["a".to_string(), "bc".to_string()]));
}

#[test]
fn tree_accepts_what_it_can_search() {
    let ab = vec!["a".to_string(), "b".to_string()];
    assert!(tree_attack::accepts(&vec![9973], &vec![1000000007], 100000, &ab));
    assert!(tree_attack::accepts(&vec![u64::MAX], &vec![u64::MAX], 1, &ab));
    let most = isize::MAX as usize / 192;
    assert!(tree_attack::accepts(&vec![3], &vec![5], most, &ab));
    assert!(!tree_attack::accepts(&vec![3], &vec![5], most + 1, &ab));
    assert!(!tree_attack::accepts(&vec![3], &vec![5], 0, &ab));
    assert!(!tree_attack::accepts(&vec![], &vec![], 10, &ab));
    assert!(!tree_attack::accepts(&vec![3], &vec![0], 10, &ab));
    assert!(!tree_attack::accepts(&vec![3, 4], &vec![5], 10, &ab));
    assert!(!tree_attack::accepts(&vec![3], &vec![5], 10, &vec!["a".to_string()]));
    assert!(!tree_attack::accepts(&vec![3], &vec![5], 10, &vec!["a".to_string(), "bc".to_string()]));
}
