use smooshedmorse::frame::SegmentChars;
use smooshedmorse::morse::{alphabet_chars, chars_to_smooshedmerse, smooshedmorse_to_merse};
use smooshedmorse::permutations::{
    check_for_match, find_permutations_from, get_taken, random_alphabet, run, smalpha_right_len,
    validate_smalpha,
};
use smooshedmorse::ValidationError;

const CANONICAL_SMALPHA: &str =
    ".--...-.-.-.....-.--........----.-.-..---.---.--.--.-.-....-..-...-.---..--.----..";

fn committed_frame(pool: &[char]) -> SegmentChars {
    let mut segch = SegmentChars::init(pool, 3);
    segch.take = pool.to_vec();
    segch.merse_take = chars_to_smooshedmerse(&segch.take).unwrap();
    segch.left = segch.get_left(&segch.source, &segch.take);
    segch
}

#[test]
fn test_check_for_match() {
    let mut segchs: Vec<SegmentChars> = Vec::new();

    let s0 = vec!['a', 'b', 'c'];
    let s1 = vec!['d', 'e', 'f'];
    let s2 = vec!['x', 'y', 'z'];

    let m0 = chars_to_smooshedmerse(&s0).unwrap();
    let m1 = chars_to_smooshedmerse(&s1).unwrap();
    let m2 = chars_to_smooshedmerse(&s2).unwrap();
    let mut chain_m01 = Vec::new(); // same length
    chain_m01.extend_from_slice(&m0); // longer
    chain_m01.extend_from_slice(&m1);
    let mut chain_m012 = Vec::new();
    chain_m012.extend_from_slice(&m0);
    chain_m012.extend_from_slice(&m1);
    chain_m012.extend_from_slice(&m2);

    segchs.push(committed_frame(&s0));
    segchs.push(committed_frame(&s1));

    println!("segch: {:?}", &segchs);

    assert!(!check_for_match(&[], &segchs));
    assert!(!check_for_match(&[true, false], &segchs));
    assert!(check_for_match(&chain_m01, &segchs));
    assert!(check_for_match(&chain_m012, &segchs));
}

#[test]
fn test_chars_to_smooshedmerse() {
    assert_eq!(chars_to_smooshedmerse(&['a']).unwrap(), vec![false, true]);
    assert_eq!(
        chars_to_smooshedmerse(&['a', 'b', 'c']).unwrap(),
        vec![false, true, true, false, false, false, true, false, true, false]
    );
}

#[test]
fn test_validate_smalpha() {
    assert!(validate_smalpha(CANONICAL_SMALPHA).is_ok());
    assert!(validate_smalpha("").is_err());
    assert!(validate_smalpha(" ").is_err());
    assert!(validate_smalpha("-!.-").is_err());
    assert!(validate_smalpha("-abc-").is_err());
    assert!(validate_smalpha("-..-").is_err());
}

#[test]
fn test_smalpha_right_len() {
    assert_eq!(smalpha_right_len(), CANONICAL_SMALPHA.len());
}

#[test]
fn test_random_alphabet() {
    assert_eq!(random_alphabet().len(), 26);

    let mut r = random_alphabet();
    r.sort_unstable();
    assert_eq!(r, alphabet_chars());
}

#[test]
fn validation_error_kinds() {
    assert_eq!(validate_smalpha(".-"), Err(ValidationError::WrongLength));
    assert_eq!(
        validate_smalpha("-abc-"),
        Err(ValidationError::InvalidCharacter)
    );
    // an invalid character wins over a wrong length
    let mostly_dots = format!("{}!", ".".repeat(81));
    assert_eq!(
        validate_smalpha(mostly_dots.as_str()),
        Err(ValidationError::InvalidCharacter)
    );
}

#[test]
fn wrong_length_never_reaches_the_engine() {
    assert_eq!(run(Some(".-")), Err(ValidationError::WrongLength));
    assert_eq!(run(Some("")), Err(ValidationError::WrongLength));
}

#[test]
fn smalpha_right_len_is_eighty_two() {
    assert_eq!(smalpha_right_len(), 82);
}

#[test]
fn search_canonical_alphabet_round_trip() {
    let res = run(Some(CANONICAL_SMALPHA)).unwrap();
    assert_eq!(res.len(), 1);
    let found = &res[0];
    assert!(!found.is_empty());
    let chars: Vec<char> = found.chars().collect();
    assert_eq!(
        chars_to_smooshedmerse(&chars).unwrap(),
        smooshedmorse_to_merse(CANONICAL_SMALPHA).unwrap()
    );
    let mut sorted = chars;
    sorted.sort_unstable();
    assert_eq!(sorted, alphabet_chars());
}

#[test]
fn search_reversed_alphabet_round_trip() {
    // recover the reversed alphabet from its encoding; the fixed root
    // ordering makes the search order (not the result) deterministic
    let mut perm = alphabet_chars();
    perm.reverse();
    let bits = chars_to_smooshedmerse(&perm).unwrap();
    let root = alphabet_chars();
    let res = find_permutations_from(&root, &bits, 4);
    assert_eq!(res.len(), 1);
    let found = &res[0];
    assert!(!found.is_empty());
    assert_eq!(chars_to_smooshedmerse(found).unwrap(), bits);
    let mut sorted = found.clone();
    sorted.sort_unstable();
    assert_eq!(sorted, alphabet_chars());
}

#[test]
fn search_failure_is_empty_placeholder() {
    // no permutation encodes 82 dashes: only 't', 'm' and 'o' are all-dash
    let smalpha: String = "-".repeat(82);
    let res = run(Some(smalpha.as_str())).unwrap();
    assert_eq!(res, vec![String::new()]);
}

#[test]
fn chunk_size_clamps_to_pool() {
    let pool = vec!['a', 'b'];
    let frame = SegmentChars::init(&pool, 4);
    assert_eq!(frame.perm_size, 2);
    assert_eq!(frame.permutations.len(), 2);
}

#[test]
fn worklist_pops_each_permutation_once() {
    let pool = vec!['e', 't'];
    let mut frame = SegmentChars::init(&pool, 1);
    let mut seen = Vec::new();
    loop {
        frame.new_perm().unwrap();
        if frame.take.is_empty() {
            break;
        }
        assert_eq!(frame.take.len(), 1);
        seen.push(frame.take[0]);
    }
    seen.sort_unstable();
    assert_eq!(seen, vec!['e', 't']);
    // on exhaustion the leftover pool is the whole pool again
    assert_eq!(frame.left, pool);
}

#[test]
fn get_taken_concatenates_committed_letters() {
    let mut segchs: Vec<SegmentChars> = Vec::new();
    segchs.push(committed_frame(&['a', 'b', 'c']));
    segchs.push(committed_frame(&['d', 'e', 'f']));
    assert_eq!(get_taken(&segchs), "abcdef");
}

#[test]
fn find_permutations_returns_a_single_entry() {
    let bits = smooshedmorse_to_merse(CANONICAL_SMALPHA).unwrap();
    let mut root = alphabet_chars();
    root.reverse();
    let perms = find_permutations_from(&root, &bits, 4);
    assert_eq!(perms.len(), 1);
    assert_eq!(perms[0].len(), 26);
}
