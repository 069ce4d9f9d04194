use sigpatch::search::{skip_table, step_cap};
use sigpatch::{find, matches_at, parse_sig, sig_find, PatchError};

fn brute_force(pat: &[Option<u8>], data: &[u8]) -> Option<usize> {
    if pat.is_empty() || pat.len() > data.len() {
        return None;
    }
    (0..=data.len() - pat.len()).find(|&off| {
        pat.iter()
            .enumerate()
            .all(|(j, tok)| tok.map_or(true, |b| data[off + j] == b))
    })
}

struct Lcg(u64);

impl Lcg {
    fn next(&mut self, bound: u64) -> u64 {
        self.0 = self
            .0
            .wrapping_mul(6364136223846793005)
            .wrapping_add(1442695040888963407);
        (self.0 >> 33) % bound
    }
}

#[test]
fn empty_pattern_is_invalid() {
    assert_eq!(find(&[], &[1, 2, 3]), Err(PatchError::InvalidPattern));
    assert_eq!(find(&[], &[]), Err(PatchError::InvalidPattern));
    assert_eq!(sig_find("", &[1u8, 2, 3]), Err(PatchError::InvalidPattern));
}

#[test]
fn pattern_longer_than_buffer_is_invalid() {
    assert_eq!(find(&[Some(1), Some(2)], &[1]), Err(PatchError::InvalidPattern));
    assert_eq!(find(&[None], &[]), Err(PatchError::InvalidPattern));
    assert_eq!(sig_find("01 02 03", &[1u8, 2]), Err(PatchError::InvalidPattern));
}

#[test]
fn pattern_as_long_as_buffer() {
    assert_eq!(find(&[Some(1), Some(2)], &[1, 2]), Ok(0));
    assert_eq!(find(&[Some(1), Some(2)], &[2, 1]), Err(PatchError::NotFound));
}

#[test]
fn match_at_the_end_of_the_buffer() {
    let data = [9u8, 9, 9, 9, 9, 0x75, 0x09];
    assert_eq!(find(&[Some(0x75), Some(0x09)], &data), Ok(5));
}

#[test]
fn first_of_several_matches() {
    let data = [0u8, 1, 2, 3, 1, 2, 3, 1, 2, 3];
    assert_eq!(find(&[Some(1), Some(2), Some(3)], &data), Ok(1));
    assert_eq!(find(&[Some(3)], &data), Ok(3));
    assert_eq!(find(&[Some(2), None], &data), Ok(2));
}

#[test]
fn single_wildcard_matches_the_first_byte() {
    assert_eq!(find(&[None], &[7, 8, 9]), Ok(0));
}

#[test]
fn skip_table_entries() {
    let pat = parse_sig("41 42 ?? 41 43 44").unwrap();
    let skip = skip_table(&pat);
    assert_eq!(skip.len(), 256);
    for b in 0..256usize {
        let expected = match b {
            0x41 => 2,
            0x42 => 4,
            0x43 => 1,
            _ => 6,
        };
        assert_eq!(skip[b], expected, "byte {:02X}", b);
    }
}

#[test]
fn skip_table_of_short_patterns() {
    assert_eq!(skip_table(&[]), vec![0usize; 256]);
    assert_eq!(skip_table(&[Some(5)]), vec![1usize; 256]);
    assert_eq!(skip_table(&[None]), vec![1usize; 256]);
}

#[test]
fn rightmost_fixed_occurrence_sets_the_skip() {
    let skip = skip_table(&[Some(7), Some(7), Some(7), Some(1)]);
    assert_eq!(skip[7], 1);
    assert_eq!(skip[1], 4);
}

#[test]
fn fixed_patterns_agree_with_brute_force() {
    let mut rng = Lcg(0x5EED);
    for round in 0..4000 {
        let alphabet = 1 + rng.next(4);
        let n = rng.next(40) as usize;
        let m = 1 + rng.next(6) as usize;
        let data: Vec<u8> = (0..n).map(|_| rng.next(alphabet) as u8).collect();
        let pat: Vec<Option<u8>> = (0..m).map(|_| Some(rng.next(alphabet) as u8)).collect();
        let expected = if m > n {
            Err(PatchError::InvalidPattern)
        } else {
            brute_force(&pat, &data).ok_or(PatchError::NotFound)
        };
        assert_eq!(find(&pat, &data), expected, "round {}: {:?} in {:?}", round, pat, data);
    }
}

#[test]
fn patterns_with_a_wildcard_at_the_end_agree_with_brute_force() {
    let mut rng = Lcg(0xFACADE);
    for round in 0..4000 {
        let alphabet = 1 + rng.next(3);
        let n = rng.next(30) as usize;
        let m = 1 + rng.next(5) as usize;
        let data: Vec<u8> = (0..n).map(|_| rng.next(alphabet) as u8).collect();
        let mut pat: Vec<Option<u8>> = (0..m).map(|_| Some(rng.next(alphabet) as u8)).collect();
        pat[m - 1] = None;
        let expected = if m > n {
            Err(PatchError::InvalidPattern)
        } else {
            brute_force(&pat, &data).ok_or(PatchError::NotFound)
        };
        assert_eq!(find(&pat, &data), expected, "round {}: {:?} in {:?}", round, pat, data);
    }
}

#[test]
fn offset_found_is_the_least_match_and_not_found_means_none() {
    let mut rng = Lcg(42);
    for _ in 0..4000 {
        let n = rng.next(30) as usize;
        let m = 1 + rng.next(5) as usize;
        let data: Vec<u8> = (0..n).map(|_| rng.next(3) as u8).collect();
        let pat: Vec<Option<u8>> = (0..m)
            .map(|_| if rng.next(3) == 0 { None } else { Some(rng.next(3) as u8) })
            .collect();
        match find(&pat, &data) {
            Ok(off) => {
                assert!(off + m <= n);
                assert!(matches_at(&pat, &data, off));
                assert!((0..off).all(|k| !matches_at(&pat, &data, k)));
            }
            Err(PatchError::InvalidPattern) => assert!(m > n),
            Err(e) => {
                assert_eq!(e, PatchError::NotFound);
                assert!((0..=n).all(|k| !matches_at(&pat, &data, k)));
            }
        }
    }
}

#[test]
fn patterns_with_wildcards_anywhere_agree_with_brute_force() {
    let mut rng = Lcg(0xC0FFEE);
    for round in 0..20000 {
        let alphabet = 1 + rng.next(3);
        let n = rng.next(24) as usize;
        let m = 1 + rng.next(6) as usize;
        let data: Vec<u8> = (0..n).map(|_| rng.next(alphabet) as u8).collect();
        let pat: Vec<Option<u8>> = (0..m)
            .map(|_| if rng.next(3) == 0 { None } else { Some(rng.next(alphabet) as u8) })
            .collect();
        let expected = if m > n {
            Err(PatchError::InvalidPattern)
        } else {
            brute_force(&pat, &data).ok_or(PatchError::NotFound)
        };
        assert_eq!(find(&pat, &data), expected, "round {}: {:?} in {:?}", round, pat, data);
    }
}

#[test]
fn every_short_pattern_on_every_short_buffer() {
    // Tokens are a wildcard or one of two bytes; buffers hold those two bytes.
    for m in 1..=4usize {
        for pat_code in 0..3usize.pow(m as u32) {
            let pat: Vec<Option<u8>> = (0..m)
                .map(|j| match (pat_code / 3usize.pow(j as u32)) % 3 {
                    0 => None,
                    t => Some(t as u8),
                })
                .collect();
            for n in m..=7usize {
                for data_code in 0..(1usize << n) {
                    let data: Vec<u8> = (0..n).map(|k| 1 + ((data_code >> k) & 1) as u8).collect();
                    let expected = brute_force(&pat, &data).ok_or(PatchError::NotFound);
                    assert_eq!(find(&pat, &data), expected, "{:?} in {:?}", pat, data);
                }
            }
        }
    }
}

#[test]
fn match_behind_a_byte_the_table_does_not_list() {
    // The window at 0 fails on its last byte, 0x99, which no fixed token
    // before the last holds; the wildcard keeps the step at 1.
    let pat = parse_sig("41 ?? 43").unwrap();
    assert_eq!(find(&pat, &[0x00, 0x41, 0x99, 0x43]), Ok(1));
    assert_eq!(find(&parse_sig("?? 41").unwrap(), &[0x00, 0x00, 0x41]), Ok(1));
    assert_eq!(find(&parse_sig("?? 41").unwrap(), &[0x00, 0x00, 0x41, 0x41]), Ok(1));
}

#[test]
fn byte_under_a_wildcard_does_not_lose_the_match() {
    let pat = parse_sig("41 ?? 42 43").unwrap();
    assert_eq!(find(&pat, &[0, 0, 0x41, 0x42, 0x42, 0x43]), Ok(2));
    assert_eq!(find(&pat, &[0, 0, 0x41, 0x00, 0x42, 0x43]), Ok(2));
    let mut data = [0u8, 0, 0x41, 0, 0x42, 0x43];
    for v in 0..=255u8 {
        data[3] = v;
        assert_eq!(find(&pat, &data), Ok(2));
    }
}

#[test]
fn byte_under_a_wildcard_may_bring_an_earlier_match() {
    let pat = parse_sig("?? 41 ??").unwrap();
    assert_eq!(find(&pat, &[0x00, 0x00, 0x41, 0x00]), Ok(1));
    assert_eq!(find(&pat, &[0x00, 0x41, 0x41, 0x00]), Ok(0));
}

#[test]
fn least_of_two_matches() {
    let pat = parse_sig("41 ?? 43").unwrap();
    let data = [0x00u8, 0x41, 0x41, 0x43, 0x41, 0x55, 0x43];
    assert!(matches_at(&pat, &data, 1));
    assert!(matches_at(&pat, &data, 4));
    assert_eq!(find(&pat, &data), Ok(1));
}

#[test]
fn step_cap_values() {
    assert_eq!(step_cap(&[]), 0);
    assert_eq!(step_cap(&[None]), 1);
    assert_eq!(step_cap(&parse_sig("41 42 43").unwrap()), 3);
    assert_eq!(step_cap(&parse_sig("41 42 ??").unwrap()), 3);
    assert_eq!(step_cap(&parse_sig("?? 42 43").unwrap()), 2);
    assert_eq!(step_cap(&parse_sig("?? 42 ?? 41 43").unwrap()), 2);
    assert_eq!(step_cap(&parse_sig("41 42 ?? 43").unwrap()), 1);
}

#[test]
fn wildcard_accepts_every_byte_value() {
    let pat = parse_sig("41 ?? 43 *").unwrap();
    let mut data = vec![0x10u8, 0x41, 0x00, 0x43, 0x00, 0x10];
    for v in 0..=255u8 {
        data[2] = v;
        data[4] = v.wrapping_mul(31);
        assert!(matches_at(&pat, &data, 1));
        assert!(!matches_at(&pat, &data, 0));
    }
    data[3] = 0x44;
    for v in 0..=255u8 {
        data[2] = v;
        assert!(!matches_at(&pat, &data, 1));
    }
}

#[test]
fn window_outside_the_buffer_does_not_match() {
    let pat = [Some(1u8), None];
    let data = [1u8, 1, 1];
    assert!(matches_at(&pat, &data, 0));
    assert!(matches_at(&pat, &data, 1));
    assert!(!matches_at(&pat, &data, 2));
    assert!(!matches_at(&pat, &data, 3));
    assert!(!matches_at(&pat, &data, usize::MAX));
    assert!(matches_at(&[], &data, 3));
    assert!(!matches_at(&[], &data, 4));
}

#[test]
fn sig_find_parses_then_searches() {
    let data = [0x55u8, 0x8B, 0xEC, 0x75, 0x09, 0x8B, 0xFB];
    assert_eq!(sig_find("75 09 8b fb", &data), Ok(3));
    assert_eq!(sig_find("8B EC ??", &data), Ok(1));
    assert_eq!(sig_find("8B ?? 75", &data), Ok(1));
    assert_eq!(sig_find("?? 09 8B", &data), Ok(3));
    assert_eq!(sig_find("75 0A", &data), Err(PatchError::NotFound));
    assert_eq!(sig_find("75 0", &data), Err(PatchError::ParseError));
    assert_eq!(sig_find("xx", &[]), Err(PatchError::ParseError));
}
