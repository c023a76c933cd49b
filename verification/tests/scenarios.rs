use hexpotter::engine::{MatchedPattern, Scan};
use hexpotter::{Hexpotter, VectorSupport};

type Found = (usize, usize, usize);

fn collect(patterns: &[&str], cpu: VectorSupport, data: &[u8]) -> Vec<Found> {
    let scanner = Hexpotter::new(patterns, cpu).unwrap();
    let mut found: Vec<Found> = Vec::new();
    scanner.scan(data, |m: MatchedPattern| {
        found.push((m.id().usize(), m.start(), m.end()));
        Scan::Continue
    });
    found
}

fn sorted(mut v: Vec<Found>) -> Vec<Found> {
    v.sort();
    v
}

fn engines() -> [VectorSupport; 3] {
    [VectorSupport::Avx2, VectorSupport::Neon, VectorSupport::Portable]
}

#[test]
fn fully_specified_pattern_is_found() {
    let data = [0x00, 0x48, 0x89, 0x5C, 0x24, 0x08, 0xFF];
    for cpu in engines() {
        assert_eq!(collect(&["48 89 5C 24 08"], cpu, &data), vec![(0, 1, 6)]);
    }
}

#[test]
fn wildcard_tail_matches_at_each_anchor() {
    let data = [0xE8, 0x01, 0x02, 0x03, 0x04, 0xE8, 0xAA, 0xBB, 0xCC, 0xDD];
    for cpu in engines() {
        assert_eq!(
            sorted(collect(&["E8 ?? ?? ?? ??"], cpu, &data)),
            vec![(0, 0, 5), (0, 5, 10)]
        );
    }
}

#[test]
fn overlapping_patterns_are_both_found() {
    let data = [0xAA, 0xBB, 0xCC];
    for cpu in engines() {
        assert_eq!(
            sorted(collect(&["AA BB", "BB CC"], cpu, &data)),
            vec![(0, 0, 2), (1, 1, 3)]
        );
    }
}

#[test]
fn high_nibble_pattern_matches_whatever_the_low_nibble() {
    let data = [0x40, 0x00, 0x4F, 0xFF, 0x50, 0x00];
    for cpu in engines() {
        assert_eq!(sorted(collect(&["4? ??"], cpu, &data)), vec![(0, 0, 2), (0, 2, 4)]);
    }
}

#[test]
fn high_nibble_is_masked_next_to_a_full_byte() {
    let data = [0x40, 0x00, 0xC3, 0x4F, 0xFF, 0xC3, 0x50, 0x00, 0xC3];
    for cpu in engines() {
        assert_eq!(
            sorted(collect(&["4? ?? C3"], cpu, &data)),
            vec![(0, 0, 3), (0, 3, 6)]
        );
    }
}

#[test]
fn low_nibble_pattern_matches_whatever_the_high_nibble() {
    let data = [0x0A, 0x1A, 0xFA, 0x00];
    for cpu in engines() {
        assert_eq!(
            sorted(collect(&["?A"], cpu, &data)),
            vec![(0, 0, 1), (0, 1, 2), (0, 2, 3)]
        );
    }
}

#[test]
fn low_nibble_is_masked_next_to_a_full_byte() {
    let data = [0x0A, 0x90, 0x1A, 0x90, 0xFA, 0x90, 0x00, 0x90];
    for cpu in engines() {
        assert_eq!(
            sorted(collect(&["?A 90"], cpu, &data)),
            vec![(0, 0, 2), (0, 2, 4), (0, 4, 6)]
        );
    }
}

#[test]
fn stop_on_first_match_ends_the_scan() {
    let data = [0xDE, 0xAD, 0xBE, 0xEF, 0xDE, 0xAD, 0xBE, 0xEF];
    for cpu in engines() {
        let scanner = Hexpotter::new(&["DE AD BE EF"], cpu).unwrap();
        let mut found: Vec<Found> = Vec::new();
        scanner.scan(&data, |m: MatchedPattern| {
            found.push((m.id().usize(), m.start(), m.end()));
            Scan::Stop
        });
        assert_eq!(found, vec![(0, 0, 4)]);
    }
}

#[test]
fn stop_on_second_match_keeps_the_first_two() {
    let data = [0xDE, 0xAD, 0x00, 0xDE, 0xAD, 0x00, 0xDE, 0xAD];
    for cpu in engines() {
        let scanner = Hexpotter::new(&["DE AD"], cpu).unwrap();
        let mut found: Vec<Found> = Vec::new();
        scanner.scan(&data, |m: MatchedPattern| {
            found.push((m.id().usize(), m.start(), m.end()));
            if found.len() == 2 {
                Scan::Stop
            } else {
                Scan::Continue
            }
        });
        assert_eq!(found, vec![(0, 0, 2), (0, 3, 5)]);
    }
}

#[test]
fn empty_buffer_has_no_matches() {
    for cpu in engines() {
        assert_eq!(collect(&["AA", "?? BB", "??"], cpu, &[]), vec![]);
    }
}

#[test]
fn pattern_longer_than_buffer_has_no_matches() {
    let data = [0xAA, 0xBB];
    for cpu in engines() {
        assert_eq!(collect(&["AA BB CC"], cpu, &data), vec![]);
        assert_eq!(collect(&["AA BB ??"], cpu, &data), vec![]);
    }
}

#[test]
fn pattern_equal_to_buffer_matches_once_at_start() {
    let data = [0x10, 0x20, 0x30, 0x40];
    for cpu in engines() {
        assert_eq!(collect(&["10 20 30 40"], cpu, &data), vec![(0, 0, 4)]);
    }
}

#[test]
fn wildcards_only_match_at_every_position() {
    let data = [0x01, 0x02, 0x03, 0x04, 0x05];
    for cpu in engines() {
        assert_eq!(
            sorted(collect(&["?? ?? ??"], cpu, &data)),
            vec![(0, 0, 3), (0, 1, 4), (0, 2, 5)]
        );
        assert_eq!(
            sorted(collect(&["??"], cpu, &[0x00, 0xFF])),
            vec![(0, 0, 1), (0, 1, 2)]
        );
        assert_eq!(collect(&["?? ?? ??"], cpu, &[0x01, 0x02]), vec![]);
    }
}

#[test]
fn wildcards_only_match_at_every_position_of_a_long_buffer() {
    let data: Vec<u8> = (0..100u8).collect();
    let expected: Vec<Found> = (0..98).map(|s| (0, s, s + 3)).collect();
    for cpu in engines() {
        assert_eq!(sorted(collect(&["?? ?? ??"], cpu, &data)), expected);
    }
}

#[test]
fn patterns_with_and_without_a_full_byte_are_found_together() {
    let data = [0x4A, 0x90, 0x1A, 0x40, 0x90];
    for cpu in engines() {
        assert_eq!(
            sorted(collect(&["?A", "90", "4? ??", "?? 90"], cpu, &data)),
            vec![
                (0, 0, 1),
                (0, 2, 3),
                (1, 1, 2),
                (1, 4, 5),
                (2, 0, 2),
                (2, 3, 5),
                (3, 0, 2),
                (3, 3, 5),
            ]
        );
    }
}

#[test]
fn anchor_at_an_offset_places_the_match_before_it() {
    // The anchor `BE EF` lies at offset 2 of the pattern.
    let data = [0x00, 0x11, 0x22, 0xBE, 0xEF, 0x33, 0xBE, 0xEF];
    for cpu in engines() {
        assert_eq!(
            sorted(collect(&["?? ?? BE EF"], cpu, &data)),
            vec![(0, 1, 5), (0, 4, 8)]
        );
        // An anchor too close to the start leaves no room for the pattern.
        assert_eq!(collect(&["?? ?? BE EF"], cpu, &[0x00, 0xBE, 0xEF]), vec![]);
    }
}

#[test]
fn same_position_yields_a_match_for_each_pattern() {
    let data = [0xAA, 0xBB, 0xCC];
    for cpu in engines() {
        assert_eq!(
            sorted(collect(&["AA BB", "AA ??", "AA BB CC", "AA BB"], cpu, &data)),
            vec![(0, 0, 2), (1, 0, 2), (2, 0, 3), (3, 0, 2)]
        );
    }
}

#[test]
fn no_patterns_means_no_matches() {
    for cpu in engines() {
        assert_eq!(collect(&[], cpu, &[0x00, 0x01, 0x02]), vec![]);
    }
}
