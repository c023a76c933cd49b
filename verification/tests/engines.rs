use hexpotter::engine::anchor::Anchor;
use hexpotter::engine::common::parse_hex_pattern;
use hexpotter::engine::teddy::{lane_mask, Teddy, VectorWidth};
use hexpotter::engine::{EngineError, MatchedPattern, Scan};
use hexpotter::{Engine, Hexpotter, VectorSupport};

type Found = (usize, usize, usize);

fn scan_all(scanner: &Hexpotter, data: &[u8]) -> Vec<Found> {
    let mut found: Vec<Found> = Vec::new();
    scanner.scan(data, |m: MatchedPattern| {
        found.push((m.id().usize(), m.start(), m.end()));
        Scan::Continue
    });
    found
}

fn collect(patterns: &[&str], cpu: VectorSupport, data: &[u8]) -> Vec<Found> {
    scan_all(&Hexpotter::new(patterns, cpu).unwrap(), data)
}

fn sorted(mut v: Vec<Found>) -> Vec<Found> {
    v.sort();
    v
}

/// Every place where a pattern lies, found by trying each position.
fn by_brute_force(patterns: &[&str], data: &[u8]) -> Vec<Found> {
    let mut found: Vec<Found> = Vec::new();
    for (id, pattern) in patterns.iter().enumerate() {
        let (values, masks) = parse_hex_pattern(pattern).unwrap();
        if values.len() > data.len() {
            continue;
        }
        for start in 0..=data.len() - values.len() {
            let lies = (0..values.len()).all(|k| data[start + k] & masks[k] == values[k]);
            if lies {
                found.push((id, start, start + values.len()));
            }
        }
    }
    found.sort();
    found
}

/// Bytes drawn from a small alphabet, so that patterns occur often.
fn noise(len: usize, seed: u32) -> Vec<u8> {
    let mut state = seed;
    let mut data = Vec::with_capacity(len);
    for _ in 0..len {
        state = state.wrapping_mul(1664525).wrapping_add(1013904223);
        data.push([0x00, 0x11, 0x4A, 0x4F, 0xAA, 0xBB][(state >> 24) as usize % 6]);
    }
    data
}

fn engines() -> [VectorSupport; 3] {
    [VectorSupport::Avx2, VectorSupport::Neon, VectorSupport::Portable]
}

const MIXED: [&str; 9] = [
    "AA BB",
    "11 ?? AA",
    "4? 00",
    "?? ?? BB AA",
    "AA",
    "AA BB 11 00",
    "?A ?F",
    "BB AA ?? ?? 11",
    "AA BB",
];

#[test]
fn engines_agree_with_brute_force_on_long_buffers() {
    for len in [0, 1, 17, 18, 19, 33, 34, 35, 50, 64, 65, 66, 67, 97, 98, 200, 513] {
        let data = noise(len, 7 + len as u32);
        let expected = by_brute_force(&MIXED, &data);
        for cpu in engines() {
            assert_eq!(sorted(collect(&MIXED, cpu, &data)), expected, "len {} {:?}", len, cpu);
        }
    }
}

#[test]
fn engines_report_the_same_multiset() {
    let data = noise(300, 99);
    let wide = sorted(collect(&MIXED, VectorSupport::Avx2, &data));
    let narrow = sorted(collect(&MIXED, VectorSupport::Neon, &data));
    let automaton = sorted(collect(&MIXED, VectorSupport::Portable, &data));
    assert!(!automaton.is_empty());
    assert_eq!(wide, automaton);
    assert_eq!(narrow, automaton);
}

#[test]
fn scanning_twice_gives_the_same_records() {
    let data = noise(150, 3);
    for cpu in engines() {
        let scanner = Hexpotter::new(&MIXED, cpu).unwrap();
        let first = scan_all(&scanner, &data);
        let second = scan_all(&scanner, &data);
        assert!(!first.is_empty());
        assert_eq!(first, second);
    }
}

#[test]
fn every_record_is_an_occurrence() {
    let data = noise(120, 41);
    for cpu in engines() {
        for (id, start, end) in collect(&MIXED, cpu, &data) {
            let (values, masks) = parse_hex_pattern(MIXED[id]).unwrap();
            assert_eq!(end - start, values.len());
            assert!(end <= data.len());
            for k in 0..values.len() {
                assert_eq!(data[start + k] & masks[k], values[k]);
            }
        }
    }
}

#[test]
fn last_bytes_of_a_long_buffer_take_part() {
    // With 32 lanes and 70 bytes the strided phase ends before position 64.
    for cpu in engines() {
        for at in 30..=68 {
            let mut data = vec![0u8; 70];
            data[at] = 0xC0;
            data[at + 1] = 0xDE;
            assert_eq!(collect(&["C0 DE"], cpu, &data), vec![(0, at, at + 2)], "at {}", at);
        }
        let mut data = vec![0u8; 70];
        data[69] = 0xC0;
        assert_eq!(collect(&["C0"], cpu, &data), vec![(0, 69, 70)]);
        assert_eq!(collect(&["C0 DE"], cpu, &data), vec![]);
    }
}

#[test]
fn fingerprint_engine_goes_bucket_by_bucket_then_position_by_position() {
    // 70 bytes and 32 lanes: positions 0..64 belong to the strided phase,
    // 64..70 to the walk. Buckets are `AA` (patterns 0 and 2) and `BB`.
    let mut data = vec![0u8; 70];
    for at in [3, 40, 66] {
        data[at] = 0xAA;
    }
    for at in [1, 35, 64, 69] {
        data[at] = 0xBB;
    }
    assert_eq!(
        collect(&["AA", "BB", "AA ??"], VectorSupport::Avx2, &data),
        vec![
            (0, 3, 4),
            (2, 3, 5),
            (0, 40, 41),
            (2, 40, 42),
            (1, 1, 2),
            (1, 35, 36),
            (1, 64, 65),
            (0, 66, 67),
            (2, 66, 68),
            (1, 69, 70),
        ]
    );
    // 16 lanes: the strided phase ends before position 64 as well (52 is the
    // last position that leaves 18 bytes; it is floored to 48).
    assert_eq!(
        collect(&["AA", "BB", "AA ??"], VectorSupport::Neon, &data),
        vec![
            (0, 3, 4),
            (2, 3, 5),
            (0, 40, 41),
            (2, 40, 42),
            (1, 1, 2),
            (1, 35, 36),
            (1, 64, 65),
            (0, 66, 67),
            (2, 66, 68),
            (1, 69, 70),
        ]
    );
}

#[test]
fn strided_phase_ends_at_the_floored_limit() {
    // 50 bytes, 32 lanes: one step; positions 32..50 belong to the walk, so
    // the record at 33 of the first bucket comes after that at 2 of the second.
    let mut data = vec![0u8; 50];
    data[33] = 0xAA;
    data[2] = 0xBB;
    assert_eq!(
        collect(&["AA", "BB"], VectorSupport::Avx2, &data),
        vec![(1, 2, 3), (0, 33, 34)]
    );
    // 16 lanes: three steps cover 0..48, so both records of the first bucket
    // come before that of the second.
    assert_eq!(
        collect(&["AA", "BB"], VectorSupport::Neon, &data),
        vec![(0, 33, 34), (1, 2, 3)]
    );
    data[20] = 0xAA;
    assert_eq!(
        collect(&["AA", "BB"], VectorSupport::Avx2, &data),
        vec![(0, 20, 21), (1, 2, 3), (0, 33, 34)]
    );
    assert_eq!(
        collect(&["AA", "BB"], VectorSupport::Neon, &data),
        vec![(0, 20, 21), (0, 33, 34), (1, 2, 3)]
    );
}

#[test]
fn short_buffers_go_to_the_automaton() {
    // The automaton yields hits by the position where they end.
    let data = [0xAA, 0xBB, 0xCC, 0xBB];
    let expected = vec![(1, 1, 2), (0, 0, 3), (1, 3, 4)];
    assert_eq!(collect(&["AA BB CC", "BB"], VectorSupport::Portable, &data), expected);
    assert_eq!(collect(&["AA BB CC", "BB"], VectorSupport::Avx2, &data), expected);
    assert_eq!(collect(&["AA BB CC", "BB"], VectorSupport::Neon, &data), expected);
}

#[test]
fn automaton_finds_literals_inside_literals() {
    let data = [0x01, 0x02, 0x03, 0x02, 0x03, 0x02];
    assert_eq!(
        sorted(collect(&["01 02 03", "02 03", "03", "02 03 02", "02"], VectorSupport::Portable, &data)),
        vec![
            (0, 0, 3),
            (1, 1, 3),
            (1, 3, 5),
            (2, 2, 3),
            (2, 4, 5),
            (3, 1, 4),
            (3, 3, 6),
            (4, 1, 2),
            (4, 3, 4),
            (4, 5, 6),
        ]
    );
}

#[test]
fn patterns_with_one_anchor_share_its_hits() {
    let data = [0x10, 0xAB, 0xCD, 0x20, 0xAB, 0xCD, 0x30];
    for cpu in engines() {
        assert_eq!(
            sorted(collect(&["AB CD", "?? AB CD", "AB CD 3?", "AB CD"], cpu, &data)),
            vec![(0, 1, 3), (0, 4, 6), (1, 0, 3), (1, 3, 6), (2, 4, 7), (3, 1, 3), (3, 4, 6)]
        );
    }
}

#[test]
fn fingerprint_is_only_a_prefilter() {
    // Both patterns have the fingerprint `01 02 03`; their anchors differ.
    let mut data = vec![0u8; 60];
    data[10..15].copy_from_slice(&[0x01, 0x02, 0x03, 0x04, 0x05]);
    data[40..45].copy_from_slice(&[0x01, 0x02, 0x03, 0x04, 0x06]);
    for cpu in engines() {
        assert_eq!(
            sorted(collect(&["01 02 03 04 05", "01 02 03 04 06"], cpu, &data)),
            vec![(0, 10, 15), (1, 40, 45)]
        );
    }
}

#[test]
fn lane_mask_marks_where_the_key_stands() {
    let mut data = vec![0u8; 40];
    data[0] = 0xAA;
    data[5] = 0xAA;
    data[6] = 0xBB;
    data[31] = 0xAA;
    data[32] = 0xAA;
    assert_eq!(lane_mask(&data, 0, &vec![0xAA], 32), (1 << 0) | (1 << 5) | (1 << 31));
    assert_eq!(lane_mask(&data, 0, &vec![0xAA], 16), (1 << 0) | (1 << 5));
    assert_eq!(lane_mask(&data, 0, &vec![0xAA, 0xBB], 32), 1 << 5);
    assert_eq!(lane_mask(&data, 1, &vec![0xAA, 0xBB], 32), 1 << 4);
    assert_eq!(lane_mask(&data, 0, &vec![0xAA, 0xBB, 0x00], 32), 1 << 5);
    assert_eq!(lane_mask(&data, 5, &vec![0xAA, 0xAA], 32), 1 << 26);
    assert_eq!(lane_mask(&data, 0, &vec![0xCC], 32), 0);
    // Positions 6, 31 and 32 are not zero: lanes 0 and 23 to 26 are clear.
    assert_eq!(lane_mask(&data, 6, &vec![0x00, 0x00, 0x00], 32), 0xFFFF_FFFE & !(0xF << 23));
}

#[test]
fn engines_can_be_built_directly() {
    let data = noise(90, 5);
    let expected = by_brute_force(&MIXED, &data);
    let anchor = Anchor::new(&MIXED).unwrap();
    let mut found: Vec<Found> = Vec::new();
    anchor.scan(&data, |m: MatchedPattern| {
        found.push((m.id().usize(), m.start(), m.end()));
        Scan::Continue
    });
    assert_eq!(sorted(found), expected);
    for width in [VectorWidth::Lanes16, VectorWidth::Lanes32] {
        let teddy = Teddy::new(&MIXED, width).unwrap();
        let mut found: Vec<Found> = Vec::new();
        teddy.scan(&data, |m: MatchedPattern| {
            found.push((m.id().usize(), m.start(), m.end()));
            Scan::Continue
        });
        assert_eq!(sorted(found), expected);
    }
    assert!(matches!(Anchor::new(&["AA", "Q"]), Err(EngineError::MalformedPattern)));
    assert!(matches!(
        Teddy::new(&["AA", ""], VectorWidth::Lanes32),
        Err(EngineError::EmptyPattern)
    ));
}

#[test]
fn vector_width_names_its_lanes() {
    assert_eq!(VectorWidth::Lanes16.lanes(), 16);
    assert_eq!(VectorWidth::Lanes32.lanes(), 32);
}

#[test]
fn stop_in_the_strided_phase_skips_the_walk() {
    let mut data = vec![0u8; 80];
    for at in [5, 20, 70, 79] {
        data[at] = 0xEE;
    }
    for cpu in engines() {
        let scanner = Hexpotter::new(&["EE"], cpu).unwrap();
        let mut found: Vec<Found> = Vec::new();
        scanner.scan(&data, |m: MatchedPattern| {
            found.push((m.id().usize(), m.start(), m.end()));
            if m.start() == 20 {
                Scan::Stop
            } else {
                Scan::Continue
            }
        });
        assert_eq!(found, vec![(0, 5, 6), (0, 20, 21)]);
    }
}

#[test]
fn many_patterns_and_buckets() {
    let sources: Vec<String> = (0..200u32)
        .map(|i| format!("{:02X} {:02X} ?? {:02X}", i % 7, i % 5, i % 3))
        .collect();
    let patterns: Vec<&str> = sources.iter().map(|s| s.as_str()).collect();
    let mut state = 1u32;
    let data: Vec<u8> = (0..400)
        .map(|_| {
            state = state.wrapping_mul(1103515245).wrapping_add(12345);
            ((state >> 16) % 7) as u8
        })
        .collect();
    let expected = by_brute_force(&patterns, &data);
    assert!(expected.len() > 200);
    for cpu in engines() {
        assert_eq!(sorted(collect(&patterns, cpu, &data)), expected);
    }
}

#[test]
fn strided_limit_floors_to_the_stride() {
    let wide = Teddy::new(&["AA"], VectorWidth::Lanes32).unwrap();
    assert_eq!(wide.width(), 32);
    assert_eq!(wide.strided_limit(0), None);
    assert_eq!(wide.strided_limit(33), None);
    assert_eq!(wide.strided_limit(34), Some(32));
    assert_eq!(wide.strided_limit(65), Some(32));
    assert_eq!(wide.strided_limit(66), Some(64));
    assert_eq!(wide.strided_limit(70), Some(64));
    assert_eq!(wide.strided_limit(1000), Some(992));
    let narrow = Teddy::new(&["AA"], VectorWidth::Lanes16).unwrap();
    assert_eq!(narrow.width(), 16);
    assert_eq!(narrow.strided_limit(17), None);
    assert_eq!(narrow.strided_limit(18), Some(16));
    assert_eq!(narrow.strided_limit(33), Some(16));
    assert_eq!(narrow.strided_limit(34), Some(32));
    assert_eq!(narrow.strided_limit(50), Some(48));
}

#[test]
fn buckets_hold_the_distinct_fingerprints() {
    let teddy = Teddy::new(
        &["01 02 03 04", "AA ??", "01 02 03 05", "?? BB CC", "AA"],
        VectorWidth::Lanes32,
    )
    .unwrap();
    assert_eq!(teddy.bucket_count(), 3);
    assert_eq!(teddy.fingerprint_bytes(0), &vec![0x01, 0x02, 0x03]);
    assert_eq!(teddy.fingerprint_bytes(1), &vec![0xAA]);
    assert_eq!(teddy.fingerprint_bytes(2), &vec![0xBB, 0xCC]);
}

#[test]
fn verify_lanes_verifies_the_set_lanes_in_ascending_order() {
    let teddy = Teddy::new(&["AA", "BB", "AA ?1"], VectorWidth::Lanes32).unwrap();
    let mut data = vec![0u8; 40];
    data[3] = 0xAA;
    data[9] = 0xAA;
    data[10] = 0x01;
    data[12] = 0xAA;
    data[13] = 0xF1;
    let mut found: Vec<Found> = Vec::new();
    let mut sink = |m: MatchedPattern| {
        found.push((m.id().usize(), m.start(), m.end()));
        Scan::Continue
    };
    // Lane 7 is set although nothing stands there; lane 12 is not set.
    let mask = (1 << 3) | (1 << 7) | (1 << 9);
    assert!(teddy.verify_lanes(&data, 0, 0, mask, &mut sink).0);
    assert_eq!(found, vec![(0, 3, 4), (0, 9, 10), (2, 9, 11)]);
    assert_eq!(teddy.bucket_count(), 2);
    // With another base the same lanes stand for other positions.
    found = Vec::new();
    let mut sink = |m: MatchedPattern| {
        found.push((m.id().usize(), m.start(), m.end()));
        Scan::Continue
    };
    assert!(teddy.verify_lanes(&data, 0, 2, (1 << 1) | (1 << 10), &mut sink).0);
    assert_eq!(found, vec![(0, 3, 4), (0, 12, 13), (2, 12, 14)]);
    // The second bucket has nothing at these positions.
    found = Vec::new();
    let mut sink = |m: MatchedPattern| {
        found.push((m.id().usize(), m.start(), m.end()));
        Scan::Continue
    };
    assert!(teddy.verify_lanes(&data, 1, 0, mask, &mut sink).0);
    assert_eq!(found, vec![]);
}

#[test]
fn verify_lanes_stops_when_the_sink_says_so() {
    let teddy = Teddy::new(&["AA"], VectorWidth::Lanes16).unwrap();
    let data = vec![0xAAu8; 20];
    let mut found: Vec<Found> = Vec::new();
    let mut sink = |m: MatchedPattern| {
        found.push((m.id().usize(), m.start(), m.end()));
        if m.start() == 5 {
            Scan::Stop
        } else {
            Scan::Continue
        }
    };
    assert!(!teddy.verify_lanes(&data, 0, 0, 0b1010_0100, &mut sink).0);
    assert_eq!(found, vec![(0, 2, 3), (0, 5, 6)]);
}

#[test]
fn scan_slow_walks_from_its_start() {
    let teddy = Teddy::new(&["AA", "BB"], VectorWidth::Lanes32).unwrap();
    let data = [0xAA, 0xBB, 0xAA, 0xBB, 0xAA];
    let mut found: Vec<Found> = Vec::new();
    let mut sink = |m: MatchedPattern| {
        found.push((m.id().usize(), m.start(), m.end()));
        Scan::Continue
    };
    assert!(teddy.scan_slow(&data, 2, &mut sink).0);
    assert_eq!(found, vec![(0, 2, 3), (1, 3, 4), (0, 4, 5)]);
    found = Vec::new();
    let mut sink = |m: MatchedPattern| {
        found.push((m.id().usize(), m.start(), m.end()));
        Scan::Continue
    };
    assert!(teddy.scan_slow(&data, 5, &mut sink).0);
    assert!(teddy.scan_slow(&data, 9, &mut sink).0);
    assert_eq!(found, vec![]);
}

#[test]
fn steps_with_lane_masks_make_up_a_scan() {
    // The strided phase, run from outside with the library's lane masks,
    // and the walk give what `scan` gives.
    let data = noise(230, 17);
    for width in [VectorWidth::Lanes16, VectorWidth::Lanes32] {
        let teddy = Teddy::new(&MIXED, width).unwrap();
        let mut expected: Vec<Found> = Vec::new();
        teddy.scan(&data, |m: MatchedPattern| {
            expected.push((m.id().usize(), m.start(), m.end()));
            Scan::Continue
        });
        let mut found: Vec<Found> = Vec::new();
        let mut sink = |m: MatchedPattern| {
            found.push((m.id().usize(), m.start(), m.end()));
            Scan::Continue
        };
        let limit = teddy.strided_limit(data.len()).unwrap();
        for bucket in 0..teddy.bucket_count() {
            let mut base = 0;
            while base < limit {
                let mask = lane_mask(&data, base, teddy.fingerprint_bytes(bucket), teddy.width());
                assert!(teddy.verify_lanes(&data, bucket, base, mask, &mut sink).0);
                base += teddy.width();
            }
        }
        assert!(teddy.scan_slow(&data, limit, &mut sink).0);
        assert!(!expected.is_empty());
        assert_eq!(found, expected);
    }
}

#[test]
fn scanner_shows_its_engine() {
    let wide = Hexpotter::new(&["AA"], VectorSupport::Avx2).unwrap();
    assert!(matches!(wide.engine_ref(), Engine::Fingerprint(t) if t.width() == 32));
    let narrow = Hexpotter::new(&["AA"], VectorSupport::Neon).unwrap();
    assert!(matches!(narrow.engine_ref(), Engine::Fingerprint(t) if t.width() == 16));
    let plain = Hexpotter::new(&["AA"], VectorSupport::Portable).unwrap();
    assert!(matches!(plain.engine_ref(), Engine::Automaton(_)));
}

#[test]
fn verify_hit_verifies_the_patterns_of_the_literal() {
    let anchor = Anchor::new(&["AB CD", "?? AB CD", "EF", "AB CD ?? 01"]).unwrap();
    assert_eq!(anchor.literal_count(), 2);
    let data = [0x11, 0xAB, 0xCD, 0xEF, 0x01];
    let mut found: Vec<Found> = Vec::new();
    let mut sink = |m: MatchedPattern| {
        found.push((m.id().usize(), m.start(), m.end()));
        Scan::Continue
    };
    assert!(anchor.verify_hit(&data, 0, 1, &mut sink).0);
    assert!(anchor.verify_hit(&data, 1, 3, &mut sink).0);
    // A hit that is none: nothing lies around it.
    assert!(anchor.verify_hit(&data, 0, 2, &mut sink).0);
    assert!(anchor.verify_hit(&data, 1, 0, &mut sink).0);
    assert_eq!(found, vec![(0, 1, 3), (1, 0, 3), (3, 1, 5), (2, 3, 4)]);
    let mut stop = |_m: MatchedPattern| Scan::Stop;
    assert!(!anchor.verify_hit(&data, 0, 1, &mut stop).0);
}


#[test]
fn automaton_engine_walks_the_patterns_without_a_full_byte_last() {
    let data = [0x1A, 0xBB, 0x2A];
    assert_eq!(
        collect(&["?A", "BB", "?? BB"], VectorSupport::Portable, &data),
        vec![(1, 1, 2), (2, 0, 2), (0, 0, 1), (0, 2, 3)]
    );
    let anchor = Anchor::new(&["?A", "BB", "?? BB", "BB CC", "4?"]).unwrap();
    assert_eq!(anchor.literal_count(), 2);
}

#[test]
fn walk_tries_patterns_without_a_full_byte_at_every_position() {
    let teddy = Teddy::new(&["4? ??", "00"], VectorWidth::Lanes32).unwrap();
    let data = [0x40, 0x00, 0x4F, 0xFF, 0x50, 0x00];
    let mut found: Vec<Found> = Vec::new();
    let mut sink = |m: MatchedPattern| {
        found.push((m.id().usize(), m.start(), m.end()));
        Scan::Continue
    };
    assert!(teddy.scan_slow(&data, 0, &mut sink).0);
    assert_eq!(found, vec![(0, 0, 2), (1, 1, 2), (0, 2, 4), (1, 5, 6)]);
    found = Vec::new();
    let mut sink = |m: MatchedPattern| {
        found.push((m.id().usize(), m.start(), m.end()));
        Scan::Continue
    };
    assert!(teddy.scan_slow(&data, 2, &mut sink).0);
    assert_eq!(found, vec![(0, 2, 4), (1, 5, 6)]);
    assert_eq!(teddy.bucket_count(), 2);
    assert_eq!(teddy.fingerprint_bytes(0), &Vec::<u8>::new());
    // Every lane is set for the empty fingerprint.
    let long = vec![0u8; 40];
    assert_eq!(lane_mask(&long, 0, &vec![], 32), 0xFFFF_FFFF);
    assert_eq!(lane_mask(&long, 3, &vec![], 16), 0xFFFF);
}

#[test]
fn scan_with_takes_the_comparison_of_a_step_from_outside() {
    // A comparison of its own making: byte by byte, without the library.
    fn compare(data: &[u8], base: usize, key: &Vec<u8>, lanes: usize) -> u32 {
        let mut mask = 0u32;
        for k in 0..lanes {
            if data[base + k..].starts_with(key) {
                mask |= 1 << k;
            }
        }
        mask
    }
    let data = noise(260, 23);
    let expected = by_brute_force(&MIXED, &data);
    for cpu in engines() {
        let scanner = Hexpotter::new(&MIXED, cpu).unwrap();
        let mut found: Vec<Found> = Vec::new();
        scanner.scan_with(&data, compare, |m: MatchedPattern| {
            found.push((m.id().usize(), m.start(), m.end()));
            Scan::Continue
        });
        assert_eq!(found, scan_all(&scanner, &data));
        assert_eq!(sorted(found), expected);
    }
    let teddy = Teddy::new(&MIXED, VectorWidth::Lanes16).unwrap();
    let mut found: Vec<Found> = Vec::new();
    teddy.scan_with(&data, compare, |m: MatchedPattern| {
        found.push((m.id().usize(), m.start(), m.end()));
        Scan::Continue
    });
    assert_eq!(sorted(found), expected);
}
