use hexpotter::engine::common::{find_best_anchor, parse_hex_pattern, PatternError, PatternInfo};
use hexpotter::engine::grouping::{group_patterns, same_bytes};
use hexpotter::engine::table::compile_patterns;
use hexpotter::engine::{EngineError, MatchedPattern, Scan};
use hexpotter::pattern::PatternId;
use hexpotter::{Hexpotter, VectorSupport};

#[test]
fn parses_each_token_shape() {
    assert_eq!(
        parse_hex_pattern("48 ?? 4? ?A"),
        Ok((vec![0x48, 0x00, 0x40, 0x0A], vec![0xFF, 0x00, 0xF0, 0x0F]))
    );
}

#[test]
fn parses_hex_digits_in_either_case() {
    assert_eq!(
        parse_hex_pattern("aB Cd ef F? ?e"),
        Ok((vec![0xAB, 0xCD, 0xEF, 0xF0, 0x0E], vec![0xFF, 0xFF, 0xFF, 0xF0, 0x0F]))
    );
    assert_eq!(parse_hex_pattern("00 FF"), Ok((vec![0x00, 0xFF], vec![0xFF, 0xFF])));
}

#[test]
fn tokens_are_separated_by_any_white_space() {
    let expected = Ok((vec![0x01, 0x02, 0x03], vec![0xFF, 0xFF, 0xFF]));
    assert_eq!(parse_hex_pattern("01 02 03"), expected);
    assert_eq!(parse_hex_pattern("  01\t02\n\r03  "), expected);
    assert_eq!(parse_hex_pattern("01\u{00A0}02\u{2003}03\u{3000}"), expected);
    assert_eq!(parse_hex_pattern("01\u{0085}02\u{000B}03\u{000C}"), expected);
}

#[test]
fn malformed_tokens_are_rejected() {
    for bad in [
        "4", "?", "4G", "G4", "123", "4?5", "???", "+4", "0x", "4 8", "48 4", "48 ?", "4\u{00E9}",
        "48,89", "48 89 5C2408", "-1", "４８",
    ] {
        assert_eq!(parse_hex_pattern(bad), Err(PatternError::MalformedPattern), "{:?}", bad);
    }
}

#[test]
fn pattern_without_tokens_is_empty() {
    assert_eq!(parse_hex_pattern(""), Err(PatternError::EmptyPattern));
    assert_eq!(parse_hex_pattern("   "), Err(PatternError::EmptyPattern));
    assert_eq!(parse_hex_pattern("\t\n"), Err(PatternError::EmptyPattern));
}

#[test]
fn wildcard_bits_of_values_are_zero() {
    let (values, masks) = parse_hex_pattern("F? ?F ?? FF").unwrap();
    assert_eq!(values, vec![0xF0, 0x0F, 0x00, 0xFF]);
    for (v, m) in values.iter().zip(masks.iter()) {
        assert_eq!(v & !m, 0);
    }
}

#[test]
fn anchor_is_the_longest_run() {
    let values = [1, 2, 3, 4, 5, 6, 7];
    let masks = [0xFF, 0x00, 0xFF, 0xFF, 0xFF, 0xF0, 0xFF];
    assert_eq!(find_best_anchor(&values, &masks), (vec![3, 4, 5], 2));
}

#[test]
fn anchor_is_the_first_of_equal_runs() {
    let values = [1, 2, 3, 4, 5, 6, 7, 8];
    let masks = [0xFF, 0xFF, 0x00, 0xFF, 0xFF, 0x0F, 0xFF, 0xFF];
    assert_eq!(find_best_anchor(&values, &masks), (vec![1, 2], 0));
}

#[test]
fn anchor_may_end_the_pattern() {
    let values = [1, 2, 3, 4];
    let masks = [0xFF, 0x00, 0xFF, 0xFF];
    assert_eq!(find_best_anchor(&values, &masks), (vec![3, 4], 2));
}

#[test]
fn anchor_of_a_fully_specified_pattern_is_the_pattern() {
    let values = [9, 8, 7];
    let masks = [0xFF, 0xFF, 0xFF];
    assert_eq!(find_best_anchor(&values, &masks), (vec![9, 8, 7], 0));
}

#[test]
fn anchor_without_full_byte_is_the_first_value() {
    let values = [0x40, 0x00, 0x0A];
    let masks = [0xF0, 0x00, 0x0F];
    assert_eq!(find_best_anchor(&values, &masks), (vec![0x40], 0));
    assert_eq!(find_best_anchor(&[0x00], &[0x00]), (vec![0x00], 0));
}

#[test]
fn half_specified_bytes_do_not_count_for_the_anchor() {
    let values = [0x10, 0x02, 0x33];
    let masks = [0xF0, 0x0F, 0xFF];
    assert_eq!(find_best_anchor(&values, &masks), (vec![0x33], 2));
}

#[test]
fn anchor_of_a_compiled_pattern() {
    let (values, masks) = parse_hex_pattern("E8 ?? ?? ?? ?? 48 89 44 24").unwrap();
    assert_eq!(find_best_anchor(&values, &masks), (vec![0x48, 0x89, 0x44, 0x24], 5));
}

#[test]
fn compiled_set_stores_patterns_end_to_end() {
    let set = compile_patterns(&["AA BB", "?? CC DD EE", "1?"]).unwrap();
    let infos: Vec<(usize, usize, usize, usize)> = set
        .infos
        .iter()
        .map(|i: &PatternInfo| (i.id, i.len, i.data_offset, i.anchor_offset))
        .collect();
    assert_eq!(infos, vec![(0, 2, 0, 0), (1, 4, 2, 1), (2, 1, 6, 0)]);
    assert_eq!(set.anchors, vec![vec![0xAA, 0xBB], vec![0xCC, 0xDD, 0xEE], vec![0x10]]);
}

#[test]
fn compiling_fails_with_the_first_error() {
    assert!(matches!(compile_patterns(&["AA", "", "ZZ"]), Err(PatternError::EmptyPattern)));
    assert!(matches!(compile_patterns(&["AA", "ZZ", ""]), Err(PatternError::MalformedPattern)));
}

#[test]
fn grouping_keeps_first_appearance_order() {
    let set = compile_patterns(&["AA 01", "BB", "AA 01", "CC", "BB"]).unwrap();
    let groups = group_patterns(&set.anchors, &set.infos);
    assert_eq!(groups.keys, vec![vec![0xAA, 0x01], vec![0xBB], vec![0xCC]]);
    let ids: Vec<Vec<usize>> =
        groups.members.iter().map(|g| g.iter().map(|i| i.id).collect()).collect();
    assert_eq!(ids, vec![vec![0, 2], vec![1, 4], vec![3]]);
}

#[test]
fn same_bytes_compares_contents() {
    assert!(same_bytes(&[1, 2, 3], &[1, 2, 3]));
    assert!(same_bytes(&[], &[]));
    assert!(!same_bytes(&[1, 2, 3], &[1, 2]));
    assert!(!same_bytes(&[1, 2, 3], &[1, 2, 4]));
}

#[test]
fn engine_reports_malformed_pattern() {
    for cpu in [VectorSupport::Avx2, VectorSupport::Neon, VectorSupport::Portable] {
        assert!(matches!(Hexpotter::new(&["48 8"], cpu), Err(EngineError::MalformedPattern)));
        assert!(matches!(Hexpotter::new(&["48", "?"], cpu), Err(EngineError::MalformedPattern)));
    }
}

#[test]
fn engine_reports_empty_pattern() {
    for cpu in [VectorSupport::Avx2, VectorSupport::Neon, VectorSupport::Portable] {
        assert!(matches!(Hexpotter::new(&[""], cpu), Err(EngineError::EmptyPattern)));
        assert!(matches!(Hexpotter::new(&["48", " "], cpu), Err(EngineError::EmptyPattern)));
    }
}

#[test]
fn engine_reports_the_first_failing_pattern() {
    for cpu in [VectorSupport::Avx2, VectorSupport::Neon, VectorSupport::Portable] {
        assert!(matches!(Hexpotter::new(&["", "4"], cpu), Err(EngineError::EmptyPattern)));
        assert!(matches!(Hexpotter::new(&["4", ""], cpu), Err(EngineError::MalformedPattern)));
    }
}

#[test]
fn pattern_id_round_trip() {
    let id = PatternId::new(42);
    assert_eq!(id.usize(), 42);
    assert_eq!(id, PatternId(42));
    assert_eq!(PatternId::new(0).usize(), 0);
}

#[test]
fn pattern_id_as_text() {
    assert_eq!(PatternId::new(0).to_string(), "#0");
    assert_eq!(PatternId::new(7).to_string(), "#7");
    assert_eq!(PatternId::new(1024).to_string(), "#1024");
}

#[test]
fn matched_pattern_getters() {
    let m = MatchedPattern { start: 3, end: 9, pattern_id: PatternId::new(5) };
    assert_eq!(m.start(), 3);
    assert_eq!(m.end(), 9);
    assert_eq!(m.id(), PatternId(5));
}

#[test]
fn verifier_checks_one_candidate() {
    let set = compile_patterns(&["?? AB CD", "AB ?D"]).unwrap();
    let data = [0x11, 0xAB, 0xCD, 0xAB, 0x0D];
    let mut found: Vec<(usize, usize, usize)> = Vec::new();
    let mut sink = |m: MatchedPattern| {
        found.push((m.id().usize(), m.start(), m.end()));
        Scan::Continue
    };
    // The anchor of the first pattern lies at offset 1.
    assert_eq!(set.table.verify_match(&data, 1, &set.infos[0], &mut sink).0, Scan::Continue);
    // No room before the candidate, no room after it, a byte that differs.
    assert_eq!(set.table.verify_match(&data, 0, &set.infos[0], &mut sink).0, Scan::Continue);
    assert_eq!(set.table.verify_match(&data, 4, &set.infos[0], &mut sink).0, Scan::Continue);
    assert_eq!(set.table.verify_match(&data, 3, &set.infos[0], &mut sink).0, Scan::Continue);
    assert_eq!(set.table.verify_match(&data, 9, &set.infos[0], &mut sink).0, Scan::Continue);
    assert_eq!(set.table.verify_match(&data, 1, &set.infos[1], &mut sink).0, Scan::Continue);
    assert_eq!(set.table.verify_match(&data, 3, &set.infos[1], &mut sink).0, Scan::Continue);
    assert_eq!(found, vec![(0, 0, 3), (1, 1, 3), (1, 3, 5)]);
    let mut stop = |_m: MatchedPattern| Scan::Stop;
    assert_eq!(set.table.verify_match(&data, 1, &set.infos[0], &mut stop).0, Scan::Stop);
    assert_eq!(set.table.verify_match(&data, 0, &set.infos[0], &mut stop).0, Scan::Continue);
}

#[test]
fn verifier_goes_through_a_candidate_list() {
    let set = compile_patterns(&["AB", "AB CD", "AB ?? EF", "AB CD"]).unwrap();
    let data = [0xAB, 0xCD, 0xEF];
    let mut found: Vec<(usize, usize, usize)> = Vec::new();
    let mut sink = |m: MatchedPattern| {
        found.push((m.id().usize(), m.start(), m.end()));
        if m.id().usize() == 2 {
            Scan::Stop
        } else {
            Scan::Continue
        }
    };
    assert!(!set.table.verify_bucket_patterns(&data, 0, &set.infos, &mut sink).0);
    assert_eq!(found, vec![(0, 0, 1), (1, 0, 2), (2, 0, 3)]);
    found = Vec::new();
    let mut sink = |m: MatchedPattern| {
        found.push((m.id().usize(), m.start(), m.end()));
        Scan::Continue
    };
    assert!(set.table.verify_bucket_patterns(&data, 0, &set.infos, &mut sink).0);
    assert!(set.table.verify_bucket_patterns(&data, 1, &set.infos, &mut sink).0);
    assert_eq!(found, vec![(0, 0, 1), (1, 0, 2), (2, 0, 3), (3, 0, 2)]);
}
