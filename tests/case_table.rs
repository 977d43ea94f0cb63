use cow_utils::case_info::{CharCaseChanges, CharInfo};
use cow_utils::encoding::{decode_direct, encode_direct, CharRangeType, RANGE_ENCODING_MAX_LEN};
use cow_utils::search::{
    changes_when_casemapped_nonascii, changes_when_lowercased, changes_when_uppercased,
    find_encoded_case_range,
};
use cow_utils::tabgen::{mapping_changes, CaseChangeDb, FoundCharRange};

fn build() -> (CaseChangeDb, Vec<FoundCharRange>, Vec<FoundCharRange>, Vec<u32>) {
    let db = CaseChangeDb::new();
    let ranges = db.find_ranges();
    let (split, table) = db.splitify_ranges_for_encoding(&ranges);
    (db, ranges, split, table)
}

fn changes_when_lowercased_refimpl(c: char) -> bool {
    !core::iter::once(c).eq(c.to_lowercase())
}

fn changes_when_uppercased_refimpl(c: char) -> bool {
    !core::iter::once(c).eq(c.to_uppercase())
}

#[test]
fn test_paranoia() {
    let (_, _, _, table) = build();
    for c in '\0'..=char::MAX {
        let lower = changes_when_lowercased_refimpl(c);
        let upper = changes_when_uppercased_refimpl(c);
        let fancy_lower = changes_when_lowercased(c, &table);
        let fancy_upper = changes_when_uppercased(c, &table);
        assert_eq!(
            (lower, upper),
            (fancy_lower, fancy_upper),
            "wrong for {:?} (U+{:04x})",
            c,
            c as u32
        );
    }
}

#[test]
fn generated_table_passes_its_check() {
    let (db, _, split, table) = build();
    assert!(db.check_encoding(&split, &table));
}

#[test]
fn corrupted_table_fails_its_check() {
    let (db, _, split, table) = build();
    let mut bad = table.clone();
    let (kind, start, len) = decode_direct(bad[0]);
    bad[0] = encode_direct((kind + 1) % 5, start, len);
    assert!(!db.check_encoding(&split, &bad));
    let mut shifted = table.clone();
    let last = shifted.len() - 1;
    let (kind, start, len) = decode_direct(shifted[last]);
    shifted[last] = encode_direct(kind, start + 1, len);
    assert!(!db.check_encoding(&split, &shifted));
    let mut unsorted = table.clone();
    unsorted.swap(0, 1);
    assert!(!db.check_encoding(&split, &unsorted));
}

#[test]
fn encoding_round_trips() {
    for &(kind, start, len) in &[(0u32, 0x80u32, 1u32), (2, 0x100, 48), (4, 0x10FFFF, 254), (3, 0, 0)] {
        assert_eq!(decode_direct(encode_direct(kind, start, len)), (kind, start, len));
    }
    let r = FoundCharRange { start_char: 0x1E00, length: 150, kind: CharRangeType::AlternatingLowerUpper };
    assert_eq!(decode_direct(r.encode()), (3, 0x1E00, 150));
}

#[test]
fn encoding_bit_layout() {
    assert_eq!(encode_direct(1, 0x41, 3), 3 | (1 << 8) | (0x41 << 11));
    assert_eq!(encode_direct(4, 0x100, 254), 0x0008_04FE);
    assert_eq!(decode_direct(0xFFFF_FFFF), (7, 0x1F_FFFF, 0xFF));
}

#[test]
fn kind_tags() {
    assert_eq!(CharRangeType::Uniform(CharCaseChanges::UpperOnly).encode(), Some(0));
    assert_eq!(CharRangeType::Uniform(CharCaseChanges::LowerOnly).encode(), Some(1));
    assert_eq!(CharRangeType::AlternatingUpperLower.encode(), Some(2));
    assert_eq!(CharRangeType::AlternatingLowerUpper.encode(), Some(3));
    assert_eq!(CharRangeType::Uniform(CharCaseChanges::Always).encode(), Some(4));
    assert_eq!(CharRangeType::Uniform(CharCaseChanges::Never).encode(), None);
    assert!(CharRangeType::AlternatingUpperLower.is_alt());
    assert!(!CharRangeType::Uniform(CharCaseChanges::UpperOnly).is_alt());
}

#[test]
fn raw_ranges_partition_the_codepoints() {
    let db = CaseChangeDb::new();
    let raw = db.find_raw_ranges();
    let mut next = 0u32;
    for r in &raw {
        assert_eq!(r.start_char, next);
        assert!(r.length >= 1);
        next = r.end();
    }
    assert_eq!(next, 0x110000);
}

#[test]
fn encoded_lengths_are_bounded() {
    let (db, _, split, table) = build();
    assert_eq!(split.len(), table.len());
    let long = *db.find_raw_ranges().iter().find(|r| r.length > 1000).unwrap();
    let chunks = long.split_into_chunks(&db, RANGE_ENCODING_MAX_LEN);
    assert_eq!(chunks.len(), (long.length + RANGE_ENCODING_MAX_LEN - 1) / RANGE_ENCODING_MAX_LEN);
    assert!(chunks.iter().all(|c| c.length >= 1 && c.length <= RANGE_ENCODING_MAX_LEN
        && c.kind == long.kind));
    assert_eq!(chunks.last().unwrap().end(), long.end());
    for &e in &table {
        let (_, _, len) = decode_direct(e);
        assert!((1..=254).contains(&len));
    }
}

#[test]
fn splitting_alternating_run_leaves_uniform_single() {
    let db = CaseChangeDb::new();
    // U+0100..U+012F alternate: Ā ā Ă ă ...
    let r = FoundCharRange { start_char: 0x100, length: 5, kind: CharRangeType::AlternatingLowerUpper };
    let chunks = r.split_into_chunks(&db, 2);
    assert_eq!(chunks.len(), 3);
    assert_eq!(chunks[0], FoundCharRange { start_char: 0x100, length: 2, kind: CharRangeType::AlternatingLowerUpper });
    assert_eq!(chunks[1], FoundCharRange { start_char: 0x102, length: 2, kind: CharRangeType::AlternatingLowerUpper });
    assert_eq!(chunks[2], FoundCharRange { start_char: 0x104, length: 1, kind: CharRangeType::Uniform(CharCaseChanges::LowerOnly) });
    let odd = FoundCharRange { start_char: 0x101, length: 4, kind: CharRangeType::AlternatingUpperLower };
    let chunks = odd.split_into_chunks(&db, 3);
    assert_eq!(chunks[0].kind, CharRangeType::AlternatingUpperLower);
    assert_eq!(chunks[1], FoundCharRange { start_char: 0x104, length: 1, kind: CharRangeType::Uniform(CharCaseChanges::LowerOnly) });
    let short = FoundCharRange { start_char: 0x100, length: 3, kind: CharRangeType::AlternatingLowerUpper };
    assert_eq!(short.split_into_chunks(&db, 254), vec![short]);
}

#[test]
fn ascii_fast_path_ignores_table() {
    assert!(changes_when_lowercased('A', &[]));
    assert!(!changes_when_uppercased('A', &[]));
    assert!(changes_when_uppercased('z', &[]));
    assert!(!changes_when_lowercased('z', &[]));
    assert!(!changes_when_lowercased('5', &[]));
    assert!(!changes_when_uppercased('@', &[]));
}

#[test]
fn alternating_run_starting_lower_only() {
    let (_, _, _, table) = build();
    let rec = find_encoded_case_range('\u{100}', &table).unwrap();
    let (kind, start, len) = decode_direct(rec);
    assert_eq!((kind, start), (3, 0x100));
    assert!(len >= 2);
    assert!(changes_when_casemapped_nonascii::<true>('\u{100}', &table));
    assert!(!changes_when_casemapped_nonascii::<true>('\u{101}', &table));
    assert!(changes_when_casemapped_nonascii::<false>('\u{101}', &table));
}

#[test]
fn gap_codepoint_never_changes() {
    let (_, _, _, table) = build();
    assert_eq!(find_encoded_case_range('\u{660}', &table), None);
    assert!(!changes_when_lowercased('\u{660}', &table));
    assert!(!changes_when_uppercased('\u{660}', &table));
    assert!(!changes_when_lowercased('7', &table));
    assert!(!changes_when_uppercased('7', &table));
}

#[test]
fn search_on_hand_built_table() {
    let table = vec![
        encode_direct(0, 0x200, 3),
        encode_direct(2, 0x300, 4),
        encode_direct(4, 0x400, 1),
    ];
    assert_eq!(find_encoded_case_range('\u{201}', &table), Some(table[0]));
    assert_eq!(find_encoded_case_range('\u{203}', &table), None);
    assert_eq!(find_encoded_case_range('\u{1FF}', &table), None);
    assert_eq!(find_encoded_case_range('\u{400}', &table), Some(table[2]));
    assert!(changes_when_uppercased('\u{202}', &table));
    assert!(!changes_when_lowercased('\u{202}', &table));
    assert!(!changes_when_lowercased('\u{300}', &table));
    assert!(changes_when_lowercased('\u{301}', &table));
    assert!(changes_when_uppercased('\u{302}', &table));
    assert!(changes_when_lowercased('\u{400}', &table));
    assert!(changes_when_uppercased('\u{400}', &table));
    assert!(!changes_when_uppercased('\u{401}', &table));
}

#[test]
fn database_follows_the_oracle() {
    let db = CaseChangeDb::new();
    assert_eq!(db.infos.len(), 0x110000);
    let a = db.info(0x41);
    assert!(a.changes_when_lower && !a.changes_when_upper);
    assert_eq!(a.case_enum(), CharCaseChanges::LowerOnly);
    assert_eq!(db.info(0x61).case_enum(), CharCaseChanges::UpperOnly);
    // U+01C5 (Dž) changes under both mappings
    assert_eq!(db.info(0x1C5).case_enum(), CharCaseChanges::Always);
    assert_eq!(db.info(0xDF).case_enum(), CharCaseChanges::UpperOnly);
    assert_eq!(db.info(0xD800).case_enum(), CharCaseChanges::Never);
    let past = db.info(0x110005);
    assert_eq!(past, CharInfo { codepoint: 0x110005, changes_when_upper: false, changes_when_lower: false });
}

#[test]
fn discovered_runs() {
    let db = CaseChangeDb::new();
    let ranges = db.find_ranges();
    assert!(ranges.iter().all(|r| db.should_keep_range(r)));
    assert!(ranges.iter().all(|r| r.start_char >= 128 || r.end() >= 128));
    let alt = ranges.iter().find(|r| r.start_char == 0x100).unwrap();
    assert_eq!(alt.kind, CharRangeType::AlternatingLowerUpper);
    assert!(alt.length >= 0x30);
    let upper_latin = ranges.iter().find(|r| r.start_char <= 0xC0 && 0xC0 < r.end()).unwrap();
    assert_eq!(upper_latin.kind, CharRangeType::Uniform(CharCaseChanges::LowerOnly));
}

#[test]
fn keeping_ranges() {
    let db = CaseChangeDb::new();
    let ascii = FoundCharRange { start_char: 0x41, length: 26, kind: CharRangeType::Uniform(CharCaseChanges::LowerOnly) };
    assert!(!db.should_keep_range(&ascii));
    let never = FoundCharRange { start_char: 0x660, length: 10, kind: CharRangeType::Uniform(CharCaseChanges::Never) };
    assert!(!db.should_keep_range(&never));
    let edge = FoundCharRange {
        start_char: 0x7F,
        length: 1,
        kind: CharRangeType::Uniform(CharCaseChanges::UpperOnly),
    };
    assert!(!db.should_keep_range(&edge));
    let straddling = FoundCharRange {
        start_char: 0x7F,
        length: 2,
        kind: CharRangeType::Uniform(CharCaseChanges::UpperOnly),
    };
    assert!(db.should_keep_range(&straddling));
}

#[test]
fn range_constructors() {
    let db = CaseChangeDb::new();
    let u = FoundCharRange::new_uniform_range(&db, 0xC0, 3);
    assert_eq!(u, FoundCharRange { start_char: 0xC0, length: 3, kind: CharRangeType::Uniform(CharCaseChanges::LowerOnly) });
    assert_eq!(u.end(), 0xC3);
    let a = FoundCharRange::new_alt_range(&db, 0x101, 4);
    assert_eq!(a.kind, CharRangeType::AlternatingUpperLower);
}

#[test]
fn behaviors_and_chars() {
    assert!(CharCaseChanges::UpperOnly.is_simple_cased());
    assert!(!CharCaseChanges::Always.is_simple_cased());
    assert!(!CharCaseChanges::Never.is_simple_cased());
    assert!(CharCaseChanges::UpperOnly.alternates_with(CharCaseChanges::LowerOnly));
    assert!(!CharCaseChanges::LowerOnly.alternates_with(CharCaseChanges::LowerOnly));
    assert!(!CharCaseChanges::Always.alternates_with(CharCaseChanges::LowerOnly));
    let x = CharInfo { codepoint: 0x3A3, changes_when_upper: false, changes_when_lower: true };
    let y = CharInfo { codepoint: 0x3C3, changes_when_upper: true, changes_when_lower: false };
    assert!(x.alternates_with(&y));
    assert_eq!(x.ch(), 'Σ');
    assert_eq!(y.try_ch(), Some('σ'));
    let s = CharInfo { codepoint: 0xD800, changes_when_upper: false, changes_when_lower: false };
    assert_eq!(s.try_ch(), None);
    assert_eq!(s.case_enum(), CharCaseChanges::Never);
}

#[test]
fn mapping_change_test() {
    assert!(mapping_changes('A', &vec!['a']));
    assert!(!mapping_changes('a', &vec!['a']));
    assert!(mapping_changes('\u{DF}', &vec!['S', 'S']));
    assert!(mapping_changes('x', &vec![]));
}

#[test]
fn splitting_a_subset_of_runs() {
    let db = CaseChangeDb::new();
    let ranges = db.find_ranges();
    let some = &ranges[2..5];
    let (split, table) = db.splitify_ranges_for_encoding(some);
    assert_eq!(split, some.to_vec());
    assert_eq!(table, some.iter().map(|r| r.encode()).collect::<Vec<u32>>());
}
