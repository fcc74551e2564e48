use osp_core::player::Grade;

#[test]
fn grade_orders_across_the_dan_kyu_boundary_with_no_gap() {
    // Ascending strength: weak kyu → 1 kyu → 1 dan → strong dan.
    assert!(Grade::kyu(20) < Grade::kyu(1));
    assert!(Grade::kyu(1) < Grade::dan(1));
    assert!(Grade::dan(1) < Grade::dan(5));
    // Contiguous: 1 kyu sits directly below 1 dan.
    assert_eq!(Grade::kyu(1).rank() + 1, Grade::dan(1).rank());
}

#[test]
fn parse_grade_accepts_the_compact_and_spelled_out_forms() {
    assert_eq!(Grade::parse("3d"), Some(Grade::dan(3)));
    assert_eq!(Grade::parse("3 dan"), Some(Grade::dan(3)));
    assert_eq!(Grade::parse("  5K "), Some(Grade::kyu(5)));
    assert_eq!(Grade::parse("5 kyu"), Some(Grade::kyu(5)));
    assert_eq!(Grade::parse("12DAN"), Some(Grade::dan(12)));
}

#[test]
fn parse_grade_rejects_junk() {
    assert_eq!(Grade::parse(""), None);
    assert_eq!(Grade::parse("dan"), None); // no level
    assert_eq!(Grade::parse("5"), None); // no kind
    assert_eq!(Grade::parse("0d"), None); // level must be ≥ 1
    assert_eq!(Grade::parse("3 danger"), None); // suffix must be exact
    assert_eq!(Grade::parse("3 d an"), None);
}

#[test]
fn grade_parsing_handles_a_level_past_u32_and_inner_space() {
    assert_eq!(Grade::parse("99999999999d"), None);
    assert_eq!(Grade::parse("7   kyu"), Some(Grade::kyu(7)));
    assert_eq!(Grade::parse("1k").map(|g| g.rank()), Some(0));
}
