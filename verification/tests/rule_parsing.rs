use mazes::ConstRules;
use mazes::DynamicRules;
use mazes::IsRules;
use mazes::life;
use mazes::maze;
use mazes::mazecetric;
use mazes::seeds;

#[test]
fn const_rules_expose_their_thresholds() {
    let r = ConstRules::new([2, 3], [4]);
    assert_eq!(r.get_birth(), vec![2, 3]);
    assert_eq!(r.get_surive(), vec![4]);
}

#[test]
fn dynamic_rules_expose_their_thresholds() {
    let r = DynamicRules::new(&[1, 5], &[0, 8]);
    assert_eq!(r.get_birth(), vec![1, 5]);
    assert_eq!(r.get_surive(), vec![0, 8]);
}

#[test]
fn presets_carry_their_threshold_sets() {
    assert_eq!(seeds().get_birth(), vec![2]);
    assert_eq!(seeds().get_surive(), Vec::<u8>::new());
    assert_eq!(life().get_birth(), vec![3]);
    assert_eq!(life().get_surive(), vec![2, 3]);
    assert_eq!(maze().get_birth(), vec![3]);
    assert_eq!(maze().get_surive(), vec![1, 2, 3, 4, 5]);
    assert_eq!(mazecetric().get_birth(), vec![3]);
    assert_eq!(mazecetric().get_surive(), vec![1, 2, 3, 4]);
}

#[test]
fn parsed_b3s23_equals_life_preset() {
    let parsed = DynamicRules::from_str("B3S23").unwrap();
    let preset = DynamicRules::from_rules(&life());
    assert_eq!(parsed.get_birth(), preset.get_birth());
    assert_eq!(parsed.get_surive(), preset.get_surive());
}

#[test]
fn parsing_is_case_insensitive_on_markers() {
    let r = DynamicRules::from_str("b45s12").unwrap();
    assert_eq!(r.get_birth(), vec![4, 5]);
    assert_eq!(r.get_surive(), vec![1, 2]);
}

#[test]
fn parsing_fails_without_either_marker() {
    let msg = "B or S not present in rule string";
    assert_eq!(DynamicRules::from_str("123").unwrap_err(), msg);
    assert_eq!(DynamicRules::from_str("B12").unwrap_err(), msg);
    assert_eq!(DynamicRules::from_str("S12").unwrap_err(), msg);
    assert_eq!(DynamicRules::from_str("").unwrap_err(), msg);
}

#[test]
fn parsing_skips_non_digit_characters() {
    let r = DynamicRules::from_str("B3xS2y3").unwrap();
    assert_eq!(r.get_birth(), vec![3]);
    assert_eq!(r.get_surive(), vec![2, 3]);
}

#[test]
fn parsing_with_survival_marker_first_gives_empty_birth() {
    let r = DynamicRules::from_str("S23B3").unwrap();
    assert_eq!(r.get_birth(), Vec::<u8>::new());
    assert_eq!(r.get_surive(), vec![2, 3, 3]);
}

#[test]
fn empty_threshold_lists_parse() {
    let r = DynamicRules::from_str("BS").unwrap();
    assert_eq!(r.get_birth(), Vec::<u8>::new());
    assert_eq!(r.get_surive(), Vec::<u8>::new());
}

#[test]
fn conversion_from_const_rules_is_lossless() {
    let c = ConstRules::new([1], [2, 3]);
    let d = DynamicRules::from_rules(&c);
    assert_eq!(d.get_birth(), c.get_birth());
    assert_eq!(d.get_surive(), c.get_surive());
}
