use gdrust_kit::fixed::Fixed;
use gdrust_kit::fuzzy::{FuzzyRule, FuzzySet, FuzzySystem};
use gdrust_kit::version::{available_tools, version};

fn fx(micros: i32) -> Fixed {
    Fixed::from_micros(micros)
}

fn pt(x: i32, y: i32) -> (Fixed, Fixed) {
    (fx(x), fx(y))
}

const ALPHA: u64 = 100;
const BETA: u64 = 101;
const KEY_A: u64 = 200;
const KEY_B: u64 = 201;

/// Repeated evaluation of an unchanged configuration returns identical
/// mappings.
#[test]
fn test_evaluate_deterministic() {
    let mut system = FuzzySystem::new();
    system.add_input_set(FuzzySet::new(ALPHA, vec![pt(0, 0), pt(10_000_000, 1_000_000)]));
    system.add_input_set(FuzzySet::new(BETA, vec![pt(0, 1_000_000), pt(10_000_000, 0)]));
    system.add_rule(FuzzyRule::new(ALPHA).with_consequence(KEY_A, fx(700_000)));
    system.add_rule(FuzzyRule::new(BETA).with_consequence(KEY_A, fx(200_000)));

    let first = system.evaluate(fx(3_000_000));
    let second = system.evaluate(fx(3_000_000));
    assert_eq!(first, second);
    assert_eq!(first.get(KEY_A), second.get(KEY_A));
}

/// A key whose only rule has zero strength is absent from the result, while
/// keys with positive strength stay.
#[test]
fn test_zero_strength_key_omitted() {
    let mut system = FuzzySystem::new();
    system.add_input_set(FuzzySet::new(ALPHA, vec![pt(0, 0), pt(10_000_000, 1_000_000)]));
    system.add_input_set(FuzzySet::new(BETA, vec![pt(80_000_000, 0), pt(100_000_000, 1_000_000)]));
    system.add_rule(FuzzyRule::new(ALPHA).with_consequence(KEY_A, fx(500_000)));
    system.add_rule(FuzzyRule::new(BETA).with_consequence(KEY_B, fx(900_000)));

    let result = system.evaluate(fx(10_000_000));
    assert_eq!(result.get(KEY_A), Some(fx(500_000)));
    assert_eq!(result.get(KEY_B), None);
    assert_eq!(result.len(), 1);
}

/// Two curves registered under one category: only the first one registered is
/// consulted.
#[test]
fn test_duplicate_categories_first_match_wins() {
    let mut system = FuzzySystem::new();
    system.add_input_set(FuzzySet::new(ALPHA, vec![pt(0, 250_000)]));
    system.add_input_set(FuzzySet::new(ALPHA, vec![pt(0, 1_000_000)]));
    system.add_rule(FuzzyRule::new(ALPHA).with_consequence(KEY_A, fx(600_000)));

    let result = system.evaluate(fx(4_000_000));
    // strength 0.25 from the first curve; a single rule, so the weighted
    // average is the weight itself
    assert_eq!(result.get(KEY_A), Some(fx(600_000)));
}

/// A curve may dip below zero; a rule whose strength is negative contributes
/// nothing, exactly like one at zero.
#[test]
fn test_negative_strength_contributes_nothing() {
    let mut system = FuzzySystem::new();
    system.add_input_set(FuzzySet::new(ALPHA, vec![pt(0, -500_000)]));
    system.add_rule(FuzzyRule::new(ALPHA).with_consequence(KEY_A, fx(800_000)));

    let result = system.evaluate(fx(1_000_000));
    assert!(result.is_empty());
}

/// A single-point curve is constant over the whole axis.
#[test]
fn test_single_point_constant_everywhere() {
    let set = FuzzySet::new(ALPHA, vec![pt(5_000_000, 800_000)]);
    assert_eq!(set.membership(fx(i32::MIN)), fx(800_000));
    assert_eq!(set.membership(fx(-7_000_000)), fx(800_000));
    assert_eq!(set.membership(fx(0)), fx(800_000));
    assert_eq!(set.membership(fx(i32::MAX)), fx(800_000));
}

/// Weights are not confined to the unit interval: a multiplier above one
/// passes through the weighted average unchanged.
#[test]
fn test_weight_above_one() {
    let mut system = FuzzySystem::new();
    system.add_input_set(FuzzySet::new(ALPHA, vec![pt(0, 0), pt(10_000_000, 1_000_000)]));
    system.add_rule(FuzzyRule::new(ALPHA).with_consequence(KEY_A, fx(1_800_000)));

    let result = system.evaluate(fx(5_000_000));
    assert_eq!(result.get(KEY_A), Some(fx(1_800_000)));
}

/// Systems assembled through the registration calls are well-formed; a rule
/// written directly into the public fields with a duplicated key is caught.
#[test]
fn test_is_well_formed() {
    let mut system = FuzzySystem::new();
    system.add_rule(FuzzyRule::new(ALPHA).with_consequence(KEY_A, fx(100_000)));
    assert!(system.is_well_formed());

    let bad = FuzzyRule {
        condition: BETA,
        consequences: vec![(KEY_A, fx(1)), (KEY_A, fx(2))],
    };
    system.rules.push(bad);
    assert!(!system.is_well_formed());
}

#[test]
fn test_version() {
    assert_eq!(version(), "0.1.0");
}

#[test]
fn test_available_tools() {
    assert_eq!(available_tools(), vec!["utils"]);
}
