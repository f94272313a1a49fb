use l_system_rs::rule::ProductionRule;

#[test]
fn test_production_rule_new() {
    let rule = ProductionRule::new('A', "AB");
    assert_eq!(rule.predecessor, 'A');
    assert_eq!(rule.successor, "AB");
}

#[test]
fn test_production_rule_matches() {
    let rule = ProductionRule::new('F', "F+F");
    assert!(rule.matches('F'));
    assert!(!rule.matches('G'));
}

#[test]
fn test_production_rule_equality() {
    let r1 = ProductionRule::new('A', "AB");
    let r2 = ProductionRule::new('A', "AB");
    let r3 = ProductionRule::new('A', "BA");
    assert_eq!(r1, r2);
    assert_ne!(r1, r3);
}

#[test]
fn production_rule_unicode_successor() {
    let rule = ProductionRule::new('λ', "λ→μ");
    assert_eq!(rule.predecessor, 'λ');
    assert_eq!(rule.successor, "λ→μ");
    assert!(rule.matches('λ'));
    assert!(!rule.matches('μ'));
}
