use l_system_rs::rule::ProductionRule;
use l_system_rs::system::LSystem;

#[test]
fn test_fibonacci_lsystem() {
    let mut ls = LSystem::new("A");
    ls.add_rule(ProductionRule::new('A', "AB"));
    ls.add_rule(ProductionRule::new('B', "A"));
    assert_eq!(ls.iterate(0), "A");
    assert_eq!(ls.iterate(0).len(), 1);
    assert_eq!(ls.iterate(1), "AB");
    assert_eq!(ls.iterate(1).len(), 2);
    assert_eq!(ls.iterate(3), "ABAAB");
    assert_eq!(ls.iterate(3).len(), 5);
    assert_eq!(ls.iterate(4).len(), 8);
}

#[test]
fn test_koch_curve() {
    let mut ls = LSystem::new("F");
    ls.add_rule(ProductionRule::new('F', "F+F--F+F"));
    let result = ls.iterate(1);
    assert_eq!(result, "F+F--F+F");
    let result2 = ls.iterate(2);
    assert!(result2.contains('+'));
    assert!(result2.len() > result.len());
}

#[test]
fn test_sierpinski_triangle() {
    let mut ls = LSystem::new("F-G-G");
    ls.add_rule(ProductionRule::new('F', "F-G+F+G-F"));
    ls.add_rule(ProductionRule::new('G', "GG"));
    let gen1 = ls.iterate(1);
    assert_eq!(gen1, "F-G+F+G-F-GG-GG");
}

#[test]
fn test_no_rules_identity() {
    let mut ls = LSystem::new("ABC");
    assert_eq!(ls.iterate(5), "ABC");
}

#[test]
fn system_test_symbols_without_rules_preserved() {
    let mut ls = LSystem::new("F+F");
    ls.add_rule(ProductionRule::new('F', "F-F"));
    let result = ls.iterate(1);
    assert_eq!(result, "F-F+F-F");
}

#[test]
fn test_iterate_all() {
    let mut ls = LSystem::new("A");
    ls.add_rule(ProductionRule::new('A', "AA"));
    let all = ls.iterate_all(3);
    assert_eq!(all.len(), 4);
    assert_eq!(all[0], "A");
    assert_eq!(all[1], "AA");
    assert_eq!(all[2], "AAAA");
    assert_eq!(all[3], "AAAAAAAA");
}

#[test]
fn test_plant_branching() {
    let mut ls = LSystem::new("X");
    ls.add_rule(ProductionRule::new('X', "F+[[X]-X]-F[-FX]+X"));
    ls.add_rule(ProductionRule::new('F', "FF"));
    let result = ls.iterate(1);
    assert_eq!(result, "F+[[X]-X]-F[-FX]+X");
    let result2 = ls.iterate(2);
    assert!(result2.len() > result.len());
    assert!(result2.contains('['));
    assert!(result2.contains(']'));
}

#[test]
fn test_dragon_curve() {
    let mut ls = LSystem::new("FX");
    ls.add_rule(ProductionRule::new('X', "X+YF+"));
    ls.add_rule(ProductionRule::new('Y', "-FX-Y"));
    let gen1 = ls.iterate(1);
    assert_eq!(gen1, "FX+YF+");
}

#[test]
fn test_symbol_counts() {
    let ls = LSystem::new("AAB");
    let counts = ls.symbol_counts("AABBC");
    assert_eq!(counts[&('A' as u32)], 2);
    assert_eq!(counts[&('B' as u32)], 2);
    assert_eq!(counts[&('C' as u32)], 1);
}

#[test]
fn test_exponential_growth() {
    let mut ls = LSystem::new("F");
    ls.add_rule(ProductionRule::new('F', "FFF"));
    assert_eq!(ls.iterate(0).len(), 1);
    assert_eq!(ls.iterate(1).len(), 3);
    assert_eq!(ls.iterate(2).len(), 9);
    assert_eq!(ls.iterate(3).len(), 27);
}

#[test]
fn test_cantor_set() {
    let mut ls = LSystem::new("A");
    ls.add_rule(ProductionRule::new('A', "ABA"));
    ls.add_rule(ProductionRule::new('B', "BBB"));
    let gen1 = ls.iterate(1);
    assert_eq!(gen1, "ABA");
    let gen2 = ls.iterate(2);
    assert_eq!(gen2, "ABABBBABA");
}

#[test]
fn test_find_rule() {
    let mut ls = LSystem::new("A");
    ls.add_rule(ProductionRule::new('A', "AB"));
    ls.add_rule(ProductionRule::new('B', "A"));
    assert!(ls.find_rule('A').is_some());
    assert!(ls.find_rule('B').is_some());
    assert!(ls.find_rule('C').is_none());
}

#[test]
fn test_add_rule_str() {
    let mut ls = LSystem::new("F");
    ls.add_rule_str('F', "F+F");
    assert_eq!(ls.iterate(1), "F+F");
}

#[test]
fn test_rewrite_identity() {
    let mut ls = LSystem::new("XYZ");
    ls.add_rule(ProductionRule::new('X', "X"));
    assert_eq!(ls.rewrite("XYZ"), "XYZ");
}

#[test]
fn test_empty_axiom() {
    let mut ls = LSystem::new("");
    ls.add_rule(ProductionRule::new('F', "FF"));
    assert_eq!(ls.iterate(5), "");
}

#[test]
fn test_hilbert_curve() {
    let mut ls = LSystem::new("A");
    ls.add_rule(ProductionRule::new('A', "-BF+AFA+FB-"));
    ls.add_rule(ProductionRule::new('B', "+AF-BFB-FA+"));
    let gen1 = ls.iterate(1);
    assert_eq!(gen1, "-BF+AFA+FB-");
}

#[test]
fn first_matching_rule_wins() {
    let mut ls = LSystem::new("A");
    ls.add_rule(ProductionRule::new('A', "B"));
    ls.add_rule(ProductionRule::new('A', "C"));
    assert_eq!(ls.find_rule('A').unwrap().successor, "B");
    assert_eq!(ls.rewrite("AA"), "BB");
}

#[test]
fn rewrite_of_concatenation_is_concatenation_of_rewrites() {
    let mut ls = LSystem::new("");
    ls.add_rule(ProductionRule::new('A', "AB"));
    ls.add_rule(ProductionRule::new('B', "A"));
    let a = "ABBA";
    let b = "BAA";
    let joined = format!("{a}{b}");
    assert_eq!(ls.rewrite(&joined), format!("{}{}", ls.rewrite(a), ls.rewrite(b)));
}

#[test]
fn iteration_composes() {
    let mut ls = LSystem::new("A");
    ls.add_rule(ProductionRule::new('A', "AB"));
    ls.add_rule(ProductionRule::new('B', "A"));
    let third = ls.iterate(3);
    let mut from_third = LSystem::new(&third);
    from_third.add_rule(ProductionRule::new('A', "AB"));
    from_third.add_rule(ProductionRule::new('B', "A"));
    assert_eq!(from_third.iterate(2), ls.iterate(5));
}

#[test]
fn fibonacci_words_concatenate() {
    let mut ls = LSystem::new("A");
    ls.add_rule(ProductionRule::new('A', "AB"));
    ls.add_rule(ProductionRule::new('B', "A"));
    let all = ls.iterate_all(8);
    for n in 0..7 {
        assert_eq!(all[n + 2], format!("{}{}", all[n + 1], all[n]));
    }
    let lengths: Vec<usize> = all.iter().map(|s| s.len()).collect();
    assert_eq!(lengths, vec![1, 2, 3, 5, 8, 13, 21, 34, 55]);
}

#[test]
fn single_symbol_growth_is_geometric() {
    let mut ls = LSystem::new("FF");
    ls.add_rule(ProductionRule::new('F', "FFF"));
    assert_eq!(ls.iterate(4), "F".repeat(2 * 81));
}

#[test]
fn non_erasing_rules_never_shrink() {
    let mut ls = LSystem::new("AB");
    ls.add_rule(ProductionRule::new('A', "B"));
    ls.add_rule(ProductionRule::new('B', "AC"));
    let all = ls.iterate_all(6);
    for n in 0..6 {
        assert!(all[n + 1].chars().count() >= all[n].chars().count());
    }
}

#[test]
fn erasing_rule_removes_symbols() {
    let mut ls = LSystem::new("ABA");
    ls.add_rule(ProductionRule::new('B', ""));
    assert_eq!(ls.iterate(1), "AA");
}

#[test]
fn iterate_leaves_system_unchanged() {
    let mut ls = LSystem::new("A");
    ls.add_rule(ProductionRule::new('A', "AB"));
    let _ = ls.iterate(3);
    assert_eq!(ls.initiator, "A");
    assert_eq!(ls.rules.len(), 1);
}

#[test]
fn estimate_length_counts_bytes() {
    let mut ls = LSystem::new("F");
    ls.add_rule(ProductionRule::new('F', "F+F"));
    assert_eq!(ls.estimate_length(0), 1);
    assert_eq!(ls.estimate_length(2), 7);
    let mut wide = LSystem::new("é");
    wide.add_rule(ProductionRule::new('é', "éé"));
    assert_eq!(wide.estimate_length(2), 8);
}

#[test]
fn symbol_counts_of_empty_string() {
    let ls = LSystem::new("A");
    let counts = ls.symbol_counts("");
    assert!(counts.is_empty());
    let counts = ls.symbol_counts("ééa");
    assert_eq!(counts.len(), 2);
    assert_eq!(counts[&('é' as u32)], 2);
    assert!(!counts.contains_key(&('b' as u32)));
}
