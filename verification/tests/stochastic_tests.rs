use l_system_rs::stochastic::{rewrite_with_choices, xorshift64, DEFAULT_SEED};

#[test]
fn xorshift_known_values() {
    assert_eq!(xorshift64(DEFAULT_SEED), 13289605635609);
    assert_eq!(xorshift64(13289605635609), 11245129090807876197);
    assert_eq!(xorshift64(42), 45454805674);
}

#[test]
fn xorshift_zero_is_fixed() {
    assert_eq!(xorshift64(0), 0);
    let mut x = 99u64;
    for _ in 0..1000 {
        x = xorshift64(x);
        assert_ne!(x, 0);
    }
}

#[test]
fn rewrite_applies_choices_per_symbol() {
    let choices = vec![Some("F+F".to_string()), None, Some("".to_string())];
    assert_eq!(rewrite_with_choices("F-G", &choices), "F+F-");
    // symbols beyond the choices are kept
    assert_eq!(rewrite_with_choices("FGH", &vec![Some("X".to_string())]), "XGH");
    assert_eq!(rewrite_with_choices("", &Vec::new()), "");
}
