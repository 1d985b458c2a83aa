use exergon_core::cli::{parse_balance_args, parse_difficulty, parse_target, parse_u64, BalanceArgsError, DEFAULT_SEEDS};
use exergon_core::scenario::{DifficultyTier, Target};

#[test]
fn difficulty_names_ignore_case() {
    assert!(matches!(parse_difficulty("initiation"), Ok(DifficultyTier::Initiation)));
    assert!(matches!(parse_difficulty("Standard"), Ok(DifficultyTier::Standard)));
    assert!(matches!(parse_difficulty("ADVANCED"), Ok(DifficultyTier::Advanced)));
    assert!(matches!(parse_difficulty("pInNaClE"), Ok(DifficultyTier::Pinnacle)));
}

#[test]
fn unknown_difficulty_is_quoted_in_lower_case() {
    match parse_difficulty("Hard") {
        Err(e) => assert_eq!(e, "unknown difficulty `hard` (expected initiation | standard | advanced | pinnacle)"),
        Ok(_) => panic!("expected an error"),
    }
}

#[test]
fn target_kinds() {
    assert!(matches!(parse_target("item", "circuit_board"), Ok(Target::Item(ref s)) if s == "circuit_board"));
    assert!(matches!(parse_target("node", "ore_crusher"), Ok(Target::Node(ref s)) if s == "ore_crusher"));
    assert!(matches!(parse_target("recipe", "smelt_iron"), Ok(Target::Recipe(ref s)) if s == "smelt_iron"));
    match parse_target("Item", "x") {
        Err(e) => assert_eq!(e, "unknown target kind `Item` (expected item | node | recipe)"),
        Ok(_) => panic!("kinds are exact"),
    }
}

#[test]
fn parse_u64_agrees_with_std() {
    for s in ["0", "8", "+12", "007", "18446744073709551615", "18446744073709551616", "", "+", "-1", "1_0", " 1", "12a", "99999999999999999999"] {
        assert_eq!(parse_u64(s), s.parse::<u64>().ok(), "input {s:?}");
    }
}

fn args(v: &[&str]) -> Vec<String> {
    v.iter().map(|s| s.to_string()).collect()
}

#[test]
fn balance_args_path_and_default_seeds() {
    assert_eq!(parse_balance_args(&args(&["s.ron"])), Ok(("s.ron".to_string(), DEFAULT_SEEDS)));
    assert_eq!(DEFAULT_SEEDS, 8);
}

#[test]
fn balance_args_seeds_either_side() {
    assert_eq!(parse_balance_args(&args(&["--seeds", "3", "s.ron"])), Ok(("s.ron".to_string(), 3)));
    assert_eq!(parse_balance_args(&args(&["s.ron", "--seeds", "12"])), Ok(("s.ron".to_string(), 12)));
}

#[test]
fn balance_args_errors() {
    assert_eq!(parse_balance_args(&args(&["s.ron", "--seeds", "0"])), Err(BalanceArgsError::BadSeeds));
    assert_eq!(parse_balance_args(&args(&["s.ron", "--seeds"])), Err(BalanceArgsError::BadSeeds));
    assert_eq!(parse_balance_args(&args(&["s.ron", "--seeds", "x"])), Err(BalanceArgsError::BadSeeds));
    assert_eq!(parse_balance_args(&args(&["a.ron", "b.ron"])), Err(BalanceArgsError::Unexpected("b.ron".to_string())));
    assert_eq!(parse_balance_args(&args(&[])), Err(BalanceArgsError::MissingPath));
    assert_eq!(parse_balance_args(&args(&["--seeds", "4"])), Err(BalanceArgsError::MissingPath));
}
