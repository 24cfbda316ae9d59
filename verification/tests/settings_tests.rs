use labyrinth::settings::Difficulty;
use labyrinth::settings::Settings;
use labyrinth::settings::parse_words;

#[test]
fn test_parse_words_plain() {
    let words = parse_words("cat\ndog\nmaze");
    assert_eq!(words, vec!["cat".to_string(), "dog".to_string(), "maze".to_string()]);
}

#[test]
fn test_parse_words_trailing_newline() {
    let words = parse_words("cat\ndog\n");
    assert_eq!(words, vec!["cat".to_string(), "dog".to_string()]);
}

#[test]
fn test_parse_words_carriage_returns() {
    let words = parse_words("cat\r\ndog\r");
    // a carriage return is stripped only when a line feed follows it
    assert_eq!(words, vec!["cat".to_string(), "dog\r".to_string()]);
}

#[test]
fn test_parse_words_empty_lines() {
    assert_eq!(parse_words(""), Vec::<String>::new());
    assert_eq!(parse_words("\n"), vec!["".to_string()]);
    assert_eq!(parse_words("a\n\nb"), vec!["a".to_string(), "".to_string(), "b".to_string()]);
}

#[test]
fn test_difficulty_presets() {
    let words = vec!["one".to_string()];
    let easy = Settings::new(Difficulty::Easy, words.clone());
    assert_eq!(
        (easy.height, easy.width, easy.steps, easy.word_prob_permille, easy.wall_nodes,
        easy.nb_power_ups),
        (10, 10, 10, 1000, 3, 10),
    );
    let normal = Settings::new(Difficulty::Normal, words.clone());
    assert_eq!(
        (normal.height, normal.width, normal.steps, normal.word_prob_permille, normal.wall_nodes,
        normal.nb_power_ups),
        (50, 50, 20, 1000, 10, 40),
    );
    let hard = Settings::new(Difficulty::Hard, words.clone());
    assert_eq!(
        (hard.height, hard.width, hard.steps, hard.word_prob_permille, hard.wall_nodes,
        hard.nb_power_ups),
        (80, 80, 20, 900, 20, 50),
    );
    assert_eq!(easy.words, words);
    assert_eq!(easy.min_path_div, 3);
}

#[test]
fn test_default_difficulty() {
    assert_eq!(Difficulty::default(), Difficulty::Normal);
}

#[test]
fn test_overrides_replace_only_given_fields() {
    let base = Settings::new(Difficulty::Easy, vec!["one".to_string()]);
    let seed = base.seed;
    let s = base.with_overrides(Some(99), None, Some(12), None);
    assert_eq!(s.steps, 99);
    assert_eq!(s.height, 10);
    assert_eq!(s.width, 12);
    assert_eq!(s.seed, seed);
    assert_eq!(s.nb_power_ups, 10);
}
