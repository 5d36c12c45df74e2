use protean::pokemon::extract_pokemon_name;
use protean::text::is_white_space_char;

#[test]
fn extracts_name_after_marker() {
    assert_eq!(extract_pokemon_name("VS. Wild PIDGEY"), Some("PIDGEY".to_string()));
}

#[test]
fn marker_matches_in_any_case() {
    assert_eq!(extract_pokemon_name("vs. wild Rattata appeared"), Some("Rattata".to_string()));
    assert_eq!(extract_pokemon_name("Vs. WiLd Zubat"), Some("Zubat".to_string()));
}

#[test]
fn text_before_marker_is_skipped() {
    assert_eq!(extract_pokemon_name("foo bar VS. WILD  Caterpie! more"), Some("Caterpie!".to_string()));
}

#[test]
fn no_marker_gives_nothing() {
    assert_eq!(extract_pokemon_name(""), None);
    assert_eq!(extract_pokemon_name("A wild PIDGEY appeared"), None);
    assert_eq!(extract_pokemon_name("VS. WIL"), None);
}

#[test]
fn marker_without_token_gives_nothing() {
    assert_eq!(extract_pokemon_name("VS. Wild"), None);
    assert_eq!(extract_pokemon_name("VS. Wild   \t "), None);
}

#[test]
fn first_marker_decides() {
    assert_eq!(extract_pokemon_name("VS. Wild Pidgey VS. Wild Rattata"), Some("Pidgey".to_string()));
    assert_eq!(extract_pokemon_name("VS. Wild   VS. Wild Rattata"), Some("VS.".to_string()));
}

#[test]
fn token_directly_after_marker() {
    assert_eq!(extract_pokemon_name("VS. WILDPIDGEY"), Some("PIDGEY".to_string()));
}

#[test]
fn non_ascii_text_before_marker() {
    assert_eq!(extract_pokemon_name("éé VS. Wild Ñandu x"), Some("Ñandu".to_string()));
}

#[test]
fn unicode_white_space_ends_token() {
    assert_eq!(extract_pokemon_name("VS. Wild\u{3000}Eevee\u{00A0}lv5"), Some("Eevee".to_string()));
    assert!(is_white_space_char('\u{2028}'));
    assert!(!is_white_space_char('a'));
    assert!(!is_white_space_char('\u{200B}'));
}
