use isle::ident::gen_id;
use isle::ident::CHARSET;
use isle::ident::DEFAULT_LENGTH;

#[test]
fn charset_is_letters_and_digits() {
    assert_eq!(CHARSET.len(), 62);
    assert_eq!(
        CHARSET,
        "ABCDEFGHIJKLMNOPQRSTUVWXYZabcdefghijklmnopqrstuvwxyz0123456789"
    );
    assert_eq!(DEFAULT_LENGTH, 10);
}

#[test]
fn id_without_length_has_ten_characters() {
    let id = gen_id(None);
    assert_eq!(id.chars().count(), 10);
    assert!(id.chars().all(|c| CHARSET.contains(c)));
}

#[test]
fn id_has_the_length_asked_for() {
    assert_eq!(gen_id(Some(0)), String::new());
    assert_eq!(gen_id(Some(1)).chars().count(), 1);
    assert_eq!(gen_id(Some(37)).chars().count(), 37);
}

#[test]
fn every_character_is_of_the_charset() {
    let id = gen_id(Some(5000));
    assert_eq!(id.len(), 5000);
    assert!(id.chars().all(|c| c.is_ascii_alphanumeric()));
    assert!(id.chars().all(|c| CHARSET.contains(c)));
}

#[test]
fn ids_differ() {
    assert_ne!(gen_id(Some(32)), gen_id(Some(32)));
}
