use blaze::digest::hash;

#[test]
fn hash_of_known_texts() {
    assert_eq!(hash(""), "d41d8cd98f00b204e9800998ecf8427e");
    assert_eq!(hash("abc"), "900150983cd24fb0d6963f7d28e17f72");
    assert_eq!(
        hash("The quick brown fox jumps over the lazy dog"),
        "9e107d9d372bb6826bd81d3542a419d6"
    );
    assert_eq!(hash("print('hi')\n"), "587de76529284d0daf8eb02b14b10712");
}

#[test]
fn hash_is_taken_over_the_utf8_bytes() {
    assert_eq!(hash("héllo wörld ✓\n"), "e7b95691f66cb51333f68fc4276cbf4b");
}

#[test]
fn hash_is_thirty_two_lowercase_hex_digits() {
    for text in ["", "a", "ab", "some longer text\nwith lines\n"] {
        let digest = hash(text);
        assert_eq!(digest.len(), 32);
        assert!(digest.chars().all(|c| c.is_ascii_digit() || ('a'..='f').contains(&c)));
    }
}

#[test]
fn hash_depends_on_the_text_alone() {
    assert_eq!(hash("same"), hash("same"));
    assert_ne!(hash("same"), hash("same "));
    assert_ne!(hash("abc"), "abc");
}
