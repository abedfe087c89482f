use monokakido::key::to_katakana;

#[test]
fn test_to_katakana() {
    assert_eq!(to_katakana(""), "");
    assert_eq!(to_katakana("あ"), "ア");
    assert_eq!(to_katakana("ぁ"), "ァ");
    assert_eq!(to_katakana("ん"), "ン");
    assert_eq!(to_katakana("っ"), "ッ");
    assert_eq!(to_katakana("ア"), "ア");
    assert_eq!(to_katakana("ァ"), "ァ");
    assert_eq!(to_katakana("ン"), "ン");
    assert_eq!(to_katakana("ッ"), "ッ");
    assert_eq!(to_katakana("aアa"), "aアa");
    assert_eq!(to_katakana("aァa"), "aァa");
    assert_eq!(to_katakana("aンa"), "aンa");
    assert_eq!(to_katakana("aッa"), "aッa");
}

#[test]
fn fold_moves_every_hiragana_up_by_0x60() {
    let mut c: u32 = 0x3041;
    while c <= 0x3093 {
        let h = char::from_u32(c).unwrap();
        let folded = to_katakana(&h.to_string());
        let k: Vec<char> = folded.chars().collect();
        assert_eq!(k.len(), 1);
        assert_eq!(k[0] as u32, c + 0x60);
        c += 1;
    }
}

#[test]
fn fold_leaves_neighbours_of_the_range_alone() {
    for c in [0x3040u32, 0x3094, 0x30A2, 0x61, 0x30F3] {
        let ch = char::from_u32(c).unwrap();
        let folded = to_katakana(&ch.to_string());
        let k: Vec<char> = folded.chars().collect();
        assert_eq!(k.len(), 1);
        assert_eq!(k[0] as u32, c);
    }
}

#[test]
fn fold_preserves_length_in_code_points() {
    let mixed = "あkッん9ぁ";
    let folded = to_katakana(mixed);
    assert_eq!(folded.chars().count(), mixed.chars().count());
    assert_eq!(folded, "アkッン9ァ");
}
