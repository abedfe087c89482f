use monokakido::dict::{dict_name_of_dir, parse_dict_name};
use monokakido::media::{ten_digit_decimal, MediaId};
use monokakido::Paths;

#[test]
fn dictionary_directory_names_are_recognized() {
    // The entries of a system directory holding two dictionaries and one
    // unrelated file.
    assert_eq!(
        parse_dict_name("jp.monokakido.Dictionaries.X"),
        Some(String::from("X"))
    );
    assert_eq!(
        parse_dict_name("jp.monokakido.Dictionaries.Y"),
        Some(String::from("Y"))
    );
    assert_eq!(parse_dict_name("unrelated.file"), None);
    assert_eq!(parse_dict_name("jp.monokakido.Dictionaries."), Some(String::from("")));
    assert_eq!(parse_dict_name("jp.monokakido"), None);
}

#[test]
fn paths_compose_the_documented_layout() {
    let p = Paths::new(
        String::from("/tmp/dict"),
        String::from("NAME"),
        String::from("Contents01"),
    );
    assert_eq!(p.name(), "NAME");
    assert_eq!(p.contents_path(), "/tmp/dict/Contents/Contents01");
    assert_eq!(p.key_path(), "/tmp/dict/Contents/Contents01/key");
    assert_eq!(
        p.headword_key_path(),
        "/tmp/dict/Contents/Contents01/key/headword.keystore"
    );
    assert_eq!(Paths::json_path("/tmp/dict", "NAME"), "/tmp/dict/Contents/NAME.json");
    assert_eq!(
        Paths::std_dict_path("X"),
        "/Library/Application Support/AppStoreContent/jp.monokakido.Dictionaries/Products/jp.monokakido.Dictionaries.X"
    );
}

#[test]
fn dictionary_name_comes_after_the_last_dot() {
    assert_eq!(
        dict_name_of_dir("jp.monokakido.Dictionaries.X"),
        Some(String::from("X"))
    );
    assert_eq!(dict_name_of_dir("NAME.product"), Some(String::from("product")));
    assert_eq!(dict_name_of_dir("trailing."), Some(String::from("")));
    assert_eq!(dict_name_of_dir("nodot"), None);
    assert_eq!(dict_name_of_dir(""), None);
}

#[test]
fn numeric_media_ids_render_as_ten_digits() {
    assert_eq!(ten_digit_decimal(0), "0000000000");
    assert_eq!(ten_digit_decimal(5), "0000000005");
    assert_eq!(ten_digit_decimal(1234567890), "1234567890");
    assert_eq!(ten_digit_decimal(u32::MAX), "4294967295");
    assert_eq!(MediaId::Num(300).text(), "0000000300");
    assert_eq!(MediaId::Str(String::from("jee")).text(), "jee");
}
