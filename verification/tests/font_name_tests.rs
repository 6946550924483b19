use itemizer::font_name::family_name_chars;

fn derive(name: &str) -> String {
    let chars: Vec<char> = name.chars().collect();
    family_name_chars(&chars).into_iter().collect()
}

#[test]
fn family_names_derive_from_file_names() {
    assert_eq!(derive("MyFamily-Regular.ttf"), "My Family");
    assert_eq!(derive("Roboto-Regular.ttf"), "Roboto");
    assert_eq!(derive("NotoSansJP.ttf"), "Noto Sans JP");
    assert_eq!(derive("Something-VF.ttf"), "Something");
    assert_eq!(derive("lowercase.otf"), "lowercase");
}

#[test]
fn short_names_survive_the_derivation() {
    assert_eq!(derive(".ttf"), "");
    assert_eq!(derive("ab"), "ab");
}
