use obsidian_cli::encoding::percent_encode_path;
use obsidian_cli::pathguard::{normalize_vault_path, PathError};

fn encoded(s: &str) -> String {
    percent_encode_path(s).into_iter().collect()
}

#[test]
fn path_encoding_escapes_the_path_set_and_non_ascii() {
    assert_eq!(
        encoded("a b\"#%<>?`{}中\u{7f}"),
        "a%20b%22%23%25%3C%3E%3F%60%7B%7D%E4%B8%AD%7F"
    );
    assert_eq!(encoded("Hermes-Gateway_(1).md"), "Hermes-Gateway_(1).md");
}

#[test]
fn decoding_undoes_encoding() {
    for s in ["plain", "with space", "100%", "中文 テキスト", "a%41", "#?`{}<>\""] {
        assert_eq!(normalize_vault_path(&encoded(s)).unwrap().as_str(), s);
    }
}

#[test]
fn decoding_keeps_invalid_escapes_and_refuses_bad_utf8() {
    assert_eq!(normalize_vault_path("100%").unwrap().as_str(), "100%");
    assert_eq!(normalize_vault_path("%zz%4").unwrap().as_str(), "%zz%4");
    assert_eq!(normalize_vault_path("%41%62").unwrap().as_str(), "Ab");
    assert_eq!(
        normalize_vault_path("%FF").unwrap_err(),
        PathError::InvalidEncoding
    );
}
