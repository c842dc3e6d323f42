use chappie::cmd::{ChapMod, Cli, UIType};
use chappie::error::ChapError;

fn cli(filepath: Option<&str>, insert: bool, hex: bool, vector: bool) -> Cli {
    Cli::new(
        filepath.map(|s| s.to_string()),
        "groq".to_string(),
        None,
        "key".to_string(),
        UIType::Full,
        false,
        insert,
        hex,
        vector,
        "no".to_string(),
        false,
    )
}

#[test]
fn cli_filepath_and_mode() {
    assert_eq!(cli(Some("a.txt"), false, false, false).get_filepath(), Ok("a.txt"));
    assert_eq!(cli(None, false, false, false).get_filepath(), Err(ChapError::NoFilePath));
    assert_eq!(cli(None, true, true, true).get_chap_mod(), ChapMod::Edit);
    assert_eq!(cli(None, false, true, true).get_chap_mod(), ChapMod::Hex);
    assert_eq!(cli(None, false, false, true).get_chap_mod(), ChapMod::Vector);
    assert_eq!(cli(None, false, false, false).get_chap_mod(), ChapMod::Text);
    let c = cli(None, false, false, false);
    assert_eq!(c.get_model(), "");
    assert_eq!(c.get_llm(), "groq");
    assert_eq!(c.get_api_key(), "key");
    assert_eq!(c.get_ui_type(), UIType::Full);
}

#[test]
fn error_messages() {
    assert_eq!(ChapError::NoFilePath.to_text(), "Please enter a file name, example: `chap file.txt`");
    assert_eq!(ChapError::FileNotFound("x".to_string()).to_text(), "File not found: x");
    assert_eq!(ChapError::from_message("boom").to_text(), "Unexpected: boom");
}
