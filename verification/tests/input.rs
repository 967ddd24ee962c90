use sshdconfig::input::{select_input, InputSource};

fn s(text: &str) -> Option<String> {
    Some(text.to_string())
}

#[test]
fn select_input_path_comes_first() {
    assert_eq!(select_input(s("p"), s("j"), s("t")), InputSource::Path("p".to_string()));
    assert_eq!(select_input(s("p"), None, None), InputSource::Path("p".to_string()));
}

#[test]
fn select_input_inline_comes_before_standard_input() {
    assert_eq!(select_input(None, s("j"), s("t")), InputSource::Inline("j".to_string()));
    assert_eq!(select_input(None, s("j"), None), InputSource::Inline("j".to_string()));
}

#[test]
fn select_input_standard_input_comes_last() {
    assert_eq!(select_input(None, None, s("t")), InputSource::Piped("t".to_string()));
    assert_eq!(select_input(None, None, None), InputSource::Missing);
}
