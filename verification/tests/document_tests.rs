use texflat::rewrite::{process_content, rewrite_document};

fn doc(content: &str) -> String {
    String::from_utf8(rewrite_document(&content.as_bytes().to_vec())).unwrap()
}

#[test]
fn test_rewrite_document_multiline() {
    let content = "intro text\n\\input{content/background}\nclosing\n";
    let expected = "intro text\n\\input{content__background}\nclosing";
    assert_eq!(doc(content), expected);
}

#[test]
fn test_rewrite_document_no_trailing_newline() {
    let content = "\\input{a/b}\nlast line";
    let expected = "\\input{a__b}\nlast line";
    assert_eq!(doc(content), expected);
}

#[test]
fn test_rewrite_document_crlf() {
    let content = "\\input{a/b}\r\nnext";
    let expected = "\\input{a__b}\nnext";
    assert_eq!(doc(content), expected);
}

#[test]
fn test_rewrite_document_empty() {
    assert_eq!(doc(""), "");
}

#[test]
fn test_rewrite_document_lone_trailing_cr_kept() {
    // a final `\r` not followed by `\n` is not a line ending
    assert_eq!(doc("abc\r"), "abc\r");
}

#[test]
fn test_process_content_binary_passthrough() {
    let name = b"figures__chart.png".to_vec();
    let content: Vec<u8> = vec![0, 159, 146, 150, 10, 13, 10, 92, 255, 0];
    assert_eq!(process_content(&name, content.clone()), content);
}

#[test]
fn test_process_content_rewrites_tex() {
    let name = b"main.tex".to_vec();
    let content = b"\\include{content/background}\n".to_vec();
    assert_eq!(
        process_content(&name, content),
        b"\\include{content__background}".to_vec()
    );
}

#[test]
fn test_process_content_extension_is_case_sensitive() {
    let name = b"main.TEX".to_vec();
    let content = b"\\include{content/background}\n".to_vec();
    assert_eq!(process_content(&name, content.clone()), content);
}
