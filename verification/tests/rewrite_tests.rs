use texflat::rewrite::replace_imports;

fn rw(line: &str) -> String {
    String::from_utf8(replace_imports(&line.as_bytes().to_vec())).unwrap()
}

#[test]
fn test_replace_imports_input() {
    let line = r"\input{content/background}";
    let expected = r"\input{content__background}";

    assert_eq!(rw(line), expected);
}

#[test]
fn test_replace_imports_include() {
    let line = r"\include{content/background}";
    let expected = r"\include{content__background}";

    assert_eq!(rw(line), expected);
}

#[test]
fn test_replace_imports_bibliography() {
    let line = r"\bibliography{bibliography/references}";
    let expected = r"\bibliography{bibliography__references}";

    assert_eq!(rw(line), expected);
}

#[test]
fn test_replace_imports_bibliography_custom() {
    let line = r"\bibliographyS{bibliography/references}";
    let expected = r"\bibliographyS{bibliography__references}";

    assert_eq!(rw(line), expected);
}

#[test]
fn test_replace_imports_includegraphics() {
    let line = r"\includegraphics{figures/search_process.pdf}";
    let expected = r"\includegraphics{figures__search_process.pdf}";

    assert_eq!(rw(line), expected);
}

#[test]
fn test_replace_imports_includegraphics_options() {
    let line = r"\includegraphics[width=0.8\linewidth]{figures/search_process.pdf}";
    let expected = r"\includegraphics[width=0.8\linewidth]{figures__search_process.pdf}";

    assert_eq!(rw(line), expected);
}

#[test]
fn test_replace_imports_bibliographystyle() {
    assert_eq!(rw(r"\bibliographystyle{x/y}"), r"\bibliographystyle{x__y}");
    assert_eq!(rw(r"\bibliography{x/y}"), r"\bibliography{x__y}");
}

#[test]
fn test_replace_imports_inputx_not_matched() {
    let line = r"\inputx{x/y}";
    assert_eq!(rw(line), line);
}

#[test]
fn test_replace_imports_non_match_invariance() {
    let line = r"plain text, a/b paths, \textbf{bold} and $math$";
    assert_eq!(rw(line), line);
}

#[test]
fn test_replace_imports_multiple_per_line() {
    let line = r"\input{a/b}\includegraphics{c/d.png}";
    let expected = r"\input{a__b}\includegraphics{c__d.png}";
    assert_eq!(rw(line), expected);
}

#[test]
fn test_replace_imports_delimiter_counts() {
    let out = rw(r"\input{one/two/three.tex}");
    let arg = &out[out.find('{').unwrap() + 1..out.find('}').unwrap()];
    assert_eq!(arg.matches("__").count(), 2);
    assert_eq!(arg.matches('/').count(), 0);
    assert_eq!(arg, "one__two__three.tex");
}

#[test]
fn test_replace_imports_empty_path() {
    let line = r"\input{}";
    assert_eq!(rw(line), line);
}

#[test]
fn test_replace_imports_brace_inside_path() {
    // the path span closes at the first `}`; a `{` inside it is kept
    assert_eq!(rw(r"\input{a/b{c}}"), r"\input{a__b{c}}");
}

#[test]
fn test_replace_imports_unclosed_is_untouched() {
    assert_eq!(rw(r"\input{a/b"), r"\input{a/b");
    assert_eq!(rw(r"\input[opt{a/b}"), r"\input[opt{a/b}");
}

#[test]
fn test_replace_imports_after_double_backslash() {
    assert_eq!(rw(r"\\input{a/b}"), r"\\input{a__b}");
}
