use jib::diagnostic::render;
use jib::lexer::Lexer;
use jib::parser::parse;

#[test]
fn diagnostic_with_line() {
    assert_eq!(
        render("src/app.jib", Some(12), "Syntax error"),
        "[src/app.jib:12] Syntax error"
    );
}

#[test]
fn diagnostic_without_line_makes_none_up() {
    assert_eq!(
        render("src/app.jib", None, "Unexpected end of file"),
        "[src/app.jib] Unexpected end of file"
    );
}

#[test]
fn line_numbers_are_written_in_decimal() {
    assert_eq!(render("", Some(0), ""), "[:0] ");
    assert_eq!(render("f", Some(7), "m"), "[f:7] m");
    assert_eq!(render("f", Some(10), "m"), "[f:10] m");
    assert_eq!(render("f", Some(1234567890), "m"), "[f:1234567890] m");
    assert_eq!(
        render("f", Some(usize::MAX), "m"),
        format!("[f:{}] m", usize::MAX)
    );
}

#[test]
fn diagnostic_of_a_failed_parse() {
    let mut lexer = Lexer::new().load_file("a.jib", "\n<p>".to_string());
    let (line, message) = parse(&mut lexer).unwrap_err();
    assert_eq!(
        render("a.jib", line, &message),
        "[a.jib:2] Expected a <template>, <style> or <script> block"
    );
}
