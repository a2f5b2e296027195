use psm::prompt::{ask_answer, ask_text};

#[test]
fn yes_no_answers() {
    assert!(ask_answer("y\n"));
    assert!(ask_answer("Y\n"));
    assert!(ask_answer("y\r\n"));
    assert!(ask_answer("Y\r\n"));
    assert!(ask_answer("y"));
    assert!(!ask_answer("n\n"));
    assert!(!ask_answer("yes\r\n"));
    assert!(!ask_answer("\n"));
    assert!(!ask_answer(""));
    // Only one line ending is removed.
    assert!(!ask_answer("y\n\n"));
}

#[test]
fn typed_text() {
    assert_eq!(ask_text("mail\r\n"), "mail");
    assert_eq!(ask_text("mail\n"), "mail");
    assert_eq!(ask_text("mail"), "mail");
    assert_eq!(ask_text("a\r"), "a\r");
    assert_eq!(ask_text("é\n"), "é");
    assert_eq!(ask_text(""), "");
    assert_eq!(ask_text("\r\n"), "");
}
