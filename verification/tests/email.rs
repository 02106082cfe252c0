use kime::email::{
    clean_email_body, closing, email_state, finished, head, kept_pieces, paragraphs,
    paragraphs_text, py, sentence_pieces, sentences, signature_at, signature_start, space,
    split_fused_lines, starts_new_sentence, strip, strip_disclaimer, take_line, Marks, MAX_CHARS,
};
use kime::json::Json;

#[test]
fn python_whitespace() {
    assert_eq!(py(r"^\s*[\s,]\S"), r"^[\s\x1c-\x1f]*[\s\x1c-\x1f,][^\s\x1c-\x1f]");
    assert_eq!(strip("\x1c a \u{3000}"), "a");
}

#[test]
fn sentence_split() {
    assert_eq!(sentences("A. B!  C? d e.\n\nF"), ["A.", "B!", "C?", "d e.", "F"]);
    assert_eq!(sentences("no stop "), ["no stop "]);
    assert_eq!(sentences("end. "), ["end.", ""]);
}

#[test]
fn quoted_history_and_signature() {
    let body = "Hi,\n\nPlease refund invoice 4411.\n\nThanks,\nAnna\n\nOn Mon, 3 Mar 2025 at 10:00, Bob <bob@x.com> wrote:\n> old";
    assert_eq!(clean_email_body(body, MAX_CHARS), "Hi,\n\nPlease refund invoice 4411.");
}

#[test]
fn an_attribution_over_two_lines_ends_the_message() {
    let body = "Please send the invoice.\n\nOn Tue, 3 Mar 2025, Bob Smith\n<bob@x.com> wrote:\n> old text";
    assert_eq!(clean_email_body(body, MAX_CHARS), "Please send the invoice.");
}

#[test]
fn forwarded_mail_and_footers_go() {
    let body = "See below.\n\n---- Original Message ----\nFrom: a@b.c\nold";
    assert_eq!(clean_email_body(body, MAX_CHARS), "See below.");
    let body = "Where is my parcel?\n\nSent from my iPhone";
    assert_eq!(clean_email_body(body, MAX_CHARS), "Where is my parcel?");
}

#[test]
fn blanks_shrink_and_long_bodies_are_cut() {
    assert_eq!(clean_email_body("a \t b", MAX_CHARS), "a b");
    assert_eq!(head("abcdef", 3), "abc");
    assert_eq!(head("ab", 3), "ab");
    assert!(clean_email_body(&"word ".repeat(2000), 100).chars().count() <= 100);
}

#[test]
fn whitespace_is_what_python_takes() {
    assert!(space('\u{1f}') && space('\u{3000}') && !space('a'));
    assert!(starts_new_sentence("The next one"));
    assert!(!starts_new_sentence("and so on"));
}

#[test]
fn disclaimers_are_taken_out() {
    let p = "Please call me. This email is confidential and intended only for the addressee.";
    assert_eq!(strip_disclaimer(p), "Please call me.");
    assert_eq!(strip_disclaimer("Please call me."), "Please call me.");
    assert_eq!(split_fused_lines("one\ntwo\n\nThree"), ["one two", "Three"]);
}

#[test]
fn a_state_has_the_subject_and_the_clean_body() {
    let extra = vec![("priority".to_string(), Json::Bool(true))];
    let s = email_state("Refund", "a \t b", Some("x@y.z"), true, &extra);
    let keys: Vec<&str> = s.iter().map(|(k, _)| k.as_str()).collect();
    assert!(keys.contains(&"subject") && keys.contains(&"body") && keys.contains(&"priority"));
    let body = s.iter().find(|(k, _)| k == "body").map(|(_, v)| v);
    assert_eq!(body, Some(&Json::Str("a b".to_string())));
}

fn strings(a: &[&str]) -> Vec<String> {
    a.iter().map(|s| (*s).to_string()).collect()
}

#[test]
fn a_line_is_taken_by_what_is_found_in_it() {
    let none = Marks { quote: false, header: false, tail: false, head: false };
    let all = Marks { quote: true, header: true, tail: true, head: true };
    // The first line is kept whatever is found in it, unless it is quoted.
    let mut lines = Vec::new();
    assert!(take_line(&mut lines, " > old", all));
    assert!(lines.is_empty());
    assert!(take_line(&mut lines, " a \x1f", all));
    assert!(take_line(&mut lines, "b", none));
    assert!(take_line(&mut lines, ">c", none));
    assert_eq!(lines, [" a", "b"]);
    for m in [Marks { quote: true, ..none }, Marks { header: true, ..none }] {
        assert!(!take_line(&mut lines, "d", Marks { head: true, ..m }));
        assert_eq!(lines, [" a", "b"]);
    }
    assert!(!take_line(&mut lines, "d", Marks { tail: true, ..none }));
    assert_eq!(lines, [" a", "b"]);
    assert!(!take_line(&mut lines, "d", Marks { tail: true, head: true, ..none }));
    assert_eq!(lines, [" a"]);
}

#[test]
fn a_signature_starts_at_the_first_sign_off() {
    assert_eq!((signature_start(0), signature_start(3), signature_start(10)), (1, 1, 2));
    assert_eq!((signature_start(20), signature_start(100)), (12, 60));
    assert_eq!(signature_at(10, &vec![false, true, true]), 3);
    assert_eq!(signature_at(10, &vec![false, false]), 10);
    assert_eq!(signature_at(0, &Vec::new()), 0);
    assert!(closing(40, true, false) && !closing(41, true, false));
    assert!(closing(60, false, true) && !closing(61, true, true) && !closing(5, false, false));
}

#[test]
fn disclaimers_are_cut_by_where_they_are_found() {
    let list = strings(&["Pay me.", "", "one\nTwo", "three\nFour"]);
    let got = sentence_pieces(&list, &vec![false, true, false, true]);
    assert_eq!(got, ["Pay me.", "one\nTwo", "three", "Four"]);
    assert_eq!(kept_pieces(&got, &vec![false, true, false, true]), "Pay me. three");
    assert_eq!(kept_pieces(&got, &vec![true; 4]), "");
}

#[test]
fn paragraphs_become_one_text() {
    assert_eq!(paragraphs("a\n\nb", Some(strings(&["a", "b"]))), ["a", "b"]);
    assert_eq!(paragraphs("a\n\nb", None), ["a\n\nb"]);
    assert_eq!(paragraphs_text(&strings(&[" a ", "\t", "b\nc\n"])), "a\n\nb\nc");
    let text = || "a  b".to_string();
    assert_eq!(finished(text(), Some("a b".to_string()), 2), "a ");
    assert_eq!(finished(text(), None, 9), "a  b");
}
