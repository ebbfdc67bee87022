use sshmark::bookmark::{Bookmark, EmbeddedNul};
use sshmark::words::split_words;

fn owned(v: &[&str]) -> Vec<String> {
    v.iter().map(|s| s.to_string()).collect()
}

fn cstr(s: &str) -> Vec<u8> {
    let mut b = s.as_bytes().to_vec();
    b.push(0);
    b
}

#[test]
fn test_into_cmd() {
    let b = Bookmark {
        addr: "user@dev".to_string(),
        args: Some(vec!["-i".to_string(), "~/.ssh/id_rsa".to_string()]),
    };
    let cmd = b.into_cmd();
    assert!(cmd.is_ok());
    assert_eq!(
        cmd.unwrap(),
        vec![cstr("-i"), cstr("~/.ssh/id_rsa"), cstr("user@dev")]
    );
}

#[test]
fn into_cmd_without_args_is_the_address_alone() {
    let b = Bookmark { addr: "user@dev".to_string(), args: None };
    assert_eq!(b.into_cmd().unwrap(), vec![cstr("user@dev")]);
}

#[test]
fn into_cmd_with_empty_args_is_the_address_alone() {
    let b = Bookmark { addr: String::new(), args: Some(vec![]) };
    assert_eq!(b.into_cmd().unwrap(), vec![vec![0u8]]);
}

#[test]
fn into_cmd_keeps_multibyte_characters() {
    let b = Bookmark { addr: "jörg@höst".to_string(), args: None };
    assert_eq!(b.into_cmd().unwrap(), vec![cstr("jörg@höst")]);
}

#[test]
fn into_cmd_refuses_nul_in_address() {
    let b = Bookmark { addr: "user\0@dev".to_string(), args: Some(owned(&["-v"])) };
    assert_eq!(b.into_cmd(), Err(EmbeddedNul { index: 1 }));
}

#[test]
fn into_cmd_refuses_nul_in_an_argument() {
    let b = Bookmark {
        addr: "user@dev".to_string(),
        args: Some(owned(&["-p", "22\0", "-v\0"])),
    };
    assert_eq!(b.into_cmd(), Err(EmbeddedNul { index: 1 }));
}

#[test]
fn bookmark_text_without_args() {
    let b = Bookmark { addr: "user@dev".to_string(), args: None };
    assert_eq!(b.to_text(), "(addr: user@dev)");
}

#[test]
fn bookmark_text_with_args() {
    let b = Bookmark {
        addr: "user@dev".to_string(),
        args: Some(owned(&["-i", "~/.ssh/id_rsa"])),
    };
    assert_eq!(b.to_text(), "(addr: user@dev, args: [\"-i\", \"~/.ssh/id_rsa\"])");
}

#[test]
fn bookmark_text_with_empty_args() {
    let b = Bookmark { addr: String::new(), args: Some(vec![]) };
    assert_eq!(b.to_text(), "(addr: , args: [])");
}

#[test]
fn split_words_at_runs_of_whitespace() {
    assert_eq!(
        split_words("  -i ~/.ssh/id_rsa\t\t-p  2222\n"),
        owned(&["-i", "~/.ssh/id_rsa", "-p", "2222"])
    );
}

#[test]
fn split_words_of_blank_text() {
    assert_eq!(split_words(""), Vec::<String>::new());
    assert_eq!(split_words(" \t\r\n\x0C "), Vec::<String>::new());
}

#[test]
fn split_words_keeps_other_whitespace_inside_words() {
    assert_eq!(split_words("a\u{a0}b c\x0Bd"), owned(&["a\u{a0}b", "c\x0Bd"]));
}
