use biggrep::error::{exit_code, report, GrepError};
use biggrep::input::{choose_source, input_source, prompted_path, text_from_bytes, InputSource};
use biggrep::scan::{find_byte, occurs, stands_at};
use biggrep::BigGrepArgs;

#[test]
fn new_keeps_its_three_parts() {
    let args = BigGrepArgs::new(String::from("needle"), Some(String::from("hay.txt")), true);
    assert_eq!("needle", args.query);
    assert_eq!(Some(String::from("hay.txt")), args.file_path);
    assert!(args.case_sensitive);
    let plain = BigGrepArgs::new(String::new(), None, false);
    assert_eq!("", plain.query);
    assert_eq!(None, plain.file_path);
    assert!(!plain.case_sensitive);
}

#[test]
fn a_named_file_is_the_source() {
    let args = BigGrepArgs::new(String::from("q"), Some(String::from("poem.txt")), false);
    let expected = InputSource::File(String::from("poem.txt"));
    assert_eq!(expected, choose_source(&args, true));
    assert_eq!(expected, choose_source(&args, false));
    assert_eq!(expected, input_source(&args));
}

#[test]
fn without_a_file_the_terminal_decides() {
    let args = BigGrepArgs::new(String::from("q"), None, false);
    assert_eq!(InputSource::Prompt, choose_source(&args, true));
    assert_eq!(InputSource::Stdin, choose_source(&args, false));
    let chosen = input_source(&args);
    assert!(chosen == InputSource::Prompt || chosen == InputSource::Stdin);
}

#[test]
fn prompted_path_drops_the_line_ending() {
    assert_eq!("poem.txt", prompted_path("poem.txt\n"));
    assert_eq!("poem.txt", prompted_path("poem.txt\r\n"));
    assert_eq!("poem.txt", prompted_path("poem.txt  \t\n"));
    assert_eq!("poem.txt", prompted_path("poem.txt"));
    assert_eq!("my poem.txt", prompted_path("my poem.txt\n"));
    assert_eq!("", prompted_path("\n"));
    assert_eq!("", prompted_path(""));
}

#[test]
fn prompted_path_keeps_what_stands_in_front() {
    assert_eq!("  poem.txt", prompted_path("  poem.txt \n"));
}

#[test]
fn valid_bytes_are_text() {
    assert_eq!(Ok("a\nb"), text_from_bytes(b"a\nb"));
    assert_eq!(Ok(""), text_from_bytes(b""));
    assert_eq!(Ok("é😀"), text_from_bytes("é😀".as_bytes()));
}

#[test]
fn invalid_bytes_are_an_encoding_error() {
    assert_eq!(Err(GrepError::EncodingError), text_from_bytes(&[0x61, 0xff]));
    assert_eq!(Err(GrepError::EncodingError), text_from_bytes(&[0xc3]));
    assert_eq!(Err(GrepError::EncodingError), text_from_bytes(&[0x80]));
    assert_eq!(Err(GrepError::EncodingError), text_from_bytes(&[0xc0, 0x80]));
    assert_eq!(Err(GrepError::EncodingError), text_from_bytes(&[0xed, 0xa0, 0x80]));
    assert_eq!(Err(GrepError::EncodingError), text_from_bytes(&[0xf4, 0x90, 0x80, 0x80]));
}

#[test]
fn a_run_that_succeeded_exits_with_zero() {
    assert_eq!(0, exit_code(&Ok(())));
}

#[test]
fn a_run_that_failed_exits_with_one() {
    assert_eq!(1, exit_code(&Err(GrepError::NotFound)));
    assert_eq!(1, exit_code(&Err(GrepError::IoError)));
    assert_eq!(1, exit_code(&Err(GrepError::EncodingError)));
}

#[test]
fn each_error_has_its_own_message() {
    assert_eq!("file not found", GrepError::NotFound.describe());
    assert_eq!("reading the input failed", GrepError::IoError.describe());
    assert_eq!("the input is not valid UTF-8 text", GrepError::EncodingError.describe());
    assert_eq!("Anwendungsfehler: file not found", report(GrepError::NotFound));
    assert_eq!("Anwendungsfehler: reading the input failed", report(GrepError::IoError));
    assert_eq!(
        "Anwendungsfehler: the input is not valid UTF-8 text",
        report(GrepError::EncodingError)
    );
}

#[test]
fn find_byte_gives_the_first_position() {
    assert_eq!(1, find_byte(b"a\nb\n", b'\n'));
    assert_eq!(0, find_byte(b"\n", b'\n'));
    assert_eq!(3, find_byte(b"abc", b'\n'));
    assert_eq!(0, find_byte(b"", b'\n'));
}

#[test]
fn occurs_finds_a_run_of_bytes() {
    assert!(occurs(b"", b""));
    assert!(occurs(b"", b"abc"));
    assert!(occurs(b"abc", b"abc"));
    assert!(occurs(b"bc", b"abc"));
    assert!(occurs(b"aab", b"aaab"));
    assert!(!occurs(b"abcd", b"abc"));
    assert!(!occurs(b"ac", b"abc"));
    assert!(!occurs(b"a", b""));
}

#[test]
fn stands_at_looks_at_one_position() {
    assert!(stands_at(b"bc", b"abc", 1));
    assert!(!stands_at(b"bc", b"abc", 0));
    assert!(stands_at(b"", b"abc", 3));
}
