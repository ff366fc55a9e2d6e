use biggrep::{lines, run, search, search_case_insensitive, BigGrepArgs};

#[test]
fn case_sensitive() {
    let query = "dukt";
    let contents = "\
Rust:
sicher, schnell, produktiv.
PRODUKTION.";
    assert_eq!(vec!["sicher, schnell, produktiv."], search(query, contents));
}

#[test]
fn case_insensitive() {
    let query: &str = "rUsT";
    let contents = "\
Rust:
sicher, schnell, produktiv.
Nimm drei.
Trust me.";
    assert_eq!(
        vec!["Rust:", "Trust me."],
        search_case_insensitive(query, contents)
    );
}

#[test]
fn empty_query_keeps_every_line() {
    let expected = vec!["a", "b", "c"];
    assert_eq!(expected, search("", "a\nb\nc"));
    assert_eq!(expected, search_case_insensitive("", "a\nb\nc"));
}

#[test]
fn empty_query_keeps_empty_lines_too() {
    assert_eq!(vec!["", "x", ""], search("", "\nx\n\n"));
    assert_eq!(vec!["", "x", ""], search_case_insensitive("", "\nx\n\n"));
}

#[test]
fn empty_text_has_no_match() {
    assert_eq!(Vec::<&str>::new(), search("a", ""));
    assert_eq!(Vec::<&str>::new(), search("", ""));
    assert_eq!(Vec::<&str>::new(), search_case_insensitive("a", ""));
    assert_eq!(Vec::<&str>::new(), search_case_insensitive("", ""));
}

#[test]
fn case_sensitive_search_tells_cases_apart() {
    let contents = "Rust:\nTrust me.\nrUsT";
    assert_eq!(vec!["Trust me."], search("rust", contents));
    assert_eq!(vec!["rUsT"], search("rUsT", contents));
}

#[test]
fn case_insensitive_search_keeps_the_case_of_the_lines() {
    let contents = "PRODUKTION.\nproduktiv\nNichts";
    assert_eq!(
        vec!["PRODUKTION.", "produktiv"],
        search_case_insensitive("Produkt", contents)
    );
}

#[test]
fn matching_is_by_substring_not_by_word() {
    assert_eq!(vec!["xabcx", "abc"], search("abc", "xabcx\nab c\nabc\nacb"));
}

#[test]
fn a_query_longer_than_the_line_does_not_match() {
    assert_eq!(Vec::<&str>::new(), search("abcd", "abc\nbcd"));
}

#[test]
fn a_query_at_the_end_of_a_line_matches() {
    assert_eq!(vec!["xxab"], search("ab", "xxab\nxxa"));
}

#[test]
fn a_query_does_not_match_across_lines() {
    assert_eq!(Vec::<&str>::new(), search("a\nb", "a\nb"));
    assert_eq!(Vec::<&str>::new(), search("ab", "a\nb"));
}

#[test]
fn text_beyond_ascii_is_matched_by_characters() {
    let contents = "Größe\nGrösse\nnaïve café\n日本語のテキスト\n😀 smile";
    assert_eq!(vec!["Größe"], search("öß", contents));
    assert_eq!(vec!["日本語のテキスト"], search("本語", contents));
    assert_eq!(vec!["😀 smile"], search("😀", contents));
    assert_eq!(vec!["naïve café"], search("é", contents));
}

#[test]
fn case_insensitive_search_folds_letters_beyond_ascii() {
    let contents = "ÄRGER\närger\nArger";
    assert_eq!(vec!["ÄRGER", "ärger"], search_case_insensitive("Ärg", contents));
    assert_eq!(Vec::<&str>::new(), search("Ärg", contents));
}

#[test]
fn found_lines_hold_the_query() {
    let contents = "one\ntwo\nthree\nfour\ntwenty one";
    let found = search("on", contents);
    assert_eq!(vec!["one", "twenty one"], found);
    for line in found {
        assert!(line.contains("on"));
    }
    let folded = search_case_insensitive("ON", contents);
    assert_eq!(vec!["one", "twenty one"], folded);
    for line in folded {
        assert!(line.to_lowercase().contains("on"));
    }
}

#[test]
fn found_lines_keep_the_order_of_the_text() {
    let contents = "b1\na\nb2\nb3\na\nb4";
    assert_eq!(vec!["b1", "b2", "b3", "b4"], search("b", contents));
    assert_eq!(vec!["a", "a"], search("a", contents));
}

#[test]
fn found_lines_are_slices_of_the_text() {
    let contents = String::from("first\nsecond\nthird");
    let found = search("second", &contents);
    assert_eq!(1, found.len());
    let start = found[0].as_ptr() as usize - contents.as_ptr() as usize;
    assert_eq!(6, start);
    assert_eq!("second", &contents[start..start + found[0].len()]);
}

#[test]
fn searching_twice_gives_the_same_lines() {
    let contents = "Rust:\nsicher, schnell, produktiv.\nTrust me.";
    assert_eq!(search("us", contents), search("us", contents));
    assert_eq!(
        search_case_insensitive("US", contents),
        search_case_insensitive("US", contents)
    );
}

#[test]
fn searching_the_found_lines_again_keeps_them() {
    let contents = "alpha\nbeta\ngamma\ndelta";
    let found = search("lt", contents);
    assert_eq!(vec!["delta"], found);
    let joined = found.join("\n");
    assert_eq!(found, search("lt", &joined));
}

#[test]
fn run_follows_the_case_flag() {
    let contents = "Rust:\nsicher, schnell, produktiv.\nNimm drei.\nTrust me.";
    let exact = BigGrepArgs::new(String::from("rUsT"), None, true);
    assert_eq!(Vec::<&str>::new(), run(&exact, contents));
    let folded = BigGrepArgs::new(String::from("rUsT"), None, false);
    assert_eq!(vec!["Rust:", "Trust me."], run(&folded, contents));
    let exact_hit = BigGrepArgs::new(String::from("dukt"), None, true);
    assert_eq!(vec!["sicher, schnell, produktiv."], run(&exact_hit, contents));
}

#[test]
fn run_with_empty_query_gives_all_lines() {
    let exact = BigGrepArgs::new(String::new(), None, true);
    let folded = BigGrepArgs::new(String::new(), None, false);
    assert_eq!(vec!["a", "b", "c"], run(&exact, "a\nb\nc"));
    assert_eq!(vec!["a", "b", "c"], run(&folded, "a\nb\nc"));
}

#[test]
fn lines_splits_at_line_feeds() {
    assert_eq!(vec!["a", "b", "c"], lines("a\nb\nc"));
    assert_eq!(Vec::<&str>::new(), lines(""));
    assert_eq!(vec![""], lines("\n"));
    assert_eq!(vec!["a"], lines("a\n"));
    assert_eq!(vec!["a", ""], lines("a\n\n"));
    assert_eq!(vec!["", "a"], lines("\na"));
}

#[test]
fn lines_takes_a_carriage_return_off_before_a_line_feed() {
    assert_eq!(vec!["a", "b"], lines("a\r\nb\r\n"));
    assert_eq!(vec!["a\r", "b"], lines("a\r\r\nb"));
    assert_eq!(vec!["a\rb"], lines("a\rb"));
    assert_eq!(vec!["a", "b\r"], lines("a\nb\r"));
    assert_eq!(vec!["", ""], lines("\r\n\r\n"));
}

#[test]
fn lines_agrees_with_the_standard_library() {
    let pieces = ["", "a", "\n", "\r", "\r\n", "é", "日本", "x y", "\n\n", "\r\r", "😀"];
    for a in pieces {
        for b in pieces {
            for c in pieces {
                for d in pieces {
                    let text = format!("{a}{b}{c}{d}");
                    let expected: Vec<&str> = text.lines().collect();
                    assert_eq!(expected, lines(&text), "text {text:?}");
                }
            }
        }
    }
}

#[test]
fn search_agrees_with_the_standard_library() {
    let texts = ["ab\nba\naab\r\nbab\n", "é\née\neé\n\ne", "😀a\na😀\n😀", "AbC\nabc\nABC\nxbcx"];
    let queries = ["", "a", "b", "ab", "ba", "é", "e", "😀", "bc", "BC", "\r", "abcabc"];
    for text in texts {
        for query in queries {
            let exact: Vec<&str> = text.lines().filter(|line| line.contains(query)).collect();
            assert_eq!(exact, search(query, text), "query {query:?} in {text:?}");
            let folded: Vec<&str> = text
                .lines()
                .filter(|line| line.to_lowercase().contains(query.to_lowercase().as_str()))
                .collect();
            let found = search_case_insensitive(query, text);
            assert_eq!(folded, found, "query {query:?} in {text:?}");
        }
    }
}
