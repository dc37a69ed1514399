use wordgrep::filter::CharPosition;
use wordgrep::filter::Filter;
use wordgrep::parse::parse_char_position;
use wordgrep::parse::parse_different_positions;
use wordgrep::parse::parse_ignore_chars;

#[test]
fn filter_test() {
    let ignores = vec!['a', 'b', 'c'];
    let filter = Filter::new(ignores, vec![], vec![]);

    assert!(!filter.accept("word"));
    assert!(!filter.accept("audio"));
    assert!(filter.accept("write"));

    let ignores = vec!['a', 'b', 'c'];
    let char_positions = vec![
        CharPosition { letter: 'd', position: 0 },
        CharPosition { letter: 'e', position: 4 },
    ];
    let filter = Filter::new(ignores, char_positions, vec![]);
    assert!(!filter.accept("avoid"));
    assert!(!filter.accept("wheel"));
    assert!(!filter.accept("false"));
    assert!(!filter.accept("dirty"));
    assert!(filter.accept("drive"));

    let ignores = vec!['a', 'b', 'c'];
    let char_positions = vec![
        CharPosition { letter: 'd', position: 0 },
        CharPosition { letter: 'e', position: 4 },
    ];
    let different_char_positions = vec![CharPosition { letter: 'r', position: 1 }];
    let filter = Filter::new(ignores, char_positions, different_char_positions);
    assert!(!filter.accept("avoid"));
    assert!(!filter.accept("wheel"));
    assert!(!filter.accept("false"));
    assert!(!filter.accept("dirty"));
    assert!(!filter.accept("drive"));
    assert!(!filter.accept("dense"));
    assert!(filter.accept("doree"));
}

#[test]
fn wrong_length_always_rejected() {
    let filter = Filter::new(vec![], vec![], vec![]);
    assert!(!filter.accept(""));
    assert!(!filter.accept("abcd"));
    assert!(!filter.accept("abcdef"));
    assert!(filter.accept("abcde"));
}

#[test]
fn out_of_range_position_rejects() {
    let filter = Filter::new(vec![], vec![CharPosition { letter: 'x', position: 7 }], vec![]);
    assert!(!filter.accept("xxxxx"));
}

#[test]
fn parse_required_pattern() {
    let got = parse_char_position("d***e".to_string());
    assert_eq!(got.len(), 2);
    assert_eq!(got[0].letter, 'd');
    assert_eq!(got[0].position, 0);
    assert_eq!(got[1].letter, 'e');
    assert_eq!(got[1].position, 4);

    // a pattern of any other length contributes nothing
    assert_eq!(parse_char_position("d**e".to_string()).len(), 0);
    assert_eq!(parse_char_position("".to_string()).len(), 0);
    assert_eq!(parse_char_position("toolong".to_string()).len(), 0);

    // all wildcards: no constraints
    assert_eq!(parse_char_position("*****".to_string()).len(), 0);
}

#[test]
fn parse_ignore_characters() {
    let got = parse_ignore_chars("abca".to_string());
    assert_eq!(got, vec!['a', 'b', 'c', 'a']);
    assert_eq!(parse_ignore_chars("".to_string()).len(), 0);
}

#[test]
fn parse_wrong_position_patterns() {
    let got = parse_different_positions(vec![
        "*r***".to_string(),
        "bad".to_string(),
        "**s*t".to_string(),
    ]);
    assert_eq!(got.len(), 3);
    assert_eq!(got[0].letter, 'r');
    assert_eq!(got[0].position, 1);
    assert_eq!(got[1].letter, 's');
    assert_eq!(got[1].position, 2);
    assert_eq!(got[2].letter, 't');
    assert_eq!(got[2].position, 4);
}

#[test]
fn parsed_constraints_drive_filter() {
    let filter = Filter::new(
        parse_ignore_chars("abc".to_string()),
        parse_char_position("d***e".to_string()),
        parse_different_positions(vec!["*r***".to_string()]),
    );
    assert!(filter.accept("doree"));
    assert!(!filter.accept("drive"));
    assert!(!filter.accept("dense"));
}
