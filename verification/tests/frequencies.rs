use wordgrep::freq::CharFreq;
use wordgrep::freq_file::render_line;

#[test]
fn char_freq_test() {
    let mut char_freq = CharFreq::new();

    char_freq.add_char('a');
    char_freq.add_char('a');
    char_freq.add_char('b');
    char_freq.add_char('c');
    char_freq.add_char('\n');
    char_freq.add_char('-');
    assert_eq!(
        char_freq
            .to_vec()
            .into_iter()
            .filter(|(_, count)| *count > 0)
            .collect::<Vec<(char, usize)>>(),
        vec![('a', 2), ('b', 1), ('c', 1),]
    );
}

#[test]
fn ranked_listing_order() {
    let mut char_freq = CharFreq::new();
    char_freq.add_char('z');
    char_freq.add_char('a');
    // equal counts: the earlier letter ranks first
    let listing = char_freq.to_vec();
    assert_eq!(listing.len(), 26);
    assert_eq!(listing[0], ('a', 1));
    assert_eq!(listing[1], ('z', 1));
    assert_eq!(listing[2], ('b', 0));
    assert_eq!(listing[25], ('y', 0));
}

#[test]
fn add_char_folds_case_and_skips_others() {
    let mut char_freq = CharFreq::new();
    char_freq.add_char('A');
    char_freq.add_char('a');
    char_freq.add_char('7');
    char_freq.add_char(' ');
    char_freq.add_char('é');
    assert_eq!(char_freq.get_freq('a'), 2);
    assert_eq!(char_freq.get_freq('A'), 2);
    assert_eq!(char_freq.get_freq('b'), 0);
    assert_eq!(char_freq.get_freq('-'), 0);
}

#[test]
fn corpus_scan_counts_letters() {
    let char_freq = CharFreq::from_corpus("Hello, world!\nBye.");
    assert_eq!(char_freq.get_freq('l'), 3);
    assert_eq!(char_freq.get_freq('o'), 2);
    assert_eq!(char_freq.get_freq('h'), 1);
    assert_eq!(char_freq.get_freq('b'), 1);
    assert_eq!(char_freq.get_freq('e'), 2);
    assert_eq!(char_freq.get_freq(','), 0);
}

#[test]
fn render_line_format() {
    assert_eq!(render_line('a', 0), "a:0".to_string());
    assert_eq!(render_line('z', 123), "z:123".to_string());
    assert_eq!(render_line('q', 10), "q:10".to_string());
}

#[test]
fn load_skips_malformed_lines() {
    let mut char_freq = CharFreq::new();
    char_freq.load_line("a:3");
    char_freq.load_line("b:x");
    char_freq.load_line(":4");
    char_freq.load_line("C:5");
    char_freq.load_line("d:2 ");
    char_freq.load_line("e:");
    char_freq.load_line("ff:1");
    assert_eq!(char_freq.get_freq('a'), 3);
    assert_eq!(char_freq.get_freq('b'), 0);
    assert_eq!(char_freq.get_freq('c'), 0);
    assert_eq!(char_freq.get_freq('d'), 0);
    assert_eq!(char_freq.get_freq('e'), 0);
    assert_eq!(char_freq.get_freq('f'), 0);
}

#[test]
fn load_overwrites_not_accumulates() {
    let mut char_freq = CharFreq::new();
    char_freq.add_char('a');
    char_freq.load_line("a:7");
    assert_eq!(char_freq.get_freq('a'), 7);
    char_freq.load_line("a:2");
    assert_eq!(char_freq.get_freq('a'), 2);
}

#[test]
fn absent_letters_keep_prior_value() {
    let mut char_freq = CharFreq::new();
    char_freq.add_char('q');
    char_freq.add_char('q');
    char_freq.load_lines(&vec!["a:5".to_string()]);
    assert_eq!(char_freq.get_freq('a'), 5);
    // 'q' was not mentioned in the file: its prior count stays
    assert_eq!(char_freq.get_freq('q'), 2);
}

#[test]
fn save_and_reload_round_trip() {
    let mut char_freq = CharFreq::new();
    for c in "the quick brown fox jumps over the lazy dog".chars() {
        char_freq.add_char(c);
    }
    let lines = char_freq.save_lines();
    assert_eq!(lines.len(), 26);
    let reloaded = CharFreq::from_lines(&lines);
    let mut letter = 'a' as u32;
    while letter <= 'z' as u32 {
        let c = char::from_u32(letter).unwrap();
        assert_eq!(reloaded.get_freq(c), char_freq.get_freq(c));
        letter += 1;
    }
}
