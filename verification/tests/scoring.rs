use wordgrep::filter::Filter;
use wordgrep::freq::CharFreq;
use wordgrep::pipeline::grep_top_k;
use wordgrep::pipeline::grep_words;
use wordgrep::score::WordScore;
use wordgrep::select::RankedSelector;

fn small_freq() -> CharFreq {
    let mut char_freq = CharFreq::new();
    char_freq.add_char('a');
    char_freq.add_char('a');
    char_freq.add_char('a');
    char_freq.add_char('b');
    char_freq.add_char('c');
    char_freq
}

#[test]
fn word_score_test() {
    let char_freq = small_freq();
    let word_score = WordScore::new("aaaaaaabc".to_string(), &char_freq);
    assert_eq!(word_score.score, 3 + 1 + 1);
}

#[test]
fn word_score_order() {
    let mut heap = RankedSelector::new();

    let char_freq = small_freq();

    heap.push(WordScore::new("abc".to_string(), &char_freq));
    heap.push(WordScore::new("cba".to_string(), &char_freq));
    heap.push(WordScore::new("bcd".to_string(), &char_freq));

    let ws = heap.pop().unwrap();
    assert_eq!(ws.score, 5);
    assert_eq!(ws.word, "abc".to_string());
    let ws = heap.pop().unwrap();
    assert_eq!(ws.score, 5);
    assert_eq!(ws.word, "cba".to_string());
    let ws = heap.pop().unwrap();
    assert_eq!(ws.score, 2);
    assert_eq!(ws.word, "bcd".to_string());

    assert_eq!(heap.pop(), None);
}

#[test]
fn repeated_letters_count_once() {
    let char_freq = small_freq();
    // distinct letters a, b: 3 + 1; a repeated adds nothing
    assert_eq!(WordScore::calc_score("aab", &char_freq), 4);
    // all three letters: 3 + 1 + 1
    assert_eq!(WordScore::calc_score("abc", &char_freq), 5);
    // unknown letters score zero
    assert_eq!(WordScore::calc_score("xyz", &char_freq), 0);
    // case folds before scoring
    assert_eq!(WordScore::calc_score("AaB", &char_freq), 4);
    // non-letters contribute nothing
    assert_eq!(WordScore::calc_score("a-b!", &char_freq), 4);
}

#[test]
fn grep_keeps_accepted_lines_in_order() {
    let filter = Filter::new(vec!['a', 'b', 'c'], vec![], vec![]);
    let lines = vec![
        "WRITE".to_string(),
        "word".to_string(),
        "drive".to_string(),
        "audio".to_string(),
        "odd".to_string(),
        "their".to_string(),
    ];
    let got = grep_words(&lines, &filter);
    // candidates are folded to lower case before the filter sees them, and
    // kept in their original spelling
    assert_eq!(got, vec!["WRITE".to_string(), "drive".to_string(), "their".to_string()]);
}

#[test]
fn top_k_drains_highest_first() {
    let filter = Filter::new(vec![], vec![], vec![]);
    let char_freq = small_freq();
    let lines = vec![
        "bcbcb".to_string(),
        "aaaaa".to_string(),
        "bbbbb".to_string(),
        "xxxxx".to_string(),
    ];
    // scores: bcbcb = 2, aaaaa = 3, bbbbb = 1, xxxxx = 0
    let got = grep_top_k(&lines, &filter, &char_freq, 3);
    assert_eq!(
        got,
        vec!["aaaaa".to_string(), "bcbcb".to_string(), "bbbbb".to_string()]
    );
}

#[test]
fn top_k_tie_break_is_lexicographic() {
    let filter = Filter::new(vec![], vec![], vec![]);
    let char_freq = small_freq();
    // both score 3 + 1 + 1 = 5: the lexicographically earlier word first
    let lines = vec!["cbaxx".to_string(), "abcxx".to_string()];
    let got = grep_top_k(&lines, &filter, &char_freq, 2);
    assert_eq!(got, vec!["abcxx".to_string(), "cbaxx".to_string()]);
}

#[test]
fn top_k_bounds() {
    let filter = Filter::new(vec![], vec![], vec![]);
    let char_freq = small_freq();
    let lines = vec!["aaaaa".to_string(), "bbbbb".to_string()];
    // zero requested: nothing comes out
    assert_eq!(grep_top_k(&lines, &filter, &char_freq, 0).len(), 0);
    // more requested than collected: everything comes out
    let got = grep_top_k(&lines, &filter, &char_freq, 10);
    assert_eq!(got, vec!["aaaaa".to_string(), "bbbbb".to_string()]);
    // rejected candidates are never scored or emitted
    let strict = Filter::new(vec!['b'], vec![], vec![]);
    let got = grep_top_k(&lines, &strict, &char_freq, 10);
    assert_eq!(got, vec!["aaaaa".to_string()]);
}

#[test]
fn selector_reports_length() {
    let char_freq = small_freq();
    let mut sel = RankedSelector::new();
    assert_eq!(sel.len(), 0);
    sel.push(WordScore::new("abc".to_string(), &char_freq));
    sel.push(WordScore::new("abc".to_string(), &char_freq));
    assert_eq!(sel.len(), 2);
    let first = sel.pop().unwrap();
    let second = sel.pop().unwrap();
    assert_eq!(first, second);
    assert_eq!(sel.len(), 0);
}
