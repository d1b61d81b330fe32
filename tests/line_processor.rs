use nessie::line_processor::{drop_stop_words, stop_words_from, tokens_of, LineProcessor};

fn strings(v: &[&str]) -> Vec<String> {
    v.iter().map(|s| s.to_string()).collect()
}

#[test]
fn process_transliterates_strips_lowers_and_filters() {
    let p = LineProcessor::new("the, a\nand".to_string()).unwrap();
    let got = p.process("Héllo, World! The   end and a café");
    assert_eq!(got, strings(&["hello", "world", "end", "cafe"]));
}

#[test]
fn process_keeps_underscores_and_digits() {
    let p = LineProcessor::new(String::new()).unwrap();
    assert_eq!(p.process("snake_case 42nd (alpha)"), strings(&["snake_case", "42nd", "alpha"]));
}

#[test]
fn empty_line_gives_no_tokens() {
    let p = LineProcessor::new("x".to_string()).unwrap();
    assert!(p.process("   \t ").is_empty());
}

#[test]
fn tokens_of_lowercases_and_splits() {
    let stop = stop_words_from("of");
    assert_eq!(
        tokens_of("  Tale OF two\tCities\n", &stop),
        strings(&["tale", "two", "cities"])
    );
}

#[test]
fn drop_stop_words_keeps_order() {
    let stop = stop_words_from("b d");
    let got = drop_stop_words(strings(&["a", "b", "c", "d", "a"]), &stop);
    assert_eq!(got, strings(&["a", "c", "a"]));
}

#[test]
fn stand_alone_th_reads_nth() {
    let p = LineProcessor::new(String::new()).unwrap();
    assert_eq!(
        p.process("The 5 TH day, the th."),
        strings(&["the", "5", "nth", "day", "the", "th"])
    );
}
