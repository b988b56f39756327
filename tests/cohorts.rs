use cg3::{from_string, to_cg3_string, Cohort, Reading};

fn line(s: &str) -> Vec<char> {
    s.chars().collect()
}

fn strs(v: &[String]) -> Vec<&str> {
    v.iter().map(|s| s.as_str()).collect()
}

#[test]
fn went_example_parses_and_writes_back() {
    let text = "\"<went>\"\n    \"go\" V PAST VFIN\n";
    let cs = from_string(text);
    assert_eq!(cs.len(), 1);
    assert_eq!(cs[0].word_form, "went");
    assert!(cs[0].tags.is_empty());
    assert_eq!(cs[0].readings.len(), 1);
    assert_eq!(cs[0].readings[0].base_form, "go");
    assert_eq!(strs(&cs[0].readings[0].tags), vec!["V", "PAST", "VFIN"]);
    assert_eq!(to_cg3_string(&cs), text);
}

#[test]
fn lone_header_without_readings() {
    let text = "\"<.>\"\n";
    let cs = from_string(text);
    assert_eq!(cs.len(), 1);
    assert_eq!(cs[0].word_form, ".");
    assert!(cs[0].tags.is_empty());
    assert!(cs[0].readings.is_empty());
    assert_eq!(to_cg3_string(&cs), text);
}

#[test]
fn empty_input_gives_nothing() {
    assert!(from_string("").is_empty());
    assert!(from_string("\n\n: x\nnoise\n").is_empty());
    assert_eq!(to_cg3_string(&[]), "");
}

#[test]
fn orphan_reading_is_dropped() {
    let cs = from_string("    \"go\" V\n\"<went>\"\n    \"go\" V PAST\n");
    assert_eq!(cs.len(), 1);
    assert_eq!(cs[0].readings.len(), 1);
    assert_eq!(strs(&cs[0].readings[0].tags), vec!["V", "PAST"]);
    let plain = from_string("\"<went>\"\n    \"go\" V PAST\n");
    assert_eq!(to_cg3_string(&cs), to_cg3_string(&plain));
}

#[test]
fn bare_lines_have_no_tags() {
    let cs = from_string("\"<a>\"\n\"<b>\" \n    \"x\"\n    \"y\" \n");
    assert_eq!(cs.len(), 2);
    assert!(cs[0].tags.is_empty());
    assert!(cs[1].tags.is_empty());
    assert_eq!(cs[1].readings.len(), 2);
    assert!(cs[1].readings[0].tags.is_empty());
    assert!(cs[1].readings[1].tags.is_empty());
}

#[test]
fn noise_lines_change_nothing() {
    let clean = "\"<a>\" T\n    \"a\" N\n    \"b\" V\n\"<c>\"\n";
    let noisy = ": rule\n\"<a>\" T\ngarbage\n    \"a\" N\n    : almost\n\n    \"b\" V\n: x\n\"<c>\"\nend\n";
    let a = from_string(clean);
    let b = from_string(noisy);
    assert_eq!(to_cg3_string(&b), clean);
    assert_eq!(to_cg3_string(&a), to_cg3_string(&b));
}

#[test]
fn readings_accumulate_in_order() {
    let cs = from_string("\"<w>\"\n    \"r1\" A\n    \"r2\" B\n    \"r3\" C\n    \"r4\" D\n");
    assert_eq!(cs.len(), 1);
    let bases: Vec<&str> = cs[0].readings.iter().map(|r| r.base_form.as_str()).collect();
    assert_eq!(bases, vec!["r1", "r2", "r3", "r4"]);
}

#[test]
fn nested_quote_stays_in_tags() {
    let cs = from_string("\"<same>\"\n    \"sáve\" N <spelled> \"<sáve>\" @SUBJ>\n");
    let r = &cs[0].readings[0];
    assert_eq!(r.base_form, "sáve");
    assert_eq!(strs(&r.tags), vec!["N", "<spelled>", "\"<sáve>\"", "@SUBJ>"]);
}

#[test]
fn quote_and_bracket_word_forms() {
    let cs = from_string("\"<\">\"\n    \"\"\" PUNCT\n\"<>>\"\n    \">\" LEFT\n");
    assert_eq!(cs.len(), 2);
    assert_eq!(cs[0].word_form, "\"");
    assert_eq!(cs[0].readings[0].base_form, "\"");
    assert_eq!(strs(&cs[0].readings[0].tags), vec!["PUNCT"]);
    assert_eq!(cs[1].word_form, ">");
    assert_eq!(cs[1].readings[0].base_form, ">");
}

#[test]
fn header_tags_are_split_on_single_spaces() {
    let cs = from_string("\"<They>\" TAG1  TAG2 \n");
    assert_eq!(strs(&cs[0].tags), vec!["TAG1", "", "TAG2", ""]);
}

#[test]
fn tab_separates_field_from_tags() {
    let cs = from_string("\"<a>\"\tX Y\n\t\"b\"\u{a0}Z\n");
    assert_eq!(strs(&cs[0].tags), vec!["X", "Y"]);
    assert_eq!(cs[0].readings[0].base_form, "b");
    assert_eq!(strs(&cs[0].readings[0].tags), vec!["Z"]);
}

#[test]
fn unclosed_field_is_noise() {
    let cs = from_string("\"<a>\"x\n\"<a>\"\n    \"b\"c\n    \"b\n");
    assert_eq!(cs.len(), 1);
    assert!(cs[0].readings.is_empty());
}

#[test]
fn crlf_line_endings() {
    let cs = from_string("\"<a>\" T\r\n    \"b\" V\r\n");
    assert_eq!(cs.len(), 1);
    assert_eq!(strs(&cs[0].tags), vec!["T"]);
    assert_eq!(strs(&cs[0].readings[0].tags), vec!["V"]);
}

#[test]
fn last_line_without_newline() {
    let cs = from_string("\"<a>\"\n    \"b\" V");
    assert_eq!(cs[0].readings.len(), 1);
    assert_eq!(to_cg3_string(&cs), "\"<a>\"\n    \"b\" V\n");
}

#[test]
fn cohort_to_string_writes_header_and_readings() {
    let c = Cohort {
        word_form: "x".to_string(),
        tags: vec!["A".to_string(), "B".to_string()],
        readings: vec![
            Reading { base_form: "y".to_string(), tags: vec![] },
            Reading { base_form: "z".to_string(), tags: vec!["C".to_string()] },
        ],
    };
    assert_eq!(c.to_string(), "\"<x>\" A B\n    \"y\"\n    \"z\" C\n");
    assert_eq!(to_cg3_string(&[c.clone(), c]), "\"<x>\" A B\n    \"y\"\n    \"z\" C\n\"<x>\" A B\n    \"y\"\n    \"z\" C\n");
}

#[test]
fn reparse_of_written_text_is_identical() {
    let text = "\"<a>\" T\n    \"a\" N SG\n\"<\">\"\n    \"\"\" PUNCT <W:0.0>\n";
    let once = from_string(text);
    let written = to_cg3_string(&once);
    let twice = from_string(&written);
    assert_eq!(written, text);
    assert_eq!(to_cg3_string(&twice), written);
    assert_eq!(once.len(), twice.len());
    for (a, b) in once.iter().zip(twice.iter()) {
        assert_eq!(a.word_form, b.word_form);
        assert_eq!(a.tags, b.tags);
        assert_eq!(a.readings.len(), b.readings.len());
    }
}

#[test]
fn header_line_classification() {
    let c = Cohort::from_line(&line("\"<They>\" TAG1 TAG2")).unwrap();
    assert_eq!(c.word_form, "They");
    assert_eq!(strs(&c.tags), vec!["TAG1", "TAG2"]);
    assert!(c.readings.is_empty());
    let lazy = Cohort::from_line(&line("\"<a>\" b>\"")).unwrap();
    assert_eq!(lazy.word_form, "a");
    assert_eq!(strs(&lazy.tags), vec!["b>\""]);
    assert!(Cohort::from_line(&line("    \"they\" PRON")).is_none());
    assert!(Cohort::from_line(&line(": \"<x>\"")).is_none());
    assert!(Cohort::from_line(&line("")).is_none());
}

#[test]
fn reading_line_classification() {
    let r = Reading::from_line(&line("    \"they\" <*> PRON")).unwrap();
    assert_eq!(r.base_form, "they");
    assert_eq!(strs(&r.tags), vec!["<*>", "PRON"]);
    assert!(Reading::from_line(&line("\"they\" PRON")).is_none());
    assert!(Reading::from_line(&line("\"<they>\"")).is_none());
    assert!(Reading::from_line(&line("    : almost a thing")).is_none());
    assert!(Reading::from_line(&line("    ")).is_none());
}

#[test]
fn two_spaces_before_tags_are_one_run() {
    let cs = from_string("\"<a>\"  X Y\n    \"b\"  V PAST\n");
    assert_eq!(cs.len(), 1);
    assert_eq!(strs(&cs[0].tags), vec!["X", "Y"]);
    assert_eq!(cs[0].readings[0].base_form, "b");
    assert_eq!(strs(&cs[0].readings[0].tags), vec!["V", "PAST"]);
}

#[test]
fn tab_and_space_before_tags_are_one_run() {
    let c = Cohort::from_line(&line("\"<a>\"\t X")).unwrap();
    assert_eq!(strs(&c.tags), vec!["X"]);
    let r = Reading::from_line(&line("    \"b\"\t V")).unwrap();
    assert_eq!(strs(&r.tags), vec!["V"]);
}

#[test]
fn only_white_space_after_field_gives_no_tags() {
    let cs = from_string("\"<a>\"  \n    \"b\" \t \n\"<\">\"\t\n");
    assert_eq!(cs.len(), 2);
    assert!(cs[0].tags.is_empty());
    assert!(cs[0].readings[0].tags.is_empty());
    assert_eq!(cs[1].word_form, "\"");
    assert!(cs[1].tags.is_empty());
}

#[test]
fn readings_with_noise_between_them() {
    let cs = from_string("\"<a>\"\n    \"x\" A\n: note\n    \"y\" B\n\n    \"z\"\n\"<b>\"\n    \"w\"\n");
    assert_eq!(cs.len(), 2);
    assert_eq!(cs[0].readings.len(), 3);
    assert_eq!(cs[0].readings[0].base_form, "x");
    assert_eq!(strs(&cs[0].readings[1].tags), vec!["B"]);
    assert_eq!(cs[0].readings[2].base_form, "z");
    assert_eq!(cs[1].readings.len(), 1);
}

#[test]
fn noise_and_orphan_lines_ending_in_carriage_return() {
    let plain = from_string("\"<a>\" T\n    \"b\" V\n");
    let noisy = from_string("    \"o\" X\r\n\"<a>\" T\n: c\r\n    \"b\" V\n");
    assert_eq!(to_cg3_string(&noisy), to_cg3_string(&plain));
    assert_eq!(noisy.len(), 1);
    assert_eq!(noisy[0].readings.len(), 1);
}
