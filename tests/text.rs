use eqsat::text::{clean_sequence, remove_nops};

#[test]
fn nop_lines_are_dropped() {
    let out = remove_nops("nop\n(add t0 t1 x0)\n  nop  \n(mov t0 t1)\n");
    assert_eq!(out, Some("(add t0 t1 x0)\n(mov t0 t1)".to_string()));
}

#[test]
fn a_multi_line_seq_is_gathered_and_cleaned() {
    let out = remove_nops("(seq\n  (mov t0 t1)\n  nop\n  (mov t1 t2))\n");
    assert_eq!(out, Some("(seq (mov t0 t1) (mov t1 t2))".to_string()));
}

#[test]
fn an_unclosed_one_line_seq_is_cleaned_at_the_end() {
    let out = remove_nops("nop\n(add t0 t1 x0)\n  nop  \n(seq nop (mov t0 t1))");
    assert_eq!(out, Some("(add t0 t1 x0)\n(seq (mov t0 t1))".to_string()));
}

#[test]
fn a_seq_line_keeps_gathering_until_balanced() {
    let out = remove_nops("(seq (mov a b))\n(foo)\nbar");
    assert_eq!(out, Some("(seq (mov a b)) (foo)\nbar".to_string()));
}

#[test]
fn empty_input_gives_empty_output() {
    assert_eq!(remove_nops(""), Some(String::new()));
    assert_eq!(remove_nops("nop\nnop\n"), Some(String::new()));
    assert_eq!(remove_nops("\n"), Some(String::new()));
    assert_eq!(remove_nops("\n\nx"), Some("\n\nx".to_string()));
}

#[test]
fn crlf_lines_are_trimmed() {
    assert_eq!(remove_nops("a\r\nnop\r\nb\r\n"), Some("a\nb".to_string()));
}

#[test]
fn unbalanced_forms_give_none() {
    // closes below zero
    assert_eq!(remove_nops("(seq a)\n)"), None);
    // an open form at the end that does not end in ')'
    assert_eq!(remove_nops("(seq (a b)\nc"), None);
}

#[test]
fn clean_sequence_drops_nop_words() {
    assert_eq!(clean_sequence("  (seq  nop (mov t0 t1)   nop )  "), "(seq (mov t0 t1))");
    assert_eq!(clean_sequence("(seq (add a b c) nop\t(mov c d))"), "(seq (add a b c) (mov c d))");
}

#[test]
fn clean_sequence_of_an_empty_seq() {
    assert_eq!(clean_sequence("(seq)"), "(seq )");
    assert_eq!(clean_sequence("(seq nop)"), "(seq )");
}

#[test]
fn clean_sequence_keeps_words_containing_nop() {
    assert_eq!(clean_sequence("(seq nops (nop) nop)"), "(seq nops (nop))");
}
