use demo_rust_string_issues::report::{
    demo, demo_of_emoticons, demo_of_ligature, demo_of_umlaut, demo_of_virguilla, Report,
};

#[test]
fn umlaut_reports_differ_in_scalars_not_in_graphemes() {
    let (precomposed, decomposed) = demo_of_umlaut();
    assert_eq!(precomposed.text, "no\u{eb}l");
    assert_eq!(decomposed.text, "noe\u{308}l");
    assert_eq!(precomposed.scalar_count, 4);
    assert_eq!(decomposed.scalar_count, 5);
    assert_eq!(precomposed.grapheme_count, 4);
    assert_eq!(decomposed.grapheme_count, 4);
    assert_eq!(precomposed.byte_length, 5);
    assert_eq!(decomposed.byte_length, 6);
    assert_eq!(decomposed.scalar_reverse, "l\u{308}eon");
    assert_eq!(decomposed.grapheme_reverse, "le\u{308}on");
    assert_eq!(decomposed.graphemes, vec!["n", "o", "e\u{308}", "l"]);
}

#[test]
fn umlaut_reports_carry_their_titles() {
    let (precomposed, decomposed) = demo_of_umlaut();
    assert_eq!(precomposed.message, "Demo of umlaut with no\u{eb}l with precomposed characters");
    assert_eq!(decomposed.message, "Demo of umlaut with no\u{eb}l with decomposed characters");
}

#[test]
fn the_precomposed_umlaut_report_is_complete() {
    let (precomposed, _) = demo_of_umlaut();
    let expected = Report {
        message: "Demo of umlaut with no\u{eb}l with precomposed characters".to_string(),
        text: "no\u{eb}l".to_string(),
        byte_length: 5,
        scalars: vec!['n', 'o', '\u{eb}', 'l'],
        scalar_count: 4,
        scalar_reverse: "l\u{eb}on".to_string(),
        graphemes: vec!["n".to_string(), "o".to_string(), "\u{eb}".to_string(), "l".to_string()],
        grapheme_count: 4,
        grapheme_reverse: "l\u{eb}on".to_string(),
        lowercase: "no\u{eb}l".to_string(),
        uppercase: "NO\u{cb}L".to_string(),
    };
    assert_eq!(precomposed, expected);
}

#[test]
fn virguilla_reports_differ_in_scalars_not_in_graphemes() {
    let (precomposed, decomposed) = demo_of_virguilla();
    assert_eq!(precomposed.message, "Demo of virguilla with ma\u{f1}ana with precomposed characters");
    assert_eq!(decomposed.message, "Demo of virguilla with ma\u{f1}ana with decomposed characters");
    assert_eq!(precomposed.text, "ma\u{f1}ana");
    assert_eq!(decomposed.text, "man\u{303}ana");
    assert_eq!(precomposed.byte_length, 7);
    assert_eq!(decomposed.byte_length, 8);
    assert_eq!(precomposed.scalar_count, 6);
    assert_eq!(decomposed.scalar_count, 7);
    assert_eq!(precomposed.grapheme_count, 6);
    assert_eq!(decomposed.grapheme_count, 6);
    assert_eq!(decomposed.scalar_reverse, "ana\u{303}nam");
    assert_eq!(decomposed.grapheme_reverse, "anan\u{303}am");
    assert_eq!(decomposed.uppercase, "MAN\u{303}ANA");
    assert_eq!(precomposed.uppercase, "MA\u{d1}ANA");
}

#[test]
fn the_emoticon_report_counts_two_cats() {
    let report = demo_of_emoticons();
    assert_eq!(report.message, "Demo of emoticons with \u{1f638}\u{1f63e}");
    assert_eq!(report.text, "\u{1f638}\u{1f63e}");
    assert_eq!(report.byte_length, 8);
    assert_eq!(report.scalars, vec!['\u{1f638}', '\u{1f63e}']);
    assert_eq!(report.scalar_count, 2);
    assert_eq!(report.grapheme_count, 2);
    assert_eq!(report.graphemes, vec!["\u{1f638}", "\u{1f63e}"]);
    assert_eq!(report.scalar_reverse, "\u{1f63e}\u{1f638}");
    assert_eq!(report.grapheme_reverse, "\u{1f63e}\u{1f638}");
    assert_eq!(report.lowercase, report.text);
    assert_eq!(report.uppercase, report.text);
}

#[test]
fn the_ligature_report_uppercases_to_baffle() {
    let report = demo_of_ligature();
    assert_eq!(report.message, "Demo of ligature with ba\u{fb04}e");
    assert_eq!(report.text, "ba\u{fb04}e");
    assert_eq!(report.byte_length, 6);
    assert_eq!(report.scalar_count, 4);
    assert_eq!(report.grapheme_count, 4);
    assert_eq!(report.uppercase, "BAFFLE");
    assert_eq!(report.lowercase, "ba\u{fb04}e");
    assert_eq!(report.scalar_reverse, "e\u{fb04}ab");
    assert_eq!(report.grapheme_reverse, "e\u{fb04}ab");
}

#[test]
fn a_report_of_any_text_holds_every_measure() {
    let report = demo("title", "A\r\ne\u{301}");
    assert_eq!(report.message, "title");
    assert_eq!(report.text, "A\r\ne\u{301}");
    assert_eq!(report.byte_length, 6);
    assert_eq!(report.scalars, vec!['A', '\r', '\n', 'e', '\u{301}']);
    assert_eq!(report.scalar_count, 5);
    assert_eq!(report.scalar_reverse, "\u{301}e\n\rA");
    assert_eq!(report.graphemes, vec!["A", "\r\n", "e\u{301}"]);
    assert_eq!(report.grapheme_count, 3);
    assert_eq!(report.grapheme_reverse, "e\u{301}\r\nA");
    assert_eq!(report.lowercase, "a\r\ne\u{301}");
    assert_eq!(report.uppercase, "A\r\nE\u{301}");
}

#[test]
fn a_report_of_the_empty_text_is_empty() {
    let report = demo("", "");
    assert_eq!(report.byte_length, 0);
    assert_eq!(report.scalar_count, 0);
    assert_eq!(report.grapheme_count, 0);
    assert!(report.scalars.is_empty());
    assert!(report.graphemes.is_empty());
    assert_eq!(report.scalar_reverse, "");
    assert_eq!(report.grapheme_reverse, "");
}
