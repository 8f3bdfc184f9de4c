use demo_rust_string_issues::normalize::{
    compose_scalars, decompose_text, equals_under_normalization, normalize, Form,
};
use unicode_normalization::UnicodeNormalization;

fn samples() -> Vec<&'static str> {
    vec![
        "",
        "a",
        "no\u{eb}l",
        "noe\u{308}l",
        "ma\u{f1}ana",
        "man\u{303}ana",
        "\u{1f638}\u{1f63e}",
        "ba\u{fb04}e",
        "a\u{301}\u{323}",
        "a\u{323}\u{301}",
        "a\u{301}\u{300}",
        "\u{308}a",
        "\u{301}\u{323}",
        "\u{1e69}",
        "s\u{323}\u{307}",
        "s\u{307}\u{323}",
        "\u{1e0b}\u{323}",
        "q\u{307}\u{323}",
        "\u{d55c}\u{ae00}",
        "\u{1112}\u{1161}\u{11ab}",
        "\u{ac00}\u{11a8}",
        "\u{ac00}\u{11a7}",
        "\u{1100}\u{1161}\u{1161}",
        "\u{212b}",
        "\u{2126}",
        "\u{f900}",
        "\u{1d15e}",
        "\u{958}",
        "\u{fb1d}",
        "\u{3b1}\u{313}\u{301}\u{345}",
        "\u{1f82}",
        "a\u{5ae}\u{300}\u{315}\u{62}",
        "a\u{315}\u{300}\u{5ae}\u{300}b",
        "\u{1ea5}",
        "A\u{30a}\u{301}",
        "e\u{301}e\u{301}e\u{301}",
        "\u{44}\u{307}\u{323}\u{41}\u{30a}",
        "\u{115b9}\u{334}\u{115af}",
        "\u{1100}\u{ac00}\u{11a8}\u{11a8}",
        "x\u{334}\u{334}\u{301}\u{301}\u{316}\u{316}",
        "a\u{33d}\u{301}",
        "a\u{301}\u{33d}",
        "\r\n\t line \u{0}",
    ]
}

#[test]
fn nfd_agrees_with_the_crate_on_every_sample() {
    for text in samples() {
        let expected: String = text.nfd().collect();
        assert_eq!(normalize(text, Form::Nfd), expected, "text {:?}", text);
    }
}

#[test]
fn nfc_agrees_with_the_crate_on_every_sample() {
    for text in samples() {
        let expected: String = text.nfc().collect();
        assert_eq!(normalize(text, Form::Nfc), expected, "text {:?}", text);
    }
}

#[test]
fn normalization_is_idempotent_on_every_sample() {
    for text in samples() {
        for form in [Form::Nfc, Form::Nfd] {
            let once = normalize(text, form);
            let twice = normalize(&once, form);
            assert_eq!(twice, once, "text {:?}", text);
        }
    }
}

#[test]
fn both_spellings_of_noel_have_one_composed_form() {
    let precomposed = normalize("no\u{eb}l", Form::Nfc);
    let decomposed = normalize("noe\u{308}l", Form::Nfc);
    assert_eq!(precomposed, decomposed);
    assert_eq!(precomposed, "no\u{eb}l");
}

#[test]
fn both_spellings_of_noel_have_one_decomposed_form() {
    assert_eq!(normalize("no\u{eb}l", Form::Nfd), "noe\u{308}l");
    assert_eq!(normalize("noe\u{308}l", Form::Nfd), "noe\u{308}l");
}

#[test]
fn decomposition_is_full_and_in_order() {
    assert_eq!(decompose_text("\u{1e69}"), vec!['s', '\u{323}', '\u{307}']);
    assert_eq!(decompose_text("s\u{307}\u{323}"), vec!['s', '\u{323}', '\u{307}']);
    assert_eq!(decompose_text("\u{d55c}"), vec!['\u{1112}', '\u{1161}', '\u{11ab}']);
}

#[test]
fn marks_of_one_class_keep_their_order() {
    assert_eq!(normalize("a\u{301}\u{300}", Form::Nfd), "a\u{301}\u{300}");
    assert_eq!(normalize("a\u{300}\u{301}", Form::Nfd), "a\u{300}\u{301}");
}

#[test]
fn marks_do_not_move_past_a_starter() {
    assert_eq!(normalize("\u{301}a\u{323}", Form::Nfd), "\u{301}a\u{323}");
}

#[test]
fn a_lower_mark_moves_before_a_higher_one() {
    assert_eq!(normalize("a\u{301}\u{323}", Form::Nfd), "a\u{323}\u{301}");
    assert_eq!(normalize("a\u{301}\u{323}", Form::Nfc), "\u{1ea1}\u{301}");
}

#[test]
fn composition_skips_a_mark_that_does_not_compose() {
    let composed = compose_scalars(&['a', '\u{5ae}', '\u{300}', '\u{315}', 'b']);
    assert_eq!(composed, vec!['\u{e0}', '\u{5ae}', '\u{315}', 'b']);
}

#[test]
fn a_mark_behind_one_of_its_own_class_is_blocked() {
    let composed = compose_scalars(&['a', '\u{33d}', '\u{301}']);
    assert_eq!(composed, vec!['a', '\u{33d}', '\u{301}']);
    assert_eq!(normalize("a\u{33d}\u{301}", Form::Nfc), "a\u{33d}\u{301}");
    assert_eq!(normalize("a\u{301}\u{33d}", Form::Nfc), "\u{e1}\u{33d}");
}

#[test]
fn a_mark_behind_one_of_a_lower_class_is_free() {
    let composed = compose_scalars(&['a', '\u{334}', '\u{334}', '\u{301}']);
    assert_eq!(composed, vec!['\u{e1}', '\u{334}', '\u{334}']);
    let composed = compose_scalars(&['e', '\u{301}', '\u{301}']);
    assert_eq!(composed, vec!['\u{e9}', '\u{301}']);
}

#[test]
fn hangul_syllables_compose_from_their_jamo() {
    assert_eq!(compose_scalars(&['\u{1112}', '\u{1161}', '\u{11ab}']), vec!['\u{d55c}']);
    assert_eq!(compose_scalars(&['\u{ac00}', '\u{11a7}']), vec!['\u{ac00}', '\u{11a7}']);
}

#[test]
fn composition_of_nothing_is_nothing() {
    assert_eq!(compose_scalars(&[]), Vec::<char>::new());
    assert_eq!(decompose_text(""), Vec::<char>::new());
    assert_eq!(normalize("", Form::Nfc), "");
}

#[test]
fn spellings_are_equal_under_normalization() {
    assert!(equals_under_normalization("no\u{eb}l", "noe\u{308}l", Form::Nfc));
    assert!(equals_under_normalization("no\u{eb}l", "noe\u{308}l", Form::Nfd));
    assert!(equals_under_normalization("ma\u{f1}ana", "man\u{303}ana", Form::Nfc));
    assert!(equals_under_normalization("\u{212b}", "\u{c5}", Form::Nfd));
    assert_ne!("no\u{eb}l", "noe\u{308}l");
}

#[test]
fn different_texts_are_not_equal_under_normalization() {
    assert!(!equals_under_normalization("noel", "noe\u{308}l", Form::Nfc));
    assert!(!equals_under_normalization("ba\u{fb04}e", "baffle", Form::Nfc));
    assert!(!equals_under_normalization("a", "", Form::Nfd));
}

#[test]
fn canonical_order_keeps_every_scalar() {
    for text in samples() {
        let mut before: Vec<char> = Vec::new();
        for scalar in text.chars() {
            unicode_normalization::char::decompose_canonical(scalar, |part| before.push(part));
        }
        let mut after = decompose_text(text);
        assert_eq!(after.len(), before.len());
        before.sort();
        after.sort();
        assert_eq!(after, before, "text {:?}", text);
    }
}

#[test]
fn canonical_order_leaves_no_mark_behind_a_higher_one() {
    for text in samples() {
        let ordered = decompose_text(text);
        for pair in ordered.windows(2) {
            let before = unicode_normalization::char::canonical_combining_class(pair[0]);
            let behind = unicode_normalization::char::canonical_combining_class(pair[1]);
            assert!(behind == 0 || before <= behind, "text {:?}", text);
        }
    }
}

#[test]
fn composition_never_lengthens() {
    for text in samples() {
        let ordered = decompose_text(text);
        assert!(compose_scalars(&ordered).len() <= ordered.len());
    }
}
