use moon_ui_components::input_mask::{is_sign, is_valid_number_mask, MoonInputMaskPattern, MoonInputMaskToken};

#[test]
fn pattern_characters_become_tokens() {
    let m = MoonInputMaskPattern::new("9A#*-");
    match &m {
        MoonInputMaskPattern::Pattern { pattern, tokens } => {
            assert_eq!(pattern, "9A#*-");
            assert_eq!(
                tokens,
                &vec![
                    MoonInputMaskToken::Digit,
                    MoonInputMaskToken::Letter,
                    MoonInputMaskToken::LetterOrDigit,
                    MoonInputMaskToken::Any,
                    MoonInputMaskToken::Separator('-'),
                ]
            );
        },
        _ => panic!("a pattern was expected"),
    }
    assert_eq!(m.placeholder().as_deref(), Some("____-"));
    assert_eq!(MoonInputMaskPattern::number(Some(',')).placeholder(), None);
    assert!(MoonInputMaskPattern::new("").is_none());
    assert!(MoonInputMaskPattern::default().is_none());
    assert!(!MoonInputMaskPattern::number(None).is_none());
}

#[test]
fn tokens_match_their_character_classes() {
    assert!(MoonInputMaskToken::Digit.is_match('7'));
    assert!(!MoonInputMaskToken::Digit.is_match('x'));
    assert!(MoonInputMaskToken::Letter.is_match('Q'));
    assert!(!MoonInputMaskToken::Letter.is_match('é'));
    assert!(MoonInputMaskToken::LetterOrDigit.is_match('0'));
    assert!(MoonInputMaskToken::Any.is_match('%'));
    assert!(MoonInputMaskToken::Separator('/').is_match('/'));
    assert!(MoonInputMaskToken::Separator('/').is_separator());
    assert_eq!(MoonInputMaskToken::Digit.placeholder(), '_');
    assert_eq!(MoonInputMaskToken::Separator('-').mask_char('5'), '-');
    assert_eq!(MoonInputMaskToken::Digit.mask_char('5'), '5');
    assert_eq!(MoonInputMaskToken::Separator('-').unmask_char('-'), None);
    assert_eq!(MoonInputMaskToken::Any.unmask_char('x'), Some('x'));
    assert!(is_sign(&'+') && is_sign(&'-') && !is_sign(&'0'));
}

#[test]
fn pattern_masking_inserts_separators_and_stops_at_a_mismatch() {
    let phone = MoonInputMaskPattern::new("(999) 999-9999");
    assert_eq!(phone.mask("5551234567"), "(555) 123-4567");
    assert_eq!(phone.mask("555"), "(555");
    assert_eq!(phone.mask("55a"), "(55");
    assert_eq!(phone.mask("(555) 1"), "(555) 1");
    assert_eq!(phone.unmask("(555) 123-4567"), "5551234567");
    assert!(phone.is_valid("(555) 123-4567"));
    assert!(phone.is_valid("(555"));
    assert!(!phone.is_valid("(55x"));
    assert!(phone.is_valid_at('5', 0));
    assert!(phone.is_valid_at('(', 0));
    assert!(!phone.is_valid_at('x', 1));
    assert!(!phone.is_valid_at('1', 99));
}

#[test]
fn number_masking_groups_thousands_and_keeps_the_sign() {
    let m = MoonInputMaskPattern::number(Some(','));
    assert_eq!(m.mask("1234567"), "1,234,567");
    assert_eq!(m.mask("-1234.5"), "-1,234.5");
    assert_eq!(m.mask("1,234"), "1,234");
    assert_eq!(m.mask("12"), "12");
    let f = MoonInputMaskPattern::number_with_fraction(Some(','), Some(2));
    assert_eq!(f.mask("1234.5678"), "1,234.56");
    let z = MoonInputMaskPattern::number_with_fraction(Some(','), Some(0));
    assert_eq!(z.mask("1234.5678"), "1,234");
    assert_eq!(MoonInputMaskPattern::number(None).mask("12345"), "12345");
    assert_eq!(m.unmask("1,234.500"), "1234.5");
    assert_eq!(m.unmask("1,200"), "1200");
    assert_eq!(MoonInputMaskPattern::number(None).unmask("1,200"), "1,200");
}

#[test]
fn number_texts_are_validated() {
    assert!(is_valid_number_mask("", Some(',')));
    assert!(is_valid_number_mask("-1,234.56", Some(',')));
    assert!(!is_valid_number_mask("1.2.3", Some(',')));
    assert!(!is_valid_number_mask(".5", Some(',')));
    assert!(!is_valid_number_mask("1-2", Some(',')));
    assert!(!is_valid_number_mask("1,2", None));
    assert!(!is_valid_number_mask("1.2a", None));
    let m = MoonInputMaskPattern::number(Some(','));
    assert!(m.is_valid("1,234"));
    assert!(!m.is_valid("12a"));
    assert!(MoonInputMaskPattern::default().is_valid("anything"));
}

#[test]
fn masking_digits_and_unmasking_them_gives_the_digits_back() {
    for sep in [',', ' ', '\''] {
        let m = MoonInputMaskPattern::number_with_fraction(Some(sep), Some(2));
        for digits in ["", "7", "123", "1234", "1234567", "000123"] {
            let masked = m.mask(digits);
            assert_eq!(m.unmask(&masked), digits, "{digits} masked as {masked}");
        }
    }
    let m = MoonInputMaskPattern::number(Some(','));
    assert_eq!(m.mask("1234567"), "1,234,567");
}

#[test]
fn masking_typed_text_and_unmasking_it_gives_the_text_back() {
    let m = MoonInputMaskPattern::new("(999) 999-AA");
    for typed in ["", "1", "123", "1234", "123456", "123456x", "123456xy"] {
        let masked = m.mask(typed);
        assert_eq!(m.unmask(&masked), typed, "{typed} masked as {masked}");
    }
    assert_eq!(m.mask("1234"), "(123) 4");
}

#[test]
fn a_pattern_converted_from_text_masks_like_new_and_unmasks_back() {
    let p: MoonInputMaskPattern = "999-999".into();
    assert_eq!(p, MoonInputMaskPattern::new("999-999"));
    let q = MoonInputMaskPattern::from("999-999".to_string());
    assert_eq!(q, p);
    for t in ["", "1", "12", "123", "1234", "12345", "123456"] {
        assert_eq!(p.unmask(&p.mask(t)), t, "{t} masked as {}", p.mask(t));
    }
    assert_eq!(p.mask("123456"), "123-456");
    assert_eq!(p.unmask("123-456"), "123456");
    let n = MoonInputMaskPattern::number(Some(','));
    for d in ["0", "7", "1234", "1234567", "1000000"] {
        assert_eq!(n.unmask(&n.mask(d)), d);
    }
    assert_eq!(n.unmask("1,234.500"), "1234.5");
}
