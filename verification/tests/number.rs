use vincenty::number::{is_decimal, is_digit, is_number, is_sign, is_special};

fn chars_of(text: &str) -> Vec<char> {
    text.chars().collect()
}

fn number(text: &str) -> bool {
    is_number(&chars_of(text))
}

fn float_parser_accepts(text: &str) -> bool {
    text.parse::<f64>().is_ok()
}

#[test]
fn digits_and_signs() {
    for c in ['0', '5', '9'] {
        assert!(is_digit(c));
    }
    for c in ['/', ':', 'a', '٣', ' '] {
        assert!(!is_digit(c));
    }
    assert!(is_sign('+'));
    assert!(is_sign('-'));
    assert!(!is_sign('.'));
    assert!(!is_sign('−'));
}

#[test]
fn plain_decimals_are_numbers() {
    for text in ["0", "1.0", "42.3541165", "-71.0693514", "+2", "007", "1.", ".5", "-.5", "+1."] {
        assert!(number(text), "{:?}", text);
    }
}

#[test]
fn exponents_are_numbers() {
    for text in ["1e5", "1E5", "1e+5", "1e-5", "1.e5", ".5e5", "1.5e05", "-1.5E-10", "2e0"] {
        assert!(number(text), "{:?}", text);
    }
}

#[test]
fn special_words_are_numbers() {
    for text in ["inf", "INF", "Inf", "iNf", "infinity", "Infinity", "INFINITY", "nan", "NaN", "NAN", "+inf", "-inf", "-nan", "+Infinity"] {
        assert!(number(text), "{:?}", text);
    }
    assert!(is_special(&chars_of("inf")));
    assert!(is_special(&chars_of("NaN")));
    assert!(!is_special(&chars_of("-inf")));
    assert!(!is_special(&chars_of("1")));
}

#[test]
fn malformed_texts_are_no_numbers() {
    for text in [
        "", " ", "+", "-", ".", "+.", "e", "e5", ".e5", "1e", "1e+", "1e-", "1e5.0", "1..0",
        "1.0.0", "--1", "+-1", "1+", "1 ", " 1", "1 .0", "1,0", "1_000", "0x10", "1f", "1.0f64",
        "in", "infinit", "infinityy", "na", "nann", "inf1", "not", "a", "number", "١", "1e٥",
        "∞", "1e5e5", "1E", "e+5", "-e5",
    ] {
        assert!(!number(text), "{:?}", text);
    }
}

#[test]
fn decimal_excludes_signs_and_words() {
    assert!(is_decimal(&chars_of("1.5e3")));
    assert!(is_decimal(&chars_of("12")));
    assert!(!is_decimal(&chars_of("-12")));
    assert!(!is_decimal(&chars_of("inf")));
    assert!(!is_decimal(&chars_of("")));
}

#[test]
fn is_number_agrees_with_the_float_parser_on_short_texts() {
    let alphabet = ['1', '0', '.', 'e', 'E', '+', '-', ' ', 'i', 'n', 'f', ','];
    let mut texts: Vec<String> = vec![String::new()];
    let mut from = 0;
    for _ in 0..5 {
        let upto = texts.len();
        for index in from..upto {
            for c in alphabet {
                let mut longer = texts[index].clone();
                longer.push(c);
                texts.push(longer);
            }
        }
        from = upto;
    }
    for text in &texts {
        assert_eq!(number(text), float_parser_accepts(text), "{:?}", text);
    }
}

#[test]
fn is_number_agrees_with_the_float_parser_on_words() {
    let letters = ['i', 'n', 'f', 't', 'y', 'a', 'I', 'N', 'F', 'T', 'Y', 'A'];
    for &a in &letters {
        for &b in &letters {
            for &c in &letters {
                let word: String = [a, b, c].iter().collect();
                assert_eq!(number(&word), float_parser_accepts(&word), "{:?}", word);
                let signed = format!("-{}", word);
                assert_eq!(number(&signed), float_parser_accepts(&signed), "{:?}", signed);
            }
        }
    }
    for text in ["infinity", "INFINITY", "InFiNiTy", "infinit", "infinite", "infinityy", "+infinity", "nan ", "İnf", "ınf", "ＩＮＦ"] {
        assert_eq!(number(text), float_parser_accepts(text), "{:?}", text);
    }
}

#[test]
fn every_formatted_float_is_a_number() {
    let values = [
        0.0, -0.0, 1.0, -1.0, 0.1, 42.3541165, -71.0693514, 1e21, 1e-7, 1e300, -1e-300,
        f64::MAX, f64::MIN, f64::MIN_POSITIVE, f64::EPSILON, f64::INFINITY, f64::NEG_INFINITY,
        f64::NAN, 5e-324, 90.0, -180.0,
    ];
    for value in values {
        let text = format!("{}", value);
        assert!(number(&text), "{:?}", text);
        let scientific = format!("{:e}", value);
        assert!(number(&scientific), "{:?}", scientific);
    }
}
