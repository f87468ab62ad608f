use sentence_splitter::prefixes::{parse_prefixes, PrefixType};
use sentence_splitter::splitter::{
    is_valid_language, split_text_into_sentences, SentenceSplitter, SentenceSplitterError,
};

fn english() -> SentenceSplitter {
    SentenceSplitter::new("en", None).unwrap()
}

#[test]
fn test_en() {
    let splitter = english();

    let input_text = "This is a paragraph. It contains several sentences. \"But why,\" you ask?";
    let expected_sentences = vec![
        "This is a paragraph.",
        "It contains several sentences.",
        "\"But why,\" you ask?",
    ];
    assert_eq!(splitter.split(input_text), expected_sentences);

    let input_text = "Hey! Now.";
    let expected_sentences = vec!["Hey!", "Now."];
    assert_eq!(splitter.split(input_text), expected_sentences);

    let input_text = "Hey... Now.";
    let expected_sentences = vec!["Hey...", "Now."];
    assert_eq!(splitter.split(input_text), expected_sentences);

    let input_text = "Hey. Now.";
    let expected_sentences = vec!["Hey.", "Now."];
    assert_eq!(splitter.split(input_text), expected_sentences);

    let input_text = "Hey.  Now.";
    let expected_sentences = vec!["Hey.", "Now."];
    assert_eq!(splitter.split(input_text), expected_sentences);
}

#[test]
fn test_en_numeric_only() {
    let splitter = english();
    let input_text = "Hello. No. 1. No. 2. Prefix. 1. Prefix. 2. Good bye.";
    let expected_sentences = vec![
        "Hello.", "No. 1.", "No. 2.", "Prefix.", "1.", "Prefix.", "2.", "Good bye.",
    ];
    assert_eq!(splitter.split(input_text), expected_sentences);
}

#[test]
fn test_de() {
    let splitter = SentenceSplitter::new("de", None).unwrap();
    let input_text = "Nie hätte das passieren sollen. Dr. Soltan sagte: \"Der Fluxcompensator war doch kalibriert!\".";
    let expected_sentences = vec![
        "Nie hätte das passieren sollen.",
        "Dr. Soltan sagte: \"Der Fluxcompensator war doch kalibriert!\".",
    ];
    assert_eq!(splitter.split(input_text), expected_sentences);
}

#[test]
fn test_fr() {
    let splitter = SentenceSplitter::new("fr", None).unwrap();
    let input_text = "Brookfield Office Properties Inc. (« BOPI »), dont les actifs liés aux immeubles directement...";
    let expected_sentences = vec![input_text];
    assert_eq!(splitter.split(input_text), expected_sentences);
}

#[test]
fn test_el() {
    let splitter = SentenceSplitter::new("el", None).unwrap();
    let input_text = "Όλα τα συστήματα ανώτατης εκπαίδευσης σχεδιάζονται σε εθνικό επίπεδο. Η ΕΕ αναλαμβάνει κυρίως να συμβάλει στη βελτίωση της συγκρισιμότητας μεταξύ των διάφορων συστημάτων και να βοηθά φοιτητές και καθηγητές να μετακινούνται με ευκολία μεταξύ των συστημάτων των κρατών μελών.";
    let expected_sentences = vec![
        "Όλα τα συστήματα ανώτατης εκπαίδευσης σχεδιάζονται σε εθνικό επίπεδο.",
        "Η ΕΕ αναλαμβάνει κυρίως να συμβάλει στη βελτίωση της συγκρισιμότητας μεταξύ των διάφορων συστημάτων και να βοηθά φοιτητές και καθηγητές να μετακινούνται με ευκολία μεταξύ των συστημάτων των κρατών μελών.",
    ];
    assert_eq!(splitter.split(input_text), expected_sentences);
}

#[test]
fn test_pt() {
    let splitter = SentenceSplitter::new("pt", None).unwrap();
    let input_text = "Isto é um parágrafo. Contém várias frases. «Mas porquê,» perguntas tu?";
    let expected_sentences = vec![
        "Isto é um parágrafo.",
        "Contém várias frases.",
        "«Mas porquê,» perguntas tu?",
    ];
    assert_eq!(splitter.split(input_text), expected_sentences);
}

#[test]
fn test_es() {
    let splitter = SentenceSplitter::new("es", None).unwrap();
    let input_text = "La UE ofrece una gran variedad de empleos en un entorno multinacional y multilingüe. La Oficina Europea de Selección de Personal (EPSO) se ocupa de la contratación, sobre todo mediante oposiciones generales.";
    let expected_sentences = vec![
        "La UE ofrece una gran variedad de empleos en un entorno multinacional y multilingüe.",
        "La Oficina Europea de Selección de Personal (EPSO) se ocupa de la contratación, sobre todo mediante oposiciones generales.",
    ];
    assert_eq!(splitter.split(input_text), expected_sentences);
}

#[test]
fn test_split_text_into_sentences() {
    let input_text = "This is a paragraph. It contains several sentences. \"But why,\" you ask?";
    let expected_sentences = vec![
        "This is a paragraph.",
        "It contains several sentences.",
        "\"But why,\" you ask?",
    ];
    let result = split_text_into_sentences(input_text, "en", None).unwrap();
    assert_eq!(result, expected_sentences);
}

#[test]
fn empty_text_gives_no_sentences() {
    assert_eq!(english().split(""), Vec::<String>::new());
    assert_eq!(english().split("   \t \n "), Vec::<String>::new());
}

#[test]
fn whitespace_runs_inside_a_sentence_collapse() {
    assert_eq!(english().split("  Hello \t  world.\n\nBye. "), vec!["Hello world.", "Bye."]);
}

#[test]
fn single_whitespace_character_is_kept() {
    assert_eq!(english().split("Hello\tworld."), vec!["Hello\tworld."]);
}

#[test]
fn numeric_only_prefix_splits_before_a_word() {
    assert_eq!(english().split("See No. Problem here."), vec!["See No.", "Problem here."]);
}

#[test]
fn default_prefix_never_splits() {
    assert_eq!(english().split("Ask Dr. Smith. He knows."), vec!["Ask Dr. Smith.", "He knows."]);
}

#[test]
fn lowercase_continuation_does_not_split() {
    assert_eq!(english().split("It was 5 p.m. today. Yes."), vec!["It was 5 p.m. today.", "Yes."]);
}

#[test]
fn digit_starts_a_sentence() {
    assert_eq!(english().split("Hello. 42 is it."), vec!["Hello.", "42 is it."]);
}

#[test]
fn no_split_inside_quotes() {
    assert_eq!(
        english().split("He said \"Stop. Go.\" Then left."),
        vec!["He said \"Stop. Go.\" Then left."]
    );
}

#[test]
fn closing_parenthesis_before_terminator_forces_split() {
    assert_eq!(english().split("See (above). then what."), vec!["See (above).", "then what."]);
}

#[test]
fn terminator_inside_parentheses_follows_the_next_character() {
    assert_eq!(
        english().split("Foo bar. (Baz foo.) Bar baz."),
        vec!["Foo bar.", "(Baz foo.) Bar baz."]
    );
}

#[test]
fn acronym_holds_back_every_later_terminator() {
    assert_eq!(
        english().split("The U.S. Army left. Then came. Rain."),
        vec!["The U.S. Army left. Then came. Rain."]
    );
    assert_eq!(english().split("Hello. .NATO. Good bye."), vec!["Hello. .", "NATO. Good bye."]);
    assert_eq!(english().split("We met. THE-END. Bye."), vec!["We met.", "THE-END. Bye."]);
}

#[test]
fn terminator_without_space_splits() {
    assert_eq!(english().split("Hey.Now."), vec!["Hey.", "Now."]);
}

#[test]
fn unknown_language_has_empty_table() {
    let splitter = SentenceSplitter::new("xx", None).unwrap();
    assert_eq!(splitter.split("Ask Dr. Smith."), vec!["Ask Dr.", "Smith."]);
}

#[test]
fn invalid_language_code_is_refused() {
    for code in ["EN", "e", "eng", "e1", "/etc/passwd", ""] {
        let result = SentenceSplitter::new(code, None);
        assert!(matches!(result, Err(SentenceSplitterError::InvalidLanguageCode(ref c)) if c == code));
    }
    assert!(matches!(
        split_text_into_sentences("Hi.", "En", None),
        Err(SentenceSplitterError::InvalidLanguageCode(_))
    ));
}

#[test]
fn custom_prefix_list_overrides_bundled() {
    let list = "# \n# Temporary prefix file\n# \n\nPrefix1\nPrefix2\n";
    let splitter = SentenceSplitter::new("xx", Some(list)).unwrap();
    let input_text = "Hello. Prefix1. Prefix2. Hello again. Good bye.";
    assert_eq!(
        splitter.split(input_text),
        vec!["Hello.", "Prefix1. Prefix2. Hello again.", "Good bye."]
    );
    let splitter = SentenceSplitter::new("en", Some("")).unwrap();
    assert_eq!(splitter.split("Ask Dr. Smith."), vec!["Ask Dr.", "Smith."]);
}

#[test]
fn prefix_list_lines_parse() {
    let entries = parse_prefixes("  # comment\nDr # doctor\r\nNo #NUMERIC_ONLY#\n\n   \nSt\nDr #NUMERIC_ONLY#");
    let got: Vec<(String, PrefixType)> = entries
        .iter()
        .map(|e| (e.text.iter().collect::<String>(), e.kind))
        .collect();
    assert_eq!(
        got,
        vec![
            ("Dr".to_string(), PrefixType::Default),
            ("No".to_string(), PrefixType::NumericOnly),
            ("St".to_string(), PrefixType::Default),
            ("Dr".to_string(), PrefixType::NumericOnly),
        ]
    );
}

#[test]
fn later_prefix_entry_wins() {
    let splitter = SentenceSplitter::new("xx", Some("Dr\nDr #NUMERIC_ONLY#")).unwrap();
    assert_eq!(splitter.split("Ask Dr. Smith. Or Dr. 5 now."), vec!["Ask Dr.", "Smith.", "Or Dr. 5 now."]);
}

#[test]
fn resplitting_joined_sentences_is_stable() {
    let splitter = english();
    for text in [
        "This is a paragraph. It contains several sentences. \"But why,\" you ask?",
        "Hey.Now.  Then\tthis.",
        "Foo bar. (Baz foo.) Bar baz.",
        "Hello. No. 1. No. 2. Prefix. 1. Prefix. 2. Good bye.",
    ] {
        let first = splitter.split(text);
        let again = splitter.split(&first.join(" "));
        assert_eq!(first, again);
    }
}

#[test]
fn no_character_is_lost() {
    let splitter = english();
    let text = "  One. Two?  Three!\n(Four.) \"Five.\" six.";
    let kept: String = text.chars().filter(|c| !c.is_whitespace()).collect();
    let out: String = splitter.split(text).concat().chars().filter(|c| !c.is_whitespace()).collect();
    assert_eq!(kept, out);
}

#[test]
fn unicode_whitespace_counts_as_whitespace() {
    assert_eq!(english().split("Hello\u{3000}\u{3000}world."), vec!["Hello world."]);
    assert_eq!(english().split("Hi.\u{a0}Now."), vec!["Hi.", "Now."]);
    assert_eq!(english().split("\u{2029}Hi.\u{85}"), vec!["Hi."]);
}

#[test]
fn language_codes_are_two_lowercase_letters() {
    assert!(is_valid_language("en"));
    assert!(is_valid_language("zz"));
    assert!(!is_valid_language("En"));
    assert!(!is_valid_language("ené"));
    assert!(!is_valid_language("é"));
    assert!(!is_valid_language(""));
}
