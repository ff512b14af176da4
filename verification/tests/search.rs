//! Search expressions.

use yalive::search::{expression, expression_with, is_stopword, sanitise, Mode, MAX_TERMS};

#[test]
fn ordinary_words_become_a_conjunction_with_a_prefix_on_the_last() {
    assert_eq!(
        expression("cursor follow smoothing").as_deref(),
        Some(r#""cursor" AND "follow" AND "smoothing"*"#)
    );
}

#[test]
fn a_single_word_is_a_prefix_query() {
    assert_eq!(expression("pico").as_deref(), Some(r#""pico"*"#));
}

#[test]
fn fts5_operators_are_matched_literally() {
    let expression = expression("AND OR NOT NEAR (x)").unwrap();
    assert_eq!(expression, r#""AND" AND "OR" AND "NOT" AND "NEAR" AND "(x)"*"#);
}

#[test]
fn quotes_are_doubled_so_a_phrase_cannot_be_escaped() {
    let expression = expression(r#"a" OR "b"#).unwrap();
    assert_eq!(expression, r#""a""" AND "OR" AND """b"*"#);
    assert_eq!(
        expression.matches('"').count() % 2,
        0,
        "quotes must stay balanced: {expression}"
    );
}

#[test]
fn punctuation_only_queries_are_none_rather_than_an_error() {
    for query in ["", "   ", "-", "--", "''", "\"", "***", "()"] {
        assert_eq!(expression(query), None, "{query:?} should not be searchable");
    }
}

#[test]
fn punctuation_around_a_real_word_is_kept_but_inert() {
    assert_eq!(expression("calculate_pivot").as_deref(), Some(r#""calculate_pivot"*"#));
    assert_eq!(expression("sprite.rs").as_deref(), Some(r#""sprite.rs"*"#));
}

#[test]
fn retrieval_mode_drops_stopwords_and_joins_with_or() {
    assert_eq!(
        expression_with("how did I mirror bones in Blender?", Mode::Any).as_deref(),
        Some(r#""mirror" OR "bones" OR "Blender?"*"#)
    );
}

#[test]
fn a_stopword_carrying_punctuation_is_still_a_stopword() {
    assert!(is_stopword("for?"));
    assert!(is_stopword("The"));
    assert!(is_stopword("(with)"));
    assert!(!is_stopword("wireguard"));
    assert!(!is_stopword("-j"));

    assert_eq!(
        expression_with("what's the -j flag for?", Mode::Any).as_deref(),
        Some(r#""what's" OR "-j" OR "flag"*"#)
    );
}

#[test]
fn a_query_of_only_stopwords_still_searches_for_something() {
    assert_eq!(
        expression_with("how do i", Mode::Any).as_deref(),
        Some(r#""how" OR "do" OR "i"*"#)
    );
}

#[test]
fn filter_mode_keeps_every_term_including_common_ones() {
    assert_eq!(
        expression_with("the rust book", Mode::All).as_deref(),
        Some(r#""the" AND "rust" AND "book"*"#)
    );
}

#[test]
fn very_long_queries_are_truncated_rather_than_refused() {
    let query = (0..500).map(|n| format!("term{n}")).collect::<Vec<_>>().join(" ");
    let expression = expression(&query).unwrap();
    assert_eq!(expression.matches(" AND ").count(), MAX_TERMS - 1);
}

/// Every three-character string over an alphabet of FTS5 metacharacters.
fn hostile_queries() -> Vec<String> {
    let alphabet = ['"', '\'', '*', '-', '(', ')', 'a', ' ', ':', '^', 'ö'];
    let mut queries = Vec::with_capacity(alphabet.len().pow(3));
    for a in alphabet {
        for b in alphabet {
            for c in alphabet {
                queries.push([a, b, c].iter().collect());
            }
        }
    }
    queries
}

#[test]
fn no_input_produces_unbalanced_quotes() {
    for query in hostile_queries() {
        for mode in [Mode::All, Mode::Any] {
            let Some(expression) = expression_with(&query, mode) else {
                continue;
            };
            assert_eq!(
                expression.matches('"').count() % 2,
                0,
                "unbalanced quotes from {query:?} in {mode:?}: {expression}"
            );
        }
    }
}

/// The parser of a real SQLite is the judge of whether an expression can be run.
#[test]
fn no_query_can_make_the_search_index_raise() {
    let connection = rusqlite::Connection::open_in_memory().unwrap();
    connection
        .execute_batch(
            "CREATE VIRTUAL TABLE section_search USING fts5(body, tokenize=\"unicode61 tokenchars '_-.'\");
             INSERT INTO section_search(body) VALUES('Body.')",
        )
        .unwrap();
    for query in hostile_queries() {
        for mode in [Mode::All, Mode::Any] {
            let Some(expression) = expression_with(&query, mode) else {
                continue;
            };
            let result = connection.query_row(
                "SELECT count(*) FROM section_search WHERE section_search MATCH ?1",
                [&expression],
                |row| row.get::<_, i64>(0),
            );
            assert!(
                result.is_ok(),
                "{query:?} in {mode:?} built {expression:?}, which raised {:?}",
                result.err()
            );
        }
    }
}

#[test]
fn identifiers_and_filenames_stay_single_tokens() {
    let connection = rusqlite::Connection::open_in_memory().unwrap();
    connection
        .execute_batch(
            "CREATE VIRTUAL TABLE section_search USING fts5(body, tokenize=\"unicode61 tokenchars '_-.'\");
             INSERT INTO section_search(body)
             VALUES('Call calculate_pivot from sprite.rs, not the cursor-follow helper.')",
        )
        .unwrap();
    let hits = |term: &str| {
        connection
            .query_row(
                "SELECT count(*) FROM section_search WHERE section_search MATCH ?1",
                [expression(term).unwrap()],
                |row| row.get::<_, i64>(0),
            )
            .unwrap()
    };
    for term in ["calculate_pivot", "sprite.rs", "cursor-follow"] {
        assert_eq!(hits(term), 1, "{term} did not match");
    }
    assert_eq!(hits("pivot"), 0);
}

#[test]
fn a_word_is_searchable_when_it_holds_a_letter_or_a_digit() {
    let word: Vec<char> = "a\"b".chars().collect();
    assert_eq!(sanitise(&word).as_deref(), Some("a\"\"b"));
    let marks: Vec<char> = "--".chars().collect();
    assert_eq!(sanitise(&marks), None);
    let other: Vec<char> = "日".chars().collect();
    assert_eq!(sanitise(&other).as_deref(), Some("日"));
}

#[test]
fn a_stopword_is_one_in_any_case_and_among_punctuation() {
    assert!(is_stopword("the"));
    assert!(is_stopword("THE"));
    assert!(is_stopword("(The)?"));
    assert!(!is_stopword("(Theory)?"));
}
