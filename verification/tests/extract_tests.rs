use job_tags::extract::{collect, extract, extract_row, retain_known, ExtractError, Row, RowOutcome};
use job_tags::matcher::Matcher;
use job_tags::result_map::ResultMap;
use job_tags::vocabulary::{Tag, Vocabulary};

fn tags(texts: &[&str]) -> Vec<Tag> {
    texts.iter().map(|text| Tag::new(text.to_string()).unwrap()).collect()
}

fn strings(texts: &[&str]) -> Vec<String> {
    texts.iter().map(|text| text.to_string()).collect()
}

fn row(id: i64, text: &str) -> Row {
    Row { description: Some(text.to_string()), id: Some(id) }
}

fn bare(id: i64) -> Row {
    Row { description: None, id: Some(id) }
}

fn literal(texts: &[&str]) -> Matcher {
    Matcher::literal(&tags(texts)).unwrap()
}

#[test]
fn without_filter_all_matches_stay() {
    assert_eq!(retain_known(strings(&["a", "b", "a"]), None), strings(&["a", "b", "a"]));
}

#[test]
fn filter_keeps_known_words_in_order_with_repeats() {
    let known = Vocabulary::from_tags(&tags(&["SQL", "Python"]));
    assert_eq!(
        retain_known(strings(&["I", "use", "Python", "and", "SQL", "and", "Python"]), Some(&known)),
        strings(&["Python", "SQL", "Python"])
    );
}

#[test]
fn filter_minds_case() {
    let known = Vocabulary::from_tags(&tags(&["Python"]));
    assert_eq!(retain_known(strings(&["python", "PYTHON", "Python"]), Some(&known)), strings(&["Python"]));
}

#[test]
fn empty_filter_keeps_nothing() {
    let known = Vocabulary::new();
    assert_eq!(retain_known(strings(&["a", "b"]), Some(&known)), strings(&[]));
}

#[test]
fn row_without_description_is_skipped() {
    let matcher = literal(&["Python"]);
    assert_eq!(extract_row(&bare(3), &matcher, None), RowOutcome::Skipped);
}

#[test]
fn row_without_description_or_identifier_is_skipped() {
    let matcher = literal(&["Python"]);
    let empty = Row { description: None, id: None };
    assert_eq!(extract_row(&empty, &matcher, None), RowOutcome::Skipped);
}

#[test]
fn row_without_identifier_is_reported() {
    let matcher = literal(&["Python"]);
    let nameless = Row { description: Some("Python".to_string()), id: None };
    assert_eq!(extract_row(&nameless, &matcher, None), RowOutcome::IdentifierInvalid);
}

#[test]
fn row_gives_its_tags() {
    let matcher = literal(&["Python", "SQL"]);
    assert_eq!(
        extract_row(&row(1, "I use Python and SQL daily"), &matcher, None),
        RowOutcome::Tags { id: 1, tags: strings(&["Python", "SQL"]) }
    );
}

#[test]
fn row_without_tags_gives_an_empty_list() {
    let matcher = literal(&["Python", "SQL"]);
    assert_eq!(
        extract_row(&row(2, "No mention of suspicious words"), &matcher, None),
        RowOutcome::Tags { id: 2, tags: strings(&[]) }
    );
}

#[test]
fn description_is_cleaned_before_it_is_scanned() {
    let matcher = literal(&["Python"]);
    assert_eq!(
        extract_row(&row(5, "We like Py\\nthon here"), &matcher, None),
        RowOutcome::Tags { id: 5, tags: strings(&["Python"]) }
    );
    let tokens = Matcher::tokenizer().unwrap();
    assert_eq!(
        extract_row(&row(5, "Py\\nthon\\n rocks"), &tokens, None),
        RowOutcome::Tags { id: 5, tags: strings(&["Python", "rocks"]) }
    );
}

#[test]
fn escaped_newline_between_words_joins_them() {
    let matcher = literal(&["Python", "SQL"]);
    assert_eq!(
        extract_row(&row(6, "Python\\nSQL"), &matcher, None),
        RowOutcome::Tags { id: 6, tags: strings(&[]) }
    );
}

#[test]
fn real_newline_still_parts_words() {
    let matcher = literal(&["Python", "SQL"]);
    assert_eq!(
        extract_row(&row(6, "Python\nSQL"), &matcher, None),
        RowOutcome::Tags { id: 6, tags: strings(&["Python", "SQL"]) }
    );
}

#[test]
fn tags_are_reported_as_written_in_the_text() {
    let matcher = literal(&["Python", "sql"]);
    assert_eq!(
        extract_row(&row(9, "PYTHON, Sql and python"), &matcher, None),
        RowOutcome::Tags { id: 9, tags: strings(&["PYTHON", "Sql", "python"]) }
    );
}

#[test]
fn tag_with_meta_characters_in_a_row() {
    let matcher = literal(&["C++"]);
    assert_eq!(
        extract_row(&row(1, "Needs C++ experience"), &matcher, None),
        RowOutcome::Tags { id: 1, tags: strings(&[]) }
    );
    assert_eq!(
        extract_row(&row(1, "Needs C++14 experience"), &matcher, None),
        RowOutcome::Tags { id: 1, tags: strings(&["C++"]) }
    );
}

#[test]
fn collect_of_nothing_is_empty() {
    assert_eq!(collect(Vec::new()), Ok(ResultMap::new()));
}

#[test]
fn collect_gathers_by_identifier() {
    let map = collect(vec![
        RowOutcome::Tags { id: 1, tags: strings(&["a"]) },
        RowOutcome::Skipped,
        RowOutcome::Tags { id: 2, tags: strings(&[]) },
    ])
    .unwrap();
    assert_eq!(map.len(), 2);
    assert_eq!(map.get(1), Some(&strings(&["a"])));
    assert_eq!(map.get(2), Some(&strings(&[])));
}

#[test]
fn collect_lets_the_later_row_stand() {
    let map = collect(vec![
        RowOutcome::Tags { id: 42, tags: strings(&["first"]) },
        RowOutcome::Tags { id: 7, tags: strings(&["other"]) },
        RowOutcome::Tags { id: 42, tags: strings(&["second"]) },
    ])
    .unwrap();
    assert_eq!(map.len(), 2);
    assert_eq!(map.get(42), Some(&strings(&["second"])));
    assert_eq!(map.get(7), Some(&strings(&["other"])));
}

#[test]
fn collect_names_the_first_row_without_identifier() {
    let outcome = collect(vec![
        RowOutcome::Tags { id: 1, tags: strings(&["a"]) },
        RowOutcome::Skipped,
        RowOutcome::IdentifierInvalid,
        RowOutcome::Tags { id: 2, tags: strings(&[]) },
        RowOutcome::IdentifierInvalid,
    ]);
    assert_eq!(outcome, Err(ExtractError::RowIdentifierInvalid { row: 2 }));
}

#[test]
fn extract_of_no_rows_is_empty() {
    let matcher = literal(&["Python"]);
    assert_eq!(extract(&Vec::new(), &matcher, None), Ok(ResultMap::new()));
}

#[test]
fn row_without_description_leaves_no_key() {
    let matcher = literal(&["Python"]);
    let map = extract(&vec![bare(3), row(4, "nothing here")], &matcher, None).unwrap();
    assert_eq!(map.len(), 1);
    assert!(!map.contains_key(3));
    assert_eq!(map.get(3), None);
    assert_eq!(map.get(4), Some(&strings(&[])));
}

#[test]
fn rows_sharing_an_identifier_share_one_entry() {
    let matcher = literal(&["Python", "SQL"]);
    let rows = vec![row(42, "Python only"), row(42, "SQL only")];
    let map = extract(&rows, &matcher, None).unwrap();
    assert_eq!(map.len(), 1);
    assert_eq!(map.get(42), Some(&strings(&["SQL"])));
    let turned = vec![row(42, "SQL only"), row(42, "Python only")];
    let map = extract(&turned, &matcher, None).unwrap();
    assert_eq!(map.len(), 1);
    assert_eq!(map.get(42), Some(&strings(&["Python"])));
}

#[test]
fn later_row_without_description_does_not_take_the_entry() {
    let matcher = literal(&["Python"]);
    let map = extract(&vec![row(42, "Python"), bare(42)], &matcher, None).unwrap();
    assert_eq!(map.len(), 1);
    assert_eq!(map.get(42), Some(&strings(&["Python"])));
}

#[test]
fn extract_fails_on_the_first_row_without_identifier() {
    let matcher = literal(&["Python"]);
    let rows = vec![
        row(1, "Python"),
        Row { description: None, id: None },
        Row { description: Some("Python".to_string()), id: None },
        Row { description: Some("SQL".to_string()), id: None },
    ];
    assert_eq!(extract(&rows, &matcher, None), Err(ExtractError::RowIdentifierInvalid { row: 2 }));
}

#[test]
fn extract_is_collect_of_the_rows_outcomes() {
    let matcher = literal(&["Python", "SQL"]);
    let rows = vec![row(1, "Python"), bare(2), row(3, "sql\\n"), row(1, "none")];
    let outcomes: Vec<RowOutcome> = rows.iter().map(|each| extract_row(each, &matcher, None)).collect();
    assert_eq!(collect(outcomes), extract(&rows, &matcher, None));
}

#[test]
fn literal_pass_end_to_end() {
    let matcher = literal(&["Python", "SQL"]);
    let rows = vec![
        row(1, "I use Python and SQL daily"),
        row(2, "No mention of suspicious words"),
        bare(3),
    ];
    let map = extract(&rows, &matcher, None).unwrap();
    assert_eq!(map.len(), 2);
    assert_eq!(map.get(1), Some(&strings(&["Python", "SQL"])));
    assert_eq!(map.get(2), Some(&strings(&[])));
    assert!(!map.contains_key(3));
}

#[test]
fn token_pass_end_to_end() {
    let vocabulary = tags(&["Python", "SQL"]);
    let matcher = Matcher::tokenizer().unwrap();
    let known = Vocabulary::from_tags(&vocabulary);
    let rows = vec![
        row(1, "I use Python and SQL daily"),
        row(2, "No mention of suspicious words"),
        bare(3),
    ];
    let map = extract(&rows, &matcher, Some(&known)).unwrap();
    assert_eq!(map.len(), 2);
    assert_eq!(map.get(1), Some(&strings(&["Python", "SQL"])));
    assert_eq!(map.get(2), Some(&strings(&[])));
    assert!(!map.contains_key(3));
}

#[test]
fn the_two_passes_can_disagree() {
    let vocabulary = tags(&["Python", "SQL"]);
    let words = literal(&["Python", "SQL"]);
    let tokens = Matcher::tokenizer().unwrap();
    let known = Vocabulary::from_tags(&vocabulary);
    let rows = vec![row(1, "i use python and Sql daily, and SQL")];
    let by_words = extract(&rows, &words, None).unwrap();
    let by_tokens = extract(&rows, &tokens, Some(&known)).unwrap();
    assert_eq!(by_words.get(1), Some(&strings(&["python", "Sql", "SQL"])));
    assert_eq!(by_tokens.get(1), Some(&strings(&["SQL"])));
}

#[test]
fn tokens_never_hold_a_tag_of_several_words() {
    let vocabulary = tags(&["machine learning"]);
    let words = Matcher::literal(&vocabulary).unwrap();
    let tokens = Matcher::tokenizer().unwrap();
    let known = Vocabulary::from_tags(&vocabulary);
    let rows = vec![row(1, "machine learning")];
    assert_eq!(
        extract(&rows, &words, None).unwrap().get(1),
        Some(&strings(&["machine learning"]))
    );
    assert_eq!(extract(&rows, &tokens, Some(&known)).unwrap().get(1), Some(&strings(&[])));
}

#[test]
fn result_is_written_with_identifiers_as_keys() {
    let matcher = literal(&["Python", "SQL"]);
    let rows = vec![
        row(1, "I use Python and SQL daily"),
        row(2, "No mention of suspicious words"),
        bare(3),
    ];
    let map = extract(&rows, &matcher, None).unwrap();
    let written = serde_json::to_string(&map.into_entries()).unwrap();
    let read: serde_json::Value = serde_json::from_str(&written).unwrap();
    let object = read.as_object().unwrap();
    assert_eq!(object.len(), 2);
    assert_eq!(
        object["1"],
        serde_json::Value::Array(vec![
            serde_json::Value::String("Python".to_string()),
            serde_json::Value::String("SQL".to_string()),
        ])
    );
    assert_eq!(object["2"], serde_json::Value::Array(Vec::new()));
}

#[test]
fn parts_gathered_apart_merge_into_the_whole() {
    let matcher = literal(&["Python", "SQL"]);
    let first = vec![row(1, "Python"), row(2, "SQL"), bare(9)];
    let second = vec![row(2, "Python and SQL"), row(3, "neither")];
    let mut whole = first.clone();
    whole.extend(second.clone());
    let mut merged = extract(&first, &matcher, None).unwrap();
    merged.merge(extract(&second, &matcher, None).unwrap());
    assert_eq!(merged, extract(&whole, &matcher, None).unwrap());
    assert_eq!(merged.get(2), Some(&strings(&["Python", "SQL"])));
    assert_eq!(merged.total_tags(), 3);
}
