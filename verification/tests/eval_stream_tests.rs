use bee_search::eval_stream::{eval_entries_from_lines, read_captures, unescape_text, RawEvalEntry};

fn stream() -> Vec<String> {
    vec![
        "[".to_string(),
        "  {".to_string(),
        "    \"position\": \"Base;InProgress;White[1]\",".to_string(),
        "    \"evaluation\": -12.5,".to_string(),
        "    \"winner\": 1,".to_string(),
        "  },".to_string(),
        "  {".to_string(),
        "    \"evaluation\": 3".to_string(),
        "  },".to_string(),
        "  { \"position\": \"a\\\\b\", \"static_eval\": 7 }".to_string(),
        "]".to_string(),
    ]
}

fn texts(e: &RawEvalEntry) -> (String, Option<String>, Option<String>, Option<String>) {
    (e.position.clone(), e.evaluation.clone(), e.winner.clone(), e.static_eval.clone())
}

#[test]
fn eval_entries_read_records_with_positions() {
    let r = eval_entries_from_lines(&stream(), None);
    assert_eq!(r.len(), 2);
    assert_eq!(
        texts(&r[0]),
        ("Base;InProgress;White[1]".to_string(), Some("-12.5".to_string()), Some("1".to_string()), None)
    );
    assert_eq!(texts(&r[1]), ("a\\b".to_string(), None, None, Some("7".to_string())));
}

#[test]
fn eval_entries_stop_at_the_limit() {
    assert_eq!(eval_entries_from_lines(&stream(), Some(1)).len(), 1);
    assert_eq!(eval_entries_from_lines(&stream(), Some(0)).len(), 1);
    assert_eq!(eval_entries_from_lines(&stream(), Some(5)).len(), 2);
    assert_eq!(eval_entries_from_lines(&Vec::new(), Some(0)).len(), 0);
}

#[test]
fn eval_entries_drop_fields_of_records_without_position() {
    let lines = vec![
        "{\"evaluation\": 4}".to_string(),
        "{\"position\": \"p\"}".to_string(),
    ];
    let r = eval_entries_from_lines(&lines, None);
    assert_eq!(r.len(), 1);
    assert_eq!(texts(&r[0]), ("p".to_string(), None, None, None));
}

#[test]
fn unescape_makes_backslash_pairs_one() {
    assert_eq!(unescape_text("a\\\\b"), "a\\b");
    assert_eq!(unescape_text("\\\\\\"), "\\\\");
    assert_eq!(unescape_text("plain"), "plain");
}

#[test]
fn captures_fill_fields_and_a_closing_line_ends_the_record() {
    let s = |x: &str| Some(x.to_string());
    let (f, rec) = read_captures((None, s("1"), None, None), s("a\\\\b"), None, s("0.5"), None, false);
    assert_eq!(f, (s("a\\b"), s("1"), s("0.5"), None));
    assert!(rec.is_none());
    let (f, rec) = read_captures(f, None, s("-3"), None, s("7"), true);
    assert_eq!(f, (None, None, None, None));
    let r = rec.unwrap();
    assert_eq!(texts(&r), ("a\\b".to_string(), s("-3"), s("0.5"), s("7")));
    let (f, rec) = read_captures((None, s("2"), None, None), None, None, None, None, true);
    assert_eq!(f, (None, None, None, None));
    assert!(rec.is_none());
}
