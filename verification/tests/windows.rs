use std::collections::HashSet;

use spark_dump::window::{fmt_offset_ms, index_selector, parse_window_select, single_range, select_windows, IntErrorKind, WindowSelect, WindowSpecError};

fn set(v: &[usize]) -> HashSet<usize> {
    v.iter().copied().collect()
}

#[test]
fn no_selection_means_all() {
    assert!(matches!(parse_window_select(None, None), Ok(WindowSelect::All)));
    assert!(matches!(parse_window_select(Some("all"), None), Ok(WindowSelect::All)));
    assert!(matches!(parse_window_select(Some("ALL"), None), Ok(WindowSelect::All)));
}

#[test]
fn index_tokens_give_indices() {
    match parse_window_select(Some("@0, @3"), None) {
        Ok(WindowSelect::Indices(v)) => assert_eq!(v, vec![0, 3]),
        other => panic!("unexpected {other:?}"),
    }
    match parse_window_select(Some("i1,I12"), None) {
        Ok(WindowSelect::Indices(v)) => assert_eq!(v, vec![1, 12]),
        other => panic!("unexpected {other:?}"),
    }
}

#[test]
fn plain_tokens_give_ids() {
    match parse_window_select(Some("29815743, -4,,7"), None) {
        Ok(WindowSelect::Ids(v)) => assert_eq!(v, vec![29815743, -4, 7]),
        other => panic!("unexpected {other:?}"),
    }
}

#[test]
fn range_wins_over_windows() {
    match parse_window_select(Some("@1"), Some(" 4 , 2")) {
        Ok(WindowSelect::Range(a, b)) => assert_eq!((a, b), (4, 2)),
        other => panic!("unexpected {other:?}"),
    }
}

#[test]
fn window_errors_and_their_messages() {
    let e = parse_window_select(None, Some("5")).unwrap_err();
    assert!(matches!(e, WindowSpecError::RangeShape));
    assert_eq!(e.message(), "--window-range expects start,end");

    let e = parse_window_select(None, Some("a,1")).unwrap_err();
    assert!(matches!(e, WindowSpecError::RangeBound(IntErrorKind::InvalidDigit)));
    assert_eq!(e.message(), "a".parse::<usize>().unwrap_err().to_string());

    let e = parse_window_select(None, Some(",1")).unwrap_err();
    assert_eq!(e.message(), "".parse::<usize>().unwrap_err().to_string());

    let e = parse_window_select(Some(" , ,"), None).unwrap_err();
    assert!(matches!(e, WindowSpecError::Empty));
    assert_eq!(e.message(), "--windows is empty");

    let e = parse_window_select(Some("@0,@x"), None).unwrap_err();
    assert_eq!(e.message(), "invalid window index token '@x' (use @0 or i0)");

    let e = parse_window_select(Some("12,abc"), None).unwrap_err();
    assert_eq!(
        e.message(),
        format!("invalid --windows value (use ids or @index): {}", "abc".parse::<i32>().unwrap_err())
    );

    let e = parse_window_select(Some("99999999999"), None).unwrap_err();
    assert!(matches!(e, WindowSpecError::Id(IntErrorKind::PosOverflow)));
    assert_eq!(
        e.message(),
        format!("invalid --windows value (use ids or @index): {}", "99999999999".parse::<i32>().unwrap_err())
    );
}

#[test]
fn ids_below_i32_are_refused() {
    let e = parse_window_select(Some("-99999999999"), None).unwrap_err();
    assert!(matches!(e, WindowSpecError::Id(IntErrorKind::NegOverflow)));
    assert_eq!(
        e.message(),
        format!("invalid --windows value (use ids or @index): {}", "-99999999999".parse::<i32>().unwrap_err())
    );
}

#[test]
fn signs_are_read_as_std_reads_them() {
    match parse_window_select(None, Some("+1,+2")) {
        Ok(WindowSelect::Range(a, b)) => assert_eq!((a, b), (1, 2)),
        other => panic!("unexpected {other:?}"),
    }
    match parse_window_select(Some("+5,-0"), None) {
        Ok(WindowSelect::Ids(v)) => assert_eq!(v, vec![5, 0]),
        other => panic!("unexpected {other:?}"),
    }
}

#[test]
fn all_selects_every_window_or_the_single_bucket() {
    assert_eq!(select_windows(&vec![], &WindowSelect::All), set(&[0]));
    assert_eq!(select_windows(&vec![7, 8, 9], &WindowSelect::All), set(&[0, 1, 2]));
}

#[test]
fn ids_select_their_windows_or_fall_back_to_the_first() {
    assert_eq!(select_windows(&vec![7, 8, 9], &WindowSelect::Ids(vec![9, 7])), set(&[0, 2]));
    assert_eq!(select_windows(&vec![7, 8, 9], &WindowSelect::Ids(vec![1])), set(&[0]));
}

#[test]
fn range_is_clamped_and_symmetric() {
    assert_eq!(select_windows(&vec![7, 8, 9], &WindowSelect::Range(5, 1)), set(&[1, 2]));
    assert_eq!(select_windows(&vec![7, 8, 9], &WindowSelect::Range(1, 5)), set(&[1, 2]));
    assert_eq!(select_windows(&vec![], &WindowSelect::Range(3, 4)), set(&[0]));
}

#[test]
fn indices_keep_existing_windows_only() {
    assert_eq!(select_windows(&vec![7, 8, 9], &WindowSelect::Indices(vec![0, 7, 2])), set(&[0, 2]));
    assert_eq!(select_windows(&vec![7, 8, 9], &WindowSelect::Indices(vec![5])), set(&[]));
    assert_eq!(select_windows(&vec![], &WindowSelect::Indices(vec![0, 1])), set(&[0]));
}

#[test]
fn offsets_are_hours_minutes_seconds() {
    assert_eq!(fmt_offset_ms(-1), "-");
    assert_eq!(fmt_offset_ms(0), "0s");
    assert_eq!(fmt_offset_ms(59_999), "59s");
    assert_eq!(fmt_offset_ms(61_000), "1m01s");
    assert_eq!(fmt_offset_ms(3_723_000), "1h02m03s");
    assert_eq!(fmt_offset_ms(36_000_000), "10h00m00s");
}

#[test]
fn one_window_by_index_or_range() {
    let ids = vec![7, 8, 9, 10];
    for i in 0..ids.len() {
        let sel = parse_window_select(Some(&format!("@{i}")), None).unwrap();
        assert_eq!(select_windows(&ids, &sel), set(&[i]));
        let sel = parse_window_select(None, Some(&format!("{i},{i}"))).unwrap();
        assert_eq!(select_windows(&ids, &sel), set(&[i]));
    }
}

#[test]
fn selector_texts_read_back() {
    assert_eq!(index_selector(0), "@0");
    assert_eq!(index_selector(42), "@42");
    assert_eq!(single_range(7), "7,7");
    let ids = vec![1, 2, 3];
    for i in 0..3 {
        let sel = parse_window_select(Some(&index_selector(i)), None).unwrap();
        assert_eq!(select_windows(&ids, &sel), set(&[i]));
        let sel = parse_window_select(None, Some(&single_range(i))).unwrap();
        assert_eq!(select_windows(&ids, &sel), set(&[i]));
    }
}
