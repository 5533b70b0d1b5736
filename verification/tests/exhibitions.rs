use ulla_site::dates::Date;
use ulla_site::exhibitions::{
    current_exhibitions, current_exhibitions_now, group_exhibitions_by_year, order_bytes,
    select_current_exhibitions, ByteOrder,
};

fn rec(v: &[&str]) -> Vec<String> {
    v.iter().map(|s| s.to_string()).collect()
}

fn day(year: i32, month: u32, day: u32) -> Date {
    Date { year, month, day }
}

#[test]
fn exhibitions_are_grouped_by_year_latest_first() {
    let rows = vec![
        rec(&["A", "20230105", "20230301", "", "1"]),
        rec(&["B", "20240210", "20240301", "", "2"]),
        rec(&["C", "20231111", "20231201", "", "3"]),
        rec(&["D", "20210101", "20210201", "", "4"]),
    ];
    let groups = group_exhibitions_by_year(&rows);
    assert_eq!(groups.iter().map(|g| g.len()).sum::<usize>(), rows.len());
    assert_eq!(groups, vec![
        vec![rows[1].clone()],
        vec![rows[0].clone(), rows[2].clone()],
        vec![rows[3].clone()],
    ]);
}

#[test]
fn grouping_no_exhibitions_gives_no_groups() {
    assert!(group_exhibitions_by_year(&vec![]).is_empty());
}

#[test]
fn grouping_orders_years_as_text() {
    // "999x" sorts after "1999" as text, so it comes first.
    let rows = vec![rec(&["A", "19990101"]), rec(&["B", "999x0101"])];
    let groups = group_exhibitions_by_year(&rows);
    assert_eq!(groups, vec![vec![rows[1].clone()], vec![rows[0].clone()]]);
}

#[test]
fn byte_order_is_lexicographic() {
    assert!(matches!(order_bytes(b"2023", b"2024"), ByteOrder::Before));
    assert!(matches!(order_bytes(b"2024", b"2024"), ByteOrder::Same));
    assert!(matches!(order_bytes(b"2024", b"2023"), ByteOrder::After));
    assert!(matches!(order_bytes(b"202", b"2024"), ByteOrder::Before));
    assert!(matches!(order_bytes(b"3", b"2024"), ByteOrder::After));
}

#[test]
fn current_exhibitions_keep_those_not_yet_ended() {
    let rows = vec![
        rec(&["Old", "20200101", "20200301", "l1", "1"]),
        rec(&["Now", "20240501", "20240701", "l2", "2"]),
        rec(&["Ends today", "20240101", "20240601", "l3", "3"]),
    ];
    let out = current_exhibitions(&rows, day(2024, 6, 1)).unwrap();
    assert_eq!(out, vec![
        rec(&["Now", "2024.05.01", "2024.07.01", "l2", "2"]),
        rec(&["Ends today", "2024.01.01", "2024.06.01", "l3", "3"]),
    ]);
}

#[test]
fn current_exhibitions_need_readable_end_dates() {
    let rows = vec![rec(&["Bad", "20240101", "2024-07-01", "", "1"])];
    assert!(current_exhibitions(&rows, day(2024, 6, 1)).is_none());
    let short = vec![rec(&["No end", "20240101"])];
    assert!(current_exhibitions(&short, day(2024, 6, 1)).is_none());
}

#[test]
fn current_exhibitions_need_formattable_start_dates() {
    let rows = vec![rec(&["Odd", "2024", "20240701", "", "1"])];
    assert!(current_exhibitions(&rows, day(2024, 6, 1)).is_none());
    // A past exhibition's start date is never formatted.
    assert_eq!(current_exhibitions(&rows, day(2025, 1, 1)), Some(vec![]));
}

#[test]
fn current_exhibitions_reject_impossible_dates() {
    let rows = vec![rec(&["Feb", "20240101", "20240230", "", "1"])];
    assert!(current_exhibitions(&rows, day(2024, 1, 1)).is_none());
}

#[test]
fn selecting_with_given_end_dates() {
    let rows = vec![rec(&["X", "20240101", "whatever", "", "1"]), rec(&["Y", "20230101", "20230202", "", "2"])];
    let tills = vec![day(2024, 12, 31), day(2023, 2, 2)];
    let out = select_current_exhibitions(&rows, &tills, day(2024, 1, 1));
    assert_eq!(out.len(), 1);
    assert_eq!(out[0][0], "X");
    assert_eq!(out[0][1], "2024.01.01");
}

#[test]
fn exhibitions_far_in_the_future_are_current_now() {
    let rows = vec![rec(&["Future", "30000101", "30000202", "", "1"]), rec(&["Past", "19000101", "19000202", "", "2"])];
    let out = current_exhibitions_now(&rows).unwrap();
    assert_eq!(out, vec![rec(&["Future", "3000.01.01", "3000.02.02", "", "1"])]);
}

#[test]
fn dates_compare_chronologically() {
    assert!(day(2024, 1, 31).is_on_or_before(&day(2024, 2, 1)));
    assert!(day(2024, 2, 1).is_on_or_before(&day(2024, 2, 1)));
    assert!(!day(2025, 1, 1).is_on_or_before(&day(2024, 12, 31)));
}
