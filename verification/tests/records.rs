use ulla_site::records::{delete_query, extract_row, extract_rows, ids_query, next_id, Row};

fn row(cols: &[(&str, &str)]) -> Row {
    Row { columns: cols.iter().map(|(n, v)| (n.to_string(), v.to_string())).collect() }
}

fn strings(v: &[&str]) -> Vec<String> {
    v.iter().map(|s| s.to_string()).collect()
}

#[test]
fn row_get_reads_the_named_column() {
    let r = row(&[("id", "3"), ("title", "Rain"), ("title", "later")]);
    assert_eq!(r.get("title"), "Rain");
    assert_eq!(r.get("id"), "3");
}

#[test]
fn extract_rows_picks_columns_in_key_order() {
    let rows = vec![
        row(&[("title", "A"), ("fromm", "20240101"), ("id", "1")]),
        row(&[("id", "2"), ("fromm", "20230505"), ("title", "B")]),
    ];
    let out = extract_rows(rows, vec!["id", "title"]);
    assert_eq!(out, vec![strings(&["1", "A"]), strings(&["2", "B"])]);
}

#[test]
fn extract_rows_of_no_rows_is_empty() {
    assert!(extract_rows(vec![], vec!["id"]).is_empty());
}

#[test]
fn extract_row_picks_columns_in_key_order() {
    let r = row(&[("title_eng", "Sea"), ("pictures", "[]"), ("id", "9")]);
    assert_eq!(extract_row(r, vec!["id", "pictures", "title_eng"]), strings(&["9", "[]", "Sea"]));
}

#[test]
fn next_id_is_one_more_than_the_largest_id() {
    assert_eq!(next_id(&strings(&["3", "10", "7"])), 11);
}

#[test]
fn next_id_ignores_ids_that_are_not_numbers() {
    assert_eq!(next_id(&strings(&["x", "4", "", "12b"])), 5);
    assert_eq!(next_id(&strings(&["abc"])), 0);
}

#[test]
fn next_id_of_an_empty_table_is_zero() {
    assert_eq!(next_id(&vec![]), 0);
}

#[test]
fn next_id_follows_negative_ids() {
    assert_eq!(next_id(&strings(&["-5", "-9"])), -4);
}

#[test]
fn ids_given_out_increase() {
    let mut ids = strings(&["0", "1"]);
    let first = next_id(&ids);
    assert_eq!(first, 2);
    ids.push(first.to_string());
    assert_eq!(next_id(&ids), 3);
}

#[test]
fn queries_name_the_table() {
    assert_eq!(ids_query("projects"), "SELECT id FROM projects");
    assert_eq!(delete_query("exhibitions"), "DELETE FROM exhibitions WHERE id = ?");
}
