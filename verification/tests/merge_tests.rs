use gitjournal::grid::{Grid, Row, RowData};
use gitjournal::merge::{merge_entries, MergeError};
use gitjournal::model::JournalEntry;
use gitjournal::time::Timestamp;

fn day_ts(day: u32, minute: u32) -> Timestamp {
    Timestamp { year: 2024, month: 11, day, hour: 1, minute, second: 0 }
}

fn create_journal_entry(day: u32, id: &str, minute: Option<u32>) -> JournalEntry {
    let minute = minute.unwrap_or(0);
    JournalEntry {
        id: id.into(),
        date: day_ts(day, minute),
        summary: format!("Summary-{}", id),
        description: format!("description-{}", id),
        duration: day as i32,
        reference: Some(format!("#4-{}", id)),
        commit_url: Some(format!("https://gh.com/12345-{}", id)),
    }
}

fn anchor_row(day: u32, id: &str) -> Row {
    Row::Data(RowData {
        date: Some(day_ts(day, 0)),
        summary: format!("Summary-{}", id),
        description: format!("description-{}", id),
        duration: Some(day as i64),
        id: id.into(),
        link: None,
        reference: None,
    })
}

fn row_day(r: &Row) -> u32 {
    match r {
        Row::Data(d) => d.date.as_ref().unwrap().day,
        Row::Header => panic!("header row has no day"),
    }
}

#[test]
fn from_empty_spreadsheet() {
    let mut grid = Grid::new();
    let entries = vec![
        create_journal_entry(13, "13", None),
        create_journal_entry(16, "16", Some(5)),
        create_journal_entry(14, "14", None),
    ];
    let total_rows = merge_entries(&mut grid, entries).expect("Error generating file");
    assert_eq!(3 + 1, total_rows, "Rows count does not match");
    assert!(matches!(grid.rows[0], Row::Header));
    assert_eq!(row_day(&grid.rows[1]), 13);
    assert_eq!(row_day(&grid.rows[2]), 14);
    assert_eq!(row_day(&grid.rows[3]), 16);
}

#[test]
fn merge_with_existing_rows() {
    let mut grid = Grid::new();
    grid.rows.push(Row::Header);
    grid.rows.push(anchor_row(5, "1fedite"));
    grid.rows.push(anchor_row(12, "existing12"));
    let entries = vec![
        create_journal_entry(4, "before", None),
        create_journal_entry(6, "inbetween", Some(30)),
        create_journal_entry(5, "1fedite", None), // same id, discarded
        create_journal_entry(13, "after1", None),
        create_journal_entry(16, "after2", None),
        create_journal_entry(14, "after3", None), // items are reordered
    ];
    let total_rows = merge_entries(&mut grid, entries).expect("Error generating file");
    assert_eq!(8, total_rows, "Rows count does not match");
    let days: Vec<u32> = grid.rows[1..].iter().map(row_day).collect();
    assert_eq!(days, vec![4, 5, 6, 12, 13, 14, 16]);
}

#[test]
fn ordering_corruption_fails_before_any_write() {
    let mut grid = Grid::new();
    grid.rows.push(Row::Header);
    grid.rows.push(anchor_row(16, "later"));
    grid.rows.push(anchor_row(13, "earlier"));
    let entries = vec![create_journal_entry(14, "new", None)];
    let result = merge_entries(&mut grid, entries);
    assert_eq!(result, Err(MergeError::OrderingCorruption));
    assert_eq!(grid.rows.len(), 3, "the grid must stay untouched");
    assert_eq!(row_day(&grid.rows[1]), 16);
    assert_eq!(row_day(&grid.rows[2]), 13);
}

#[test]
fn invalid_rows_are_skipped() {
    let mut grid = Grid::new();
    grid.rows.push(Row::Header);
    grid.rows.push(anchor_row(16, "later"));
    // a row without an identifier is no anchor: the earlier date does not
    // count as ordering corruption
    grid.rows.push(Row::Data(RowData {
        date: Some(day_ts(2, 0)),
        summary: String::new(),
        description: String::new(),
        duration: None,
        id: String::new(),
        link: None,
        reference: None,
    }));
    let entries = vec![create_journal_entry(17, "new", None)];
    let total = merge_entries(&mut grid, entries).expect("merge must succeed");
    assert_eq!(total, 4);
    assert_eq!(row_day(&grid.rows[3]), 17);
}

#[test]
fn merging_twice_changes_nothing() {
    let mut grid = Grid::new();
    grid.rows.push(Row::Header);
    grid.rows.push(anchor_row(5, "old5"));
    grid.rows.push(anchor_row(12, "old12"));
    let batch = || {
        vec![
            create_journal_entry(4, "a", None),
            create_journal_entry(6, "b", None),
            create_journal_entry(14, "c", None),
        ]
    };
    let first = merge_entries(&mut grid, batch()).expect("first merge");
    let snapshot: Vec<String> = grid.rows[1..]
        .iter()
        .map(|r| match r {
            Row::Data(d) => format!("{}-{}", d.id, row_day(r)),
            Row::Header => String::new(),
        })
        .collect();
    let second = merge_entries(&mut grid, batch()).expect("second merge");
    assert_eq!(first, second);
    let snapshot2: Vec<String> = grid.rows[1..]
        .iter()
        .map(|r| match r {
            Row::Data(d) => format!("{}-{}", d.id, row_day(r)),
            Row::Header => String::new(),
        })
        .collect();
    assert_eq!(snapshot, snapshot2);
}

#[test]
fn empty_batch_on_empty_grid() {
    let mut grid = Grid::new();
    let total = merge_entries(&mut grid, Vec::new()).expect("merge must succeed");
    assert_eq!(total, 0);
    assert_eq!(grid.rows.len(), 0);
}

#[test]
fn negative_duration_entries_merge() {
    let mut grid = Grid::new();
    let mut e = create_journal_entry(13, "adjust", None);
    e.duration = -45;
    let total = merge_entries(&mut grid, vec![e]).expect("merge must succeed");
    assert_eq!(total, 2);
    match &grid.rows[1] {
        Row::Data(d) => assert_eq!(d.duration, Some(-45)),
        Row::Header => panic!("expected a data row"),
    }
}
