use chrono::{Datelike, NaiveDate};
use financials::error::AppError;
use financials::portfolio::WealthItem;
use financials::portfolio_import::{
    import_entries, import_records, item_for_header, parse_mapping_form, resolve_target, ColumnTarget, TargetPlan,
};

fn day(y: i32, m: u32, d: u32) -> i32 {
    NaiveDate::from_ymd_opt(y, m, d).unwrap().num_days_from_ce()
}

fn item(id: u128, name: &str, item_type: &str) -> WealthItem {
    WealthItem {
        item_id: id,
        name: name.to_string(),
        item_type: item_type.to_string(),
        position: 0,
    }
}

fn bad_request(e: AppError) -> String {
    match e {
        AppError::BadRequest(m) => m,
        other => panic!("expected a bad request, got {:?}", other),
    }
}

/// Resolves the targets in turn, creating items as the plans ask, and
/// gives the `(column, item, debt)` list and the number of items created.
fn resolve_all(items: &mut Vec<WealthItem>, columns: &[(usize, ColumnTarget)]) -> (Vec<(usize, u128, bool)>, usize) {
    let mut targets = vec![];
    let mut created = 0;
    for (col, t) in columns {
        match resolve_target(items, t) {
            TargetPlan::Skip => {}
            TargetPlan::Item(id, debt) => targets.push((*col, id, debt)),
            TargetPlan::Create { name, item_type, debt } => {
                let id = 1000 + items.len() as u128;
                items.push(item(id, &name, &item_type));
                created += 1;
                targets.push((*col, id, debt));
            }
        }
    }
    (targets, created)
}

#[test]
fn mapping_form_reads_targets_and_names() {
    let body = "tmp_id=abc&date_col=0&date_format=%25d%2F%25m%2F%25Y&col_1=new%3Acash&col_1_name=Savings&col_2=skip&col_3=existing%3A0190&col_3_name=ignored";
    let (tmp, m) = parse_mapping_form(body).unwrap();
    assert_eq!(tmp, "abc");
    assert_eq!(m.date_col, 0);
    assert_eq!(m.date_format, "%d/%m/%Y");
    assert_eq!(m.columns.len(), 3);
    assert!(matches!(&m.columns[0], (1, ColumnTarget::New { name, item_type }) if name == "Savings" && item_type == "cash"));
    assert!(matches!(&m.columns[1], (2, ColumnTarget::Skip)));
    assert!(matches!(&m.columns[2], (3, ColumnTarget::Existing(id)) if id == "0190"));
}

#[test]
fn mapping_form_defaults_and_replacement() {
    let (_, m) = parse_mapping_form("tmp_id=x&date_col=abc&date_format=&col_4=skip&col_4=new%3Adebt&col_4_name=Loan").unwrap();
    assert_eq!(m.date_col, 0);
    assert_eq!(m.date_format, "%d/%m/%Y");
    assert_eq!(m.columns.len(), 1);
    assert!(matches!(&m.columns[0], (4, ColumnTarget::New { name, item_type }) if name == "Loan" && item_type == "debt"));
}

#[test]
fn mapping_form_errors() {
    assert_eq!(bad_request(parse_mapping_form("date_col=1").err().unwrap()), "Missing upload reference");
    assert_eq!(
        bad_request(parse_mapping_form("tmp_id=x&col_1=new%3Acash").err().unwrap()),
        "Column 2 is set to create a new item but has no name"
    );
}

#[test]
fn import_creates_new_items() {
    let recs = import_records("Date,Savings,Mortgage\n01/07/2025,10000,150000\n").unwrap();
    let mut items = vec![];
    let cols = vec![
        (1, ColumnTarget::New { name: "Savings".to_string(), item_type: "cash".to_string() }),
        (2, ColumnTarget::New { name: "Mortgage".to_string(), item_type: "debt".to_string() }),
    ];
    let (targets, created) = resolve_all(&mut items, &cols);
    assert_eq!(created, 2);
    let (entries, imported, skipped) = import_entries(&recs, 0, "%d/%m/%Y", &targets);
    assert_eq!((imported, skipped), (1, 0));
    assert_eq!(entries, vec![(1000, day(2025, 7, 1), 1000000), (1001, day(2025, 7, 1), 15000000)]);
}

#[test]
fn import_flips_negative_debt_but_not_other_items() {
    let recs = import_records("Date,Mortgage,Investment\n01/07/2025,-150000,-5000\n").unwrap();
    let targets = vec![(1, 7, true), (2, 8, false)];
    let (entries, _, _) = import_entries(&recs, 0, "%d/%m/%Y", &targets);
    assert_eq!(entries, vec![(7, day(2025, 7, 1), 15000000), (8, day(2025, 7, 1), -500000)]);
}

#[test]
fn import_skips_empty_cells_and_invalid_dates() {
    let recs = import_records(
        "Date,Savings,Checking\n01/07/2025,5000,\n02/07/2025,,3000\nnot-a-date,1,1\n03/07/2025,6000,4000\n",
    )
    .unwrap();
    let targets = vec![(1, 1, false), (2, 2, false)];
    let (entries, imported, skipped) = import_entries(&recs, 0, "%d/%m/%Y", &targets);
    assert_eq!(imported, 3);
    assert_eq!(skipped, 1);
    assert_eq!(entries.len(), 4);
}

#[test]
fn resolve_target_reuses_and_maps_existing() {
    let items = vec![item(5, "Savings", "cash"), item(0x0190_0000_0000_0000_0000_0000_0000_0001, "Loan", "debt")];
    assert!(matches!(
        resolve_target(&items, &ColumnTarget::New { name: "Savings".to_string(), item_type: "debt".to_string() }),
        TargetPlan::Item(5, false)
    ));
    assert!(matches!(
        resolve_target(&items, &ColumnTarget::Existing("01900000-0000-0000-0000-000000000001".to_string())),
        TargetPlan::Item(id, true) if id == 0x0190_0000_0000_0000_0000_0000_0000_0001
    ));
    assert!(matches!(resolve_target(&items, &ColumnTarget::Existing("nope".to_string())), TargetPlan::Skip));
    assert!(matches!(resolve_target(&items, &ColumnTarget::Skip), TargetPlan::Skip));
    assert!(matches!(
        resolve_target(&items, &ColumnTarget::New { name: "Car".to_string(), item_type: "asset".to_string() }),
        TargetPlan::Create { debt: false, .. }
    ));
}

#[test]
fn import_records_rejects_header_only_file() {
    assert_eq!(bad_request(import_records("Date,Savings\n").err().unwrap()), "CSV file is empty");
}

#[test]
fn item_for_header_ignores_ascii_case() {
    let items = vec![item(1, "Savings", "cash"), item(2, "SAVINGS", "cash"), item(3, "Éclair", "asset")];
    assert_eq!(item_for_header(&items, "savings"), Some(1));
    assert_eq!(item_for_header(&items, "éclair"), None);
    assert_eq!(item_for_header(&items, "Éclair"), Some(3));
    assert_eq!(item_for_header(&items, "Loan"), None);
}
