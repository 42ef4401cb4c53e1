use pdf_expenses::error::PdfError;
use pdf_expenses::pdf_expense_category::PdfExpenseCategory;
use pdf_expenses::pdf_line_item::PdfLineItem;
use pdf_expenses::pdf_sorted_dir::allocate;
use pdf_expenses::run_generate;
use pdf_expenses::run_sort;

fn record(name: &str) -> PdfLineItem {
    let path = format!("receipts/{}", name);
    PdfLineItem::new("receipts", &path).unwrap()
}

#[test]
fn allocate_splits_even_cents_equally() {
    let item = record("010125-Acme-10.00-Lunch-Meals-split.pdf");
    let (south, utica) = allocate(&item).unwrap();
    assert_eq!(south.cost.render(), "5.00");
    assert_eq!(utica.cost.render(), "5.00");
    assert_eq!(south.trimmed_path, "010125-Acme-5.00-Lunch-Meals-southroads.pdf");
    assert_eq!(utica.trimmed_path, "010125-Acme-5.00-Lunch-Meals-utica.pdf");
}

#[test]
fn allocate_gives_odd_extra_cent_to_utica() {
    let item = record("010125-Acme-10.01-Lunch-Meals-split.pdf");
    let (south, utica) = allocate(&item).unwrap();
    assert_eq!(south.cost.render(), "5.00");
    assert_eq!(utica.cost.render(), "5.01");
    // the two halves reconcile to the original exactly
    assert!(south.cost.add(utica.cost).eq_value(&item.cost));
}

#[test]
fn allocate_rejects_non_split_record() {
    let item = record("010125-Acme-10.00-Lunch-Meals-utica.pdf");
    let r = allocate(&item);
    assert!(matches!(r, Err(PdfError::InvalidSplitInput(_))));
}

#[test]
fn allocate_reports_unreconcilable_cost() {
    // 10.005 is not a whole number of cents: the halves cannot sum back
    let item = record("010125-Acme-10.005-Lunch-Meals-split.pdf");
    let r = allocate(&item);
    assert!(matches!(r, Err(PdfError::SplitInvariantViolation(_))));
}

#[test]
fn categorizer_keeps_first_seen_order_and_totals() {
    let items = vec![
        record("010125-Acme-12.50-Lunch-Meals-southroads.pdf"),
        record("020125-Cafe-7.25-Dinner-Meals-utica.pdf"),
        record("030125-Rail-3.00-Ticket-Travel-utica.pdf"),
    ];
    let groups = PdfExpenseCategory::new_from_line_items(items);
    assert_eq!(groups.len(), 2);
    assert_eq!(groups[0].name, "Meals");
    assert_eq!(groups[0].line_items.len(), 2);
    assert_eq!(groups[0].line_items[0].vendor, "Acme");
    assert_eq!(groups[0].line_items[1].vendor, "Cafe");
    assert_eq!(groups[0].total_cost.render(), "19.75");
    assert_eq!(groups[1].name, "Travel");
    assert_eq!(groups[1].line_items.len(), 1);
    assert_eq!(groups[1].total_cost.render(), "3.00");
}

#[test]
fn invoice_grand_total_matches_direct_sum() {
    let items = vec![
        record("010125-Acme-12.50-Lunch-Meals-southroads.pdf"),
        record("020125-Cafe-7.25-Dinner-Meals-utica.pdf"),
        record("030125-Rail-3.00-Ticket-Travel-utica.pdf"),
    ];
    let invoice = run_generate(items, "Quarterly Expenses");
    assert_eq!(invoice.total_cost.render(), "22.75");
    assert_eq!(invoice.name, "Quarterly Expenses");
    assert_eq!(invoice.file_name, "quarterly_expenses.pdf");
    assert_eq!(invoice.expense_categories.len(), 2);
}

#[test]
fn sort_of_empty_input_still_names_all_three_dirs() {
    let (dirs, copies) = run_sort(vec![], "out").unwrap();
    assert_eq!(dirs.root(), "out");
    assert_eq!(dirs.southroads(), "out/southroads");
    assert_eq!(dirs.utica(), "out/utica");
    assert_eq!(copies.len(), 0);
}

#[test]
fn sort_duplicates_split_record_into_both_dirs() {
    let items = vec![record("010125-Acme-7.01-Lunch-Meals-split.pdf")];
    let (_, copies) = run_sort(items, "out").unwrap();
    assert_eq!(copies.len(), 2);
    assert_eq!(copies[0].src, "receipts/010125-Acme-7.01-Lunch-Meals-split.pdf");
    assert_eq!(copies[0].dst, "out/southroads/010125-Acme-3.50-Lunch-Meals-southroads.pdf");
    assert_eq!(copies[1].src, "receipts/010125-Acme-7.01-Lunch-Meals-split.pdf");
    assert_eq!(copies[1].dst, "out/utica/010125-Acme-3.51-Lunch-Meals-utica.pdf");
}

#[test]
fn sort_splits_even_cost_equally() {
    let items = vec![record("010125-Acme-7.00-Lunch-Meals-split.pdf")];
    let (_, copies) = run_sort(items, "out").unwrap();
    assert_eq!(copies.len(), 2);
    assert_eq!(copies[0].dst, "out/southroads/010125-Acme-3.50-Lunch-Meals-southroads.pdf");
    assert_eq!(copies[1].dst, "out/utica/010125-Acme-3.50-Lunch-Meals-utica.pdf");
}

#[test]
fn sort_copies_plain_records_once_in_order() {
    let items = vec![
        record("010125-Acme-12.50-Lunch-Meals-southroads.pdf"),
        record("020125-Cafe-7.25-Dinner-Meals-utica.pdf"),
    ];
    let (_, copies) = run_sort(items, "out").unwrap();
    assert_eq!(copies.len(), 2);
    assert_eq!(copies[0].dst, "out/southroads/010125-Acme-12.50-Lunch-Meals-southroads.pdf");
    assert_eq!(copies[1].dst, "out/utica/020125-Cafe-7.25-Dinner-Meals-utica.pdf");
}

#[test]
fn sort_aborts_on_unreconcilable_split() {
    let items = vec![
        record("010125-Acme-12.50-Lunch-Meals-southroads.pdf"),
        record("020125-Acme-10.005-Lunch-Meals-split.pdf"),
    ];
    let r = run_sort(items, "out");
    assert!(matches!(r, Err(PdfError::SplitInvariantViolation(_))));
}
