use pdf_expenses::error::PdfError;
use pdf_expenses::pdf_line_item::FileEntry;
use pdf_expenses::pdf_line_item::Location;
use pdf_expenses::pdf_line_item::PdfLineItem;

#[test]
fn decode_basic_record() {
    let item = PdfLineItem::new(
        "receipts",
        "receipts/010125-Acme-12.50-Lunch-Meals-southroads.pdf",
    )
    .unwrap();
    assert_eq!(item.date, "010125");
    assert_eq!(item.vendor, "Acme");
    assert_eq!(item.cost.render(), "12.50");
    assert_eq!(item.description, "Lunch");
    assert_eq!(item.category, "Meals");
    assert!(matches!(item.location, Location::Southroads));
    assert_eq!(item.trimmed_path, "010125-Acme-12.50-Lunch-Meals-southroads.pdf");
    assert_eq!(item.path, "receipts/010125-Acme-12.50-Lunch-Meals-southroads.pdf");
    assert_eq!(item.parts.len(), 6);
}

#[test]
fn decode_five_segments_is_invalid_file_name() {
    let r = PdfLineItem::new("receipts", "receipts/010125-Acme-12.50-Lunch-southroads.pdf");
    assert!(matches!(r, Err(PdfError::InvalidFileName(_))));
}

#[test]
fn decode_seven_segments_is_invalid_file_name() {
    let r = PdfLineItem::new(
        "receipts",
        "receipts/010125-Acme-12.50-Lunch-Extra-Meals-southroads.pdf",
    );
    assert!(matches!(r, Err(PdfError::InvalidFileName(_))));
}

#[test]
fn decode_short_date_is_invalid_date() {
    let r = PdfLineItem::new("receipts", "receipts/01012-Acme-12.50-Lunch-Meals-southroads.pdf");
    assert!(matches!(r, Err(PdfError::InvalidDate(_))));
}

#[test]
fn decode_nonnumeric_date_is_invalid_date() {
    let r = PdfLineItem::new("receipts", "receipts/01a125-Acme-12.50-Lunch-Meals-southroads.pdf");
    assert!(matches!(r, Err(PdfError::InvalidDate(_))));
}

#[test]
fn decode_bad_cost_is_invalid_cost() {
    let r = PdfLineItem::new("receipts", "receipts/010125-Acme-12.5.0-Lunch-Meals-southroads.pdf");
    assert!(matches!(r, Err(PdfError::InvalidCost(_))));
    let r = PdfLineItem::new("receipts", "receipts/010125-Acme-abc-Lunch-Meals-southroads.pdf");
    assert!(matches!(r, Err(PdfError::InvalidCost(_))));
}

#[test]
fn decode_unknown_location_is_invalid_location() {
    let r = PdfLineItem::new("receipts", "receipts/010125-Acme-12.50-Lunch-Meals-nowhere.pdf");
    assert!(matches!(r, Err(PdfError::InvalidLocation(_))));
    let r = PdfLineItem::new("receipts", "receipts/010125-Acme-12.50-Lunch-Meals-southroads");
    assert!(matches!(r, Err(PdfError::InvalidLocation(_))));
}

#[test]
fn decode_location_is_case_insensitive() {
    let item = PdfLineItem::new(
        "receipts",
        "receipts/010125-Acme-12.50-Lunch-Meals-SOUTHROADS.PDF",
    )
    .unwrap();
    assert!(matches!(item.location, Location::Southroads));
    let item = PdfLineItem::new("receipts", "receipts/010125-Acme-12.50-Lunch-Meals-SpLiT.pdf")
        .unwrap();
    assert!(matches!(item.location, Location::Split));
    let item = PdfLineItem::new("receipts", "receipts/010125-Acme-12.50-Lunch-Meals-Utica.pdf")
        .unwrap();
    assert!(matches!(item.location, Location::Utica));
}

#[test]
fn set_cost_rebuilds_name_at_fixed_position() {
    let mut item = PdfLineItem::new(
        "receipts",
        "receipts/010125-Acme-12.50-Lunch-Meals-southroads.pdf",
    )
    .unwrap();
    let new_cost = pdf_expenses::decimal::Decimal::from_cents(300);
    item.set_cost(new_cost);
    assert_eq!(item.cost.render(), "3.00");
    assert_eq!(item.trimmed_path, "010125-Acme-3.00-Lunch-Meals-southroads.pdf");
    assert_eq!(item.path, "receipts/010125-Acme-3.00-Lunch-Meals-southroads.pdf");
    assert_eq!(item.vendor, "Acme");
}

#[test]
fn set_cost_leaves_equal_vendor_segment_alone() {
    // a vendor whose text equals the rendered cost must not be rewritten
    let mut item = PdfLineItem::new(
        "receipts",
        "receipts/010125-12.50-12.50-Lunch-Meals-southroads.pdf",
    )
    .unwrap();
    item.set_cost(pdf_expenses::decimal::Decimal::from_cents(999));
    assert_eq!(item.trimmed_path, "010125-12.50-9.99-Lunch-Meals-southroads.pdf");
    assert_eq!(item.vendor, "12.50");
}

#[test]
fn set_location_validates_and_rebuilds() {
    let mut item = PdfLineItem::new(
        "receipts",
        "receipts/010125-Acme-12.50-Lunch-Meals-split.pdf",
    )
    .unwrap();
    let err = item.set_location(String::from("nowhere.pdf"));
    assert!(matches!(err, Some(PdfError::InvalidLocation(_))));
    assert_eq!(item.trimmed_path, "010125-Acme-12.50-Lunch-Meals-split.pdf");
    let err = item.set_location(String::from("UTICA.PDF"));
    assert!(err.is_none());
    assert!(matches!(item.location, Location::Utica));
    assert_eq!(item.trimmed_path, "010125-Acme-12.50-Lunch-Meals-utica.pdf");
    assert_eq!(item.path, "receipts/010125-Acme-12.50-Lunch-Meals-utica.pdf");
}

#[test]
fn set_source_dir_moves_record() {
    let mut item = PdfLineItem::new(
        "receipts",
        "receipts/010125-Acme-12.50-Lunch-Meals-utica.pdf",
    )
    .unwrap();
    item.set_source_dir("out/utica");
    assert_eq!(item.source_dir, "out/utica");
    assert_eq!(item.path, "out/utica/010125-Acme-12.50-Lunch-Meals-utica.pdf");
    assert_eq!(item.trimmed_path, "010125-Acme-12.50-Lunch-Meals-utica.pdf");
}

fn file(path: &str) -> FileEntry {
    FileEntry { path: String::from(path), is_dir: false }
}

#[test]
fn load_decodes_each_file_in_order() {
    let entries = vec![
        FileEntry { path: String::from("receipts"), is_dir: true },
        file("receipts/010125-Acme-12.50-Lunch-Meals-southroads.pdf"),
        file("receipts/020125-Cafe-7.25-Dinner-Meals-utica.pdf"),
    ];
    let items = PdfLineItem::new_from_files("receipts", &entries).unwrap();
    assert_eq!(items.len(), 2);
    assert_eq!(items[0].vendor, "Acme");
    assert_eq!(items[1].vendor, "Cafe");
}

#[test]
fn load_rejects_nested_directory() {
    let entries = vec![
        FileEntry { path: String::from("receipts"), is_dir: true },
        FileEntry { path: String::from("receipts/nested"), is_dir: true },
    ];
    let r = PdfLineItem::new_from_files("receipts", &entries);
    assert!(matches!(r, Err(PdfError::InvalidDirContents(_))));
}

#[test]
fn load_rejects_wrong_extension() {
    let entries = vec![
        file("receipts/010125-Acme-12.50-Lunch-Meals-southroads.txt"),
    ];
    let r = PdfLineItem::new_from_files("receipts", &entries);
    assert!(matches!(r, Err(PdfError::InvalidFileExtension(_))));
    let entries = vec![file("receipts/noextension")];
    let r = PdfLineItem::new_from_files("receipts", &entries);
    assert!(matches!(r, Err(PdfError::InvalidFileExtension(_))));
}

#[test]
fn load_aborts_on_first_failure() {
    let entries = vec![
        file("receipts/010125-Acme-12.50-Lunch-Meals-southroads.pdf"),
        file("receipts/bad-name.pdf"),
        file("receipts/020125-Cafe-7.25-Dinner-Meals-utica.pdf"),
    ];
    let r = PdfLineItem::new_from_files("receipts", &entries);
    assert!(matches!(r, Err(PdfError::InvalidFileName(_))));
}

#[test]
fn error_messages_name_the_kind_and_detail() {
    let e = PdfError::MissingDir(String::from("no-such-dir"));
    let m = e.message();
    assert!(m.starts_with("MISSING DIR"));
    assert!(m.ends_with("no-such-dir"));
    let e = PdfError::WalkFailure(String::from("receipts"));
    assert!(e.message().starts_with("WALKDIR FAILURE"));
    let e = PdfError::DirCreateFailure(String::from("out"));
    assert!(e.message().starts_with("FAILED TO CREATE DIR"));
    let e = PdfError::FileCopyFailure(String::from("a to b"));
    assert!(e.message().starts_with("FILE COPY FAILURE"));
    let e = PdfError::InvalidDir(String::from("a-file"));
    assert!(e.message().starts_with("INVALID DIR:"));
    let e = PdfError::InvalidSplitInput(String::from("x"));
    assert!(e.message().starts_with("INVALID SPLIT INPUT"));
}
