pub mod decimal;
pub mod error;
pub mod strutil;
pub mod pdf_line_item;
pub mod pdf_expense_category;
pub mod pdf_invoice;
pub mod pdf_sorted_dir;

use vstd::prelude::*;
use crate::decimal::cents_in_range;
use crate::error::PdfError;
use crate::pdf_expense_category::groups_ok;
use crate::pdf_expense_category::sum_abs;
use crate::pdf_expense_category::sum_limit;
use crate::pdf_expense_category::sum_vals;
use crate::pdf_invoice::PdfInvoice;
use crate::pdf_line_item::Location;
use crate::pdf_line_item::PdfLineItem;
use crate::pdf_sorted_dir::CopyOp;
use crate::pdf_sorted_dir::PdfSortedDir;
use crate::pdf_sorted_dir::first_inexact;
use crate::pdf_sorted_dir::plan_copies;
use crate::pdf_sorted_dir::south_dir;
use crate::pdf_sorted_dir::splits_exact;
use crate::pdf_sorted_dir::utica_dir;
use crate::strutil::lower_of;
use crate::strutil::underscored;

verus! {

/// The aggregation path: turns decoded records into the report aggregate —
/// the per-category groups, the exact grand total, and the derived output
/// file name.
pub fn run_generate(line_items: Vec<PdfLineItem>, invoice_name: &str) -> (r: PdfInvoice)
    requires
        forall|j: int|
            0 <= j < line_items.deep_view().len() ==> (#[trigger] line_items.deep_view()[j]).wf(),
        sum_abs(line_items.deep_view()) < sum_limit(line_items.deep_view()),
    ensures
        r.name@ == invoice_name@,
        r.file_name@ == underscored(lower_of(invoice_name@ + (".pdf")@)),
        groups_ok(line_items.deep_view(), r.expense_categories.deep_view()),
        r.total_cost.inv(),
        r.total_cost.val() == sum_vals(line_items.deep_view()),
{
    PdfInvoice::new_from_line_items(line_items, invoice_name)
}

/// The sorting path: plans the output tree and the copies that populate it
/// from decoded records.
pub fn run_sort(line_items: Vec<PdfLineItem>, out: &str) -> (r: Result<
    (PdfSortedDir, Vec<CopyOp>),
    PdfError,
>)
    requires
        forall|j: int|
            0 <= j < line_items.deep_view().len() ==> (#[trigger] line_items.deep_view()[j]).wf(),
        forall|j: int|
            0 <= j < line_items.deep_view().len() ==> ((#[trigger] line_items.deep_view()[j]).location
                == Location::Split ==> cents_in_range(line_items.deep_view()[j].cost)),
    ensures
        ({
            let iv = line_items.deep_view();
            &&& (r is Ok <==> splits_exact(iv))
            &&& (r matches Ok(pair) ==> {
                &&& pair.0.root_spec() == out@
                &&& pair.0.southroads_spec() == south_dir(out@)
                &&& pair.0.utica_spec() == utica_dir(out@)
                &&& pair.1.deep_view() == plan_copies(iv, out@)
            })
            &&& (r matches Err(e) ==> e is SplitInvariantViolation && first_inexact(iv) < iv.len()
                && e.spec_detail() == iv[first_inexact(iv)].trimmed_path)
        }),
{
    PdfSortedDir::new(line_items, out)
}

} // verus!

