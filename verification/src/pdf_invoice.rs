use vstd::prelude::*;
use vstd::string::StringExecFns;
use crate::decimal::Decimal;
use crate::pdf_expense_category::PdfExpenseCategory;
use crate::pdf_expense_category::cats_of;
use crate::pdf_expense_category::distinct_firsts;
use crate::pdf_expense_category::grand;
use crate::pdf_expense_category::groups_ok;
use crate::pdf_expense_category::in_category;
use crate::pdf_expense_category::lemma_add_ok_from_vals;
use crate::pdf_expense_category::lemma_grand_abs;
use crate::pdf_expense_category::lemma_grand_total_partition;
use crate::pdf_expense_category::lemma_sum_abs_filter;
use crate::pdf_expense_category::lemma_max_scale;
use crate::pdf_expense_category::lemma_sum_le_abs;
use crate::pdf_expense_category::max_scale_of;
use crate::pdf_expense_category::sum_limit;
use crate::pdf_expense_category::sum_abs;
use crate::pdf_expense_category::sum_vals;
use crate::pdf_line_item::PdfLineItem;
use crate::strutil::lower_of;
use crate::strutil::lowercase;
use crate::strutil::replace_spaces;
use crate::strutil::underscored;

verus! {

/// The aggregate a report is generated from: the records grouped by
/// category, the exact grand total over all records, a display name, and
/// the file name the rendered report is written to.
pub struct PdfInvoice {
    pub expense_categories: Vec<PdfExpenseCategory>,
    pub total_cost: Decimal,
    pub file_name: String,
    pub name: String,
}

impl PdfInvoice {
    /// Builds the aggregate for a report: groups the records by category,
    /// sums all costs exactly (the grand total equals the direct sum over
    /// every record, however the grouping distributed them), and derives
    /// the output file name by appending `.pdf` to the display name,
    /// lowercasing, and replacing spaces with underscores.
    pub fn new_from_line_items(line_items: Vec<PdfLineItem>, invoice_name: &str) -> (r: PdfInvoice)
        requires
            forall|j: int|
                0 <= j < line_items.deep_view().len() ==> (#[trigger] line_items.deep_view()[j]).wf(),
            sum_abs(line_items.deep_view()) < sum_limit(line_items.deep_view()),
        ensures
            r.name@ == invoice_name@,
            r.file_name@ == underscored(lower_of(invoice_name@ + (".pdf")@)),
            groups_ok(line_items.deep_view(), r.expense_categories.deep_view()),
            r.total_cost.inv(),
            r.total_cost.val() == sum_vals(line_items.deep_view()),
    {
        let ghost iv = line_items.deep_view();
        let categories = PdfExpenseCategory::new_from_line_items(line_items);
        let ghost cats = distinct_firsts(cats_of(iv));
        proof {
            crate::pdf_expense_category::lemma_distinct_firsts_props(cats_of(iv));
        }
        let mut total = Decimal::zero();
        let mut k: usize = 0;
        proof {
            assert(cats.take(0) =~= Seq::<Seq<char>>::empty());
        }
        while k < categories.len()
            invariant
                k <= cats.len(),
                cats == distinct_firsts(cats_of(iv)),
                cats.no_duplicates(),
                categories@.len() == cats.len(),
                groups_ok(iv, categories.deep_view()),
                sum_abs(iv) < sum_limit(iv),
                forall|j: int| 0 <= j < iv.len() ==> (#[trigger] iv[j]).wf(),
                total.inv(),
                total.scale as nat <= max_scale_of(iv),
                total.val() == grand(iv, cats.take(k as int)),
            decreases cats.len() - k,
        {
            let ghost g = categories.deep_view()[k as int];
            let ghost c = cats[k as int];
            proof {
                assert(categories@[k as int].deep_view() == g);
                assert(cats.take(k as int).no_duplicates()) by {
                    assert(forall|j: int|
                        0 <= j < k as int ==> cats.take(k as int)[j] == #[trigger] cats[j]);
                }
                assert(cats.take(k + 1).no_duplicates()) by {
                    assert(forall|j: int|
                        0 <= j < k + 1 ==> cats.take(k + 1)[j] == #[trigger] cats[j]);
                }
                lemma_grand_abs(iv, cats.take(k as int));
                lemma_grand_abs(iv, cats.take(k + 1));
                lemma_sum_le_abs(in_category(iv, c));
                lemma_sum_abs_filter(iv, c);
                assert(grand(iv, cats.take(k + 1)) == grand(iv, cats.take(k as int)) + sum_vals(
                    in_category(iv, c),
                )) by {
                    assert(cats.take(k + 1).drop_last() =~= cats.take(k as int));
                    assert(cats.take(k + 1).last() == c);
                }
                assert(g.total_cost.val() == sum_vals(in_category(iv, c)));
                lemma_max_scale(iv);
                lemma_add_ok_from_vals(total, g.total_cost, max_scale_of(iv));
            }
            total = total.add(categories[k].total_cost);
            k = k + 1;
        }
        proof {
            assert(cats.take(cats.len() as int) =~= cats);
            lemma_grand_total_partition(iv);
        }
        let mut base = String::from_str(invoice_name);
        base.append(".pdf");
        let lowered = lowercase(base.as_str());
        let file_name = replace_spaces(lowered.as_str());
        PdfInvoice {
            name: String::from_str(invoice_name),
            expense_categories: categories,
            total_cost: total,
            file_name,
        }
    }
}

} // verus!
