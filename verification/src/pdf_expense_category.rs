use vstd::prelude::*;
use vstd::string::StringExecFns;
use crate::decimal::Decimal;
use crate::decimal::UNITS_BOUND;
use crate::decimal::pow10;
use crate::decimal::lemma_pow10_pos;
use crate::decimal::lemma_pow10_28;
use crate::decimal::add_ok;
use crate::decimal::aligned_units;
use crate::decimal::scale_max;
use crate::pdf_line_item::LineItemV;
use crate::pdf_line_item::PdfLineItem;
use crate::strutil::str_eq;

verus! {

/// The categories of the records, in record order.
pub open spec fn cats_of(items: Seq<LineItemV>) -> Seq<Seq<char>> {
    items.map_values(|v: LineItemV| v.category)
}

/// The distinct values of a sequence, each at its first occurrence, in
/// first-occurrence order.
pub open spec fn distinct_firsts(s: Seq<Seq<char>>) -> Seq<Seq<char>>
    decreases s.len(),
{
    if s.len() == 0 {
        Seq::empty()
    } else {
        let rest = distinct_firsts(s.drop_last());
        if rest.contains(s.last()) {
            rest
        } else {
            rest.push(s.last())
        }
    }
}

/// The records of one category, in record order.
pub open spec fn in_category(items: Seq<LineItemV>, c: Seq<char>) -> Seq<LineItemV> {
    items.filter(|v: LineItemV| v.category == c)
}

/// The exact sum of the costs, at the fixed denominator of `Decimal::val`.
pub open spec fn sum_vals(items: Seq<LineItemV>) -> int
    decreases items.len(),
{
    if items.len() == 0 {
        0
    } else {
        sum_vals(items.drop_last()) + items.last().cost.val()
    }
}

/// The sum of the cost magnitudes: a bound on every partial sum of any
/// selection of the records.
pub open spec fn sum_abs(items: Seq<LineItemV>) -> int
    decreases items.len(),
{
    if items.len() == 0 {
        0
    } else {
        sum_abs(items.drop_last()) + vstd::math::abs(items.last().cost.val())
    }
}

/// The largest scale among the records' costs.
pub open spec fn max_scale_of(items: Seq<LineItemV>) -> nat
    decreases items.len(),
{
    if items.len() == 0 {
        0
    } else {
        let r = max_scale_of(items.drop_last());
        if items.last().cost.scale as nat > r {
            items.last().cost.scale as nat
        } else {
            r
        }
    }
}

/// The magnitude bound under which every sum the grouping takes stays
/// exactly representable: 28 mantissa digits at the records' largest scale.
pub open spec fn sum_limit(items: Seq<LineItemV>) -> int {
    pow10((56 - max_scale_of(items)) as nat)
}

pub proof fn lemma_max_scale(items: Seq<LineItemV>)
    ensures
        forall|j: int|
            0 <= j < items.len() ==> (#[trigger] items[j]).cost.scale as nat <= max_scale_of(items),
        (forall|j: int| 0 <= j < items.len() ==> (#[trigger] items[j]).wf()) ==> max_scale_of(items)
            <= 28,
    decreases items.len(),
{
    if items.len() > 0 {
        lemma_max_scale(items.drop_last());
        assert(forall|j: int|
            0 <= j < items.len() - 1 ==> items.drop_last()[j] == #[trigger] items[j]);
        assert(items[items.len() - 1] == items.last());
    }
}

/// The per-category totals summed over a list of categories.
pub open spec fn grand(items: Seq<LineItemV>, cats: Seq<Seq<char>>) -> int
    decreases cats.len(),
{
    if cats.len() == 0 {
        0
    } else {
        grand(items, cats.drop_last()) + sum_vals(in_category(items, cats.last()))
    }
}

pub proof fn lemma_distinct_firsts_props(s: Seq<Seq<char>>)
    ensures
        distinct_firsts(s).no_duplicates(),
        forall|c: Seq<char>| distinct_firsts(s).contains(c) <==> s.contains(c),
    decreases s.len(),
{
    if s.len() == 0 {
    } else {
        lemma_distinct_firsts_props(s.drop_last());
        let rest = distinct_firsts(s.drop_last());
        if !rest.contains(s.last()) {
            assert(forall|c: Seq<char>|
                rest.push(s.last()).contains(c) <==> (rest.contains(c) || c == s.last())) by {
                assert(forall|j: int|
                    0 <= j < rest.len() ==> rest.push(s.last())[j] == #[trigger] rest[j]);
                assert(rest.push(s.last())[rest.len() as int] == s.last());
            }
        }
        assert(forall|c: Seq<char>|
            s.contains(c) <==> (s.drop_last().contains(c) || c == s.last())) by {
            assert(forall|c: Seq<char>| #[trigger]
                s.drop_last().contains(c) ==> s.contains(c)) by {
                assert(forall|j: int|
                    0 <= j < s.drop_last().len() ==> s.drop_last()[j] == #[trigger] s[j]);
            }
            assert(s.contains(s.last()));
            assert(forall|c: Seq<char>| #[trigger]
                s.contains(c) && c != s.last() ==> s.drop_last().contains(c)) by {
                assert(forall|j: int|
                    0 <= j < s.len() - 1 ==> #[trigger] s[j] == s.drop_last()[j]);
            }
        }
    }
}

pub proof fn lemma_in_category_push(items: Seq<LineItemV>, x: LineItemV, c: Seq<char>)
    ensures
        in_category(items.push(x), c) == if x.category == c {
            in_category(items, c).push(x)
        } else {
            in_category(items, c)
        },
{
    reveal(Seq::filter);
    assert(items.push(x).drop_last() =~= items);
    assert(items.push(x).last() == x);
}

pub proof fn lemma_in_category_empty(c: Seq<char>)
    ensures
        in_category(Seq::<LineItemV>::empty(), c) == Seq::<LineItemV>::empty(),
{
    reveal(Seq::filter);
}

/// Pushing one record raises the per-category grand total by that record's
/// cost when its category is listed, and not at all otherwise.
pub proof fn lemma_grand_push(items: Seq<LineItemV>, x: LineItemV, cats: Seq<Seq<char>>)
    requires
        cats.no_duplicates(),
    ensures
        grand(items.push(x), cats) == grand(items, cats) + if cats.contains(x.category) {
            x.cost.val()
        } else {
            0
        },
    decreases cats.len(),
{
    if cats.len() == 0 {
    } else {
        let cs = cats.drop_last();
        let c = cats.last();
        assert(cs.no_duplicates()) by {
            assert(forall|j: int|
                0 <= j < cs.len() ==> cs[j] == #[trigger] cats[j]);
        }
        lemma_grand_push(items, x, cs);
        lemma_in_category_push(items, x, c);
        assert(cats.contains(x.category) <==> (cs.contains(x.category) || c == x.category)) by {
            assert(forall|j: int| 0 <= j < cs.len() ==> cs[j] == #[trigger] cats[j]);
            assert(cats[cats.len() - 1] == c);
            if cats.contains(x.category) {
                let j = choose|j: int| 0 <= j < cats.len() && cats[j] == x.category;
                if j < cats.len() - 1 {
                    assert(cs[j] == x.category);
                }
            }
        }
        if c == x.category {
            assert(!cs.contains(c)) by {
                if cs.contains(c) {
                    let j = choose|j: int| 0 <= j < cs.len() && cs[j] == c;
                    assert(cats[j] == c);
                    assert(cats[cats.len() - 1] == c);
                }
            }
            assert(sum_vals(in_category(items, c).push(x)) == sum_vals(in_category(items, c))
                + x.cost.val()) by {
                let f = in_category(items, c);
                assert(f.push(x).drop_last() =~= f);
                assert(f.push(x).last() == x);
            }
        }
    }
}

pub proof fn lemma_grand_empty_items(cats: Seq<Seq<char>>)
    ensures
        grand(Seq::<LineItemV>::empty(), cats) == 0,
    decreases cats.len(),
{
    if cats.len() > 0 {
        lemma_grand_empty_items(cats.drop_last());
        lemma_in_category_empty(cats.last());
    }
}

/// The grand total over the distinct categories of the records equals the
/// direct sum over all the records: grouping neither loses nor counts a cost
/// twice, however the records are distributed over categories.
pub proof fn lemma_grand_total_partition(items: Seq<LineItemV>)
    ensures
        grand(items, distinct_firsts(cats_of(items))) == sum_vals(items),
    decreases items.len(),
{
    if items.len() == 0 {
        lemma_grand_empty_items(distinct_firsts(cats_of(items)));
    } else {
        let it = items.drop_last();
        let x = items.last();
        assert(items =~= it.push(x));
        lemma_grand_total_partition(it);
        let q = cats_of(it);
        assert(cats_of(items).drop_last() =~= q);
        assert(cats_of(items).last() == x.category);
        let cats = distinct_firsts(q);
        lemma_distinct_firsts_props(q);
        lemma_distinct_firsts_props(cats_of(items));
        if cats.contains(x.category) {
            assert(distinct_firsts(cats_of(items)) == cats);
            lemma_grand_push(it, x, cats);
            assert(grand(it.push(x), cats) == sum_vals(it) + x.cost.val());
            assert(sum_vals(items) == sum_vals(it) + x.cost.val());
        } else {
            assert(distinct_firsts(cats_of(items)) == cats.push(x.category));
            lemma_grand_push(it, x, cats);
            assert(grand(it.push(x), cats) == sum_vals(it));
            // the new category's own bucket holds exactly the new record
            assert(!q.contains(x.category));
            assert(forall|j: int|
                0 <= j < it.len() ==> (#[trigger] it[j]).category != x.category) by {
                assert(forall|j: int| 0 <= j < it.len() ==> q[j] == #[trigger] it[j].category);
            }
            assert(in_category(it, x.category) =~= Seq::<LineItemV>::empty()) by {
                it.lemma_all_neg_filter_empty(|v: LineItemV| v.category == x.category);
            }
            lemma_in_category_push(it, x, x.category);
            let f = in_category(items, x.category);
            assert(f == Seq::<LineItemV>::empty().push(x));
            assert(f.drop_last() =~= Seq::<LineItemV>::empty());
            assert(sum_vals(Seq::<LineItemV>::empty()) == 0);
            assert(sum_vals(f) == x.cost.val());
            assert(grand(items, cats.push(x.category)) == grand(items, cats) + sum_vals(
                in_category(items, x.category),
            )) by {
                assert(cats.push(x.category).drop_last() =~= cats);
            }
        }
    }
}

} // verus!

verus! {

pub proof fn lemma_sum_abs_nonneg(t: Seq<LineItemV>)
    ensures
        sum_abs(t) >= 0,
    decreases t.len(),
{
    if t.len() > 0 {
        lemma_sum_abs_nonneg(t.drop_last());
    }
}

pub proof fn lemma_sum_le_abs(t: Seq<LineItemV>)
    ensures
        -sum_abs(t) <= sum_vals(t) <= sum_abs(t),
    decreases t.len(),
{
    if t.len() > 0 {
        lemma_sum_le_abs(t.drop_last());
    }
}

pub proof fn lemma_sum_abs_add(a: Seq<LineItemV>, b: Seq<LineItemV>)
    ensures
        sum_abs(a + b) == sum_abs(a) + sum_abs(b),
    decreases b.len(),
{
    if b.len() == 0 {
        assert(a + b =~= a);
    } else {
        lemma_sum_abs_add(a, b.drop_last());
        assert((a + b).drop_last() =~= a + b.drop_last());
        assert((a + b).last() == b.last());
    }
}

pub proof fn lemma_sum_abs_filter(t: Seq<LineItemV>, c: Seq<char>)
    ensures
        sum_abs(in_category(t, c)) <= sum_abs(t),
    decreases t.len(),
{
    reveal(Seq::filter);
    if t.len() == 0 {
    } else {
        lemma_sum_abs_filter(t.drop_last(), c);
        let f = in_category(t, c);
        let fd = in_category(t.drop_last(), c);
        if t.last().category == c {
            assert(f == fd.push(t.last()));
            assert(f.drop_last() =~= fd);
        } else {
            assert(f == fd);
        }
    }
}

pub proof fn lemma_sum_abs_take(t: Seq<LineItemV>, i: int)
    requires
        0 <= i <= t.len(),
    ensures
        sum_abs(t.take(i)) <= sum_abs(t),
{
    assert(t =~= t.take(i) + t.skip(i));
    lemma_sum_abs_add(t.take(i), t.skip(i));
    lemma_sum_abs_nonneg(t.skip(i));
}

/// Two decimals of scale at most `s` whose values and value-sum stay under
/// `10^(56 - s)` can be added exactly.
pub proof fn lemma_add_ok_from_vals(a: Decimal, b: Decimal, s: nat)
    requires
        a.inv(),
        b.inv(),
        a.scale as nat <= s,
        b.scale as nat <= s,
        s <= 28,
        -pow10((56 - s) as nat) < a.val() < pow10((56 - s) as nat),
        -pow10((56 - s) as nat) < b.val() < pow10((56 - s) as nat),
        -pow10((56 - s) as nat) < a.val() + b.val() < pow10((56 - s) as nat),
    ensures
        add_ok(a, b),
{
    let m = scale_max(a, b) as nat;
    let p = pow10((28 - m) as nat);
    let lim = pow10((56 - s) as nat);
    lemma_pow10_pos((28 - m) as nat);
    lemma_pow10_28();
    crate::decimal::lemma_pow10_adds(28, (28 - m) as nat);
    crate::decimal::lemma_pow10_mono((56 - s) as nat, (56 - m) as nat);
    assert((UNITS_BOUND as int) * p == pow10((56 - m) as nat));
    assert((UNITS_BOUND as int) * p >= lim);
    crate::decimal::lemma_aligned_val(a, m);
    crate::decimal::lemma_aligned_val(b, m);
    let ala = aligned_units(a, m);
    let alb = aligned_units(b, m);
    assert(-(UNITS_BOUND as int) < ala < UNITS_BOUND as int) by (nonlinear_arith)
        requires
            p >= 1,
            ala * p == a.val(),
            (UNITS_BOUND as int) * p >= lim,
            UNITS_BOUND > 0,
            -lim < a.val() < lim,
    ;
    assert(-(UNITS_BOUND as int) < alb < UNITS_BOUND as int) by (nonlinear_arith)
        requires
            p >= 1,
            alb * p == b.val(),
            (UNITS_BOUND as int) * p >= lim,
            UNITS_BOUND > 0,
            -lim < b.val() < lim,
    ;
    assert(-(UNITS_BOUND as int) < ala + alb < UNITS_BOUND as int) by (nonlinear_arith)
        requires
            p >= 1,
            ala * p == a.val(),
            alb * p == b.val(),
            (UNITS_BOUND as int) * p >= lim,
            UNITS_BOUND > 0,
            -lim < a.val() + b.val() < lim,
    ;
}

/// The magnitude of one record's cost is at most the magnitude sum of the
/// whole sequence.
proof fn lemma_item_abs(t: Seq<LineItemV>, j: int)
    requires
        0 <= j < t.len(),
    ensures
        vstd::math::abs(t[j].cost.val()) <= sum_abs(t),
{
    assert(t =~= t.take(j + 1) + t.skip(j + 1));
    lemma_sum_abs_add(t.take(j + 1), t.skip(j + 1));
    lemma_sum_abs_nonneg(t.skip(j + 1));
    assert(t.take(j + 1).drop_last() =~= t.take(j));
    assert(t.take(j + 1).last() == t[j]);
    lemma_sum_abs_nonneg(t.take(j));
}

fn contains_string(v: &Vec<String>, s: &str) -> (r: bool)
    ensures
        r == v.deep_view().contains(s@),
{
    let mut j: usize = 0;
    while j < v.len()
        invariant
            j <= v@.len(),
            forall|k: int| 0 <= k < j as int ==> v.deep_view()[k] != s@,
        decreases v@.len() - j,
    {
        if str_eq(v[j].as_str(), s) {
            proof {
                assert(v.deep_view()[j as int] == s@);
            }
            return true;
        }
        proof {
            assert(v@[j as int]@ == v.deep_view()[j as int]);
        }
        j = j + 1;
    }
    proof {
        if v.deep_view().contains(s@) {
            let k = choose|k: int| 0 <= k < v.deep_view().len() && v.deep_view()[k] == s@;
            assert(false);
        }
    }
    false
}

/// A named grouping of records: the category name, its records in input
/// order, and the exact sum of their costs.
#[derive(Debug)]
pub struct PdfExpenseCategory {
    pub name: String,
    pub line_items: Vec<PdfLineItem>,
    pub total_cost: Decimal,
}

/// The content of an expense category.
pub ghost struct CategoryV {
    pub name: Seq<char>,
    pub line_items: Seq<LineItemV>,
    pub total_cost: Decimal,
}

impl View for PdfExpenseCategory {
    type V = CategoryV;

    open spec fn view(&self) -> CategoryV {
        CategoryV {
            name: self.name@,
            line_items: self.line_items.deep_view(),
            total_cost: self.total_cost,
        }
    }
}

impl DeepView for PdfExpenseCategory {
    type V = CategoryV;

    open spec fn deep_view(&self) -> CategoryV {
        self.view()
    }
}

impl PdfExpenseCategory {
    /// Groups records by category.
    ///
    /// The result has one group per distinct category, in the order each
    /// category first occurs in the input; a group's records are the
    /// matching records in input order; a group's total is the exact decimal
    /// sum of its members' costs.
    pub fn new_from_line_items(line_items: Vec<PdfLineItem>) -> (r: Vec<PdfExpenseCategory>)
        requires
            forall|j: int|
                0 <= j < line_items.deep_view().len() ==> (#[trigger] line_items.deep_view()[j]).wf(),
            sum_abs(line_items.deep_view()) < sum_limit(line_items.deep_view()),
        ensures
            ({
                let iv = line_items.deep_view();
                let cats = distinct_firsts(cats_of(iv));
                &&& r.deep_view().len() == cats.len()
                &&& forall|k: int|
                    0 <= k < cats.len() ==> {
                        let g = #[trigger] r.deep_view()[k];
                        &&& g.name == cats[k]
                        &&& g.line_items == in_category(iv, cats[k])
                        &&& g.total_cost.inv()
                        &&& g.total_cost.scale as nat <= max_scale_of(iv)
                        &&& g.total_cost.val() == sum_vals(in_category(iv, cats[k]))
                    }
            }),
    {
        let ghost iv = line_items.deep_view();
        // distinct categories, in first-occurrence order
        let mut all_cats: Vec<String> = Vec::new();
        let mut i: usize = 0;
        proof {
            assert(iv.take(0) =~= Seq::<LineItemV>::empty());
            assert(cats_of(iv.take(0)) =~= Seq::<Seq<char>>::empty());
            assert(all_cats.deep_view() =~= Seq::<Seq<char>>::empty());
        }
        while i < line_items.len()
            invariant
                i <= iv.len(),
                iv == line_items.deep_view(),
                iv.len() == line_items@.len(),
                all_cats.deep_view() == distinct_firsts(cats_of(iv.take(i as int))),
            decreases iv.len() - i,
        {
            let ghost x = iv[i as int];
            let ghost acdv = all_cats.deep_view();
            proof {
                assert(line_items@[i as int].deep_view() == x);
                assert(cats_of(iv.take(i + 1)).drop_last() =~= cats_of(iv.take(i as int)));
                assert(cats_of(iv.take(i + 1)).last() == x.category);
            }
            if !contains_string(&all_cats, line_items[i].category.as_str()) {
                let c = line_items[i].category.clone();
                all_cats.push(c);
                proof {
                    assert(all_cats.deep_view() =~= acdv.push(x.category));
                }
            }
            i = i + 1;
        }
        proof {
            assert(iv.take(iv.len() as int) =~= iv);
        }
        let ghost cats = distinct_firsts(cats_of(iv));
        // one group per category
        let mut result: Vec<PdfExpenseCategory> = Vec::new();
        let mut k: usize = 0;
        while k < all_cats.len()
            invariant
                k <= all_cats@.len(),
                iv == line_items.deep_view(),
                iv.len() == line_items@.len(),
                forall|j: int| 0 <= j < iv.len() ==> (#[trigger] iv[j]).wf(),
                sum_abs(iv) < sum_limit(iv),
                all_cats.deep_view() == cats,
                cats == distinct_firsts(cats_of(iv)),
                result.deep_view().len() == k,
                forall|k2: int|
                    0 <= k2 < k as int ==> {
                        let g = #[trigger] result.deep_view()[k2];
                        &&& g.name == cats[k2]
                        &&& g.line_items == in_category(iv, cats[k2])
                        &&& g.total_cost.inv()
                        &&& g.total_cost.scale as nat <= max_scale_of(iv)
                        &&& g.total_cost.val() == sum_vals(in_category(iv, cats[k2]))
                    },
            decreases all_cats@.len() - k,
        {
            let ghost c = cats[k as int];
            proof {
                assert(all_cats@[k as int]@ == c);
            }
            let cat_name = all_cats[k].clone();
            let mut total = Decimal::zero();
            let mut matching: Vec<PdfLineItem> = Vec::new();
            let mut j: usize = 0;
            proof {
                assert(iv.take(0) =~= Seq::<LineItemV>::empty());
                lemma_in_category_empty(c);
                assert(matching.deep_view() =~= Seq::<LineItemV>::empty());
                assert(sum_vals(Seq::<LineItemV>::empty()) == 0);
            }
            while j < line_items.len()
                invariant
                    j <= iv.len(),
                    iv == line_items.deep_view(),
                    iv.len() == line_items@.len(),
                    forall|j2: int| 0 <= j2 < iv.len() ==> (#[trigger] iv[j2]).wf(),
                    sum_abs(iv) < sum_limit(iv),
                    cat_name@ == c,
                    matching.deep_view() == in_category(iv.take(j as int), c),
                    total.inv(),
                    total.scale as nat <= max_scale_of(iv),
                    total.val() == sum_vals(in_category(iv.take(j as int), c)),
                decreases iv.len() - j,
            {
                let ghost x = iv[j as int];
                let ghost fs = in_category(iv.take(j as int), c);
                proof {
                    assert(line_items@[j as int].deep_view() == x);
                    assert(iv.take(j + 1) =~= iv.take(j as int).push(x));
                    lemma_in_category_push(iv.take(j as int), x, c);
                }
                if str_eq(line_items[j].category.as_str(), cat_name.as_str()) {
                    proof {
                        assert(x.category == c);
                        // the running sum, the new cost, and their sum all
                        // stay under the mantissa bound
                        lemma_sum_le_abs(fs);
                        lemma_sum_abs_filter(iv.take(j as int), c);
                        lemma_sum_abs_take(iv, j as int);
                        lemma_item_abs(iv, j as int);
                        let fs1 = in_category(iv.take(j + 1), c);
                        assert(fs1 == fs.push(x));
                        assert(fs1.drop_last() =~= fs);
                        assert(sum_vals(fs1) == sum_vals(fs) + x.cost.val());
                        lemma_sum_le_abs(fs1);
                        lemma_sum_abs_filter(iv.take(j + 1), c);
                        lemma_sum_abs_take(iv, j + 1);
                        lemma_max_scale(iv);
                        lemma_add_ok_from_vals(total, x.cost, max_scale_of(iv));
                    }
                    total = total.add(line_items[j].cost);
                    let ghost mdv = matching.deep_view();
                    matching.push(line_items[j].clone());
                    proof {
                        assert(matching.deep_view() =~= mdv.push(x));
                    }
                } else {
                    proof {
                        assert(x.category != c);
                    }
                }
                j = j + 1;
            }
            proof {
                assert(iv.take(iv.len() as int) =~= iv);
            }
            let ghost rdv = result.deep_view();
            result.push(
                PdfExpenseCategory { name: cat_name, line_items: matching, total_cost: total },
            );
            proof {
                assert(result.deep_view() =~= rdv.push(
                    CategoryV {
                        name: c,
                        line_items: in_category(iv, c),
                        total_cost: total,
                    },
                ));
            }
            k = k + 1;
        }
        result
    }
}


/// What grouping promises: one group per distinct category in first-seen
/// order, holding the matching records in input order and their exact sum.
pub open spec fn groups_ok(iv: Seq<LineItemV>, gs: Seq<CategoryV>) -> bool {
    let cats = distinct_firsts(cats_of(iv));
    &&& gs.len() == cats.len()
    &&& forall|k: int|
        0 <= k < cats.len() ==> {
            let g = #[trigger] gs[k];
            &&& g.name == cats[k]
            &&& g.line_items == in_category(iv, cats[k])
            &&& g.total_cost.inv()
            &&& g.total_cost.scale as nat <= max_scale_of(iv)
            &&& g.total_cost.val() == sum_vals(in_category(iv, cats[k]))
        }
}

/// A per-category grand total over distinct categories stays within the
/// magnitude sum of all the records.
pub proof fn lemma_grand_abs(items: Seq<LineItemV>, cats: Seq<Seq<char>>)
    requires
        cats.no_duplicates(),
    ensures
        -sum_abs(items) <= grand(items, cats) <= sum_abs(items),
    decreases items.len(),
{
    if items.len() == 0 {
        assert(items =~= Seq::<LineItemV>::empty());
        lemma_grand_empty_items(cats);
        assert(sum_abs(items) == 0);
        assert(grand(items, cats) == 0);
    } else {
        let it = items.drop_last();
        let x = items.last();
        assert(items =~= it.push(x));
        lemma_grand_abs(it, cats);
        lemma_grand_push(it, x, cats);
        assert(grand(items, cats) == grand(it, cats) + if cats.contains(x.category) {
            x.cost.val()
        } else {
            0
        });
        assert(sum_abs(items) == sum_abs(it) + vstd::math::abs(x.cost.val()));
        assert(-sum_abs(items) <= grand(items, cats));
        assert(grand(items, cats) <= sum_abs(items));
    }
}

} // verus!
