use vstd::prelude::*;
use vstd::string::StringExecFns;
use vstd::arithmetic::div_mod::lemma_fundamental_div_mod;
use vstd::arithmetic::div_mod::lemma_fundamental_div_mod_converse_div;
use vstd::arithmetic::div_mod::lemma_fundamental_div_mod_converse_mod;
use crate::decimal::Decimal;
use crate::decimal::cent_exact;
use crate::decimal::cents_in_range;
use crate::decimal::cents_of;
use crate::decimal::lemma_cents_val;
use crate::decimal::lemma_pow10_pos;
use crate::decimal::pow10;
use crate::error::PdfError;
use crate::pdf_line_item::LineItemV;
use crate::pdf_line_item::Location;
use crate::pdf_line_item::PdfLineItem;
use crate::pdf_line_item::loc_token;
use crate::pdf_line_item::set_cost_v;
use crate::pdf_line_item::set_location_v;
use crate::pdf_line_item::set_source_dir_v;
use crate::strutil::concat_path;

verus! {

/// The cents the southroads half of a split receives: half the cent count,
/// with an odd count rounded down, so the odd extra cent never goes to
/// southroads.
pub open spec fn south_cents(c: int) -> int {
    if c % 2 == 0 {
        c / 2
    } else {
        (c - 1) / 2
    }
}

/// The cents the utica half receives: the rest, so the two halves sum to
/// the whole by construction, and an odd count's extra cent goes to utica.
pub open spec fn utica_cents(c: int) -> int {
    c - south_cents(c)
}

proof fn lemma_split_cents(c: int)
    ensures
        south_cents(c) + utica_cents(c) == c,
        c % 2 == 0 ==> south_cents(c) == utica_cents(c),
        c % 2 != 0 ==> utica_cents(c) == south_cents(c) + 1,
        vstd::math::abs(south_cents(c)) <= vstd::math::abs(c),
        vstd::math::abs(utica_cents(c)) <= vstd::math::abs(c),
{
    lemma_fundamental_div_mod(c, 2);
    if c % 2 == 0 {
        assert(c == 2 * (c / 2));
    } else {
        assert(c % 2 == 1) by {
            vstd::arithmetic::div_mod::lemma_mod_bound(c, 2);
        }
        assert(c - 1 == 2 * (c / 2));
        lemma_fundamental_div_mod((c - 1) as int, 2);
        lemma_fundamental_div_mod_converse_div(c - 1, 2, c / 2, 0);
        assert(south_cents(c) == c / 2);
        assert(utica_cents(c) == c / 2 + 1);
    }
}

/// Divides a split record's cost exactly between the two cost centers.
///
/// Only a record flagged `split` may be allocated: any other fails with
/// `InvalidSplitInput`. The cost is converted to cents (rounding half to
/// even); an even cent count is halved exactly, an odd one gives the extra
/// cent to utica, deterministically. The two derived records carry the two
/// shares, rendered at two decimals, with locations `southroads` and
/// `utica`, and are otherwise identical to the input. Their costs sum to
/// the original cost exactly; when the cost is not a whole number of cents
/// that reconciliation is impossible and the call fails with
/// `SplitInvariantViolation`.
pub fn allocate(item: &PdfLineItem) -> (r: Result<(PdfLineItem, PdfLineItem), PdfError>)
    requires
        item@.wf(),
        cents_in_range(item@.cost),
    ensures
        ({
            let v = item@;
            let c = cents_of(v.cost);
            &&& (r is Ok <==> v.location == Location::Split && cent_exact(v.cost))
            &&& (v.location != Location::Split ==> (r matches Err(e) ==> e is InvalidSplitInput
                && e.spec_detail() == v.trimmed_path))
            &&& (v.location == Location::Split && !cent_exact(v.cost) ==> (r matches Err(e)
                ==> e is SplitInvariantViolation && e.spec_detail() == v.trimmed_path))
            &&& (r matches Ok(pair) ==> {
                let s = pair.0@;
                let u = pair.1@;
                &&& s == set_location_v(
                    set_cost_v(v, Decimal { units: south_cents(c) as i128, scale: 2 }),
                    loc_token(Location::Southroads),
                )
                &&& u == set_location_v(
                    set_cost_v(v, Decimal { units: utica_cents(c) as i128, scale: 2 }),
                    loc_token(Location::Utica),
                )
                &&& s.wf() && u.wf()
                &&& s.location == Location::Southroads
                &&& u.location == Location::Utica
                &&& s.cost.val() + u.cost.val() == v.cost.val()
            })
        }),
{
    if item.location != Location::Split {
        return Err(PdfError::InvalidSplitInput(item.trimmed_path.clone()));
    }
    let cents = item.cost.to_cents();
    let ghost c = cents_of(item@.cost);
    let m: u128 = if cents < 0 {
        (-cents) as u128
    } else {
        cents as u128
    };
    let even = m % 2 == 0;
    proof {
        if cents >= 0 {
            assert(m == c);
        } else {
            assert(m == -c);
            lemma_fundamental_div_mod(m as int, 2);
            if m % 2 == 0 {
                assert(c == 2 * (-(m as int / 2)) + 0);
                lemma_fundamental_div_mod_converse_mod(c, 2, -(m as int / 2), 0);
            } else {
                assert(m as int % 2 == 1) by {
                    vstd::arithmetic::div_mod::lemma_mod_bound(m as int, 2);
                }
                assert(c == 2 * (-(m as int / 2) - 1) + 1);
                lemma_fundamental_div_mod_converse_mod(c, 2, -(m as int / 2) - 1, 1);
            }
        }
        assert(even <==> c % 2 == 0);
        lemma_split_cents(c);
    }
    let low: i128;
    let high: i128;
    if even {
        let half = (m / 2) as i128;
        proof {
            if cents >= 0 {
                lemma_fundamental_div_mod(m as int, 2);
                lemma_fundamental_div_mod_converse_div(c, 2, m as int / 2, 0);
            } else {
                lemma_fundamental_div_mod(m as int, 2);
                assert(c == 2 * (-(m as int / 2)) + 0);
                lemma_fundamental_div_mod_converse_div(c, 2, -(m as int / 2), 0);
            }
        }
        low = if cents < 0 {
            -half
        } else {
            half
        };
        high = low;
    } else {
        if cents >= 0 {
            let lowm = ((m - 1) / 2) as i128;
            proof {
                lemma_fundamental_div_mod((m - 1) as int, 2);
                assert(c - 1 == 2 * ((m - 1) as int / 2) + 0);
                lemma_fundamental_div_mod_converse_div(c - 1, 2, (m - 1) as int / 2, 0);
            }
            low = lowm;
            high = lowm + 1;
        } else {
            let lowm = ((m + 1) / 2) as i128;
            proof {
                lemma_fundamental_div_mod((m + 1) as int, 2);
                assert(m as int % 2 == 1) by {
                    vstd::arithmetic::div_mod::lemma_mod_bound(m as int, 2);
                }
                assert((m + 1) as int % 2 == 0) by {
                    assert(m as int + 1 == 2 * (m as int / 2 + 1) + 0) by {
                        lemma_fundamental_div_mod(m as int, 2);
                    }
                    lemma_fundamental_div_mod_converse_mod(m as int + 1, 2, m as int / 2 + 1, 0);
                }
                assert(m as int + 1 == 2 * ((m + 1) as int / 2)) by {
                    lemma_fundamental_div_mod((m + 1) as int, 2);
                }
                assert(c - 1 == 2 * (-((m + 1) as int / 2)) + 0);
                lemma_fundamental_div_mod_converse_div(c - 1, 2, -((m + 1) as int / 2), 0);
            }
            low = -lowm;
            high = low + 1;
        }
    }
    proof {
        assert(low == south_cents(c));
        assert(high == utica_cents(c));
    }
    let south_dec = Decimal::from_cents(low);
    let utica_dec = Decimal::from_cents(high);
    proof {
        assert(crate::decimal::aligned_units(south_dec, 2) == low * pow10(0));
        assert(crate::decimal::aligned_units(utica_dec, 2) == high * pow10(0));
        assert(crate::decimal::add_ok(south_dec, utica_dec));
    }
    let sum = south_dec.add(utica_dec);
    proof {
        assert(sum.units == c && sum.scale == 2);
        lemma_cents_val(item@.cost);
        assert(sum.val() == c * pow10(26));
    }
    if !sum.eq_value(&item.cost) {
        proof {
            assert(!cent_exact(item@.cost));
        }
        return Err(PdfError::SplitInvariantViolation(item.trimmed_path.clone()));
    }
    proof {
        assert(cent_exact(item@.cost));
    }
    let mut south = item.clone();
    south.set_cost(south_dec);
    south.set_location_token(Location::Southroads);
    let mut utica = item.clone();
    utica.set_cost(utica_dec);
    utica.set_location_token(Location::Utica);
    proof {
        reveal_strlit("southroads.pdf");
        reveal_strlit("utica.pdf");
        reveal_strlit("split.pdf");
        assert(loc_token(Location::Southroads).len() == 14);
        assert(loc_token(Location::Utica).len() == 9);
        assert(loc_token(Location::Utica)[0] == 'u');
        assert(loc_token(Location::Split)[0] == 's');
        assert(crate::pdf_line_item::classify_location(loc_token(Location::Southroads))
            == Some(Location::Southroads));
        assert(crate::pdf_line_item::classify_location(loc_token(Location::Utica))
            == Some(Location::Utica));
        assert(south_dec == Decimal { units: south_cents(c) as i128, scale: 2 });
        assert(utica_dec == Decimal { units: utica_cents(c) as i128, scale: 2 });
        lemma_pow10_pos(26);
        assert(south@.cost.val() + utica@.cost.val() == item@.cost.val()) by {
            assert(south_dec.val() == low * pow10(26));
            assert(utica_dec.val() == high * pow10(26));
            assert(low * pow10(26) + high * pow10(26) == (low + high) * pow10(26))
                by (nonlinear_arith);
        }
    }
    Ok((south, utica))
}

} // verus!

verus! {

/// One file copy the sorting engine will perform: source and destination
/// paths.
#[derive(Debug)]
pub struct CopyOp {
    pub src: String,
    pub dst: String,
}

/// The content of a copy operation.
pub ghost struct CopyOpV {
    pub src: Seq<char>,
    pub dst: Seq<char>,
}

impl View for CopyOp {
    type V = CopyOpV;

    open spec fn view(&self) -> CopyOpV {
        CopyOpV { src: self.src@, dst: self.dst@ }
    }
}

impl DeepView for CopyOp {
    type V = CopyOpV;

    open spec fn deep_view(&self) -> CopyOpV {
        self.view()
    }
}

/// The southroads subdirectory of the output tree.
pub open spec fn south_dir(out: Seq<char>) -> Seq<char> {
    out + seq!['/'] + ("southroads")@
}

/// The utica subdirectory of the output tree.
pub open spec fn utica_dir(out: Seq<char>) -> Seq<char> {
    out + seq!['/'] + ("utica")@
}

/// The copies one record asks for: a split record is duplicated into both
/// subdirectories under its two derived names, southroads first; any other
/// record is copied once into its location's subdirectory under its own
/// name.
pub open spec fn copies_for(v: LineItemV, out: Seq<char>) -> Seq<CopyOpV> {
    if v.location == Location::Split {
        let c = cents_of(v.cost);
        let s = set_source_dir_v(
            set_location_v(
                set_cost_v(v, Decimal { units: south_cents(c) as i128, scale: 2 }),
                loc_token(Location::Southroads),
            ),
            south_dir(out),
        );
        let u = set_source_dir_v(
            set_location_v(
                set_cost_v(v, Decimal { units: utica_cents(c) as i128, scale: 2 }),
                loc_token(Location::Utica),
            ),
            utica_dir(out),
        );
        seq![CopyOpV { src: v.path, dst: s.path }, CopyOpV { src: v.path, dst: u.path }]
    } else if v.location == Location::Southroads {
        seq![CopyOpV { src: v.path, dst: set_source_dir_v(v, south_dir(out)).path }]
    } else {
        seq![CopyOpV { src: v.path, dst: set_source_dir_v(v, utica_dir(out)).path }]
    }
}

/// The copies for a record sequence, in enumeration order.
pub open spec fn plan_copies(items: Seq<LineItemV>, out: Seq<char>) -> Seq<CopyOpV>
    decreases items.len(),
{
    if items.len() == 0 {
        Seq::empty()
    } else {
        plan_copies(items.drop_last(), out) + copies_for(items.last(), out)
    }
}

/// Whether every split record's cost is a whole number of cents, so that
/// every allocation reconciles.
pub open spec fn splits_exact(items: Seq<LineItemV>) -> bool {
    forall|j: int|
        0 <= j < items.len() ==> ((#[trigger] items[j]).location == Location::Split ==> cent_exact(
            items[j].cost,
        ))
}

/// The position of the first split record whose cost is not a whole number
/// of cents (the sequence length when there is none).
pub open spec fn first_inexact(items: Seq<LineItemV>) -> int
    decreases items.len(),
{
    if items.len() == 0 {
        0
    } else if items[0].location == Location::Split && !cent_exact(items[0].cost) {
        0
    } else {
        1 + first_inexact(items.drop_first())
    }
}

pub proof fn lemma_first_inexact(items: Seq<LineItemV>)
    ensures
        0 <= first_inexact(items) <= items.len(),
        forall|k: int|
            0 <= k < first_inexact(items) ==> ((#[trigger] items[k]).location == Location::Split
                ==> cent_exact(items[k].cost)),
        first_inexact(items) < items.len() ==> items[first_inexact(items)].location
            == Location::Split && !cent_exact(items[first_inexact(items)].cost),
    decreases items.len(),
{
    if items.len() == 0 {
    } else if items[0].location == Location::Split && !cent_exact(items[0].cost) {
    } else {
        lemma_first_inexact(items.drop_first());
        assert(forall|k: int|
            1 <= k < first_inexact(items) ==> items.drop_first()[k - 1] == #[trigger] items[k]);
    }
}

/// The three-directory output tree of one sort operation: the root and its
/// two cost-center subdirectories.
#[derive(Debug)]
pub struct PdfSortedDir {
    dir_root: String,
    dir_southroads: String,
    dir_utica: String,
}

impl PdfSortedDir {
    /// The root output directory.
    pub closed spec fn root_spec(&self) -> Seq<char> {
        self.dir_root@
    }

    /// The southroads subdirectory.
    pub closed spec fn southroads_spec(&self) -> Seq<char> {
        self.dir_southroads@
    }

    /// The utica subdirectory.
    pub closed spec fn utica_spec(&self) -> Seq<char> {
        self.dir_utica@
    }

    pub fn root(&self) -> (r: &String)
        ensures
            r@ == self.root_spec(),
    {
        &self.dir_root
    }

    pub fn southroads(&self) -> (r: &String)
        ensures
            r@ == self.southroads_spec(),
    {
        &self.dir_southroads
    }

    pub fn utica(&self) -> (r: &String)
        ensures
            r@ == self.utica_spec(),
    {
        &self.dir_utica
    }

    /// Plans one sort operation: the output tree and the file copies that
    /// populate it.
    ///
    /// The handle names the three directories to create — the root and its
    /// `southroads` and `utica` subdirectories — whatever the records are,
    /// even none. The copies are planned in record order; a split record is
    /// allocated into its two derived records, copied southroads first,
    /// both targets named with the adjusted cost and location; any other
    /// record is copied once. The call succeeds if and only if every split
    /// record's cost is a whole number of cents; the first that is not
    /// aborts the plan with `SplitInvariantViolation` naming its relative
    /// name.
    pub fn new(line_items: Vec<PdfLineItem>, out: &str) -> (r: Result<
        (PdfSortedDir, Vec<CopyOp>),
        PdfError,
    >)
        requires
            forall|j: int|
                0 <= j < line_items.deep_view().len() ==> (#[trigger] line_items.deep_view()[j]).wf(),
            forall|j: int|
                0 <= j < line_items.deep_view().len() ==> ((#[trigger] line_items.deep_view()[j]).location
                    == Location::Split ==> cents_in_range(line_items.deep_view()[j].cost)),
        ensures
            ({
                let iv = line_items.deep_view();
                &&& (r is Ok <==> splits_exact(iv))
                &&& (r matches Ok(pair) ==> {
                    &&& pair.0.root_spec() == out@
                    &&& pair.0.southroads_spec() == south_dir(out@)
                    &&& pair.0.utica_spec() == utica_dir(out@)
                    &&& pair.1.deep_view() == plan_copies(iv, out@)
                })
                &&& (r matches Err(e) ==> e is SplitInvariantViolation && first_inexact(iv)
                    < iv.len() && e.spec_detail() == iv[first_inexact(iv)].trimmed_path)
            }),
    {
        let ghost iv = line_items.deep_view();
        let dir_root = String::from_str(out);
        let dir_s = concat_path(out, "southroads");
        let dir_u = concat_path(out, "utica");
        let mut copies: Vec<CopyOp> = Vec::new();
        let mut i: usize = 0;
        proof {
            assert(iv.take(0) =~= Seq::<LineItemV>::empty());
            assert(copies.deep_view() =~= Seq::<CopyOpV>::empty());
        }
        while i < line_items.len()
            invariant
                i <= iv.len(),
                iv == line_items.deep_view(),
                iv.len() == line_items@.len(),
                forall|j: int| 0 <= j < iv.len() ==> (#[trigger] iv[j]).wf(),
                forall|j: int|
                    0 <= j < iv.len() ==> ((#[trigger] iv[j]).location == Location::Split
                        ==> cents_in_range(iv[j].cost)),
                dir_s@ == south_dir(out@),
                dir_u@ == utica_dir(out@),
                copies.deep_view() == plan_copies(iv.take(i as int), out@),
                splits_exact(iv.take(i as int)),
            decreases iv.len() - i,
        {
            let ghost x = iv[i as int];
            let ghost cdv = copies.deep_view();
            proof {
                assert(line_items@[i as int].deep_view() == x);
                assert(iv.take(i + 1).drop_last() =~= iv.take(i as int));
                assert(iv.take(i + 1).last() == x);
                assert(plan_copies(iv.take(i + 1), out@) == plan_copies(iv.take(i as int), out@)
                    + copies_for(x, out@));
            }
            if matches!(line_items[i].location, Location::Split) {
                match allocate(&line_items[i]) {
                    Ok(pair) => {
                        let (mut s, mut u) = pair;
                        s.set_source_dir(dir_s.as_str());
                        u.set_source_dir(dir_u.as_str());
                        copies.push(CopyOp { src: line_items[i].path.clone(), dst: s.path.clone() });
                        copies.push(CopyOp { src: line_items[i].path.clone(), dst: u.path.clone() });
                        proof {
                            assert(copies.deep_view() =~= cdv + copies_for(x, out@));
                            assert(forall|j: int|
                                0 <= j < i + 1 ==> iv.take(i + 1)[j] == #[trigger] iv.take(
                                    i + 1,
                                )[j]);
                            assert(splits_exact(iv.take(i + 1))) by {
                                assert(forall|j: int|
                                    0 <= j < i as int ==> iv.take(i + 1)[j] == #[trigger] iv.take(
                                        i as int,
                                    )[j]);
                                assert(iv.take(i + 1)[i as int] == x);
                            }
                        }
                    },
                    Err(e) => {
                        proof {
                            lemma_first_inexact(iv);
                            let fi = first_inexact(iv);
                            assert(forall|j: int|
                                0 <= j < i as int ==> iv.take(i as int)[j] == #[trigger] iv[j]);
                            if fi < i as int {
                                assert(iv[fi].location == Location::Split && !cent_exact(
                                    iv[fi].cost,
                                ));
                            }
                            assert(fi == i as int);
                        }
                        return Err(e);
                    },
                }
            } else {
                let mut it = line_items[i].clone();
                it.set_source_dir(if matches!(line_items[i].location, Location::Southroads) {
                    dir_s.as_str()
                } else {
                    dir_u.as_str()
                });
                copies.push(CopyOp { src: line_items[i].path.clone(), dst: it.path.clone() });
                proof {
                    assert(copies.deep_view() =~= cdv + copies_for(x, out@));
                    assert(splits_exact(iv.take(i + 1))) by {
                        assert(forall|j: int|
                            0 <= j < i as int ==> iv.take(i + 1)[j] == #[trigger] iv.take(
                                i as int,
                            )[j]);
                        assert(iv.take(i + 1)[i as int] == x);
                    }
                }
            }
            i = i + 1;
        }
        proof {
            assert(iv.take(iv.len() as int) =~= iv);
        }
        Ok((PdfSortedDir { dir_root, dir_southroads: dir_s, dir_utica: dir_u }, copies))
    }
}

} // verus!
