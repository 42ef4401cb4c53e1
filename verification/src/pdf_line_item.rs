use vstd::prelude::*;
use vstd::string::StrSliceExecFns;
use vstd::string::StringExecFns;
use crate::decimal::Decimal;
use crate::decimal::parse_ok;
use crate::decimal::parse_units;
use crate::decimal::parse_scale;
use crate::error::PdfError;
use crate::strutil::all_digits;
use crate::strutil::check_all_digits;
use crate::strutil::concat_path;
use crate::strutil::join_dash;
use crate::strutil::join_with_dash;
use crate::strutil::lower_of;
use crate::strutil::lowercase;
use crate::strutil::clone_strings;
use crate::strutil::split_dash;
use crate::strutil::split_on_dash;
use crate::strutil::lemma_split_join;
use crate::strutil::str_eq;

verus! {

/// The cost-center destination of a record, from the sixth segment of its
/// file name: one of the two cost centers, or `Split` for a cost that still
/// awaits division between the two.
#[derive(Clone, Copy, Debug, PartialEq, Eq, Structural)]
pub enum Location {
    Southroads,
    Utica,
    Split,
}

/// The lowercased file-name token that denotes each location.
pub open spec fn loc_token(l: Location) -> Seq<char> {
    match l {
        Location::Southroads => ("southroads.pdf")@,
        Location::Utica => ("utica.pdf")@,
        Location::Split => ("split.pdf")@,
    }
}

/// Which location a (lowercased) sixth segment denotes, if any.
pub open spec fn classify_location(s: Seq<char>) -> Option<Location> {
    if s == loc_token(Location::Southroads) {
        Some(Location::Southroads)
    } else if s == loc_token(Location::Utica) {
        Some(Location::Utica)
    } else if s == loc_token(Location::Split) {
        Some(Location::Split)
    } else {
        None
    }
}

/// The mathematical content of a record: what each string field holds.
pub ghost struct LineItemV {
    pub source_dir: Seq<char>,
    pub path: Seq<char>,
    pub trimmed_path: Seq<char>,
    pub parts: Seq<Seq<char>>,
    pub date: Seq<char>,
    pub vendor: Seq<char>,
    pub cost: Decimal,
    pub description: Seq<char>,
    pub category: Seq<char>,
    pub location: Location,
}

impl LineItemV {
    /// Well-formedness: six segments are the source of truth; the relative
    /// name is the segments joined with dashes; the full path is the source
    /// directory, a slash, and the relative name; the single-segment copies
    /// agree with the segment list; the date is six digits; the cost is a
    /// well-formed decimal.
    pub open spec fn wf(self) -> bool {
        &&& self.parts.len() == 6
        &&& self.trimmed_path == join_dash(self.parts)
        &&& self.path == self.source_dir + seq!['/'] + self.trimmed_path
        &&& self.date == self.parts[0]
        &&& self.vendor == self.parts[1]
        &&& self.description == self.parts[3]
        &&& self.category == self.parts[4]
        &&& self.date.len() == 6
        &&& all_digits(self.date)
        &&& self.cost.inv()
    }
}

/// One record of the expense system, decoded from a file name of the form
/// `date-vendor-cost-description-category-location.pdf`. The segment list
/// `parts` is the source of truth; every mutation rebuilds the relative name
/// and path from it.
#[derive(Debug)]
pub struct PdfLineItem {
    pub source_dir: String,
    pub path: String,
    pub trimmed_path: String,
    pub parts: Vec<String>,
    pub date: String,
    pub vendor: String,
    pub cost: Decimal,
    pub description: String,
    pub category: String,
    pub location: Location,
}

impl View for PdfLineItem {
    type V = LineItemV;

    open spec fn view(&self) -> LineItemV {
        LineItemV {
            source_dir: self.source_dir@,
            path: self.path@,
            trimmed_path: self.trimmed_path@,
            parts: self.parts.deep_view(),
            date: self.date@,
            vendor: self.vendor@,
            cost: self.cost,
            description: self.description@,
            category: self.category@,
            location: self.location,
        }
    }
}

impl DeepView for PdfLineItem {
    type V = LineItemV;

    open spec fn deep_view(&self) -> LineItemV {
        self.view()
    }
}

impl Clone for PdfLineItem {
    /// A field-for-field copy: the clone has the same content as the
    /// original.
    fn clone(&self) -> (res: Self)
        ensures
            res@ == self@,
    {
        PdfLineItem {
            source_dir: self.source_dir.clone(),
            path: self.path.clone(),
            trimmed_path: self.trimmed_path.clone(),
            parts: clone_strings(&self.parts),
            date: self.date.clone(),
            vendor: self.vendor.clone(),
            cost: self.cost,
            description: self.description.clone(),
            category: self.category.clone(),
            location: self.location,
        }
    }
}

/// The relative name of a path under a source directory: the characters
/// after the directory prefix and its separator.
pub open spec fn rel_of(sd: Seq<char>, p: Seq<char>) -> Seq<char> {
    p.skip(sd.len() as int + 1)
}

/// The name splits into exactly six segments.
pub open spec fn seg_count_ok(rel: Seq<char>) -> bool {
    split_dash(rel).len() == 6
}

/// The first segment is exactly six ASCII digits.
pub open spec fn date_ok(rel: Seq<char>) -> bool {
    split_dash(rel)[0].len() == 6 && all_digits(split_dash(rel)[0])
}

/// The third segment parses as a decimal number.
pub open spec fn cost_ok(rel: Seq<char>) -> bool {
    parse_ok(split_dash(rel)[2])
}

/// The lowercased sixth segment is a location token.
pub open spec fn loc_ok(rel: Seq<char>) -> bool {
    classify_location(lower_of(split_dash(rel)[5])) is Some
}

/// Whether a relative name decodes into a record.
pub open spec fn decode_ok(rel: Seq<char>) -> bool {
    seg_count_ok(rel) && date_ok(rel) && cost_ok(rel) && loc_ok(rel)
}

/// The record that a well-formed file name decodes to.
pub open spec fn decoded_item(sd: Seq<char>, p: Seq<char>) -> LineItemV {
    let rel = rel_of(sd, p);
    let parts = split_dash(rel);
    LineItemV {
        source_dir: sd,
        path: p,
        trimmed_path: rel,
        parts: parts,
        date: parts[0],
        vendor: parts[1],
        cost: Decimal {
            units: parse_units(parts[2]) as i128,
            scale: parse_scale(parts[2]) as u32,
        },
        description: parts[3],
        category: parts[4],
        location: classify_location(lower_of(parts[5])).unwrap(),
    }
}

/// The error that decoding a failing file name yields: the first decoding
/// step that fails names the error, which carries the offending name or
/// segment.
pub open spec fn decode_err(rel: Seq<char>, e: PdfError) -> bool {
    if !seg_count_ok(rel) {
        e is InvalidFileName && e.spec_detail() == rel
    } else if !date_ok(rel) {
        e is InvalidDate && e.spec_detail() == rel
    } else if !cost_ok(rel) {
        e is InvalidCost && e.spec_detail() == split_dash(rel)[2]
    } else {
        e is InvalidLocation && e.spec_detail() == rel
    }
}

impl PdfLineItem {
    /// Decodes one file under the source directory into a record.
    ///
    /// The name relative to the directory must split at dashes into exactly
    /// six segments, the date segment must be six ASCII digits, the cost
    /// segment must parse as a decimal, and the sixth segment must lowercase
    /// to one of the three location tokens; the first failing step names the
    /// error returned, if and only if one fails.
    pub fn new(source_dir: &str, path: &str) -> (r: Result<PdfLineItem, PdfError>)
        requires
            source_dir@.len() + 1 <= path@.len(),
            path@.subrange(0, source_dir@.len() as int) == source_dir@,
            path@[source_dir@.len() as int] == '/',
        ensures
            r is Ok <==> decode_ok(rel_of(source_dir@, path@)),
            r matches Err(e) ==> decode_err(rel_of(source_dir@, path@), e),
            r matches Ok(item) ==> item@ == decoded_item(source_dir@, path@) && item@.wf(),
    {
        let sd_len = source_dir.unicode_len();
        let n = path.unicode_len();
        let trimmed = path.substring_char(sd_len + 1, n);
        let ghost rel = rel_of(source_dir@, path@);
        proof {
            assert(trimmed@ =~= rel);
        }
        let parts = split_on_dash(trimmed);
        if parts.len() != 6 {
            return Err(PdfError::InvalidFileName(String::from_str(trimmed)));
        }
        let ghost pv = parts.deep_view();
        let date = parts[0].clone();
        proof {
            assert(date@ == pv[0]);
        }
        if !(date.as_str().unicode_len() == 6 && check_all_digits(date.as_str())) {
            return Err(PdfError::InvalidDate(String::from_str(trimmed)));
        }
        let cost = match Decimal::parse(parts[2].as_str()) {
            Ok(d) => d,
            Err(e) => {
                proof {
                    assert(parts@[2]@ == pv[2]);
                }
                return Err(e);
            },
        };
        proof {
            assert(parts@[2]@ == pv[2]);
        }
        let lowered = lowercase(parts[5].as_str());
        proof {
            assert(parts@[5]@ == pv[5]);
        }
        let location: Location = if str_eq(lowered.as_str(), "southroads.pdf") {
            Location::Southroads
        } else if str_eq(lowered.as_str(), "utica.pdf") {
            Location::Utica
        } else if str_eq(lowered.as_str(), "split.pdf") {
            Location::Split
        } else {
            return Err(PdfError::InvalidLocation(String::from_str(trimmed)));
        };
        let vendor = parts[1].clone();
        let description = parts[3].clone();
        let category = parts[4].clone();
        let item = PdfLineItem {
            source_dir: String::from_str(source_dir),
            path: String::from_str(path),
            trimmed_path: String::from_str(trimmed),
            parts,
            date,
            vendor,
            cost,
            description,
            category,
            location,
        };
        proof {
            lemma_split_join(rel);
            let dv = decoded_item(source_dir@, path@);
            assert(item@.parts == dv.parts);
            assert(item@.cost == dv.cost);
            assert(item@.location == dv.location);
            assert(item@ == dv);
            assert(path@ =~= source_dir@ + seq!['/'] + rel);
            assert(item@.wf());
        }
        Ok(item)
    }
}

} // verus!

verus! {

/// The record with a new cost: the cost segment replaced by the new cost's
/// rendering at its fixed position, the name and path rebuilt from the
/// segments.
pub open spec fn set_cost_v(v: LineItemV, c: Decimal) -> LineItemV {
    let parts = v.parts.update(2, crate::decimal::render_seq(c));
    LineItemV {
        source_dir: v.source_dir,
        path: v.source_dir + seq!['/'] + join_dash(parts),
        trimmed_path: join_dash(parts),
        parts: parts,
        date: v.date,
        vendor: v.vendor,
        cost: c,
        description: v.description,
        category: v.category,
        location: v.location,
    }
}

/// The record with a new (already lowercased) location token: the sixth
/// segment replaced, the name and path rebuilt from the segments.
pub open spec fn set_location_v(v: LineItemV, tok: Seq<char>) -> LineItemV {
    let parts = v.parts.update(5, tok);
    LineItemV {
        source_dir: v.source_dir,
        path: v.source_dir + seq!['/'] + join_dash(parts),
        trimmed_path: join_dash(parts),
        parts: parts,
        date: v.date,
        vendor: v.vendor,
        cost: v.cost,
        description: v.description,
        category: v.category,
        location: classify_location(tok).unwrap(),
    }
}

/// The record moved to another directory: only the directory and the full
/// path change; the relative name stays.
pub open spec fn set_source_dir_v(v: LineItemV, sd: Seq<char>) -> LineItemV {
    LineItemV {
        source_dir: sd,
        path: sd + seq!['/'] + v.trimmed_path,
        trimmed_path: v.trimmed_path,
        parts: v.parts,
        date: v.date,
        vendor: v.vendor,
        cost: v.cost,
        description: v.description,
        category: v.category,
        location: v.location,
    }
}

impl PdfLineItem {
    /// Replaces the cost, rebuilding the relative name and path from the
    /// segment list with the rendered cost at its fixed position.
    pub fn set_cost(&mut self, new_cost: Decimal)
        requires
            old(self)@.wf(),
            new_cost.inv(),
        ensures
            final(self)@.wf(),
            final(self)@ == set_cost_v(old(self)@, new_cost),
    {
        let rendered = new_cost.render();
        self.parts[2] = rendered;
        let joined = join_with_dash(&self.parts);
        self.path = concat_path(self.source_dir.as_str(), joined.as_str());
        self.trimmed_path = joined;
        self.cost = new_cost;
        proof {
            assert(self.parts.deep_view() =~= old(self)@.parts.update(
                2,
                crate::decimal::render_seq(new_cost),
            ));
            assert(self@ == set_cost_v(old(self)@, new_cost));
            assert(self@.wf());
        }
    }

    /// Replaces the location, re-running the same validation as decoding:
    /// fails with `InvalidLocation`, leaving the record unchanged, exactly
    /// when the lowercased argument is not a location token; otherwise
    /// replaces the sixth segment with the lowercased token and rebuilds the
    /// relative name and path.
    pub fn set_location(&mut self, new_location: String) -> (r: Option<PdfError>)
        requires
            old(self)@.wf(),
        ensures
            match r {
                Some(e) => {
                    &&& classify_location(lower_of(new_location@)) is None
                    &&& e is InvalidLocation
                    &&& e.spec_detail() == old(self)@.trimmed_path
                    &&& *final(self) == *old(self)
                },
                None => {
                    &&& classify_location(lower_of(new_location@)) is Some
                    &&& final(self)@.wf()
                    &&& final(self)@ == set_location_v(old(self)@, lower_of(new_location@))
                },
            },
    {
        let lowered = lowercase(new_location.as_str());
        let loc: Location = if str_eq(lowered.as_str(), "southroads.pdf") {
            Location::Southroads
        } else if str_eq(lowered.as_str(), "utica.pdf") {
            Location::Utica
        } else if str_eq(lowered.as_str(), "split.pdf") {
            Location::Split
        } else {
            return Some(PdfError::InvalidLocation(self.trimmed_path.clone()));
        };
        let ghost tok = lower_of(new_location@);
        self.parts[5] = lowered;
        self.location = loc;
        let joined = join_with_dash(&self.parts);
        self.path = concat_path(self.source_dir.as_str(), joined.as_str());
        self.trimmed_path = joined;
        proof {
            assert(self.parts.deep_view() =~= old(self)@.parts.update(5, tok));
            assert(self@ == set_location_v(old(self)@, tok));
            assert(self@.wf());
        }
        None
    }

    /// Moves the record to another source directory, rebuilding the full
    /// path from the new directory and the unchanged relative name.
    pub fn set_source_dir(&mut self, new_source: &str)
        requires
            old(self)@.wf(),
        ensures
            final(self)@.wf(),
            final(self)@ == set_source_dir_v(old(self)@, new_source@),
    {
        self.source_dir = String::from_str(new_source);
        self.path = concat_path(new_source, self.trimmed_path.as_str());
        proof {
            assert(self@ == set_source_dir_v(old(self)@, new_source@));
        }
    }
}

} // verus!

verus! {

/// What the characters of a path say after the last occurrence of `c`
/// (the whole string if `c` does not occur).
pub open spec fn after_last(s: Seq<char>, c: char) -> Seq<char>
    decreases s.len(),
{
    if s.len() == 0 {
        s
    } else if s.last() == c {
        Seq::empty()
    } else {
        after_last(s.drop_last(), c).push(s.last())
    }
}

proof fn lemma_after_last(s: Seq<char>, c: char, cut: int)
    requires
        0 <= cut <= s.len(),
        forall|j: int| cut <= j < s.len() ==> s[j] != c,
        cut > 0 ==> s[cut - 1] == c,
    ensures
        after_last(s, c) == s.skip(cut),
    decreases s.len(),
{
    if s.len() == 0 {
        assert(s.skip(0) =~= s);
    } else if s.last() == c {
        assert(cut == s.len());
        assert(s.skip(cut) =~= Seq::<char>::empty());
    } else {
        assert(cut < s.len());
        lemma_after_last(s.drop_last(), c, cut);
        assert(s.drop_last().skip(cut).push(s.last()) =~= s.skip(cut));
    }
}

/// Whether the file name at the end of the path has a `.pdf` extension: the
/// part after the final dot of the final path component is `pdf`, and that
/// dot does not begin the component.
pub open spec fn has_pdf_ext(p: Seq<char>) -> bool {
    let name = after_last(p, '/');
    let ext = after_last(name, '.');
    ext == ("pdf")@ && ext.len() + 1 < name.len()
}

/// Checks the `.pdf` extension of the path's file name.
pub fn check_pdf_ext(p: &str) -> (r: bool)
    ensures
        r == has_pdf_ext(p@),
{
    let n = p.unicode_len();
    let mut cut: usize = 0;
    let mut i: usize = 0;
    while i < n
        invariant
            cut <= i <= n,
            n == p@.len(),
            forall|j: int| cut as int <= j < i as int ==> p@[j] != '/',
            cut > 0 ==> p@[cut - 1] == '/',
        decreases n - i,
    {
        if p.get_char(i) == '/' {
            cut = i + 1;
        }
        i = i + 1;
    }
    proof {
        lemma_after_last(p@, '/', cut as int);
    }
    let ghost name = after_last(p@, '/');
    // scan the name for its last dot
    let mut dcut: usize = cut;
    let mut j: usize = cut;
    while j < n
        invariant
            cut <= dcut <= j <= n,
            n == p@.len(),
            forall|k: int| dcut as int <= k < j as int ==> p@[k] != '.',
            dcut > cut ==> p@[dcut - 1] == '.',
        decreases n - j,
    {
        if p.get_char(j) == '.' {
            dcut = j + 1;
        }
        j = j + 1;
    }
    proof {
        assert(name == p@.skip(cut as int));
        lemma_after_last(name, '.', dcut - cut as int);
        assert(name.skip(dcut - cut as int) =~= p@.skip(dcut as int));
    }
    let ext = p.substring_char(dcut, n);
    proof {
        assert(ext@ =~= after_last(name, '.'));
    }
    let ok = str_eq(ext, "pdf");
    ok && dcut - cut > 1
}

/// One entry of a directory walk: its full path and whether it is itself a
/// directory.
pub struct FileEntry {
    pub path: String,
    pub is_dir: bool,
}

/// The content of a directory entry.
pub ghost struct FileEntryV {
    pub path: Seq<char>,
    pub is_dir: bool,
}

impl View for FileEntry {
    type V = FileEntryV;

    open spec fn view(&self) -> FileEntryV {
        FileEntryV { path: self.path@, is_dir: self.is_dir }
    }
}

impl DeepView for FileEntry {
    type V = FileEntryV;

    open spec fn deep_view(&self) -> FileEntryV {
        self.view()
    }
}

/// The shape a walked path has under its source directory: the directory
/// itself, or the directory, a slash, and at least one more character.
pub open spec fn entry_shape(sd: Seq<char>, p: Seq<char>) -> bool {
    p == sd || (p.len() > sd.len() && p.subrange(0, sd.len() as int) == sd && p[sd.len() as int]
        == '/')
}

/// The walked entries without the source directory itself.
pub open spec fn non_root(sd: Seq<char>, es: Seq<FileEntryV>) -> Seq<FileEntryV> {
    es.filter(|e: FileEntryV| e.path != sd)
}

/// Whether one directory entry yields a record: a file, with a `.pdf`
/// extension, whose relative name decodes.
pub open spec fn entry_good(sd: Seq<char>, e: FileEntryV) -> bool {
    !e.is_dir && has_pdf_ext(e.path) && decode_ok(rel_of(sd, e.path))
}

/// The error a failing directory entry yields.
pub open spec fn entry_error(sd: Seq<char>, ev: FileEntryV, e: PdfError) -> bool {
    if ev.is_dir {
        e is InvalidDirContents && e.spec_detail() == ev.path
    } else if !has_pdf_ext(ev.path) {
        e is InvalidFileExtension && e.spec_detail() == ev.path
    } else {
        decode_err(rel_of(sd, ev.path), e)
    }
}

/// The position of the first entry that yields no record (the sequence
/// length when every entry yields one).
pub open spec fn first_bad(sd: Seq<char>, es: Seq<FileEntryV>) -> int
    decreases es.len(),
{
    if es.len() == 0 {
        0
    } else if !entry_good(sd, es[0]) {
        0
    } else {
        1 + first_bad(sd, es.drop_first())
    }
}

pub proof fn lemma_first_bad(sd: Seq<char>, es: Seq<FileEntryV>)
    ensures
        0 <= first_bad(sd, es) <= es.len(),
        forall|k: int| 0 <= k < first_bad(sd, es) ==> entry_good(sd, #[trigger] es[k]),
        first_bad(sd, es) < es.len() ==> !entry_good(sd, es[first_bad(sd, es)]),
    decreases es.len(),
{
    if es.len() == 0 {
    } else if !entry_good(sd, es[0]) {
    } else {
        lemma_first_bad(sd, es.drop_first());
        assert(forall|k: int| 1 <= k < first_bad(sd, es) ==> es.drop_first()[k - 1]
            == #[trigger] es[k]);
    }
}

} // verus!

verus! {

proof fn lemma_non_root_empty(sd: Seq<char>)
    ensures
        non_root(sd, Seq::<FileEntryV>::empty()) == Seq::<FileEntryV>::empty(),
{
    reveal(Seq::filter);
}

proof fn lemma_non_root_push(sd: Seq<char>, es: Seq<FileEntryV>, e: FileEntryV)
    ensures
        non_root(sd, es.push(e)) == if e.path != sd {
            non_root(sd, es).push(e)
        } else {
            non_root(sd, es)
        },
{
    reveal(Seq::filter);
    assert(es.push(e).drop_last() =~= es);
    assert(es.push(e).last() == e);
}

impl PdfLineItem {
    /// Decodes every file of a flat source directory, in enumeration order.
    ///
    /// The directory's own entry is skipped; a nested directory fails with
    /// `InvalidDirContents`; an entry without a `.pdf` extension fails with
    /// `InvalidFileExtension`; a file name that does not decode fails with
    /// that decoding error. The first failing entry aborts the whole call
    /// with its error and no partial result; the call succeeds if and only
    /// if every entry yields a record.
    pub fn new_from_files(source_dir: &str, entries: &Vec<FileEntry>) -> (r: Result<
        Vec<PdfLineItem>,
        PdfError,
    >)
        requires
            forall|j: int|
                0 <= j < entries.deep_view().len() ==> entry_shape(
                    source_dir@,
                    (#[trigger] entries.deep_view()[j]).path,
                ),
        ensures
            ({
                let es = non_root(source_dir@, entries.deep_view());
                &&& (r is Ok <==> first_bad(source_dir@, es) == es.len())
                &&& (r is Ok ==> forall|j: int|
                    0 <= j < es.len() ==> entry_good(source_dir@, #[trigger] es[j]))
                &&& (r matches Ok(items) ==> items.deep_view().len() == es.len() && forall|j: int|
                    0 <= j < es.len() ==> (#[trigger] items.deep_view()[j]) == decoded_item(
                        source_dir@,
                        es[j].path,
                    ) && items.deep_view()[j].wf())
                &&& (r matches Err(e) ==> first_bad(source_dir@, es) < es.len() && entry_error(
                    source_dir@,
                    es[first_bad(source_dir@, es)],
                    e,
                ))
            }),
    {
        broadcast use vstd::seq_lib::group_filter_ensures;

        let ghost sd = source_dir@;
        let ghost ev = entries.deep_view();
        let mut items: Vec<PdfLineItem> = Vec::new();
        let mut i: usize = 0;
        proof {
            assert(ev.take(0) =~= Seq::<FileEntryV>::empty());
            lemma_non_root_empty(sd);
            assert(non_root(sd, ev.take(0)) =~= Seq::<FileEntryV>::empty());
            assert(items.deep_view() =~= Seq::<LineItemV>::empty());
        }
        while i < entries.len()
            invariant
                i <= ev.len(),
                ev == entries.deep_view(),
                ev.len() == entries@.len(),
                sd == source_dir@,
                forall|j: int| 0 <= j < ev.len() ==> entry_shape(sd, (#[trigger] ev[j]).path),
                forall|j: int|
                    0 <= j < non_root(sd, ev.take(i as int)).len() ==> entry_good(
                        sd,
                        #[trigger] non_root(sd, ev.take(i as int))[j],
                    ),
                items.deep_view().len() == non_root(sd, ev.take(i as int)).len(),
                forall|j: int|
                    0 <= j < items.deep_view().len() ==> (#[trigger] items.deep_view()[j])
                        == decoded_item(sd, non_root(sd, ev.take(i as int))[j].path)
                        && items.deep_view()[j].wf(),
            decreases ev.len() - i,
        {
            broadcast use vstd::seq_lib::group_filter_ensures;

            let ghost e_i = ev[i as int];
            let ghost fs = non_root(sd, ev.take(i as int));
            proof {
                assert(entries@[i as int].deep_view() == ev[i as int]);
                assert(ev.take(i + 1).drop_last() =~= ev.take(i as int));
                assert(ev.take(i + 1).last() == e_i);
            }
            let entry = &entries[i];
            proof {
                assert(entry@ == e_i);
            }
            if str_eq(entry.path.as_str(), source_dir) {
                proof {
                    assert(e_i.path == sd);
                    assert(ev.take(i + 1) =~= ev.take(i as int).push(e_i));
                    lemma_non_root_push(sd, ev.take(i as int), e_i);
                    assert(non_root(sd, ev.take(i + 1)) =~= fs);
                }
            } else {
                proof {
                    assert(e_i.path != sd);
                    assert(ev.take(i + 1) =~= ev.take(i as int).push(e_i));
                    lemma_non_root_push(sd, ev.take(i as int), e_i);
                    assert(non_root(sd, ev.take(i + 1)) =~= fs.push(e_i));
                    // this entry stands in the full filtered sequence right
                    // after the good prefix
                    let single = Seq::<FileEntryV>::empty().push(e_i);
                    assert(ev =~= ev.take(i as int) + ev.skip(i as int));
                    assert(ev.skip(i as int) =~= single + ev.skip(i + 1));
                    lemma_non_root_empty(sd);
                    lemma_non_root_push(sd, Seq::<FileEntryV>::empty(), e_i);
                    assert(non_root(sd, single) =~= single);
                    assert(non_root(sd, ev.take(i as int) + ev.skip(i as int)) == non_root(
                        sd,
                        ev.take(i as int),
                    ) + non_root(sd, ev.skip(i as int)));
                    assert(non_root(sd, single + ev.skip(i + 1)) == non_root(sd, single)
                        + non_root(sd, ev.skip(i + 1)));
                    assert(non_root(sd, ev) == fs + single + non_root(sd, ev.skip(i + 1)));
                    assert(non_root(sd, ev)[fs.len() as int] == e_i);
                    assert(forall|k: int|
                        0 <= k < fs.len() ==> non_root(sd, ev)[k] == #[trigger] fs[k]);
                }
                let ghost es_full = non_root(sd, ev);
                if entry.is_dir {
                    proof {
                        assert(!entry_good(sd, e_i));
                        lemma_first_bad(sd, es_full);
                        assert(first_bad(sd, es_full) == fs.len());
                    }
                    return Err(PdfError::InvalidDirContents(entry.path.clone()));
                }
                if !check_pdf_ext(entry.path.as_str()) {
                    proof {
                        assert(!entry_good(sd, e_i));
                        lemma_first_bad(sd, es_full);
                        assert(first_bad(sd, es_full) == fs.len());
                    }
                    return Err(PdfError::InvalidFileExtension(entry.path.clone()));
                }
                match PdfLineItem::new(source_dir, entry.path.as_str()) {
                    Ok(item) => {
                        let ghost old_items = items.deep_view();
                        items.push(item);
                        proof {
                            assert(items.deep_view() =~= old_items.push(item@));
                        }
                    },
                    Err(e) => {
                        proof {
                            assert(!entry_good(sd, e_i));
                            lemma_first_bad(sd, es_full);
                            assert(first_bad(sd, es_full) == fs.len());
                        }
                        return Err(e);
                    },
                }
            }
            i = i + 1;
        }
        proof {
            assert(ev.take(ev.len() as int) =~= ev);
            lemma_first_bad(sd, non_root(sd, ev));
            assert(first_bad(sd, non_root(sd, ev)) == non_root(sd, ev).len());
        }
        Ok(items)
    }
}

} // verus!

verus! {

impl PdfLineItem {
    /// Replaces the location with a fixed token, rebuilding the relative
    /// name and path: the internal form of `set_location` for the three
    /// known tokens, which cannot fail.
    pub(crate) fn set_location_token(&mut self, loc: Location)
        requires
            old(self)@.wf(),
        ensures
            final(self)@.wf(),
            final(self)@ == set_location_v(old(self)@, loc_token(loc)),
    {
        let tok: &str = match loc {
            Location::Southroads => "southroads.pdf",
            Location::Utica => "utica.pdf",
            Location::Split => "split.pdf",
        };
        proof {
            reveal_strlit("southroads.pdf");
            reveal_strlit("utica.pdf");
            reveal_strlit("split.pdf");
            assert(loc_token(Location::Southroads).len() == 14);
            assert(loc_token(Location::Utica).len() == 9);
            assert(loc_token(Location::Split).len() == 9);
            assert(loc_token(Location::Utica)[0] == 'u');
            assert(loc_token(Location::Split)[0] == 's');
            assert(loc_token(Location::Utica) != loc_token(Location::Southroads));
            assert(loc_token(Location::Split) != loc_token(Location::Southroads));
            assert(loc_token(Location::Split) != loc_token(Location::Utica));
            assert(classify_location(loc_token(loc)) == Some(loc));
        }
        self.parts[5] = String::from_str(tok);
        self.location = loc;
        let joined = join_with_dash(&self.parts);
        self.path = concat_path(self.source_dir.as_str(), joined.as_str());
        self.trimmed_path = joined;
        proof {
            assert(self.parts.deep_view() =~= old(self)@.parts.update(5, loc_token(loc)));
            assert(self@ == set_location_v(old(self)@, loc_token(loc)));
            assert(self@.wf());
        }
    }
}

} // verus!
