use vstd::prelude::*;
use vstd::string::StrSliceExecFns;
use vstd::string::StringExecFns;
use crate::decimal::is_digit;

verus! {

/// The lowercase equivalent of a string, as `str::to_lowercase` computes it:
/// a function of the characters alone.
pub uninterp spec fn lower_of(s: Seq<char>) -> Seq<char>;

/// Relies on `str::to_lowercase`: returns the lowercase equivalent of the
/// string, which depends on its characters alone.
#[verifier::external_body]
pub(crate) fn lowercase(s: &str) -> (r: String)
    ensures
        r@ == lower_of(s@),
{
    s.to_lowercase()
}

/// Splitting from position `i` with `cur` the piece read since the last
/// dash and `acc` the pieces already cut.
pub open spec fn split_dash_rec(s: Seq<char>, i: int, cur: Seq<char>, acc: Seq<Seq<char>>) -> Seq<
    Seq<char>,
>
    decreases s.len() - i,
{
    if i < 0 || i >= s.len() {
        acc.push(cur)
    } else if s[i] == '-' {
        split_dash_rec(s, i + 1, Seq::empty(), acc.push(cur))
    } else {
        split_dash_rec(s, i + 1, cur.push(s[i]), acc)
    }
}

/// The segments of `s` between its dashes: always one more segment than
/// there are dashes.
pub open spec fn split_dash(s: Seq<char>) -> Seq<Seq<char>> {
    split_dash_rec(s, 0, Seq::empty(), Seq::empty())
}

/// The segments re-joined with single dashes.
pub open spec fn join_dash(parts: Seq<Seq<char>>) -> Seq<char>
    decreases parts.len(),
{
    if parts.len() == 0 {
        Seq::empty()
    } else if parts.len() == 1 {
        parts[0]
    } else {
        join_dash(parts.drop_last()) + seq!['-'] + parts.last()
    }
}

proof fn lemma_join_push2(xs: Seq<Seq<char>>, a: Seq<char>, b: Seq<char>)
    ensures
        join_dash(xs.push(a).push(b)) == join_dash(xs.push(a + seq!['-'] + b)),
{
    let l = xs.push(a).push(b);
    assert(l.drop_last() =~= xs.push(a));
    let c = a + seq!['-'] + b;
    assert(xs.push(c).drop_last() =~= xs);
    assert(xs.push(a).drop_last() =~= xs);
    if xs.len() == 0 {
        assert(join_dash(xs.push(a)) == a);
        assert(join_dash(l) == a + seq!['-'] + b);
        assert(join_dash(xs.push(c)) == c);
    } else {
        assert(join_dash(xs.push(a)) == join_dash(xs) + seq!['-'] + a);
        assert(join_dash(l) == join_dash(xs.push(a)) + seq!['-'] + b);
        assert(join_dash(xs.push(c)) == join_dash(xs) + seq!['-'] + c);
        assert((join_dash(xs) + seq!['-'] + a) + seq!['-'] + b =~= join_dash(xs) + seq!['-'] + (a
            + seq!['-'] + b));
    }
}

proof fn lemma_join_split_rec(s: Seq<char>, i: int, cur: Seq<char>, acc: Seq<Seq<char>>)
    requires
        0 <= i <= s.len(),
    ensures
        join_dash(split_dash_rec(s, i, cur, acc)) == join_dash(acc.push(cur + s.skip(i))),
    decreases s.len() - i,
{
    if i >= s.len() {
        assert(cur + s.skip(i) =~= cur);
    } else if s[i] == '-' {
        lemma_join_split_rec(s, i + 1, Seq::empty(), acc.push(cur));
        assert(Seq::<char>::empty() + s.skip(i + 1) =~= s.skip(i + 1));
        lemma_join_push2(acc, cur, s.skip(i + 1));
        assert(cur + seq!['-'] + s.skip(i + 1) =~= cur + s.skip(i));
    } else {
        lemma_join_split_rec(s, i + 1, cur.push(s[i]), acc);
        assert(cur.push(s[i]) + s.skip(i + 1) =~= cur + s.skip(i));
    }
}

/// Splitting on dashes and re-joining with dashes gives the string back.
pub proof fn lemma_split_join(s: Seq<char>)
    ensures
        join_dash(split_dash(s)) == s,
{
    lemma_join_split_rec(s, 0, Seq::empty(), Seq::empty());
    assert(Seq::<char>::empty() + s.skip(0) =~= s);
    let l = Seq::<Seq<char>>::empty().push(s);
    assert(join_dash(l) == s);
}

/// Splits a string at each dash; the segments, in order, with the dashes
/// dropped.
pub fn split_on_dash(s: &str) -> (parts: Vec<String>)
    ensures
        parts.deep_view() == split_dash(s@),
{
    let n = s.unicode_len();
    let mut parts: Vec<String> = Vec::new();
    let mut start: usize = 0;
    let mut i: usize = 0;
    proof {
        assert(s@.subrange(0, 0) =~= Seq::<char>::empty());
        assert(parts.deep_view() =~= Seq::<Seq<char>>::empty());
    }
    while i < n
        invariant
            0 <= start as int <= i as int <= n,
            n == s@.len(),
            split_dash_rec(
                s@,
                i as int,
                s@.subrange(start as int, i as int),
                parts.deep_view(),
            ) == split_dash(s@),
        decreases n - i,
    {
        let ghost cur = s@.subrange(start as int, i as int);
        let ghost acc = parts.deep_view();
        let c = s.get_char(i);
        if c == '-' {
            let piece = String::from_str(s.substring_char(start, i));
            parts.push(piece);
            proof {
                assert(parts.deep_view() =~= acc.push(cur));
                assert(split_dash_rec(s@, i as int, cur, acc) == split_dash_rec(
                    s@,
                    i + 1,
                    Seq::empty(),
                    acc.push(cur),
                ));
                assert(s@.subrange(i + 1, i + 1) =~= Seq::<char>::empty());
            }
            start = i + 1;
        } else {
            proof {
                assert(split_dash_rec(s@, i as int, cur, acc) == split_dash_rec(
                    s@,
                    i + 1,
                    cur.push(s@[i as int]),
                    acc,
                ));
                assert(s@.subrange(start as int, i + 1) =~= cur.push(s@[i as int]));
            }
        }
        i = i + 1;
    }
    let ghost cur = s@.subrange(start as int, i as int);
    let ghost acc = parts.deep_view();
    let piece = String::from_str(s.substring_char(start, n));
    parts.push(piece);
    proof {
        assert(parts.deep_view() =~= acc.push(cur));
        assert(split_dash_rec(s@, n as int, cur, acc) == acc.push(cur));
    }
    parts
}

/// Joins the segments with single dashes between them.
pub fn join_with_dash(parts: &Vec<String>) -> (r: String)
    ensures
        r@ == join_dash(parts.deep_view()),
{
    proof {
        reveal_strlit("-");
    }
    let mut r = String::new();
    let mut i: usize = 0;
    while i < parts.len()
        invariant
            i <= parts@.len(),
            r@ == join_dash(parts.deep_view().take(i as int)),
        decreases parts@.len() - i,
    {
        let ghost pv = parts.deep_view();
        if i > 0 {
            r.append("-");
        }
        r.append(parts[i].as_str());
        proof {
            reveal_strlit("-");
            assert(pv.take(i + 1).drop_last() =~= pv.take(i as int));
            assert(pv.take(i + 1).last() == pv[i as int]);
            assert(parts@[i as int]@ == pv[i as int]);
            if i == 0 {
                assert(join_dash(pv.take(1)) == pv[0]);
                assert(r@ =~= join_dash(pv.take(1)));
            } else {
                assert(join_dash(pv.take(i + 1)) == join_dash(pv.take(i as int)) + seq!['-']
                    + pv[i as int]);
                assert(r@ =~= join_dash(pv.take(i + 1)));
            }
        }
        i = i + 1;
    }
    proof {
        assert(parts.deep_view().take(parts@.len() as int) =~= parts.deep_view());
    }
    r
}

/// Whether two string slices hold the same characters.
pub fn str_eq(a: &str, b: &str) -> (r: bool)
    ensures
        r == (a@ == b@),
{
    let na = a.unicode_len();
    let nb = b.unicode_len();
    if na != nb {
        return false;
    }
    let mut i: usize = 0;
    while i < na
        invariant
            i <= na,
            na == a@.len(),
            na == b@.len(),
            forall|j: int| 0 <= j < i as int ==> a@[j] == b@[j],
        decreases na - i,
    {
        if a.get_char(i) != b.get_char(i) {
            return false;
        }
        i = i + 1;
    }
    proof {
        assert(a@ =~= b@);
    }
    true
}

/// The string with every space replaced by an underscore.
pub open spec fn underscored(s: Seq<char>) -> Seq<char> {
    s.map_values(|c: char| if c == ' ' { '_' } else { c })
}

/// Replaces each space with an underscore, leaving all other characters.
pub fn replace_spaces(s: &str) -> (r: String)
    ensures
        r@ == underscored(s@),
{
    proof {
        reveal_strlit("_");
    }
    let n = s.unicode_len();
    let mut r = String::new();
    let mut start: usize = 0;
    let mut i: usize = 0;
    while i < n
        invariant
            0 <= start as int <= i as int <= n,
            n == s@.len(),
            r@ + s@.subrange(start as int, i as int) == underscored(s@.take(i as int)),
        decreases n - i,
    {
        let ghost cur = s@.subrange(start as int, i as int);
        let c = s.get_char(i);
        if c == ' ' {
            r.append(s.substring_char(start, i));
            r.append("_");
            proof {
                reveal_strlit("_");
                assert(("_")@ =~= seq!['_']);
                assert(underscored(s@.take(i + 1)) =~= underscored(s@.take(i as int)).push('_'));
                assert(r@ + s@.subrange(i + 1, i + 1) =~= underscored(s@.take(i + 1)));
            }
            start = i + 1;
        } else {
            proof {
                assert(underscored(s@.take(i + 1)) =~= underscored(s@.take(i as int)).push(
                    s@[i as int],
                ));
                assert(s@.subrange(start as int, i + 1) =~= cur.push(s@[i as int]));
                assert(r@ + s@.subrange(start as int, i + 1) =~= underscored(s@.take(i + 1)));
            }
        }
        i = i + 1;
    }
    r.append(s.substring_char(start, n));
    proof {
        assert(underscored(s@.take(n as int)) =~= underscored(s@));
        assert(r@ =~= underscored(s@));
    }
    r
}

/// A directory, a slash, and a relative name.
pub fn concat_path(dir: &str, rel: &str) -> (r: String)
    ensures
        r@ == dir@ + seq!['/'] + rel@,
{
    proof {
        reveal_strlit("/");
    }
    let mut r = String::from_str(dir);
    r.append("/");
    r.append(rel);
    proof {
        assert(r@ =~= dir@ + seq!['/'] + rel@);
    }
    r
}

/// Whether every character of the string is an ASCII digit.
pub open spec fn all_digits(s: Seq<char>) -> bool {
    forall|i: int| 0 <= i < s.len() ==> is_digit(s[i])
}

/// Checks that every character is an ASCII digit.
pub fn check_all_digits(s: &str) -> (r: bool)
    ensures
        r == all_digits(s@),
{
    let n = s.unicode_len();
    let mut i: usize = 0;
    while i < n
        invariant
            i <= n,
            n == s@.len(),
            forall|j: int| 0 <= j < i as int ==> is_digit(s@[j]),
        decreases n - i,
    {
        let c = s.get_char(i);
        let cu = c as u32;
        if cu < 48 || cu > 57 {
            return false;
        }
        i = i + 1;
    }
    true
}

/// Clones a vector of strings, character for character.
pub fn clone_strings(v: &Vec<String>) -> (r: Vec<String>)
    ensures
        r@.len() == v@.len(),
        forall|i: int| 0 <= i < v@.len() ==> r@[i] == v@[i],
        r.deep_view() == v.deep_view(),
{
    let mut r: Vec<String> = Vec::new();
    let mut i: usize = 0;
    while i < v.len()
        invariant
            i <= v@.len(),
            r@.len() == i,
            forall|j: int| 0 <= j < i as int ==> r@[j] == v@[j],
        decreases v@.len() - i,
    {
        r.push(v[i].clone());
        i = i + 1;
    }
    proof {
        assert(r.deep_view() =~= v.deep_view());
    }
    r
}

} // verus!
