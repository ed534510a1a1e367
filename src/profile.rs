use vstd::prelude::*;
use crate::text::{chars_of, class_pred, find_class, find_from, slice_of, string_of};
use crate::transfac::{lines, strip_cr};

verus! {

/// One line of a threshold profile, `1, css, mss, accession, name`, with the two
/// thresholds still as text. The name is the matrix name the thresholds apply to.
#[derive(Debug, Clone)]
pub struct ProfileLine {
    pub css: String,
    pub mss: String,
    pub accession: String,
    pub id: String,
}

pub open spec fn comma_pred() -> spec_fn(char) -> bool {
    |c: char| c == ','
}

pub open spec fn is_alnum(c: char) -> bool {
    ('0' <= c && c <= '9') || ('a' <= c && c <= 'z') || ('A' <= c && c <= 'Z')
}

/// `s` without its leading and trailing blanks.
pub open spec fn trim(s: Seq<char>) -> Seq<char> {
    trim_end(s.subrange(find_from(s, 0, class_pred(1)), s.len() as int))
}

pub open spec fn trim_end(s: Seq<char>) -> Seq<char>
    decreases s.len(),
{
    if s.len() > 0 && (s.last() == ' ' || s.last() == '\t') {
        trim_end(s.drop_last())
    } else {
        s
    }
}

/// The positions of the first four commas of a line.
pub open spec fn comma(l: Seq<char>, k: nat) -> int
    decreases k,
{
    if k == 0 {
        find_from(l, 0, comma_pred())
    } else {
        find_from(l, comma(l, (k - 1) as nat) + 1, comma_pred())
    }
}

/// The `k`-th comma-separated field of a line, for `k` below four, trimmed.
pub open spec fn field(l: Seq<char>, k: nat) -> Seq<char> {
    let from = if k == 0 {
        0
    } else {
        comma(l, (k - 1) as nat) + 1
    };
    trim(l.subrange(from, comma(l, k)))
}

/// The first field is `1` at the start of the line, the thresholds are words without
/// blanks, the accession is letters and digits, and a fourth comma follows it.
pub open spec fn is_profile_line(l: Seq<char>) -> bool {
    &&& comma(l, 3) < l.len()
    &&& l.len() > 0 && l[0] == '1' && field(l, 0) == seq!['1']
    &&& field(l, 1).len() > 0 && (forall|j: int| 0 <= j < field(l, 1).len() ==> !crate::transfac::is_blank(#[trigger] field(l, 1)[j]))
    &&& field(l, 2).len() > 0 && (forall|j: int| 0 <= j < field(l, 2).len() ==> !crate::transfac::is_blank(#[trigger] field(l, 2)[j]))
    &&& field(l, 3).len() > 0 && (forall|j: int| 0 <= j < field(l, 3).len() ==> is_alnum(#[trigger] field(l, 3)[j]))
}

/// The matrix name of a profile line: the rest of the line after the fourth comma
/// and the blanks that follow it.
pub open spec fn name_of(l: Seq<char>) -> Seq<char> {
    l.subrange(find_from(l, comma(l, 3) + 1, class_pred(1)), l.len() as int)
}

pub open spec fn line_matches(p: ProfileLine, l: Seq<char>) -> bool {
    &&& p.css@ == field(l, 1)
    &&& p.mss@ == field(l, 2)
    &&& p.accession@ == field(l, 3)
    &&& p.id@ == name_of(l)
}

proof fn lemma_comma_bounds(l: Seq<char>, k: nat)
    ensures
        0 <= comma(l, k) <= l.len(),
        k > 0 ==> comma(l, (k - 1) as nat) <= comma(l, k),
    decreases k,
{
    crate::text::lemma_find_bounds(l, 0, comma_pred());
    if k > 0 {
        lemma_comma_bounds(l, (k - 1) as nat);
        let c = comma(l, (k - 1) as nat);
        if c < l.len() {
            crate::text::lemma_find_bounds(l, c + 1, comma_pred());
        }
    }
}

/// The part of `v` from `from` to `to` without leading and trailing blanks.
fn trimmed(v: &Vec<char>, from: usize, to: usize) -> (r: Vec<char>)
    requires
        from <= to <= v@.len(),
    ensures
        r@ == trim(v@.subrange(from as int, to as int)),
{
    let part = slice_of(v, from, to);
    let s = find_class(&part, 0, 1);
    let mut e = part.len();
    let ghost rest = part@.subrange(s as int, part@.len() as int);
    while e > s && (part[e - 1] == ' ' || part[e - 1] == '\t')
        invariant
            s <= e <= part@.len(),
            rest == part@.subrange(s as int, part@.len() as int),
            trim_end(rest) == trim_end(part@.subrange(s as int, e as int)),
        decreases e,
    {
        assert(part@.subrange(s as int, e as int).drop_last() =~= part@.subrange(s as int, e - 1));
        e = e - 1;
    }
    let r = slice_of(&part, s, e);
    assert(r@ == part@.subrange(s as int, e as int));
    assert(trim_end(r@) == r@);
    assert(part@.subrange(s as int, part@.len() as int) =~= rest);
    r
}

fn all_solid(v: &Vec<char>) -> (r: bool)
    ensures
        r == (forall|j: int| 0 <= j < v@.len() ==> !crate::transfac::is_blank(#[trigger] v@[j])),
{
    let mut k: usize = 0;
    while k < v.len()
        invariant
            k <= v@.len(),
            forall|j: int| 0 <= j < k ==> !crate::transfac::is_blank(#[trigger] v@[j]),
        decreases v@.len() - k,
    {
        if v[k] == ' ' || v[k] == '\t' {
            return false;
        }
        k = k + 1;
    }
    true
}

fn all_alnum(v: &Vec<char>) -> (r: bool)
    ensures
        r == (forall|j: int| 0 <= j < v@.len() ==> is_alnum(#[trigger] v@[j])),
{
    let mut k: usize = 0;
    while k < v.len()
        invariant
            k <= v@.len(),
            forall|j: int| 0 <= j < k ==> is_alnum(#[trigger] v@[j]),
        decreases v@.len() - k,
    {
        let c = v[k];
        if !(('0' <= c && c <= '9') || ('a' <= c && c <= 'z') || ('A' <= c && c <= 'Z')) {
            return false;
        }
        k = k + 1;
    }
    true
}

/// Reads one line of a threshold profile (without its line feed).
pub fn parse_profile_line(l: &Vec<char>) -> (r: Option<ProfileLine>)
    ensures
        r is Some <==> is_profile_line(l@),
        r is Some ==> line_matches(r->Some_0, l@),
{
    let n = l.len();
    let c0 = find_class_comma(l, 0);
    if c0 >= n {
        proof { lemma_comma_bounds(l@, 3); lemma_comma_bounds(l@, 2); lemma_comma_bounds(l@, 1); }
        return None;
    }
    let c1 = find_class_comma(l, c0 + 1);
    if c1 >= n {
        proof { lemma_comma_bounds(l@, 3); lemma_comma_bounds(l@, 2); }
        return None;
    }
    let c2 = find_class_comma(l, c1 + 1);
    if c2 >= n {
        proof { lemma_comma_bounds(l@, 3); }
        return None;
    }
    let c3 = find_class_comma(l, c2 + 1);
    if c3 >= n {
        return None;
    }
    let f0 = trimmed(l, 0, c0);
    let f1 = trimmed(l, c0 + 1, c1);
    let f2 = trimmed(l, c1 + 1, c2);
    let f3 = trimmed(l, c2 + 1, c3);
    let one = f0.len() == 1 && f0[0] == '1';
    proof {
        if one {
            assert(f0@ =~= seq!['1']);
        }
    }
    if !(l[0] == '1' && one && f1.len() > 0 && all_solid(&f1) && f2.len() > 0 && all_solid(&f2)
        && f3.len() > 0 && all_alnum(&f3)) {
        return None;
    }
    let name_start = find_class(l, c3 + 1, 1);
    let name = slice_of(l, name_start, n);
    Some(ProfileLine { css: string_of(f1), mss: string_of(f2), accession: string_of(f3), id: string_of(name) })
}

/// The first comma at or after `i`, or the length.
fn find_class_comma(v: &Vec<char>, i: usize) -> (r: usize)
    requires
        i <= v@.len(),
    ensures
        r == find_from(v@, i as int, comma_pred()),
        i <= r <= v@.len(),
{
    let mut k = i;
    while k < v.len() && v[k] != ','
        invariant
            i <= k <= v@.len(),
            forall|j: int| i <= j < k ==> !comma_pred()(#[trigger] v@[j]),
        decreases v@.len() - k,
    {
        k = k + 1;
    }
    proof {
        crate::text::lemma_find_skip(v@, i as int, k as int, comma_pred());
    }
    k
}

/// The lines at the front of `ls` that are profile lines, up to the first that is not.
pub open spec fn leading_profiles(ls: Seq<Seq<char>>) -> Seq<Seq<char>>
    decreases ls.len(),
{
    if ls.len() > 0 && is_profile_line(ls[0]) {
        seq![ls[0]] + leading_profiles(ls.drop_first())
    } else {
        seq![]
    }
}

proof fn lemma_leading_append(done: Seq<Seq<char>>, rest: Seq<Seq<char>>)
    requires
        forall|j: int| 0 <= j < done.len() ==> is_profile_line(#[trigger] done[j]),
    ensures
        leading_profiles(done + rest) == done + leading_profiles(rest),
    decreases done.len(),
{
    if done.len() > 0 {
        assert((done + rest).drop_first() =~= done.drop_first() + rest);
        assert((done + rest)[0] == done[0]);
        lemma_leading_append(done.drop_first(), rest);
        assert(done =~= seq![done[0]] + done.drop_first());
    } else {
        assert(done + rest =~= rest);
    }
}

/// Reads a threshold profile: its lines, in order, up to the first line that is
/// not a profile line.
pub fn parse_profiles(input: &str) -> (r: Vec<ProfileLine>)
    ensures
        r@.len() == leading_profiles(lines(input@, 0)).len(),
        forall|i: int| 0 <= i < r@.len() ==> line_matches(#[trigger] r@[i], leading_profiles(lines(input@, 0))[i]),
{
    let v = chars_of(input);
    let n = v.len();
    let mut out: Vec<ProfileLine> = Vec::new();
    let mut k: usize = 0;
    let ghost done: Seq<Seq<char>> = seq![];
    loop
        invariant_except_break
            v@ == input@,
            n == v@.len(),
            k <= n,
            lines(v@, 0) == done + lines(v@, k as int),
            forall|j: int| 0 <= j < done.len() ==> is_profile_line(#[trigger] done[j]),
            out@.len() == done.len(),
            forall|i: int| 0 <= i < out@.len() ==> line_matches(#[trigger] out@[i], done[i]),
        ensures
            leading_profiles(lines(v@, 0)) == done,
            v@ == input@,
            out@.len() == done.len(),
            forall|i: int| 0 <= i < out@.len() ==> line_matches(#[trigger] out@[i], done[i]),
        decreases n - k,
    {
        let e = find_class(&v, k, 3);
        let mut end = e;
        if end > k && v[end - 1] == '\r' {
            end = end - 1;
        }
        let line = slice_of(&v, k, end);
        proof {
            assert(line@ =~= strip_cr(v@.subrange(k as int, e as int)));
            if e < n {
                assert(lines(v@, k as int) =~= seq![line@] + lines(v@, e + 1));
            } else {
                assert(lines(v@, k as int) =~= seq![line@]);
            }
        }
        match parse_profile_line(&line) {
            Some(p) => {
                let ghost before = out@;
                out.push(p);
                proof {
                    let d2 = done.push(line@);
                    assert forall|i: int| 0 <= i < out@.len() implies line_matches(#[trigger] out@[i], d2[i]) by {
                        if i < before.len() {
                            assert(out@[i] == before[i]);
                        }
                    }
                    if e < n {
                        assert(done + lines(v@, k as int) =~= d2 + lines(v@, e + 1));
                    } else {
                        assert(done + lines(v@, k as int) =~= d2);
                        lemma_leading_append(d2, seq![]);
                        assert(d2 + seq![] =~= d2);
                        assert(d2 + leading_profiles(seq![]) =~= d2);
                    }
                    done = d2;
                }
                if e < n {
                    k = e + 1;
                } else {
                    break ;
                }
            },
            None => {
                proof {
                    lemma_leading_append(done, lines(v@, k as int));
                    assert(done + leading_profiles(lines(v@, k as int)) =~= done);
                }
                break ;
            },
        }
    }
    out
}

/// The thresholds given for one matrix name, as bit patterns of single-precision values.
#[derive(Debug, Clone)]
pub struct Threshold {
    pub id: String,
    pub css: u32,
    pub mss: u32,
}

/// The thresholds for matrix `name`: those of the last entry for that name, or the
/// defaults when there is none.
pub open spec fn resolve(ts: Seq<Threshold>, name: Seq<char>, css: u32, mss: u32) -> (u32, u32)
    decreases ts.len(),
{
    if ts.len() == 0 {
        (css, mss)
    } else if ts.last().id@ == name {
        (ts.last().css, ts.last().mss)
    } else {
        resolve(ts.drop_last(), name, css, mss)
    }
}

/// Chooses the (core, matrix) thresholds of matrix `name`.
pub fn resolve_thresholds(ts: &Vec<Threshold>, name: &String, default_css: u32, default_mss: u32) -> (r: (
    u32,
    u32,
))
    ensures
        r == resolve(ts@, name@, default_css, default_mss),
{
    let mut current = (default_css, default_mss);
    let mut k: usize = 0;
    while k < ts.len()
        invariant
            k <= ts@.len(),
            current == resolve(ts@.take(k as int), name@, default_css, default_mss),
        decreases ts@.len() - k,
    {
        assert(ts@.take(k + 1).drop_last() =~= ts@.take(k as int));
        if ts[k].id == *name {
            current = (ts[k].css, ts[k].mss);
        }
        k = k + 1;
    }
    assert(ts@.take(ts@.len() as int) =~= ts@);
    current
}

} // verus!
