use vstd::prelude::*;
use crate::sequence::{all_base_chars, bases_of, is_base_char, ParseError, PlusStrand};
use crate::text::{chars_of, find_from, lemma_find_bounds, lemma_find_skip, slice_of, string_of};

verus! {

/// One sequence record: the name from its header line and its bases as text.
#[derive(Debug, Clone)]
pub struct Fasta {
    pub name: String,
    pub seq: String,
}

pub open spec fn is_space(c: char) -> bool {
    c == ' ' || c == '\t' || c == '\n' || c == '\r'
}

pub open spec fn is_line_end(c: char) -> bool {
    c == '\n' || c == '\r'
}

pub open spec fn space_pred() -> spec_fn(char) -> bool {
    |c: char| is_space(c)
}

pub open spec fn line_end_pred() -> spec_fn(char) -> bool {
    |c: char| is_line_end(c)
}

pub open spec fn header_pred() -> spec_fn(char) -> bool {
    |c: char| c == '>'
}

pub open spec fn base_text_pred() -> spec_fn(char) -> bool {
    |c: char| !is_space(c)
}

/// Where the record whose header starts at `i` ends: at the next `>` after its header line.
pub open spec fn record_end(s: Seq<char>, i: int) -> int {
    find_from(s, find_from(s, i + 1, line_end_pred()), header_pred())
}

/// The name of the record at `i`: its header line after `>`, up to the first blank.
pub open spec fn record_name(s: Seq<char>, i: int) -> Seq<char> {
    s.subrange(i + 1, find_from(s, i + 1, space_pred()))
}

/// The bases of the record at `i`: the lines after its header, blanks removed.
pub open spec fn record_seq(s: Seq<char>, i: int) -> Seq<char> {
    s.subrange(find_from(s, i + 1, line_end_pred()), record_end(s, i)).filter(base_text_pred())
}

/// The records of `s` from index `i`: one for each header `>` met in turn, up to
/// the first record that does not start with `>`.
pub open spec fn records(s: Seq<char>, i: int) -> Seq<(Seq<char>, Seq<char>)>
    decreases s.len() - i,
{
    if 0 <= i < s.len() && s[i] == '>' {
        let e = record_end(s, i);
        if i < e <= s.len() {
            seq![(record_name(s, i), record_seq(s, i))] + records(s, e)
        } else {
            seq![(record_name(s, i), record_seq(s, i))]
        }
    } else {
        seq![]
    }
}

pub open spec fn fasta_view(f: Fasta) -> (Seq<char>, Seq<char>) {
    (f.name@, f.seq@)
}

fn find_space(v: &Vec<char>, i: usize) -> (r: usize)
    requires
        i <= v@.len(),
    ensures
        r == find_from(v@, i as int, space_pred()),
{
    let mut k = i;
    while k < v.len() && !(v[k] == ' ' || v[k] == '\t' || v[k] == '\n' || v[k] == '\r')
        invariant
            i <= k <= v@.len(),
            forall|j: int| i <= j < k ==> !space_pred()(#[trigger] v@[j]),
        decreases v@.len() - k,
    {
        k = k + 1;
    }
    proof {
        lemma_find_skip(v@, i as int, k as int, space_pred());
    }
    k
}

fn find_line_end(v: &Vec<char>, i: usize) -> (r: usize)
    requires
        i <= v@.len(),
    ensures
        r == find_from(v@, i as int, line_end_pred()),
{
    let mut k = i;
    while k < v.len() && !(v[k] == '\n' || v[k] == '\r')
        invariant
            i <= k <= v@.len(),
            forall|j: int| i <= j < k ==> !line_end_pred()(#[trigger] v@[j]),
        decreases v@.len() - k,
    {
        k = k + 1;
    }
    proof {
        lemma_find_skip(v@, i as int, k as int, line_end_pred());
    }
    k
}

fn find_header(v: &Vec<char>, i: usize) -> (r: usize)
    requires
        i <= v@.len(),
    ensures
        r == find_from(v@, i as int, header_pred()),
{
    let mut k = i;
    while k < v.len() && v[k] != '>'
        invariant
            i <= k <= v@.len(),
            forall|j: int| i <= j < k ==> !header_pred()(#[trigger] v@[j]),
        decreases v@.len() - k,
    {
        k = k + 1;
    }
    proof {
        lemma_find_skip(v@, i as int, k as int, header_pred());
    }
    k
}

/// The characters of `v` from `from` to `to`, blanks removed.
fn base_text(v: &Vec<char>, from: usize, to: usize) -> (r: Vec<char>)
    requires
        from <= to <= v@.len(),
    ensures
        r@ == v@.subrange(from as int, to as int).filter(base_text_pred()),
{
    let ghost all = v@.subrange(from as int, to as int);
    let mut r: Vec<char> = Vec::new();
    let mut k = from;
    while k < to
        invariant
            from <= k <= to <= v@.len(),
            all == v@.subrange(from as int, to as int),
            r@ == all.take(k - from).filter(base_text_pred()),
        decreases to - k,
    {
        let c = v[k];
        assert(all.take(k - from + 1).drop_last() =~= all.take(k - from));
        assert(all.take(k - from + 1).last() == c);
        reveal(Seq::filter);
        if !(c == ' ' || c == '\t' || c == '\n' || c == '\r') {
            r.push(c);
        }
        k = k + 1;
    }
    assert(all.take(to - from) =~= all);
    r
}

/// The record whose header starts at `i`, and where it ends.
fn record_at(v: &Vec<char>, i: usize) -> (r: (Fasta, usize))
    requires
        i < v@.len(),
    ensures
        fasta_view(r.0) == (record_name(v@, i as int), record_seq(v@, i as int)),
        r.1 == record_end(v@, i as int),
        i < r.1 <= v@.len(),
{
    let len = v.len();
    assert(i + 1 <= len);
    let name_end = find_space(v, i + 1);
    let line_end = find_line_end(v, i + 1);
    proof {
        lemma_find_bounds(v@, i + 1, line_end_pred());
    }
    let end = find_header(v, line_end);
    proof {
        lemma_find_bounds(v@, line_end as int, header_pred());
        lemma_find_bounds(v@, i + 1, space_pred());
    }
    let name = string_of(slice_of(v, i + 1, name_end));
    let seq = string_of(base_text(v, line_end, end));
    (Fasta { name, seq }, end)
}

impl Fasta {
    /// Reads the record at the start of a text, if the text starts with `>`, with
    /// the text that follows it (from the next `>` on).
    pub fn parse(input: &str) -> (r: Option<(Fasta, String)>)
        ensures
            r is Some <==> (input@.len() > 0 && input@[0] == '>'),
            r is Some ==> fasta_view(r->Some_0.0) == (record_name(input@, 0), record_seq(input@, 0))
                && r->Some_0.1@ == input@.subrange(record_end(input@, 0), input@.len() as int),
    {
        let v = chars_of(input);
        let n = v.len();
        if n > 0 && v[0] == '>' {
            let (f, end) = record_at(&v, 0);
            Some((f, string_of(slice_of(&v, end, n))))
        } else {
            None
        }
    }

    /// Reads the sequence records of a text: each starts with a header line `>name`
    /// (the name ends at the first blank) and takes the lines up to the next `>`, with
    /// blanks removed. Reading stops at the first record that does not begin with `>`.
    pub fn parse_many(input: &str) -> (r: Vec<Fasta>)
        ensures
            r@.map_values(|f: Fasta| fasta_view(f)) == records(input@, 0),
    {
        let v = chars_of(input);
        let n = v.len();
        let mut out: Vec<Fasta> = Vec::new();
        let mut i: usize = 0;
        while i < n && v[i] == '>'
            invariant
                v@ == input@,
                n == v@.len(),
                i <= n,
                records(input@, 0) == out@.map_values(|f: Fasta| fasta_view(f)) + records(input@, i as int),
            decreases n - i,
        {
            let (f, end) = record_at(&v, i);
            let ghost before = out@;
            out.push(f);
            assert(out@.map_values(|f: Fasta| fasta_view(f)) =~= before.map_values(|f: Fasta| fasta_view(f)).push(
                (record_name(input@, i as int), record_seq(input@, i as int)),
            ));
            i = end;
        }
        assert(records(input@, i as int) =~= seq![]);
        out
    }

    /// The forward strand of this record; fails on the first character that names no base.
    pub fn to_strand(&self) -> (r: Result<PlusStrand, ParseError>)
        ensures
            all_base_chars(self.seq@) <==> r.is_ok(),
            r.is_ok() ==> r.unwrap().name@ == self.name@ && r.unwrap().seq@ == bases_of(self.seq@),
            r.is_err() ==> exists|i: int|
                0 <= i < self.seq@.len() && !is_base_char(self.seq@[i]) && (forall|j: int|
                    0 <= j < i ==> is_base_char(#[trigger] self.seq@[j])) && r
                    == Err::<PlusStrand, ParseError>(ParseError::UnexpectedBase(self.seq@[i])),
    {
        PlusStrand::from_str(self.name.as_str(), self.seq.as_str())
    }
}

} // verus!
