use vstd::prelude::*;
use crate::text::{chars_of, class_pred, find_class, find_from, slice_of, string_of};

verus! {

/// One line of a matrix record, classified; row values are of type `V`.
#[derive(Debug, Clone)]
pub enum TransfacTag<V> {
    /// The identifier line.
    Id(String),
    /// The base-order line.
    Po(Vec<String>),
    /// A value row: its position and its values in base order.
    Row(usize, Vec<V>),
    /// Any other line.
    Ignore,
}

/// Why a matrix record cannot become a count matrix.
#[derive(Debug, Clone, PartialEq, Eq)]
pub enum TransfacParseError {
    UnexpectedBase(String),
    NoPo,
    NoId,
    NoRows,
    /// Fewer rows than an anchor window needs; carries the row count.
    TooShort(usize),
}

/// The identifier of the first identifier line of `tags`, if any.
pub open spec fn first_id<V>(tags: Seq<TransfacTag<V>>) -> Option<Seq<char>>
    decreases tags.len(),
{
    if tags.len() == 0 {
        None
    } else if let TransfacTag::Id(n) = tags[0] {
        Some(n@)
    } else {
        first_id(tags.drop_first())
    }
}

/// The largest position of a value row among the first `k` tags, if any.
pub open spec fn max_row<V>(tags: Seq<TransfacTag<V>>, k: int) -> Option<nat>
    decreases k,
{
    if k <= 0 {
        None
    } else {
        let before = max_row(tags, k - 1);
        if let TransfacTag::Row(i, _) = tags[k - 1] {
            match before {
                Some(m) => Some(if i as nat > m {
                    i as nat
                } else {
                    m
                }),
                None => Some(i as nat),
            }
        } else {
            before
        }
    }
}

impl<V> TransfacTag<V> {
    pub fn get_po(&self) -> (r: Option<&Vec<String>>)
        ensures
            self is Po ==> r == Some(&self->Po_0),
            !(self is Po) ==> r is None,
    {
        if let TransfacTag::Po(po) = self {
            return Some(po);
        }
        None
    }

    pub fn get_name(&self) -> (r: Option<&str>)
        ensures
            self is Id ==> r is Some && r->Some_0@ == self->Id_0@,
            !(self is Id) ==> r is None,
    {
        if let TransfacTag::Id(n) = self {
            return Some(n.as_str());
        }
        None
    }

    pub fn get_row(&self) -> (r: Option<(usize, &Vec<V>)>)
        ensures
            self is Row ==> r == Some((self->Row_0, &self->Row_1)),
            !(self is Row) ==> r is None,
    {
        if let TransfacTag::Row(i, v) = self {
            return Some((*i, v));
        }
        None
    }
}

/// The name and the number of rows of the count matrix that a record's tags
/// describe: the first identifier, and one more than the largest row position.
/// A record with fewer rows than an anchor window (five) is refused.
pub fn matrix_shape<V>(tags: &Vec<TransfacTag<V>>) -> (r: Result<(String, usize), TransfacParseError>)
    requires
        forall|j: int| 0 <= j < tags@.len() && (#[trigger] tags@[j]) is Row ==> tags@[j]->Row_0 < usize::MAX,
    ensures
        first_id(tags@) is None ==> r == Err::<(String, usize), TransfacParseError>(TransfacParseError::NoId),
        first_id(tags@) is Some && max_row(tags@, tags@.len() as int) is None ==> r == Err::<(String, usize), TransfacParseError>(TransfacParseError::NoRows),
        first_id(tags@) is Some && max_row(tags@, tags@.len() as int) is Some && max_row(tags@, tags@.len() as int)->Some_0 + 1 < 5
            ==> r == Err::<(String, usize), TransfacParseError>(TransfacParseError::TooShort((max_row(tags@, tags@.len() as int)->Some_0 + 1) as usize)),
        r is Ok <==> first_id(tags@) is Some && max_row(tags@, tags@.len() as int) is Some && max_row(tags@, tags@.len() as int)->Some_0 + 1 >= 5,
        r is Ok ==> r->Ok_0.0@ == first_id(tags@)->Some_0 && r->Ok_0.1 == max_row(tags@, tags@.len() as int)->Some_0 + 1,
{
    let n = tags.len();
    let mut k: usize = 0;
    assert(tags@.subrange(0, n as int) =~= tags@);
    while k < n
        invariant
            n == tags@.len(),
            k <= n,
            first_id(tags@) == first_id(tags@.subrange(k as int, n as int)),
            forall|x: int| 0 <= x < tags@.len() && (#[trigger] tags@[x]) is Row ==> tags@[x]->Row_0 < usize::MAX,
        decreases n - k,
    {
        if let Some(name) = tags[k].get_name() {
            let name = String::from_str(name);
            proof {
                assert(tags@.subrange(k as int, n as int)[0] == tags@[k as int]);
            }
            let mut best: Option<usize> = None;
            let mut j: usize = 0;
            while j < n
                invariant
                    n == tags@.len(),
                    j <= n,
                    forall|x: int| 0 <= x < tags@.len() && (#[trigger] tags@[x]) is Row ==> tags@[x]->Row_0 < usize::MAX,
                    match best {
                        Some(b) => max_row(tags@, j as int) == Some(b as nat),
                        None => max_row(tags@, j as int) is None,
                    },
                    best matches Some(b) ==> b < usize::MAX,
                decreases n - j,
            {
                if let Some((i, _)) = tags[j].get_row() {
                    best = match best {
                        Some(b) => Some(if i > b { i } else { b }),
                        None => Some(i),
                    };
                }
                j = j + 1;
            }
            return match best {
                Some(b) => if b + 1 < 5 {
                    Err(TransfacParseError::TooShort(b + 1))
                } else {
                    Ok((name, b + 1))
                },
                None => Err(TransfacParseError::NoRows),
            };
        }
        proof {
            assert(tags@.subrange(k as int, n as int).drop_first() =~= tags@.subrange(k + 1, n as int));
        }
        k = k + 1;
    }
    proof {
        assert(tags@.subrange(n as int, n as int).len() == 0);
    }
    Err(TransfacParseError::NoId)
}

pub open spec fn is_blank(c: char) -> bool {
    c == ' ' || c == '\t'
}

pub open spec fn is_digit(c: char) -> bool {
    '0' <= c && c <= '9'
}

/// The blank-separated words of `s` from index `i` on.
pub open spec fn words(s: Seq<char>, i: int) -> Seq<Seq<char>>
    decreases s.len() - i,
{
    if i < 0 || i >= s.len() {
        seq![]
    } else if is_blank(s[i]) {
        words(s, i + 1)
    } else {
        let e = find_from(s, i, class_pred(0));
        if i < e <= s.len() {
            seq![s.subrange(i, e)] + words(s, e)
        } else {
            seq![]
        }
    }
}

/// The number that a run of decimal digits writes.
pub open spec fn number_value(s: Seq<char>) -> nat
    decreases s.len(),
{
    if s.len() == 0 {
        0
    } else {
        number_value(s.drop_last()) * 10 + ((s.last() as u32) - ('0' as u32)) as nat
    }
}

/// Where the leading digits of a line end.
pub open spec fn digits_end(l: Seq<char>) -> int {
    find_from(l, 0, class_pred(2))
}

/// `ID`, a blank, then the identifier.
pub open spec fn is_id_line(l: Seq<char>) -> bool {
    l.len() >= 3 && l[0] == 'I' && l[1] == 'D' && is_blank(l[2])
}

/// The identifier of an identifier line: the rest of the line after the blanks.
pub open spec fn id_of(l: Seq<char>) -> Seq<char> {
    l.subrange(find_from(l, 2, class_pred(1)), l.len() as int)
}

/// `PO`, then the base names, each after blanks.
pub open spec fn is_po_line(l: Seq<char>) -> bool {
    l.len() >= 2 && l[0] == 'P' && l[1] == 'O' && (l.len() == 2 || is_blank(l[2]))
}

/// A position written in digits that fits in a `usize`, then the values, each after blanks.
pub open spec fn is_row_line(l: Seq<char>) -> bool {
    &&& l.len() > 0
    &&& is_digit(l[0])
    &&& (digits_end(l) == l.len() || is_blank(l[digits_end(l)]))
    &&& number_value(l.subrange(0, digits_end(l))) <= usize::MAX
}

pub open spec fn word_views(v: Seq<String>) -> Seq<Seq<char>> {
    v.map_values(|w: String| w@)
}

/// `t` is what the line `l` reads as.
pub open spec fn tag_matches(t: TransfacTag<String>, l: Seq<char>) -> bool {
    match t {
        TransfacTag::Id(n) => is_id_line(l) && n@ == id_of(l),
        TransfacTag::Po(v) => !is_id_line(l) && is_po_line(l) && word_views(v@) == words(l, 2),
        TransfacTag::Row(i, v) => !is_id_line(l) && !is_po_line(l) && is_row_line(l) && i as nat
            == number_value(l.subrange(0, digits_end(l))) && word_views(v@) == leading_numbers(words(l, digits_end(l))),
        TransfacTag::Ignore => !is_id_line(l) && !is_po_line(l) && !is_row_line(l),
    }
}

/// The blank-separated words of `l` from index `i` on.
fn words_of(l: &Vec<char>, i: usize) -> (r: Vec<String>)
    requires
        i <= l@.len(),
    ensures
        word_views(r@) == words(l@, i as int),
{
    let mut out: Vec<String> = Vec::new();
    let mut k = i;
    while k < l.len()
        invariant
            i <= k <= l@.len(),
            words(l@, i as int) == word_views(out@) + words(l@, k as int),
        decreases l@.len() - k,
    {
        if l[k] == ' ' || l[k] == '\t' {
            k = k + 1;
        } else {
            let e = find_class(l, k, 0);
            let w = string_of(slice_of(l, k, e));
            let ghost before = out@;
            out.push(w);
            assert(word_views(out@) =~= word_views(before).push(l@.subrange(k as int, e as int)));
            k = e;
        }
    }
    assert(words(l@, k as int) =~= seq![]);
    assert(word_views(out@) + seq![] =~= word_views(out@));
    out
}

/// A word that begins like a number: a digit, a sign or a decimal point.
pub open spec fn starts_number(w: Seq<char>) -> bool {
    w.len() > 0 && (is_digit(w[0]) || w[0] == '.' || w[0] == '+' || w[0] == '-')
}

/// The words at the front of `ws` that begin like numbers, up to the first that does not.
pub open spec fn leading_numbers(ws: Seq<Seq<char>>) -> Seq<Seq<char>>
    decreases ws.len(),
{
    if ws.len() > 0 && starts_number(ws[0]) {
        seq![ws[0]] + leading_numbers(ws.drop_first())
    } else {
        seq![]
    }
}

/// The value words of a row from index `i` on: the blank-separated words that
/// begin like numbers, up to the first that does not (a consensus letter, say).
fn number_words_of(l: &Vec<char>, i: usize) -> (r: Vec<String>)
    requires
        i <= l@.len(),
    ensures
        word_views(r@) == leading_numbers(words(l@, i as int)),
{
    let mut out: Vec<String> = Vec::new();
    let mut k = i;
    while k < l.len()
        invariant_except_break
            i <= k <= l@.len(),
            leading_numbers(words(l@, i as int)) == word_views(out@) + leading_numbers(words(l@, k as int)),
        ensures
            leading_numbers(words(l@, i as int)) == word_views(out@),
        decreases l@.len() - k,
    {
        if l[k] == ' ' || l[k] == '\t' {
            k = k + 1;
        } else {
            let e = find_class(l, k, 0);
            let ghost w = l@.subrange(k as int, e as int);
            let c = l[k];
            assert(words(l@, k as int) =~= seq![w] + words(l@, e as int));
            assert((seq![w] + words(l@, e as int))[0] == w);
            assert((seq![w] + words(l@, e as int)).drop_first() =~= words(l@, e as int));
            if !(('0' <= c && c <= '9') || c == '.' || c == '+' || c == '-') {
                assert(leading_numbers(words(l@, k as int)) =~= seq![]);
                assert(word_views(out@) + seq![] =~= word_views(out@));
                break;
            }
            let ghost before = out@;
            out.push(string_of(slice_of(l, k, e)));
            assert(word_views(out@) =~= word_views(before).push(w));
            assert(word_views(before) + leading_numbers(words(l@, k as int)) =~= word_views(out@)
                + leading_numbers(words(l@, e as int)));
            k = e;
        }
    }
    out
}

/// The number written by the digits of `l` before `end`, if it fits in a `usize`.
fn number_of(l: &Vec<char>, end: usize) -> (r: Option<usize>)
    requires
        end <= l@.len(),
        forall|j: int| 0 <= j < end ==> is_digit(#[trigger] l@[j]),
    ensures
        r is Some <==> number_value(l@.subrange(0, end as int)) <= usize::MAX,
        r is Some ==> r->Some_0 as nat == number_value(l@.subrange(0, end as int)),
{
    let mut v: usize = 0;
    let mut k: usize = 0;
    while k < end
        invariant
            k <= end <= l@.len(),
            forall|j: int| 0 <= j < end ==> is_digit(#[trigger] l@[j]),
            v as nat == number_value(l@.subrange(0, k as int)),
        decreases end - k,
    {
        let d = (l[k] as u32) - ('0' as u32);
        assert(l@.subrange(0, k + 1).drop_last() =~= l@.subrange(0, k as int));
        if v > (usize::MAX - d as usize) / 10 {
            proof {
                lemma_number_grows(l@.subrange(0, end as int), k as nat + 1);
                assert(l@.subrange(0, end as int).subrange(0, k + 1) =~= l@.subrange(0, k + 1));
            }
            return None;
        }
        v = v * 10 + d as usize;
        k = k + 1;
    }
    Some(v)
}

/// Digits added after a prefix never make the number smaller.
proof fn lemma_number_grows(s: Seq<char>, k: nat)
    requires
        k <= s.len(),
        forall|j: int| 0 <= j < s.len() ==> is_digit(#[trigger] s[j]),
    ensures
        number_value(s.subrange(0, k as int)) <= number_value(s),
    decreases s.len() - k,
{
    if k < s.len() {
        lemma_number_grows(s.drop_last(), k);
        assert(s.drop_last().subrange(0, k as int) =~= s.subrange(0, k as int));
        assert(s.subrange(0, s.len() as int) =~= s);
    } else {
        assert(s.subrange(0, k as int) =~= s);
    }
}

/// Reads one line of a matrix record (without its line feed).
pub fn parse_line(l: &Vec<char>) -> (r: TransfacTag<String>)
    ensures
        tag_matches(r, l@),
{
    let n = l.len();
    if n >= 3 && l[0] == 'I' && l[1] == 'D' && (l[2] == ' ' || l[2] == '\t') {
        let s = find_class(l, 2, 1);
        return TransfacTag::Id(string_of(slice_of(l, s, n)));
    }
    if n >= 2 && l[0] == 'P' && l[1] == 'O' && (n == 2 || l[2] == ' ' || l[2] == '\t') {
        return TransfacTag::Po(words_of(l, 2));
    }
    if n > 0 && '0' <= l[0] && l[0] <= '9' {
        let d = find_class(l, 0, 2);
        proof {
            assert forall|j: int| 0 <= j < d implies is_digit(#[trigger] l@[j]) by {
                lemma_first_class(l@, 0, class_pred(2), j);
            }
        }
        if d == n || l[d] == ' ' || l[d] == '\t' {
            match number_of(l, d) {
                Some(i) => {
                    return TransfacTag::Row(i, number_words_of(l, d));
                },
                None => {},
            }
        }
    }
    TransfacTag::Ignore
}

/// No character before the first one found is of the class searched for.
proof fn lemma_first_class(s: Seq<char>, i: int, p: spec_fn(char) -> bool, j: int)
    requires
        0 <= i <= j < find_from(s, i, p),
        i <= s.len(),
    ensures
        !p(s[j]),
    decreases j - i,
{
    if i < j {
        lemma_first_class(s, i + 1, p, j);
    }
}

/// A line without its trailing carriage return, if it has one.
pub open spec fn strip_cr(l: Seq<char>) -> Seq<char> {
    if l.len() > 0 && l.last() == '\r' {
        l.drop_last()
    } else {
        l
    }
}

/// The lines of `s` from index `i` on, split at line feeds.
pub open spec fn lines(s: Seq<char>, i: int) -> Seq<Seq<char>>
    decreases s.len() - i,
{
    if i < 0 || i > s.len() {
        seq![]
    } else {
        let e = find_from(s, i, class_pred(3));
        let line = strip_cr(s.subrange(i, e));
        if i <= e < s.len() {
            seq![line] + lines(s, e + 1)
        } else {
            seq![line]
        }
    }
}

pub open spec fn is_kept(l: Seq<char>) -> bool {
    is_id_line(l) || is_po_line(l) || is_row_line(l)
}

pub open spec fn kept_pred() -> spec_fn(Seq<char>) -> bool {
    |l: Seq<char>| is_kept(l)
}

/// The lines of a record that carry an identifier, a base order or a value row.
pub open spec fn kept_lines(chunk: Seq<char>) -> Seq<Seq<char>> {
    lines(chunk, 0).filter(kept_pred())
}

/// `tags` are what the lines `ls` read as, one for one.
pub open spec fn tags_match(tags: Seq<TransfacTag<String>>, ls: Seq<Seq<char>>) -> bool {
    tags.len() == ls.len() && forall|i: int| 0 <= i < ls.len() ==> tag_matches(#[trigger] tags[i], ls[i])
}

/// Where the record that starts at `i` ends: at the next `//`, or at the end.
pub open spec fn sep_from(s: Seq<char>, i: int) -> int
    decreases s.len() - i,
{
    if i < 0 || i + 1 >= s.len() {
        s.len() as int
    } else if s[i] == '/' && s[i + 1] == '/' {
        i
    } else {
        sep_from(s, i + 1)
    }
}

/// The texts between the `//` separators of `s`, from index `i` on.
pub open spec fn chunks(s: Seq<char>, i: int) -> Seq<Seq<char>>
    decreases s.len() - i,
{
    if i < 0 || i > s.len() {
        seq![]
    } else {
        let e = sep_from(s, i);
        if i <= e && e + 2 <= s.len() {
            seq![s.subrange(i, e)] + chunks(s, e + 2)
        } else {
            seq![s.subrange(i, s.len() as int)]
        }
    }
}

pub open spec fn nonempty_pred() -> spec_fn(Seq<char>) -> bool {
    |c: Seq<char>| kept_lines(c).len() > 0
}

/// The records of a matrix file: the texts between separators that hold at least
/// one kept line.
pub open spec fn record_texts(s: Seq<char>) -> Seq<Seq<char>> {
    chunks(s, 0).filter(nonempty_pred())
}

proof fn lemma_filter_push<A>(s: Seq<A>, x: A, p: spec_fn(A) -> bool)
    ensures
        s.push(x).filter(p) == if p(x) {
            s.filter(p).push(x)
        } else {
            s.filter(p)
        },
{
    reveal(Seq::filter);
    assert(s.push(x).drop_last() =~= s);
}

proof fn lemma_sep_bounds(s: Seq<char>, i: int)
    requires
        0 <= i <= s.len(),
    ensures
        i <= sep_from(s, i) <= s.len(),
        sep_from(s, i) < s.len() ==> sep_from(s, i) + 2 <= s.len(),
    decreases s.len() - i,
{
    if i + 1 < s.len() && !(s[i] == '/' && s[i + 1] == '/') {
        lemma_sep_bounds(s, i + 1);
    }
}

fn find_sep(v: &Vec<char>, i: usize) -> (r: usize)
    requires
        i <= v@.len(),
    ensures
        r == sep_from(v@, i as int),
{
    let n = v.len();
    let mut k = i;
    while n > 0 && k < n - 1 && !(v[k] == '/' && v[k + 1] == '/')
        invariant
            i <= k <= n,
            n == v@.len(),
            sep_from(v@, i as int) == sep_from(v@, k as int),
        decreases n - k,
    {
        k = k + 1;
    }
    if n == 0 || k >= n - 1 {
        n
    } else {
        k
    }
}

/// Reads the lines of one record, keeping those that carry an identifier, a base
/// order or a value row.
pub fn parse_matrix(c: &Vec<char>) -> (r: Vec<TransfacTag<String>>)
    ensures
        tags_match(r@, kept_lines(c@)),
{
    let n = c.len();
    let mut out: Vec<TransfacTag<String>> = Vec::new();
    let mut k: usize = 0;
    let ghost done: Seq<Seq<char>> = seq![];
    loop
        invariant_except_break
            n == c@.len(),
            k <= n,
            lines(c@, 0) == done + lines(c@, k as int),
            tags_match(out@, done.filter(kept_pred())),
        ensures
            lines(c@, 0) == done,
            tags_match(out@, done.filter(kept_pred())),
        decreases n - k,
    {
        let e = find_class(c, k, 3);
        let mut end = e;
        if end > k && c[end - 1] == '\r' {
            end = end - 1;
        }
        let line = slice_of(c, k, end);
        proof {
            assert(line@ =~= strip_cr(c@.subrange(k as int, e as int)));
            lemma_filter_push(done, line@, kept_pred());
        }
        let t = parse_line(&line);
        let ghost before = out@;
        if !matches!(t, TransfacTag::Ignore) {
            out.push(t);
            assert(out@ == before.push(t));
        }
        proof {
            let d2 = done.push(line@);
            assert(tags_match(out@, d2.filter(kept_pred())));
            if e < n {
                assert(lines(c@, k as int) =~= seq![line@] + lines(c@, e + 1));
                assert(done + lines(c@, k as int) =~= d2 + lines(c@, e + 1));
            } else {
                assert(lines(c@, k as int) =~= seq![line@]);
                assert(done + lines(c@, k as int) =~= d2);
            }
            done = d2;
        }
        if e < n {
            k = e + 1;
        } else {
            break ;
        }
    }
    out
}

/// Reads a file of matrix records: the texts between `//` separators, each read
/// line by line; texts without a kept line give no record.
pub fn parse_matrices(input: &str) -> (r: Vec<Vec<TransfacTag<String>>>)
    ensures
        r@.len() == record_texts(input@).len(),
        forall|i: int| 0 <= i < r@.len() ==> tags_match(#[trigger] r@[i]@, kept_lines(record_texts(input@)[i])),
{
    let v = chars_of(input);
    let n = v.len();
    let mut out: Vec<Vec<TransfacTag<String>>> = Vec::new();
    let mut k: usize = 0;
    let ghost done: Seq<Seq<char>> = seq![];
    loop
        invariant_except_break
            v@ == input@,
            n == v@.len(),
            k <= n,
            chunks(v@, 0) == done + chunks(v@, k as int),
            out@.len() == done.filter(nonempty_pred()).len(),
            forall|i: int| 0 <= i < out@.len() ==> tags_match(#[trigger] out@[i]@, kept_lines(done.filter(nonempty_pred())[i])),
        ensures
            chunks(v@, 0) == done,
            out@.len() == done.filter(nonempty_pred()).len(),
            forall|i: int| 0 <= i < out@.len() ==> tags_match(#[trigger] out@[i]@, kept_lines(done.filter(nonempty_pred())[i])),
        decreases n - k,
    {
        let e = find_sep(&v, k);
        proof {
            lemma_sep_bounds(v@, k as int);
        }
        let stop = if e < n { e } else { n };
        let chunk = slice_of(&v, k, stop);
        let tags = parse_matrix(&chunk);
        proof {
            lemma_filter_push(done, chunk@, nonempty_pred());
        }
        let ghost before = out@;
        if tags.len() > 0 {
            out.push(tags);
        }
        proof {
            let d2 = done.push(chunk@);
            if e < n {
                assert(chunks(v@, k as int) =~= seq![chunk@] + chunks(v@, e + 2));
                assert(done + chunks(v@, k as int) =~= d2 + chunks(v@, e + 2));
            } else {
                assert(chunks(v@, k as int) =~= seq![chunk@]);
                assert(done + chunks(v@, k as int) =~= d2);
            }
            assert forall|i: int| 0 <= i < out@.len() implies tags_match(#[trigger] out@[i]@, kept_lines(d2.filter(nonempty_pred())[i])) by {
                if i < before.len() {
                    assert(out@[i] == before[i]);
                }
            }
            done = d2;
        }
        if e < n {
            k = e + 2;
        } else {
            break ;
        }
    }
    out
}

} // verus!
