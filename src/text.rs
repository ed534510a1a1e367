use vstd::prelude::*;
use vstd::string::*;
use vstd::std_specs::iter::IteratorSpec;

verus! {

broadcast use vstd::string::next_postcondition;

/// The first index at or after `i` whose character satisfies `p`, or the length.
pub open spec fn find_from(s: Seq<char>, i: int, p: spec_fn(char) -> bool) -> int
    decreases s.len() - i,
{
    if i < 0 || i >= s.len() {
        s.len() as int
    } else if p(s[i]) {
        i
    } else {
        find_from(s, i + 1, p)
    }
}

pub proof fn lemma_find_bounds(s: Seq<char>, i: int, p: spec_fn(char) -> bool)
    requires
        0 <= i <= s.len(),
    ensures
        i <= find_from(s, i, p) <= s.len(),
        find_from(s, i, p) < s.len() ==> p(s[find_from(s, i, p)]),
    decreases s.len() - i,
{
    if i < s.len() && !p(s[i]) {
        lemma_find_bounds(s, i + 1, p);
    }
}

pub proof fn lemma_find_skip(s: Seq<char>, i: int, k: int, p: spec_fn(char) -> bool)
    requires
        0 <= i <= k <= s.len(),
        forall|j: int| i <= j < k ==> !p(#[trigger] s[j]),
    ensures
        find_from(s, i, p) == find_from(s, k, p),
    decreases k - i,
{
    if i < k {
        lemma_find_skip(s, i + 1, k, p);
    }
}

/// Relies on `String::from_iter` over characters: the string holds them in order.
#[verifier::external_body]
pub(crate) fn string_of(chars: Vec<char>) -> (r: String)
    ensures
        r@ == chars@,
{
    String::from_iter(chars)
}

pub fn chars_of(s: &str) -> (r: Vec<char>)
    ensures
        r@ == s@,
{
    let mut it = s.chars();
    proof {
        vstd::string::axiom_spec_iter(s);
    }
    let mut r: Vec<char> = Vec::new();
    loop
        invariant
            r@ + it.remaining() == s@,
            it.obeys_prophetic_iter_laws(),
            it.decrease() is Some,
        ensures
            r@ == s@,
        decreases it.decrease()->0,
    {
        match it.next() {
            Some(c) => {
                r.push(c);
                assert(r@ + it.remaining() =~= s@);
            },
            None => {
                assert(r@ =~= s@);
                break ;
            },
        }
    }
    r
}

/// The characters of `v` from `from` to `to`.
pub fn slice_of(v: &Vec<char>, from: usize, to: usize) -> (r: Vec<char>)
    requires
        from <= to <= v@.len(),
    ensures
        r@ == v@.subrange(from as int, to as int),
{
    let mut r: Vec<char> = Vec::new();
    let mut k = from;
    while k < to
        invariant
            from <= k <= to <= v@.len(),
            r@ == v@.subrange(from as int, k as int),
        decreases to - k,
    {
        r.push(v[k]);
        k = k + 1;
        assert(r@ =~= v@.subrange(from as int, k as int));
    }
    r
}


/// The character classes that the matrix-record grammar searches for.
pub open spec fn class_pred(class: u8) -> spec_fn(char) -> bool {
    |c: char|
        if class == 0 {
            c == ' ' || c == '\t'
        } else if class == 1 {
            !(c == ' ' || c == '\t')
        } else if class == 2 {
            !('0' <= c && c <= '9')
        } else {
            c == '\n'
        }
}

/// Blanks (0), other characters (1), non-digits (2), line feeds (3).
pub fn in_class(c: char, class: u8) -> (r: bool)
    ensures
        r == class_pred(class)(c),
{
    if class == 0 {
        c == ' ' || c == '\t'
    } else if class == 1 {
        !(c == ' ' || c == '\t')
    } else if class == 2 {
        !('0' <= c && c <= '9')
    } else {
        c == '\n'
    }
}

/// The first index at or after `i` whose character is in `class`, or the length.
pub fn find_class(v: &Vec<char>, i: usize, class: u8) -> (r: usize)
    requires
        i <= v@.len(),
    ensures
        r == find_from(v@, i as int, class_pred(class)),
        i <= r <= v@.len(),
        r < v@.len() ==> class_pred(class)(v@[r as int]),
{
    let mut k = i;
    while k < v.len() && !in_class(v[k], class)
        invariant
            i <= k <= v@.len(),
            forall|j: int| i <= j < k ==> !class_pred(class)(#[trigger] v@[j]),
        decreases v@.len() - k,
    {
        k = k + 1;
    }
    proof {
        lemma_find_skip(v@, i as int, k as int, class_pred(class));
        lemma_find_bounds(v@, i as int, class_pred(class));
    }
    k
}

} // verus!
