use vstd::prelude::*;
use crate::score::{is_score, rank, score_ge};
use crate::sequence::{base_at_index, base_index, Base, Sequence};

verus! {

/// The number of entries of a significance table: one per ordered 5-mer.
pub const TABLE_LEN: usize = 1024;

/// The table key of a 5-mer: its bases read as the digits of a base-4 number,
/// the first base the most significant.
pub open spec fn kmer_key(s: Seq<Base>) -> nat {
    base_index(s[0]) * 256 + base_index(s[1]) * 64 + base_index(s[2]) * 16 + base_index(s[3])
        * 4 + base_index(s[4])
}

/// The 5-mer whose table key is `key`.
pub open spec fn kmer_of(key: nat) -> Seq<Base> {
    seq![
        base_at_index(key / 256),
        base_at_index(key / 64),
        base_at_index(key / 16),
        base_at_index(key / 4),
        base_at_index(key),
    ]
}

/// The table key of the five bases of `bases` that start at `at`.
pub fn key_at(bases: &[Base], at: usize) -> (r: usize)
    requires
        at + 5 <= bases@.len(),
    ensures
        r as nat == kmer_key(bases@.subrange(at as int, at + 5)),
        r < TABLE_LEN,
{
    let a = bases[at].index();
    let b = bases[at + 1].index();
    let c = bases[at + 2].index();
    let d = bases[at + 3].index();
    let e = bases[at + 4].index();
    a * 256 + b * 64 + c * 16 + d * 4 + e
}

/// The 5-mer under table key `key`; the table is filled in this order of keys.
pub fn kmer_at(key: usize) -> (r: Vec<Base>)
    requires
        key < TABLE_LEN,
    ensures
        r@ == kmer_of(key as nat),
        r@.len() == 5,
        kmer_key(r@) == key as nat,
{
    let mut r: Vec<Base> = Vec::new();
    r.push(Base::from_index(key / 256 % 4));
    r.push(Base::from_index(key / 64 % 4));
    r.push(Base::from_index(key / 16 % 4));
    r.push(Base::from_index(key / 4 % 4));
    r.push(Base::from_index(key % 4));
    proof {
        let k = key as nat;
        assert(k / 256 % 4 == k / 256) by (nonlinear_arith)
            requires k < 1024;
        assert(k == (k / 256) * 256 + (k / 64 % 4) * 64 + (k / 16 % 4) * 16 + (k / 4 % 4) * 4 + k % 4)
            by (nonlinear_arith)
            requires k < 1024;
        assert((k / 64 % 4) % 4 == k / 64 % 4);
        assert((k / 16 % 4) % 4 == k / 16 % 4);
        assert((k / 4 % 4) % 4 == k / 4 % 4);
    }
    assert(r@ =~= kmer_of(key as nat));
    r
}

/// The number of anchor windows a scan visits on a strand of `len` bases with a
/// matrix of `nrows` rows: those whose full-length window fits in the strand.
pub open spec fn anchor_count(len: nat, nrows: nat) -> nat {
    if len >= nrows {
        (len - nrows + 1) as nat
    } else {
        0
    }
}

/// The position reported for the anchor window at `i` of a strand of `len` bases,
/// in the coordinates of the forward strand.
pub open spec fn reported_pos(forward: bool, len: nat, i: nat) -> int {
    if forward {
        i as int
    } else {
        len - i - 5
    }
}

/// An anchor window that a scan looks at, with its core similarity score.
#[derive(Debug, Clone, Copy, PartialEq, Eq, Structural)]
pub struct Candidate {
    /// Start of the anchor window in the strand's own order.
    pub anchor: usize,
    /// Start of the full-length window in the strand's own order.
    pub start: usize,
    /// Start of the anchor window in forward-strand coordinates.
    pub pos: usize,
    /// The significance-table entry of the anchor window's 5-mer.
    pub css: u32,
}

/// A candidate that passed both score thresholds.
#[derive(Debug, Clone, Copy, PartialEq, Eq, Structural)]
pub struct Hit {
    pub pos: usize,
    pub start: usize,
    pub css: u32,
    pub mss: u32,
}

/// The `k`-th anchor window of a scan: the full-length window starts at `k`.
pub open spec fn candidate(
    bases: Seq<Base>,
    forward: bool,
    core_start: nat,
    table: Seq<u32>,
    k: nat,
) -> Candidate {
    let i = core_start + k;
    Candidate {
        anchor: i as usize,
        start: k as usize,
        pos: reported_pos(forward, bases.len(), i) as usize,
        css: table[kmer_key(bases.subrange(i as int, i + 5 as int)) as int],
    }
}

/// Every anchor window of a scan, in strand order.
pub open spec fn candidates(
    bases: Seq<Base>,
    forward: bool,
    nrows: nat,
    core_start: nat,
    table: Seq<u32>,
) -> Seq<Candidate> {
    Seq::new(
        anchor_count(bases.len(), nrows),
        |k: int| candidate(bases, forward, core_start, table, k as nat),
    )
}

pub open spec fn passes_css(threshold: u32) -> spec_fn(Candidate) -> bool {
    |c: Candidate| rank(c.css) >= rank(threshold)
}

pub open spec fn passes_mss(threshold: u32) -> spec_fn(Hit) -> bool {
    |h: Hit| rank(h.mss) >= rank(threshold)
}

/// The anchor windows whose core similarity score reaches the threshold.
pub open spec fn core_hits(
    bases: Seq<Base>,
    forward: bool,
    nrows: nat,
    core_start: nat,
    table: Seq<u32>,
    css_threshold: u32,
) -> Seq<Candidate> {
    candidates(bases, forward, nrows, core_start, table).filter(passes_css(css_threshold))
}

pub open spec fn hit_of(c: Candidate, mss: u32) -> Hit {
    Hit { pos: c.pos, start: c.start, css: c.css, mss }
}

/// Candidates paired, in order, with their matrix similarity scores.
pub open spec fn scored(cands: Seq<Candidate>, mss: Seq<u32>) -> Seq<Hit> {
    Seq::new(cands.len(), |i: int| hit_of(cands[i], mss[i]))
}

pub open spec fn valid_table(table: Seq<u32>) -> bool {
    table.len() == TABLE_LEN && forall|j: int| 0 <= j < table.len() ==> is_score(#[trigger] table[j])
}

/// The anchor windows of a scan of `seq` with a matrix of `nrows` rows whose
/// anchor window starts at row `core_start`, that reach `css_threshold`.
pub fn core_candidates(
    seq: &Sequence,
    nrows: usize,
    core_start: usize,
    table: &Vec<u32>,
    css_threshold: u32,
) -> (r: Vec<Candidate>)
    requires
        core_start + 5 <= nrows,
        valid_table(table@),
        is_score(css_threshold),
    ensures
        r@ == core_hits(
            seq.bases(),
            seq.is_plus(),
            nrows as nat,
            core_start as nat,
            table@,
            css_threshold,
        ),
{
    let bases = seq.as_slice();
    let len = bases.len();
    let forward = seq.is_forward();
    let count: usize = if len >= nrows {
        len - nrows + 1
    } else {
        0
    };
    let ghost all = candidates(seq.bases(), forward, nrows as nat, core_start as nat, table@);
    let ghost pred = passes_css(css_threshold);
    let mut r: Vec<Candidate> = Vec::new();
    let mut k: usize = 0;
    while k < count
        invariant
            bases@ == seq.bases(),
            len == bases@.len(),
            forward == seq.is_plus(),
            count == anchor_count(len as nat, nrows as nat),
            all == candidates(seq.bases(), forward, nrows as nat, core_start as nat, table@),
            pred == passes_css(css_threshold),
            core_start + 5 <= nrows,
            valid_table(table@),
            is_score(css_threshold),
            k <= count,
            r@ == all.take(k as int).filter(pred),
        decreases count - k,
    {
        let i = core_start + k;
        let key = key_at(bases, i);
        let css = table[key];
        let pos = if forward {
            i
        } else {
            len - i - 5
        };
        let c = Candidate { anchor: i, start: k, pos, css };
        assert(c == all[k as int]);
        assert(all.take(k + 1).drop_last() =~= all.take(k as int));
        reveal(Seq::filter);
        if score_ge(css, css_threshold) {
            r.push(c);
        }
        k = k + 1;
    }
    assert(all.take(count as int) =~= all);
    r
}

/// The candidates whose matrix similarity score, given in `mss` in the same
/// order, reaches `mss_threshold`.
pub fn select_hits(cands: &Vec<Candidate>, mss: &Vec<u32>, mss_threshold: u32) -> (r: Vec<Hit>)
    requires
        mss@.len() == cands@.len(),
        forall|j: int| 0 <= j < mss@.len() ==> is_score(#[trigger] mss@[j]),
        is_score(mss_threshold),
    ensures
        r@ == scored(cands@, mss@).filter(passes_mss(mss_threshold)),
{
    let ghost all = scored(cands@, mss@);
    let ghost pred = passes_mss(mss_threshold);
    let mut r: Vec<Hit> = Vec::new();
    let mut k: usize = 0;
    while k < cands.len()
        invariant
            all == scored(cands@, mss@),
            pred == passes_mss(mss_threshold),
            mss@.len() == cands@.len(),
            forall|j: int| 0 <= j < mss@.len() ==> is_score(#[trigger] mss@[j]),
            is_score(mss_threshold),
            k <= cands@.len(),
            r@ == all.take(k as int).filter(pred),
        decreases cands@.len() - k,
    {
        let c = cands[k];
        let h = Hit { pos: c.pos, start: c.start, css: c.css, mss: mss[k] };
        assert(h == all[k as int]);
        assert(all.take(k + 1).drop_last() =~= all.take(k as int));
        reveal(Seq::filter);
        if score_ge(mss[k], mss_threshold) {
            r.push(h);
        }
        k = k + 1;
    }
    assert(all.take(cands@.len() as int) =~= all);
    r
}

/// The hits of a scan when the matrix similarity score of each candidate is
/// `mss_of` of it.
pub open spec fn scan_hits(
    bases: Seq<Base>,
    forward: bool,
    nrows: nat,
    core_start: nat,
    table: Seq<u32>,
    mss_of: spec_fn(Candidate) -> u32,
    css_threshold: u32,
    mss_threshold: u32,
) -> Seq<Hit> {
    let cands = core_hits(bases, forward, nrows, core_start, table, css_threshold);
    scored(cands, cands.map_values(mss_of)).filter(passes_mss(mss_threshold))
}

/// Raising the core or the matrix threshold only removes hits: every hit of a
/// scan under the higher pair of thresholds is a hit under the lower pair.
pub proof fn lemma_thresholds_monotone(
    bases: Seq<Base>,
    forward: bool,
    nrows: nat,
    core_start: nat,
    table: Seq<u32>,
    mss_of: spec_fn(Candidate) -> u32,
    css_low: u32,
    css_high: u32,
    mss_low: u32,
    mss_high: u32,
)
    requires
        rank(css_low) <= rank(css_high),
        rank(mss_low) <= rank(mss_high),
    ensures
        forall|h: Hit|
            scan_hits(bases, forward, nrows, core_start, table, mss_of, css_high, mss_high).contains(h)
                ==> scan_hits(bases, forward, nrows, core_start, table, mss_of, css_low, mss_low).contains(h),
{
    let all = candidates(bases, forward, nrows, core_start, table);
    let lo = core_hits(bases, forward, nrows, core_start, table, css_low);
    let hi = core_hits(bases, forward, nrows, core_start, table, css_high);
    let slo = scored(lo, lo.map_values(mss_of));
    let shi = scored(hi, hi.map_values(mss_of));
    assert forall|h: Hit|
        scan_hits(bases, forward, nrows, core_start, table, mss_of, css_high, mss_high).contains(h)
            implies scan_hits(bases, forward, nrows, core_start, table, mss_of, css_low, mss_low).contains(h) by {
        let fh = shi.filter(passes_mss(mss_high));
        let x = choose|x: int| 0 <= x < fh.len() && fh[x] == h;
        lemma_filter_origin(shi, passes_mss(mss_high), x);
        let i = choose|i: int| 0 <= i < shi.len() && shi[i] == fh[x] && passes_mss(mss_high)(shi[i]);
        let c = hi[i];
        let y = i;
        lemma_filter_origin(all, passes_css(css_high), y);
        let k = choose|k: int| 0 <= k < all.len() && all[k] == hi[y] && passes_css(css_high)(all[k]);
        assert(passes_css(css_low)(all[k]));
        all.lemma_filter_contains(passes_css(css_low), k);
        assert(lo.contains(c));
        let j = choose|j: int| 0 <= j < lo.len() && lo[j] == c;
        assert(slo[j] == h);
        assert(passes_mss(mss_low)(slo[j]));
        slo.lemma_filter_contains(passes_mss(mss_low), j);
    }
}

/// Each element that a filter keeps stands in the unfiltered sequence and passes the filter.
proof fn lemma_filter_origin<A>(s: Seq<A>, pred: spec_fn(A) -> bool, i: int)
    requires
        0 <= i < s.filter(pred).len(),
    ensures
        exists|k: int| 0 <= k < s.len() && s[k] == s.filter(pred)[i] && pred(s[k]),
    decreases s.len(),
{
    reveal(Seq::filter);
    let f0 = s.drop_last().filter(pred);
    if pred(s.last()) && i == f0.len() {
        assert(s[s.len() - 1] == s.filter(pred)[i]);
    } else {
        lemma_filter_origin(s.drop_last(), pred, i);
        let k = choose|k: int| 0 <= k < s.drop_last().len() && s.drop_last()[k] == f0[i] && pred(s.drop_last()[k]);
        assert(s[k] == s.filter(pred)[i]);
    }
}

/// Two scans whose candidates agree in every field but the reported position
/// keep the same candidates at the same places after the core filter.
proof fn lemma_filter_same_scores(a: Seq<Candidate>, b: Seq<Candidate>, threshold: u32)
    requires
        a.len() == b.len(),
        forall|i: int|
            0 <= i < a.len() ==> (#[trigger] a[i]).css == b[i].css && a[i].anchor == b[i].anchor
                && a[i].start == b[i].start,
    ensures
        a.filter(passes_css(threshold)).len() == b.filter(passes_css(threshold)).len(),
        forall|i: int|
            0 <= i < a.filter(passes_css(threshold)).len() ==> {
                let x = #[trigger] a.filter(passes_css(threshold))[i];
                let y = b.filter(passes_css(threshold))[i];
                x.css == y.css && x.anchor == y.anchor && x.start == y.start && exists|k: int|
                    0 <= k < a.len() && a[k] == x && b[k] == y
            },
    decreases a.len(),
{
    reveal(Seq::filter);
    if a.len() > 0 {
        let a0 = a.drop_last();
        let b0 = b.drop_last();
        lemma_filter_same_scores(a0, b0, threshold);
        let n = a.len() - 1;
        assert forall|i: int| 0 <= i < a0.filter(passes_css(threshold)).len() implies {
            let x = #[trigger] a0.filter(passes_css(threshold))[i];
            let y = b0.filter(passes_css(threshold))[i];
            exists|k: int| 0 <= k < a.len() && a[k] == x && b[k] == y
        } by {
            let x = a0.filter(passes_css(threshold))[i];
            let y = b0.filter(passes_css(threshold))[i];
            let k = choose|k: int| 0 <= k < a0.len() && a0[k] == x && b0[k] == y;
            assert(a[k] == x && b[k] == y);
        }
        assert(a[n] == a.last() && b[n] == b.last());
    }
}

/// On a strand that reads the same in reverse, the scan of the reverse strand
/// keeps the same anchor windows as the scan of the forward strand, in the same
/// order, with the same core scores and the same full-length windows (so the same
/// matrix scores), and reports each at `len - pos - 5` where the forward scan
/// reports `pos`.
pub proof fn lemma_palindrome_strands(
    bases: Seq<Base>,
    nrows: nat,
    core_start: nat,
    table: Seq<u32>,
    css_threshold: u32,
)
    requires
        crate::sequence::reversed(bases) == bases,
        core_start + 5 <= nrows,
        bases.len() <= usize::MAX,
    ensures
        ({
            let f = core_hits(bases, true, nrows, core_start, table, css_threshold);
            let m = core_hits(
                crate::sequence::reversed(bases),
                false,
                nrows,
                core_start,
                table,
                css_threshold,
            );
            &&& f.len() == m.len()
            &&& forall|i: int|
                0 <= i < f.len() ==> (#[trigger] f[i]).css == m[i].css && f[i].anchor == m[i].anchor
                    && f[i].start == m[i].start && m[i].pos == bases.len() - f[i].pos - 5
        }),
{
    let a = candidates(bases, true, nrows, core_start, table);
    let b = candidates(bases, false, nrows, core_start, table);
    assert forall|i: int| 0 <= i < a.len() implies (#[trigger] a[i]).pos == bases.len() - b[i].pos - 5
        && a[i].css == b[i].css && a[i].anchor == b[i].anchor && a[i].start == b[i].start by {
        assert(core_start + i + 5 <= bases.len());
    }
    lemma_filter_same_scores(a, b, css_threshold);
    let fa = a.filter(passes_css(css_threshold));
    let fb = b.filter(passes_css(css_threshold));
    assert forall|i: int| 0 <= i < fa.len() implies fb[i].pos == bases.len() - (#[trigger] fa[i]).pos - 5 by {
        let k = choose|k: int| 0 <= k < a.len() && a[k] == fa[i] && b[k] == fb[i];
        assert(a[k].pos == bases.len() - b[k].pos - 5);
    }
}

} // verus!
