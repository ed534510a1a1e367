use vstd::prelude::*;

verus! {

/// The scans of an evaluation, as (matrix, strand) index pairs: for each matrix
/// whose scoring model was built, in order, every strand in order.
pub open spec fn jobs(built: Seq<bool>, strands: nat) -> Seq<(usize, usize)>
    decreases built.len(),
{
    if built.len() == 0 {
        seq![]
    } else {
        let m = built.len() - 1;
        jobs(built.drop_last(), strands) + if built[m] {
            Seq::new(strands, |s: int| (m as usize, s as usize))
        } else {
            seq![]
        }
    }
}

/// Lists the scans of an evaluation: `built[m]` says whether matrix `m` gave a
/// scoring model, and there are `strands` strands to scan.
pub fn scan_jobs(built: &Vec<bool>, strands: usize) -> (r: Vec<(usize, usize)>)
    ensures
        r@ == jobs(built@, strands as nat),
{
    let mut r: Vec<(usize, usize)> = Vec::new();
    let mut m: usize = 0;
    while m < built.len()
        invariant
            m <= built@.len(),
            r@ == jobs(built@.take(m as int), strands as nat),
        decreases built@.len() - m,
    {
        let ghost base = r@;
        if built[m] {
            let mut s: usize = 0;
            while s < strands
                invariant
                    s <= strands,
                    r@ == base + Seq::new(s as nat, |j: int| (m, j as usize)),
                decreases strands - s,
            {
                r.push((m, s));
                s = s + 1;
                assert(r@ =~= base + Seq::new(s as nat, |j: int| (m, j as usize)));
            }
        }
        proof {
            let t = built@.take(m + 1);
            assert(t.drop_last() =~= built@.take(m as int));
            if built@[m as int] {
                assert(r@ =~= jobs(t, strands as nat));
            } else {
                assert(r@ =~= jobs(t, strands as nat));
            }
        }
        m = m + 1;
    }
    assert(built@.take(built@.len() as int) =~= built@);
    r
}

/// A scan is listed exactly when its matrix gave a scoring model and its strand
/// exists: a matrix that could not be built adds no scan, and with no matrices or
/// no strands there is nothing to scan.
pub proof fn lemma_jobs(built: Seq<bool>, strands: nat, m: usize, s: usize)
    requires
        built.len() <= usize::MAX,
        strands <= usize::MAX,
    ensures
        jobs(built, strands).contains((m, s)) <==> (m < built.len() && built[m as int] && s < strands),
        (built.len() == 0 || strands == 0) ==> jobs(built, strands).len() == 0,
    decreases built.len(),
{
    if built.len() > 0 {
        let last = (built.len() - 1) as int;
        let front = jobs(built.drop_last(), strands);
        let tail = if built[last] {
            Seq::new(strands, |j: int| (last as usize, j as usize))
        } else {
            seq![]
        };
        lemma_jobs(built.drop_last(), strands, m, s);
        assert(jobs(built, strands) == front + tail);
        if (m < built.len() && built[m as int] && s < strands) {
            if m as int == last {
                assert(tail[s as int] == (m, s));
                assert((front + tail)[front.len() + s] == (m, s));
            } else {
                assert(built.drop_last()[m as int] == built[m as int]);
                let k = choose|k: int| 0 <= k < front.len() && front[k] == (m, s);
                assert((front + tail)[k] == (m, s));
            }
        }
        if jobs(built, strands).contains((m, s)) {
            let k = choose|k: int| 0 <= k < (front + tail).len() && (front + tail)[k] == (m, s);
            if k < front.len() {
                assert(front[k] == (m, s));
                assert(built.drop_last()[m as int] == built[m as int]);
            } else {
                assert(tail[k - front.len()] == (m, s));
            }
        }
        if strands == 0 {
            lemma_jobs(built.drop_last(), strands, m, s);
        }
    }
}

} // verus!
