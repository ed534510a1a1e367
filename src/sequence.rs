use vstd::prelude::*;
use vstd::string::*;

verus! {

/// One of the four DNA bases, in the column order of a count matrix.
#[derive(Debug, Clone, Copy, PartialEq, Eq, Structural, Hash)]
pub enum Base {
    A,
    C,
    G,
    T,
}

/// The column of a base in a count matrix.
pub open spec fn base_index(b: Base) -> nat {
    match b {
        Base::A => 0,
        Base::C => 1,
        Base::G => 2,
        Base::T => 3,
    }
}

/// The base whose column is `i` (taken modulo four).
pub open spec fn base_at_index(i: nat) -> Base {
    if i % 4 == 0 {
        Base::A
    } else if i % 4 == 1 {
        Base::C
    } else if i % 4 == 2 {
        Base::G
    } else {
        Base::T
    }
}

pub open spec fn spec_complement(b: Base) -> Base {
    match b {
        Base::A => Base::T,
        Base::C => Base::G,
        Base::G => Base::C,
        Base::T => Base::A,
    }
}

/// The characters that name a base: upper-case `A`, `C`, `G`, `T`.
pub open spec fn is_base_char(c: char) -> bool {
    c == 'A' || c == 'C' || c == 'G' || c == 'T'
}

pub open spec fn base_of_char(c: char) -> Base {
    if c == 'A' {
        Base::A
    } else if c == 'C' {
        Base::C
    } else if c == 'G' {
        Base::G
    } else {
        Base::T
    }
}

/// A character that is not a base.
#[derive(Debug, Clone, Copy, PartialEq, Eq, Structural)]
pub enum ParseError {
    UnexpectedBase(char),
}

impl Base {
    pub fn complement(self) -> (r: Base)
        ensures
            r == spec_complement(self),
    {
        match self {
            Base::A => Base::T,
            Base::C => Base::G,
            Base::G => Base::C,
            Base::T => Base::A,
        }
    }

    pub fn index(self) -> (r: usize)
        ensures
            r as nat == base_index(self),
            r < 4,
    {
        match self {
            Base::A => 0,
            Base::C => 1,
            Base::G => 2,
            Base::T => 3,
        }
    }

    pub fn from_index(i: usize) -> (r: Base)
        requires
            i < 4,
        ensures
            r == base_at_index(i as nat),
            base_index(r) == i as nat,
    {
        if i == 0 {
            Base::A
        } else if i == 1 {
            Base::C
        } else if i == 2 {
            Base::G
        } else {
            Base::T
        }
    }

    pub fn from_char(c: char) -> (r: Result<Base, ParseError>)
        ensures
            is_base_char(c) ==> r == Ok::<Base, ParseError>(base_of_char(c)),
            !is_base_char(c) ==> r == Err::<Base, ParseError>(ParseError::UnexpectedBase(c)),
    {
        if c == 'A' {
            Ok(Base::A)
        } else if c == 'C' {
            Ok(Base::C)
        } else if c == 'G' {
            Ok(Base::G)
        } else if c == 'T' {
            Ok(Base::T)
        } else {
            Err(ParseError::UnexpectedBase(c))
        }
    }
}

/// A forward strand: the bases as read, with the record's name.
#[derive(Debug, Clone)]
pub struct PlusStrand {
    pub name: String,
    pub seq: Vec<Base>,
}

/// A reverse strand: the bases of a forward strand in reverse order, not complemented.
#[derive(Debug)]
pub struct MinusStrand {
    pub name: String,
    pub seq: Vec<Base>,
}

/// Either strand of a sequence, as the scanner sees it.
#[derive(Debug)]
pub enum Sequence {
    Plus(PlusStrand),
    Minus(MinusStrand),
}

/// Every character of `s` names a base.
pub open spec fn all_base_chars(s: Seq<char>) -> bool {
    forall|i: int| 0 <= i < s.len() ==> is_base_char(#[trigger] s[i])
}

pub open spec fn bases_of(s: Seq<char>) -> Seq<Base> {
    s.map_values(|c: char| base_of_char(c))
}

/// The reverse of a sequence of bases.
pub open spec fn reversed(s: Seq<Base>) -> Seq<Base> {
    Seq::new(s.len(), |i: int| s[s.len() - 1 - i])
}

impl PlusStrand {
    /// Reads a strand from its text: every character must name a base.
    pub fn from_str(name: &str, seq: &str) -> (r: Result<PlusStrand, ParseError>)
        ensures
            all_base_chars(seq@) <==> r.is_ok(),
            r.is_ok() ==> r.unwrap().name@ == name@ && r.unwrap().seq@ == bases_of(seq@),
            r.is_err() ==> exists|i: int|
                0 <= i < seq@.len() && !is_base_char(seq@[i]) && (forall|j: int|
                    0 <= j < i ==> is_base_char(#[trigger] seq@[j])) && r
                    == Err::<PlusStrand, ParseError>(ParseError::UnexpectedBase(seq@[i])),
    {
        let n = seq.unicode_len();
        let mut bases: Vec<Base> = Vec::new();
        let mut i: usize = 0;
        while i < n
            invariant
                n == seq@.len(),
                i <= n,
                bases@.len() == i,
                forall|j: int| 0 <= j < i ==> is_base_char(#[trigger] seq@[j]),
                forall|j: int| 0 <= j < i ==> bases@[j] == base_of_char(#[trigger] seq@[j]),
            decreases n - i,
        {
            let c = seq.get_char(i);
            match Base::from_char(c) {
                Ok(b) => bases.push(b),
                Err(e) => {
                    assert(!all_base_chars(seq@));
                    return Err(e);
                },
            }
            i = i + 1;
        }
        assert(bases@ =~= bases_of(seq@));
        Ok(PlusStrand { name: String::from_str(name), seq: bases })
    }
}

impl MinusStrand {
    /// The reverse strand of `p`, under the same name.
    pub fn from_plus(p: &PlusStrand) -> (r: MinusStrand)
        ensures
            r.name@ == p.name@,
            r.seq@ == reversed(p.seq@),
            r.seq@.len() == p.seq@.len(),
    {
        let n = p.seq.len();
        let mut seq: Vec<Base> = Vec::new();
        let mut i: usize = 0;
        while i < n
            invariant
                n == p.seq@.len(),
                i <= n,
                seq@.len() == i,
                forall|j: int| 0 <= j < i ==> seq@[j] == #[trigger] p.seq@[n - 1 - j],
            decreases n - i,
        {
            seq.push(p.seq[n - 1 - i]);
            i = i + 1;
        }
        assert(seq@ =~= reversed(p.seq@));
        MinusStrand { name: p.name.clone(), seq }
    }
}

impl Sequence {
    /// The bases of the strand, in its own order.
    pub open spec fn bases(&self) -> Seq<Base> {
        match self {
            Sequence::Plus(p) => p.seq@,
            Sequence::Minus(m) => m.seq@,
        }
    }

    pub open spec fn spec_name(&self) -> Seq<char> {
        match self {
            Sequence::Plus(p) => p.name@,
            Sequence::Minus(m) => m.name@,
        }
    }

    pub open spec fn is_plus(&self) -> bool {
        self is Plus
    }

    pub fn as_slice(&self) -> (r: &[Base])
        ensures
            r@ == self.bases(),
    {
        match self {
            Sequence::Plus(p) => p.seq.as_slice(),
            Sequence::Minus(m) => m.seq.as_slice(),
        }
    }

    pub fn len(&self) -> (r: usize)
        ensures
            r == self.bases().len(),
    {
        match self {
            Sequence::Plus(p) => p.seq.len(),
            Sequence::Minus(m) => m.seq.len(),
        }
    }

    pub fn is_empty(&self) -> (r: bool)
        ensures
            r == (self.bases().len() == 0),
    {
        self.len() == 0
    }

    pub fn name(&self) -> (r: &str)
        ensures
            r@ == self.spec_name(),
    {
        match self {
            Sequence::Plus(p) => p.name.as_str(),
            Sequence::Minus(m) => m.name.as_str(),
        }
    }

    /// Whether this is the forward strand.
    pub fn is_forward(&self) -> (r: bool)
        ensures
            r == self.is_plus(),
    {
        match self {
            Sequence::Plus(_) => true,
            Sequence::Minus(_) => false,
        }
    }
}

} // verus!

verus! {

/// The strands that an evaluation scans: every forward strand in the order given,
/// then the reverse strand of each, in the same order.
pub fn scan_set(plus: Vec<PlusStrand>) -> (r: Vec<Sequence>)
    ensures
        r@.len() == 2 * plus@.len(),
        forall|i: int|
            0 <= i < plus@.len() ==> (#[trigger] r@[i]).is_plus() && r@[i].bases() == plus@[i].seq@
                && r@[i].spec_name() == plus@[i].name@,
        forall|i: int|
            0 <= i < plus@.len() ==> !(#[trigger] r@[plus@.len() + i]).is_plus() && r@[plus@.len()
                + i].bases() == reversed(plus@[i].seq@) && r@[plus@.len() + i].spec_name()
                == plus@[i].name@,
{
    let n = plus.len();
    let mut minus: Vec<Sequence> = Vec::new();
    let mut i: usize = 0;
    while i < n
        invariant
            n == plus@.len(),
            i <= n,
            minus@.len() == i,
            forall|j: int|
                0 <= j < i ==> !(#[trigger] minus@[j]).is_plus() && minus@[j].bases() == reversed(
                    plus@[j].seq@,
                ) && minus@[j].spec_name() == plus@[j].name@,
        decreases n - i,
    {
        let m = MinusStrand::from_plus(&plus[i]);
        minus.push(Sequence::Minus(m));
        i = i + 1;
    }
    let ghost old_plus = plus@;
    let mut plus = plus;
    // Popping twice keeps the forward strands in their order.
    let mut backward: Vec<PlusStrand> = Vec::new();
    while plus.len() > 0
        invariant
            n == old_plus.len(),
            plus@.len() + backward@.len() == n,
            forall|j: int| 0 <= j < plus@.len() ==> #[trigger] plus@[j] == old_plus[j],
            forall|j: int| 0 <= j < backward@.len() ==> #[trigger] backward@[j] == old_plus[n - 1 - j],
        decreases plus@.len(),
    {
        let p = plus.pop().unwrap();
        backward.push(p);
    }
    let mut r: Vec<Sequence> = Vec::new();
    while backward.len() > 0
        invariant
            n == old_plus.len(),
            backward@.len() + r@.len() == n,
            forall|j: int| 0 <= j < backward@.len() ==> #[trigger] backward@[j] == old_plus[n - 1 - j],
            forall|j: int|
                0 <= j < r@.len() ==> (#[trigger] r@[j]).is_plus() && r@[j].bases() == old_plus[j].seq@
                    && r@[j].spec_name() == old_plus[j].name@,
        decreases backward@.len(),
    {
        let p = backward.pop().unwrap();
        r.push(Sequence::Plus(p));
    }
    let ghost before = r@;
    r.append(&mut minus);
    assert(forall|j: int| 0 <= j < n ==> r@[j] == before[j]);
    r
}

} // verus!
