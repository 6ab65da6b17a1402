//! The invariant by which branches of the search are compared.
//!
//! A `Kdim` pairs the number of cells of a colouring with the trace of the
//! refinement that produced it. More cells rank higher; among equal cell
//! counts the lexicographically smaller trace ranks higher.

use vstd::prelude::*;
use core::cmp::Ordering;
use vstd::std_specs::cmp::PartialEqSpecImpl;
use vstd::std_specs::cmp::PartialOrdSpecImpl;

verus! {

/// Lexicographic comparison of `a` and `b` from position `i` on: negative
/// when `a` comes first, zero when they agree, positive when `b` comes first.
/// A proper prefix comes before the sequence it is a prefix of.
pub open spec fn lex_rank(a: Seq<usize>, b: Seq<usize>, i: int) -> int
    decreases a.len() - i,
{
    if i >= a.len() && i >= b.len() {
        0
    } else if i >= a.len() {
        -1
    } else if i >= b.len() {
        1
    } else if a[i] < b[i] {
        -1
    } else if a[i] > b[i] {
        1
    } else {
        lex_rank(a, b, i + 1)
    }
}

/// The rank of the pair `x` against `y`: positive when `x` is the better
/// one, that is when it has more cells, or as many and the smaller trace.
pub open spec fn kdim_rank(x: (usize, Seq<usize>), y: (usize, Seq<usize>)) -> int {
    if x.0 > y.0 {
        1
    } else if x.0 < y.0 {
        -1
    } else {
        -lex_rank(x.1, y.1, 0)
    }
}

/// `lex_rank` is zero exactly on equal suffixes.
pub proof fn lemma_lex_rank_zero(a: Seq<usize>, b: Seq<usize>, i: int)
    requires
        0 <= i <= a.len(),
        i <= b.len(),
    ensures
        lex_rank(a, b, i) == 0 <==> (a.len() == b.len() && forall|j: int|
            i <= j < a.len() ==> a[j] == b[j]),
    decreases a.len() - i,
{
    if i < a.len() && i < b.len() {
        if a[i] == b[i] {
            lemma_lex_rank_zero(a, b, i + 1);
        } else {
            assert(a[i] != b[i]);
        }
    }
}

/// Swapping the arguments of `lex_rank` negates it.
pub proof fn lemma_lex_rank_antisymmetric(a: Seq<usize>, b: Seq<usize>, i: int)
    requires
        0 <= i,
    ensures
        lex_rank(a, b, i) == -lex_rank(b, a, i),
    decreases a.len() - i,
{
    if i < a.len() && i < b.len() && a[i] == b[i] {
        lemma_lex_rank_antisymmetric(a, b, i + 1);
    }
}

/// Two pairs rank equal exactly when they are the same pair.
pub proof fn lemma_kdim_rank_zero(x: (usize, Seq<usize>), y: (usize, Seq<usize>))
    ensures
        kdim_rank(x, y) == 0 <==> x == y,
{
    lemma_lex_rank_zero(x.1, y.1, 0);
    if kdim_rank(x, y) == 0 {
        assert(x.1 =~= y.1);
    }
}

/// Swapping the arguments of `kdim_rank` negates it.
pub proof fn lemma_kdim_rank_antisymmetric(x: (usize, Seq<usize>), y: (usize, Seq<usize>))
    ensures
        kdim_rank(x, y) == -kdim_rank(y, x),
{
    lemma_lex_rank_antisymmetric(x.1, y.1, 0);
}

/// What is not behind a second sequence that is not behind a third is not
/// behind the third.
pub proof fn lemma_lex_rank_transitive(a: Seq<usize>, b: Seq<usize>, c: Seq<usize>, i: int)
    requires
        0 <= i,
        lex_rank(a, b, i) <= 0,
        lex_rank(b, c, i) <= 0,
    ensures
        lex_rank(a, c, i) <= 0,
    decreases a.len() - i,
{
    if i < a.len() && i < b.len() && i < c.len() && a[i] == b[i] && b[i] == c[i] {
        lemma_lex_rank_transitive(a, b, c, i + 1);
    }
}

/// A pair that is at least as good as a second that is at least as good as
/// a third is at least as good as the third.
pub proof fn lemma_kdim_rank_transitive(
    x: (usize, Seq<usize>),
    y: (usize, Seq<usize>),
    z: (usize, Seq<usize>),
)
    requires
        kdim_rank(x, y) >= 0,
        kdim_rank(y, z) >= 0,
    ensures
        kdim_rank(x, z) >= 0,
{
    if x.0 == y.0 && y.0 == z.0 {
        lemma_lex_rank_transitive(x.1, y.1, z.1, 0);
    }
}

/// Compares two traces lexicographically.
pub fn rank_traces(a: &Vec<usize>, b: &Vec<usize>) -> (r: i8)
    ensures
        r == lex_rank(a@, b@, 0),
        -1 <= r <= 1,
{
    let mut i: usize = 0;
    while i < a.len() && i < b.len()
        invariant
            i <= a.len(),
            i <= b.len(),
            lex_rank(a@, b@, 0) == lex_rank(a@, b@, i as int),
        decreases a.len() - i,
    {
        if a[i] < b[i] {
            return -1;
        }
        if a[i] > b[i] {
            return 1;
        }
        i += 1;
    }
    if i < b.len() {
        -1
    } else if i < a.len() {
        1
    } else {
        0
    }
}

/// The pruning invariant of a branch: cell count and trace.
#[derive(Debug)]
pub struct Kdim(usize, Vec<usize>);

impl View for Kdim {
    type V = (usize, Seq<usize>);

    closed spec fn view(&self) -> (usize, Seq<usize>) {
        (self.0, self.1@)
    }
}

impl Kdim {
    /// The pair of a cell count and a trace.
    pub fn new(u: usize, v: Vec<usize>) -> (k: Kdim)
        ensures
            k@ == (u, v@),
    {
        Kdim(u, v)
    }

    /// The number of cells.
    pub fn cell_count(&self) -> (n: usize)
        ensures
            n == self@.0,
    {
        self.0
    }

    /// Ranks `self` against `other`: positive when `self` is the better one.
    pub fn rank(&self, other: &Kdim) -> (r: i8)
        ensures
            r == kdim_rank(self@, other@),
    {
        if self.0 > other.0 {
            1
        } else if self.0 < other.0 {
            -1
        } else {
            let r = rank_traces(&self.1, &other.1);
            if r < 0 {
                1
            } else if r > 0 {
                -1
            } else {
                0
            }
        }
    }
}

impl Clone for Kdim {
    /// A copy of `self`.
    fn clone(&self) -> (k: Kdim)
        ensures
            k@ == self@,
    {
        let mut v: Vec<usize> = Vec::new();
        let mut i: usize = 0;
        while i < self.1.len()
            invariant
                i <= self.1.len(),
                v@ == self.1@.take(i as int),
            decreases self.1.len() - i,
        {
            v.push(self.1[i]);
            proof {
                assert(self.1@.take(i + 1) =~= self.1@.take(i as int).push(self.1@[i as int]));
            }
            i += 1;
        }
        proof {
            assert(self.1@.take(self.1.len() as int) =~= self.1@);
        }
        Kdim(self.0, v)
    }
}

impl PartialEq for Kdim {
    fn eq(&self, other: &Kdim) -> (r: bool) {
        proof {
            lemma_kdim_rank_zero(self@, other@);
        }
        self.rank(other) == 0
    }
}

impl PartialEqSpecImpl for Kdim {
    open spec fn obeys_eq_spec() -> bool {
        true
    }

    open spec fn eq_spec(&self, other: &Kdim) -> bool {
        self@ == other@
    }
}

impl Eq for Kdim {}

impl PartialOrd for Kdim {
    fn partial_cmp(&self, other: &Kdim) -> (r: Option<Ordering>) {
        let k = self.rank(other);
        if k < 0 {
            Some(Ordering::Less)
        } else if k > 0 {
            Some(Ordering::Greater)
        } else {
            Some(Ordering::Equal)
        }
    }
}

impl PartialOrdSpecImpl for Kdim {
    open spec fn obeys_partial_cmp_spec() -> bool {
        true
    }

    open spec fn partial_cmp_spec(&self, other: &Kdim) -> Option<Ordering> {
        if kdim_rank(self@, other@) < 0 {
            Some(Ordering::Less)
        } else if kdim_rank(self@, other@) > 0 {
            Some(Ordering::Greater)
        } else {
            Some(Ordering::Equal)
        }
    }
}

} // verus!
