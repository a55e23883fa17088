//! What both stages share about their genomes: value bounds and fitness bounds.
use vstd::prelude::*;

verus! {

/// Score of a candidate mapping: higher is better, between 0 and 100.
pub type Fitness = usize;

/// The best score a candidate can get.
pub const HIGHEST_FITNESS: usize = 100;

/// The worst score a candidate can get.
pub const LOWEST_FITNESS: usize = 0;

/// Whether `m` assigns each of `len` items a group id below `bound`.
pub open spec fn valid_mapping(m: Seq<usize>, len: int, bound: int) -> bool {
    &&& m.len() == len
    &&& forall|i: int| 0 <= i < m.len() ==> #[trigger] m[i] < bound
}

/// Shape of the genomes of one search: `length` genes, each in
/// `min_value..max_value` (upper end excluded).
#[derive(Debug, Clone, Copy, PartialEq, Eq, Structural)]
pub struct GenomeConfig {
    pub length: usize,
    pub min_value: usize,
    pub max_value: usize,
}

impl GenomeConfig {
    /// Genomes over `count` items, each item given a group id below `count`;
    /// `None` when there is nothing to group, so no search is run.
    pub fn for_items(count: usize) -> (r: Option<GenomeConfig>)
        ensures
            r is None <==> count == 0,
            r matches Some(g) ==> g.length == count && g.min_value == 0 && g.max_value == count,
    {
        if count == 0 {
            None
        } else {
            Some(GenomeConfig { length: count, min_value: 0, max_value: count })
        }
    }
}

/// Every genome inside the bounds that `for_items(count)` gives has one entry
/// per item, each a group id in `0..count`.
pub proof fn lemma_genome_in_bounds_is_mapping(g: GenomeConfig, count: usize, m: Seq<usize>)
    requires
        g.length == count && g.min_value == 0 && g.max_value == count,
        m.len() == g.length,
        forall|i: int| 0 <= i < m.len() ==> g.min_value <= #[trigger] m[i] < g.max_value,
    ensures
        valid_mapping(m, count as int, count as int),
{
}

/// Whether `m` has `len` entries, each below `bound`.
pub fn is_valid_mapping(m: &Vec<usize>, len: usize, bound: usize) -> (r: bool)
    ensures
        r == valid_mapping(m@, len as int, bound as int),
{
    if m.len() != len {
        return false;
    }
    let mut i: usize = 0;
    while i < m.len()
        invariant
            i <= m@.len(),
            forall|j: int| 0 <= j < i ==> #[trigger] m@[j] < bound,
        decreases m@.len() - i,
    {
        if m[i] >= bound {
            return false;
        }
        i += 1;
    }
    true
}

/// A copy of a mapping.
pub fn copy_mapping(m: &Vec<usize>) -> (r: Vec<usize>)
    ensures
        r@ == m@,
{
    let mut r: Vec<usize> = Vec::new();
    let mut i: usize = 0;
    while i < m.len()
        invariant
            i <= m@.len(),
            r@ == m@.take(i as int),
        decreases m@.len() - i,
    {
        r.push(m[i]);
        assert(r@ =~= m@.take(i + 1));
        i += 1;
    }
    assert(r@ =~= m@);
    r
}

pub open spec fn fitness_sum(a: Seq<usize>) -> int
    decreases a.len(),
{
    if a.len() == 0 {
        0
    } else {
        fitness_sum(a.drop_last()) + a.last()
    }
}

/// The mean of scores, rounded down.
pub fn average(a: &[usize]) -> (r: usize)
    requires
        a@.len() > 0,
    ensures
        r == fitness_sum(a@) / (a@.len() as int),
{
    let mut sum: u128 = 0;
    let mut i: usize = 0;
    assert(a@.take(0) =~= Seq::<usize>::empty());
    while i < a.len()
        invariant
            i <= a@.len(),
            sum == fitness_sum(a@.take(i as int)),
            sum <= i * (usize::MAX as int),
        decreases a@.len() - i,
    {
        assert(a@.take(i + 1).drop_last() =~= a@.take(i as int));
        assert(i * (usize::MAX as int) + (usize::MAX as int) == (i + 1) * (usize::MAX as int))
            by (nonlinear_arith);
        assert((i + 1) * (usize::MAX as int) < 0x1_0000_0000_0000_0000 * 0x1_0000_0000_0000_0000)
            by (nonlinear_arith)
            requires
                i < 0x1_0000_0000_0000_0000,
                (usize::MAX as int) < 0x1_0000_0000_0000_0000,
        ;
        sum = sum + a[i] as u128;
        i += 1;
    }
    assert(a@.take(i as int) =~= a@);
    let n = a.len() as u128;
    let mean = sum / n;
    assert(mean <= sum);
    assert(sum <= n * (usize::MAX as int));
    assert(mean <= (usize::MAX as int)) by (nonlinear_arith)
        requires
            mean == sum / n,
            sum <= n * (usize::MAX as int),
            n > 0,
    ;
    mean as usize
}

/// How many distinct group ids `m` uses.
pub fn distinct_count(m: &Vec<usize>) -> (r: usize)
    ensures
        r == m@.to_set().len(),
        r <= m@.len(),
{
    let mut ids: std::collections::BTreeSet<usize> = std::collections::BTreeSet::new();
    let mut i: usize = 0;
    assert(m@.take(0) =~= Seq::<usize>::empty());
    assert(ids@ =~= m@.take(0).to_set());
    while i < m.len()
        invariant
            i <= m@.len(),
            ids@ == m@.take(i as int).to_set(),
        decreases m@.len() - i,
    {
        let b = m[i];
        ids.insert(b);
        proof {
            let prev = m@.take(i as int);
            assert(m@.take(i + 1) =~= prev.push(b));
            prev.lemma_push_to_set_commute(b);
        }
        i += 1;
    }
    assert(m@.take(i as int) =~= m@);
    proof {
        m@.lemma_cardinality_of_set();
    }
    ids.len()
}

} // verus!
