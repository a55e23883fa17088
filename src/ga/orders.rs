//! Stage one: grouping units into picking batches.
//!
//! A batch mapping gives, for each unit (by its position in the catalog), the id
//! of the batch that picks it.
use crate::config::Config;
use crate::ga::genome::{copy_mapping, distinct_count, is_valid_mapping, valid_mapping, Fitness, HIGHEST_FITNESS};
use crate::model::{
    aisles_of, distinct_aisles, distinct_order_ids, distinct_warehouses, order_ids_of,
    volume_sum, volumes_of, warehouses_of, Model, OrderedArticle, ID,
};
use std::collections::BTreeSet;
use vstd::prelude::*;

verus! {

/// Id (label) of one batch.
pub type BatchId = usize;

/// A batch as the contracts see it: its id and its units, in catalog order.
pub type BatchModel = (BatchId, Seq<OrderedArticle>);


/// The units among the first `n` that `m` sends to batch `b`, in order.
pub open spec fn members<A>(m: Seq<usize>, u: Seq<A>, b: int, n: int) -> Seq<A>
    decreases n,
{
    if n <= 0 {
        Seq::empty()
    } else if m[n - 1] == b {
        members(m, u, b, n - 1).push(u[n - 1])
    } else {
        members(m, u, b, n - 1)
    }
}

/// The units that `m` sends to batch `b`.
pub open spec fn group<A>(m: Seq<usize>, u: Seq<A>, b: int) -> Seq<A> {
    members(m, u, b, m.len() as int)
}

/// The non-empty batches among ids `0..k`, by increasing id.
pub open spec fn decoded<A>(m: Seq<usize>, u: Seq<A>, k: int) -> Seq<(usize, Seq<A>)>
    decreases k,
{
    if k <= 0 {
        Seq::empty()
    } else if group(m, u, k - 1).len() > 0 {
        decoded(m, u, k - 1).push(((k - 1) as usize, group(m, u, k - 1)))
    } else {
        decoded(m, u, k - 1)
    }
}

/// The total number of units over a list of batches.
pub open spec fn sizes<A>(s: Seq<(usize, Seq<A>)>) -> int
    decreases s.len(),
{
    if s.len() == 0 {
        0
    } else {
        sizes(s.drop_last()) + s.last().1.len()
    }
}

pub open spec fn count_eq(m: Seq<usize>, b: int, n: int) -> int
    decreases n,
{
    if n <= 0 {
        0
    } else {
        count_eq(m, b, n - 1) + if m[n - 1] == b {
            1int
        } else {
            0int
        }
    }
}

pub open spec fn count_below(m: Seq<usize>, k: int, n: int) -> int
    decreases n,
{
    if n <= 0 {
        0
    } else {
        count_below(m, k, n - 1) + if m[n - 1] < k {
            1int
        } else {
            0int
        }
    }
}

/// Whether a batch of these units stays within the volume limit.
pub open spec fn batch_feasible(u: Seq<OrderedArticle>, cfg: Config) -> bool {
    volume_sum(volumes_of(u)) <= cfg.max_weight_per_batch
}

/// Tour cost of a batch of these units.
pub open spec fn batch_cost(u: Seq<OrderedArticle>, cfg: Config) -> int {
    warehouses_of(u).len() * cfg.cost_per_warehouse + aisles_of(u).len() * cfg.cost_per_aisle
        + cfg.cost_per_batch
}

/// Total tour cost of the batches, or `None` if one of them is over the volume limit.
pub open spec fn total_cost(s: Seq<BatchModel>, cfg: Config) -> Option<int>
    decreases s.len(),
{
    if s.len() == 0 {
        Some(0)
    } else {
        match total_cost(s.drop_last(), cfg) {
            Some(t) => if batch_feasible(s.last().1, cfg) {
                Some(t + batch_cost(s.last().1, cfg))
            } else {
                None
            },
            None => None,
        }
    }
}

/// The normalizing reference cost of stage one's score.
pub open spec fn reference_cost(units: Seq<OrderedArticle>) -> int {
    (warehouses_of(units).len() * 10 + aisles_of(units).len() * 5) as int
}

/// Stage one's score for a reference cost and a total cost.
pub open spec fn batch_score(reference: int, total: Option<int>) -> int {
    match total {
        None => 0,
        Some(t) => if t == 0 {
            100
        } else if reference * 100 / t > 100 {
            100
        } else {
            reference * 100 / t
        },
    }
}

/// The stage-one score of mapping `m` over `units`.
pub open spec fn batch_mapping_score(units: Seq<OrderedArticle>, m: Seq<usize>, cfg: Config) -> int {
    batch_score(reference_cost(units), total_cost(decoded(m, units, units.len() as int), cfg))
}

pub proof fn lemma_members_len<A>(m: Seq<usize>, u: Seq<A>, b: int, n: int)
    ensures
        members(m, u, b, n).len() == count_eq(m, b, n),
    decreases n,
{
    if n > 0 {
        lemma_members_len(m, u, b, n - 1);
    }
}

proof fn lemma_count_split(m: Seq<usize>, k: int, n: int)
    ensures
        count_below(m, k + 1, n) == count_below(m, k, n) + count_eq(m, k, n),
    decreases n,
{
    if n > 0 {
        lemma_count_split(m, k, n - 1);
    }
}

proof fn lemma_count_all(m: Seq<usize>, k: int, n: int)
    requires
        0 <= n <= m.len(),
        forall|i: int| 0 <= i < m.len() ==> #[trigger] m[i] < k,
    ensures
        count_below(m, k, n) == n,
    decreases n,
{
    if n > 0 {
        lemma_count_all(m, k, n - 1);
    }
}

pub proof fn lemma_decoded_sizes<A>(m: Seq<usize>, u: Seq<A>, k: int)
    ensures
        sizes(decoded(m, u, k)) == count_below(m, if k < 0 {
            0
        } else {
            k
        }, m.len() as int),
    decreases k,
{
    if k > 0 {
        lemma_decoded_sizes(m, u, k - 1);
        lemma_count_split(m, k - 1, m.len() as int);
        lemma_members_len(m, u, k - 1, m.len() as int);
        let d = decoded(m, u, k);
        if group(m, u, k - 1).len() > 0 {
            assert(d.drop_last() == decoded(m, u, k - 1));
        }
    } else {
        lemma_count_zero(m, m.len() as int);
    }
}

proof fn lemma_count_zero(m: Seq<usize>, n: int)
    ensures
        count_below(m, 0, n) == 0,
    decreases n,
{
    if n > 0 {
        lemma_count_zero(m, n - 1);
    }
}

/// Every member of a group is one of the items.
pub proof fn lemma_members_from<A>(m: Seq<usize>, u: Seq<A>, b: int, n: int, q: int)
    requires
        0 <= q < members(m, u, b, n).len(),
    ensures
        exists|i: int| 0 <= i < n && #[trigger] u[i] == members(m, u, b, n)[q],
    decreases n,
{
    if n > 0 {
        if m[n - 1] == b && q == members(m, u, b, n - 1).len() {
            assert(u[n - 1] == members(m, u, b, n)[q]);
        } else {
            lemma_members_from(m, u, b, n - 1, q);
            let i = choose|i: int| 0 <= i < n - 1 && #[trigger] u[i] == members(m, u, b, n - 1)[q];
            assert(u[i] == members(m, u, b, n)[q]);
        }
    }
}

/// Each decoded batch is non-empty, holds exactly the units mapped to its id, and
/// the ids increase strictly and stay below `k`.
pub proof fn lemma_decoded_shape<A>(m: Seq<usize>, u: Seq<A>, k: int)
    requires
        k <= usize::MAX,
    ensures
        decoded(m, u, k).len() <= if k < 0 {
            0
        } else {
            k
        },
        forall|j: int|
            0 <= j < decoded(m, u, k).len() ==> {
                &&& (#[trigger] decoded(m, u, k)[j]).1.len() > 0
                &&& decoded(m, u, k)[j].1 == group(m, u, decoded(m, u, k)[j].0 as int)
                &&& decoded(m, u, k)[j].0 < k
            },
        forall|i: int, j: int|
            0 <= i < j < decoded(m, u, k).len() ==> decoded(m, u, k)[i].0 < decoded(
                m,
                u,
                k,
            )[j].0,
    decreases k,
{
    if k > 0 {
        lemma_decoded_shape(m, u, k - 1);
        let p = decoded(m, u, k - 1);
        let d = decoded(m, u, k);
        if group(m, u, k - 1).len() > 0 {
            assert(forall|j: int| 0 <= j < p.len() ==> d[j] == p[j]);
            assert(d[p.len() as int].0 == k - 1);
        }
    }
}

pub proof fn lemma_sizes_take<A>(s: Seq<(usize, Seq<A>)>, j: int)
    requires
        0 <= j <= s.len(),
    ensures
        sizes(s.take(j)) <= sizes(s),
    decreases s.len(),
{
    if j < s.len() {
        assert(s.drop_last().take(j) =~= s.take(j));
        lemma_sizes_take(s.drop_last(), j);
    } else {
        assert(s.take(j) =~= s);
    }
}

/// Decoding a mapping that gives every unit a batch id below the unit count
/// yields batches whose unit counts add up to the unit count: every unit lands in
/// exactly one batch.
pub proof fn lemma_decode_keeps_every_unit<A>(m: Seq<usize>, units: Seq<A>)
    requires
        valid_mapping(m, units.len() as int, units.len() as int),
    ensures
        sizes(decoded(m, units, units.len() as int)) == units.len(),
{
    lemma_decoded_sizes(m, units, units.len() as int);
    lemma_count_all(m, units.len() as int, m.len() as int);
}

/// Decoding is a function of the mapping and the units alone: equal inputs give
/// equal batch lists.
pub proof fn lemma_decode_deterministic<A>(m1: Seq<usize>, u1: Seq<A>, m2: Seq<usize>, u2: Seq<A>)
    requires
        m1 == m2,
        u1 == u2,
    ensures
        decoded(m1, u1, u1.len() as int) == decoded(m2, u2, u2.len() as int),
{
}

pub open spec fn batch_models(s: Seq<Batch>) -> Seq<BatchModel> {
    s.map_values(|b: Batch| b.model())
}

proof fn lemma_volume_bound(s: Seq<u16>)
    ensures
        0 <= volume_sum(s) <= 65535 * s.len(),
    decreases s.len(),
{
    if s.len() > 0 {
        lemma_volume_bound(s.drop_last());
    }
}

/// A batch costs at most `cost_per_warehouse + cost_per_aisle + cost_per_batch` per unit.
proof fn lemma_batch_cost_bound(u: Seq<OrderedArticle>, cfg: Config)
    requires
        u.len() > 0,
    ensures
        0 <= batch_cost(u, cfg) <= u.len() * (cfg.cost_per_warehouse + cfg.cost_per_aisle
            + cfg.cost_per_batch),
{
    let ws = u.map_values(|x: OrderedArticle| x.location.warehouse);
    let as_ = u.map_values(|x: OrderedArticle| (x.location.warehouse, x.location.aisle));
    ws.lemma_cardinality_of_set();
    as_.lemma_cardinality_of_set();
    let w = warehouses_of(u).len() as int;
    let a = aisles_of(u).len() as int;
    let n = u.len() as int;
    let cw = cfg.cost_per_warehouse as int;
    let ca = cfg.cost_per_aisle as int;
    let cb = cfg.cost_per_batch as int;
    assert(w * cw + a * ca + cb <= n * (cw + ca + cb)) by (nonlinear_arith)
        requires
            0 <= w <= n,
            0 <= a <= n,
            1 <= n,
            0 <= cw,
            0 <= ca,
            0 <= cb,
    ;
    assert(0 <= w * cw + a * ca + cb) by (nonlinear_arith)
        requires
            0 <= w,
            0 <= a,
            0 <= cw,
            0 <= ca,
            0 <= cb,
    ;
}

/// One materialized batch: its id and its units, in catalog order.
#[derive(Debug, Clone, PartialEq, Eq)]
pub struct Batch {
    pub id: BatchId,
    pub ordered_articles: Vec<OrderedArticle>,
}

impl Batch {
    pub open spec fn units(&self) -> Seq<OrderedArticle> {
        self.ordered_articles@
    }

    pub open spec fn model(&self) -> BatchModel {
        (self.id, self.units())
    }

    /// The same batch, as a new value.
    pub fn duplicate(&self) -> (r: Batch)
        ensures
            r.model() == self.model(),
    {
        let mut units: Vec<OrderedArticle> = Vec::new();
        let mut i: usize = 0;
        while i < self.ordered_articles.len()
            invariant
                i <= self.ordered_articles@.len(),
                units@ == self.ordered_articles@.take(i as int),
            decreases self.ordered_articles@.len() - i,
        {
            units.push(self.ordered_articles[i]);
            assert(units@ =~= self.ordered_articles@.take(i + 1));
            i += 1;
        }
        assert(units@ =~= self.ordered_articles@);
        Batch { id: self.id, ordered_articles: units }
    }

    /// The tour cost of the batch, or `None` when its volume is over the limit.
    pub fn fitness(&self, cfg: &Config) -> (r: Option<u128>)
        ensures
            r is Some <==> batch_feasible(self.units(), *cfg),
            r matches Some(c) ==> c == batch_cost(self.units(), *cfg),
    {
        if self.volume() > cfg.max_weight_per_batch as u128 {
            None
        } else {
            let w = self.num_warehouses() as u128;
            let a = self.num_aisles() as u128;
            let cw = cfg.cost_per_warehouse as u128;
            let ca = cfg.cost_per_aisle as u128;
            assert(w * cw < 0x1_0000_0000_0000_0000_0000_0000) by (nonlinear_arith)
                requires
                    w < 0x1_0000_0000_0000_0000,
                    cw < 0x1_0000_0000,
            ;
            assert(a * ca < 0x1_0000_0000_0000_0000_0000_0000) by (nonlinear_arith)
                requires
                    a < 0x1_0000_0000_0000_0000,
                    ca < 0x1_0000_0000,
            ;
            Some(w * cw + a * ca + cfg.cost_per_batch as u128)
        }
    }

    pub fn ordered_articles(&self) -> (r: &Vec<OrderedArticle>)
        ensures
            r@ == self.units(),
    {
        &self.ordered_articles
    }

    pub fn num_articles(&self) -> (r: usize)
        ensures
            r == self.units().len(),
    {
        self.ordered_articles.len()
    }

    /// Total volume of the batch's units.
    pub fn volume(&self) -> (r: u128)
        ensures
            r == volume_sum(volumes_of(self.units())),
    {
        let ghost vols = volumes_of(self.units());
        let mut sum: u128 = 0;
        let mut i: usize = 0;
        assert(vols.take(0) =~= Seq::<u16>::empty());
        while i < self.ordered_articles.len()
            invariant
                i <= self.ordered_articles@.len(),
                vols == volumes_of(self.units()),
                sum == volume_sum(vols.take(i as int)),
            decreases self.ordered_articles@.len() - i,
        {
            proof {
                lemma_volume_bound(vols.take(i as int));
                assert(vols.take(i + 1).drop_last() =~= vols.take(i as int));
            }
            sum = sum + self.ordered_articles[i].volume as u128;
            i += 1;
        }
        assert(vols.take(i as int) =~= vols);
        sum
    }

    /// Distinct warehouses the batch visits.
    pub fn num_warehouses(&self) -> (r: usize)
        ensures
            r == warehouses_of(self.units()).len(),
    {
        distinct_warehouses(&self.ordered_articles).len()
    }

    /// Distinct (warehouse, aisle) pairs the batch visits.
    pub fn num_aisles(&self) -> (r: usize)
        ensures
            r == aisles_of(self.units()).len(),
    {
        distinct_aisles(&self.ordered_articles).len()
    }

    pub fn order_ids_in_batch(&self) -> (r: BTreeSet<ID>)
        ensures
            r@ == order_ids_of(self.units()),
    {
        distinct_order_ids(&self.ordered_articles)
    }
}

/// A batch mapping together with the batches it decodes to.
pub struct BatchedArticles {
    batch_mapping: Vec<BatchId>,
    batches: Vec<Batch>,
    units: Ghost<Seq<OrderedArticle>>,
}

impl BatchedArticles {
    /// The mapping from unit positions to batch ids.
    pub closed spec fn mapping(&self) -> Seq<BatchId> {
        self.batch_mapping@
    }

    /// The units that the mapping was decoded against.
    pub closed spec fn units(&self) -> Seq<OrderedArticle> {
        self.units@
    }

    pub closed spec fn batch_list(&self) -> Seq<Batch> {
        self.batches@
    }

    /// The batches are exactly the decoding of the mapping.
    pub open spec fn wf(&self) -> bool {
        &&& self.units().len() <= usize::MAX
        &&& valid_mapping(self.mapping(), self.units().len() as int, self.units().len() as int)
        &&& batch_models(self.batch_list()) == decoded(
            self.mapping(),
            self.units(),
            self.units().len() as int,
        )
    }

    /// Decodes `batch_mapping` against the catalog's units: each unit goes to the
    /// batch its mapping entry names; empty batches are left out.
    pub fn from_batch_mapping(batch_mapping: Vec<BatchId>, model: &Model) -> (r: BatchedArticles)
        requires
            valid_mapping(batch_mapping@, model.units().len() as int, model.units().len() as int),
        ensures
            r.wf(),
            r.mapping() == batch_mapping@,
            r.units() == model.units(),
    {
        let units = model.get_ordered_articles();
        let n = units.len();
        let _ = batch_mapping.len();
        let ghost m = batch_mapping@;
        let ghost u = units@;
        let mut groups: Vec<Vec<OrderedArticle>> = Vec::new();
        let mut b: usize = 0;
        while b < n
            invariant
                b <= n,
                groups@.len() == b,
                forall|c: int| 0 <= c < b ==> (#[trigger] groups@[c])@ == Seq::<OrderedArticle>::empty(),
            decreases n - b,
        {
            groups.push(Vec::new());
            b += 1;
        }
        let mut i: usize = 0;
        while i < n
            invariant
                i <= n,
                n == u.len(),
                m == batch_mapping@,
                u == units@,
                valid_mapping(m, n as int, n as int),
                groups@.len() == n,
                forall|c: int| 0 <= c < n ==> (#[trigger] groups@[c])@ == members(m, u, c, i as int),
            decreases n - i,
        {
            let b = batch_mapping[i];
            assert(b < n);
            groups[b].push(units[i]);
            proof {
                assert forall|c: int| 0 <= c < n implies (#[trigger] groups@[c])@ == members(
                    m,
                    u,
                    c,
                    i + 1,
                ) by {}
            }
            i += 1;
        }
        let mut batches: Vec<Batch> = Vec::new();
        let mut b: usize = 0;
        while b < n
            invariant
                b <= n,
                n == u.len(),
                m == batch_mapping@,
                u == units@,
                m.len() == n,
                groups@.len() == n,
                forall|c: int| b <= c < n ==> (#[trigger] groups@[c])@ == group(m, u, c),
                batch_models(batches@) == decoded(m, u, b as int),
            decreases n - b,
        {
            if groups[b].len() > 0 {
                let mut g: Vec<OrderedArticle> = Vec::new();
                std::mem::swap(&mut groups[b], &mut g);
                let batch = Batch { id: b, ordered_articles: g };
                let ghost prev = batches@;
                batches.push(batch);
                assert(batch_models(batches@) =~= batch_models(prev).push(batch.model()));
            }
            b += 1;
        }
        BatchedArticles { batch_mapping, batches, units: Ghost(units@) }
    }

    /// Materializes a mapping handed back by a search: `None` unless it has one
    /// entry per unit, each below the unit count.
    pub fn from_search_result(batch_mapping: Vec<BatchId>, model: &Model) -> (r: Option<
        BatchedArticles,
    >)
        ensures
            r is Some <==> valid_mapping(
                batch_mapping@,
                model.units().len() as int,
                model.units().len() as int,
            ),
            r matches Some(b) ==> b.wf() && b.mapping() == batch_mapping@ && b.units()
                == model.units(),
    {
        let n = model.max_batches_num();
        if is_valid_mapping(&batch_mapping, n, n) {
            Some(BatchedArticles::from_batch_mapping(batch_mapping, model))
        } else {
            None
        }
    }

    /// The length of the mapping: the number of units.
    pub fn len(&self) -> (r: usize)
        ensures
            r == self.mapping().len(),
    {
        self.batch_mapping.len()
    }

    pub fn to_batches(&self) -> (r: &Vec<Batch>)
        ensures
            r@ == self.batch_list(),
    {
        &self.batches
    }

    /// The mapping itself.
    pub fn batch_mapping(&self) -> (r: &Vec<BatchId>)
        ensures
            r@ == self.mapping(),
    {
        &self.batch_mapping
    }

    /// Fixed cost of the batches: the number of distinct batch ids used, times
    /// the cost per batch.
    pub fn rest_cost(&self, cfg: &Config) -> (r: u128)
        ensures
            r == self.mapping().to_set().len() * cfg.cost_per_batch,
            r < 0x1_0000_0000_0000_0000_0000_0000,
    {
        let k = distinct_count(&self.batch_mapping) as u128;
        let c = cfg.cost_per_batch as u128;
        assert(k * c < 0x1_0000_0000_0000_0000_0000_0000) by (nonlinear_arith)
            requires
                k < 0x1_0000_0000_0000_0000,
                c < 0x1_0000_0000,
        ;
        k * c
    }

    /// Total tour cost over all batches, or `None` when a batch is over the volume limit.
    pub fn tour_cost(&self, cfg: &Config) -> (r: Option<u128>)
        requires
            self.wf(),
        ensures
            r == (match total_cost(batch_models(self.batch_list()), *cfg) {
                Some(t) => Some(t as u128),
                None => None,
            }),
            r matches Some(t) ==> total_cost(batch_models(self.batch_list()), *cfg) == Some(
                t as int,
            ),
            r matches Some(t) ==> t <= self.units().len() * (cfg.cost_per_warehouse
                + cfg.cost_per_aisle + cfg.cost_per_batch),
    {
        let ghost s = batch_models(self.batch_list());
        let ghost n = self.units().len();
        let ghost per_unit = cfg.cost_per_warehouse + cfg.cost_per_aisle + cfg.cost_per_batch;
        let unit_count = self.batch_mapping.len();
        proof {
            assert(n == unit_count);
            lemma_decode_keeps_every_unit(self.mapping(), self.units());
            lemma_decoded_shape(self.mapping(), self.units(), n as int);
            assert(s.take(0) =~= Seq::<BatchModel>::empty());
        }
        let mut total: u128 = 0;
        let mut j: usize = 0;
        while j < self.batches.len()
            invariant
                j <= self.batches@.len(),
                s == batch_models(self.batch_list()),
                self.batch_list() == self.batches@,
                s.len() == self.batches@.len(),
                sizes(s) == n,
                n <= usize::MAX,
                per_unit == cfg.cost_per_warehouse + cfg.cost_per_aisle + cfg.cost_per_batch,
                forall|q: int| 0 <= q < s.len() ==> (#[trigger] s[q]).1.len() > 0,
                total_cost(s.take(j as int), *cfg) == Some(total as int),
                total <= sizes(s.take(j as int)) * per_unit,
            decreases self.batches@.len() - j,
        {
            let ghost prev = s.take(j as int);
            proof {
                assert(s.take(j + 1).drop_last() =~= prev);
                assert(s[j as int] == self.batches@[j as int].model());
                lemma_sizes_take(s, j + 1);
                lemma_batch_cost_bound(s[j as int].1, *cfg);
                let a = sizes(prev);
                let g = s[j as int].1.len() as int;
                assert(a * per_unit + g * per_unit == (a + g) * per_unit) by (nonlinear_arith);
                assert((a + g) * per_unit <= n * per_unit) by (nonlinear_arith)
                    requires
                        a + g <= n,
                        0 <= per_unit,
                ;
                assert(n * per_unit < 0x1_0000_0000_0000_0000 * 0x4_0000_0000) by (nonlinear_arith)
                    requires
                        n <= usize::MAX,
                        per_unit < 0x4_0000_0000,
                ;
            }
            match self.batches[j].fitness(cfg) {
                Some(c) => {
                    total = total + c;
                },
                None => {
                    proof {
                        lemma_total_cost_none_extends(s, j as int + 1, *cfg);
                    }
                    return None;
                },
            }
            j += 1;
        }
        assert(s.take(j as int) =~= s);
        Some(total)
    }
}

proof fn lemma_total_cost_none_extends(s: Seq<BatchModel>, j: int, cfg: Config)
    requires
        0 <= j <= s.len(),
        total_cost(s.take(j), cfg) is None,
    ensures
        total_cost(s, cfg) is None,
    decreases s.len() - j,
{
    if j < s.len() {
        assert(s.take(j + 1).drop_last() =~= s.take(j));
        lemma_total_cost_none_extends(s, j + 1, cfg);
    } else {
        assert(s.take(j) =~= s);
    }
}

/// The reference cost that normalizes stage one's score: distinct warehouses
/// times 10 plus distinct (warehouse, aisle) pairs times 5, over all units.
pub fn best_batch_fitness_approx(model: &Model) -> (r: u128)
    ensures
        r == reference_cost(model.units()),
{
    let w = model.num_warehouses_of_orders() as u128;
    let a = model.num_aisles_of_orders() as u128;
    w * 10 + a * 5
}

/// Stage one's score for a reference cost and a total tour cost.
pub fn score_of_cost(reference: u128, total: Option<u128>) -> (r: Fitness)
    requires
        reference < 0x1_0000_0000_0000_0000_0000,
    ensures
        r == batch_score(
            reference as int,
            match total {
                Some(t) => Some(t as int),
                None => None,
            },
        ),
        r <= HIGHEST_FITNESS,
{
    match total {
        None => 0,
        Some(t) => {
            if t == 0 {
                HIGHEST_FITNESS
            } else {
                let f = reference * 100 / t;
                if f > 100 {
                    HIGHEST_FITNESS
                } else {
                    f as usize
                }
            }
        },
    }
}

/// Stage one's score of `batch_mapping`: 0 when a batch is over the volume
/// limit, else the reference cost over the total tour cost, scaled to 100 and
/// capped there.
pub fn fitness_of(model: &Model, cfg: &Config, batch_mapping: &Vec<BatchId>) -> (r: Fitness)
    requires
        valid_mapping(batch_mapping@, model.units().len() as int, model.units().len() as int),
    ensures
        r == batch_mapping_score(model.units(), batch_mapping@, *cfg),
        r <= HIGHEST_FITNESS,
{
    let reference = best_batch_fitness_approx(model);
    let n = model.max_batches_num();
    proof {
        let u = model.units();
        u.map_values(|x: OrderedArticle| x.location.warehouse).lemma_cardinality_of_set();
        u.map_values(|x: OrderedArticle| (x.location.warehouse, x.location.aisle)).lemma_cardinality_of_set();
    }
    let batched = BatchedArticles::from_batch_mapping(copy_mapping(batch_mapping), model);
    let total = batched.tour_cost(cfg);
    score_of_cost(reference, total)
}

/// A batch whose volume is exactly the limit is feasible; one whose volume is
/// one over the limit is not.
pub proof fn lemma_volume_limit(units: Seq<OrderedArticle>, cfg: Config)
    ensures
        volume_sum(volumes_of(units)) == cfg.max_weight_per_batch ==> batch_feasible(units, cfg),
        volume_sum(volumes_of(units)) == cfg.max_weight_per_batch + 1 ==> !batch_feasible(
            units,
            cfg,
        ),
{
}

proof fn lemma_total_cost_none(s: Seq<BatchModel>, cfg: Config, j: int)
    requires
        0 <= j < s.len(),
        !batch_feasible(s[j].1, cfg),
    ensures
        total_cost(s, cfg) is None,
    decreases s.len(),
{
    if j < s.len() - 1 {
        assert(s.drop_last()[j] == s[j]);
        lemma_total_cost_none(s.drop_last(), cfg, j);
    }
}

/// A mapping that puts some batch over the volume limit scores 0.
pub proof fn lemma_infeasible_batch_scores_zero(
    units: Seq<OrderedArticle>,
    m: Seq<usize>,
    cfg: Config,
    j: int,
)
    requires
        valid_mapping(m, units.len() as int, units.len() as int),
        0 <= j < decoded(m, units, units.len() as int).len(),
        !batch_feasible(decoded(m, units, units.len() as int)[j].1, cfg),
    ensures
        batch_mapping_score(units, m, cfg) == 0,
{
    lemma_total_cost_none(decoded(m, units, units.len() as int), cfg, j);
}

} // verus!
