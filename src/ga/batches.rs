//! Stage two: grouping batches into dispatch waves.
//!
//! A wave mapping gives, for each batch (by its position in stage one's batch
//! list), the id of the wave that releases it.
use crate::config::Config;
use crate::ga::genome::{copy_mapping, distinct_count, is_valid_mapping, valid_mapping, Fitness, HIGHEST_FITNESS};
use crate::ga::orders::{
    batch_models, count_eq, decoded, lemma_decode_keeps_every_unit, lemma_decoded_shape,
    lemma_members_from, lemma_members_len, lemma_sizes_take, members, sizes, Batch, BatchModel,
    BatchedArticles,
};
use crate::model::{
    lemma_flatten_alt_member, lemma_flatten_alt_take, order_ids_of, Model, OrderedArticle, ID,
};
use std::collections::BTreeSet;
use vstd::prelude::*;

verus! {

/// Id (label) of one wave.
pub type WaiveId = usize;

/// A wave as the contracts see it: its id and its batches, in batch order.
pub type WaiveModel = (WaiveId, Seq<BatchModel>);

/// The units of a wave, batch by batch.
pub open spec fn waive_units(bs: Seq<BatchModel>) -> Seq<OrderedArticle> {
    bs.map_values(|b: BatchModel| b.1).flatten_alt()
}

/// The order ids of a wave's units, in order.
pub open spec fn waive_order_id_seq(bs: Seq<BatchModel>) -> Seq<ID> {
    waive_units(bs).map_values(|u: OrderedArticle| u.order_id)
}

/// The distinct order ids of a wave.
pub open spec fn waive_order_ids(bs: Seq<BatchModel>) -> Set<ID> {
    order_ids_of(waive_units(bs))
}

/// The order ids that appear in two or more of the waves.
pub open spec fn split_ids(waves: Seq<WaiveModel>) -> Set<ID> {
    Set::new(
        |o: ID|
            exists|k: int, l: int|
                0 <= k < l < waves.len() && #[trigger] waive_order_ids(waves[k].1).contains(o)
                    && #[trigger] waive_order_ids(waves[l].1).contains(o),
    )
}

/// The order ids that appear in some wave before position `i`.
pub open spec fn seen_before(waves: Seq<WaiveModel>, i: int) -> Set<ID> {
    Set::new(
        |o: ID| exists|k: int| 0 <= k < i && #[trigger] waive_order_ids(waves[k].1).contains(o),
    )
}

/// The order ids that appear in two waves before position `i`.
pub open spec fn split_before(waves: Seq<WaiveModel>, i: int) -> Set<ID> {
    Set::new(
        |o: ID|
            exists|k: int, l: int|
                0 <= k < l < i && #[trigger] waive_order_ids(waves[k].1).contains(o)
                    && #[trigger] waive_order_ids(waves[l].1).contains(o),
    )
}

/// Whether some wave holds more units than the cap.
pub open spec fn has_invalid_waive(waves: Seq<WaiveModel>, cfg: Config) -> bool {
    exists|k: int| 0 <= k < waves.len() && sizes(#[trigger] waves[k].1) > cfg.max_articles_per_waive
}

/// Stage two's score of decoded waves, for a total of `order_count` orders.
pub open spec fn waive_score(waves: Seq<WaiveModel>, order_count: int, cfg: Config) -> int {
    if has_invalid_waive(waves, cfg) {
        0
    } else {
        let base = 100int / if waves.len() == 0 {
            1int
        } else {
            waves.len() as int
        };
        let bonus = order_count - split_ids(waves).len();
        if base < bonus {
            if base + bonus > 100 {
                100
            } else {
                base + bonus
            }
        } else {
            if base > 100 {
                100
            } else {
                base
            }
        }
    }
}

/// The stage-two score of wave mapping `m` over the batch list `bs`.
pub open spec fn waive_mapping_score(
    bs: Seq<BatchModel>,
    m: Seq<usize>,
    order_count: int,
    cfg: Config,
) -> int {
    waive_score(decoded(m, bs, bs.len() as int), order_count, cfg)
}

pub open spec fn waive_models(s: Seq<Waive>) -> Seq<WaiveModel> {
    s.map_values(|w: Waive| w.model())
}

/// One materialized wave: its id and its batches, in batch order.
#[derive(Debug, Clone, PartialEq, Eq)]
pub struct Waive {
    pub id: WaiveId,
    pub batches: Vec<Batch>,
}

impl Waive {
    pub open spec fn model(&self) -> WaiveModel {
        (self.id, batch_models(self.batches@))
    }

    pub fn batches(&self) -> (r: &Vec<Batch>)
        ensures
            r@ == self.batches@,
    {
        &self.batches
    }

    /// Total number of units over the wave's batches.
    pub fn num_articles(&self) -> (r: u128)
        ensures
            r == sizes(self.model().1),
    {
        let ghost s = self.model().1;
        let mut sum: u128 = 0;
        let mut j: usize = 0;
        assert(s.take(0) =~= Seq::<BatchModel>::empty());
        while j < self.batches.len()
            invariant
                j <= self.batches@.len(),
                s == batch_models(self.batches@),
                s.len() == self.batches@.len(),
                sum == sizes(s.take(j as int)),
                sum <= j * (usize::MAX as int),
            decreases self.batches@.len() - j,
        {
            assert(s.take(j + 1).drop_last() =~= s.take(j as int));
            assert(s[j as int] == self.batches@[j as int].model());
            assert(j * (usize::MAX as int) + (usize::MAX as int) == (j + 1) * (usize::MAX as int))
                by (nonlinear_arith);
            assert((j + 1) * (usize::MAX as int) < 0x1_0000_0000_0000_0000
                * 0x1_0000_0000_0000_0000) by (nonlinear_arith)
                requires
                    j < 0x1_0000_0000_0000_0000,
                    (usize::MAX as int) < 0x1_0000_0000_0000_0000,
            ;
            sum = sum + self.batches[j].num_articles() as u128;
            j += 1;
        }
        assert(s.take(j as int) =~= s);
        sum
    }

    /// The order id of each unit of the wave, batch by batch.
    pub fn order_id_list(&self) -> (r: Vec<ID>)
        ensures
            r@ == waive_order_id_seq(self.model().1),
    {
        let ghost s = self.model().1;
        let ghost lists = s.map_values(|b: BatchModel| b.1);
        let ghost f = |u: OrderedArticle| u.order_id;
        let mut r: Vec<ID> = Vec::new();
        let mut j: usize = 0;
        assert(lists.take(0) =~= Seq::<Seq<OrderedArticle>>::empty());
        assert(r@ =~= lists.take(0).flatten_alt().map_values(f));
        while j < self.batches.len()
            invariant
                j <= self.batches@.len(),
                s == batch_models(self.batches@),
                lists == s.map_values(|b: BatchModel| b.1),
                f == (|u: OrderedArticle| u.order_id),
                r@ == lists.take(j as int).flatten_alt().map_values(f),
            decreases self.batches@.len() - j,
        {
            let units = &self.batches[j].ordered_articles;
            assert(lists[j as int] == units@);
            let ghost before = r@;
            let mut k: usize = 0;
            while k < units.len()
                invariant
                    k <= units@.len(),
                    f == (|u: OrderedArticle| u.order_id),
                    r@ == before + units@.take(k as int).map_values(f),
                decreases units@.len() - k,
            {
                r.push(units[k].order_id);
                assert(r@ =~= before + units@.take(k + 1).map_values(f));
                k += 1;
            }
            proof {
                lemma_flatten_alt_take(lists, j as int);
                assert(units@.take(k as int) =~= units@);
                assert(lists.take(j + 1).flatten_alt().map_values(f) =~= before
                    + units@.map_values(f));
            }
            j += 1;
        }
        assert(lists.take(j as int) =~= lists);
        r
    }

    /// The distinct order ids of the wave's units.
    pub fn order_ids_in_waive(&self) -> (r: BTreeSet<ID>)
        ensures
            r@ == waive_order_ids(self.model().1),
    {
        let ids = self.order_id_list();
        let mut r: BTreeSet<ID> = BTreeSet::new();
        let mut i: usize = 0;
        assert(ids@.take(0) =~= Seq::<ID>::empty());
        assert(r@ =~= ids@.take(0).to_set());
        while i < ids.len()
            invariant
                i <= ids@.len(),
                r@ == ids@.take(i as int).to_set(),
            decreases ids@.len() - i,
        {
            r.insert(ids[i]);
            proof {
                let prev = ids@.take(i as int);
                assert(ids@.take(i + 1) =~= prev.push(ids@[i as int]));
                prev.lemma_push_to_set_commute(ids@[i as int]);
            }
            i += 1;
        }
        assert(ids@.take(i as int) =~= ids@);
        r
    }
}

/// A wave mapping together with the waves it decodes to.
pub struct WaivedBatches {
    waive_mapping: Vec<WaiveId>,
    waives: Vec<Waive>,
    batches: Ghost<Seq<BatchModel>>,
}

impl WaivedBatches {
    /// The mapping from batch positions to wave ids.
    pub closed spec fn mapping(&self) -> Seq<WaiveId> {
        self.waive_mapping@
    }

    /// The batches that the mapping was decoded against.
    pub closed spec fn batch_list(&self) -> Seq<BatchModel> {
        self.batches@
    }

    pub closed spec fn waive_list(&self) -> Seq<Waive> {
        self.waives@
    }

    /// The waves are exactly the decoding of the mapping.
    pub open spec fn wf(&self) -> bool {
        &&& valid_mapping(
            self.mapping(),
            self.batch_list().len() as int,
            self.batch_list().len() as int,
        )
        &&& waive_models(self.waive_list()) == decoded(
            self.mapping(),
            self.batch_list(),
            self.batch_list().len() as int,
        )
    }

    /// Decodes `waive_mapping` against stage one's batches: each batch goes to
    /// the wave its mapping entry names; empty waves are left out.
    pub fn from_waive_mapping(waive_mapping: Vec<WaiveId>, batched_articles: &BatchedArticles) -> (r:
        WaivedBatches)
        requires
            valid_mapping(
                waive_mapping@,
                batched_articles.batch_list().len() as int,
                batched_articles.batch_list().len() as int,
            ),
        ensures
            r.wf(),
            r.mapping() == waive_mapping@,
            r.batch_list() == batch_models(batched_articles.batch_list()),
    {
        let batches = batched_articles.to_batches();
        let n = batches.len();
        let ghost m = waive_mapping@;
        let ghost bs = batch_models(batches@);
        let mut groups: Vec<Vec<Batch>> = Vec::new();
        let mut c: usize = 0;
        while c < n
            invariant
                c <= n,
                groups@.len() == c,
                forall|d: int| 0 <= d < c ==> (#[trigger] groups@[d])@ == Seq::<Batch>::empty(),
            decreases n - c,
        {
            groups.push(Vec::new());
            c += 1;
        }
        proof {
            assert forall|d: int| 0 <= d < n implies batch_models((#[trigger] groups@[d])@)
                == members(m, bs, d, 0) by {
                assert(batch_models(groups@[d]@) =~= Seq::<BatchModel>::empty());
            }
        }
        let mut j: usize = 0;
        while j < n
            invariant
                j <= n,
                n == batches@.len(),
                bs == batch_models(batches@),
                m == waive_mapping@,
                valid_mapping(m, n as int, n as int),
                groups@.len() == n,
                forall|d: int|
                    0 <= d < n ==> batch_models((#[trigger] groups@[d])@) == members(
                        m,
                        bs,
                        d,
                        j as int,
                    ),
            decreases n - j,
        {
            let w = waive_mapping[j];
            let copy = batches[j].duplicate();
            let ghost before = groups@[w as int]@;
            groups[w].push(copy);
            proof {
                assert(batch_models(groups@[w as int]@) =~= batch_models(before).push(
                    bs[j as int],
                ));
                assert forall|d: int| 0 <= d < n implies batch_models((#[trigger] groups@[d])@)
                    == members(m, bs, d, j + 1) by {}
            }
            j += 1;
        }
        let mut waives: Vec<Waive> = Vec::new();
        let mut c: usize = 0;
        while c < n
            invariant
                c <= n,
                n == bs.len(),
                m == waive_mapping@,
                m.len() == n,
                groups@.len() == n,
                forall|d: int|
                    c <= d < n ==> batch_models((#[trigger] groups@[d])@) == members(
                        m,
                        bs,
                        d,
                        n as int,
                    ),
                waive_models(waives@) == decoded(m, bs, c as int),
            decreases n - c,
        {
            if groups[c].len() > 0 {
                let mut g: Vec<Batch> = Vec::new();
                std::mem::swap(&mut groups[c], &mut g);
                let waive = Waive { id: c, batches: g };
                let ghost prev = waives@;
                waives.push(waive);
                assert(waive_models(waives@) =~= waive_models(prev).push(waive.model()));
            }
            c += 1;
        }
        WaivedBatches { waive_mapping, waives, batches: Ghost(bs) }
    }

    /// Materializes a mapping handed back by a search: `None` unless it has one
    /// entry per batch, each below the batch count.
    pub fn from_search_result(waive_mapping: Vec<WaiveId>, batched_articles: &BatchedArticles) -> (r:
        Option<WaivedBatches>)
        ensures
            r is Some <==> valid_mapping(
                waive_mapping@,
                batched_articles.batch_list().len() as int,
                batched_articles.batch_list().len() as int,
            ),
            r matches Some(w) ==> w.wf() && w.mapping() == waive_mapping@ && w.batch_list()
                == batch_models(batched_articles.batch_list()),
    {
        let n = batched_articles.to_batches().len();
        if is_valid_mapping(&waive_mapping, n, n) {
            Some(WaivedBatches::from_waive_mapping(waive_mapping, batched_articles))
        } else {
            None
        }
    }

    pub fn to_waives(&self) -> (r: &Vec<Waive>)
        ensures
            r@ == self.waive_list(),
    {
        &self.waives
    }

    /// The mapping itself.
    pub fn waive_mapping(&self) -> (r: &Vec<WaiveId>)
        ensures
            r@ == self.mapping(),
    {
        &self.waive_mapping
    }

    /// Whether some order has units in two different waves.
    pub fn has_split_orders(&self) -> (r: bool)
        ensures
            r == !split_ids(waive_models(self.waive_list())).is_empty(),
    {
        !self.get_split_orders().is_empty()
    }

    /// The order ids that appear in two or more waves.
    pub fn get_split_orders(&self) -> (r: BTreeSet<ID>)
        ensures
            r@ == split_ids(waive_models(self.waive_list())),
    {
        let ghost ws = waive_models(self.waives@);
        let mut seen: BTreeSet<ID> = BTreeSet::new();
        let mut split: BTreeSet<ID> = BTreeSet::new();
        let mut i: usize = 0;
        assert(seen@ =~= seen_before(ws, 0));
        assert(split@ =~= split_before(ws, 0));
        while i < self.waives.len()
            invariant
                i <= self.waives@.len(),
                ws == waive_models(self.waives@),
                ws.len() == self.waives@.len(),
                seen@ == seen_before(ws, i as int),
                split@ == split_before(ws, i as int),
            decreases self.waives@.len() - i,
        {
            let ids = self.waives[i].order_id_list();
            let ghost here = waive_order_ids(ws[i as int].1);
            assert(ws[i as int] == self.waives@[i as int].model());
            assert(here == ids@.to_set());
            let ghost split0 = split@;
            let mut k: usize = 0;
            assert(ids@.take(0).to_set() =~= Set::<ID>::empty());
            assert(split@ =~= split0.union(seen@.intersect(ids@.take(0).to_set())));
            while k < ids.len()
                invariant
                    k <= ids@.len(),
                    split@ == split0.union(seen@.intersect(ids@.take(k as int).to_set())),
                decreases ids@.len() - k,
            {
                let o = ids[k];
                proof {
                    let prev = ids@.take(k as int);
                    assert(ids@.take(k + 1) =~= prev.push(o));
                    prev.lemma_push_to_set_commute(o);
                }
                if seen.contains(&o) {
                    split.insert(o);
                }
                assert(split@ =~= split0.union(seen@.intersect(ids@.take(k + 1).to_set())));
                k += 1;
            }
            assert(ids@.take(k as int) =~= ids@);
            let ghost seen0 = seen@;
            proof {
                assert forall|o: ID| #[trigger] split_before(ws, i + 1).contains(o) <==> (
                split0.contains(o) || (seen0.contains(o) && here.contains(o))) by {
                    if split_before(ws, i + 1).contains(o) {
                        let (a, b) = choose|a: int, b: int|
                            0 <= a < b < i + 1 && #[trigger] waive_order_ids(ws[a].1).contains(o)
                                && #[trigger] waive_order_ids(ws[b].1).contains(o);
                        if b < i {
                            assert(split_before(ws, i as int).contains(o));
                        } else {
                            assert(seen_before(ws, i as int).contains(o));
                        }
                    }
                    if seen0.contains(o) && here.contains(o) {
                        let a = choose|a: int|
                            0 <= a < i && #[trigger] waive_order_ids(ws[a].1).contains(o);
                        assert(waive_order_ids(ws[i as int].1).contains(o));
                    }
                    if split0.contains(o) {
                        let (a, b) = choose|a: int, b: int|
                            0 <= a < b < i && #[trigger] waive_order_ids(ws[a].1).contains(o)
                                && #[trigger] waive_order_ids(ws[b].1).contains(o);
                        assert(waive_order_ids(ws[b].1).contains(o));
                    }
                }
                assert(split@ =~= split_before(ws, i + 1));
            }
            let mut k: usize = 0;
            assert(seen@ =~= seen0.union(ids@.take(0).to_set()));
            while k < ids.len()
                invariant
                    k <= ids@.len(),
                    seen@ == seen0.union(ids@.take(k as int).to_set()),
                decreases ids@.len() - k,
            {
                let o = ids[k];
                proof {
                    let prev = ids@.take(k as int);
                    assert(ids@.take(k + 1) =~= prev.push(o));
                    prev.lemma_push_to_set_commute(o);
                }
                seen.insert(o);
                assert(seen@ =~= seen0.union(ids@.take(k + 1).to_set()));
                k += 1;
            }
            assert(ids@.take(k as int) =~= ids@);
            proof {
                assert forall|o: ID| #[trigger] seen_before(ws, i + 1).contains(o) <==> (
                seen0.contains(o) || here.contains(o)) by {
                    if seen_before(ws, i + 1).contains(o) {
                        let a = choose|a: int|
                            0 <= a < i + 1 && #[trigger] waive_order_ids(ws[a].1).contains(o);
                        if a < i {
                            assert(seen_before(ws, i as int).contains(o));
                        }
                    }
                    if seen0.contains(o) {
                        let a = choose|a: int|
                            0 <= a < i && #[trigger] waive_order_ids(ws[a].1).contains(o);
                        assert(waive_order_ids(ws[a].1).contains(o));
                    }
                    if here.contains(o) {
                        assert(waive_order_ids(ws[i as int].1).contains(o));
                    }
                }
                assert(seen@ =~= seen_before(ws, i + 1));
            }
            i += 1;
        }
        assert(split@ =~= split_ids(ws));
        split
    }

    /// Fixed cost of the waves: the number of distinct wave ids used, times the
    /// cost per wave.
    pub fn rest_cost(&self, cfg: &Config) -> (r: u128)
        ensures
            r == self.mapping().to_set().len() * cfg.cost_per_waive,
            r < 0x1_0000_0000_0000_0000_0000_0000,
    {
        let k = distinct_count(&self.waive_mapping) as u128;
        let c = cfg.cost_per_waive as u128;
        assert(k * c < 0x1_0000_0000_0000_0000_0000_0000) by (nonlinear_arith)
            requires
                k < 0x1_0000_0000_0000_0000,
                c < 0x1_0000_0000,
        ;
        k * c
    }
}

/// Stage two's score of `waive_mapping`: 0 when a wave holds more units than
/// the cap; else 100 divided by the number of waves, raised by a bonus of the
/// orders that no two waves share when that bonus is the larger, capped at 100.
pub fn fitness_of(
    model: &Model,
    batched_articles: &BatchedArticles,
    cfg: &Config,
    waive_mapping: &Vec<WaiveId>,
) -> (r: Fitness)
    requires
        model.wf(),
        batched_articles.wf(),
        batched_articles.units() == model.units(),
        valid_mapping(
            waive_mapping@,
            batched_articles.batch_list().len() as int,
            batched_articles.batch_list().len() as int,
        ),
    ensures
        r == waive_mapping_score(
            batch_models(batched_articles.batch_list()),
            waive_mapping@,
            model.order_count() as int,
            *cfg,
        ),
        r <= HIGHEST_FITNESS,
{
    let waived = WaivedBatches::from_waive_mapping(copy_mapping(waive_mapping), batched_articles);
    let waives = waived.to_waives();
    let ghost ws = waive_models(waives@);
    let ghost bs = batch_models(batched_articles.batch_list());
    assert(ws == decoded(waive_mapping@, bs, bs.len() as int));
    let mut i: usize = 0;
    while i < waives.len()
        invariant
            i <= waives@.len(),
            ws == waive_models(waives@),
            ws == decoded(waive_mapping@, bs, bs.len() as int),
            bs == batch_models(batched_articles.batch_list()),
            forall|k: int| 0 <= k < i ==> sizes((#[trigger] ws[k]).1) <= cfg.max_articles_per_waive,
        decreases waives@.len() - i,
    {
        assert(ws[i as int] == waives@[i as int].model());
        if waives[i].num_articles() > cfg.max_articles_per_waive as u128 {
            assert(has_invalid_waive(ws, *cfg)) by {
                assert(sizes(ws[i as int].1) > cfg.max_articles_per_waive);
            }
            return 0;
        }
        i += 1;
    }
    let count = waives.len();
    let base: usize = if count == 0 {
        100
    } else {
        100 / count
    };
    let split = waived.get_split_orders().len();
    let orders = model.num_orders();
    proof {
        lemma_split_count_bound(model, batched_articles, waive_mapping@);
    }
    let bonus: usize = orders - split;
    if base < bonus {
        if bonus > 100 - base {
            HIGHEST_FITNESS
        } else {
            base + bonus
        }
    } else {
        if base > 100 {
            HIGHEST_FITNESS
        } else {
            base
        }
    }
}

proof fn lemma_count_eq_zero(m: Seq<usize>, c: int, n: int)
    requires
        n <= m.len(),
        forall|j: int| 0 <= j < n ==> #[trigger] m[j] != c,
    ensures
        count_eq(m, c, n) == 0,
    decreases n,
{
    if n > 0 {
        lemma_count_eq_zero(m, c, n - 1);
    }
}

proof fn lemma_decoded_single<A>(m: Seq<usize>, u: Seq<A>, w: int, k: int)
    requires
        forall|j: int| 0 <= j < m.len() ==> #[trigger] m[j] == w,
    ensures
        decoded(m, u, k).len() <= 1,
    decreases k,
{
    if k > 0 {
        lemma_decoded_single(m, u, w, k - 1);
        if k - 1 != w {
            lemma_count_eq_zero(m, k - 1, m.len() as int);
            lemma_members_len(m, u, k - 1, m.len() as int);
        } else {
            lemma_decoded_none_below(m, u, w, k - 1);
        }
    }
}

proof fn lemma_decoded_none_below<A>(m: Seq<usize>, u: Seq<A>, w: int, k: int)
    requires
        k <= w,
        forall|j: int| 0 <= j < m.len() ==> #[trigger] m[j] == w,
    ensures
        decoded(m, u, k).len() == 0,
    decreases k,
{
    if k > 0 {
        lemma_decoded_none_below(m, u, w, k - 1);
        lemma_count_eq_zero(m, k - 1, m.len() as int);
        lemma_members_len(m, u, k - 1, m.len() as int);
    }
}

/// Mapping every batch to one and the same wave, with that wave within the
/// unit cap, scores exactly 100, whatever the split bonus.
pub proof fn lemma_single_waive_scores_full(
    bs: Seq<BatchModel>,
    m: Seq<usize>,
    order_count: int,
    cfg: Config,
)
    requires
        valid_mapping(m, bs.len() as int, bs.len() as int),
        forall|j: int| 0 <= j < m.len() ==> #[trigger] m[j] == m[0],
        !has_invalid_waive(decoded(m, bs, bs.len() as int), cfg),
    ensures
        waive_mapping_score(bs, m, order_count, cfg) == 100,
{
    if m.len() > 0 {
        lemma_decoded_single(m, bs, m[0] as int, bs.len() as int);
    } else {
        assert(decoded(m, bs, bs.len() as int).len() == 0);
    }
}

/// A wave mapping under which no order has units in two waves and no wave is
/// over the unit cap scores above 0; its split diagnostic (`has_split_orders`)
/// is then false.
pub proof fn lemma_unsplit_waives_score_positive(
    model: &Model,
    batched_articles: &BatchedArticles,
    m: Seq<usize>,
    cfg: Config,
)
    requires
        model.wf(),
        batched_articles.wf(),
        batched_articles.units() == model.units(),
        valid_mapping(
            m,
            batched_articles.batch_list().len() as int,
            batched_articles.batch_list().len() as int,
        ),
        !has_invalid_waive(
            decoded(
                m,
                batch_models(batched_articles.batch_list()),
                batched_articles.batch_list().len() as int,
            ),
            cfg,
        ),
        split_ids(
            decoded(
                m,
                batch_models(batched_articles.batch_list()),
                batched_articles.batch_list().len() as int,
            ),
        ).is_empty(),
    ensures
        waive_mapping_score(
            batch_models(batched_articles.batch_list()),
            m,
            model.order_count() as int,
            cfg,
        ) > 0,
{
    let bs = batch_models(batched_articles.batch_list());
    let ws = decoded(m, bs, bs.len() as int);
    assert(split_ids(ws) =~= Set::<ID>::empty());
    if ws.len() > 100 {
        let stage_one = decoded(
            batched_articles.mapping(),
            batched_articles.units(),
            batched_articles.units().len() as int,
        );
        let n = batched_articles.units().len();
        lemma_decoded_shape(
            batched_articles.mapping(),
            batched_articles.units(),
            n as int,
        );
        assert(stage_one == bs);
        lemma_decoded_shape(m, bs, bs.len() as int);
        assert(bs.len() > 0);
        assert(batched_articles.mapping().len() == n);
        lemma_decode_keeps_every_unit(batched_articles.mapping(), batched_articles.units());
        lemma_sizes_take(stage_one, 1);
        assert(stage_one.take(1).drop_last() =~= Seq::<BatchModel>::empty());
        assert(n > 0);
        model.lemma_units_need_orders();
    } else if ws.len() > 0 {
        let wc = ws.len() as int;
        assert(100int / wc >= 1) by (nonlinear_arith)
            requires
                1 <= wc <= 100,
        ;
    }
}

/// Every order id of a wave is the order id of one of the catalog's units.
proof fn lemma_waive_ids_within_units(batched_articles: &BatchedArticles, m: Seq<usize>)
    requires
        batched_articles.wf(),
        valid_mapping(
            m,
            batched_articles.batch_list().len() as int,
            batched_articles.batch_list().len() as int,
        ),
    ensures
        forall|k: int|
            0 <= k < decoded(
                m,
                batch_models(batched_articles.batch_list()),
                batched_articles.batch_list().len() as int,
            ).len() ==> waive_order_ids(
                (#[trigger] decoded(
                    m,
                    batch_models(batched_articles.batch_list()),
                    batched_articles.batch_list().len() as int,
                )[k]).1,
            ).subset_of(order_ids_of(batched_articles.units())),
{
    let units = batched_articles.units();
    let n = units.len() as int;
    let m1 = batched_articles.mapping();
    let bs = batch_models(batched_articles.batch_list());
    let ws = decoded(m, bs, bs.len() as int);
    let f = |x: OrderedArticle| x.order_id;
    lemma_decoded_shape(m1, units, n);
    lemma_decoded_shape(m, bs, bs.len() as int);
    assert forall|k: int| 0 <= k < ws.len() implies waive_order_ids(
        (#[trigger] ws[k]).1,
    ).subset_of(order_ids_of(units)) by {
        let wb = ws[k].1;
        let lists = wb.map_values(|b: BatchModel| b.1);
        assert forall|o: ID| waive_order_ids(wb).contains(o) implies order_ids_of(units).contains(
            o,
        ) by {
            let wu = waive_units(wb);
            let p = choose|p: int| 0 <= p < wu.map_values(f).len() && wu.map_values(f)[p] == o;
            lemma_flatten_alt_member(lists, p);
            let (i, j) = choose|i: int, j: int|
                0 <= i < lists.len() && 0 <= j < lists[i].len() && lists[i][j]
                    == lists.flatten_alt()[p];
            lemma_members_from(m, bs, ws[k].0 as int, m.len() as int, i);
            let t = choose|t: int|
                0 <= t < m.len() && #[trigger] bs[t] == members(
                    m,
                    bs,
                    ws[k].0 as int,
                    m.len() as int,
                )[i];
            assert(bs[t] == wb[i]);
            lemma_members_from(m1, units, bs[t].0 as int, m1.len() as int, j);
            let r = choose|r: int|
                0 <= r < m1.len() && #[trigger] units[r] == members(
                    m1,
                    units,
                    bs[t].0 as int,
                    m1.len() as int,
                )[j];
            assert(units.map_values(f)[r] == o);
        }
    }
}

/// No more orders are split across waves than there are orders.
pub proof fn lemma_split_count_bound(
    model: &Model,
    batched_articles: &BatchedArticles,
    m: Seq<usize>,
)
    requires
        model.wf(),
        batched_articles.wf(),
        batched_articles.units() == model.units(),
        valid_mapping(
            m,
            batched_articles.batch_list().len() as int,
            batched_articles.batch_list().len() as int,
        ),
    ensures
        split_ids(
            decoded(
                m,
                batch_models(batched_articles.batch_list()),
                batched_articles.batch_list().len() as int,
            ),
        ).finite(),
        split_ids(
            decoded(
                m,
                batch_models(batched_articles.batch_list()),
                batched_articles.batch_list().len() as int,
            ),
        ).len() <= model.order_count(),
{
    let bs = batch_models(batched_articles.batch_list());
    let ws = decoded(m, bs, bs.len() as int);
    lemma_waive_ids_within_units(batched_articles, m);
    assert forall|o: ID| split_ids(ws).contains(o) implies order_ids_of(model.units()).contains(o) by {
        let (k, l) = choose|k: int, l: int|
            0 <= k < l < ws.len() && #[trigger] waive_order_ids(ws[k].1).contains(o)
                && #[trigger] waive_order_ids(ws[l].1).contains(o);
        assert(waive_order_ids(ws[k].1).subset_of(order_ids_of(batched_articles.units())));
    }
    model.lemma_order_ids_bound();
    vstd::set_lib::lemma_len_subset(split_ids(ws), order_ids_of(model.units()));
}

} // verus!
