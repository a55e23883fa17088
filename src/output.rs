//! The final report: waves and batches as plain rows.
use crate::ga::batches::{waive_models, waive_order_ids, WaiveId, WaiveModel, WaivedBatches};
use crate::config::Config;
use crate::ga::orders::{batch_models, sizes, total_cost, BatchId, BatchModel, BatchedArticles};
use crate::model::{sort_ascending, volume_sum, volumes_of, OrderedArticle, ID};
use std::collections::BTreeSet;
use vstd::prelude::*;

verus! {

/// One picked unit in the report: its order and its article.
#[derive(Debug, Clone, Copy, PartialEq, Eq, Structural)]
pub struct Item {
    pub order_id: ID,
    pub article_id: ID,
}

/// One wave in the report.
#[derive(Debug, Clone, PartialEq, Eq)]
pub struct Wave {
    pub wave_id: WaiveId,
    pub batch_ids: Vec<BatchId>,
    /// Every order the wave touches, each once, in ascending order.
    pub order_ids: Vec<ID>,
    /// Total number of units in the wave.
    pub wave_size: u128,
}

/// One batch in the report.
#[derive(Debug, Clone, PartialEq, Eq)]
pub struct Batch {
    pub batch_id: BatchId,
    pub items: Vec<Item>,
    pub batch_volume: u128,
}

/// The report of a finished plan.
#[derive(Debug, Clone, PartialEq, Eq)]
pub struct Output {
    pub waves: Vec<Wave>,
    pub batches: Vec<Batch>,
}

pub open spec fn item_of(u: OrderedArticle) -> Item {
    Item { order_id: u.order_id, article_id: u.id }
}

/// Whether `w` reports the wave `model` at position `k`.
pub open spec fn reports_waive(w: Wave, model: WaiveModel, k: int) -> bool {
    &&& w.wave_id == k
    &&& w.batch_ids@ == model.1.map_values(|b: BatchModel| b.0)
    &&& strictly_ascending(w.order_ids@)
    &&& w.order_ids@.to_set() == waive_order_ids(model.1)
    &&& w.wave_size == sizes(model.1)
}

/// Whether `b` reports the batch `model`.
pub open spec fn reports_batch(b: Batch, model: BatchModel) -> bool {
    &&& b.batch_id == model.0
    &&& b.items@ == model.1.map_values(|u: OrderedArticle| item_of(u))
    &&& b.batch_volume == volume_sum(volumes_of(model.1))
}

pub open spec fn strictly_ascending(s: Seq<ID>) -> bool {
    forall|i: int, j: int| 0 <= i < j < s.len() ==> s[i] < s[j]
}

/// Each distinct value of `ids`, in ascending order.
fn distinct_ascending(ids: &Vec<ID>) -> (r: Vec<ID>)
    ensures
        strictly_ascending(r@),
        r@.to_set() == ids@.to_set(),
{
    let mut r = distinct_in_order(ids);
    let ghost before = r@;
    sort_ascending(&mut r);
    proof {
        before.lemma_multiset_has_no_duplicates();
        before.to_multiset_ensures();
        r@.to_multiset_ensures();
        assert forall|x: ID| r@.to_multiset().contains(x) implies r@.to_multiset().count(x)
            == 1 by {
            assert(before.to_multiset().contains(x));
        }
        r@.lemma_multiset_has_no_duplicates_conv();
        assert forall|x: ID| r@.to_set().contains(x) <==> before.to_set().contains(x) by {
            assert(r@.contains(x) <==> r@.to_multiset().count(x) > 0);
            assert(before.contains(x) <==> before.to_multiset().count(x) > 0);
        }
        assert(r@.to_set() =~= before.to_set());
        assert forall|i: int, j: int| 0 <= i < j < r@.len() implies r@[i] < r@[j] by {
            assert(r@[i] <= r@[j]);
            assert(r@[i] != r@[j]);
        }
    }
    r
}

/// Each distinct value of `ids`, in order of first appearance.
fn distinct_in_order(ids: &Vec<ID>) -> (r: Vec<ID>)
    ensures
        r@.no_duplicates(),
        r@.to_set() == ids@.to_set(),
{
    let mut seen: BTreeSet<ID> = BTreeSet::new();
    let mut r: Vec<ID> = Vec::new();
    let mut i: usize = 0;
    assert(ids@.take(0) =~= Seq::<ID>::empty());
    assert(r@.to_set() =~= ids@.take(0).to_set());
    while i < ids.len()
        invariant
            i <= ids@.len(),
            r@.no_duplicates(),
            seen@ == r@.to_set(),
            r@.to_set() == ids@.take(i as int).to_set(),
        decreases ids@.len() - i,
    {
        let o = ids[i];
        proof {
            let prev = ids@.take(i as int);
            assert(ids@.take(i + 1) =~= prev.push(o));
            prev.lemma_push_to_set_commute(o);
            r@.lemma_push_to_set_commute(o);
        }
        if !seen.contains(&o) {
            seen.insert(o);
            r.push(o);
        }
        i += 1;
    }
    assert(ids@.take(i as int) =~= ids@);
    r
}

impl Output {
    /// The report of stage one's batches and stage two's waves: waves are
    /// numbered by their position in the wave list.
    pub fn new(batched_articles: &BatchedArticles, waived_batches: &WaivedBatches) -> (r: Output)
        ensures
            r.waves@.len() == waived_batches.waive_list().len(),
            forall|k: int|
                0 <= k < r.waves@.len() ==> reports_waive(
                    #[trigger] r.waves@[k],
                    waive_models(waived_batches.waive_list())[k],
                    k,
                ),
            r.batches@.len() == batched_articles.batch_list().len(),
            forall|k: int|
                0 <= k < r.batches@.len() ==> reports_batch(
                    #[trigger] r.batches@[k],
                    batch_models(batched_articles.batch_list())[k],
                ),
    {
        let waives = waived_batches.to_waives();
        let ghost ws = waive_models(waives@);
        let mut waves: Vec<Wave> = Vec::new();
        let mut k: usize = 0;
        while k < waives.len()
            invariant
                k <= waives@.len(),
                ws == waive_models(waives@),
                waves@.len() == k,
                forall|q: int| 0 <= q < k ==> reports_waive(#[trigger] waves@[q], ws[q], q),
            decreases waives@.len() - k,
        {
            let waive = &waives[k];
            assert(ws[k as int] == waive.model());
            let mut batch_ids: Vec<BatchId> = Vec::new();
            let mut j: usize = 0;
            while j < waive.batches.len()
                invariant
                    j <= waive.batches@.len(),
                    batch_ids@ == waive.model().1.map_values(|b: BatchModel| b.0).take(j as int),
                decreases waive.batches@.len() - j,
            {
                batch_ids.push(waive.batches[j].id);
                assert(batch_ids@ =~= waive.model().1.map_values(|b: BatchModel| b.0).take(j + 1));
                j += 1;
            }
            assert(batch_ids@ =~= waive.model().1.map_values(|b: BatchModel| b.0));
            let order_ids = distinct_ascending(&waive.order_id_list());
            let wave_size = waive.num_articles();
            let wave = Wave { wave_id: k, batch_ids, order_ids, wave_size };
            waves.push(wave);
            k += 1;
        }
        let batch_list = batched_articles.to_batches();
        let ghost bs = batch_models(batch_list@);
        let mut batches: Vec<Batch> = Vec::new();
        let mut k: usize = 0;
        while k < batch_list.len()
            invariant
                k <= batch_list@.len(),
                bs == batch_models(batch_list@),
                batches@.len() == k,
                forall|q: int| 0 <= q < k ==> reports_batch(#[trigger] batches@[q], bs[q]),
            decreases batch_list@.len() - k,
        {
            let batch = &batch_list[k];
            assert(bs[k as int] == batch.model());
            let units = batch.ordered_articles();
            let mut items: Vec<Item> = Vec::new();
            let mut j: usize = 0;
            while j < units.len()
                invariant
                    j <= units@.len(),
                    items@ == units@.map_values(|u: OrderedArticle| item_of(u)).take(j as int),
                decreases units@.len() - j,
            {
                items.push(Item { order_id: units[j].order_id, article_id: units[j].id });
                assert(items@ =~= units@.map_values(|u: OrderedArticle| item_of(u)).take(j + 1));
                j += 1;
            }
            assert(items@ =~= units@.map_values(|u: OrderedArticle| item_of(u)));
            let row = Batch { batch_id: batch.id, items, batch_volume: batch.volume() };
            batches.push(row);
            k += 1;
        }
        Output { waves, batches }
    }
}

/// The cost of a whole plan: the batches' total tour cost plus the fixed costs
/// of the batches and of the waves; `None` when a batch is over the volume limit.
pub fn overall_cost(
    batched_articles: &BatchedArticles,
    waived_batches: &WaivedBatches,
    cfg: &Config,
) -> (r: Option<u128>)
    requires
        batched_articles.wf(),
    ensures
        r == (match total_cost(batch_models(batched_articles.batch_list()), *cfg) {
            Some(t) => Some(
                (t + batched_articles.mapping().to_set().len() * cfg.cost_per_batch
                    + waived_batches.mapping().to_set().len() * cfg.cost_per_waive) as u128,
            ),
            None => None,
        }),
{
    match batched_articles.tour_cost(cfg) {
        None => None,
        Some(tour) => {
            proof {
                let n = batched_articles.units().len() as int;
                let per_unit = (cfg.cost_per_warehouse + cfg.cost_per_aisle + cfg.cost_per_batch) as int;
                assert(n * per_unit <= 0x1_0000_0000_0000_0000 * 0x4_0000_0000) by (nonlinear_arith)
                    requires
                        0 <= n <= usize::MAX,
                        0 <= per_unit < 0x4_0000_0000,
                ;
            }
            let rest = batched_articles.rest_cost(cfg) + waived_batches.rest_cost(cfg);
            Some(tour + rest)
        },
    }
}

} // verus!
