use waveplan::config::Config;
use waveplan::ga::batches::{self, WaivedBatches};
use waveplan::ga::genome::{average, distinct_count, is_valid_mapping, GenomeConfig};
use waveplan::ga::orders::{self, BatchedArticles};
use waveplan::input::{Article, ArticleLocation, Input, Order};
use waveplan::model::{Articles, InputError, Model};
use waveplan::output::{overall_cost, Item, Output};

fn location(article_id: u16, warehouse: u16, aisle: u16) -> ArticleLocation {
    ArticleLocation { warehouse, aisle, position: 0, article_id }
}

fn article(article_id: u16, volume: u16) -> Article {
    Article { article_id, volume }
}

fn order(order_id: u16, article_ids: Vec<u16>) -> Order {
    Order { order_id, article_ids }
}

/// Two orders of one unit each, both volume 100, same warehouse and aisle.
fn two_order_input() -> Input {
    Input {
        article_locations: vec![location(1, 1, 1), location(2, 1, 1)],
        orders: vec![order(10, vec![1]), order(20, vec![2])],
        articles: vec![article(1, 100), article(2, 100)],
    }
}

/// Three orders over two warehouses.
fn mixed_input() -> Input {
    Input {
        article_locations: vec![location(1, 1, 1), location(2, 1, 2), location(3, 2, 1)],
        orders: vec![order(1, vec![1, 2]), order(2, vec![3]), order(3, vec![1, 3])],
        articles: vec![article(1, 100), article(2, 200), article(3, 300)],
    }
}

fn config_with_limits(max_weight: u64, max_articles: u64) -> Config {
    let mut cfg = Config::standard();
    cfg.max_weight_per_batch = max_weight;
    cfg.max_articles_per_waive = max_articles;
    cfg
}

#[test]
fn catalog_lists_units_order_by_order() {
    let model = Model::from_input(&mixed_input()).unwrap();
    let units = model.get_ordered_articles();
    let pairs: Vec<(u16, u16)> = units.iter().map(|u| (u.order_id, u.id)).collect();
    assert_eq!(pairs, vec![(1, 1), (1, 2), (2, 3), (3, 1), (3, 3)]);
    assert_eq!(units[1].volume, 200);
    assert_eq!(units[2].location.warehouse, 2);
    assert_eq!(model.max_batches_num(), 5);
    assert_eq!(model.num_orders(), 3);
    assert_eq!(model.num_warehouses_of_orders(), 2);
    assert_eq!(model.num_aisles_of_orders(), 3);
}

#[test]
fn catalog_takes_first_matching_rows() {
    let input = Input {
        article_locations: vec![location(1, 4, 5), location(1, 6, 7)],
        orders: vec![order(1, vec![1])],
        articles: vec![article(1, 30), article(1, 40)],
    };
    let model = Model::from_input(&input).unwrap();
    let units = model.get_ordered_articles();
    assert_eq!(units[0].volume, 30);
    assert_eq!((units[0].location.warehouse, units[0].location.aisle), (4, 5));
}

#[test]
fn catalog_rejects_article_without_volume() {
    let mut input = mixed_input();
    input.articles.remove(1);
    assert_eq!(Model::from_input(&input).err(), Some(InputError::MissingVolume(2)));
}

#[test]
fn catalog_rejects_article_without_location() {
    let mut input = mixed_input();
    input.article_locations.remove(2);
    assert_eq!(Model::from_input(&input).err(), Some(InputError::MissingLocation(3)));
}

#[test]
fn catalog_reports_first_unresolved_unit() {
    let input = Input {
        article_locations: vec![location(1, 1, 1)],
        orders: vec![order(1, vec![1, 7]), order(2, vec![5])],
        articles: vec![article(1, 10), article(7, 10)],
    };
    assert_eq!(Model::from_input(&input).err(), Some(InputError::MissingLocation(7)));
}

#[test]
fn max_items_per_batch_takes_smallest_first() {
    let model = Model::from_input(&mixed_input()).unwrap();
    // volumes 100, 200, 300, 100, 300: sorted 100, 100, 200, 300, 300
    assert_eq!(model.max_items_per_batch(&config_with_limits(400, 250)), 3);
    assert_eq!(model.max_items_per_batch(&config_with_limits(399, 250)), 2);
    assert_eq!(model.max_items_per_batch(&config_with_limits(1000, 250)), 5);
    assert_eq!(model.max_items_per_batch(&config_with_limits(50, 250)), 0);
}

#[test]
fn genome_bounds_cover_every_item() {
    assert_eq!(GenomeConfig::for_items(0), None);
    let g = GenomeConfig::for_items(4).unwrap();
    assert_eq!((g.length, g.min_value, g.max_value), (4, 0, 4));
}

#[test]
fn search_result_must_fit_the_catalog() {
    let model = Model::from_input(&mixed_input()).unwrap();
    assert!(BatchedArticles::from_search_result(vec![0, 1, 2, 3], &model).is_none());
    assert!(BatchedArticles::from_search_result(vec![0, 1, 2, 3, 5], &model).is_none());
    let b = BatchedArticles::from_search_result(vec![4, 1, 2, 3, 0], &model).unwrap();
    assert_eq!(b.len(), 5);
    assert!(b.batch_mapping().iter().all(|&v| v < model.max_batches_num()));
    assert!(is_valid_mapping(&vec![0, 4], 2, 5));
    assert!(!is_valid_mapping(&vec![0, 5], 2, 5));
    assert!(!is_valid_mapping(&vec![0], 2, 5));
}

#[test]
fn decoding_keeps_every_unit_once() {
    let model = Model::from_input(&mixed_input()).unwrap();
    for mapping in [vec![0, 0, 0, 0, 0], vec![4, 3, 2, 1, 0], vec![2, 0, 2, 4, 0]] {
        let b = BatchedArticles::from_batch_mapping(mapping, &model);
        let total: usize = b.to_batches().iter().map(|x| x.num_articles()).sum();
        assert_eq!(total, 5);
    }
}

#[test]
fn decoding_drops_empty_batches_and_keeps_ids() {
    let model = Model::from_input(&mixed_input()).unwrap();
    let b = BatchedArticles::from_batch_mapping(vec![2, 0, 2, 4, 0], &model);
    let batches = b.to_batches();
    let ids: Vec<usize> = batches.iter().map(|x| x.id).collect();
    assert_eq!(ids, vec![0, 2, 4]);
    let first: Vec<(u16, u16)> =
        batches[0].ordered_articles().iter().map(|u| (u.order_id, u.id)).collect();
    assert_eq!(first, vec![(1, 2), (3, 3)]);
    assert_eq!(batches[0].volume(), 500);
    assert_eq!(batches[0].order_ids_in_batch().into_iter().collect::<Vec<_>>(), vec![1, 3]);
}

#[test]
fn decoding_is_deterministic() {
    let model = Model::from_input(&mixed_input()).unwrap();
    let a = BatchedArticles::from_batch_mapping(vec![1, 1, 3, 0, 3], &model);
    let b = BatchedArticles::from_batch_mapping(vec![1, 1, 3, 0, 3], &model);
    assert_eq!(a.to_batches(), b.to_batches());
    let wa = WaivedBatches::from_waive_mapping(vec![2, 0, 2], &a);
    let wb = WaivedBatches::from_waive_mapping(vec![2, 0, 2], &b);
    assert_eq!(wa.to_waives(), wb.to_waives());
}

#[test]
fn batch_at_volume_limit_is_feasible() {
    let cfg = config_with_limits(200, 250);
    let model = Model::from_input(&two_order_input()).unwrap();
    let b = BatchedArticles::from_batch_mapping(vec![0, 0], &model);
    assert_eq!(b.to_batches()[0].volume(), 200);
    assert_eq!(b.to_batches()[0].fitness(&cfg), Some(25));
    assert!(orders::fitness_of(&model, &cfg, &vec![0, 0]) > 0);
}

#[test]
fn batch_over_volume_limit_scores_zero() {
    let cfg = config_with_limits(199, 250);
    let model = Model::from_input(&two_order_input()).unwrap();
    let b = BatchedArticles::from_batch_mapping(vec![1, 1], &model);
    assert_eq!(b.to_batches()[0].fitness(&cfg), None);
    assert_eq!(b.tour_cost(&cfg), None);
    assert_eq!(orders::fitness_of(&model, &cfg, &vec![1, 1]), 0);
    assert_eq!(orders::fitness_of(&model, &cfg, &vec![0, 1]), 30);
}

#[test]
fn stage_one_score_formula() {
    let cfg = Config::standard();
    let model = Model::from_input(&mixed_input()).unwrap();
    // reference: 2 warehouses * 10 + 3 aisle pairs * 5 = 35
    assert_eq!(orders::best_batch_fitness_approx(&model), 35);
    // one batch: 2*10 + 3*5 + 10 = 45, 35*100/45 = 77
    assert_eq!(orders::fitness_of(&model, &cfg, &vec![0, 0, 0, 0, 0]), 77);
    // five batches of one unit: 5 * (10 + 5 + 10) = 125, 3500/125 = 28
    assert_eq!(orders::fitness_of(&model, &cfg, &vec![0, 1, 2, 3, 4]), 28);
    assert_eq!(orders::score_of_cost(35, Some(0)), 100);
    assert_eq!(orders::score_of_cost(35, Some(10)), 100);
    assert_eq!(orders::score_of_cost(35, None), 0);
}

#[test]
fn rest_cost_counts_distinct_ids() {
    let cfg = Config::standard();
    let model = Model::from_input(&mixed_input()).unwrap();
    let b = BatchedArticles::from_batch_mapping(vec![2, 0, 2, 4, 0], &model);
    assert_eq!(b.rest_cost(&cfg), 30);
    assert_eq!(distinct_count(&vec![3, 3, 1, 0, 1]), 3);
    assert_eq!(distinct_count(&vec![]), 0);
}

#[test]
fn unsplit_waves_score_positive() {
    let cfg = Config::standard();
    let model = Model::from_input(&mixed_input()).unwrap();
    // batch 0: order 1's units; batch 1: order 2's; batch 2: order 3's
    let b = BatchedArticles::from_batch_mapping(vec![0, 0, 1, 2, 2], &model);
    assert_eq!(b.to_batches().len(), 3);
    let mapping = vec![0, 1, 2];
    let w = WaivedBatches::from_waive_mapping(mapping.clone(), &b);
    assert!(!w.has_split_orders());
    // base 100 / 3 = 33; bonus 3 - 0 = 3; base is the larger
    assert_eq!(batches::fitness_of(&model, &b, &cfg, &mapping), 33);
}

#[test]
fn split_orders_are_detected() {
    let cfg = Config::standard();
    let model = Model::from_input(&mixed_input()).unwrap();
    // batch 0 holds orders 1 and 3, batch 1 holds orders 2 and 3
    let b = BatchedArticles::from_batch_mapping(vec![0, 0, 1, 0, 1], &model);
    let w = WaivedBatches::from_waive_mapping(vec![0, 1], &b);
    assert!(w.has_split_orders());
    assert_eq!(w.get_split_orders().into_iter().collect::<Vec<_>>(), vec![3]);
    // base 100 / 2 = 50; bonus 3 - 1 = 2
    assert_eq!(batches::fitness_of(&model, &b, &cfg, &vec![0, 1]), 50);
}

#[test]
fn split_bonus_lifts_a_weak_base() {
    let units: Vec<u16> = (1..=200).collect();
    let input = Input {
        article_locations: units.iter().map(|&a| location(a, 1, 1)).collect(),
        orders: units.iter().map(|&a| order(a, vec![a])).collect(),
        articles: units.iter().map(|&a| article(a, 1)).collect(),
    };
    let cfg = Config::standard();
    let model = Model::from_input(&input).unwrap();
    let b = BatchedArticles::from_batch_mapping((0..200).collect(), &model);
    assert_eq!(b.to_batches().len(), 200);
    // 200 waves: base 0; bonus 200 - 0 = 200, capped at 100
    assert_eq!(batches::fitness_of(&model, &b, &cfg, &(0..200).collect()), 100);
    // 150 waves of one batch and 25 of two: base 0, bonus 200
    let mapping: Vec<usize> = (0..200).map(|i| if i < 50 { i / 2 } else { i }).collect();
    assert_eq!(batches::fitness_of(&model, &b, &cfg, &mapping), 100);
}

#[test]
fn waves_over_capacity_score_zero() {
    let cfg = config_with_limits(1000, 2);
    let model = Model::from_input(&mixed_input()).unwrap();
    let b = BatchedArticles::from_batch_mapping(vec![0, 0, 1, 2, 2], &model);
    assert_eq!(batches::fitness_of(&model, &b, &cfg, &vec![0, 0, 1]), 0);
    assert_eq!(batches::fitness_of(&model, &b, &cfg, &vec![0, 1, 2]), 33);
}

#[test]
fn single_wave_scores_full() {
    let cfg = Config::standard();
    let model = Model::from_input(&mixed_input()).unwrap();
    let b = BatchedArticles::from_batch_mapping(vec![0, 1, 2, 3, 4], &model);
    assert_eq!(batches::fitness_of(&model, &b, &cfg, &vec![3, 3, 3, 3, 3]), 100);
    let w = WaivedBatches::from_waive_mapping(vec![3, 3, 3, 3, 3], &b);
    assert_eq!(w.to_waives().len(), 1);
    assert_eq!(w.to_waives()[0].num_articles(), 5);
    assert_eq!(w.to_waives()[0].order_ids_in_waive().into_iter().collect::<Vec<_>>(), vec![1, 2, 3]);
}

#[test]
fn two_orders_end_to_end() {
    let cfg = config_with_limits(1000, 250);
    let model = Model::from_input(&two_order_input()).unwrap();
    let b = BatchedArticles::from_search_result(vec![1, 1], &model).unwrap();
    assert_eq!(b.to_batches().len(), 1);
    // 1 warehouse * 10 + 1 aisle * 5 + 10 per batch
    assert_eq!(b.tour_cost(&cfg), Some(25));
    assert_eq!(b.rest_cost(&cfg), 10);
    assert_eq!(orders::fitness_of(&model, &cfg, &vec![1, 1]), 60);
    let w = WaivedBatches::from_search_result(vec![0], &b).unwrap();
    assert_eq!(w.to_waives().len(), 1);
    assert_eq!(w.rest_cost(&cfg), 10);
    assert_eq!(batches::fitness_of(&model, &b, &cfg, &vec![0]), 100);
    assert_eq!(overall_cost(&b, &w, &cfg), Some(45));
}

#[test]
fn report_lists_waves_and_batches() {
    let model = Model::from_input(&mixed_input()).unwrap();
    let b = BatchedArticles::from_batch_mapping(vec![2, 0, 2, 4, 0], &model);
    let w = WaivedBatches::from_waive_mapping(vec![1, 1, 0], &b);
    let out = Output::new(&b, &w);
    assert_eq!(out.waves.len(), 2);
    assert_eq!(out.waves[0].wave_id, 0);
    assert_eq!(out.waves[0].batch_ids, vec![4]);
    assert_eq!(out.waves[0].order_ids, vec![3]);
    assert_eq!(out.waves[0].wave_size, 1);
    assert_eq!(out.waves[1].batch_ids, vec![0, 2]);
    assert_eq!(out.waves[1].order_ids, vec![1, 2, 3]);
    assert_eq!(out.waves[1].wave_size, 4);
    assert_eq!(out.batches.len(), 3);
    assert_eq!(out.batches[1].batch_id, 2);
    assert_eq!(
        out.batches[1].items,
        vec![Item { order_id: 1, article_id: 1 }, Item { order_id: 2, article_id: 3 }]
    );
    assert_eq!(out.batches[1].batch_volume, 400);
}

#[test]
fn average_rounds_down() {
    assert_eq!(average(&[10, 20, 31]), 20);
    assert_eq!(average(&[100]), 100);
    assert_eq!(average(&[usize::MAX, usize::MAX]), usize::MAX);
}

#[test]
fn standard_rules() {
    let cfg = Config::standard();
    assert_eq!(cfg.max_weight_per_batch, 1000);
    assert_eq!(cfg.max_articles_per_waive, 250);
    assert_eq!(cfg.cost_per_warehouse, 10);
    assert_eq!(cfg.cost_per_aisle, 5);
}

#[test]
fn articles_resolve_each_ordered_id_once() {
    let articles = Articles::from_input(&mixed_input()).unwrap();
    let a = articles.get_article(2);
    assert_eq!((a.id, a.volume, a.location.warehouse, a.location.aisle), (2, 200, 1, 2));
    let b = articles.get_article(3);
    assert_eq!((b.volume, b.location.warehouse), (300, 2));
}

#[test]
fn empty_catalog_decodes_to_nothing() {
    let input = Input { article_locations: vec![], orders: vec![], articles: vec![] };
    let model = Model::from_input(&input).unwrap();
    assert_eq!(model.max_batches_num(), 0);
    let b = BatchedArticles::from_search_result(vec![], &model).unwrap();
    assert!(b.to_batches().is_empty());
    assert_eq!(b.tour_cost(&Config::standard()), Some(0));
    let w = WaivedBatches::from_search_result(vec![], &b).unwrap();
    assert!(w.to_waives().is_empty());
    assert!(!w.has_split_orders());
    assert_eq!(overall_cost(&b, &w, &Config::standard()), Some(0));
}

#[test]
fn waves_keep_their_batches_in_order() {
    let model = Model::from_input(&mixed_input()).unwrap();
    let b = BatchedArticles::from_batch_mapping(vec![0, 1, 2, 3, 4], &model);
    let w = WaivedBatches::from_search_result(vec![1, 0, 1, 0, 1], &b).unwrap();
    assert_eq!(w.waive_mapping(), &vec![1, 0, 1, 0, 1]);
    let waves = w.to_waives();
    assert_eq!(waves.len(), 2);
    assert_eq!(waves[0].batches().iter().map(|x| x.id).collect::<Vec<_>>(), vec![1, 3]);
    assert_eq!(waves[1].batches().iter().map(|x| x.id).collect::<Vec<_>>(), vec![0, 2, 4]);
    assert_eq!(waves[1].num_articles(), 3);
    assert!(WaivedBatches::from_search_result(vec![1, 0, 5, 0, 1], &b).is_none());
}
