//! The catalog: every ordered-article unit with its volume and location.
use crate::config::Config;
use crate::input;
use std::collections::{BTreeMap, BTreeSet};
use vstd::prelude::*;
use vstd::seq_lib::lemma_flatten_alt_concat;

verus! {

pub type ID = u16;

/// A (warehouse, aisle) position.
#[derive(Debug, Clone, Copy, PartialEq, Eq, Structural)]
pub struct ArticleLocation {
    pub warehouse: ID,
    pub aisle: ID,
}

/// A catalog entry: one per distinct article id.
#[derive(Debug, Clone, Copy, PartialEq, Eq, Structural)]
pub struct Article {
    pub id: ID,
    pub volume: u16,
    pub location: ArticleLocation,
}

/// One occurrence of an article inside one order.
#[derive(Debug, Clone, Copy, PartialEq, Eq, Structural)]
pub struct OrderedArticle {
    pub order_id: ID,
    pub id: ID,
    pub volume: u16,
    pub location: ArticleLocation,
}

/// An ordered article that the input does not describe fully.
#[derive(Debug, Clone, Copy, PartialEq, Eq, Structural)]
pub enum InputError {
    /// No volume row for this article id.
    MissingVolume(ID),
    /// A volume row but no location row for this article id.
    MissingLocation(ID),
}

/// The volume of the first volume row for `id`.
pub open spec fn lookup_volume(rows: Seq<input::Article>, id: ID) -> Option<u16>
    decreases rows.len(),
{
    if rows.len() == 0 {
        None
    } else if rows[0].article_id == id {
        Some(rows[0].volume)
    } else {
        lookup_volume(rows.drop_first(), id)
    }
}

/// The location of the first location row for `id`.
pub open spec fn lookup_location(rows: Seq<input::ArticleLocation>, id: ID) -> Option<
    ArticleLocation,
>
    decreases rows.len(),
{
    if rows.len() == 0 {
        None
    } else if rows[0].article_id == id {
        Some(ArticleLocation { warehouse: rows[0].warehouse, aisle: rows[0].aisle })
    } else {
        lookup_location(rows.drop_first(), id)
    }
}

/// Whether the input gives `id` both a volume and a location.
pub open spec fn resolves(inp: input::Input, id: ID) -> bool {
    &&& lookup_volume(inp.articles@, id) is Some
    &&& lookup_location(inp.article_locations@, id) is Some
}

/// The catalog entry that the input gives for `id`.
pub open spec fn resolved_article(inp: input::Input, id: ID) -> Article {
    Article {
        id,
        volume: lookup_volume(inp.articles@, id)->0,
        location: lookup_location(inp.article_locations@, id)->0,
    }
}

/// The error reported for an unresolved `id`.
pub open spec fn missing(inp: input::Input, id: ID) -> InputError {
    if lookup_volume(inp.articles@, id) is None {
        InputError::MissingVolume(id)
    } else {
        InputError::MissingLocation(id)
    }
}

/// The article ids of each order.
pub open spec fn id_lists(orders: Seq<input::Order>) -> Seq<Seq<ID>> {
    orders.map_values(|o: input::Order| o.article_ids@)
}

/// Every ordered article id, order by order.
pub open spec fn ordered_ids(orders: Seq<input::Order>) -> Seq<ID> {
    id_lists(orders).flatten_alt()
}

/// Whether every ordered article id resolves.
pub open spec fn all_resolved(inp: input::Input) -> bool {
    forall|k: int|
        0 <= k < ordered_ids(inp.orders@).len() ==> resolves(inp, #[trigger] ordered_ids(
            inp.orders@,
        )[k])
}

/// Whether position `k` of the ordered ids is the first that does not resolve.
pub open spec fn first_unresolved(inp: input::Input, k: int) -> bool {
    let ids = ordered_ids(inp.orders@);
    &&& 0 <= k < ids.len()
    &&& !resolves(inp, ids[k])
    &&& forall|j: int| 0 <= j < k ==> resolves(inp, #[trigger] ids[j])
}

pub open spec fn unit_of(order_id: ID, a: Article) -> OrderedArticle {
    OrderedArticle { order_id, id: a.id, volume: a.volume, location: a.location }
}

/// The units of one input order.
pub open spec fn order_units(inp: input::Input, o: input::Order) -> Seq<OrderedArticle> {
    o.article_ids@.map_values(|a: ID| unit_of(o.order_id, resolved_article(inp, a)))
}

/// The units of each input order.
pub open spec fn unit_lists(inp: input::Input) -> Seq<Seq<OrderedArticle>> {
    inp.orders@.map_values(|o: input::Order| order_units(inp, o))
}

/// Every unit of the input, order by order.
pub open spec fn catalog_units(inp: input::Input) -> Seq<OrderedArticle> {
    unit_lists(inp).flatten_alt()
}

/// Distinct warehouses among `units`.
pub open spec fn warehouses_of(units: Seq<OrderedArticle>) -> Set<ID> {
    units.map_values(|u: OrderedArticle| u.location.warehouse).to_set()
}

/// Distinct (warehouse, aisle) pairs among `units`.
pub open spec fn aisles_of(units: Seq<OrderedArticle>) -> Set<(ID, ID)> {
    units.map_values(|u: OrderedArticle| (u.location.warehouse, u.location.aisle)).to_set()
}

/// Distinct order ids among `units`.
pub open spec fn order_ids_of(units: Seq<OrderedArticle>) -> Set<ID> {
    units.map_values(|u: OrderedArticle| u.order_id).to_set()
}

pub proof fn lemma_flatten_alt_take<A>(s: Seq<Seq<A>>, i: int)
    requires
        0 <= i < s.len(),
    ensures
        s.take(i + 1).flatten_alt() == s.take(i).flatten_alt() + s[i],
{
    assert(s.take(i + 1).drop_last() =~= s.take(i));
}

pub proof fn lemma_flatten_alt_split<A>(s: Seq<Seq<A>>, i: int)
    requires
        0 <= i <= s.len(),
    ensures
        s.flatten_alt() == s.take(i).flatten_alt() + s.skip(i).flatten_alt(),
{
    lemma_flatten_alt_concat(s.take(i), s.skip(i));
    assert(s.take(i) + s.skip(i) =~= s);
}

/// Every element of a flattening is an element of one of the lists.
pub proof fn lemma_flatten_alt_member<A>(s: Seq<Seq<A>>, p: int)
    requires
        0 <= p < s.flatten_alt().len(),
    ensures
        exists|i: int, j: int|
            0 <= i < s.len() && 0 <= j < s[i].len() && s[i][j] == s.flatten_alt()[p],
    decreases s.len(),
{
    let d = s.drop_last();
    if p < d.flatten_alt().len() {
        lemma_flatten_alt_member(d, p);
        let (i, j) = choose|i: int, j: int|
            0 <= i < d.len() && 0 <= j < d[i].len() && d[i][j] == d.flatten_alt()[p];
        assert(s[i] == d[i]);
    } else {
        let j = p - d.flatten_alt().len();
        assert(s[s.len() - 1][j] == s.flatten_alt()[p]);
    }
}

/// Position `k` of the flattening is element `j` of list `i`.
pub proof fn lemma_flatten_alt_index<A>(s: Seq<Seq<A>>, i: int, j: int)
    requires
        0 <= i < s.len(),
        0 <= j < s[i].len(),
    ensures
        s.take(i).flatten_alt().len() + j < s.flatten_alt().len(),
        s.flatten_alt()[s.take(i).flatten_alt().len() + j] == s[i][j],
        s.flatten_alt().take(s.take(i).flatten_alt().len() + j) == s.take(i).flatten_alt()
            + s[i].take(j),
{
    lemma_flatten_alt_split(s, i + 1);
    lemma_flatten_alt_take(s, i);
    let p = s.take(i).flatten_alt();
    let f = s.flatten_alt();
    assert(f.take(p.len() + j) =~= p + s[i].take(j));
}

/// The first volume row for `id`.
fn find_volume(rows: &Vec<input::Article>, id: ID) -> (r: Option<u16>)
    ensures
        r == lookup_volume(rows@, id),
{
    let mut i: usize = 0;
    assert(rows@.skip(0) =~= rows@);
    while i < rows.len()
        invariant
            i <= rows@.len(),
            lookup_volume(rows@, id) == lookup_volume(rows@.skip(i as int), id),
        decreases rows@.len() - i,
    {
        assert(rows@.skip(i as int).drop_first() =~= rows@.skip(i + 1));
        if rows[i].article_id == id {
            return Some(rows[i].volume);
        }
        i += 1;
    }
    None
}

/// The first location row for `id`.
fn find_location(rows: &Vec<input::ArticleLocation>, id: ID) -> (r: Option<ArticleLocation>)
    ensures
        r == lookup_location(rows@, id),
{
    let mut i: usize = 0;
    assert(rows@.skip(0) =~= rows@);
    while i < rows.len()
        invariant
            i <= rows@.len(),
            lookup_location(rows@, id) == lookup_location(rows@.skip(i as int), id),
        decreases rows@.len() - i,
    {
        assert(rows@.skip(i as int).drop_first() =~= rows@.skip(i + 1));
        if rows[i].article_id == id {
            return Some(ArticleLocation { warehouse: rows[i].warehouse, aisle: rows[i].aisle });
        }
        i += 1;
    }
    None
}

/// Whether `m` holds exactly the ids of `ids`, each with the entry the input gives it.
pub open spec fn map_covers(m: Map<ID, Article>, inp: input::Input, ids: Seq<ID>) -> bool {
    &&& m.dom() == ids.to_set()
    &&& forall|id: ID| #[trigger] m.contains_key(id) ==> m[id] == resolved_article(inp, id)
}

proof fn lemma_first_unresolved(inp: input::Input, seen: Seq<ID>, id: ID)
    requires
        ordered_ids(inp.orders@).len() > seen.len(),
        ordered_ids(inp.orders@).take(seen.len() as int) == seen,
        ordered_ids(inp.orders@)[seen.len() as int] == id,
        !resolves(inp, id),
        forall|k: int| 0 <= k < seen.len() ==> resolves(inp, #[trigger] seen[k]),
    ensures
        first_unresolved(inp, seen.len() as int),
        ordered_ids(inp.orders@)[seen.len() as int] == id,
{
    let ids = ordered_ids(inp.orders@);
    assert forall|j: int| 0 <= j < seen.len() implies resolves(inp, #[trigger] ids[j]) by {
        assert(ids.take(seen.len() as int)[j] == ids[j]);
    }
}

/// The catalog entries of the ordered articles, by article id.
#[derive(Debug)]
pub struct Articles {
    article_map: BTreeMap<ID, Article>,
}

impl Articles {
    pub closed spec fn view(&self) -> Map<ID, Article> {
        self.article_map@
    }

    /// Resolves each ordered article id to its volume and location.
    pub fn from_input(inp: &input::Input) -> (r: Result<Articles, InputError>)
        ensures
            r is Ok <==> all_resolved(*inp),
            r matches Ok(a) ==> map_covers(a.view(), *inp, ordered_ids(inp.orders@)),
            r matches Err(e) ==> exists|k: int|
                first_unresolved(*inp, k) && e == missing(*inp, #[trigger] ordered_ids(
                    inp.orders@,
                )[k]),
    {
        let ghost lists = id_lists(inp.orders@);
        let mut article_map: BTreeMap<ID, Article> = BTreeMap::new();
        let mut i: usize = 0;
        proof {
            assert(lists.take(0) =~= Seq::<Seq<ID>>::empty());
            assert(article_map@.dom() =~= lists.take(0).flatten_alt().to_set());
        }
        while i < inp.orders.len()
            invariant
                i <= inp.orders@.len(),
                lists == id_lists(inp.orders@),
                map_covers(article_map@, *inp, lists.take(i as int).flatten_alt()),
                forall|k: int|
                    0 <= k < lists.take(i as int).flatten_alt().len() ==> resolves(
                        *inp,
                        #[trigger] lists.take(i as int).flatten_alt()[k],
                    ),
            decreases inp.orders@.len() - i,
        {
            let order = &inp.orders[i];
            let ghost prefix = lists.take(i as int).flatten_alt();
            assert(lists[i as int] == order.article_ids@);
            let mut j: usize = 0;
            while j < order.article_ids.len()
                invariant
                    i < inp.orders@.len(),
                    j <= order.article_ids@.len(),
                    *order == inp.orders@[i as int],
                    lists == id_lists(inp.orders@),
                    prefix == lists.take(i as int).flatten_alt(),
                    lists[i as int] == order.article_ids@,
                    map_covers(article_map@, *inp, prefix + order.article_ids@.take(j as int)),
                    forall|k: int|
                        0 <= k < (prefix + order.article_ids@.take(j as int)).len() ==> resolves(
                            *inp,
                            #[trigger] (prefix + order.article_ids@.take(j as int))[k],
                        ),
                decreases order.article_ids@.len() - j,
            {
                let id = order.article_ids[j];
                let ghost seen = prefix + order.article_ids@.take(j as int);
                proof {
                    lemma_flatten_alt_index(lists, i as int, j as int);
                    assert(prefix + order.article_ids@.take(j + 1) =~= seen.push(id));
                    seen.lemma_push_to_set_commute(id);
                }
                if !article_map.contains_key(&id) {
                    let volume = find_volume(&inp.articles, id);
                    let location = find_location(&inp.article_locations, id);
                    match (volume, location) {
                        (Some(volume), Some(location)) => {
                            article_map.insert(id, Article { id, volume, location });
                        },
                        (None, _) => {
                            proof {
                                self::lemma_first_unresolved(*inp, seen, id);
                            }
                            return Err(InputError::MissingVolume(id));
                        },
                        (_, None) => {
                            proof {
                                self::lemma_first_unresolved(*inp, seen, id);
                            }
                            return Err(InputError::MissingLocation(id));
                        },
                    }
                } else {
                    proof {
                        assert(seen.to_set().contains(id));
                        let k = choose|k: int| 0 <= k < seen.len() && seen[k] == id;
                        assert(resolves(*inp, seen[k]));
                    }
                }
                proof {
                    assert(article_map@.dom() =~= seen.push(id).to_set());
                }
                j += 1;
            }
            proof {
                assert(order.article_ids@.take(j as int) =~= order.article_ids@);
                lemma_flatten_alt_take(lists, i as int);
            }
            i += 1;
        }
        proof {
            assert(lists.take(i as int) =~= lists);
        }
        Ok(Articles { article_map })
    }

    /// The catalog entry of `id`.
    pub fn get_article(&self, id: ID) -> (r: &Article)
        requires
            self.view().contains_key(id),
        ensures
            *r == self.view()[id],
    {
        self.article_map.get(&id).unwrap()
    }
}

impl OrderedArticle {
    /// The unit of `article` inside order `order_id`.
    pub fn new(order_id: ID, article: Article) -> (r: OrderedArticle)
        ensures
            r == unit_of(order_id, article),
    {
        OrderedArticle {
            order_id,
            id: article.id,
            volume: article.volume,
            location: article.location,
        }
    }
}

/// The units of one order.
#[derive(Debug)]
pub struct Order {
    articles: Vec<OrderedArticle>,
}

impl Order {
    pub closed spec fn view(&self) -> Seq<OrderedArticle> {
        self.articles@
    }

    fn new(articles: Vec<OrderedArticle>) -> (r: Order)
        ensures
            r.view() == articles@,
    {
        Order { articles }
    }
}

/// The unit lists of a sequence of orders.
pub open spec fn units_per_order(orders: Seq<Order>) -> Seq<Seq<OrderedArticle>> {
    orders.map_values(|o: Order| o.view())
}

/// All orders, in input order.
pub struct Orders {
    orders: Vec<Order>,
    order_ids: Ghost<Seq<ID>>,
}

impl Orders {
    /// Every unit, order by order.
    pub closed spec fn units(&self) -> Seq<OrderedArticle> {
        units_per_order(self.orders@).flatten_alt()
    }

    pub closed spec fn len(&self) -> nat {
        self.orders@.len()
    }

    /// Each order's units carry that order's id.
    pub closed spec fn wf(&self) -> bool {
        &&& self.order_ids@.len() == self.orders@.len()
        &&& forall|k: int, j: int|
            0 <= k < self.orders@.len() && 0 <= j < self.orders@[k].articles@.len()
                ==> (#[trigger] self.orders@[k].articles@[j]).order_id == self.order_ids@[k]
    }

    fn from_input(inp: &input::Input, articles: &Articles) -> (r: Orders)
        requires
            map_covers(articles.view(), *inp, ordered_ids(inp.orders@)),
        ensures
            r.units() == catalog_units(*inp),
            r.len() == inp.orders@.len(),
            r.wf(),
    {
        let ghost lists = id_lists(inp.orders@);
        let ghost ulists = unit_lists(*inp);
        let mut orders: Vec<Order> = Vec::new();
        let mut i: usize = 0;
        while i < inp.orders.len()
            invariant
                i <= inp.orders@.len(),
                lists == id_lists(inp.orders@),
                ulists == unit_lists(*inp),
                map_covers(articles.view(), *inp, lists.flatten_alt()),
                units_per_order(orders@) == ulists.take(i as int),
                (Orders { orders, order_ids: Ghost(inp.orders@.take(i as int).map_values(
                    |o: input::Order| o.order_id,
                )) }).wf(),
            decreases inp.orders@.len() - i,
        {
            let order = &inp.orders[i];
            assert(lists[i as int] == order.article_ids@);
            let mut units: Vec<OrderedArticle> = Vec::new();
            let mut j: usize = 0;
            while j < order.article_ids.len()
                invariant
                    i < inp.orders@.len(),
                    j <= order.article_ids@.len(),
                    *order == inp.orders@[i as int],
                    lists == id_lists(inp.orders@),
                    lists[i as int] == order.article_ids@,
                    map_covers(articles.view(), *inp, lists.flatten_alt()),
                    units@ == order_units(*inp, *order).take(j as int),
                    forall|q: int| 0 <= q < units@.len() ==> (#[trigger] units@[q]).order_id
                        == order.order_id,
                decreases order.article_ids@.len() - j,
            {
                let id = order.article_ids[j];
                proof {
                    lemma_flatten_alt_index(lists, i as int, j as int);
                    assert(lists.flatten_alt().to_set().contains(id));
                }
                let article = articles.get_article(id);
                units.push(OrderedArticle::new(order.order_id, *article));
                assert(units@ =~= order_units(*inp, *order).take(j + 1));
                j += 1;
            }
            assert(units@ =~= order_units(*inp, *order));
            let made = Order::new(units);
            assert(ulists[i as int] == order_units(*inp, inp.orders@[i as int]));
            let ghost prev = orders@;
            orders.push(made);
            assert(units_per_order(orders@) =~= units_per_order(prev).push(made.view()));
            assert(units_per_order(orders@) =~= ulists.take(i + 1));
            proof {
                let ids = inp.orders@.take(i + 1).map_values(|o: input::Order| o.order_id);
                let ids0 = inp.orders@.take(i as int).map_values(|o: input::Order| o.order_id);
                assert forall|k: int, j: int|
                    0 <= k < orders@.len() && 0 <= j < orders@[k].articles@.len() implies (
                    #[trigger] orders@[k].articles@[j]).order_id == ids[k] by {
                    if k < i {
                        assert(orders@[k] == prev[k]);
                        assert(ids[k] == ids0[k]);
                    }
                }
            }
            i += 1;
        }
        assert(ulists.take(i as int) =~= ulists);
        Orders { orders, order_ids: Ghost(inp.orders@.take(i as int).map_values(|o: input::Order| o.order_id)) }
    }

    fn ordered_articles(&self) -> (r: Vec<OrderedArticle>)
        ensures
            r@ == self.units(),
    {
        let ghost lists = units_per_order(self.orders@);
        let mut r: Vec<OrderedArticle> = Vec::new();
        let mut i: usize = 0;
        assert(lists.take(0) =~= Seq::<Seq<OrderedArticle>>::empty());
        while i < self.orders.len()
            invariant
                i <= self.orders@.len(),
                lists == units_per_order(self.orders@),
                r@ == lists.take(i as int).flatten_alt(),
            decreases self.orders@.len() - i,
        {
            let order = &self.orders[i];
            assert(lists[i as int] == order.articles@);
            let mut j: usize = 0;
            let ghost before = r@;
            while j < order.articles.len()
                invariant
                    j <= order.articles@.len(),
                    r@ == before + order.articles@.take(j as int),
                decreases order.articles@.len() - j,
            {
                r.push(order.articles[j]);
                assert(r@ =~= before + order.articles@.take(j + 1));
                j += 1;
            }
            proof {
                assert(order.articles@.take(j as int) =~= order.articles@);
                lemma_flatten_alt_take(lists, i as int);
            }
            i += 1;
        }
        assert(lists.take(i as int) =~= lists);
        r
    }
}

/// The distinct warehouses among `units`.
pub fn distinct_warehouses(units: &Vec<OrderedArticle>) -> (r: BTreeSet<ID>)
    ensures
        r@ == warehouses_of(units@),
{
    let ghost f = |u: OrderedArticle| u.location.warehouse;
    let mut r: BTreeSet<ID> = BTreeSet::new();
    let mut i: usize = 0;
    assert(units@.take(0).map_values(f) =~= Seq::<ID>::empty());
    assert(r@ =~= units@.take(0).map_values(f).to_set());
    while i < units.len()
        invariant
            i <= units@.len(),
            f == (|u: OrderedArticle| u.location.warehouse),
            r@ == units@.take(i as int).map_values(f).to_set(),
        decreases units@.len() - i,
    {
        let w = units[i].location.warehouse;
        r.insert(w);
        proof {
            let prev = units@.take(i as int).map_values(f);
            assert(units@.take(i + 1).map_values(f) =~= prev.push(w));
            prev.lemma_push_to_set_commute(w);
        }
        i += 1;
    }
    assert(units@.take(i as int) =~= units@);
    r
}

/// The distinct (warehouse, aisle) pairs among `units`.
pub fn distinct_aisles(units: &Vec<OrderedArticle>) -> (r: BTreeSet<(ID, ID)>)
    ensures
        r@ == aisles_of(units@),
{
    let ghost f = |u: OrderedArticle| (u.location.warehouse, u.location.aisle);
    let mut r: BTreeSet<(ID, ID)> = BTreeSet::new();
    let mut i: usize = 0;
    assert(units@.take(0).map_values(f) =~= Seq::<(ID, ID)>::empty());
    assert(r@ =~= units@.take(0).map_values(f).to_set());
    while i < units.len()
        invariant
            i <= units@.len(),
            f == (|u: OrderedArticle| (u.location.warehouse, u.location.aisle)),
            r@ == units@.take(i as int).map_values(f).to_set(),
        decreases units@.len() - i,
    {
        let a = (units[i].location.warehouse, units[i].location.aisle);
        r.insert(a);
        proof {
            let prev = units@.take(i as int).map_values(f);
            assert(units@.take(i + 1).map_values(f) =~= prev.push(a));
            prev.lemma_push_to_set_commute(a);
        }
        i += 1;
    }
    assert(units@.take(i as int) =~= units@);
    r
}

/// The distinct order ids among `units`.
pub fn distinct_order_ids(units: &Vec<OrderedArticle>) -> (r: BTreeSet<ID>)
    ensures
        r@ == order_ids_of(units@),
{
    let ghost f = |u: OrderedArticle| u.order_id;
    let mut r: BTreeSet<ID> = BTreeSet::new();
    let mut i: usize = 0;
    assert(units@.take(0).map_values(f) =~= Seq::<ID>::empty());
    assert(r@ =~= units@.take(0).map_values(f).to_set());
    while i < units.len()
        invariant
            i <= units@.len(),
            f == (|u: OrderedArticle| u.order_id),
            r@ == units@.take(i as int).map_values(f).to_set(),
        decreases units@.len() - i,
    {
        let o = units[i].order_id;
        r.insert(o);
        proof {
            let prev = units@.take(i as int).map_values(f);
            assert(units@.take(i + 1).map_values(f) =~= prev.push(o));
            prev.lemma_push_to_set_commute(o);
        }
        i += 1;
    }
    assert(units@.take(i as int) =~= units@);
    r
}

/// The volumes of `units`, in order.
pub open spec fn volumes_of(units: Seq<OrderedArticle>) -> Seq<u16> {
    units.map_values(|u: OrderedArticle| u.volume)
}

pub open spec fn ascending(s: Seq<u16>) -> bool {
    forall|i: int, j: int| 0 <= i < j < s.len() ==> s[i] <= s[j]
}

pub open spec fn volume_sum(s: Seq<u16>) -> int
    decreases s.len(),
{
    if s.len() == 0 {
        0
    } else {
        volume_sum(s.drop_last()) + s.last()
    }
}

/// `n` is how many leading volumes of `s` fit together under `cap`.
pub open spec fn leading_fit(s: Seq<u16>, cap: int, n: int) -> bool {
    &&& 0 <= n <= s.len()
    &&& volume_sum(s.take(n)) <= cap
    &&& n < s.len() ==> volume_sum(s.take(n + 1)) > cap
}

/// Relies on `slice::sort`: the values end up in ascending order, the same values as before.
#[verifier::external_body]
pub(crate) fn sort_ascending(v: &mut Vec<u16>)
    ensures
        ascending(final(v)@),
        final(v)@.to_multiset() == old(v)@.to_multiset(),
{
    v.sort();
}

/// The catalog built from one input record.
pub struct Model {
    orders: Orders,
}

impl Model {
    /// Every unit of the catalog, order by order; a unit's position is its index.
    pub closed spec fn units(&self) -> Seq<OrderedArticle> {
        self.orders.units()
    }

    /// How many orders the input listed.
    pub closed spec fn order_count(&self) -> nat {
        self.orders.len()
    }

    /// Each unit carries the id of the order it came from.
    pub closed spec fn wf(&self) -> bool {
        self.orders.wf()
    }

    /// There are no more distinct order ids among the units than orders.
    pub proof fn lemma_order_ids_bound(&self)
        requires
            self.wf(),
        ensures
            order_ids_of(self.units()).finite(),
            order_ids_of(self.units()).len() <= self.order_count(),
    {
        let units = self.units();
        let lists = units_per_order(self.orders.orders@);
        let ids = self.orders.order_ids@;
        let f = |u: OrderedArticle| u.order_id;
        assert forall|o: ID| #[trigger] order_ids_of(units).contains(o) implies ids.to_set().contains(
            o,
        ) by {
            let p = choose|p: int| 0 <= p < units.map_values(f).len() && units.map_values(f)[p] == o;
            lemma_flatten_alt_member(lists, p);
            let (k, j) = choose|k: int, j: int|
                0 <= k < lists.len() && 0 <= j < lists[k].len() && lists[k][j]
                    == lists.flatten_alt()[p];
            assert(lists[k] == self.orders.orders@[k].articles@);
            assert(self.orders.orders@[k].articles@[j].order_id == ids[k]);
        }
        ids.lemma_cardinality_of_set();
        vstd::set_lib::lemma_len_subset(order_ids_of(units), ids.to_set());
    }

    /// A catalog with units lists at least one order.
    pub proof fn lemma_units_need_orders(&self)
        ensures
            self.units().len() > 0 ==> self.order_count() > 0,
    {
        if self.orders.orders@.len() == 0 {
            assert(units_per_order(self.orders.orders@) =~= Seq::<Seq<OrderedArticle>>::empty());
        }
    }

    /// Builds the catalog; fails on the first ordered article id that the input
    /// does not give both a volume and a location.
    pub fn from_input(input: &input::Input) -> (r: Result<Model, InputError>)
        ensures
            r is Ok <==> all_resolved(*input),
            r matches Ok(m) ==> m.units() == catalog_units(*input) && m.order_count()
                == input.orders@.len() && m.wf(),
            r matches Err(e) ==> exists|k: int|
                first_unresolved(*input, k) && e == missing(*input, #[trigger] ordered_ids(
                    input.orders@,
                )[k]),
    {
        let articles = Articles::from_input(input)?;
        let orders = Orders::from_input(input, &articles);
        Ok(Model { orders })
    }

    pub fn get_ordered_articles(&self) -> (r: Vec<OrderedArticle>)
        ensures
            r@ == self.units(),
    {
        self.orders.ordered_articles()
    }

    /// The number of units, which bounds the number of batches.
    pub fn max_batches_num(&self) -> (r: usize)
        ensures
            r == self.units().len(),
    {
        self.get_ordered_articles().len()
    }

    pub fn num_orders(&self) -> (r: usize)
        ensures
            r == self.order_count(),
    {
        self.orders.orders.len()
    }

    /// Distinct warehouses across all units.
    pub fn num_warehouses_of_orders(&self) -> (r: usize)
        ensures
            r == warehouses_of(self.units()).len(),
    {
        distinct_warehouses(&self.get_ordered_articles()).len()
    }

    /// Distinct (warehouse, aisle) pairs across all units.
    pub fn num_aisles_of_orders(&self) -> (r: usize)
        ensures
            r == aisles_of(self.units()).len(),
    {
        distinct_aisles(&self.get_ordered_articles()).len()
    }

    /// How many units, smallest volume first, fit together into one batch.
    pub fn max_items_per_batch(&self, cfg: &Config) -> (r: usize)
        ensures
            exists|s: Seq<u16>|
                ascending(s) && s.to_multiset() == volumes_of(self.units()).to_multiset()
                    && leading_fit(s, cfg.max_weight_per_batch as int, r as int),
    {
        let units = self.get_ordered_articles();
        let mut volumes: Vec<u16> = Vec::new();
        let mut i: usize = 0;
        while i < units.len()
            invariant
                i <= units@.len(),
                volumes@ == volumes_of(units@).take(i as int),
            decreases units@.len() - i,
        {
            volumes.push(units[i].volume);
            assert(volumes@ =~= volumes_of(units@).take(i + 1));
            i += 1;
        }
        assert(volumes@ =~= volumes_of(units@));
        sort_ascending(&mut volumes);
        let cap = cfg.max_weight_per_batch as u128;
        let mut sum: u128 = 0;
        let mut n: usize = 0;
        assert(volumes@.take(0) =~= Seq::<u16>::empty());
        while n < volumes.len()
            invariant
                n <= volumes@.len(),
                cap == cfg.max_weight_per_batch,
                sum == volume_sum(volumes@.take(n as int)),
                sum <= cap,
            ensures
                n <= volumes@.len(),
                sum == volume_sum(volumes@.take(n as int)),
                sum <= cap,
                n < volumes@.len() ==> volume_sum(volumes@.take(n + 1)) > cap,
            decreases volumes@.len() - n,
        {
            let v = volumes[n] as u128;
            assert(volumes@.take(n + 1).drop_last() =~= volumes@.take(n as int));
            if sum + v > cap {
                break;
            }
            sum = sum + v;
            n += 1;
        }
        assert(leading_fit(volumes@, cfg.max_weight_per_batch as int, n as int));
        n
    }
}

} // verus!
