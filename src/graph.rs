//! Breadth-first expansion of a target into a crafting graph with exact ratios.
use vstd::prelude::*;
use vstd::set_lib::lemma_len_subset;
use crate::error::{CraftError, Fault};
use crate::fraction::Fraction;
use crate::gamedata::{derefs, item_ids, matching, produces, GameData};
use crate::items::{ItemRefSet, RecipeItems};
use crate::recipe::{lemma_position_at, pairs_view, position, Recipe};
use crate::tags::lemma_resolve_error_kind;

verus! {

/// The slots of the nodes of a graph.
pub open spec fn node_sets(nodes: Seq<(RecipeItems, Fraction)>) -> Seq<ItemRefSet> {
    nodes.map_values(|n: (RecipeItems, Fraction)| n.0@)
}

/// The slots a recipe consumes.
pub open spec fn slots(r: Recipe) -> Seq<ItemRefSet> {
    r.ingredients_spec().map_values(|p: (ItemRefSet, nat)| p.0)
}

/// Every slot consumed by some recipe of the catalog.
pub open spec fn universe(recipes: Seq<Recipe>) -> Seq<ItemRefSet>
    decreases recipes.len(),
{
    if recipes.len() == 0 {
        Seq::empty()
    } else {
        universe(recipes.drop_last()) + slots(recipes.last())
    }
}

/// Recipe `r`, under a parent of ratio `parent_ratio`, accounts for a child
/// node of slot `child` and ratio `child_ratio`: the child is one of its
/// ingredients and, with the count of its first entry,
/// `child_ratio == (slot count / result count) * parent_ratio`.
pub open spec fn edge_law(
    r: Recipe,
    child: ItemRefSet,
    child_ratio: Fraction,
    parent_ratio: Fraction,
) -> bool {
    match position(r.ingredients_spec(), child) {
        Some(j) => child_ratio.is_scaled(
            r.ingredients_spec()[j].1 as int,
            r.result_spec()->0.count as int,
            parent_ratio,
        ),
        None => false,
    }
}

/// Edge `q` follows edge `p` in discovery order: parents in breadth-first
/// order, recipes in the order they were tried, and the children of one
/// recipe in the order of its ingredients.
pub open spec fn edge_order(
    p: (usize, usize, usize),
    q: (usize, usize, usize),
    nodes: Seq<(RecipeItems, Fraction)>,
    recipes: Seq<&Recipe>,
) -> bool {
    &&& p.1 <= q.1
    &&& p.2 <= q.2
    &&& p.2 == q.2 ==> position(recipes[q.2 as int].ingredients_spec(), nodes[p.0 as int].0@)->0
        < position(recipes[q.2 as int].ingredients_spec(), nodes[q.0 as int].0@)->0
}

/// Recipe `r` produces one of the ids an alternative of slot `parent` stands for.
pub open spec fn edge_source(gd: GameData, parent: ItemRefSet, r: Recipe) -> bool {
    exists|a: int|
        0 <= a < parent.alternatives().len() && (item_ids(
            gd.tags@,
            #[trigger] parent.alternatives()[a],
        ) matches Ok(ids) && produces(r, ids))
}

/// The recipes tried for the first `n` alternatives of slot `s`: for each
/// alternative, every recipe producing one of its ids, in catalog order.
pub open spec fn slot_tried(gd: GameData, s: ItemRefSet, n: int) -> Seq<Recipe>
    decreases n,
{
    if n <= 0 {
        Seq::empty()
    } else {
        slot_tried(gd, s, n - 1) + matching(
            gd.recipes@,
            item_ids(gd.tags@, s.alternatives()[n - 1])->Ok_0,
        )
    }
}

/// The recipes tried while expanding the first `h` slots of `sets`, in order.
pub open spec fn tried(gd: GameData, sets: Seq<ItemRefSet>, h: int) -> Seq<Recipe>
    decreases h,
{
    if h <= 0 {
        Seq::empty()
    } else {
        tried(gd, sets, h - 1) + slot_tried(gd, sets[h - 1], sets[h - 1].alternatives().len() as int)
    }
}

proof fn lemma_tried_push(gd: GameData, sets: Seq<ItemRefSet>, x: ItemRefSet, h: int)
    requires
        0 <= h <= sets.len(),
    ensures
        tried(gd, sets.push(x), h) == tried(gd, sets, h),
    decreases h,
{
    if h > 0 {
        lemma_tried_push(gd, sets, x, h - 1);
        assert(sets.push(x)[h - 1] == sets[h - 1]);
    }
}

/// No recipe tried before the `k`-th uses slot `child`.
pub open spec fn first_use(recipes: Seq<&Recipe>, k: int, child: ItemRefSet) -> bool {
    forall|k2: int, j: int|
        0 <= k2 < k && 0 <= j < recipes[k2].ingredients_spec().len() ==> (
        #[trigger] recipes[k2].ingredients_spec()[j]).0 != child
}

/// Every ingredient of `r` is among `sets`.
pub open spec fn recipe_covered(sets: Seq<ItemRefSet>, r: Recipe) -> bool {
    forall|j: int|
        0 <= j < r.ingredients_spec().len() ==> sets.contains(
            (#[trigger] r.ingredients_spec()[j]).0,
        )
}

/// Reference `item` resolves, and every ingredient of every recipe producing it is among `sets`.
pub open spec fn item_covered(gd: GameData, sets: Seq<ItemRefSet>, item: crate::items::ItemRef) -> bool {
    match item_ids(gd.tags@, item) {
        Ok(ids) => forall|b: int|
            0 <= b < matching(gd.recipes@, ids).len() ==> recipe_covered(
                sets,
                #[trigger] matching(gd.recipes@, ids)[b],
            ),
        Err(_) => false,
    }
}

/// Every alternative of slot `s` is covered.
pub open spec fn set_covered(gd: GameData, sets: Seq<ItemRefSet>, s: ItemRefSet) -> bool {
    forall|a: int|
        0 <= a < s.alternatives().len() ==> item_covered(gd, sets, #[trigger] s.alternatives()[a])
}

/// The structure of a crafting graph built from `gd` for root slot `root`.
pub open spec fn graph_inv(
    gd: GameData,
    root: ItemRefSet,
    nodes: Seq<(RecipeItems, Fraction)>,
    edges: Seq<(usize, usize, usize)>,
    recipes: Seq<&Recipe>,
) -> bool {
    &&& nodes.len() >= 1
    &&& nodes[0].0@ == root
    &&& nodes[0].1 == Fraction { numer: 1, denom: 1 }
    &&& node_sets(nodes).no_duplicates()
    &&& forall|i: int| 0 <= i < nodes.len() ==> (#[trigger] nodes[i]).1.wf()
    &&& forall|i: int|
        1 <= i < nodes.len() ==> universe(gd.recipes@).contains((#[trigger] nodes[i]).0@)
    &&& edges.len() + 1 == nodes.len()
    &&& forall|k: int| 0 <= k < recipes.len() ==> gd.recipes@.contains(*(#[trigger] recipes[k]))
    &&& forall|e: int|
        0 <= e < edges.len() ==> {
            let (child, parent, k) = #[trigger] edges[e];
            &&& child == e + 1
            &&& parent <= e
            &&& k < recipes.len()
            &&& edge_law(*recipes[k as int], nodes[child as int].0@, nodes[child as int].1, nodes[parent as int].1)
            &&& edge_source(gd, nodes[parent as int].0@, *recipes[k as int])
            &&& first_use(recipes, k as int, nodes[child as int].0@)
        }
    &&& forall|e: int| 0 < e < edges.len() ==> edge_order(edges[e - 1], #[trigger] edges[e], nodes, recipes)
}

/// A state of the expansion in which an ingredient still to be added would
/// get a ratio that does not fit: `nodes`, `edges` and `recipes` form a
/// graph for `root`, recipe `r` produces an alternative of node `h`, and its
/// ingredient `j`, not yet a node, needs `(count / result count) * ratio(h)`,
/// whose lowest terms do not fit 32 bits.
pub open spec fn overflow_at(
    gd: GameData,
    root: ItemRefSet,
    nodes: Seq<(RecipeItems, Fraction)>,
    edges: Seq<(usize, usize, usize)>,
    recipes: Seq<&Recipe>,
    h: int,
    r: Recipe,
    j: int,
) -> bool {
    &&& graph_inv(gd, root, nodes, edges, recipes)
    &&& 0 <= h < nodes.len()
    &&& gd.recipes@.contains(r)
    &&& edge_source(gd, nodes[h].0@, r)
    &&& 0 <= j < r.ingredients_spec().len()
    &&& !node_sets(nodes).contains(r.ingredients_spec()[j].0)
    &&& nodes[h].1.overflows(r.ingredients_spec()[j].1 as int, r.result_spec()->0.count as int)
}

/// A tag reference that fails to resolve with `f`, held as alternative `a`
/// of slot `s`, where `s` is the root or an ingredient of the catalog.
pub open spec fn tag_failure(gd: GameData, root: ItemRefSet, s: ItemRefSet, a: int, f: Fault) -> bool {
    &&& s == root || universe(gd.recipes@).contains(s)
    &&& 0 <= a < s.alternatives().len()
    &&& s.alternatives()[a] is Tag
    &&& item_ids(gd.tags@, s.alternatives()[a]) == Err::<Seq<Seq<char>>, Fault>(f)
}

/// Alternative `a` of the root is the first of them that fails to resolve.
pub open spec fn root_fails_first(gd: GameData, root: ItemRefSet, a: int) -> bool {
    &&& 0 <= a < root.alternatives().len()
    &&& item_ids(gd.tags@, root.alternatives()[a]) is Err
    &&& forall|k: int| 0 <= k < a ==> (item_ids(gd.tags@, #[trigger] root.alternatives()[k]) is Ok)
}

/// The computed graph: nodes with their ratio to one unit of the root, edges
/// `(child, parent, recipe)` from an ingredient to what it helps produce, and
/// the recipes the edges name.
pub struct CraftGraph<'a> {
    pub nodes: Vec<(RecipeItems, Fraction)>,
    pub edges: Vec<(usize, usize, usize)>,
    pub recipes: Vec<&'a Recipe>,
}

proof fn lemma_contains_push(sets: Seq<ItemRefSet>, x: ItemRefSet, s: ItemRefSet)
    requires
        sets.contains(s),
    ensures
        sets.push(x).contains(s),
{
    let i = choose|i: int| 0 <= i < sets.len() && sets[i] == s;
    assert(sets.push(x)[i] == s);
}

proof fn lemma_set_covered_push(gd: GameData, sets: Seq<ItemRefSet>, x: ItemRefSet, s: ItemRefSet)
    requires
        set_covered(gd, sets, s),
    ensures
        set_covered(gd, sets.push(x), s),
{
    assert forall|a: int| 0 <= a < s.alternatives().len() implies item_covered(
        gd,
        sets.push(x),
        #[trigger] s.alternatives()[a],
    ) by {
        lemma_item_covered_push(gd, sets, x, s.alternatives()[a]);
    }
}

proof fn lemma_item_covered_push(gd: GameData, sets: Seq<ItemRefSet>, x: ItemRefSet, item: crate::items::ItemRef)
    requires
        item_covered(gd, sets, item),
    ensures
        item_covered(gd, sets.push(x), item),
{
    let ids = item_ids(gd.tags@, item)->Ok_0;
    assert forall|b: int| 0 <= b < matching(gd.recipes@, ids).len() implies recipe_covered(
        sets.push(x),
        #[trigger] matching(gd.recipes@, ids)[b],
    ) by {
        lemma_recipe_covered_push(sets, x, matching(gd.recipes@, ids)[b]);
    }
}

proof fn lemma_recipe_covered_push(sets: Seq<ItemRefSet>, x: ItemRefSet, r: Recipe)
    requires
        recipe_covered(sets, r),
    ensures
        recipe_covered(sets.push(x), r),
{
    assert forall|j: int| 0 <= j < r.ingredients_spec().len() implies sets.push(x).contains(
        (#[trigger] r.ingredients_spec()[j]).0,
    ) by {
        lemma_contains_push(sets, x, r.ingredients_spec()[j].0);
    }
}

/// Every ingredient of a catalog recipe is in the universe.
proof fn lemma_universe_contains(recipes: Seq<Recipe>, k: int, j: int)
    requires
        0 <= k < recipes.len(),
        0 <= j < recipes[k].ingredients_spec().len(),
    ensures
        universe(recipes).contains(recipes[k].ingredients_spec()[j].0),
    decreases recipes.len(),
{
    let u0 = universe(recipes.drop_last());
    let u = universe(recipes);
    if k == recipes.len() - 1 {
        assert(u[u0.len() + j] == recipes[k].ingredients_spec()[j].0);
    } else {
        lemma_universe_contains(recipes.drop_last(), k, j);
        let i = choose|i: int| 0 <= i < u0.len() && u0[i] == recipes[k].ingredients_spec()[j].0;
        assert(u[i] == u0[i]);
    }
}

/// A recipe of a matching list is a catalog recipe that produces one of the ids.
proof fn lemma_matching_member(recipes: Seq<Recipe>, ids: Seq<Seq<char>>, b: int)
    requires
        0 <= b < matching(recipes, ids).len(),
    ensures
        recipes.contains(matching(recipes, ids)[b]),
        produces(matching(recipes, ids)[b], ids),
    decreases recipes.len(),
{
    let m0 = matching(recipes.drop_last(), ids);
    if b < m0.len() {
        lemma_matching_member(recipes.drop_last(), ids, b);
        let k = choose|k: int| 0 <= k < recipes.drop_last().len() && recipes.drop_last()[k] == m0[b];
        assert(recipes[k] == m0[b]);
    } else {
        assert(recipes[recipes.len() - 1] == recipes.last());
    }
}

/// Distinct non-root slots drawn from the universe are no more than it.
proof fn lemma_node_bound(sets: Seq<ItemRefSet>, u: Seq<ItemRefSet>)
    requires
        sets.len() >= 1,
        sets.no_duplicates(),
        forall|i: int| 1 <= i < sets.len() ==> u.contains(#[trigger] sets[i]),
    ensures
        sets.len() <= u.len() + 1,
{
    let t = sets.drop_first();
    assert(t.no_duplicates()) by {
        assert forall|i: int, j: int| 0 <= i < j < t.len() implies t[i] != t[j] by {
            assert(t[i] == sets[i + 1] && t[j] == sets[j + 1]);
        }
    }
    t.unique_seq_to_set();
    u.lemma_cardinality_of_set();
    assert(t.to_set().subset_of(u.to_set())) by {
        assert forall|x: ItemRefSet| t.to_set().contains(x) implies u.to_set().contains(x) by {
            let i = choose|i: int| 0 <= i < t.len() && t[i] == x;
            assert(sets[i + 1] == x);
        }
    }
    lemma_len_subset(t.to_set(), u.to_set());
}

/// Whether some node has slot `s`.
fn has_node(nodes: &Vec<(RecipeItems, Fraction)>, s: &RecipeItems) -> (r: bool)
    ensures
        r == node_sets(nodes@).contains(s@),
{
    let mut i: usize = 0;
    while i < nodes.len()
        invariant
            i <= nodes.len(),
            forall|j: int| 0 <= j < i ==> nodes@[j].0@ != s@,
        decreases nodes.len() - i,
    {
        if nodes[i].0.same(s) {
            assert(node_sets(nodes@)[i as int] == s@);
            return true;
        }
        i += 1;
    }
    proof {
        if node_sets(nodes@).contains(s@) {
            let j = choose|j: int| 0 <= j < nodes@.len() && node_sets(nodes@)[j] == s@;
            assert(nodes@[j].0@ == s@);
        }
    }
    false
}

/// Expands `start` breadth-first into the graph of everything needed to
/// craft it. Every alternative of a slot is expanded through every recipe
/// that produces it; an ingredient slot already present as a node is not
/// added again (the first discovery keeps its ratio). Fails as a whole, with
/// no partial graph, when a tag held by the root or by an ingredient does not
/// resolve, or when a new node's ratio in lowest terms does not fit 32-bit
/// parts; a root whose first failing alternative is a tag fails with that
/// tag's error.
#[verifier::rlimit(100)]
pub fn calculate_craft_graph<'a>(game_data: &'a GameData, start: RecipeItems) -> (r: Result<
    CraftGraph<'a>,
    CraftError,
>)
    requires
        game_data.wf(),
    ensures
        match r {
            Ok(g) => graph_inv(*game_data, start@, g.nodes@, g.edges@, g.recipes@) && derefs(
                g.recipes@,
            ) == tried(*game_data, node_sets(g.nodes@), g.nodes@.len() as int) && forall|h: int|
                0 <= h < g.nodes@.len() ==> set_covered(
                    *game_data,
                    node_sets(g.nodes@),
                    (#[trigger] g.nodes@[h]).0@,
                ),
            Err(e) => (e is RatioOverflow ==> exists|
                nodes: Seq<(RecipeItems, Fraction)>,
                edges: Seq<(usize, usize, usize)>,
                recipes: Seq<&Recipe>,
                h: int,
                rr: Recipe,
                j: int,
            | #[trigger] overflow_at(*game_data, start@, nodes, edges, recipes, h, rr, j)) && (!(
            e is RatioOverflow) ==> exists|s: ItemRefSet, a: int|
                #[trigger] tag_failure(*game_data, start@, s, a, e@)),
        },
        forall|a: int|
            #[trigger] root_fails_first(*game_data, start@, a) ==> (r matches Err(e) && item_ids(
                game_data.tags@,
                start@.alternatives()[a],
            ) == Err::<Seq<Seq<char>>, Fault>(e@)),
{
    let ghost gd = *game_data;
    let ghost root = start@;
    let ghost bound = universe(game_data.recipes@).len() + 1;
    let mut nodes: Vec<(RecipeItems, Fraction)> = Vec::new();
    let mut edges: Vec<(usize, usize, usize)> = Vec::new();
    let mut recipes: Vec<&'a Recipe> = Vec::new();
    nodes.push((start, Fraction::one()));
    assert(node_sets(nodes@) =~= seq![root]);
    assert(derefs(recipes@) =~= Seq::<Recipe>::empty());
    let mut head: usize = 0;
    while head < nodes.len()
        invariant
            gd == *game_data,
            root == start@,
            gd.wf(),
            graph_inv(gd, root, nodes@, edges@, recipes@),
            derefs(recipes@) == tried(gd, node_sets(nodes@), head as int),
            forall|k: int| 0 <= k < recipes@.len() ==> recipe_covered(node_sets(nodes@), *(#[trigger] recipes@[k])),
            head <= nodes.len(),
            nodes.len() <= bound,
            bound == universe(gd.recipes@).len() + 1,
            forall|e: int| 0 <= e < edges@.len() ==> (#[trigger] edges@[e]).1 <= head,
            forall|h: int|
                0 <= h < head ==> set_covered(gd, node_sets(nodes@), (#[trigger] nodes@[h]).0@),
        decreases bound - head,
    {
        let cur = nodes[head].0.duplicate();
        let ratio = nodes[head].1;
        let alts = cur.iter();
        let ghost alt_views = cur@.alternatives();
        let mut a: usize = 0;
        while a < alts.len()
            invariant
                gd == *game_data,
                root == start@,
                gd.wf(),
                graph_inv(gd, root, nodes@, edges@, recipes@),
                head < nodes.len(),
                nodes.len() <= bound,
                bound == universe(gd.recipes@).len() + 1,
                forall|e: int| 0 <= e < edges@.len() ==> (#[trigger] edges@[e]).1 <= head,
                nodes@[head as int].0@ == cur@,
                nodes@[head as int].1 == ratio,
                alts@.map_values(|x: &crate::items::RecipeItem| x@) == alt_views,
                alt_views == cur@.alternatives(),
                derefs(recipes@) == tried(gd, node_sets(nodes@), head as int) + slot_tried(gd, cur@, a as int),
                forall|k: int| 0 <= k < recipes@.len() ==> recipe_covered(node_sets(nodes@), *(#[trigger] recipes@[k])),
                a <= alts.len(),
                forall|h: int|
                    0 <= h < head ==> set_covered(gd, node_sets(nodes@), (#[trigger] nodes@[h]).0@),
                forall|k: int|
                    0 <= k < a ==> item_covered(gd, node_sets(nodes@), #[trigger] alt_views[k]),
            decreases alts.len() - a,
        {
            assert(alt_views[a as int] == alts@[a as int]@);
            let found = match game_data.get_recipes_for_item(alts[a]) {
                Ok(v) => v,
                Err(e) => {
                    proof {
                        assert(alts@[a as int]@ is Tag);
                        lemma_resolve_error_kind(gd.tags@, alts@[a as int]@->Tag_0, Seq::empty());
                        if head > 0 {
                            assert(universe(gd.recipes@).contains(nodes@[head as int].0@));
                        }
                        assert(tag_failure(gd, root, cur@, a as int, e@));
                        assert forall|a0: int| #[trigger]
                            root_fails_first(gd, root, a0) implies item_ids(
                            gd.tags@,
                            root.alternatives()[a0],
                        ) == Err::<Seq<Seq<char>>, Fault>(e@) by {
                            if head > 0 {
                                assert(set_covered(gd, node_sets(nodes@), nodes@[0].0@));
                                assert(item_covered(gd, node_sets(nodes@), root.alternatives()[a0]));
                            } else if a0 < a {
                                assert(item_covered(gd, node_sets(nodes@), alt_views[a0]));
                            } else if a0 > a {
                                assert(item_ids(gd.tags@, root.alternatives()[a as int]) is Ok);
                            }
                        }
                    }
                    return Err(e);
                },
            };
            let ghost ids = item_ids(gd.tags@, alt_views[a as int])->Ok_0;
            let ghost ms = matching(gd.recipes@, ids);
            let mut b: usize = 0;
            while b < found.len()
                invariant
                    gd == *game_data,
                    root == start@,
                    gd.wf(),
                    graph_inv(gd, root, nodes@, edges@, recipes@),
                    head < nodes.len(),
                    nodes.len() <= bound,
                    bound == universe(gd.recipes@).len() + 1,
                    forall|e: int| 0 <= e < edges@.len() ==> (#[trigger] edges@[e]).1 <= head,
                    nodes@[head as int].0@ == cur@,
                    nodes@[head as int].1 == ratio,
                    alts@.map_values(|x: &crate::items::RecipeItem| x@) == alt_views,
                    alt_views == cur@.alternatives(),
                    a < alts.len(),
                    item_ids(gd.tags@, alt_views[a as int]) == Ok::<Seq<Seq<char>>, Fault>(ids),
                    ms == matching(gd.recipes@, ids),
                    derefs(found@) == ms,
                    derefs(recipes@) == tried(gd, node_sets(nodes@), head as int) + slot_tried(gd, cur@, a as int) + ms.take(b as int),
                    forall|k: int| 0 <= k < recipes@.len() ==> recipe_covered(node_sets(nodes@), *(#[trigger] recipes@[k])),
                    b <= found.len(),
                    forall|h: int|
                        0 <= h < head ==> set_covered(gd, node_sets(nodes@), (#[trigger] nodes@[h]).0@),
                    forall|k: int|
                        0 <= k < a ==> item_covered(gd, node_sets(nodes@), #[trigger] alt_views[k]),
                    forall|k: int| 0 <= k < b ==> recipe_covered(node_sets(nodes@), #[trigger] ms[k]),
                decreases found.len() - b,
            {
                let recipe: &'a Recipe = found[b];
                assert(ms[b as int] == *recipe);
                proof {
                    lemma_matching_member(gd.recipes@, ids, b as int);
                }
                let ghost kr = choose|k: int| 0 <= k < gd.recipes@.len() && gd.recipes@[k] == *recipe;
                assert(gd.recipes@[kr] == *recipe);
                let ghost before = derefs(recipes@);
                recipes.push(recipe);
                let recipe_idx = recipes.len() - 1;
                assert(ms.take(b as int + 1) =~= ms.take(b as int).push(ms[b as int]));
                assert(derefs(recipes@) =~= before.push(*recipe));
                let count = match recipe.get_result() {
                    Some(res) => res.count,
                    None => {
                        proof {
                            assert(false);
                        }
                        1
                    },
                };
                let ings = recipe.get_ingredients();
                proof {
                    assert(item_ids(gd.tags@, cur@.alternatives()[a as int]) == Ok::<
                        Seq<Seq<char>>,
                        Fault,
                    >(ids));
                    assert(edge_source(gd, cur@, *recipe));
                    if edges@.len() > 0 {
                        assert(edges@[edges@.len() - 1].2 < recipe_idx);
                    }
                }
                let mut c: usize = 0;
                while c < ings.len()
                    invariant
                        gd == *game_data,
                        root == start@,
                        gd.wf(),
                        graph_inv(gd, root, nodes@, edges@, recipes@),
                        head < nodes.len(),
                        nodes.len() <= bound,
                        bound == universe(gd.recipes@).len() + 1,
                        forall|e: int| 0 <= e < edges@.len() ==> (#[trigger] edges@[e]).1 <= head,
                        nodes@[head as int].0@ == cur@,
                        nodes@[head as int].1 == ratio,
                        alts@.map_values(|x: &crate::items::RecipeItem| x@) == alt_views,
                        alt_views == cur@.alternatives(),
                        a < alts.len(),
                        item_ids(gd.tags@, alt_views[a as int]) == Ok::<Seq<Seq<char>>, Fault>(ids),
                        ms == matching(gd.recipes@, ids),
                        derefs(found@) == ms,
                        b < found.len(),
                        ms[b as int] == *recipe,
                        0 <= kr < gd.recipes@.len(),
                        gd.recipes@[kr] == *recipe,
                        recipe_idx == recipes@.len() - 1,
                        *recipes@[recipe_idx as int] == *recipe,
                        recipe.result_spec() matches Some(res) && res.count == count,
                        count > 0,
                        produces(*recipe, ids),
                        pairs_view(ings@) == recipe.ingredients_spec(),
                        derefs(recipes@) == tried(gd, node_sets(nodes@), head as int) + slot_tried(gd, cur@, a as int) + ms.take(b as int + 1),
                        forall|k: int| 0 <= k < recipe_idx ==> recipe_covered(node_sets(nodes@), *(#[trigger] recipes@[k])),
                        c <= ings.len(),
                        forall|h: int|
                            0 <= h < head ==> set_covered(gd, node_sets(nodes@), (#[trigger] nodes@[h]).0@),
                        forall|k: int|
                            0 <= k < a ==> item_covered(gd, node_sets(nodes@), #[trigger] alt_views[k]),
                        forall|k: int| 0 <= k < b ==> recipe_covered(node_sets(nodes@), #[trigger] ms[k]),
                        forall|j: int|
                            0 <= j < c ==> node_sets(nodes@).contains(
                                (#[trigger] recipe.ingredients_spec()[j]).0,
                            ),
                        edge_source(gd, cur@, *recipe),
                        gd.recipes@.contains(*recipe),
                        edges@.len() > 0 && edges@.last().2 == recipe_idx ==> position(
                            recipe.ingredients_spec(),
                            nodes@[edges@.len() as int].0@,
                        )->0 < c,
                    decreases ings.len() - c,
                {
                    let (ing, slot) = ings[c];
                    assert(recipe.ingredients_spec()[c as int] == (ing@, slot as nat));
                    if !has_node(&nodes, ing) {
                        let new_ratio = match ratio.scaled(slot, count) {
                            Ok(f) => f,
                            Err(e) => {
                                proof {
                                    assert(overflow_at(
                                        gd,
                                        root,
                                        nodes@,
                                        edges@,
                                        recipes@,
                                        head as int,
                                        *recipe,
                                        c as int,
                                    ));
                                    assert forall|a0: int| #[trigger]
                                        root_fails_first(gd, root, a0) implies false by {
                                        if head > 0 {
                                            assert(set_covered(gd, node_sets(nodes@), nodes@[0].0@));
                                            assert(item_covered(gd, node_sets(nodes@), root.alternatives()[a0]));
                                        }
                                    }
                                }
                                return Err(e);
                            },
                        };
                        let ghost old_nodes = nodes@;
                        let ghost old_sets = node_sets(nodes@);
                        proof {
                            lemma_universe_contains(gd.recipes@, kr, c as int);
                        }
                        nodes.push((ing.duplicate(), new_ratio));
                        let child = nodes.len() - 1;
                        edges.push((child, head, recipe_idx));
                        proof {
                            let sets = node_sets(nodes@);
                            assert(sets =~= old_sets.push(ing@));
                            assert(sets.no_duplicates()) by {
                                assert forall|i: int, j: int| 0 <= i < j < sets.len() implies sets[i] != sets[j] by {
                                    if j == sets.len() - 1 {
                                        if sets[i] == sets[j] {
                                            assert(old_sets[i] == ing@);
                                        }
                                    } else {
                                        assert(sets[i] == old_sets[i] && sets[j] == old_sets[j]);
                                    }
                                }
                            }
                            assert forall|i: int| 1 <= i < sets.len() implies universe(
                                gd.recipes@,
                            ).contains(#[trigger] sets[i]) by {
                                assert(sets[i] == nodes@[i].0@);
                            }
                            lemma_node_bound(sets, universe(gd.recipes@));
                            lemma_tried_push(gd, old_sets, ing@, head as int);
                            assert forall|k: int| 0 <= k < recipe_idx implies recipe_covered(
                                sets,
                                *(#[trigger] recipes@[k]),
                            ) by {
                                lemma_recipe_covered_push(old_sets, ing@, *recipes@[k]);
                            }
                            assert(first_use(recipes@, recipe_idx as int, ing@)) by {
                                assert forall|k2: int, j: int|
                                    0 <= k2 < recipe_idx && 0 <= j < recipes@[k2].ingredients_spec().len()
                                    implies (#[trigger] recipes@[k2].ingredients_spec()[j]).0 != ing@ by {
                                    assert(recipe_covered(old_sets, *recipes@[k2]));
                                }
                            }
                            assert(position(recipe.ingredients_spec(), ing@) == Some(c as int)) by {
                                assert forall|j: int| 0 <= j < c implies (
                                #[trigger] recipe.ingredients_spec()[j]).0 != ing@ by {
                                    assert(old_sets.contains(recipe.ingredients_spec()[j].0));
                                }
                                lemma_position_at(recipe.ingredients_spec(), ing@, c as int);
                            }
                            assert(edge_law(*recipe, ing@, new_ratio, ratio));
                            let ne = edges@.len() - 1;
                            if ne > 0 {
                                let pe = edges@[ne - 1];
                                assert(pe.1 <= head);
                                assert(nodes@[pe.0 as int] == old_nodes[pe.0 as int]);
                                assert(edge_order(pe, edges@[ne], nodes@, recipes@));
                            }
                            assert forall|e: int| 0 < e < edges@.len() implies edge_order(
                                edges@[e - 1],
                                #[trigger] edges@[e],
                                nodes@,
                                recipes@,
                            ) by {
                                if e < ne {
                                    assert(nodes@[edges@[e - 1].0 as int] == old_nodes[edges@[e - 1].0 as int]);
                                    assert(nodes@[edges@[e].0 as int] == old_nodes[edges@[e].0 as int]);
                                }
                            }
                            assert(nodes@[head as int] == old_nodes[head as int]);
                            assert forall|h: int| 0 <= h < head implies set_covered(
                                gd,
                                sets,
                                (#[trigger] nodes@[h]).0@,
                            ) by {
                                assert(nodes@[h] == old_nodes[h]);
                                lemma_set_covered_push(gd, old_sets, ing@, old_nodes[h].0@);
                            }
                            assert forall|k: int| 0 <= k < a implies item_covered(
                                gd,
                                sets,
                                #[trigger] alt_views[k],
                            ) by {
                                lemma_item_covered_push(gd, old_sets, ing@, alt_views[k]);
                            }
                            assert forall|k: int| 0 <= k < b implies recipe_covered(
                                sets,
                                #[trigger] ms[k],
                            ) by {
                                lemma_recipe_covered_push(old_sets, ing@, ms[k]);
                            }
                            assert forall|j: int| 0 <= j <= c implies sets.contains(
                                (#[trigger] recipe.ingredients_spec()[j]).0,
                            ) by {
                                if j < c {
                                    lemma_contains_push(old_sets, ing@, recipe.ingredients_spec()[j].0);
                                } else {
                                    assert(sets[sets.len() - 1] == ing@);
                                }
                            }
                        }
                    }
                    c += 1;
                }
                assert(recipe_covered(node_sets(nodes@), ms[b as int]));
                assert(recipe_covered(node_sets(nodes@), *recipes@[recipe_idx as int]));
                b += 1;
            }
            assert(item_covered(gd, node_sets(nodes@), alt_views[a as int]));
            assert(ms.take(found.len() as int) =~= ms);
            assert(slot_tried(gd, cur@, a as int + 1) == slot_tried(gd, cur@, a as int) + ms);
            a += 1;
        }
        assert(set_covered(gd, node_sets(nodes@), nodes@[head as int].0@));
        assert(node_sets(nodes@)[head as int] == cur@);
        assert(tried(gd, node_sets(nodes@), head as int + 1) == tried(gd, node_sets(nodes@), head as int)
            + slot_tried(gd, cur@, alt_views.len() as int));
        head += 1;
    }
    proof {
        assert forall|a0: int| #[trigger] root_fails_first(gd, root, a0) implies false by {
            assert(set_covered(gd, node_sets(nodes@), nodes@[0].0@));
            assert(item_covered(gd, node_sets(nodes@), root.alternatives()[a0]));
        }
    }
    Ok(CraftGraph { nodes, edges, recipes })
}

} // verus!
