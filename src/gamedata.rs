//! The loaded dataset: recipe catalog, tag index and recipe lookup.
use vstd::prelude::*;
use crate::error::{CraftError, Fault};
use crate::items::{ItemRef, RecipeItem};
use crate::recipe::{Recipe, RecipeResult};
use crate::known::{catalog_ids, export_items, strictly_sorted};
use crate::tags::{resolve, resolve_tag_inner, texts, Tag};

verus! {

/// The concrete item ids an item reference stands for.
pub open spec fn item_ids(tags: Seq<Tag>, item: ItemRef) -> Result<Seq<Seq<char>>, Fault> {
    match item {
        ItemRef::Item(id) => Ok(seq![id]),
        ItemRef::Tag(name) => resolve(tags, name, Seq::empty()),
    }
}

/// Whether a recipe's result is one of `ids`.
pub open spec fn produces(r: Recipe, ids: Seq<Seq<char>>) -> bool {
    match r.result_spec() {
        Some(res) => ids.contains(res.id@),
        None => false,
    }
}

/// The recipes producing one of `ids`, in catalog order.
pub open spec fn matching(recipes: Seq<Recipe>, ids: Seq<Seq<char>>) -> Seq<Recipe>
    decreases recipes.len(),
{
    if recipes.len() == 0 {
        Seq::empty()
    } else {
        matching(recipes.drop_last(), ids) + if produces(recipes.last(), ids) {
            seq![recipes.last()]
        } else {
            Seq::empty()
        }
    }
}

/// The recipes that a list of references holds.
pub open spec fn derefs(v: Seq<&Recipe>) -> Seq<Recipe> {
    v.map_values(|r: &Recipe| *r)
}

/// The recipe catalog and tag index, built once and then only read.
#[derive(Debug, Clone)]
pub struct GameData {
    /// Every concrete item id used or produced by a recipe, sorted and without repeats.
    pub items: Vec<String>,
    pub recipes: Vec<Recipe>,
    pub tags: Vec<Tag>,
}

impl GameData {
    /// Every recipe has counts that fit 32 bits and a positive result count.
    pub open spec fn wf(&self) -> bool {
        forall|i: int|
            0 <= i < self.recipes@.len() ==> (#[trigger] self.recipes@[i]).counts_fit() && match self.recipes@[i].result_spec() {
                Some(res) => res.count > 0,
                None => true,
            }
    }

    /// Builds the dataset from its recipes and tags, listing every item id
    /// the recipes use or produce. Fails on a recipe whose result count is
    /// zero or whose pattern has more cells than a count holds, and when an
    /// ingredient's tag does not resolve.
    pub fn new(recipes: Vec<Recipe>, tags: Vec<Tag>) -> (r: Result<GameData, CraftError>)
        ensures
            match r {
                Ok(gd) => gd.wf() && gd.recipes@ == recipes@ && gd.tags@ == tags@
                    && strictly_sorted(texts(gd.items@)) && catalog_ids(
                    tags@,
                    recipes@,
                    recipes@.len() as int,
                ) == Ok::<Set<Seq<char>>, Fault>(texts(gd.items@).to_set()),
                Err(e) => (e is ZeroResultCount && exists|i: int|
                    0 <= i < recipes@.len() && (#[trigger] recipes@[i]).result_spec() == Some(
                        RecipeResult { count: 0, id: recipes@[i].result_spec()->0.id },
                    )) || (e is PatternTooLarge && exists|i: int|
                    0 <= i < recipes@.len() && !(#[trigger] recipes@[i]).counts_fit())
                    || catalog_ids(tags@, recipes@, recipes@.len() as int) == Err::<
                    Set<Seq<char>>,
                    Fault,
                >(e@),
            },
    {
        let mut i: usize = 0;
        while i < recipes.len()
            invariant
                i <= recipes.len(),
                forall|k: int|
                    0 <= k < i ==> (#[trigger] recipes@[k]).counts_fit() && match recipes@[k].result_spec() {
                        Some(res) => res.count > 0,
                        None => true,
                    },
            decreases recipes.len() - i,
        {
            if let Some(res) = recipes[i].get_result() {
                if res.count == 0 {
                    return Err(CraftError::ZeroResultCount);
                }
            }
            if !recipes[i].fits() {
                return Err(CraftError::PatternTooLarge);
            }
            i += 1;
        }
        let items = export_items(&recipes, &tags)?;
        Ok(GameData { items, recipes, tags })
    }

    /// Flattens a tag of the index into concrete item ids.
    pub fn resolve_tag<'a>(&'a self, tag_name: &str) -> (r: Result<Vec<&'a str>, CraftError>)
        ensures
            match r {
                Ok(ids) => resolve(self.tags@, tag_name@, Seq::empty()) == Ok::<
                    Seq<Seq<char>>,
                    Fault,
                >(ids@.map_values(|s: &str| s@)),
                Err(e) => resolve(self.tags@, tag_name@, Seq::empty()) == Err::<
                    Seq<Seq<char>>,
                    Fault,
                >(e@),
            },
    {
        resolve_tag_inner(tag_name, &self.tags)
    }

    /// The concrete ids an item reference stands for.
    fn resolve_item<'a>(&'a self, item: &'a RecipeItem) -> (r: Result<Vec<&'a str>, CraftError>)
        ensures
            match r {
                Ok(ids) => item_ids(self.tags@, item@) == Ok::<Seq<Seq<char>>, Fault>(
                    ids@.map_values(|s: &str| s@),
                ),
                Err(e) => item_ids(self.tags@, item@) == Err::<Seq<Seq<char>>, Fault>(e@),
            },
    {
        match item {
            RecipeItem::Item(id) => {
                let v = vec![id.as_str()];
                assert(v@.map_values(|s: &str| s@) =~= seq![id@]);
                Ok(v)
            },
            RecipeItem::Tag(id) => self.resolve_tag(id.as_str()),
        }
    }

    /// Every recipe whose result is one of the ids the reference stands
    /// for, in catalog order; fails when a tag does not resolve.
    pub fn get_recipes_for_item(&self, item: &RecipeItem) -> (r: Result<Vec<&Recipe>, CraftError>)
        ensures
            match r {
                Ok(v) => item_ids(self.tags@, item@) matches Ok(ids) && derefs(v@) == matching(
                    self.recipes@,
                    ids,
                ),
                Err(e) => item_ids(self.tags@, item@) == Err::<Seq<Seq<char>>, Fault>(e@),
            },
    {
        let item_ids = self.resolve_item(item)?;
        let ghost ids = item_ids@.map_values(|s: &str| s@);
        let mut recipes: Vec<&Recipe> = Vec::new();
        let mut i: usize = 0;
        assert(self.recipes@.take(0) =~= Seq::<Recipe>::empty());
        assert(derefs(recipes@) =~= Seq::<Recipe>::empty());
        while i < self.recipes.len()
            invariant
                i <= self.recipes.len(),
                ids == item_ids@.map_values(|s: &str| s@),
                derefs(recipes@) == matching(self.recipes@.take(i as int), ids),
            decreases self.recipes.len() - i,
        {
            let recipe = &self.recipes[i];
            assert(self.recipes@.take(i as int + 1).drop_last() =~= self.recipes@.take(i as int));
            let ghost before = recipes@;
            if let Some(result) = recipe.get_result() {
                if contains_id(&item_ids, result.id.as_str()) {
                    recipes.push(recipe);
                    assert(derefs(recipes@) =~= derefs(before) + seq![*recipe]);
                }
            }
            i += 1;
        }
        assert(self.recipes@.take(self.recipes.len() as int) =~= self.recipes@);
        Ok(recipes)
    }
}

/// Whether `id` is among `ids`.
fn contains_id(ids: &Vec<&str>, id: &str) -> (r: bool)
    ensures
        r == ids@.map_values(|s: &str| s@).contains(id@),
{
    let key = String::from_str(id);
    let mut i: usize = 0;
    while i < ids.len()
        invariant
            i <= ids.len(),
            key@ == id@,
            forall|j: int| 0 <= j < i ==> ids@[j]@ != id@,
        decreases ids.len() - i,
    {
        if String::from_str(ids[i]).eq(&key) {
            assert(ids@.map_values(|s: &str| s@)[i as int] == id@);
            return true;
        }
        i += 1;
    }
    proof {
        let v = ids@.map_values(|s: &str| s@);
        if v.contains(id@) {
            let j = choose|j: int| 0 <= j < v.len() && v[j] == id@;
            assert(ids@[j]@ == id@);
        }
    }
    false
}

} // verus!
