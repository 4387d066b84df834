//! The sorted list of every concrete item id a catalog uses or produces.
use vstd::prelude::*;
use crate::error::{CraftError, Fault};
use crate::gamedata::item_ids;
use crate::items::{ItemRef, RecipeItem};
use crate::recipe::{pairs_view, Recipe};
use crate::tags::{resolve_tag_inner, texts, Tag};

verus! {

/// Lexicographic order on characters, the order of `str` comparison.
pub open spec fn lex_lt(a: Seq<char>, b: Seq<char>) -> bool
    decreases a.len(),
{
    if a.len() == 0 {
        b.len() > 0
    } else if b.len() == 0 {
        false
    } else if a[0] != b[0] {
        (a[0] as u32) < (b[0] as u32)
    } else {
        lex_lt(a.drop_first(), b.drop_first())
    }
}

/// Strictly increasing, hence without repeats.
pub open spec fn strictly_sorted(v: Seq<Seq<char>>) -> bool {
    forall|i: int, j: int| 0 <= i < j < v.len() ==> lex_lt(#[trigger] v[i], #[trigger] v[j])
}

proof fn lemma_lex_transitive(a: Seq<char>, b: Seq<char>, c: Seq<char>)
    requires
        lex_lt(a, b),
        lex_lt(b, c),
    ensures
        lex_lt(a, c),
    decreases a.len(),
{
    if a.len() > 0 && b.len() > 0 && c.len() > 0 && a[0] == b[0] && b[0] == c[0] {
        lemma_lex_transitive(a.drop_first(), b.drop_first(), c.drop_first());
    }
}

proof fn lemma_lex_total(a: Seq<char>, b: Seq<char>)
    requires
        a != b,
    ensures
        lex_lt(a, b) || lex_lt(b, a),
    decreases a.len(),
{
    if a.len() > 0 && b.len() > 0 && a[0] == b[0] {
        if a.drop_first() == b.drop_first() {
            assert(a =~= seq![a[0]] + a.drop_first());
            assert(b =~= seq![b[0]] + b.drop_first());
        }
        lemma_lex_total(a.drop_first(), b.drop_first());
    } else if a.len() > 0 && b.len() > 0 {
        vstd::utf8::char_u32_cast(a[0], a[0] as u32);
        vstd::utf8::char_u32_cast(b[0], b[0] as u32);
    } else if a.len() == 0 && b.len() == 0 {
        assert(a =~= b);
    }
}

proof fn lemma_lex_asym(a: Seq<char>, b: Seq<char>)
    ensures
        !(lex_lt(a, b) && lex_lt(b, a)),
    decreases a.len(),
{
    if a.len() > 0 && b.len() > 0 && a[0] == b[0] {
        lemma_lex_asym(a.drop_first(), b.drop_first());
    }
}

/// With equal first `i` characters, the order is that of what follows.
proof fn lemma_lex_skip(a: Seq<char>, b: Seq<char>, i: int)
    requires
        0 <= i <= a.len(),
        i <= b.len(),
        a.take(i) == b.take(i),
    ensures
        lex_lt(a, b) == lex_lt(a.skip(i), b.skip(i)),
    decreases i,
{
    if i > 0 {
        assert(a[0] == a.take(i)[0] && b[0] == b.take(i)[0]);
        assert(a.drop_first().take(i - 1) =~= a.take(i).drop_first());
        assert(b.drop_first().take(i - 1) =~= b.take(i).drop_first());
        lemma_lex_skip(a.drop_first(), b.drop_first(), i - 1);
        assert(a.drop_first().skip(i - 1) =~= a.skip(i));
        assert(b.drop_first().skip(i - 1) =~= b.skip(i));
    } else {
        assert(a.skip(0) =~= a);
        assert(b.skip(0) =~= b);
    }
}

/// Whether `a` comes before `b`.
fn str_lt(a: &str, b: &str) -> (r: bool)
    ensures
        r == lex_lt(a@, b@),
{
    let n = a.unicode_len();
    let m = b.unicode_len();
    let mut i: usize = 0;
    while i < n && i < m
        invariant
            n == a@.len(),
            m == b@.len(),
            i <= n,
            i <= m,
            a@.take(i as int) == b@.take(i as int),
        decreases n - i,
    {
        let x = a.get_char(i);
        let y = b.get_char(i);
        if x != y {
            proof {
                lemma_lex_skip(a@, b@, i as int);
                assert(a@.skip(i as int)[0] == x && b@.skip(i as int)[0] == y);
            }
            return (x as u32) < (y as u32);
        }
        assert(a@.take(i as int + 1) =~= a@.take(i as int).push(x));
        assert(b@.take(i as int + 1) =~= b@.take(i as int).push(y));
        i += 1;
    }
    proof {
        lemma_lex_skip(a@, b@, i as int);
    }
    i < m
}

/// Adds `s` to a strictly sorted list, keeping it strictly sorted.
fn insert_sorted(list: &mut Vec<String>, s: &str)
    requires
        strictly_sorted(texts(old(list)@)),
    ensures
        strictly_sorted(texts(final(list)@)),
        texts(final(list)@).to_set() == texts(old(list)@).to_set().insert(s@),
{
    let ghost v = texts(list@);
    let mut p: usize = 0;
    while p < list.len()
        invariant
            p <= list.len(),
            list@ == old(list)@,
            v == texts(list@),
            strictly_sorted(v),
            forall|i: int| 0 <= i < p ==> lex_lt(#[trigger] v[i], s@),
        ensures
            p <= list.len(),
            list@ == old(list)@,
            v == texts(list@),
            strictly_sorted(v),
            forall|i: int| 0 <= i < p ==> lex_lt(#[trigger] v[i], s@),
            p < list.len() ==> !lex_lt(v[p as int], s@),
        decreases list.len() - p,
    {
        if !str_lt(list[p].as_str(), s) {
            break;
        }
        p += 1;
    }
    if p < list.len() && list[p].as_str().unicode_len() == s.unicode_len() && list[p].eq(
        &String::from_str(s),
    ) {
        assert(v[p as int] == s@);
        assert(v.to_set().insert(s@) =~= v.to_set());
        return;
    }
    proof {
        if p < list.len() {
            assert(v[p as int] != s@);
            lemma_lex_total(v[p as int], s@);
            assert(lex_lt(s@, v[p as int]));
        }
    }
    list.insert(p, String::from_str(s));
    proof {
        let w = texts(list@);
        assert(w =~= v.insert(p as int, s@));
        assert forall|i: int, j: int| 0 <= i < j < w.len() implies lex_lt(
            #[trigger] w[i],
            #[trigger] w[j],
        ) by {
            if j < p {
            } else if j == p {
            } else if i < p {
                if j - 1 > p {
                    assert(lex_lt(v[p as int], v[j - 1]));
                    lemma_lex_transitive(s@, v[p as int], v[j - 1]);
                }
                lemma_lex_transitive(w[i], s@, w[j]);
            } else if i == p {
                if j - 1 > p {
                    assert(lex_lt(v[p as int], v[j - 1]));
                    lemma_lex_transitive(s@, v[p as int], v[j - 1]);
                }
            } else {
                assert(w[i] == v[i - 1] && w[j] == v[j - 1]);
            }
        }
        assert forall|x: Seq<char>| w.to_set().contains(x) == v.to_set().insert(s@).contains(x) by {
            if w.to_set().contains(x) {
                let k = choose|k: int| 0 <= k < w.len() && w[k] == x;
                if k < p {
                    assert(v[k] == x);
                } else if k > p {
                    assert(v[k - 1] == x);
                }
            }
            if v.to_set().contains(x) {
                let k = choose|k: int| 0 <= k < v.len() && v[k] == x;
                if k < p {
                    assert(w[k] == x);
                } else {
                    assert(w[k + 1] == x);
                }
            }
            if x == s@ {
                assert(w[p as int] == x);
            }
        }
        assert(w.to_set() =~= v.to_set().insert(s@));
    }
}

/// The ids the first `n` references stand for.
pub open spec fn alts_ids(tags: Seq<Tag>, alts: Seq<ItemRef>, n: int) -> Result<Set<Seq<char>>, Fault>
    decreases n,
{
    if n <= 0 {
        Ok(Set::empty())
    } else {
        match alts_ids(tags, alts, n - 1) {
            Err(e) => Err(e),
            Ok(s) => match item_ids(tags, alts[n - 1]) {
                Err(e) => Err(e),
                Ok(ids) => Ok(s.union(ids.to_set())),
            },
        }
    }
}

/// The ids the references of the first `n` ingredient slots stand for.
pub open spec fn slots_ids(tags: Seq<Tag>, ings: Seq<(crate::items::ItemRefSet, nat)>, n: int) -> Result<
    Set<Seq<char>>,
    Fault,
>
    decreases n,
{
    if n <= 0 {
        Ok(Set::empty())
    } else {
        match slots_ids(tags, ings, n - 1) {
            Err(e) => Err(e),
            Ok(s) => {
                let alts = ings[n - 1].0.alternatives();
                match alts_ids(tags, alts, alts.len() as int) {
                    Err(e) => Err(e),
                    Ok(t) => Ok(s.union(t)),
                }
            },
        }
    }
}

/// The ids a recipe consumes or produces.
pub open spec fn recipe_ids(tags: Seq<Tag>, r: Recipe) -> Result<Set<Seq<char>>, Fault> {
    let ings = r.ingredients_spec();
    match slots_ids(tags, ings, ings.len() as int) {
        Err(e) => Err(e),
        Ok(s) => Ok(
            match r.result_spec() {
                Some(res) => s.insert(res.id@),
                None => s,
            },
        ),
    }
}

/// The ids the first `n` recipes consume or produce.
pub open spec fn catalog_ids(tags: Seq<Tag>, recipes: Seq<Recipe>, n: int) -> Result<
    Set<Seq<char>>,
    Fault,
>
    decreases n,
{
    if n <= 0 {
        Ok(Set::empty())
    } else {
        match catalog_ids(tags, recipes, n - 1) {
            Err(e) => Err(e),
            Ok(s) => match recipe_ids(tags, recipes[n - 1]) {
                Err(e) => Err(e),
                Ok(t) => Ok(s.union(t)),
            },
        }
    }
}

proof fn lemma_alts_err(tags: Seq<Tag>, alts: Seq<ItemRef>, n: int, m: int)
    requires
        0 < n <= m,
        alts_ids(tags, alts, n) is Err,
    ensures
        alts_ids(tags, alts, m) == alts_ids(tags, alts, n),
    decreases m - n,
{
    if n < m {
        lemma_alts_err(tags, alts, n, m - 1);
    }
}

proof fn lemma_slots_err(tags: Seq<Tag>, ings: Seq<(crate::items::ItemRefSet, nat)>, n: int, m: int)
    requires
        0 < n <= m,
        slots_ids(tags, ings, n) is Err,
    ensures
        slots_ids(tags, ings, m) == slots_ids(tags, ings, n),
    decreases m - n,
{
    if n < m {
        lemma_slots_err(tags, ings, n, m - 1);
    }
}

proof fn lemma_catalog_err(tags: Seq<Tag>, recipes: Seq<Recipe>, n: int, m: int)
    requires
        0 < n <= m,
        catalog_ids(tags, recipes, n) is Err,
    ensures
        catalog_ids(tags, recipes, m) == catalog_ids(tags, recipes, n),
    decreases m - n,
{
    if n < m {
        lemma_catalog_err(tags, recipes, n, m - 1);
    }
}

/// Adds every id of `ids` to a strictly sorted list.
fn add_all(list: &mut Vec<String>, ids: &Vec<&str>)
    requires
        strictly_sorted(texts(old(list)@)),
    ensures
        strictly_sorted(texts(final(list)@)),
        texts(final(list)@).to_set() == texts(old(list)@).to_set().union(
            ids@.map_values(|s: &str| s@).to_set(),
        ),
{
    let ghost v = ids@.map_values(|s: &str| s@);
    let mut i: usize = 0;
    while i < ids.len()
        invariant
            i <= ids.len(),
            v == ids@.map_values(|s: &str| s@),
            strictly_sorted(texts(list@)),
            texts(list@).to_set() == texts(old(list)@).to_set().union(v.take(i as int).to_set()),
        decreases ids.len() - i,
    {
        insert_sorted(list, ids[i]);
        assert(v.take(i as int + 1) =~= v.take(i as int).push(v[i as int]));
        proof {
            v.take(i as int).lemma_push_to_set_commute(v[i as int]);
        }
        assert(texts(list@).to_set() =~= texts(old(list)@).to_set().union(
            v.take(i as int + 1).to_set(),
        ));
        i += 1;
    }
    assert(v.take(ids.len() as int) =~= v);
}

/// Adds the ids a reference stands for.
fn add_item_ids(list: &mut Vec<String>, item: &RecipeItem, tags: &Vec<Tag>) -> (r: Result<(), CraftError>)
    requires
        strictly_sorted(texts(old(list)@)),
    ensures
        strictly_sorted(texts(final(list)@)),
        match r {
            Ok(_) => item_ids(tags@, item@) matches Ok(ids) && texts(final(list)@).to_set()
                == texts(old(list)@).to_set().union(ids.to_set()),
            Err(e) => item_ids(tags@, item@) == Err::<Seq<Seq<char>>, Fault>(e@),
        },
{
    match item {
        RecipeItem::Item(id) => {
            insert_sorted(list, id.as_str());
            proof {
                Seq::<Seq<char>>::empty().lemma_push_to_set_commute(id@);
                assert(Seq::<Seq<char>>::empty().push(id@) =~= seq![id@]);
                assert(Seq::<Seq<char>>::empty().to_set() =~= Set::empty());
            }
            assert(texts(list@).to_set() =~= texts(old(list)@).to_set().union(seq![id@].to_set()));
            Ok(())
        },
        RecipeItem::Tag(name) => {
            let ids = resolve_tag_inner(name.as_str(), tags)?;
            add_all(list, &ids);
            Ok(())
        },
    }
}

/// Every concrete item id that a recipe of the catalog consumes (tags
/// resolved) or produces, sorted and without repeats; fails when a tag
/// referenced by an ingredient does not resolve.
pub fn export_items(recipes: &Vec<Recipe>, tags: &Vec<Tag>) -> (r: Result<Vec<String>, CraftError>)
    requires
        forall|i: int| 0 <= i < recipes@.len() ==> (#[trigger] recipes@[i]).counts_fit(),
    ensures
        match r {
            Ok(items) => strictly_sorted(texts(items@)) && catalog_ids(
                tags@,
                recipes@,
                recipes@.len() as int,
            ) == Ok::<Set<Seq<char>>, Fault>(texts(items@).to_set()),
            Err(e) => catalog_ids(tags@, recipes@, recipes@.len() as int) == Err::<
                Set<Seq<char>>,
                Fault,
            >(e@),
        },
{
    let mut list: Vec<String> = Vec::new();
    assert(texts(list@).to_set() =~= Set::<Seq<char>>::empty());
    let mut i: usize = 0;
    while i < recipes.len()
        invariant
            i <= recipes.len(),
            forall|k: int| 0 <= k < recipes@.len() ==> (#[trigger] recipes@[k]).counts_fit(),
            strictly_sorted(texts(list@)),
            catalog_ids(tags@, recipes@, i as int) == Ok::<Set<Seq<char>>, Fault>(
                texts(list@).to_set(),
            ),
        decreases recipes.len() - i,
    {
        let recipe = &recipes[i];
        assert(recipe.counts_fit());
        let ghost base = texts(list@).to_set();
        let ings = recipe.get_ingredients();
        let ghost iv = recipe.ingredients_spec();
        let mut j: usize = 0;
        while j < ings.len()
            invariant
                i < recipes.len(),
                recipe == &recipes@[i as int],
                forall|k: int| 0 <= k < recipes@.len() ==> (#[trigger] recipes@[k]).counts_fit(),
                catalog_ids(tags@, recipes@, i as int) == Ok::<Set<Seq<char>>, Fault>(base),
                iv == recipe.ingredients_spec(),
                pairs_view(ings@) == iv,
                j <= ings.len(),
                strictly_sorted(texts(list@)),
                slots_ids(tags@, iv, j as int) matches Ok(acc) && texts(list@).to_set()
                    == base.union(acc),
            decreases ings.len() - j,
        {
            let ghost acc = slots_ids(tags@, iv, j as int)->Ok_0;
            let alts = ings[j].0.iter();
            let ghost av = iv[j as int].0.alternatives();
            assert(alts@.map_values(|x: &RecipeItem| x@) == av);
            let mut a: usize = 0;
            while a < alts.len()
                invariant
                    i < recipes.len(),
                    recipe == &recipes@[i as int],
                    forall|k: int| 0 <= k < recipes@.len() ==> (#[trigger] recipes@[k]).counts_fit(),
                    catalog_ids(tags@, recipes@, i as int) == Ok::<Set<Seq<char>>, Fault>(base),
                    iv == recipe.ingredients_spec(),
                    pairs_view(ings@) == iv,
                    j < ings.len(),
                    slots_ids(tags@, iv, j as int) == Ok::<Set<Seq<char>>, Fault>(acc),
                    alts@.map_values(|x: &RecipeItem| x@) == av,
                    av == iv[j as int].0.alternatives(),
                    a <= alts.len(),
                    strictly_sorted(texts(list@)),
                    alts_ids(tags@, av, a as int) matches Ok(acc2) && texts(list@).to_set()
                        == base.union(acc).union(acc2),
                decreases alts.len() - a,
            {
                let ghost acc2 = alts_ids(tags@, av, a as int)->Ok_0;
                assert(av[a as int] == alts@[a as int]@);
                match add_item_ids(&mut list, alts[a], tags) {
                    Ok(_) => {
                        let ghost ids = item_ids(tags@, av[a as int])->Ok_0;
                        assert(texts(list@).to_set() =~= base.union(acc).union(
                            acc2.union(ids.to_set()),
                        ));
                    },
                    Err(e) => {
                        proof {
                            lemma_alts_err(tags@, av, a as int + 1, av.len() as int);
                            lemma_slots_err(tags@, iv, j as int + 1, iv.len() as int);
                            lemma_catalog_err(tags@, recipes@, i as int + 1, recipes@.len() as int);
                        }
                        return Err(e);
                    },
                }
                a += 1;
            }
            assert(texts(list@).to_set() =~= base.union(
                acc.union(alts_ids(tags@, av, av.len() as int)->Ok_0),
            ));
            j += 1;
        }
        let ghost acc = slots_ids(tags@, iv, iv.len() as int)->Ok_0;
        if let Some(result) = recipe.get_result() {
            insert_sorted(&mut list, result.id.as_str());
            assert(texts(list@).to_set() =~= base.union(acc.insert(result.id@)));
        } else {
            assert(texts(list@).to_set() =~= base.union(acc));
        }
        i += 1;
    }
    Ok(list)
}

} // verus!
