//! Recipes: their result, their kind and the ingredients they consume.
use vstd::prelude::*;
use crate::items::{ItemRefSet, RecipeItems};
use crate::tags::texts;

verus! {

/// The count a result has when the record gives none.
pub fn default_one() -> (r: u32)
    ensures
        r == 1,
{
    1
}

/// The single output of a recipe.
#[derive(Debug, Clone)]
pub struct RecipeResult {
    pub count: u32,
    pub id: String,
}

/// A production rule. The kinds that the engine does not model keep only
/// their kind name and never produce anything.
#[derive(Debug, Clone)]
pub enum Recipe {
    Shaped {
        category: String,
        group: Option<String>,
        /// Pattern symbols (one-character strings) and the slot each stands for.
        /// A symbol listed twice stands for its first entry.
        key: Vec<(String, RecipeItems)>,
        pattern: Vec<String>,
        result: RecipeResult,
    },
    Shapeless {
        category: String,
        group: Option<String>,
        ingredients: Vec<RecipeItems>,
        result: RecipeResult,
    },
    Stonecutting { ingredient: RecipeItems, result: RecipeResult },
    Smelting {
        category: String,
        cookingtime: u32,
        /// The experience reward, as the bits of a 32-bit float.
        experience_bits: u32,
        ingredient: RecipeItems,
        result: RecipeResult,
    },
    Unsupported(String),
}

/// The slot that pattern symbol `c` stands for: the first key entry whose
/// string is exactly `c`.
pub open spec fn key_lookup(key: Seq<(String, RecipeItems)>, c: char) -> Option<ItemRefSet>
    decreases key.len(),
{
    if key.len() == 0 {
        None
    } else {
        match key_lookup(key.drop_last(), c) {
            Some(s) => Some(s),
            None => if key.last().0@ == seq![c] {
                Some(key.last().1@)
            } else {
                None
            },
        }
    }
}

/// The slots of one pattern row, skipping blank and unmapped symbols.
pub open spec fn row_cells(key: Seq<(String, RecipeItems)>, row: Seq<char>) -> Seq<ItemRefSet>
    decreases row.len(),
{
    if row.len() == 0 {
        Seq::empty()
    } else {
        row_cells(key, row.drop_last()) + match key_lookup(key, row.last()) {
            Some(s) => seq![s],
            None => Seq::empty(),
        }
    }
}

/// The slots of every non-blank cell of a pattern, row by row.
pub open spec fn pattern_cells(key: Seq<(String, RecipeItems)>, rows: Seq<Seq<char>>) -> Seq<
    ItemRefSet,
>
    decreases rows.len(),
{
    if rows.len() == 0 {
        Seq::empty()
    } else {
        pattern_cells(key, rows.drop_last()) + row_cells(key, rows.last())
    }
}

/// The index of the first entry of `acc` for slot `x`.
pub open spec fn position(acc: Seq<(ItemRefSet, nat)>, x: ItemRefSet) -> Option<int>
    decreases acc.len(),
{
    if acc.len() == 0 {
        None
    } else {
        match position(acc.drop_last(), x) {
            Some(j) => Some(j),
            None => if acc.last().0 == x {
                Some(acc.len() - 1)
            } else {
                None
            },
        }
    }
}

/// Counts one more occurrence of slot `x`.
pub open spec fn add_one(acc: Seq<(ItemRefSet, nat)>, x: ItemRefSet) -> Seq<(ItemRefSet, nat)> {
    match position(acc, x) {
        Some(j) => acc.update(j, (x, acc[j].1 + 1)),
        None => acc.push((x, 1nat)),
    }
}

/// Distinct slots in order of first occurrence, each with its number of occurrences.
pub open spec fn tally(cells: Seq<ItemRefSet>) -> Seq<(ItemRefSet, nat)>
    decreases cells.len(),
{
    if cells.len() == 0 {
        Seq::empty()
    } else {
        add_one(tally(cells.drop_last()), cells.last())
    }
}

/// The sum of the counts of an ingredient list.
pub open spec fn total(acc: Seq<(ItemRefSet, nat)>) -> nat
    decreases acc.len(),
{
    if acc.len() == 0 {
        0
    } else {
        total(acc.drop_last()) + acc.last().1
    }
}

/// The view of an extracted ingredient list.
pub open spec fn pairs_view(v: Seq<(&RecipeItems, u32)>) -> Seq<(ItemRefSet, nat)> {
    v.map_values(|p: (&RecipeItems, u32)| (p.0@, p.1 as nat))
}

/// Adding one occurrence adds one to the total.
proof fn lemma_total_add_one(acc: Seq<(ItemRefSet, nat)>, x: ItemRefSet)
    ensures
        total(add_one(acc, x)) == total(acc) + 1,
{
    match position(acc, x) {
        Some(j) => {
            lemma_position_found(acc, x);
            lemma_total_update(acc, j, (x, acc[j].1 + 1));
        },
        None => {
            assert(acc.push((x, 1nat)).drop_last() =~= acc);
        },
    }
}

/// A found position lies inside the list and holds the slot.
proof fn lemma_position_found(acc: Seq<(ItemRefSet, nat)>, x: ItemRefSet)
    requires
        position(acc, x) is Some,
    ensures
        0 <= position(acc, x)->0 < acc.len(),
        acc[position(acc, x)->0].0 == x,
    decreases acc.len(),
{
    if acc.len() > 0 && position(acc.drop_last(), x) is Some {
        lemma_position_found(acc.drop_last(), x);
    }
}

/// A slot absent from the list has no position.
pub proof fn lemma_position_none(acc: Seq<(ItemRefSet, nat)>, x: ItemRefSet)
    requires
        forall|j: int| 0 <= j < acc.len() ==> (#[trigger] acc[j]).0 != x,
    ensures
        position(acc, x) is None,
    decreases acc.len(),
{
    if acc.len() > 0 {
        lemma_position_none(acc.drop_last(), x);
    }
}

/// The first entry for a slot is its position.
pub proof fn lemma_position_at(acc: Seq<(ItemRefSet, nat)>, x: ItemRefSet, c: int)
    requires
        0 <= c < acc.len(),
        acc[c].0 == x,
        forall|j: int| 0 <= j < c ==> (#[trigger] acc[j]).0 != x,
    ensures
        position(acc, x) == Some(c),
    decreases acc.len(),
{
    if c == acc.len() - 1 {
        lemma_position_none(acc.drop_last(), x);
    } else {
        lemma_position_at(acc.drop_last(), x, c);
    }
}

/// Replacing one entry changes the total by the difference of the counts.
proof fn lemma_total_update(acc: Seq<(ItemRefSet, nat)>, j: int, e: (ItemRefSet, nat))
    requires
        0 <= j < acc.len(),
    ensures
        total(acc.update(j, e)) + acc[j].1 == total(acc) + e.1,
    decreases acc.len(),
{
    if j < acc.len() - 1 {
        assert(acc.update(j, e).drop_last() =~= acc.drop_last().update(j, e));
        lemma_total_update(acc.drop_last(), j, e);
    } else {
        assert(acc.update(j, e).drop_last() =~= acc.drop_last());
    }
}

/// No count exceeds the total.
proof fn lemma_count_le_total(acc: Seq<(ItemRefSet, nat)>, j: int)
    requires
        0 <= j < acc.len(),
    ensures
        acc[j].1 <= total(acc),
    decreases acc.len(),
{
    if j < acc.len() - 1 {
        lemma_count_le_total(acc.drop_last(), j);
    }
}

/// The counts of a tally add up to the number of cells.
pub proof fn lemma_tally_total(cells: Seq<ItemRefSet>)
    ensures
        total(tally(cells)) == cells.len(),
    decreases cells.len(),
{
    if cells.len() > 0 {
        lemma_tally_total(cells.drop_last());
        lemma_total_add_one(tally(cells.drop_last()), cells.last());
    }
}

/// Each required slot counts once for a recipe without a pattern.
proof fn lemma_total_ones(v: Seq<RecipeItems>)
    ensures
        total(v.map_values(|i: RecipeItems| (i@, 1nat))) == v.len(),
    decreases v.len(),
{
    if v.len() > 0 {
        lemma_total_ones(v.drop_last());
        assert(v.map_values(|i: RecipeItems| (i@, 1nat)).drop_last() =~= v.drop_last().map_values(
            |i: RecipeItems| (i@, 1nat),
        ));
    }
}

/// The extracted counts of a recipe add up to its number of non-blank
/// pattern cells when shaped, and to its number of slots otherwise.
pub proof fn lemma_ingredient_total(r: Recipe)
    ensures
        r matches Recipe::Shaped { key, pattern, .. } ==> total(r.ingredients_spec())
            == pattern_cells(key@, texts(pattern@)).len(),
        r matches Recipe::Shapeless { ingredients, .. } ==> total(r.ingredients_spec())
            == ingredients@.len(),
        (r is Stonecutting || r is Smelting) ==> total(r.ingredients_spec()) == 1,
        (r is Unsupported) ==> total(r.ingredients_spec()) == 0,
{
    match r {
        Recipe::Shaped { key, pattern, .. } => {
            assert(r.ingredients_spec() == tally(pattern_cells(key@, texts(pattern@))));
            lemma_tally_total(pattern_cells(key@, texts(pattern@)));
            assert(total(r.ingredients_spec()) == pattern_cells(key@, texts(pattern@)).len());
        },
        Recipe::Shapeless { ingredients, .. } => {
            lemma_total_ones(ingredients@);
        },
        Recipe::Stonecutting { ingredient, .. } => {
            assert(seq![(ingredient@, 1nat)].drop_last() =~= Seq::<(ItemRefSet, nat)>::empty());
            assert(total(Seq::<(ItemRefSet, nat)>::empty()) == 0);
            assert(r.ingredients_spec() == seq![(ingredient@, 1nat)]);
        },
        Recipe::Smelting { ingredient, .. } => {
            assert(seq![(ingredient@, 1nat)].drop_last() =~= Seq::<(ItemRefSet, nat)>::empty());
            assert(total(Seq::<(ItemRefSet, nat)>::empty()) == 0);
            assert(r.ingredients_spec() == seq![(ingredient@, 1nat)]);
        },
        Recipe::Unsupported(_) => {},
    }
}

/// A prefix of a row yields a prefix of its cells.
proof fn lemma_row_cells_step(key: Seq<(String, RecipeItems)>, row: Seq<char>, i: int)
    requires
        0 <= i < row.len(),
    ensures
        row_cells(key, row.take(i + 1)) == row_cells(key, row.take(i)) + match key_lookup(
            key,
            row[i],
        ) {
            Some(s) => seq![s],
            None => Seq::<ItemRefSet>::empty(),
        },
{
    assert(row.take(i + 1).drop_last() =~= row.take(i));
}

/// Rows taken one more at a time.
proof fn lemma_pattern_cells_step(key: Seq<(String, RecipeItems)>, rows: Seq<Seq<char>>, r: int)
    requires
        0 <= r < rows.len(),
    ensures
        pattern_cells(key, rows.take(r + 1)) == pattern_cells(key, rows.take(r)) + row_cells(
            key,
            rows[r],
        ),
{
    assert(rows.take(r + 1).drop_last() =~= rows.take(r));
}

/// The cells of a pattern prefix are no more than those of the pattern.
proof fn lemma_pattern_cells_prefix(key: Seq<(String, RecipeItems)>, rows: Seq<Seq<char>>, r: int)
    requires
        0 <= r <= rows.len(),
    ensures
        pattern_cells(key, rows.take(r)).len() <= pattern_cells(key, rows).len(),
    decreases rows.len() - r,
{
    if r < rows.len() {
        lemma_pattern_cells_step(key, rows, r);
        lemma_pattern_cells_prefix(key, rows, r + 1);
    } else {
        assert(rows.take(r) =~= rows);
    }
}

/// The cells of a row prefix are no more than those of the row.
proof fn lemma_row_cells_prefix(key: Seq<(String, RecipeItems)>, row: Seq<char>, i: int)
    requires
        0 <= i <= row.len(),
    ensures
        row_cells(key, row.take(i)).len() <= row_cells(key, row).len(),
    decreases row.len() - i,
{
    if i < row.len() {
        lemma_row_cells_step(key, row, i);
        lemma_row_cells_prefix(key, row, i + 1);
    } else {
        assert(row.take(i) =~= row);
    }
}

/// The slot that pattern symbol `c` stands for.
fn symbol_slot(key: &Vec<(String, RecipeItems)>, c: char) -> (r: Option<&RecipeItems>)
    ensures
        match r {
            Some(s) => key_lookup(key@, c) == Some(s@),
            None => key_lookup(key@, c) is None,
        },
{
    let mut i: usize = 0;
    while i < key.len()
        invariant
            i <= key.len(),
            key_lookup(key@.take(i as int), c) is None,
        decreases key.len() - i,
    {
        assert(key@.take(i as int + 1).drop_last() =~= key@.take(i as int));
        let s = key[i].0.as_str();
        if s.unicode_len() == 1 && s.get_char(0) == c {
            assert(s@ =~= seq![c]);
            proof {
                lemma_key_lookup_extend(key@, i as int + 1, c);
            }
            return Some(&key[i].1);
        }
        proof {
            if s@ == seq![c] {
                assert(s@.len() == 1);
            }
        }
        i += 1;
    }
    assert(key@.take(key.len() as int) =~= key@);
    None
}

/// A first match in a prefix of the key stays the first match.
proof fn lemma_key_lookup_extend(key: Seq<(String, RecipeItems)>, k: int, c: char)
    requires
        0 <= k <= key.len(),
        key_lookup(key.take(k), c) is Some,
    ensures
        key_lookup(key, c) == key_lookup(key.take(k), c),
    decreases key.len() - k,
{
    if k < key.len() {
        assert(key.take(k + 1).drop_last() =~= key.take(k));
        lemma_key_lookup_extend(key, k + 1, c);
    } else {
        assert(key.take(k) =~= key);
    }
}

/// A first match in a prefix of the list stays the first match.
proof fn lemma_position_extend(acc: Seq<(ItemRefSet, nat)>, k: int, x: ItemRefSet)
    requires
        0 <= k <= acc.len(),
        position(acc.take(k), x) is Some,
    ensures
        position(acc, x) == position(acc.take(k), x),
    decreases acc.len() - k,
{
    if k < acc.len() {
        assert(acc.take(k + 1).drop_last() =~= acc.take(k));
        lemma_position_extend(acc, k + 1, x);
    } else {
        assert(acc.take(k) =~= acc);
    }
}

/// Counts one more occurrence of slot `x` in `acc`.
fn count_slot<'a>(acc: &mut Vec<(&'a RecipeItems, u32)>, x: &'a RecipeItems)
    requires
        total(pairs_view(old(acc)@)) < u32::MAX,
    ensures
        pairs_view(final(acc)@) == add_one(pairs_view(old(acc)@), x@),
{
    let ghost v = pairs_view(acc@);
    let mut j: usize = 0;
    while j < acc.len()
        invariant
            j <= acc.len(),
            acc@ == old(acc)@,
            v == pairs_view(acc@),
            total(v) < u32::MAX,
            position(v.take(j as int), x@) is None,
        decreases acc.len() - j,
    {
        assert(v.take(j as int + 1).drop_last() =~= v.take(j as int));
        let e = acc[j];
        if e.0.same(x) {
            proof {
                lemma_position_extend(v, j as int + 1, x@);
                lemma_count_le_total(v, j as int);
                assert(v[j as int].1 == e.1 as nat);
            }
            acc.set(j, (e.0, e.1 + 1));
            assert(pairs_view(acc@) =~= v.update(j as int, (x@, v[j as int].1 + 1)));
            return;
        }
        j += 1;
    }
    assert(v.take(acc.len() as int) =~= v);
    acc.push((x, 1));
    assert(pairs_view(acc@) =~= v.push((x@, 1nat)));
}

impl Recipe {
    /// The result of a supported recipe.
    pub open spec fn result_spec(&self) -> Option<RecipeResult> {
        match self {
            Recipe::Shaped { result, .. } => Some(*result),
            Recipe::Shapeless { result, .. } => Some(*result),
            Recipe::Stonecutting { result, .. } => Some(*result),
            Recipe::Smelting { result, .. } => Some(*result),
            Recipe::Unsupported(_) => None,
        }
    }

    /// The ingredient slots with the number of times each is required.
    pub open spec fn ingredients_spec(&self) -> Seq<(ItemRefSet, nat)> {
        match self {
            Recipe::Shaped { key, pattern, .. } => tally(pattern_cells(key@, texts(pattern@))),
            Recipe::Shapeless { ingredients, .. } => ingredients@.map_values(
                |i: RecipeItems| (i@, 1nat),
            ),
            Recipe::Stonecutting { ingredient, .. } => seq![(ingredient@, 1nat)],
            Recipe::Smelting { ingredient, .. } => seq![(ingredient@, 1nat)],
            Recipe::Unsupported(_) => Seq::empty(),
        }
    }

    /// The counts of a shaped recipe fit 32 bits.
    pub open spec fn counts_fit(&self) -> bool {
        match self {
            Recipe::Shaped { key, pattern, .. } => pattern_cells(key@, texts(pattern@)).len()
                <= u32::MAX,
            _ => true,
        }
    }

    /// The result, for the kinds that have one.
    pub fn get_result(&self) -> (r: Option<&RecipeResult>)
        ensures
            match r {
                Some(x) => self.result_spec() == Some(*x),
                None => self.result_spec() is None,
            },
    {
        match self {
            Recipe::Shaped { result, .. } => Some(result),
            Recipe::Shapeless { result, .. } => Some(result),
            Recipe::Stonecutting { result, .. } => Some(result),
            Recipe::Smelting { result, .. } => Some(result),
            Recipe::Unsupported(_) => None,
        }
    }

    /// The ingredient slots with the number of times each is required:
    /// per distinct slot in order of first use for a shaped recipe, one per
    /// listed slot otherwise, none for an unsupported kind.
    pub fn get_ingredients(&self) -> (r: Vec<(&RecipeItems, u32)>)
        requires
            self.counts_fit(),
        ensures
            pairs_view(r@) == self.ingredients_spec(),
    {
        match self {
            Recipe::Shaped { key, pattern, .. } => {
                let ghost rows = texts(pattern@);
                let mut acc: Vec<(&RecipeItems, u32)> = Vec::new();
                let mut r: usize = 0;
                assert(rows.take(0) =~= Seq::<Seq<char>>::empty());
                while r < pattern.len()
                    invariant
                        r <= pattern.len(),
                        rows == texts(pattern@),
                        pattern_cells(key@, rows).len() <= u32::MAX,
                        pairs_view(acc@) == tally(pattern_cells(key@, rows.take(r as int))),
                    decreases pattern.len() - r,
                {
                    let row = pattern[r].as_str();
                    let n = row.unicode_len();
                    let ghost before = pattern_cells(key@, rows.take(r as int));
                    assert(rows[r as int] == row@);
                    proof {
                        lemma_pattern_cells_step(key@, rows, r as int);
                        lemma_pattern_cells_prefix(key@, rows, r as int + 1);
                    }
                    let mut i: usize = 0;
                    assert(row@.take(0) =~= Seq::<char>::empty());
                    assert(before + row_cells(key@, row@.take(0)) =~= before);
                    while i < n
                        invariant
                            i <= n,
                            n == row@.len(),
                            before + row_cells(key@, row@) == pattern_cells(
                                key@,
                                rows.take(r as int + 1),
                            ),
                            pattern_cells(key@, rows.take(r as int + 1)).len() <= u32::MAX,
                            pairs_view(acc@) == tally(before + row_cells(key@, row@.take(i as int))),
                        decreases n - i,
                    {
                        let c = row.get_char(i);
                        proof {
                            lemma_row_cells_step(key@, row@, i as int);
                            lemma_row_cells_prefix(key@, row@, i as int + 1);
                        }
                        match symbol_slot(key, c) {
                            Some(items) => {
                                let ghost cells = before + row_cells(key@, row@.take(i as int));
                                proof {
                                    lemma_tally_total(cells);
                                }
                                count_slot(&mut acc, items);
                                assert(cells.push(items@) =~= before + row_cells(
                                    key@,
                                    row@.take(i as int + 1),
                                ));
                                assert(cells.push(items@).drop_last() =~= cells);
                            },
                            None => {
                                assert(before + row_cells(key@, row@.take(i as int + 1)) =~= before
                                    + row_cells(key@, row@.take(i as int)));
                            },
                        }
                        i += 1;
                    }
                    assert(row@.take(n as int) =~= row@);
                    r += 1;
                }
                assert(rows.take(pattern.len() as int) =~= rows);
                acc
            },
            Recipe::Shapeless { ingredients, .. } => {
                let mut acc: Vec<(&RecipeItems, u32)> = Vec::new();
                let mut i: usize = 0;
                while i < ingredients.len()
                    invariant
                        i <= ingredients.len(),
                        acc@.len() == i,
                        forall|k: int|
                            0 <= k < i ==> (#[trigger] acc@[k]).0@ == ingredients@[k]@ && acc@[k].1
                                == 1,
                    decreases ingredients.len() - i,
                {
                    acc.push((&ingredients[i], 1));
                    i += 1;
                }
                assert(pairs_view(acc@) =~= ingredients@.map_values(|x: RecipeItems| (x@, 1nat)));
                acc
            },
            Recipe::Stonecutting { ingredient, .. } => {
                let acc = vec![(ingredient, 1u32)];
                assert(pairs_view(acc@) =~= seq![(ingredient@, 1nat)]);
                acc
            },
            Recipe::Smelting { ingredient, .. } => {
                let acc = vec![(ingredient, 1u32)];
                assert(pairs_view(acc@) =~= seq![(ingredient@, 1nat)]);
                acc
            },
            Recipe::Unsupported(_) => {
                let acc: Vec<(&RecipeItems, u32)> = Vec::new();
                assert(pairs_view(acc@) =~= Seq::<(ItemRefSet, nat)>::empty());
                acc
            },
        }
    }

    /// Whether the counts of this recipe fit 32 bits.
    pub fn fits(&self) -> (r: bool)
        ensures
            r == self.counts_fit(),
    {
        match self {
            Recipe::Shaped { key, pattern, .. } => {
                let ghost rows = texts(pattern@);
                let mut total_cells: u64 = 0;
                let mut r: usize = 0;
                assert(rows.take(0) =~= Seq::<Seq<char>>::empty());
                while r < pattern.len()
                    invariant
                        r <= pattern.len(),
                        rows == texts(pattern@),
                        total_cells == pattern_cells(key@, rows.take(r as int)).len(),
                        total_cells <= u32::MAX,
                        self.counts_fit() == (pattern_cells(key@, rows).len() <= u32::MAX),
                    decreases pattern.len() - r,
                {
                    let row = pattern[r].as_str();
                    let n = row.unicode_len();
                    assert(rows[r as int] == row@);
                    proof {
                        lemma_pattern_cells_step(key@, rows, r as int);
                    }
                    let ghost before = pattern_cells(key@, rows.take(r as int));
                    let mut i: usize = 0;
                    assert(row@.take(0) =~= Seq::<char>::empty());
                    while i < n
                        invariant
                            i <= n,
                            n == row@.len(),
                            total_cells == before.len() + row_cells(key@, row@.take(i as int)).len(),
                            total_cells <= u32::MAX,
                            r < pattern.len(),
                            rows == texts(pattern@),
                            self.counts_fit() == (pattern_cells(key@, rows).len() <= u32::MAX),
                            rows[r as int] == row@,
                            before == pattern_cells(key@, rows.take(r as int)),
                            pattern_cells(key@, rows.take(r as int + 1)) == before + row_cells(
                                key@,
                                row@,
                            ),
                        decreases n - i,
                    {
                        let c = row.get_char(i);
                        proof {
                            lemma_row_cells_step(key@, row@, i as int);
                        }
                        let slot = symbol_slot(key, c);
                        if slot.is_some() {
                            assert(key_lookup(key@, c) is Some);
                            if total_cells == u32::MAX as u64 {
                                proof {
                                    lemma_row_cells_prefix(key@, row@, i as int + 1);
                                    lemma_pattern_cells_prefix(key@, rows, r as int + 1);
                                    assert(row_cells(key@, row@.take(i as int + 1)).len() == row_cells(
                                        key@,
                                        row@.take(i as int),
                                    ).len() + 1);
                                }
                                return false;
                            }
                            total_cells = total_cells + 1;
                        }
                        i += 1;
                    }
                    assert(row@.take(n as int) =~= row@);
                    r += 1;
                }
                assert(rows.take(pattern.len() as int) =~= rows);
                true
            },
            _ => true,
        }
    }

    /// The name of the recipe's kind.
    pub open spec fn get_kind_spec(&self) -> Seq<char> {
        match self {
            Recipe::Shaped { .. } => "Shaped"@,
            Recipe::Shapeless { .. } => "Shapeless"@,
            Recipe::Stonecutting { .. } => "Stonecutting"@,
            Recipe::Smelting { .. } => "Smelting"@,
            Recipe::Unsupported(_) => "Unsupported"@,
        }
    }

    /// The name of the recipe's kind.
    pub fn get_kind(&self) -> (r: &str)
        ensures
            r@ == self.get_kind_spec(),
    {
        match self {
            Recipe::Shaped { .. } => "Shaped",
            Recipe::Shapeless { .. } => "Shapeless",
            Recipe::Stonecutting { .. } => "Stonecutting",
            Recipe::Smelting { .. } => "Smelting",
            Recipe::Unsupported(_) => "Unsupported",
        }
    }
}

} // verus!
