//! Text forms of ratios, slots, recipes and crafting graphs.
use vstd::prelude::*;
use crate::fraction::Fraction;
use crate::graph::CraftGraph;
use crate::items::{ItemRef, ItemRefSet, RecipeItems};
use crate::recipe::{pairs_view, Recipe};

verus! {

/// The character of decimal digit `d`.
pub open spec fn digit_char(d: nat) -> char {
    if d == 0 { '0' } else if d == 1 { '1' } else if d == 2 { '2' } else if d == 3 { '3' }
    else if d == 4 { '4' } else if d == 5 { '5' } else if d == 6 { '6' } else if d == 7 { '7' }
    else if d == 8 { '8' } else { '9' }
}

/// The decimal form of `n`, without leading zeros.
pub open spec fn decimal(n: nat) -> Seq<char>
    decreases n,
{
    if n < 10 {
        seq![digit_char(n)]
    } else {
        decimal(n / 10).push(digit_char(n % 10))
    }
}

/// A ratio as `n`, or `n/d` when the denominator is not one.
pub open spec fn ratio_text(r: Fraction) -> Seq<char> {
    if r.denom == 1 {
        decimal(r.numer as nat)
    } else {
        decimal(r.numer as nat) + seq!['/'] + decimal(r.denom as nat)
    }
}

/// A reference: its id, with a leading `#` for a tag.
pub open spec fn ref_text(i: ItemRef) -> Seq<char> {
    match i {
        ItemRef::Item(id) => id,
        ItemRef::Tag(id) => seq!['#'] + id,
    }
}

/// References joined by `", "`.
pub open spec fn joined(v: Seq<ItemRef>) -> Seq<char>
    decreases v.len(),
{
    if v.len() == 0 {
        Seq::empty()
    } else if v.len() == 1 {
        ref_text(v[0])
    } else {
        joined(v.drop_last()) + seq![',', ' '] + ref_text(v.last())
    }
}

/// A slot: the single reference, or the alternatives in brackets.
pub open spec fn slot_text(s: ItemRefSet) -> Seq<char> {
    match s {
        ItemRefSet::Single(i) => ref_text(i),
        ItemRefSet::Multiple(v) => seq!['['] + joined(v) + seq![']'],
    }
}

/// The one-character text of a decimal digit.
fn digit_str(d: u64) -> (r: &'static str)
    requires
        d < 10,
    ensures
        r@ == seq![digit_char(d as nat)],
{
    proof {
        reveal_strlit("0");
        reveal_strlit("1");
        reveal_strlit("2");
        reveal_strlit("3");
        reveal_strlit("4");
        reveal_strlit("5");
        reveal_strlit("6");
        reveal_strlit("7");
        reveal_strlit("8");
        reveal_strlit("9");
    }
    if d == 0 { "0" } else if d == 1 { "1" } else if d == 2 { "2" } else if d == 3 { "3" }
    else if d == 4 { "4" } else if d == 5 { "5" } else if d == 6 { "6" } else if d == 7 { "7" }
    else if d == 8 { "8" } else { "9" }
}

/// Appends the decimal form of `n`.
fn append_decimal(s: &mut String, n: u64)
    ensures
        final(s)@ == old(s)@ + decimal(n as nat),
    decreases n,
{
    if n >= 10 {
        append_decimal(s, n / 10);
    }
    s.append(digit_str(n % 10));
    proof {
        if n >= 10 {
            assert(decimal(n as nat) == decimal((n / 10) as nat).push(digit_char((n % 10) as nat)));
        }
    }
    assert(s@ =~= old(s)@ + decimal(n as nat));
}

impl Fraction {
    /// The ratio as `n`, or `n/d` when the denominator is not one.
    pub fn to_text(&self) -> (r: String)
        ensures
            r@ == ratio_text(*self),
    {
        let mut s = String::new();
        append_decimal(&mut s, self.numer as u64);
        if self.denom != 1 {
            proof {
                reveal_strlit("/");
            }
            s.append("/");
            append_decimal(&mut s, self.denom as u64);
        }
        assert(s@ =~= ratio_text(*self));
        s
    }
}

impl RecipeItems {
    /// The slot as text: the reference, or the alternatives in brackets.
    pub fn to_text(&self) -> (r: String)
        ensures
            r@ == slot_text(self@),
    {
        match self {
            RecipeItems::Single(item) => item.to_text(),
            RecipeItems::Multiple(items) => {
                proof {
                    reveal_strlit("[");
                    reveal_strlit("]");
                    reveal_strlit(", ");
                }
                let ghost v = items@.map_values(|x: crate::items::RecipeItem| x@);
                let mut s = String::from_str("[");
                let mut i: usize = 0;
                while i < items.len()
                    invariant
                        i <= items.len(),
                        v == items@.map_values(|x: crate::items::RecipeItem| x@),
                        s@ == seq!['['] + joined(v.take(i as int)),
                    decreases items.len() - i,
                {
                    assert(v.take(i as int + 1).drop_last() =~= v.take(i as int));
                    assert(v.take(i as int + 1).last() == v[i as int]);
                    assert(v[i as int] == items@[i as int]@);
                    proof {
                        reveal_strlit(", ");
                    }
                    assert(", "@ =~= seq![',', ' ']);
                    let ghost prev = s@;
                    if i > 0 {
                        s.append(", ");
                    }
                    let t = items[i].to_text();
                    assert(t@ == ref_text(v[i as int]));
                    s.append(t.as_str());
                    proof {
                        if i == 0 {
                            assert(v.take(1) =~= seq![v[0]]);
                            assert(joined(v.take(1)) == ref_text(v[0]));
                            assert(prev =~= seq!['[']);
                        } else {
                            assert(joined(v.take(i as int + 1)) == joined(v.take(i as int)) + seq![
                                ',',
                                ' ',
                            ] + ref_text(v[i as int]));
                        }
                    }
                    assert(s@ =~= seq!['['] + joined(v.take(i as int + 1)));
                    i += 1;
                }
                assert(v.take(items.len() as int) =~= v);
                proof {
                    reveal_strlit("]");
                }
                s.append("]");
                assert(s@ =~= slot_text(self@));
                s
            },
        }
    }
}

/// The ingredients of a recipe with counts: `slot xN`, joined by `", "`.
pub open spec fn ingredients_text(v: Seq<(ItemRefSet, nat)>) -> Seq<char>
    decreases v.len(),
{
    if v.len() == 0 {
        Seq::empty()
    } else {
        let last = slot_text(v.last().0) + seq![' ', 'x'] + decimal(v.last().1);
        if v.len() == 1 {
            last
        } else {
            ingredients_text(v.drop_last()) + seq![',', ' '] + last
        }
    }
}

/// A recipe as `ingredients -> id xN (Kind)`; the arrow part is left out
/// for a kind without a result.
pub open spec fn recipe_text(r: Recipe, kind: Seq<char>) -> Seq<char> {
    ingredients_text(r.ingredients_spec()) + match r.result_spec() {
        Some(res) => seq![' ', '-', '>', ' '] + res.id@ + seq![' ', 'x'] + decimal(res.count as nat),
        None => Seq::empty(),
    } + seq![' ', '('] + kind + seq![')']
}

impl Recipe {
    /// The recipe as `ingredients -> id xN (Kind)`.
    pub fn to_text(&self) -> (r: String)
        requires
            self.counts_fit(),
        ensures
            r@ == recipe_text(*self, self.get_kind_spec()),
    {
        proof {
            reveal_strlit(", ");
            reveal_strlit(" x");
            reveal_strlit(" -> ");
            reveal_strlit(" (");
            reveal_strlit(")");
        }
        let ings = self.get_ingredients();
        let ghost v = pairs_view(ings@);
        let mut s = String::new();
        let mut i: usize = 0;
        assert(v.take(0) =~= Seq::<(ItemRefSet, nat)>::empty());
        while i < ings.len()
            invariant
                i <= ings.len(),
                v == pairs_view(ings@),
                s@ == ingredients_text(v.take(i as int)),
            decreases ings.len() - i,
        {
            assert(v.take(i as int + 1).drop_last() =~= v.take(i as int));
            assert(v.take(i as int + 1).last() == v[i as int]);
            assert(v[i as int] == (ings@[i as int].0@, ings@[i as int].1 as nat));
            proof {
                reveal_strlit(", ");
                reveal_strlit(" x");
            }
            assert(", "@ =~= seq![',', ' ']);
            assert(" x"@ =~= seq![' ', 'x']);
            let ghost prev = s@;
            if i > 0 {
                s.append(", ");
            }
            let t = ings[i].0.to_text();
            s.append(t.as_str());
            s.append(" x");
            append_decimal(&mut s, ings[i].1 as u64);
            proof {
                let last = slot_text(v[i as int].0) + seq![' ', 'x'] + decimal(v[i as int].1);
                if i == 0 {
                    assert(v.take(1) =~= seq![v[0]]);
                    assert(ingredients_text(v.take(1)) == last);
                    assert(prev =~= Seq::<char>::empty());
                } else {
                    assert(ingredients_text(v.take(i as int + 1)) == ingredients_text(
                        v.take(i as int),
                    ) + seq![',', ' '] + last);
                }
            }
            assert(s@ =~= ingredients_text(v.take(i as int + 1)));
            i += 1;
        }
        assert(v.take(ings.len() as int) =~= v);
        proof {
            reveal_strlit(" -> ");
            reveal_strlit(" x");
            reveal_strlit(" (");
            reveal_strlit(")");
        }
        assert(" -> "@ =~= seq![' ', '-', '>', ' ']);
        assert(" x"@ =~= seq![' ', 'x']);
        assert(" ("@ =~= seq![' ', '(']);
        assert(")"@ =~= seq![')']);
        if let Some(result) = self.get_result() {
            s.append(" -> ");
            s.append(result.id.as_str());
            s.append(" x");
            append_decimal(&mut s, result.count as u64);
        }
        s.append(" (");
        s.append(self.get_kind());
        s.append(")");
        assert(s@ =~= recipe_text(*self, self.get_kind_spec()));
        s
    }
}

/// One node line: `index: slot xratio`.
pub open spec fn node_line(i: nat, n: (RecipeItems, Fraction)) -> Seq<char> {
    decimal(i) + seq![':', ' '] + slot_text(n.0@) + seq![' ', 'x'] + ratio_text(n.1) + seq!['\n']
}

/// The lines of the first `k` nodes.
pub open spec fn nodes_text(nodes: Seq<(RecipeItems, Fraction)>, k: int) -> Seq<char>
    decreases k,
{
    if k <= 0 {
        Seq::empty()
    } else {
        nodes_text(nodes, k - 1) + node_line((k - 1) as nat, nodes[k - 1])
    }
}

/// One edge line: `child -> parent (recipe)`.
pub open spec fn edge_line(e: (usize, usize, usize), r: Recipe) -> Seq<char> {
    decimal(e.0 as nat) + seq![' ', '-', '>', ' '] + decimal(e.1 as nat) + seq![' ', '(']
        + recipe_text(r, r.get_kind_spec()) + seq![')', '\n']
}

/// The lines of the first `k` edges.
pub open spec fn edges_text(edges: Seq<(usize, usize, usize)>, recipes: Seq<&Recipe>, k: int) -> Seq<char>
    decreases k,
{
    if k <= 0 {
        Seq::empty()
    } else {
        edges_text(edges, recipes, k - 1) + edge_line(edges[k - 1], *recipes[edges[k - 1].2 as int])
    }
}

impl<'a> CraftGraph<'a> {
    /// The node listing, then the edge listing, one per line.
    pub fn to_text(&self) -> (r: String)
        requires
            forall|e: int| 0 <= e < self.edges@.len() ==> (#[trigger] self.edges@[e]).2 < self.recipes@.len(),
            forall|k: int| 0 <= k < self.recipes@.len() ==> (#[trigger] self.recipes@[k]).counts_fit(),
        ensures
            r@ == seq!['N', 'O', 'D', 'E', 'S', ':', '\n'] + nodes_text(self.nodes@, self.nodes@.len() as int)
                + seq!['E', 'D', 'G', 'E', 'S', ':', '\n'] + edges_text(
                self.edges@,
                self.recipes@,
                self.edges@.len() as int,
            ),
    {
        proof {
            reveal_strlit("NODES:\n");
        }
        let mut s = String::from_str("NODES:\n");
        let ghost start = s@;
        let mut i: usize = 0;
        while i < self.nodes.len()
            invariant
                i <= self.nodes.len(),
                s@ == start + nodes_text(self.nodes@, i as int),
            decreases self.nodes.len() - i,
        {
            proof {
                reveal_strlit(": ");
                reveal_strlit(" x");
                reveal_strlit("\n");
            }
            assert(": "@ =~= seq![':', ' ']);
            assert(" x"@ =~= seq![' ', 'x']);
            assert("\n"@ =~= seq!['\n']);
            append_decimal(&mut s, i as u64);
            s.append(": ");
            let t = self.nodes[i].0.to_text();
            s.append(t.as_str());
            s.append(" x");
            let q = self.nodes[i].1.to_text();
            s.append(q.as_str());
            s.append("\n");
            assert(s@ =~= start + nodes_text(self.nodes@, i as int + 1));
            i += 1;
        }
        proof {
            reveal_strlit("EDGES:\n");
        }
        s.append("EDGES:\n");
        let ghost mid = s@;
        let mut e: usize = 0;
        while e < self.edges.len()
            invariant
                e <= self.edges.len(),
                forall|x: int| 0 <= x < self.edges@.len() ==> (#[trigger] self.edges@[x]).2 < self.recipes@.len(),
                forall|k: int| 0 <= k < self.recipes@.len() ==> (#[trigger] self.recipes@[k]).counts_fit(),
                s@ == mid + edges_text(self.edges@, self.recipes@, e as int),
            decreases self.edges.len() - e,
        {
            proof {
                reveal_strlit(" -> ");
                reveal_strlit(" (");
                reveal_strlit(")\n");
            }
            assert(" -> "@ =~= seq![' ', '-', '>', ' ']);
            assert(" ("@ =~= seq![' ', '(']);
            assert(")\n"@ =~= seq![')', '\n']);
            let (child, parent, k) = self.edges[e];
            assert(self.edges@[e as int].2 < self.recipes@.len());
            let recipe: &Recipe = self.recipes[k];
            assert(recipe.counts_fit());
            append_decimal(&mut s, child as u64);
            s.append(" -> ");
            append_decimal(&mut s, parent as u64);
            s.append(" (");
            let t = recipe.to_text();
            s.append(t.as_str());
            s.append(")\n");
            assert(s@ =~= mid + edges_text(self.edges@, self.recipes@, e as int + 1));
            e += 1;
        }
        s
    }
}

} // verus!
