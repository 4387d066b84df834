//! The tag index and nested-tag resolution with cycle detection.
use vstd::prelude::*;
use crate::error::{CraftError, Fault};

verus! {

/// A named group of items; a value that starts with `#` names a nested tag.
#[derive(Debug, Clone)]
pub struct Tag {
    pub name: String,
    pub values: Vec<String>,
}

/// The views of a sequence of strings.
pub open spec fn texts(v: Seq<String>) -> Seq<Seq<char>> {
    v.map_values(|s: String| s@)
}

/// The declared values of a tag, as text.
pub open spec fn tag_values(t: Tag) -> Seq<Seq<char>> {
    texts(t.values@)
}

/// Whether a tag value refers to another tag.
pub open spec fn is_nested(v: Seq<char>) -> bool {
    v.len() > 0 && v[0] == '#'
}

/// The tag name that a nested value refers to.
pub open spec fn nested_name(v: Seq<char>) -> Seq<char> {
    v.subrange(1, v.len() as int)
}

/// The index of the first tag with the given name.
pub open spec fn tag_index(tags: Seq<Tag>, name: Seq<char>) -> Option<int>
    decreases tags.len(),
{
    if tags.len() == 0 {
        None
    } else {
        match tag_index(tags.drop_last(), name) {
            Some(i) => Some(i),
            None => if tags.last().name@ == name {
                Some(tags.len() - 1)
            } else {
                None
            },
        }
    }
}

/// Resolution of tag `name`, while the tags of `stack` are being resolved.
/// A name already on the stack is a cycle. A stack as deep as the index
/// would hold a repeated name, so it counts as a cycle too; this bounds the
/// recursion.
pub open spec fn resolve(tags: Seq<Tag>, name: Seq<char>, stack: Seq<Seq<char>>) -> Result<
    Seq<Seq<char>>,
    Fault,
>
    decreases tags.len() - stack.len(), 0int, 0int,
{
    if stack.contains(name) {
        Err(Fault::CyclicTag(name))
    } else {
        match tag_index(tags, name) {
            None => Err(Fault::TagNotFound(name)),
            Some(_) if stack.len() >= tags.len() => Err(Fault::CyclicTag(name)),
            Some(i) => {
                let values = tag_values(tags[i]);
                resolve_values(tags, values, stack.push(name), values.len() as int)
            },
        }
    }
}

/// Resolution of the first `n` values of a tag, with that tag on `stack`.
pub open spec fn resolve_values(
    tags: Seq<Tag>,
    values: Seq<Seq<char>>,
    stack: Seq<Seq<char>>,
    n: int,
) -> Result<Seq<Seq<char>>, Fault>
    decreases tags.len() - stack.len(), 1int, n,
{
    if n <= 0 || stack.len() > tags.len() {
        Ok(Seq::empty())
    } else {
        match resolve_values(tags, values, stack, n - 1) {
            Err(e) => Err(e),
            Ok(prefix) => {
                let v = values[n - 1];
                if is_nested(v) {
                    match resolve(tags, nested_name(v), stack) {
                        Err(e) => Err(e),
                        Ok(sub) => Ok(prefix + sub),
                    }
                } else {
                    Ok(prefix.push(v))
                }
            },
        }
    }
}

/// Whether `name` is among the tags that the strings of `stack` name.
fn on_stack(stack: &Vec<String>, name: &str) -> (r: bool)
    ensures
        r == texts(stack@).contains(name@),
{
    let mut i: usize = 0;
    while i < stack.len()
        invariant
            i <= stack.len(),
            forall|j: int| 0 <= j < i ==> stack@[j]@ != name@,
        decreases stack.len() - i,
    {
        if stack[i].as_str().unicode_len() == name.unicode_len() && stack[i].eq(&String::from_str(name)) {
            assert(texts(stack@)[i as int] == name@);
            return true;
        }
        i += 1;
    }
    proof {
        if texts(stack@).contains(name@) {
            let j = choose|j: int| 0 <= j < texts(stack@).len() && texts(stack@)[j] == name@;
            assert(stack@[j]@ == name@);
        }
    }
    false
}

/// The index of the first tag named `name`.
fn find_tag(tags: &Vec<Tag>, name: &str) -> (r: Option<usize>)
    ensures
        match r {
            Some(i) => i < tags@.len() && tag_index(tags@, name@) == Some(i as int),
            None => tag_index(tags@, name@) is None,
        },
{
    let key = String::from_str(name);
    let mut i: usize = 0;
    while i < tags.len()
        invariant
            i <= tags.len(),
            key@ == name@,
            tag_index(tags@.subrange(0, i as int), name@) is None,
        decreases tags.len() - i,
    {
        proof {
            lemma_tag_index_prefix(tags@, i as int + 1, name@);
            assert(tags@.subrange(0, i as int + 1).drop_last() =~= tags@.subrange(0, i as int));
        }
        if tags[i].name.eq(&key) {
            proof {
                lemma_tag_index_extend(tags@, i as int + 1, name@);
            }
            return Some(i);
        }
        i += 1;
    }
    assert(tags@.subrange(0, tags@.len() as int) =~= tags@);
    None
}

/// A first match in a prefix stays the first match in the whole index.
proof fn lemma_tag_index_extend(tags: Seq<Tag>, k: int, name: Seq<char>)
    requires
        0 <= k <= tags.len(),
        tag_index(tags.subrange(0, k), name) is Some,
    ensures
        tag_index(tags, name) == tag_index(tags.subrange(0, k), name),
    decreases tags.len() - k,
{
    if k < tags.len() {
        assert(tags.subrange(0, k + 1).drop_last() =~= tags.subrange(0, k));
        lemma_tag_index_extend(tags, k + 1, name);
    } else {
        assert(tags.subrange(0, k) =~= tags);
    }
}

/// Unfolding lemma used by the search loop.
proof fn lemma_tag_index_prefix(tags: Seq<Tag>, k: int, name: Seq<char>)
    requires
        0 < k <= tags.len(),
    ensures
        tags.subrange(0, k).drop_last() =~= tags.subrange(0, k - 1),
        tags.subrange(0, k).last() == tags[k - 1],
{
}

/// Once a value fails to resolve, every longer prefix fails the same way.
proof fn lemma_error_persists(
    tags: Seq<Tag>,
    values: Seq<Seq<char>>,
    stack: Seq<Seq<char>>,
    n: int,
    m: int,
)
    requires
        0 < n <= m,
        resolve_values(tags, values, stack, n) is Err,
    ensures
        resolve_values(tags, values, stack, m) == resolve_values(tags, values, stack, n),
    decreases m - n,
{
    if n < m {
        lemma_error_persists(tags, values, stack, n, m - 1);
    }
}

/// Appends the strings of `src` to `dst`.
fn append_refs<'a>(dst: &mut Vec<&'a str>, src: &Vec<&'a str>)
    ensures
        final(dst)@ == old(dst)@ + src@,
{
    let mut j: usize = 0;
    while j < src.len()
        invariant
            j <= src.len(),
            dst@ == old(dst)@ + src@.take(j as int),
        decreases src.len() - j,
    {
        dst.push(src[j]);
        assert(src@.take(j as int + 1) =~= src@.take(j as int).push(src@[j as int]));
        j += 1;
    }
    assert(src@.take(src.len() as int) =~= src@);
}

/// Flattens tag `tag_name` into concrete item ids, expanding nested tag
/// references in place and in declared order. Fails with `TagNotFound` when a
/// tag is missing and with `CyclicTag` when a tag reaches itself.
pub fn resolve_tag_inner<'a>(tag_name: &str, tags: &'a Vec<Tag>) -> (r: Result<
    Vec<&'a str>,
    CraftError,
>)
    ensures
        match r {
            Ok(ids) => resolve(tags@, tag_name@, Seq::empty()) == Ok::<Seq<Seq<char>>, Fault>(
                ids@.map_values(|s: &str| s@),
            ),
            Err(e) => resolve(tags@, tag_name@, Seq::empty()) == Err::<Seq<Seq<char>>, Fault>(
                e@,
            ),
        },
{
    let mut stack: Vec<String> = Vec::new();
    assert(texts(stack@) =~= Seq::<Seq<char>>::empty());
    resolve_on_stack(tag_name, tags, &mut stack)
}

fn resolve_on_stack<'a>(tag_name: &str, tags: &'a Vec<Tag>, stack: &mut Vec<String>) -> (r: Result<
    Vec<&'a str>,
    CraftError,
>)
    ensures
        final(stack)@ == old(stack)@,
        match r {
            Ok(ids) => resolve(tags@, tag_name@, texts(old(stack)@)) == Ok::<
                Seq<Seq<char>>,
                Fault,
            >(ids@.map_values(|s: &str| s@)),
            Err(e) => resolve(tags@, tag_name@, texts(old(stack)@)) == Err::<
                Seq<Seq<char>>,
                Fault,
            >(e@),
        },
    decreases tags@.len() - old(stack)@.len(),
{
    if on_stack(stack, tag_name) {
        return Err(CraftError::CyclicTag(String::from_str(tag_name)));
    }
    let idx = match find_tag(tags, tag_name) {
        Some(i) => i,
        None => {
            return Err(CraftError::TagNotFound(String::from_str(tag_name)));
        },
    };
    if stack.len() >= tags.len() {
        return Err(CraftError::CyclicTag(String::from_str(tag_name)));
    }
    let ghost stack0 = texts(stack@);
    let ghost values = tag_values(tags@[idx as int]);
    let tag = &tags[idx];
    stack.push(String::from_str(tag_name));
    assert(texts(stack@) =~= stack0.push(tag_name@));
    assert(resolve(tags@, tag_name@, stack0) == resolve_values(
        tags@,
        values,
        stack0.push(tag_name@),
        values.len() as int,
    ));
    let mut item_ids: Vec<&'a str> = Vec::new();
    assert(item_ids@.map_values(|s: &str| s@) =~= Seq::<Seq<char>>::empty());
    let mut i: usize = 0;
    while i < tag.values.len()
        invariant
            i <= tag.values.len(),
            idx < tags@.len(),
            tag == &tags@[idx as int],
            values == tag_values(*tag),
            stack0.len() < tags@.len(),
            values.len() == tag.values@.len(),
            resolve(tags@, tag_name@, stack0) == resolve_values(
                tags@,
                values,
                stack0.push(tag_name@),
                values.len() as int,
            ),
            texts(stack@) == stack0.push(tag_name@),
            stack@.len() == old(stack)@.len() + 1,
            stack@.drop_last() == old(stack)@,
            stack0 == texts(old(stack)@),
            resolve_values(tags@, values, stack0.push(tag_name@), i as int) == Ok::<
                Seq<Seq<char>>,
                Fault,
            >(item_ids@.map_values(|s: &str| s@)),
        decreases tag.values.len() - i,
    {
        let value: &'a String = &tag.values[i];
        let n = value.as_str().unicode_len();
        assert(values[i as int] == value@);
        if n > 0 && value.as_str().get_char(0) == '#' {
            let inner = value.as_str().substring_char(1, n);
            let sub = resolve_on_stack(inner, tags, stack);
            match sub {
                Err(e) => {
                    proof {
                        assert(is_nested(values[i as int]));
                        assert(nested_name(values[i as int]) == inner@);
                        assert(resolve_values(tags@, values, stack0.push(tag_name@), i as int + 1)
                            == Err::<Seq<Seq<char>>, Fault>(e@));
                        lemma_error_persists(
                            tags@,
                            values,
                            stack0.push(tag_name@),
                            i as int + 1,
                            values.len() as int,
                        );
                    }
                    stack.pop();
                    assert(stack@ =~= old(stack)@);
                    return Err(e);
                },
                Ok(ids) => {
                    let ghost prev = item_ids@;
                    append_refs(&mut item_ids, &ids);
                    assert(item_ids@.map_values(|s: &str| s@) =~= prev.map_values(|s: &str| s@)
                        + ids@.map_values(|s: &str| s@));
                },
            }
        } else {
            let ghost prev = item_ids@.map_values(|s: &str| s@);
            item_ids.push(value.as_str());
            assert(item_ids@.map_values(|s: &str| s@) =~= prev.push(value@));
        }
        i += 1;
    }
    stack.pop();
    assert(stack@ =~= old(stack)@);
    Ok(item_ids)
}

/// A located tag lies inside the index and carries the name looked up.
pub proof fn lemma_tag_index_found(tags: Seq<Tag>, name: Seq<char>)
    requires
        tag_index(tags, name) is Some,
    ensures
        0 <= tag_index(tags, name)->0 < tags.len(),
        tags[tag_index(tags, name)->0].name@ == name,
    decreases tags.len(),
{
    if tags.len() > 0 && tag_index(tags.drop_last(), name) is Some {
        lemma_tag_index_found(tags.drop_last(), name);
    }
}

/// Values with no nested reference resolve to themselves.
proof fn lemma_plain_values(
    tags: Seq<Tag>,
    values: Seq<Seq<char>>,
    stack: Seq<Seq<char>>,
    n: int,
)
    requires
        0 <= n <= values.len(),
        stack.len() <= tags.len(),
        forall|k: int| 0 <= k < values.len() ==> !is_nested(#[trigger] values[k]),
    ensures
        resolve_values(tags, values, stack, n) == Ok::<Seq<Seq<char>>, Fault>(values.take(n)),
    decreases n,
{
    if n > 0 {
        lemma_plain_values(tags, values, stack, n - 1);
        assert(values.take(n - 1).push(values[n - 1]) =~= values.take(n));
    } else {
        assert(values.take(0) =~= Seq::<Seq<char>>::empty());
    }
}

/// Resolving a tag none of whose values names another tag returns its
/// values unchanged, in declared order.
pub proof fn lemma_resolve_without_nesting(tags: Seq<Tag>, name: Seq<char>)
    requires
        tag_index(tags, name) is Some,
        forall|k: int|
            0 <= k < tag_values(tags[tag_index(tags, name)->0]).len() ==> !is_nested(
                #[trigger] tag_values(tags[tag_index(tags, name)->0])[k],
            ),
    ensures
        resolve(tags, name, Seq::empty()) == Ok::<Seq<Seq<char>>, Fault>(
            tag_values(tags[tag_index(tags, name)->0]),
        ),
{
    lemma_tag_index_found(tags, name);
    let values = tag_values(tags[tag_index(tags, name)->0]);
    lemma_plain_values(tags, values, Seq::empty().push(name), values.len() as int);
    assert(values.take(values.len() as int) =~= values);
}

/// `values` with every nested reference replaced by `members`.
pub open spec fn splice(values: Seq<Seq<char>>, members: Seq<Seq<char>>) -> Seq<Seq<char>>
    decreases values.len(),
{
    if values.len() == 0 {
        Seq::empty()
    } else {
        splice(values.drop_last(), members) + if is_nested(values.last()) {
            members
        } else {
            seq![values.last()]
        }
    }
}

/// Tag `a` whose nested references all name tag `b`, where `b` holds only
/// concrete ids, resolves to the values of `a` with each reference to `b`
/// replaced by the values of `b`, in declared order.
pub proof fn lemma_resolve_one_level(tags: Seq<Tag>, a: Seq<char>, b: Seq<char>)
    requires
        a != b,
        tag_index(tags, a) is Some,
        tag_index(tags, b) is Some,
        forall|k: int|
            0 <= k < tag_values(tags[tag_index(tags, a)->0]).len() && is_nested(
                #[trigger] tag_values(tags[tag_index(tags, a)->0])[k],
            ) ==> nested_name(tag_values(tags[tag_index(tags, a)->0])[k]) == b,
        forall|k: int|
            0 <= k < tag_values(tags[tag_index(tags, b)->0]).len() ==> !is_nested(
                #[trigger] tag_values(tags[tag_index(tags, b)->0])[k],
            ),
    ensures
        resolve(tags, a, Seq::empty()) == Ok::<Seq<Seq<char>>, Fault>(
            splice(
                tag_values(tags[tag_index(tags, a)->0]),
                tag_values(tags[tag_index(tags, b)->0]),
            ),
        ),
{
    lemma_tag_index_found(tags, a);
    lemma_tag_index_found(tags, b);
    let va = tag_values(tags[tag_index(tags, a)->0]);
    let vb = tag_values(tags[tag_index(tags, b)->0]);
    let stack = Seq::empty().push(a);
    assert(tags.len() >= 2);
    assert(!stack.contains(b));
    lemma_plain_values(tags, vb, stack.push(b), vb.len() as int);
    assert(vb.take(vb.len() as int) =~= vb);
    assert(resolve(tags, b, stack) == Ok::<Seq<Seq<char>>, Fault>(vb));
    lemma_one_level_values(tags, va, vb, a, b, va.len() as int);
    assert(va.take(va.len() as int) =~= va);
}

proof fn lemma_one_level_values(
    tags: Seq<Tag>,
    va: Seq<Seq<char>>,
    vb: Seq<Seq<char>>,
    a: Seq<char>,
    b: Seq<char>,
    n: int,
)
    requires
        0 <= n <= va.len(),
        tags.len() >= 1,
        resolve(tags, b, Seq::empty().push(a)) == Ok::<Seq<Seq<char>>, Fault>(vb),
        forall|k: int|
            0 <= k < va.len() && is_nested(#[trigger] va[k]) ==> nested_name(va[k]) == b,
    ensures
        resolve_values(tags, va, Seq::empty().push(a), n) == Ok::<Seq<Seq<char>>, Fault>(
            splice(va.take(n), vb),
        ),
    decreases n,
{
    if n > 0 {
        lemma_one_level_values(tags, va, vb, a, b, n - 1);
        assert(va.take(n).drop_last() =~= va.take(n - 1));
        assert(va.take(n).last() == va[n - 1]);
        assert(splice(va.take(n), vb) == splice(va.take(n - 1), vb) + if is_nested(va[n - 1]) {
            vb
        } else {
            seq![va[n - 1]]
        });
        if is_nested(va[n - 1]) {
            assert(resolve(tags, nested_name(va[n - 1]), Seq::empty().push(a)) == Ok::<
                Seq<Seq<char>>,
                Fault,
            >(vb));
        } else {
            let p = splice(va.take(n - 1), vb);
            assert(p.push(va[n - 1]) =~= p + seq![va[n - 1]]);
        }
    } else {
        assert(va.take(0) =~= Seq::<Seq<char>>::empty());
    }
}

/// Whether tag `a` exists and one of its values names tag `b`.
pub open spec fn references(tags: Seq<Tag>, a: Seq<char>, b: Seq<char>) -> bool {
    match tag_index(tags, a) {
        Some(i) => exists|k: int|
            0 <= k < tag_values(tags[i]).len() && is_nested(#[trigger] tag_values(tags[i])[k])
                && nested_name(tag_values(tags[i])[k]) == b,
        None => false,
    }
}

/// A successful resolution of values resolved each nested reference.
proof fn lemma_values_ok_parts(
    tags: Seq<Tag>,
    values: Seq<Seq<char>>,
    stack: Seq<Seq<char>>,
    n: int,
    k: int,
)
    requires
        0 <= k < n,
        stack.len() <= tags.len(),
        resolve_values(tags, values, stack, n) is Ok,
        is_nested(values[k]),
    ensures
        resolve(tags, nested_name(values[k]), stack) is Ok,
    decreases n,
{
    if k < n - 1 {
        lemma_values_ok_parts(tags, values, stack, n - 1, k);
    }
}

/// Two tags that name each other never resolve: the cycle is reported as
/// an error instead of recursing without end.
pub proof fn lemma_mutual_reference_fails(tags: Seq<Tag>, a: Seq<char>, b: Seq<char>)
    requires
        references(tags, a, b),
        references(tags, b, a),
    ensures
        resolve(tags, a, Seq::empty()) is Err,
{
    if resolve(tags, a, Seq::empty()) is Ok {
        lemma_tag_index_found(tags, a);
        let ia = tag_index(tags, a)->0;
        let va = tag_values(tags[ia]);
        let ka = choose|k: int|
            0 <= k < va.len() && is_nested(#[trigger] va[k]) && nested_name(va[k]) == b;
        let s1 = Seq::empty().push(a);
        lemma_values_ok_parts(tags, va, s1, va.len() as int, ka);
        if a != b {
            assert(!s1.contains(b));
            lemma_tag_index_found(tags, b);
            let ib = tag_index(tags, b)->0;
            let vb = tag_values(tags[ib]);
            let kb = choose|k: int|
                0 <= k < vb.len() && is_nested(#[trigger] vb[k]) && nested_name(vb[k]) == a;
            let s2 = s1.push(b);
            lemma_values_ok_parts(tags, vb, s2, vb.len() as int, kb);
            assert(s2[0] == a);
        } else {
            assert(s1[0] == a);
        }
    }
}

/// Resolution fails only with a missing or a cyclic tag.
pub proof fn lemma_resolve_error_kind(tags: Seq<Tag>, name: Seq<char>, stack: Seq<Seq<char>>)
    ensures
        resolve(tags, name, stack) matches Err(f) ==> (f is TagNotFound || f is CyclicTag),
    decreases tags.len() - stack.len(), 0int, 0int,
{
    if !stack.contains(name) && tag_index(tags, name) is Some && stack.len() < tags.len() {
        let values = tag_values(tags[tag_index(tags, name)->0]);
        lemma_values_error_kind(tags, values, stack.push(name), values.len() as int);
    }
}

proof fn lemma_values_error_kind(
    tags: Seq<Tag>,
    values: Seq<Seq<char>>,
    stack: Seq<Seq<char>>,
    n: int,
)
    ensures
        resolve_values(tags, values, stack, n) matches Err(f) ==> (f is TagNotFound
            || f is CyclicTag),
    decreases tags.len() - stack.len(), 1int, n,
{
    if n > 0 && stack.len() <= tags.len() {
        lemma_values_error_kind(tags, values, stack, n - 1);
        if is_nested(values[n - 1]) {
            lemma_resolve_error_kind(tags, nested_name(values[n - 1]), stack);
        }
    }
}

/// No two tags share a name.
pub open spec fn names_unique(tags: Seq<Tag>) -> bool {
    forall|i: int, j: int|
        0 <= i < j < tags.len() ==> (#[trigger] tags[i]).name@ != (#[trigger] tags[j]).name@
}

/// A name with no index names no tag.
proof fn lemma_tag_index_none(tags: Seq<Tag>, name: Seq<char>)
    requires
        tag_index(tags, name) is None,
    ensures
        forall|i: int| 0 <= i < tags.len() ==> (#[trigger] tags[i]).name@ != name,
    decreases tags.len(),
{
    if tags.len() > 0 {
        lemma_tag_index_none(tags.drop_last(), name);
        assert forall|i: int| 0 <= i < tags.len() implies (#[trigger] tags[i]).name@ != name by {
            if i < tags.len() - 1 {
                assert(tags.drop_last()[i] == tags[i]);
            }
        }
    }
}

/// Adds `tag` to the index, replacing the tag of the same name if there is
/// one, so that names stay unique.
pub fn insert_tag(tags: &mut Vec<Tag>, tag: Tag)
    requires
        names_unique(old(tags)@),
    ensures
        names_unique(final(tags)@),
        match tag_index(old(tags)@, tag.name@) {
            Some(i) => final(tags)@ == old(tags)@.update(i, tag),
            None => final(tags)@ == old(tags)@.push(tag),
        },
{
    match find_tag(tags, tag.name.as_str()) {
        Some(i) => {
            proof {
                lemma_tag_index_found(tags@, tag.name@);
            }
            tags.set(i, tag);
            assert forall|x: int, y: int| 0 <= x < y < tags@.len() implies (#[trigger] tags@[x]).name@
                != (#[trigger] tags@[y]).name@ by {
                assert(tags@[x].name@ == old(tags)@[x].name@);
                assert(tags@[y].name@ == old(tags)@[y].name@);
            }
        },
        None => {
            proof {
                lemma_tag_index_none(tags@, tag.name@);
            }
            tags.push(tag);
            assert forall|x: int, y: int| 0 <= x < y < tags@.len() implies (#[trigger] tags@[x]).name@
                != (#[trigger] tags@[y]).name@ by {
                if y == tags@.len() - 1 {
                    assert(tags@[x] == old(tags)@[x]);
                } else {
                    assert(tags@[x] == old(tags)@[x] && tags@[y] == old(tags)@[y]);
                }
            }
        },
    }
}

} // verus!
