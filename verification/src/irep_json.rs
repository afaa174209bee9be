//! Rendering a node as JSON text with the `json` crate.
use crate::irep::{
    entry_views, irep_view, irep_views, lemma_entry_views, lemma_irep_views, IrepV,
    Irept,
};
use crate::roundtrip::{
    entry_heights, height, heights, lemma_children_lower, lemma_entry_heights_bounded,
    lemma_heights_bounded,
};
use json::JsonValue;
use vstd::prelude::*;

verus! {

/// The first position in `m` of an entry named `k`, or -1 when there is none.
pub open spec fn key_position<V>(m: Seq<(Seq<char>, V)>, k: Seq<char>) -> int
    decreases m.len(),
{
    if m.len() == 0 {
        -1
    } else if m[0].0 == k {
        0
    } else {
        let r = key_position(m.drop_first(), k);
        if r < 0 {
            -1
        } else {
            r + 1
        }
    }
}

/// `m` after setting the entry named `k` to `v`: an entry already named `k`
/// keeps its place and gets the new value; otherwise the entry is appended.
pub open spec fn assoc_insert<V>(m: Seq<(Seq<char>, V)>, k: Seq<char>, v: V) -> Seq<(Seq<char>, V)> {
    let p = key_position(m, k);
    if p >= 0 {
        m.update(p, (k, v))
    } else {
        m.push((k, v))
    }
}

pub proof fn lemma_key_position<V>(m: Seq<(Seq<char>, V)>, k: Seq<char>)
    ensures
        -1 <= key_position(m, k) < m.len(),
        key_position(m, k) >= 0 ==> m[key_position(m, k)].0 == k,
        forall|j: int| 0 <= j < m.len() && (key_position(m, k) < 0 || j < key_position(m, k)) ==> m[j].0 != k,
    decreases m.len(),
{
    if m.len() > 0 && m[0].0 != k {
        lemma_key_position(m.drop_first(), k);
        assert forall|j: int| 0 <= j < m.len() && (key_position(m, k) < 0 || j < key_position(m, k)) implies m[j].0 != k by {
            if j > 0 {
                assert(m[j] == m.drop_first()[j - 1]);
            }
        }
    }
}

#[verifier::external_type_specification]
#[verifier::external_body]
pub struct ExJsonValue(JsonValue);

/// What a JSON value holds, as far as this library builds values: strings,
/// arrays, and objects whose members are listed in insertion order; `Other`
/// stands for every other kind of value.
pub enum JsonTree {
    Str(Seq<char>),
    Arr(Seq<JsonTree>),
    Obj(Seq<(Seq<char>, JsonTree)>),
    Other,
}

/// What the JSON value `v` holds.
pub uninterp spec fn json_tree(v: JsonValue) -> JsonTree;

/// The text that `json::stringify_pretty` makes of a value holding `t`,
/// indenting by `spaces`.
pub uninterp spec fn json_pretty_text(t: JsonTree, spaces: u16) -> Seq<char>;

/// `t` is built from strings, arrays and objects only.
pub open spec fn textual(t: JsonTree) -> bool
    decreases t,
{
    match t {
        JsonTree::Str(_) => true,
        JsonTree::Arr(items) => forall|i: int| 0 <= i < items.len() ==> textual(#[trigger] items[i]),
        JsonTree::Obj(members) => forall|i: int| 0 <= i < members.len() ==> textual((#[trigger] members[i]).1),
        JsonTree::Other => false,
    }
}

pub open spec fn json_trees(s: Seq<JsonValue>) -> Seq<JsonTree> {
    s.map_values(|v: JsonValue| json_tree(v))
}

/// `JsonValue::from(&str)`: a JSON string holding `s`.
#[verifier::external_body]
fn json_string(s: &str) -> (r: JsonValue)
    ensures
        json_tree(r) == JsonTree::Str(s@),
{
    JsonValue::from(s)
}

/// `JsonValue::new_object`: an object without members.
#[verifier::external_body]
fn json_object() -> (r: JsonValue)
    ensures
        json_tree(r) == JsonTree::Obj(Seq::empty()),
{
    JsonValue::new_object()
}

/// `JsonValue::from(Vec<JsonValue>)`: an array holding `items` in order.
#[verifier::external_body]
fn json_array(items: Vec<JsonValue>) -> (r: JsonValue)
    ensures
        json_tree(r) == JsonTree::Arr(json_trees(items@)),
{
    JsonValue::from(items)
}

/// `obj[key] = value` (`IndexMut<&str>` for `JsonValue`) on an object: the
/// member named `key` gets `value` in its place, or, when there is none, a
/// member `key` is appended.
#[verifier::external_body]
fn json_set(obj: &mut JsonValue, key: &str, value: JsonValue)
    requires
        json_tree(*old(obj)) is Obj,
    ensures
        json_tree(*final(obj)) == JsonTree::Obj(assoc_insert(json_tree(*old(obj))->Obj_0, key@, json_tree(value))),
{
    obj[key] = value;
}

/// No path in `t` passes through more than `d` non-empty arrays and objects.
pub open spec fn json_depth_at_most(t: JsonTree, d: nat) -> bool
    decreases t,
{
    match t {
        JsonTree::Arr(items) => items.len() == 0 || (d >= 1 && forall|i: int|
            0 <= i < items.len() ==> json_depth_at_most(#[trigger] items[i], (d - 1) as nat)),
        JsonTree::Obj(members) => members.len() == 0 || (d >= 1 && forall|i: int|
            0 <= i < members.len() ==> json_depth_at_most((#[trigger] members[i]).1, (d - 1) as nat)),
        _ => true,
    }
}

/// `json::stringify_pretty(v, spaces)`: the text of `v`, indented by
/// `spaces`; for values built from strings, arrays and objects it depends on
/// their contents only. Each line within `n` non-empty arrays and objects is
/// indented by `n * spaces` spaces, a product taken in `u16`; `requires`
/// keeps it in range.
#[verifier::external_body]
fn json_stringify_pretty(v: JsonValue, spaces: u16) -> (r: String)
    requires
        spaces > 0,
        json_depth_at_most(json_tree(v), (u16::MAX / spaces) as nat),
    ensures
        textual(json_tree(v)) ==> r@ == json_pretty_text(json_tree(v), spaces),
{
    json::stringify_pretty(v, spaces)
}

/// The JSON object of a node: its identifier under `id`, its children (when
/// it has any) as an array under `subt`, then each named child and each
/// comment under its name; a later member replaces an earlier one of the same
/// name in place.
pub open spec fn irep_json(x: IrepV) -> JsonTree
    decreases x, 1int,
{
    let with_id = assoc_insert(Seq::empty(), "id"@, JsonTree::Str(x.id));
    let with_subt = if x.subt.len() == 0 {
        with_id
    } else {
        assoc_insert(with_id, "subt"@, JsonTree::Arr(irep_jsons(x.subt)))
    };
    JsonTree::Obj(json_members(json_members(with_subt, x.named_subt), x.comments))
}

pub open spec fn irep_jsons(s: Seq<IrepV>) -> Seq<JsonTree>
    decreases s, 0int,
{
    if s.len() == 0 {
        Seq::empty()
    } else {
        irep_jsons(s.drop_last()).push(irep_json(s.last()))
    }
}

/// `base` with each entry of `m` set as a member, in order.
pub open spec fn json_members(base: Seq<(Seq<char>, JsonTree)>, m: Seq<(Seq<char>, IrepV)>) -> Seq<(Seq<char>, JsonTree)>
    decreases m, 0int,
{
    if m.len() == 0 {
        base
    } else {
        assoc_insert(json_members(base, m.drop_last()), m.last().0, irep_json(m.last().1))
    }
}


proof fn lemma_assoc_insert_textual(m: Seq<(Seq<char>, JsonTree)>, k: Seq<char>, t: JsonTree)
    requires
        forall|i: int| 0 <= i < m.len() ==> textual((#[trigger] m[i]).1),
        textual(t),
    ensures
        forall|i: int| 0 <= i < assoc_insert(m, k, t).len() ==> textual((#[trigger] assoc_insert(m, k, t)[i]).1),
{
    let r = assoc_insert(m, k, t);
    let p = key_position(m, k);
    lemma_key_position(m, k);
    assert forall|i: int| 0 <= i < r.len() implies textual((#[trigger] r[i]).1) by {
        if p >= 0 {
            if i != p {
                assert(r[i] == m[i]);
            }
        } else if i < m.len() {
            assert(r[i] == m[i]);
        }
    }
}

/// The JSON object of a node is built from strings, arrays and objects only.
pub proof fn lemma_irep_json_textual(x: IrepV)
    ensures
        textual(irep_json(x)),
    decreases x, 1int,
{
    let with_id = assoc_insert(Seq::empty(), "id"@, JsonTree::Str(x.id));
    lemma_assoc_insert_textual(Seq::empty(), "id"@, JsonTree::Str(x.id));
    let with_subt = if x.subt.len() == 0 {
        with_id
    } else {
        assoc_insert(with_id, "subt"@, JsonTree::Arr(irep_jsons(x.subt)))
    };
    if x.subt.len() > 0 {
        lemma_irep_jsons_textual(x.subt);
        lemma_assoc_insert_textual(with_id, "subt"@, JsonTree::Arr(irep_jsons(x.subt)));
    }
    lemma_json_members_textual(with_subt, x.named_subt);
    lemma_json_members_textual(json_members(with_subt, x.named_subt), x.comments);
    let members = json_members(json_members(with_subt, x.named_subt), x.comments);
    assert(irep_json(x) == JsonTree::Obj(members));
}

proof fn lemma_irep_jsons_textual(s: Seq<IrepV>)
    ensures
        irep_jsons(s).len() == s.len(),
        forall|i: int| 0 <= i < s.len() ==> #[trigger] irep_jsons(s)[i] == irep_json(s[i]),
        textual(JsonTree::Arr(irep_jsons(s))),
    decreases s, 0int,
{
    if s.len() > 0 {
        lemma_irep_jsons_textual(s.drop_last());
        lemma_irep_json_textual(s.last());
        assert forall|i: int| 0 <= i < s.len() implies #[trigger] irep_jsons(s)[i] == irep_json(s[i]) by {
            if i < s.len() - 1 {
                assert(s.drop_last()[i] == s[i]);
            }
        }
        let items = irep_jsons(s);
        assert forall|i: int| 0 <= i < items.len() implies textual(#[trigger] items[i]) by {
            lemma_irep_json_textual(s[i]);
        }
    }
}

proof fn lemma_json_members_textual(base: Seq<(Seq<char>, JsonTree)>, m: Seq<(Seq<char>, IrepV)>)
    requires
        forall|i: int| 0 <= i < base.len() ==> textual((#[trigger] base[i]).1),
    ensures
        forall|i: int| 0 <= i < json_members(base, m).len() ==> textual((#[trigger] json_members(base, m)[i]).1),
    decreases m, 0int,
{
    if m.len() > 0 {
        lemma_json_members_textual(base, m.drop_last());
        lemma_irep_json_textual(m.last().1);
        lemma_assoc_insert_textual(json_members(base, m.drop_last()), m.last().0, irep_json(m.last().1));
    }
}

proof fn lemma_depth_monotone(t: JsonTree, d: nat, e: nat)
    requires
        json_depth_at_most(t, d),
        d <= e,
    ensures
        json_depth_at_most(t, e),
    decreases t,
{
    match t {
        JsonTree::Arr(items) => {
            assert forall|i: int| 0 <= i < items.len() implies json_depth_at_most(#[trigger] items[i], (e - 1) as nat) by {
                lemma_depth_monotone(items[i], (d - 1) as nat, (e - 1) as nat);
            }
        },
        JsonTree::Obj(members) => {
            assert forall|i: int| 0 <= i < members.len() implies json_depth_at_most((#[trigger] members[i]).1, (e - 1) as nat) by {
                lemma_depth_monotone(members[i].1, (d - 1) as nat, (e - 1) as nat);
            }
        },
        _ => {},
    }
}

proof fn lemma_assoc_insert_depth(m: Seq<(Seq<char>, JsonTree)>, k: Seq<char>, t: JsonTree, d: nat)
    requires
        forall|i: int| 0 <= i < m.len() ==> json_depth_at_most((#[trigger] m[i]).1, d),
        json_depth_at_most(t, d),
    ensures
        forall|i: int| 0 <= i < assoc_insert(m, k, t).len() ==> json_depth_at_most((#[trigger] assoc_insert(m, k, t)[i]).1, d),
{
    let r = assoc_insert(m, k, t);
    let p = key_position(m, k);
    lemma_key_position(m, k);
    assert forall|i: int| 0 <= i < r.len() implies json_depth_at_most((#[trigger] r[i]).1, d) by {
        if p >= 0 {
            if i != p {
                assert(r[i] == m[i]);
            }
        } else if i < m.len() {
            assert(r[i] == m[i]);
        }
    }
}

proof fn lemma_json_members_depth(base: Seq<(Seq<char>, JsonTree)>, m: Seq<(Seq<char>, IrepV)>, d: nat)
    requires
        forall|i: int| 0 <= i < base.len() ==> json_depth_at_most((#[trigger] base[i]).1, d),
        forall|i: int| 0 <= i < m.len() ==> json_depth_at_most(irep_json((#[trigger] m[i]).1), d),
    ensures
        forall|i: int| 0 <= i < json_members(base, m).len() ==> json_depth_at_most((#[trigger] json_members(base, m)[i]).1, d),
    decreases m.len(),
{
    if m.len() > 0 {
        assert forall|i: int| 0 <= i < m.drop_last().len() implies json_depth_at_most(irep_json((#[trigger] m.drop_last()[i]).1), d) by {
            assert(m.drop_last()[i] == m[i]);
        }
        lemma_json_members_depth(base, m.drop_last(), d);
        assert(json_depth_at_most(irep_json(m[m.len() - 1].1), d));
        lemma_assoc_insert_depth(json_members(base, m.drop_last()), m.last().0, irep_json(m.last().1), d);
    }
}

/// The JSON object of a node nests at most twice as deep as the node: each
/// level of children adds an object and the array that holds them.
pub proof fn lemma_irep_json_depth(x: IrepV)
    ensures
        json_depth_at_most(irep_json(x), 2 * height(x)),
    decreases x,
{
    let h = height(x);
    lemma_children_lower(x);
    let inner = (2 * h - 1) as nat;
    let with_id = assoc_insert(Seq::empty(), "id"@, JsonTree::Str(x.id));
    lemma_assoc_insert_depth(Seq::empty(), "id"@, JsonTree::Str(x.id), inner);
    let with_subt = if x.subt.len() == 0 {
        with_id
    } else {
        assoc_insert(with_id, "subt"@, JsonTree::Arr(irep_jsons(x.subt)))
    };
    if x.subt.len() > 0 {
        lemma_irep_jsons_textual(x.subt);
        let items = irep_jsons(x.subt);
        assert forall|i: int| 0 <= i < items.len() implies json_depth_at_most(#[trigger] items[i], (inner - 1) as nat) by {
            assert(decreases_to!(x => x.subt[i]));
            lemma_irep_json_depth(x.subt[i]);
            lemma_depth_monotone(irep_json(x.subt[i]), 2 * height(x.subt[i]), (inner - 1) as nat);
        }
        lemma_assoc_insert_depth(with_id, "subt"@, JsonTree::Arr(items), inner);
    }
    assert forall|i: int| 0 <= i < x.named_subt.len() implies json_depth_at_most(irep_json((#[trigger] x.named_subt[i]).1), inner) by {
        assert(decreases_to!(x => x.named_subt[i].1));
        lemma_irep_json_depth(x.named_subt[i].1);
        lemma_depth_monotone(irep_json(x.named_subt[i].1), 2 * height(x.named_subt[i].1), inner);
    }
    assert forall|i: int| 0 <= i < x.comments.len() implies json_depth_at_most(irep_json((#[trigger] x.comments[i]).1), inner) by {
        assert(decreases_to!(x => x.comments[i].1));
        lemma_irep_json_depth(x.comments[i].1);
        lemma_depth_monotone(irep_json(x.comments[i].1), 2 * height(x.comments[i].1), inner);
    }
    lemma_json_members_depth(with_subt, x.named_subt, inner);
    lemma_json_members_depth(json_members(with_subt, x.named_subt), x.comments, inner);
    let members = json_members(json_members(with_subt, x.named_subt), x.comments);
    assert(irep_json(x) == JsonTree::Obj(members));
}

/// Some entry of `m` is named `k`.
pub open spec fn has_name<V>(m: Seq<(Seq<char>, V)>, k: Seq<char>) -> bool {
    exists|j: int| 0 <= j < m.len() && (#[trigger] m[j]).0 == k
}

/// No two entries of `m` have the same name.
pub open spec fn names_unique<V>(m: Seq<(Seq<char>, V)>) -> bool {
    forall|i: int, j: int| 0 <= i < j < m.len() ==> (#[trigger] m[i]).0 != (#[trigger] m[j]).0
}

/// No entry of `m` after the one at `i` has its name.
pub open spec fn last_of_name<V>(m: Seq<(Seq<char>, V)>, i: int) -> bool {
    forall|j: int| i < j < m.len() ==> (#[trigger] m[j]).0 != m[i].0
}

/// Setting a member: the object then holds it, keeps every member of
/// another name, and its names are the old ones and `k`.
proof fn lemma_assoc_insert_members(m: Seq<(Seq<char>, JsonTree)>, k: Seq<char>, v: JsonTree)
    requires
        names_unique(m),
    ensures
        names_unique(assoc_insert(m, k, v)),
        assoc_insert(m, k, v).contains((k, v)),
        forall|e: (Seq<char>, JsonTree)| m.contains(e) && e.0 != k ==> assoc_insert(m, k, v).contains(e),
        forall|kk: Seq<char>| has_name(assoc_insert(m, k, v), kk) <==> (has_name(m, kk) || kk == k),
        m.len() > 0 ==> assoc_insert(m, k, v).len() > 0 && assoc_insert(m, k, v)[0].0 == m[0].0,
{
    let r = assoc_insert(m, k, v);
    let p = key_position(m, k);
    lemma_key_position(m, k);
    if p >= 0 {
        assert forall|i: int| 0 <= i < r.len() implies (#[trigger] r[i]).0 == m[i].0 by {}
        assert(r[p] == (k, v));
        assert forall|e: (Seq<char>, JsonTree)| m.contains(e) && e.0 != k implies r.contains(e) by {
            let i = choose|i: int| 0 <= i < m.len() && m[i] == e;
            assert(r[i] == e);
        }
        assert forall|kk: Seq<char>| has_name(r, kk) <==> (has_name(m, kk) || kk == k) by {
            if has_name(r, kk) {
                let j = choose|j: int| 0 <= j < r.len() && (#[trigger] r[j]).0 == kk;
                assert(m[j].0 == kk);
            }
            if has_name(m, kk) {
                let j = choose|j: int| 0 <= j < m.len() && (#[trigger] m[j]).0 == kk;
                assert(r[j].0 == kk);
            }
            if kk == k {
                assert(r[p].0 == kk);
            }
        }
    } else {
        assert(r =~= m.push((k, v)));
        assert(r[m.len() as int] == (k, v));
        assert forall|e: (Seq<char>, JsonTree)| m.contains(e) && e.0 != k implies r.contains(e) by {
            let i = choose|i: int| 0 <= i < m.len() && m[i] == e;
            assert(r[i] == e);
        }
        assert forall|kk: Seq<char>| has_name(r, kk) <==> (has_name(m, kk) || kk == k) by {
            if has_name(r, kk) {
                let j = choose|j: int| 0 <= j < r.len() && (#[trigger] r[j]).0 == kk;
                if j < m.len() {
                    assert(m[j].0 == kk);
                }
            }
            if has_name(m, kk) {
                let j = choose|j: int| 0 <= j < m.len() && (#[trigger] m[j]).0 == kk;
                assert(r[j].0 == kk);
            }
            if kk == k {
                assert(r[m.len() as int].0 == kk);
            }
        }
        assert forall|i: int, j: int| 0 <= i < j < r.len() implies (#[trigger] r[i]).0 != (#[trigger] r[j]).0 by {
            if j == m.len() {
                assert(r[i] == m[i]);
            } else {
                assert(r[i] == m[i] && r[j] == m[j]);
            }
        }
    }
}

/// Setting the entries of `m` as members, in order: the object then holds
/// each entry that no later entry of `m` renames, keeps each member whose
/// name `m` does not set, and its names are those of `base` and of `m`.
proof fn lemma_json_members_members(base: Seq<(Seq<char>, JsonTree)>, m: Seq<(Seq<char>, IrepV)>)
    requires
        names_unique(base),
    ensures
        names_unique(json_members(base, m)),
        forall|kk: Seq<char>| has_name(json_members(base, m), kk) <==> (has_name(base, kk) || has_name(m, kk)),
        forall|i: int| 0 <= i < m.len() && last_of_name(m, i)
            ==> json_members(base, m).contains(((#[trigger] m[i]).0, irep_json(m[i].1))),
        forall|e: (Seq<char>, JsonTree)| base.contains(e) && !has_name(m, e.0) ==> json_members(base, m).contains(e),
        base.len() > 0 ==> json_members(base, m).len() > 0 && json_members(base, m)[0].0 == base[0].0,
    decreases m.len(),
{
    if m.len() > 0 {
        let d = m.drop_last();
        let prev = json_members(base, d);
        let k = m.last().0;
        let v = irep_json(m.last().1);
        lemma_json_members_members(base, d);
        lemma_assoc_insert_members(prev, k, v);
        let r = json_members(base, m);
        assert(r == assoc_insert(prev, k, v));
        assert forall|kk: Seq<char>| has_name(r, kk) <==> (has_name(base, kk) || has_name(m, kk)) by {
            if has_name(d, kk) {
                let j = choose|j: int| 0 <= j < d.len() && (#[trigger] d[j]).0 == kk;
                assert(m[j] == d[j]);
            }
            if has_name(m, kk) {
                let j = choose|j: int| 0 <= j < m.len() && (#[trigger] m[j]).0 == kk;
                if j < d.len() {
                    assert(d[j] == m[j]);
                }
            }
        }
        assert forall|i: int| 0 <= i < m.len() && last_of_name(m, i)
            implies r.contains(((#[trigger] m[i]).0, irep_json(m[i].1))) by {
            if i < d.len() {
                assert(d[i] == m[i]);
                assert forall|j: int| i < j < d.len() implies (#[trigger] d[j]).0 != d[i].0 by {
                    assert(d[j] == m[j]);
                }
                assert(m[m.len() - 1].0 != m[i].0);
                assert(prev.contains((d[i].0, irep_json(d[i].1))));
            }
        }
        assert forall|e: (Seq<char>, JsonTree)| base.contains(e) && !has_name(m, e.0) implies r.contains(e) by {
            if has_name(d, e.0) {
                let j = choose|j: int| 0 <= j < d.len() && (#[trigger] d[j]).0 == e.0;
                assert(m[j] == d[j]);
            }
            assert(m[m.len() - 1].0 != e.0);
        }
    }
}

/// The JSON object of a node, member by member: it starts with `id`; no name
/// occurs twice; its names are `id`, `subt` when the node has children, and
/// the names of its named children and comments; every comment, every named
/// child that no comment renames, the children (in order, one item each) and
/// the identifier appear under their names unless a later entry renames them.
pub proof fn lemma_irep_json_members(x: IrepV)
    ensures
        irep_json(x) is Obj,
        ({
            let ms = irep_json(x)->Obj_0;
            &&& ms.len() > 0 && ms[0].0 == "id"@
            &&& names_unique(ms)
            &&& forall|kk: Seq<char>| has_name(ms, kk) <==> (kk == "id"@ || (kk == "subt"@ && x.subt.len() > 0)
                    || has_name(x.named_subt, kk) || has_name(x.comments, kk))
            &&& forall|i: int| 0 <= i < x.comments.len() && last_of_name(x.comments, i)
                    ==> ms.contains(((#[trigger] x.comments[i]).0, irep_json(x.comments[i].1)))
            &&& forall|i: int| 0 <= i < x.named_subt.len() && last_of_name(x.named_subt, i)
                    && !has_name(x.comments, x.named_subt[i].0)
                    ==> ms.contains(((#[trigger] x.named_subt[i]).0, irep_json(x.named_subt[i].1)))
            &&& (x.subt.len() > 0 && !has_name(x.named_subt, "subt"@) && !has_name(x.comments, "subt"@)
                    ==> exists|items: Seq<JsonTree>| #[trigger] ms.contains(("subt"@, JsonTree::Arr(items)))
                        && items.len() == x.subt.len()
                        && forall|i: int| 0 <= i < x.subt.len() ==> #[trigger] items[i] == irep_json(x.subt[i]))
            &&& (!has_name(x.named_subt, "id"@) && !has_name(x.comments, "id"@)
                    ==> ms.contains(("id"@, JsonTree::Str(x.id))))
        }),
{
    let empty = Seq::<(Seq<char>, JsonTree)>::empty();
    let with_id = assoc_insert(empty, "id"@, JsonTree::Str(x.id));
    lemma_assoc_insert_members(empty, "id"@, JsonTree::Str(x.id));
    assert(with_id =~= seq![("id"@, JsonTree::Str(x.id))]);
    let items = irep_jsons(x.subt);
    let with_subt = if x.subt.len() == 0 {
        with_id
    } else {
        assoc_insert(with_id, "subt"@, JsonTree::Arr(items))
    };
    lemma_irep_jsons_textual(x.subt);
    if x.subt.len() > 0 {
        reveal_strlit("id");
        reveal_strlit("subt");
        assert("id"@.len() != "subt"@.len());
        lemma_assoc_insert_members(with_id, "subt"@, JsonTree::Arr(items));
        assert(with_subt.contains(("id"@, JsonTree::Str(x.id)))) by {
            assert(with_id[0] == ("id"@, JsonTree::Str(x.id)));
            assert(with_id.contains(("id"@, JsonTree::Str(x.id))));
        }
    } else {
        assert(with_id[0] == ("id"@, JsonTree::Str(x.id)));
    }
    assert forall|kk: Seq<char>| has_name(with_subt, kk) <==> (kk == "id"@ || (kk == "subt"@ && x.subt.len() > 0)) by {
        if has_name(with_id, kk) {
            let j = choose|j: int| 0 <= j < with_id.len() && (#[trigger] with_id[j]).0 == kk;
            assert(j == 0);
        }
        if kk == "id"@ {
            assert(with_id[0].0 == kk);
        }
    }
    let r1 = json_members(with_subt, x.named_subt);
    let ms = json_members(r1, x.comments);
    lemma_json_members_members(with_subt, x.named_subt);
    lemma_json_members_members(r1, x.comments);
    assert(irep_json(x) == JsonTree::Obj(ms));
    if x.subt.len() > 0 && !has_name(x.named_subt, "subt"@) && !has_name(x.comments, "subt"@) {
        assert(r1.contains(("subt"@, JsonTree::Arr(items))));
        assert(ms.contains(("subt"@, JsonTree::Arr(items))));
    }
    assert(ms.len() > 0 && ms[0].0 == "id"@);
    assert(names_unique(ms));
    assert(forall|kk: Seq<char>| has_name(ms, kk) <==> (kk == "id"@ || (kk == "subt"@ && x.subt.len() > 0)
                    || has_name(x.named_subt, kk) || has_name(x.comments, kk)));
    assert(forall|i: int| 0 <= i < x.comments.len() && last_of_name(x.comments, i)
                    ==> ms.contains(((#[trigger] x.comments[i]).0, irep_json(x.comments[i].1))));
    assert(forall|i: int| 0 <= i < x.named_subt.len() && last_of_name(x.named_subt, i)
                    && !has_name(x.comments, x.named_subt[i].0)
                    ==> ms.contains(((#[trigger] x.named_subt[i]).0, irep_json(x.named_subt[i].1))));
    assert(!has_name(x.named_subt, "id"@) && !has_name(x.comments, "id"@)
                    ==> ms.contains(("id"@, JsonTree::Str(x.id))));
}

impl Irept {
    /// Whether this node is at most `bound` levels high (see [`height`]).
    pub fn height_at_most(&self, bound: u64) -> (r: bool)
        ensures
            r == (height(self@) <= bound),
        decreases self@,
    {
        let ghost x = self@;
        proof {
            lemma_children_lower(x);
            lemma_irep_views(self.subt@);
        }
        if bound == 0 {
            return false;
        }
        let n = self.subt.len();
        for i in 0..n
            invariant
                n == self.subt.len(),
                x == self@,
                bound >= 1,
                x.subt == irep_views(self.subt@),
                x.subt.len() == n,
                forall|j: int| 0 <= j < n ==> #[trigger] x.subt[j] == irep_view(self.subt@[j]),
                forall|j: int| 0 <= j < i ==> height(#[trigger] x.subt[j]) <= bound - 1,
        {
            assert(decreases_to!(x => x.subt[i as int]));
            if !self.subt[i].height_at_most(bound - 1) {
                proof {
                    lemma_children_lower(x);
                }
                return false;
            }
        }
        proof {
            lemma_heights_bounded(x.subt, (bound - 1) as nat);
        }
        let m = self.named_subt.len();
        for i in 0..m
            invariant
                m == self.named_subt.entries_view().len(),
                x == self@,
                bound >= 1,
                x.named_subt == self.named_subt.entries_view(),
                heights(x.subt) <= bound - 1,
                forall|j: int| 0 <= j < i ==> height((#[trigger] x.named_subt[j]).1) <= bound - 1,
        {
            assert(decreases_to!(x => x.named_subt[i as int].1));
            if !self.named_subt.value(i).height_at_most(bound - 1) {
                proof {
                    lemma_children_lower(x);
                }
                return false;
            }
        }
        proof {
            lemma_entry_heights_bounded(x.named_subt, (bound - 1) as nat);
        }
        let k = self.comments.len();
        for i in 0..k
            invariant
                k == self.comments.entries_view().len(),
                x == self@,
                bound >= 1,
                x.comments == self.comments.entries_view(),
                heights(x.subt) <= bound - 1,
                entry_heights(x.named_subt) <= bound - 1,
                forall|j: int| 0 <= j < i ==> height((#[trigger] x.comments[j]).1) <= bound - 1,
        {
            assert(decreases_to!(x => x.comments[i as int].1));
            if !self.comments.value(i).height_at_most(bound - 1) {
                proof {
                    lemma_children_lower(x);
                }
                return false;
            }
        }
        proof {
            lemma_entry_heights_bounded(x.comments, (bound - 1) as nat);
        }
        true
    }

    /// The JSON object of this node (see [`irep_json`]).
    pub fn to_json(&self) -> (r: JsonValue)
        ensures
            json_tree(r) == irep_json(self@),
        decreases self@,
    {
        let ghost x = self@;
        let mut obj = json_object();
        let id_value = json_string(self.id.as_str());
        json_set(&mut obj, "id", id_value);
        let ghost with_id = assoc_insert(Seq::empty(), "id"@, JsonTree::Str(x.id));
        proof {
            lemma_irep_views(self.subt@);
            assert(x.subt == irep_views(self.subt@));
            assert(json_trees(Seq::<JsonValue>::empty()) =~= irep_jsons(x.subt.take(0)));
        }
        let mut sub_vec: Vec<JsonValue> = Vec::new();
        let n = self.subt.len();
        for i in 0..n
            invariant
                n == self.subt.len(),
                x == self@,
                x.subt == irep_views(self.subt@),
                x.subt.len() == n,
                forall|j: int| 0 <= j < n ==> #[trigger] x.subt[j] == irep_view(self.subt@[j]),
                json_trees(sub_vec@) == irep_jsons(x.subt.take(i as int)),
        {
            assert(decreases_to!(x => x.subt[i as int]));
            let c = self.subt[i].to_json();
            let ghost before = sub_vec@;
            sub_vec.push(c);
            proof {
                assert(json_trees(sub_vec@) =~= json_trees(before).push(json_tree(c)));
                assert(x.subt.take(i + 1).drop_last() =~= x.subt.take(i as int));
            }
        }
        assert(x.subt.take(n as int) =~= x.subt);
        if sub_vec.len() > 0 {
            let arr = json_array(sub_vec);
            json_set(&mut obj, "subt", arr);
        }
        let ghost with_subt = json_tree(obj)->Obj_0;
        proof {
            assert(x.named_subt.take(0) =~= Seq::<(Seq<char>, IrepV)>::empty());
            assert(x.comments.take(0) =~= Seq::<(Seq<char>, IrepV)>::empty());
        }
        let m = self.named_subt.len();
        for i in 0..m
            invariant
                m == self.named_subt.entries_view().len(),
                x == self@,
                x.named_subt == self.named_subt.entries_view(),
                x.named_subt.len() == m,
                json_tree(obj) == JsonTree::Obj(json_members(with_subt, x.named_subt.take(i as int))),
        {
            let c = self.named_subt.value(i).to_json();
            json_set(&mut obj, self.named_subt.name(i).as_str(), c);
            proof {
                assert(x.named_subt.take(i + 1).drop_last() =~= x.named_subt.take(i as int));
            }
        }
        assert(x.named_subt.take(m as int) =~= x.named_subt);
        let ghost with_named = json_members(with_subt, x.named_subt);
        let k = self.comments.len();
        for i in 0..k
            invariant
                k == self.comments.entries_view().len(),
                x == self@,
                x.comments == self.comments.entries_view(),
                x.comments.len() == k,
                json_tree(obj) == JsonTree::Obj(json_members(with_named, x.comments.take(i as int))),
        {
            let c = self.comments.value(i).to_json();
            json_set(&mut obj, self.comments.name(i).as_str(), c);
            proof {
                assert(x.comments.take(i + 1).drop_last() =~= x.comments.take(i as int));
            }
        }
        assert(x.comments.take(k as int) =~= x.comments);
        obj
    }

    /// This node as indented JSON text (see [`irep_json`]).
    pub fn to_pretty_string(&self) -> (r: String)
        requires
            height(self@) <= 8191,
        ensures
            r@ == json_pretty_text(irep_json(self@), 4),
    {
        proof {
            lemma_irep_json_textual(self@);
            lemma_irep_json_depth(self@);
            lemma_depth_monotone(irep_json(self@), 2 * height(self@), (u16::MAX / 4u16) as nat);
        }
        json_stringify_pretty(self.to_json(), 4)
    }
}

} // verus!
