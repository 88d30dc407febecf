use crate::json::Json;
use crate::policy::merge_all;
use crate::shape::{
    count_lt, absence_grows, empty_shape, fields_shape_wf, has_field, has_member, keys_unique, mark_absent,
    merge, merge_items, merge_members, shape_wf, Shape,
};
use vstd::prelude::*;

verus! {

/// The flags true in `a` are true in `b`.
pub open spec fn flags_grow(a: Shape, b: Shape) -> bool {
    &&& (a.absent ==> b.absent)
    &&& (a.null ==> b.null)
    &&& (a.boolean ==> b.boolean)
    &&& (a.number ==> b.number)
    &&& (a.string ==> b.string)
}

/// `g` has a field of each name of `f`.
pub open spec fn names_grow(f: Seq<(Seq<char>, Shape)>, g: Seq<(Seq<char>, Shape)>) -> bool {
    forall|i: int| #![trigger f[i]] 0 <= i < f.len() ==> has_field(g, f[i].0)
}

/// `b` holds everything `a` holds at its own level: each flag true in `a` is
/// true in `b`; where `a` has an element node, `b` has one, whose flags grow
/// from it; where `a` has fields, `b` has a field of each of their names.
pub open spec fn grows(a: Shape, b: Shape) -> bool {
    &&& flags_grow(a, b)
    &&& match a.array {
        Some(x) => match b.array {
            Some(y) => flags_grow(*x, *y),
            None => false,
        },
        None => true,
    }
    &&& match a.object {
        Some(f) => match b.object {
            Some(g) => names_grow(f, g),
            None => false,
        },
        None => true,
    }
}

pub proof fn lemma_names_grow_refl(f: Seq<(Seq<char>, Shape)>)
    ensures
        names_grow(f, f),
{
    assert forall|i: int| #![trigger f[i]] 0 <= i < f.len() implies has_field(f, f[i].0) by {
        assert(f[i].0 == f[i].0);
    }
}

pub proof fn lemma_grows_refl(a: Shape)
    ensures
        grows(a, a),
{
    if a.object is Some {
        lemma_names_grow_refl(a.object->Some_0);
    }
}

proof fn lemma_names_grow_trans(
    f: Seq<(Seq<char>, Shape)>,
    g: Seq<(Seq<char>, Shape)>,
    h: Seq<(Seq<char>, Shape)>,
)
    requires
        names_grow(f, g),
        names_grow(g, h),
    ensures
        names_grow(f, h),
{
    assert forall|i: int| #![trigger f[i]] 0 <= i < f.len() implies has_field(h, f[i].0) by {
        assert(has_field(g, f[i].0));
        let j = choose|j: int| 0 <= j < g.len() && #[trigger] g[j].0 == f[i].0;
        assert(has_field(h, g[j].0));
    }
}

pub proof fn lemma_grows_trans(a: Shape, b: Shape, c: Shape)
    requires
        grows(a, b),
        grows(b, c),
    ensures
        grows(a, c),
{
    if a.object is Some {
        lemma_names_grow_trans(a.object->Some_0, b.object->Some_0, c.object->Some_0);
    }
}

/// A merge only adds: the node after it grows from the node before it.
pub proof fn lemma_merge_grows(n: Shape, v: Json)
    ensures
        grows(n, merge(n, v).0),
    decreases v,
{
    lemma_grows_refl(n);
    match v {
        Json::Array(items) => {
            match n.array {
                Some(b) => {
                    if items.len() > 0 {
                        lemma_merge_items_grows(*b, items);
                    }
                },
                None => {},
            }
        },
        Json::Object(members) => {
            match n.object {
                Some(f) => {
                    let fa = mark_absent(f, members);
                    assert forall|i: int| #![trigger f[i]] 0 <= i < f.len() implies has_field(
                        fa,
                        f[i].0,
                    ) by {
                        assert(fa[i].0 == f[i].0);
                    }
                    lemma_merge_members_grows(fa, members);
                    lemma_names_grow_trans(f, fa, merge_members(fa, members).0);
                },
                None => {},
            }
        },
        _ => {},
    }
}

proof fn lemma_merge_items_grows(e: Shape, items: Seq<Json>)
    ensures
        grows(e, merge_items(e, items).0),
    decreases items,
{
    if items.len() == 0 {
        lemma_grows_refl(e);
    } else {
        let r = merge_items(e, items.drop_last());
        lemma_merge_items_grows(e, items.drop_last());
        lemma_merge_grows(r.0, items[items.len() - 1]);
        lemma_grows_trans(e, r.0, merge(r.0, items[items.len() - 1]).0);
    }
}

proof fn lemma_merge_members_grows(f: Seq<(Seq<char>, Shape)>, m: Seq<(Seq<char>, Json)>)
    ensures
        names_grow(f, merge_members(f, m).0),
    decreases m,
{
    if m.len() == 0 {
        lemma_names_grow_refl(f);
    } else {
        let r = merge_members(f, m.drop_last()).0;
        lemma_merge_members_grows(f, m.drop_last());
        let k = m[m.len() - 1].0;
        let g = merge_members(f, m).0;
        crate::shape::lemma_count_range(r, k);
        let p = count_lt(r, k);
        assert forall|i: int| #![trigger r[i]] 0 <= i < r.len() implies has_field(g, r[i].0) by {
            if has_field(r, k) {
                assert(g[i].0 == r[i].0);
            } else if i < p {
                assert(g[i] == r[i]);
            } else {
                assert(g[i + 1] == r[i]);
            }
        }
        lemma_names_grow_trans(f, r, g);
    }
}

/// Over any sequence of merges, the root's flags, its element node's flags
/// and its field names only grow.
pub proof fn lemma_merge_all_grows(n: Shape, vs: Seq<Json>)
    ensures
        grows(n, merge_all(n, vs)),
    decreases vs.len(),
{
    if vs.len() == 0 {
        lemma_grows_refl(n);
    } else {
        let p = merge_all(n, vs.drop_last());
        lemma_merge_all_grows(n, vs.drop_last());
        lemma_merge_grows(p, vs[vs.len() - 1]);
        lemma_grows_trans(n, p, merge_all(n, vs));
    }
}

/// No member name occurs twice in `m`.
pub open spec fn names_distinct(m: Seq<(Seq<char>, Json)>) -> bool {
    forall|i: int, j: int|
        0 <= i < m.len() && 0 <= j < m.len() && i != j ==> #[trigger] m[i].0 != #[trigger] m[j].0
}

/// `v` holds no object at any depth.
pub open spec fn flat(v: Json) -> bool
    decreases v,
{
    match v {
        Json::Object(_) => false,
        Json::Array(items) => forall|i: int|
            #![trigger items[i]]
            0 <= i < items.len() ==> flat(items[i]),
        _ => true,
    }
}

/// `n` already holds every kind found in the value `v`, which holds no object.
pub open spec fn covers(n: Shape, v: Json) -> bool
    decreases v,
{
    match v {
        Json::Null => n.null,
        Json::Bool(_) => n.boolean,
        Json::Number(_) => n.number,
        Json::Str(_) => n.string,
        Json::Array(items) => match n.array {
            Some(e) => (items.len() == 0 ==> e.absent) && forall|i: int|
                #![trigger items[i]]
                0 <= i < items.len() ==> covers(*e, items[i]),
            None => false,
        },
        Json::Object(_) => false,
    }
}

/// The flags of `b` and of its chain of element nodes grow from those of `a`.
pub open spec fn arrays_grow(a: Shape, b: Shape) -> bool
    decreases a,
{
    &&& flags_grow(a, b)
    &&& match a.array {
        Some(x) => match b.array {
            Some(y) => arrays_grow(*x, *y),
            None => false,
        },
        None => true,
    }
}

proof fn lemma_arrays_grow_refl(a: Shape)
    ensures
        arrays_grow(a, a),
    decreases a,
{
    if a.array is Some {
        lemma_arrays_grow_refl(*a.array->Some_0);
    }
}

proof fn lemma_arrays_grow_trans(a: Shape, b: Shape, c: Shape)
    requires
        arrays_grow(a, b),
        arrays_grow(b, c),
    ensures
        arrays_grow(a, c),
    decreases a,
{
    if a.array is Some {
        lemma_arrays_grow_trans(*a.array->Some_0, *b.array->Some_0, *c.array->Some_0);
    }
}

proof fn lemma_merge_arrays_grow(n: Shape, v: Json)
    ensures
        arrays_grow(n, merge(n, v).0),
    decreases v,
{
    lemma_arrays_grow_refl(n);
    match v {
        Json::Array(items) => {
            match n.array {
                Some(b) => {
                    lemma_arrays_grow_refl(*b);
                    if items.len() == 0 {
                        assert(arrays_grow(*b, Shape { absent: true, ..*b }));
                    } else {
                        lemma_merge_items_arrays_grow(*b, items);
                    }
                },
                None => {},
            }
        },
        _ => {},
    }
}

proof fn lemma_merge_items_arrays_grow(e: Shape, items: Seq<Json>)
    ensures
        arrays_grow(e, merge_items(e, items).0),
    decreases items,
{
    if items.len() == 0 {
        lemma_arrays_grow_refl(e);
    } else {
        let r = merge_items(e, items.drop_last());
        lemma_merge_items_arrays_grow(e, items.drop_last());
        lemma_merge_arrays_grow(r.0, items[items.len() - 1]);
        lemma_arrays_grow_trans(e, r.0, merge(r.0, items[items.len() - 1]).0);
    }
}

proof fn lemma_covers_grows(b: Shape, c: Shape, v: Json)
    requires
        covers(b, v),
        arrays_grow(b, c),
    ensures
        covers(c, v),
    decreases v,
{
    match v {
        Json::Array(items) => {
            let eb = *b.array->Some_0;
            let ec = *c.array->Some_0;
            assert(arrays_grow(eb, ec));
            assert forall|i: int| #![trigger items[i]] 0 <= i < items.len() implies covers(
                ec,
                items[i],
            ) by {
                lemma_covers_grows(eb, ec, items[i]);
            }
        },
        _ => {},
    }
}

proof fn lemma_merge_covers(n: Shape, v: Json)
    requires
        flat(v),
    ensures
        covers(merge(n, v).0, v),
    decreases v,
{
    match v {
        Json::Array(items) => {
            let e = match n.array {
                Some(b) => *b,
                None => empty_shape(),
            };
            if items.len() > 0 {
                lemma_merge_items_covers(e, items);
            }
        },
        _ => {},
    }
}

proof fn lemma_merge_items_covers(e: Shape, items: Seq<Json>)
    requires
        forall|i: int| #![trigger items[i]] 0 <= i < items.len() ==> flat(items[i]),
    ensures
        forall|i: int|
            #![trigger items[i]]
            0 <= i < items.len() ==> covers(merge_items(e, items).0, items[i]),
    decreases items,
{
    if items.len() > 0 {
        let p = items.drop_last();
        let last = items[items.len() - 1];
        let r = merge_items(e, p).0;
        let g = merge_items(e, items).0;
        assert forall|i: int| #![trigger p[i]] 0 <= i < p.len() implies flat(p[i]) by {
            assert(p[i] == items[i]);
        }
        lemma_merge_items_covers(e, p);
        lemma_merge_arrays_grow(r, last);
        lemma_merge_covers(r, last);
        assert forall|i: int| #![trigger items[i]] 0 <= i < items.len() implies covers(
            g,
            items[i],
        ) by {
            if i < p.len() {
                assert(p[i] == items[i]);
                lemma_covers_grows(r, g, items[i]);
            }
        }
    }
}

proof fn lemma_covers_fixed(n: Shape, v: Json)
    requires
        covers(n, v),
    ensures
        merge(n, v) == (n, false),
    decreases v,
{
    match v {
        Json::Array(items) => {
            let e = *n.array->Some_0;
            if items.len() > 0 {
                lemma_items_fixed(e, items);
            }
        },
        _ => {},
    }
}

proof fn lemma_items_fixed(e: Shape, items: Seq<Json>)
    requires
        forall|i: int| #![trigger items[i]] 0 <= i < items.len() ==> covers(e, items[i]),
    ensures
        merge_items(e, items) == (e, false),
    decreases items,
{
    if items.len() > 0 {
        let p = items.drop_last();
        assert forall|i: int| #![trigger p[i]] 0 <= i < p.len() implies covers(e, p[i]) by {
            assert(p[i] == items[i]);
        }
        lemma_items_fixed(e, p);
        lemma_covers_fixed(e, items[items.len() - 1]);
    }
}

/// `v` holds no object with a repeated member name, and no array of two or
/// more items that holds an object, at any depth.
pub open spec fn simple(v: Json) -> bool
    decreases v,
{
    match v {
        Json::Array(items) => flat(v) || items.len() <= 1 && forall|i: int|
            #![trigger items[i]]
            0 <= i < items.len() ==> simple(items[i]),
        Json::Object(m) => names_distinct(m) && forall|j: int|
            #![trigger m[j]]
            0 <= j < m.len() ==> simple(m[j].1),
        _ => true,
    }
}

/// The node of the field named `k` in `f`, or an empty node.
pub open spec fn field_of(f: Seq<(Seq<char>, Shape)>, k: Seq<char>) -> Shape {
    if has_field(f, k) {
        f[choose|i: int| 0 <= i < f.len() && f[i].0 == k].1
    } else {
        empty_shape()
    }
}

proof fn lemma_fields_shape_wf(f: Seq<(Seq<char>, Shape)>)
    requires
        fields_shape_wf(f),
    ensures
        forall|i: int| #![trigger f[i]] 0 <= i < f.len() ==> shape_wf(f[i].1),
    decreases f.len(),
{
    if f.len() > 0 {
        lemma_fields_shape_wf(f.drop_last());
        assert forall|i: int| #![trigger f[i]] 0 <= i < f.len() implies shape_wf(f[i].1) by {
            if i < f.len() - 1 {
                assert(f.drop_last()[i] == f[i]);
            }
        }
    }
}

/// What merging the members of an object with distinct names does to fields
/// with distinct names: every name stays and no name is doubled, a field the
/// object lacks keeps its node, and the field of each member holds that member
/// merged into what was there.
proof fn lemma_members_structure(f: Seq<(Seq<char>, Shape)>, m: Seq<(Seq<char>, Json)>)
    requires
        keys_unique(f),
        names_distinct(m),
    ensures
        ({
            let g = merge_members(f, m).0;
            &&& keys_unique(g)
            &&& forall|t: int| #![trigger f[t]] 0 <= t < f.len() ==> has_field(g, f[t].0)
            &&& forall|i: int|
                #![trigger g[i]]
                0 <= i < g.len() && !has_member(m, g[i].0) ==> has_field(f, g[i].0) && g[i].1
                    == field_of(f, g[i].0)
            &&& forall|j: int| #![trigger m[j]] 0 <= j < m.len() ==> has_field(g, m[j].0)
            &&& forall|i: int, j: int|
                #![trigger g[i], m[j]]
                0 <= i < g.len() && 0 <= j < m.len() && g[i].0 == m[j].0 ==> g[i].1 == merge(
                    field_of(f, m[j].0),
                    m[j].1,
                ).0
        }),
    decreases m.len(),
{
    let g = merge_members(f, m).0;
    if m.len() == 0 {
        assert forall|t: int| #![trigger f[t]] 0 <= t < f.len() implies has_field(g, f[t].0) by {
            assert(g[t].0 == f[t].0);
        }
        assert forall|i: int| #![trigger g[i]] 0 <= i < g.len() && !has_member(m, g[i].0)
            implies has_field(f, g[i].0) && g[i].1 == field_of(f, g[i].0) by {
            assert(f[i].0 == g[i].0);
            let c = choose|c: int| 0 <= c < f.len() && f[c].0 == g[i].0;
            assert(c == i);
        }
    } else {
        let p = m.drop_last();
        assert(names_distinct(p)) by {
            assert forall|i: int, j: int|
                0 <= i < p.len() && 0 <= j < p.len() && i != j implies #[trigger] p[i].0
                != #[trigger] p[j].0 by {
                assert(p[i] == m[i] && p[j] == m[j]);
            }
        }
        lemma_members_structure(f, p);
        let r = merge_members(f, p).0;
        let k = m[m.len() - 1].0;
        let v = m[m.len() - 1].1;
        assert(!has_member(p, k)) by {
            if has_member(p, k) {
                let j = choose|j: int| 0 <= j < p.len() && #[trigger] p[j].0 == k;
                assert(p[j] == m[j]);
            }
        }
        assert forall|i: int| #![trigger m[i]] 0 <= i < p.len() implies m[i] == p[i] by {}
        // a name that `m` lacks, `p` lacks too
        assert forall|x: Seq<char>| !has_member(m, x) implies !has_member(p, x) by {
            if has_member(p, x) {
                let j = choose|j: int| 0 <= j < p.len() && #[trigger] p[j].0 == x;
                assert(m[j] == p[j]);
            }
        }
        if has_field(r, k) {
            let idx = choose|i: int| 0 <= i < r.len() && r[i].0 == k;
            assert(has_member(m, k)) by {
                assert(m[m.len() - 1].0 == k);
            }
            assert(!has_member(p, r[idx].0));
            assert(r[idx].1 == field_of(f, k));
            assert(g == r.update(idx, (k, merge(r[idx].1, v).0)));
            assert forall|t: int| #![trigger f[t]] 0 <= t < f.len() implies has_field(g, f[t].0) by {
                assert(has_field(r, f[t].0));
                let c = choose|c: int| 0 <= c < r.len() && r[c].0 == f[t].0;
                assert(g[c].0 == r[c].0);
            }
            assert forall|i: int| #![trigger g[i]] 0 <= i < g.len() && !has_member(m, g[i].0)
                implies has_field(f, g[i].0) && g[i].1 == field_of(f, g[i].0) by {
                assert(i != idx);
                assert(g[i] == r[i]);
                assert(!has_member(p, r[i].0));
            }
            assert forall|j: int| #![trigger m[j]] 0 <= j < m.len() implies has_field(g, m[j].0) by {
                if j < p.len() {
                    assert(has_field(r, p[j].0));
                    let c = choose|c: int| 0 <= c < r.len() && r[c].0 == p[j].0;
                    assert(g[c].0 == r[c].0);
                } else {
                    assert(g[idx].0 == k);
                }
            }
            assert forall|i: int, j: int|
                #![trigger g[i], m[j]]
                0 <= i < g.len() && 0 <= j < m.len() && g[i].0 == m[j].0 implies g[i].1 == merge(
                    field_of(f, m[j].0),
                    m[j].1,
                ).0 by {
                if j < p.len() {
                    assert(m[j].0 != k);
                    assert(i != idx);
                    assert(g[i] == r[i]);
                    assert(r[i].0 == p[j].0);
                }
            }
        } else {
            assert(!has_field(f, k)) by {
                if has_field(f, k) {
                    let c = choose|c: int| 0 <= c < f.len() && f[c].0 == k;
                    assert(has_field(r, f[c].0));
                }
            }
            crate::shape::lemma_count_range(r, k);
            let pos = count_lt(r, k);
            let q = merge(empty_shape(), v).0;
            assert(g == r.insert(pos, (k, q)));
            assert(field_of(f, k) == empty_shape());
            assert forall|a: int, b: int|
                0 <= a < g.len() && 0 <= b < g.len() && a != b implies #[trigger] g[a].0
                != #[trigger] g[b].0 by {
                let sa = if a < pos { a } else { a - 1 };
                let sb = if b < pos { b } else { b - 1 };
                if a == pos {
                    assert(g[b] == r[sb]);
                } else if b == pos {
                    assert(g[a] == r[sa]);
                } else {
                    assert(g[a] == r[sa] && g[b] == r[sb]);
                }
            }
            assert forall|t: int| #![trigger f[t]] 0 <= t < f.len() implies has_field(g, f[t].0) by {
                assert(has_field(r, f[t].0));
                let c = choose|c: int| 0 <= c < r.len() && r[c].0 == f[t].0;
                if c < pos {
                    assert(g[c] == r[c]);
                } else {
                    assert(g[c + 1] == r[c]);
                }
            }
            assert forall|i: int| #![trigger g[i]] 0 <= i < g.len() && !has_member(m, g[i].0)
                implies has_field(f, g[i].0) && g[i].1 == field_of(f, g[i].0) by {
                assert(i != pos);
                let si = if i < pos { i } else { i - 1 };
                assert(g[i] == r[si]);
                assert(!has_member(p, r[si].0));
            }
            assert forall|j: int| #![trigger m[j]] 0 <= j < m.len() implies has_field(g, m[j].0) by {
                if j < p.len() {
                    assert(has_field(r, p[j].0));
                    let c = choose|c: int| 0 <= c < r.len() && r[c].0 == p[j].0;
                    if c < pos {
                        assert(g[c] == r[c]);
                    } else {
                        assert(g[c + 1] == r[c]);
                    }
                } else {
                    assert(g[pos].0 == k);
                }
            }
            assert forall|i: int, j: int|
                #![trigger g[i], m[j]]
                0 <= i < g.len() && 0 <= j < m.len() && g[i].0 == m[j].0 implies g[i].1 == merge(
                    field_of(f, m[j].0),
                    m[j].1,
                ).0 by {
                if j < p.len() {
                    assert(m[j].0 != k);
                    assert(i != pos);
                    let si = if i < pos { i } else { i - 1 };
                    assert(g[i] == r[si]);
                    assert(r[si].0 == p[j].0);
                }
            }
        }
    }
}

/// Merging members whose fields already hold them changes nothing.
proof fn lemma_members_fixed(g: Seq<(Seq<char>, Shape)>, m: Seq<(Seq<char>, Json)>)
    requires
        keys_unique(g),
        forall|j: int| #![trigger m[j]] 0 <= j < m.len() ==> has_field(g, m[j].0),
        forall|i: int, j: int|
            #![trigger g[i], m[j]]
            0 <= i < g.len() && 0 <= j < m.len() && g[i].0 == m[j].0 ==> merge(g[i].1, m[j].1) == (
                g[i].1,
                false,
            ),
    ensures
        merge_members(g, m) == (g, false),
    decreases m.len(),
{
    if m.len() > 0 {
        let p = m.drop_last();
        assert forall|j: int| #![trigger p[j]] 0 <= j < p.len() implies has_field(g, p[j].0) by {
            assert(m[j] == p[j]);
        }
        assert forall|i: int, j: int|
            #![trigger g[i], p[j]]
            0 <= i < g.len() && 0 <= j < p.len() && g[i].0 == p[j].0 implies merge(
                g[i].1,
                p[j].1,
            ) == (g[i].1, false) by {
            assert(m[j] == p[j]);
        }
        lemma_members_fixed(g, p);
        let k = m[m.len() - 1].0;
        assert(has_field(g, k));
        let i = choose|i: int| 0 <= i < g.len() && g[i].0 == k;
        assert(merge(g[i].1, m[m.len() - 1].1) == (g[i].1, false));
        assert(g.update(i, (k, g[i].1)) =~= g);
    }
}

/// Merging a simple value into a node a second time changes nothing, and
/// reports no change.
pub proof fn lemma_merge_idempotent(n: Shape, v: Json)
    requires
        shape_wf(n),
        simple(v),
    ensures
        merge(merge(n, v).0, v) == (merge(n, v).0, false),
    decreases v,
{
    if flat(v) {
        lemma_merge_covers(n, v);
        lemma_covers_fixed(merge(n, v).0, v);
    } else {
        match v {
            Json::Array(items) => {
                let e = match n.array {
                    Some(b) => *b,
                    None => empty_shape(),
                };
                if items.len() > 0 {
                    assert(items.drop_last() =~= Seq::<Json>::empty());
                    assert(simple(items[0]));
                    lemma_merge_idempotent(e, items[0]);
                    let e1 = merge(e, items[0]).0;
                    assert(merge_items(e, items.drop_last()) == (e, false));
                    assert(merge_items(e1, items.drop_last()) == (e1, false));
                    assert(merge_items(e, items) == merge(e, items[0]));
                    assert(merge_items(e1, items) == merge(e1, items[0]));
                }
            },
            Json::Object(m) => {
                let f = match n.object {
                    Some(f) => f,
                    None => Seq::empty(),
                };
                if n.object is Some {
                    lemma_fields_shape_wf(f);
                }
                let fa = mark_absent(f, m);
                assert(keys_unique(fa)) by {
                    assert forall|i: int, j: int|
                        0 <= i < fa.len() && 0 <= j < fa.len() && i != j implies #[trigger] fa[i].0
                        != #[trigger] fa[j].0 by {
                        assert(fa[i].0 == f[i].0 && fa[j].0 == f[j].0);
                    }
                }
                lemma_members_structure(fa, m);
                let g = merge_members(fa, m).0;
                assert forall|j: int| #![trigger m[j]] 0 <= j < m.len() implies shape_wf(
                    field_of(fa, m[j].0),
                ) by {
                    if has_field(fa, m[j].0) {
                        let i = choose|i: int| 0 <= i < fa.len() && fa[i].0 == m[j].0;
                        assert(has_member(m, fa[i].0));
                        assert(fa[i] == f[i]);
                    }
                }
                assert forall|i: int, j: int|
                    #![trigger g[i], m[j]]
                    0 <= i < g.len() && 0 <= j < m.len() && g[i].0 == m[j].0 implies merge(
                        g[i].1,
                        m[j].1,
                    ) == (g[i].1, false) by {
                    lemma_merge_idempotent(field_of(fa, m[j].0), m[j].1);
                }
                lemma_members_fixed(g, m);
                assert forall|i: int| #![trigger g[i]] 0 <= i < g.len() && !has_member(m, g[i].0)
                    implies g[i].1.absent by {
                    let c = choose|c: int| 0 <= c < fa.len() && fa[c].0 == g[i].0;
                    assert(fa[c].0 == f[c].0);
                }
                assert(mark_absent(g, m) =~= g);
                assert(!absence_grows(g, m));
            },
            _ => {},
        }
    }
}

} // verus!
