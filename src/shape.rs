use crate::json::Json;
use crate::keys::{lemma_key_lt_irreflexive, lemma_key_lt_total, lemma_key_lt_transitive, key_lt};
use vstd::prelude::*;

verus! {

/// The mathematical value of a type-set node: the kinds seen at one path,
/// the node for the elements of arrays seen there, and the nodes of the
/// fields of objects seen there, in increasing order of their names.
pub struct Shape {
    pub absent: bool,
    pub null: bool,
    pub boolean: bool,
    pub number: bool,
    pub string: bool,
    pub array: Option<Box<Shape>>,
    pub object: Option<Seq<(Seq<char>, Shape)>>,
}

pub open spec fn empty_shape() -> Shape {
    Shape {
        absent: false,
        null: false,
        boolean: false,
        number: false,
        string: false,
        array: None,
        object: None,
    }
}

/// No field name occurs twice among `f`.
pub open spec fn keys_unique(f: Seq<(Seq<char>, Shape)>) -> bool {
    forall|i: int, j: int|
        0 <= i < f.len() && 0 <= j < f.len() && i != j ==> #[trigger] f[i].0 != #[trigger] f[j].0
}

/// The field names of `f` are strictly increasing (see `key_lt`).
pub open spec fn keys_sorted(f: Seq<(Seq<char>, Shape)>) -> bool {
    forall|i: int, j: int|
        0 <= i < j < f.len() ==> key_lt(#[trigger] f[i].0, #[trigger] f[j].0)
}

/// How many field names of `f` come before `k`: where a new field named `k`
/// goes.
pub open spec fn count_lt(f: Seq<(Seq<char>, Shape)>, k: Seq<char>) -> int
    decreases f.len(),
{
    if f.len() == 0 {
        0
    } else {
        count_lt(f.drop_last(), k) + if key_lt(f[f.len() - 1].0, k) {
            1int
        } else {
            0int
        }
    }
}

pub proof fn lemma_count_range(f: Seq<(Seq<char>, Shape)>, k: Seq<char>)
    ensures
        0 <= count_lt(f, k) <= f.len(),
    decreases f.len(),
{
    if f.len() > 0 {
        lemma_count_range(f.drop_last(), k);
    }
}

pub proof fn lemma_sorted_unique(f: Seq<(Seq<char>, Shape)>)
    requires
        keys_sorted(f),
    ensures
        keys_unique(f),
{
    assert forall|i: int, j: int|
        0 <= i < f.len() && 0 <= j < f.len() && i != j implies #[trigger] f[i].0
        != #[trigger] f[j].0 by {
        if i < j {
            lemma_key_lt_irreflexive(f[i].0);
            assert(key_lt(f[i].0, f[j].0));
        } else {
            lemma_key_lt_irreflexive(f[j].0);
            assert(key_lt(f[j].0, f[i].0));
        }
    }
}

/// In sorted fields, the names before `k` are exactly the first `count_lt`.
pub proof fn lemma_count_split(f: Seq<(Seq<char>, Shape)>, k: Seq<char>)
    requires
        keys_sorted(f),
    ensures
        0 <= count_lt(f, k) <= f.len(),
        forall|t: int| #![trigger f[t]] 0 <= t < count_lt(f, k) ==> key_lt(f[t].0, k),
        forall|t: int| #![trigger f[t]] count_lt(f, k) <= t < f.len() ==> !key_lt(f[t].0, k),
    decreases f.len(),
{
    if f.len() > 0 {
        let p = f.drop_last();
        assert forall|i: int, j: int| 0 <= i < j < p.len() implies key_lt(
            #[trigger] p[i].0,
            #[trigger] p[j].0,
        ) by {
            assert(p[i] == f[i] && p[j] == f[j]);
        }
        lemma_count_split(p, k);
        let last = f[f.len() - 1];
        if key_lt(last.0, k) && count_lt(p, k) < p.len() {
            let t = count_lt(p, k);
            assert(p[t] == f[t]);
            assert(key_lt(f[t].0, last.0));
            lemma_key_lt_transitive(f[t].0, last.0, k);
        }
        assert forall|t: int| #![trigger f[t]] 0 <= t < count_lt(f, k) implies key_lt(f[t].0, k) by {
            if t < p.len() {
                assert(p[t] == f[t]);
                if t >= count_lt(p, k) {
                    assert(key_lt(f[t].0, last.0));
                    lemma_key_lt_transitive(f[t].0, last.0, k);
                }
            }
        }
        assert forall|t: int| #![trigger f[t]] count_lt(f, k) <= t < f.len() implies !key_lt(
            f[t].0,
            k,
        ) by {
            if t < p.len() {
                assert(p[t] == f[t]);
            }
        }
    }
}

/// A name that sorted fields lack, put at `count_lt`, keeps them sorted.
pub proof fn lemma_insert_sorted(f: Seq<(Seq<char>, Shape)>, k: Seq<char>, c: Shape)
    requires
        keys_sorted(f),
        !has_field(f, k),
    ensures
        0 <= count_lt(f, k) <= f.len(),
        keys_sorted(f.insert(count_lt(f, k), (k, c))),
{
    lemma_count_split(f, k);
    let p = count_lt(f, k);
    let g = f.insert(p, (k, c));
    assert forall|t: int| #![trigger f[t]] p <= t < f.len() implies key_lt(k, f[t].0) by {
        assert(f[t].0 != k);
        lemma_key_lt_total(k, f[t].0);
    }
    assert forall|i: int, j: int| 0 <= i < j < g.len() implies key_lt(
        #[trigger] g[i].0,
        #[trigger] g[j].0,
    ) by {
        if j < p {
            assert(g[i] == f[i] && g[j] == f[j]);
        } else if j == p {
            assert(g[i] == f[i]);
        } else if i < p {
            assert(g[i] == f[i] && g[j] == f[j - 1]);
            lemma_key_lt_transitive(f[i].0, k, f[j - 1].0);
        } else if i == p {
            assert(g[j] == f[j - 1]);
        } else {
            assert(g[i] == f[i - 1] && g[j] == f[j - 1]);
        }
    }
}

/// No node of the tree holds a field name twice, and fields are sorted by name.
pub open spec fn shape_wf(s: Shape) -> bool
    decreases s,
{
    &&& match s.array {
        Some(b) => shape_wf(*b),
        None => true,
    }
    &&& match s.object {
        Some(f) => keys_unique(f) && keys_sorted(f) && fields_shape_wf(f),
        None => true,
    }
}

pub open spec fn fields_shape_wf(f: Seq<(Seq<char>, Shape)>) -> bool
    decreases f,
{
    if f.len() == 0 {
        true
    } else {
        fields_shape_wf(f.drop_last()) && shape_wf(f[f.len() - 1].1)
    }
}

/// The field name `k` occurs among `f`.
pub open spec fn has_field(f: Seq<(Seq<char>, Shape)>, k: Seq<char>) -> bool {
    exists|i: int| 0 <= i < f.len() && #[trigger] f[i].0 == k
}

/// The member name `k` occurs among the members of an object.
pub open spec fn has_member(m: Seq<(Seq<char>, Json)>, k: Seq<char>) -> bool {
    exists|j: int| 0 <= j < m.len() && #[trigger] m[j].0 == k
}

/// Every field of `f` that the object `m` lacks, marked absent.
pub open spec fn mark_absent(f: Seq<(Seq<char>, Shape)>, m: Seq<(Seq<char>, Json)>) -> Seq<
    (Seq<char>, Shape),
> {
    Seq::new(
        f.len(),
        |i: int|
            if has_member(m, f[i].0) {
                f[i]
            } else {
                (f[i].0, Shape { absent: true, ..f[i].1 })
            },
    )
}

/// Some field of `f` that the object `m` lacks was not yet marked absent.
pub open spec fn absence_grows(f: Seq<(Seq<char>, Shape)>, m: Seq<(Seq<char>, Json)>) -> bool {
    exists|i: int| 0 <= i < f.len() && !has_member(m, #[trigger] f[i].0) && !f[i].1.absent
}

/// The node `n` after `v` was merged into it, and whether the merge changed
/// a flag.
pub open spec fn merge(n: Shape, v: Json) -> (Shape, bool)
    decreases v,
{
    match v {
        Json::Null => (Shape { null: true, ..n }, !n.null),
        Json::Bool(_) => (Shape { boolean: true, ..n }, !n.boolean),
        Json::Number(_) => (Shape { number: true, ..n }, !n.number),
        Json::Str(_) => (Shape { string: true, ..n }, !n.string),
        Json::Array(items) => {
            let e = match n.array {
                Some(b) => *b,
                None => empty_shape(),
            };
            if items.len() == 0 {
                (Shape { array: Some(Box::new(Shape { absent: true, ..e })), ..n }, !e.absent)
            } else {
                let r = merge_items(e, items);
                (Shape { array: Some(Box::new(r.0)), ..n }, r.1)
            }
        },
        Json::Object(members) => {
            let f = match n.object {
                Some(f) => f,
                None => Seq::empty(),
            };
            let r = merge_members(mark_absent(f, members), members);
            (Shape { object: Some(r.0), ..n }, absence_grows(f, members) || r.1)
        },
    }
}

/// Every item merged into `e` in turn, and whether any merge changed a flag.
pub open spec fn merge_items(e: Shape, items: Seq<Json>) -> (Shape, bool)
    decreases items,
{
    if items.len() == 0 {
        (e, false)
    } else {
        let r = merge_items(e, items.drop_last());
        let q = merge(r.0, items[items.len() - 1]);
        (q.0, r.1 || q.1)
    }
}

/// Every member of an object merged into the field of its name, which is
/// added, empty, at its place in name order where it is not yet there.
pub open spec fn merge_members(f: Seq<(Seq<char>, Shape)>, m: Seq<(Seq<char>, Json)>) -> (
    Seq<(Seq<char>, Shape)>,
    bool,
)
    decreases m,
{
    if m.len() == 0 {
        (f, false)
    } else {
        let r = merge_members(f, m.drop_last());
        let k = m[m.len() - 1].0;
        if has_field(r.0, k) {
            let i = choose|i: int| 0 <= i < r.0.len() && r.0[i].0 == k;
            let q = merge(r.0[i].1, m[m.len() - 1].1);
            (r.0.update(i, (k, q.0)), r.1 || q.1)
        } else {
            let q = merge(empty_shape(), m[m.len() - 1].1);
            (r.0.insert(count_lt(r.0, k), (k, q.0)), r.1 || q.1)
        }
    }
}

} // verus!
