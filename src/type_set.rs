use crate::json::{items_view, lemma_items_view, lemma_members_view, members_view, JsonValue};
use crate::keys::{key_less, key_lt, lemma_key_lt_irreflexive, lemma_key_lt_transitive};
use crate::shape::{
    absence_grows, count_lt, empty_shape, has_field, has_member, keys_sorted, keys_unique,
    lemma_count_split, lemma_insert_sorted, mark_absent, merge, merge_items, merge_members, Shape,
};
use vstd::prelude::*;

verus! {

/// Every kind of value seen so far at one path of a stream of JSON documents.
#[derive(Debug, PartialEq)]
pub struct TypeSet {
    pub absent: bool,
    pub null: bool,
    pub boolean: bool,
    pub number: bool,
    pub string: bool,
    /// The union of every element of every array seen at this path.
    pub array: Option<Box<TypeSet>>,
    /// One node per field name seen in an object at this path, in increasing
    /// order of the names.
    pub object: Option<Vec<(String, TypeSet)>>,
}

pub open spec fn fields_view(s: Seq<(String, TypeSet)>) -> Seq<(Seq<char>, Shape)>
    decreases s,
{
    if s.len() == 0 {
        Seq::empty()
    } else {
        fields_view(s.drop_last()).push((s[s.len() - 1].0@, s[s.len() - 1].1.view()))
    }
}

pub open spec fn fields_wf(s: Seq<(String, TypeSet)>) -> bool
    decreases s,
{
    if s.len() == 0 {
        true
    } else {
        fields_wf(s.drop_last()) && s[s.len() - 1].1.wf()
    }
}

impl TypeSet {
    pub open spec fn view(&self) -> Shape
        decreases self,
    {
        Shape {
            absent: self.absent,
            null: self.null,
            boolean: self.boolean,
            number: self.number,
            string: self.string,
            array: match &self.array {
                Some(b) => Some(Box::new(b.view())),
                None => None,
            },
            object: match &self.object {
                Some(f) => Some(fields_view(f@)),
                None => None,
            },
        }
    }

    /// No node holds a field name twice, and every node keeps its fields in
    /// increasing order of their names.
    pub open spec fn wf(&self) -> bool
        decreases self,
    {
        &&& match &self.array {
            Some(b) => b.wf(),
            None => true,
        }
        &&& match &self.object {
            Some(f) => fields_wf(f@) && keys_unique(fields_view(f@)) && keys_sorted(fields_view(f@)),
            None => true,
        }
    }

    /// A node that has seen nothing.
    pub fn new() -> (r: TypeSet)
        ensures
            r@ == empty_shape(),
            r.wf(),
    {
        TypeSet {
            absent: false,
            null: false,
            boolean: false,
            number: false,
            string: false,
            array: None,
            object: None,
        }
    }

    /// Merges the kinds found in `v` into this node; returns whether a flag
    /// anywhere in the tree went from false to true.
    pub fn add_type_of(&mut self, v: &JsonValue) -> (changed: bool)
        requires
            old(self).wf(),
        ensures
            final(self).wf(),
            (final(self)@, changed) == merge(old(self)@, v@),
        decreases v, 2nat,
    {
        match v {
            JsonValue::Null => {
                let c = !self.null;
                self.null = true;
                c
            },
            JsonValue::Bool(_) => {
                let c = !self.boolean;
                self.boolean = true;
                c
            },
            JsonValue::Number(_) => {
                let c = !self.number;
                self.number = true;
                c
            },
            JsonValue::String(_) => {
                let c = !self.string;
                self.string = true;
                c
            },
            JsonValue::Array(items) => self.add_array(items),
            JsonValue::Object(members) => self.add_object(members),
        }
    }

    /// The array case of `add_type_of`.
    fn add_array(&mut self, items: &Vec<JsonValue>) -> (changed: bool)
        requires
            old(self).wf(),
        ensures
            final(self).wf(),
            (final(self)@, changed) == merge(old(self)@, crate::json::Json::Array(items_view(items@))),
        decreases items, 1nat,
    {
        let mut e = match self.array.take() {
            Some(b) => *b,
            None => TypeSet::new(),
        };
        assert(e.wf());
        let ghost e0 = e@;
        assert(e0 == match old(self)@.array {
            Some(b) => *b,
            None => empty_shape(),
        });
        proof {
            lemma_items_view(items@);
        }
        let changed = if items.len() == 0 {
            let c = !e.absent;
            e.absent = true;
            assert(e.wf());
            assert(e@ == Shape { absent: true, ..e0 });
            c
        } else {
            add_items(&mut e, items)
        };
        assert(e.wf());
        self.array = Some(Box::new(e));
        assert(self.array->Some_0.wf());
        assert(self.wf());
        changed
    }

    /// The object case of `add_type_of`.
    fn add_object(&mut self, members: &Vec<(String, JsonValue)>) -> (changed: bool)
        requires
            old(self).wf(),
        ensures
            final(self).wf(),
            (final(self)@, changed) == merge(old(self)@, crate::json::Json::Object(members_view(members@))),
        decreases members, 1nat,
    {
        let mut fields = match self.object.take() {
            Some(f) => f,
            None => Vec::new(),
        };
        let c1 = mark_missing(&mut fields, members);
        let c2 = add_members(&mut fields, members);
        self.object = Some(fields);
        c1 || c2
    }
}

pub proof fn lemma_fields_view(s: Seq<(String, TypeSet)>)
    ensures
        fields_view(s).len() == s.len(),
        forall|i: int|
            0 <= i < s.len() ==> #[trigger] fields_view(s)[i] == (s[i].0@, s[i].1.view()),
    decreases s.len(),
{
    if s.len() > 0 {
        lemma_fields_view(s.drop_last());
    }
}

pub proof fn lemma_fields_wf(s: Seq<(String, TypeSet)>)
    ensures
        fields_wf(s) <==> forall|i: int| 0 <= i < s.len() ==> #[trigger] s[i].1.wf(),
    decreases s.len(),
{
    if s.len() > 0 {
        lemma_fields_wf(s.drop_last());
        assert(fields_wf(s) == (fields_wf(s.drop_last()) && s[s.len() - 1].1.wf()));
        if fields_wf(s) {
            assert forall|i: int| 0 <= i < s.len() implies #[trigger] s[i].1.wf() by {
                if i < s.len() - 1 {
                    assert(s.drop_last()[i] == s[i]);
                }
            }
        }
        if forall|i: int| 0 <= i < s.len() ==> #[trigger] s[i].1.wf() {
            assert forall|i: int| 0 <= i < s.drop_last().len() implies #[trigger] s.drop_last()[i].1.wf() by {
                assert(s.drop_last()[i] == s[i]);
            }
            assert(fields_wf(s.drop_last()));
        }
    }
}

/// Merges every item into `e` in turn; returns whether any merge changed a flag.
fn add_items(e: &mut TypeSet, items: &Vec<JsonValue>) -> (changed: bool)
    requires
        old(e).wf(),
    ensures
        final(e).wf(),
        (final(e)@, changed) == merge_items(old(e)@, items_view(items@)),
    decreases items, 0nat,
{
    proof {
        lemma_items_view(items@);
    }
    let ghost start = e@;
    let mut changed = false;
    let mut j: usize = 0;
    assert(items_view(items@).subrange(0, 0) =~= Seq::<crate::json::Json>::empty());
    while j < items.len()
        invariant
            e.wf(),
            j <= items.len(),
            items_view(items@).len() == items@.len(),
            forall|t: int| 0 <= t < items@.len() ==> #[trigger] items_view(items@)[t] == items@[t]@,
            (e@, changed) == merge_items(start, items_view(items@).subrange(0, j as int)),
        decreases items.len() - j,
    {
        let ghost prev = items_view(items@).subrange(0, j as int);
        let ghost next = items_view(items@).subrange(0, j + 1);
        assert(next.drop_last() =~= prev);
        assert(next[next.len() - 1] == items@[j as int]@);
        let c = e.add_type_of(&items[j]);
        changed = changed || c;
        j = j + 1;
    }
    assert(items_view(items@).subrange(0, j as int) =~= items_view(items@));
    changed
}

/// Whether the object has a member named `k`.
fn has_member_named(members: &Vec<(String, JsonValue)>, k: &String) -> (r: bool)
    ensures
        r == has_member(members_view(members@), k@),
{
    proof {
        lemma_members_view(members@);
    }
    let mut j: usize = 0;
    while j < members.len()
        invariant
            j <= members.len(),
            members_view(members@).len() == members@.len(),
            forall|t: int| 0 <= t < members@.len() ==> #[trigger] members_view(members@)[t] == (members@[t].0@, members@[t].1@),
            forall|t: int| 0 <= t < j ==> #[trigger] members_view(members@)[t].0 != k@,
        decreases members.len() - j,
    {
        if members[j].0 == *k {
            assert(members_view(members@)[j as int].0 == k@);
            return true;
        }
        j = j + 1;
    }
    false
}

/// Marks absent every field that the object lacks; returns whether one of
/// them was not yet marked.
fn mark_missing(fields: &mut Vec<(String, TypeSet)>, members: &Vec<(String, JsonValue)>) -> (changed:
    bool)
    requires
        fields_wf(old(fields)@),
        keys_unique(fields_view(old(fields)@)),
        keys_sorted(fields_view(old(fields)@)),
    ensures
        fields_wf(final(fields)@),
        keys_unique(fields_view(final(fields)@)),
        keys_sorted(fields_view(final(fields)@)),
        fields_view(final(fields)@) == mark_absent(
            fields_view(old(fields)@),
            members_view(members@),
        ),
        changed == absence_grows(fields_view(old(fields)@), members_view(members@)),
{
    let ghost f0 = fields_view(fields@);
    let ghost m = members_view(members@);
    proof {
        lemma_fields_view(fields@);
        lemma_fields_wf(fields@);
    }
    let mut changed = false;
    let mut i: usize = 0;
    while i < fields.len()
        invariant
            i <= fields.len(),
            m == members_view(members@),
            fields@.len() == f0.len(),
            forall|t: int| 0 <= t < fields@.len() ==> #[trigger] fields@[t].1.wf(),
            forall|t: int| 0 <= t < i ==> (#[trigger] fields@[t].0@, fields@[t].1@) == mark_absent(f0, m)[t],
            forall|t: int| i <= t < fields@.len() ==> (#[trigger] fields@[t].0@, fields@[t].1@) == f0[t],
            changed == exists|t: int| 0 <= t < i && !has_member(m, #[trigger] f0[t].0) && !f0[t].1.absent,
        decreases f0.len() - i,
    {
        let ghost prev = fields@;
        assert(prev[i as int].1.wf());
        let present = has_member_named(members, &fields[i].0);
        if !present {
            if !fields[i].1.absent {
                changed = true;
            }
            fields[i].1.absent = true;
            assert(fields@[i as int].1@ == Shape { absent: true, ..prev[i as int].1@ });
            assert(fields@[i as int].1.wf());
        }
        assert(forall|t: int| 0 <= t < fields@.len() && t != i ==> fields@[t] == prev[t]);
        assert(mark_absent(f0, m)[i as int] == if present { f0[i as int] } else { (f0[i as int].0, Shape { absent: true, ..f0[i as int].1 }) });
        i = i + 1;
    }
    proof {
        lemma_fields_view(fields@);
        lemma_fields_wf(fields@);
        assert(fields_view(fields@) =~= mark_absent(f0, m));
        let g = fields_view(fields@);
        assert forall|i: int, j: int| 0 <= i < j < g.len() implies key_lt(
            #[trigger] g[i].0,
            #[trigger] g[j].0,
        ) by {
            assert(g[i].0 == f0[i].0 && g[j].0 == f0[j].0);
        }
    }
    changed
}

/// The index of the field named `k`, or else the index where a field of
/// that name goes to keep the names in order.
pub(crate) fn find_field(fields: &Vec<(String, TypeSet)>, k: &String) -> (r: Result<usize, usize>)
    requires
        keys_sorted(fields_view(fields@)),
    ensures
        match r {
            Ok(i) => i < fields@.len() && fields@[i as int].0@ == k@,
            Err(p) => !has_field(fields_view(fields@), k@) && p == count_lt(
                fields_view(fields@),
                k@,
            ),
        },
{
    proof {
        lemma_fields_view(fields@);
        lemma_count_split(fields_view(fields@), k@);
    }
    let ghost f = fields_view(fields@);
    let mut i: usize = 0;
    while i < fields.len()
        invariant
            i <= fields.len(),
            f == fields_view(fields@),
            keys_sorted(f),
            f.len() == fields@.len(),
            forall|t: int| 0 <= t < fields@.len() ==> #[trigger] f[t] == (fields@[t].0@, fields@[t].1@),
            forall|t: int| #![trigger f[t]] 0 <= t < i ==> key_lt(f[t].0, k@),
            0 <= count_lt(f, k@) <= f.len(),
            forall|t: int| #![trigger f[t]] 0 <= t < count_lt(f, k@) ==> key_lt(f[t].0, k@),
            forall|t: int| #![trigger f[t]] count_lt(f, k@) <= t < f.len() ==> !key_lt(f[t].0, k@),
        decreases fields.len() - i,
    {
        if fields[i].0 == *k {
            return Ok(i);
        }
        if !key_less(&fields[i].0, k) {
            proof {
                assert(f[i as int].0 != k@);
                assert forall|t: int| #![trigger f[t]] 0 <= t < f.len() implies f[t].0 != k@ by {
                    lemma_key_lt_irreflexive(k@);
                    if t < i {
                        assert(key_lt(f[t].0, k@));
                    } else if t > i {
                        assert(key_lt(f[i as int].0, f[t].0));
                        if f[t].0 == k@ {
                            crate::keys::lemma_key_lt_total(f[i as int].0, k@);
                            lemma_key_lt_transitive(k@, f[i as int].0, k@);
                        }
                    }
                }
                if count_lt(f, k@) < i {
                    assert(!key_lt(f[count_lt(f, k@)].0, k@));
                }
                if count_lt(f, k@) > i {
                    assert(key_lt(f[i as int].0, k@));
                }
            }
            return Err(i);
        }
        i = i + 1;
    }
    proof {
        lemma_key_lt_irreflexive(k@);
        assert forall|t: int| #![trigger f[t]] 0 <= t < f.len() implies f[t].0 != k@ by {
            assert(key_lt(f[t].0, k@));
        }
        if count_lt(f, k@) < f.len() {
            assert(!key_lt(f[count_lt(f, k@)].0, k@));
        }
    }
    Err(i)
}

/// Merges every member of an object into the field of its name, adding the
/// fields not yet there; returns whether any merge changed a flag.
fn add_members(fields: &mut Vec<(String, TypeSet)>, members: &Vec<(String, JsonValue)>) -> (changed:
    bool)
    requires
        fields_wf(old(fields)@),
        keys_unique(fields_view(old(fields)@)),
        keys_sorted(fields_view(old(fields)@)),
    ensures
        fields_wf(final(fields)@),
        keys_unique(fields_view(final(fields)@)),
        keys_sorted(fields_view(final(fields)@)),
        (fields_view(final(fields)@), changed) == merge_members(
            fields_view(old(fields)@),
            members_view(members@),
        ),
    decreases members, 0nat,
{
    let ghost f0 = fields_view(fields@);
    let ghost m = members_view(members@);
    proof {
        lemma_members_view(members@);
        assert(m.subrange(0, 0) =~= Seq::<(Seq<char>, crate::json::Json)>::empty());
    }
    let mut changed = false;
    let mut j: usize = 0;
    while j < members.len()
        invariant
            j <= members.len(),
            m == members_view(members@),
            m.len() == members@.len(),
            forall|t: int| 0 <= t < members@.len() ==> #[trigger] m[t] == (members@[t].0@, members@[t].1@),
            fields_wf(fields@),
            keys_unique(fields_view(fields@)),
            keys_sorted(fields_view(fields@)),
            (fields_view(fields@), changed) == merge_members(f0, m.subrange(0, j as int)),
        decreases members.len() - j,
    {
        let ghost prev = m.subrange(0, j as int);
        let ghost next = m.subrange(0, j + 1);
        let ghost before = fields_view(fields@);
        assert(next.drop_last() =~= prev);
        assert(next[next.len() - 1] == m[j as int]);
        proof {
            lemma_fields_view(fields@);
            lemma_fields_wf(fields@);
        }
        let k = &members[j].0;
        let val = &members[j].1;
        match find_field(fields, k) {
            Ok(i) => {
                assert(has_field(before, k@)) by {
                    assert(before[i as int].0 == k@);
                }
                let ghost t = choose|t: int| 0 <= t < before.len() && before[t].0 == k@;
                assert(before[t].0 == k@ && before[i as int].0 == k@);
                assert(t == i);
                let c = fields[i].1.add_type_of(val);
                changed = changed || c;
                proof {
                    lemma_fields_view(fields@);
                    lemma_fields_wf(fields@);
                    assert(fields_view(fields@) =~= before.update(i as int, (k@, fields@[i as int].1@)));
                    let g = fields_view(fields@);
                    assert forall|a: int, b: int| 0 <= a < b < g.len() implies key_lt(
                        #[trigger] g[a].0,
                        #[trigger] g[b].0,
                    ) by {
                        assert(g[a].0 == before[a].0 && g[b].0 == before[b].0);
                    }
                }
            },
            Err(p) => {
                let mut child = TypeSet::new();
                let c = child.add_type_of(val);
                proof {
                    lemma_insert_sorted(before, k@, child@);
                }
                fields.insert(p, (k.clone(), child));
                changed = changed || c;
                proof {
                    lemma_fields_view(fields@);
                    lemma_fields_wf(fields@);
                    assert(fields_view(fields@) =~= before.insert(p as int, (k@, child@)));
                    crate::shape::lemma_sorted_unique(fields_view(fields@));
                }
            },
        }
        j = j + 1;
    }
    assert(m.subrange(0, j as int) =~= m);
    changed
}

} // verus!
