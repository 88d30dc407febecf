use crate::json::{lemma_members_view, members_view, Json, JsonValue};
use crate::keys::{key_less, key_lt, lemma_key_lt_transitive};
use crate::shape::{
    empty_shape, fields_shape_wf, has_field, keys_sorted, keys_unique, lemma_sorted_unique, shape_wf,
    Shape,
};
use crate::type_set::{
    fields_view, fields_wf, find_field, lemma_fields_view, lemma_fields_wf, TypeSet,
};
use vstd::prelude::*;

verus! {

/// `m` with `e` added at its end where `c` holds.
pub open spec fn push_if(
    m: Seq<(Seq<char>, Json)>,
    c: bool,
    e: (Seq<char>, Json),
) -> Seq<(Seq<char>, Json)> {
    if c {
        m.push(e)
    } else {
        m
    }
}

/// The members that record the flags of `s` that are true, in a fixed order.
pub open spec fn flag_members(s: Shape) -> Seq<(Seq<char>, Json)> {
    let m = push_if(Seq::empty(), s.absent, ("absent"@, Json::Bool(true)));
    let m = push_if(m, s.null, ("null"@, Json::Bool(true)));
    let m = push_if(m, s.boolean, ("bool"@, Json::Bool(true)));
    let m = push_if(m, s.number, ("number"@, Json::Bool(true)));
    push_if(m, s.string, ("string"@, Json::Bool(true)))
}

/// The snapshot of a node: an object that holds its true flags, then the
/// snapshot of its element node, then an object of its fields' snapshots.
pub open spec fn encode_shape(s: Shape) -> Json
    decreases s,
{
    let m = flag_members(s);
    let m = match s.array {
        Some(b) => m.push(("array"@, encode_shape(*b))),
        None => m,
    };
    let m = match s.object {
        Some(f) => m.push(("object"@, Json::Object(encode_fields(f)))),
        None => m,
    };
    Json::Object(m)
}

pub open spec fn encode_fields(f: Seq<(Seq<char>, Shape)>) -> Seq<(Seq<char>, Json)>
    decreases f,
{
    if f.len() == 0 {
        Seq::empty()
    } else {
        encode_fields(f.drop_last()).push((f[f.len() - 1].0, encode_shape(f[f.len() - 1].1)))
    }
}

/// The node that a snapshot stands for, if it stands for one. Members are read
/// in order, a later one overriding an earlier one of the same name; a flag
/// must be a boolean; `null` for the element node or the fields means none;
/// members of other names are ignored.
pub open spec fn decode_shape(j: Json) -> Option<Shape>
    decreases j,
{
    match j {
        Json::Object(m) => decode_members(m),
        _ => None,
    }
}

pub open spec fn decode_members(m: Seq<(Seq<char>, Json)>) -> Option<Shape>
    decreases m,
{
    if m.len() == 0 {
        Some(empty_shape())
    } else {
        match decode_members(m.drop_last()) {
            None => None,
            Some(acc) => {
                let k = m[m.len() - 1].0;
                let v = m[m.len() - 1].1;
                if k == "absent"@ {
                    match v {
                        Json::Bool(b) => Some(Shape { absent: b, ..acc }),
                        _ => None,
                    }
                } else if k == "null"@ {
                    match v {
                        Json::Bool(b) => Some(Shape { null: b, ..acc }),
                        _ => None,
                    }
                } else if k == "bool"@ {
                    match v {
                        Json::Bool(b) => Some(Shape { boolean: b, ..acc }),
                        _ => None,
                    }
                } else if k == "number"@ {
                    match v {
                        Json::Bool(b) => Some(Shape { number: b, ..acc }),
                        _ => None,
                    }
                } else if k == "string"@ {
                    match v {
                        Json::Bool(b) => Some(Shape { string: b, ..acc }),
                        _ => None,
                    }
                } else if k == "array"@ {
                    match v {
                        Json::Null => Some(Shape { array: None, ..acc }),
                        Json::Object(em) => match decode_members(em) {
                            Some(e) => Some(Shape { array: Some(Box::new(e)), ..acc }),
                            None => None,
                        },
                        _ => None,
                    }
                } else if k == "object"@ {
                    match v {
                        Json::Null => Some(Shape { object: None, ..acc }),
                        Json::Object(fm) => match decode_fields(fm) {
                            Some(f) => Some(Shape { object: Some(f), ..acc }),
                            None => None,
                        },
                        _ => None,
                    }
                } else {
                    Some(acc)
                }
            },
        }
    }
}

/// The fields that an object of snapshots stands for; none where the names
/// are not strictly increasing (see `key_lt`) or a member is no snapshot.
pub open spec fn decode_fields(m: Seq<(Seq<char>, Json)>) -> Option<Seq<(Seq<char>, Shape)>>
    decreases m,
{
    if m.len() == 0 {
        Some(Seq::empty())
    } else {
        match decode_fields(m.drop_last()) {
            None => None,
            Some(acc) => {
                let k = m[m.len() - 1].0;
                if acc.len() > 0 && !key_lt(acc[acc.len() - 1].0, k) {
                    None
                } else {
                    match m[m.len() - 1].1 {
                        Json::Object(cm) => match decode_members(cm) {
                            Some(c) => Some(acc.push((k, c))),
                            None => None,
                        },
                        _ => None,
                    }
                }
            },
        }
    }
}

/// Adds a member `name: true` to `m` where `c` holds.
fn push_flag(m: &mut Vec<(String, JsonValue)>, c: bool, name: &str)
    ensures
        members_view(final(m)@) == push_if(members_view(old(m)@), c, (name@, Json::Bool(true))),
{
    if c {
        let ghost before = m@;
        let key = name.to_owned();
        let item = JsonValue::Bool(true);
        assert(item@ == Json::Bool(true));
        m.push((key, item));
        assert(m@.drop_last() =~= before);
        assert(members_view(m@) == members_view(before).push((name@, Json::Bool(true))));
    }
}

impl TypeSet {
    /// The snapshot of this node: an object that holds its true flags, then
    /// the snapshot of its element node under `array`, then an object of its
    /// fields' snapshots under `object`.
    pub fn encode(&self) -> (r: JsonValue)
        ensures
            r@ == encode_shape(self@),
        decreases self,
    {
        let mut m: Vec<(String, JsonValue)> = Vec::new();
        assert(members_view(m@) =~= Seq::<(Seq<char>, Json)>::empty());
        push_flag(&mut m, self.absent, "absent");
        push_flag(&mut m, self.null, "null");
        push_flag(&mut m, self.boolean, "bool");
        push_flag(&mut m, self.number, "number");
        push_flag(&mut m, self.string, "string");
        assert(members_view(m@) == flag_members(self@));
        match &self.array {
            Some(b) => {
                let e = b.encode();
                let ghost before = m@;
                m.push(("array".to_owned(), e));
                assert(m@.drop_last() =~= before);
                assert(members_view(m@) == members_view(before).push(("array"@, e@)));
            },
            None => {},
        }
        match &self.object {
            Some(f) => {
                let fs = encode_fields_of(f);
                let ghost before = m@;
                let item = JsonValue::Object(fs);
                assert(item@ == Json::Object(encode_fields(fields_view(f@))));
                m.push(("object".to_owned(), item));
                assert(m@.drop_last() =~= before);
                assert(members_view(m@) == members_view(before).push(("object"@, item@)));
            },
            None => {},
        }
        JsonValue::Object(m)
    }

    /// The node that a snapshot stands for, if it stands for one (see
    /// `decode_shape`).
    pub fn decode(j: &JsonValue) -> (r: Option<TypeSet>)
        ensures
            match r {
                Some(t) => decode_shape(j@) == Some(t@) && t.wf(),
                None => decode_shape(j@) is None,
            },
    {
        match j {
            JsonValue::Object(m) => decode_node(m),
            _ => None,
        }
    }
}

fn encode_fields_of(f: &Vec<(String, TypeSet)>) -> (r: Vec<(String, JsonValue)>)
    ensures
        members_view(r@) == encode_fields(fields_view(f@)),
    decreases f,
{
    proof {
        lemma_fields_view(f@);
    }
    let ghost fv = fields_view(f@);
    let mut r: Vec<(String, JsonValue)> = Vec::new();
    let mut i: usize = 0;
    assert(members_view(r@) =~= encode_fields(fv.subrange(0, 0)));
    while i < f.len()
        invariant
            i <= f.len(),
            fv == fields_view(f@),
            fv.len() == f@.len(),
            forall|t: int| 0 <= t < f@.len() ==> #[trigger] fv[t] == (f@[t].0@, f@[t].1@),
            members_view(r@) == encode_fields(fv.subrange(0, i as int)),
        decreases f.len() - i,
    {
        let e = f[i].1.encode();
        let ghost before = r@;
        r.push((f[i].0.clone(), e));
        assert(r@.drop_last() =~= before);
        assert(fv.subrange(0, i + 1).drop_last() =~= fv.subrange(0, i as int));
        i = i + 1;
    }
    assert(fv.subrange(0, i as int) =~= fv);
    r
}

fn decode_node(m: &Vec<(String, JsonValue)>) -> (r: Option<TypeSet>)
    ensures
        match r {
            Some(t) => decode_members(members_view(m@)) == Some(t@) && t.wf(),
            None => decode_members(members_view(m@)) is None,
        },
    decreases m,
{
    proof {
        lemma_members_view(m@);
    }
    let ghost mv = members_view(m@);
    let n_absent = "absent".to_owned();
    let n_null = "null".to_owned();
    let n_bool = "bool".to_owned();
    let n_number = "number".to_owned();
    let n_string = "string".to_owned();
    let n_array = "array".to_owned();
    let n_object = "object".to_owned();
    let mut acc = TypeSet::new();
    let mut ok = true;
    let mut i: usize = 0;
    assert(mv.subrange(0, 0) =~= Seq::<(Seq<char>, Json)>::empty());
    while i < m.len()
        invariant
            i <= m.len(),
            mv == members_view(m@),
            mv.len() == m@.len(),
            forall|t: int| 0 <= t < m@.len() ==> #[trigger] mv[t] == (m@[t].0@, m@[t].1@),
            n_absent@ == "absent"@,
            n_null@ == "null"@,
            n_bool@ == "bool"@,
            n_number@ == "number"@,
            n_string@ == "string"@,
            n_array@ == "array"@,
            n_object@ == "object"@,
            acc.wf(),
            ok ==> decode_members(mv.subrange(0, i as int)) == Some(acc@),
            !ok ==> decode_members(mv.subrange(0, i as int)) is None,
        decreases m.len() - i,
    {
        assert(mv.subrange(0, i + 1).drop_last() =~= mv.subrange(0, i as int));
        assert(mv.subrange(0, i + 1)[i as int] == mv[i as int]);
        if ok {
            let k = &m[i].0;
            let v = &m[i].1;
            if *k == n_absent {
                match v {
                    JsonValue::Bool(b) => acc.absent = *b,
                    _ => ok = false,
                }
            } else if *k == n_null {
                match v {
                    JsonValue::Bool(b) => acc.null = *b,
                    _ => ok = false,
                }
            } else if *k == n_bool {
                match v {
                    JsonValue::Bool(b) => acc.boolean = *b,
                    _ => ok = false,
                }
            } else if *k == n_number {
                match v {
                    JsonValue::Bool(b) => acc.number = *b,
                    _ => ok = false,
                }
            } else if *k == n_string {
                match v {
                    JsonValue::Bool(b) => acc.string = *b,
                    _ => ok = false,
                }
            } else if *k == n_array {
                match v {
                    JsonValue::Null => acc.array = None,
                    JsonValue::Object(em) => match decode_node(em) {
                        Some(e) => acc.array = Some(Box::new(e)),
                        None => ok = false,
                    },
                    _ => ok = false,
                }
            } else if *k == n_object {
                match v {
                    JsonValue::Null => acc.object = None,
                    JsonValue::Object(fm) => match decode_fields_of(fm) {
                        Some(f) => acc.object = Some(f),
                        None => ok = false,
                    },
                    _ => ok = false,
                }
            }
        }
        i = i + 1;
    }
    assert(mv.subrange(0, i as int) =~= mv);
    if ok {
        Some(acc)
    } else {
        None
    }
}

fn decode_fields_of(m: &Vec<(String, JsonValue)>) -> (r: Option<Vec<(String, TypeSet)>>)
    ensures
        match r {
            Some(f) => decode_fields(members_view(m@)) == Some(fields_view(f@)) && fields_wf(f@)
                && keys_unique(fields_view(f@)) && keys_sorted(fields_view(f@)),
            None => decode_fields(members_view(m@)) is None,
        },
    decreases m,
{
    proof {
        lemma_members_view(m@);
    }
    let ghost mv = members_view(m@);
    let mut acc: Vec<(String, TypeSet)> = Vec::new();
    let mut ok = true;
    let mut i: usize = 0;
    assert(mv.subrange(0, 0) =~= Seq::<(Seq<char>, Json)>::empty());
    assert(fields_view(acc@) =~= Seq::<(Seq<char>, Shape)>::empty());
    while i < m.len()
        invariant
            i <= m.len(),
            mv == members_view(m@),
            mv.len() == m@.len(),
            forall|t: int| 0 <= t < m@.len() ==> #[trigger] mv[t] == (m@[t].0@, m@[t].1@),
            fields_wf(acc@),
            keys_unique(fields_view(acc@)),
            keys_sorted(fields_view(acc@)),
            ok ==> decode_fields(mv.subrange(0, i as int)) == Some(fields_view(acc@)),
            !ok ==> decode_fields(mv.subrange(0, i as int)) is None,
        decreases m.len() - i,
    {
        assert(mv.subrange(0, i + 1).drop_last() =~= mv.subrange(0, i as int));
        assert(mv.subrange(0, i + 1)[i as int] == mv[i as int]);
        if ok {
            let k = &m[i].0;
            proof {
                lemma_fields_view(acc@);
            }
            let in_order = acc.len() == 0 || key_less(&acc[acc.len() - 1].0, k);
            if !in_order {
                ok = false;
            } else {
                match &m[i].1 {
                    JsonValue::Object(cm) => match decode_node(cm) {
                        Some(c) => {
                            let ghost before = acc@;
                            let ghost bv = fields_view(before);
                            proof {
                                lemma_fields_wf(before);
                            }
                            acc.push((k.clone(), c));
                            proof {
                                lemma_fields_view(acc@);
                                lemma_fields_wf(acc@);
                                assert(fields_view(acc@) =~= bv.push((k@, c@)));
                                let g = fields_view(acc@);
                                assert forall|a: int, b: int| 0 <= a < b < g.len() implies key_lt(
                                    #[trigger] g[a].0,
                                    #[trigger] g[b].0,
                                ) by {
                                    if b == g.len() - 1 && a < bv.len() - 1 {
                                        assert(key_lt(bv[a].0, bv[bv.len() - 1].0));
                                        lemma_key_lt_transitive(bv[a].0, bv[bv.len() - 1].0, k@);
                                    }
                                }
                                lemma_sorted_unique(g);
                            }
                        },
                        None => ok = false,
                    },
                    _ => ok = false,
                }
            }
        }
        i = i + 1;
    }
    assert(mv.subrange(0, i as int) =~= mv);
    if ok {
        Some(acc)
    } else {
        None
    }
}

/// The flags of `s`, with neither an element node nor fields.
pub open spec fn flags_of(s: Shape) -> Shape {
    Shape { array: None, object: None, ..s }
}

/// The names of a snapshot's members differ from one another.
proof fn lemma_names_differ()
    ensures
        "null"@ != "absent"@,
        "bool"@ != "absent"@ && "bool"@ != "null"@,
        "number"@ != "absent"@ && "number"@ != "null"@ && "number"@ != "bool"@,
        "string"@ != "absent"@ && "string"@ != "null"@ && "string"@ != "bool"@ && "string"@
            != "number"@,
        "array"@ != "absent"@ && "array"@ != "null"@ && "array"@ != "bool"@ && "array"@
            != "number"@ && "array"@ != "string"@,
        "object"@ != "absent"@ && "object"@ != "null"@ && "object"@ != "bool"@ && "object"@
            != "number"@ && "object"@ != "string"@ && "object"@ != "array"@,
{
    reveal_strlit("absent");
    reveal_strlit("null");
    reveal_strlit("bool");
    reveal_strlit("number");
    reveal_strlit("string");
    reveal_strlit("array");
    reveal_strlit("object");
    assert("absent"@.len() == 6 && "absent"@[0] == 'a');
    assert("null"@.len() == 4 && "null"@[0] == 'n');
    assert("bool"@.len() == 4 && "bool"@[0] == 'b');
    assert("number"@.len() == 6 && "number"@[0] == 'n');
    assert("string"@.len() == 6 && "string"@[0] == 's');
    assert("array"@.len() == 5 && "array"@[0] == 'a');
    assert("object"@.len() == 6 && "object"@[0] == 'o');
}

proof fn lemma_decode_flags(s: Shape)
    ensures
        decode_members(flag_members(s)) == Some(flags_of(s)),
{
    lemma_names_differ();
    let e = Seq::<(Seq<char>, Json)>::empty();
    let m1 = push_if(e, s.absent, ("absent"@, Json::Bool(true)));
    let m2 = push_if(m1, s.null, ("null"@, Json::Bool(true)));
    let m3 = push_if(m2, s.boolean, ("bool"@, Json::Bool(true)));
    let m4 = push_if(m3, s.number, ("number"@, Json::Bool(true)));
    let m5 = push_if(m4, s.string, ("string"@, Json::Bool(true)));
    assert(decode_members(e) == Some(empty_shape()));
    if s.absent {
        assert(m1.drop_last() =~= e);
    }
    assert(decode_members(m1) == Some(Shape { absent: s.absent, ..empty_shape() }));
    if s.null {
        assert(m2.drop_last() =~= m1);
    }
    assert(decode_members(m2) == Some(Shape { absent: s.absent, null: s.null, ..empty_shape() }));
    if s.boolean {
        assert(m3.drop_last() =~= m2);
    }
    assert(decode_members(m3) == Some(
        Shape { absent: s.absent, null: s.null, boolean: s.boolean, ..empty_shape() },
    ));
    if s.number {
        assert(m4.drop_last() =~= m3);
    }
    assert(decode_members(m4) == Some(
        Shape {
            absent: s.absent,
            null: s.null,
            boolean: s.boolean,
            number: s.number,
            ..empty_shape()
        },
    ));
    if s.string {
        assert(m5.drop_last() =~= m4);
    }
}

/// Decoding the snapshot of a node gives the node back.
pub proof fn lemma_round_trip(s: Shape)
    requires
        shape_wf(s),
    ensures
        decode_shape(encode_shape(s)) == Some(s),
    decreases s,
{
    lemma_names_differ();
    lemma_decode_flags(s);
    let m0 = flag_members(s);
    let m1 = match s.array {
        Some(b) => m0.push(("array"@, encode_shape(*b))),
        None => m0,
    };
    let s1 = Shape { object: None, ..s };
    match s.array {
        Some(b) => {
            lemma_round_trip(*b);
            assert(m1.drop_last() =~= m0);
            assert(decode_members(m1) == Some(s1));
        },
        None => {
            assert(flags_of(s) == s1);
        },
    }
    match s.object {
        Some(f) => {
            lemma_round_trip_fields(f);
            let m2 = m1.push(("object"@, Json::Object(encode_fields(f))));
            assert(m2.drop_last() =~= m1);
            assert(decode_members(m2) == Some(s));
        },
        None => {},
    }
}

/// Decoding the snapshots of fields with distinct names gives the fields back.
pub proof fn lemma_round_trip_fields(f: Seq<(Seq<char>, Shape)>)
    requires
        keys_unique(f),
        keys_sorted(f),
        fields_shape_wf(f),
    ensures
        decode_fields(encode_fields(f)) == Some(f),
    decreases f,
{
    if f.len() > 0 {
        let p = f.drop_last();
        let last = f[f.len() - 1];
        assert(keys_unique(p)) by {
            assert forall|i: int, j: int|
                0 <= i < p.len() && 0 <= j < p.len() && i != j implies #[trigger] p[i].0
                != #[trigger] p[j].0 by {
                assert(p[i] == f[i] && p[j] == f[j]);
            }
        }
        assert(keys_sorted(p)) by {
            assert forall|i: int, j: int| 0 <= i < j < p.len() implies key_lt(
                #[trigger] p[i].0,
                #[trigger] p[j].0,
            ) by {
                assert(p[i] == f[i] && p[j] == f[j]);
            }
        }
        if p.len() > 0 {
            assert(key_lt(f[p.len() - 1].0, f[f.len() - 1].0));
        }
        lemma_round_trip_fields(p);
        lemma_round_trip(last.1);
        let e = encode_fields(f);
        assert(e.drop_last() =~= encode_fields(p));
        assert(!has_field(p, last.0)) by {
            if has_field(p, last.0) {
                let i = choose|i: int| 0 <= i < p.len() && p[i].0 == last.0;
                assert(f[i].0 == f[f.len() - 1].0);
            }
        }
        assert(p.push(last) =~= f);
    }
}

/// Every node reached by the library's functions satisfies `shape_wf`.
pub proof fn lemma_wf_shape(t: TypeSet)
    requires
        t.wf(),
    ensures
        shape_wf(t@),
    decreases t,
{
    match t.array {
        Some(b) => lemma_wf_shape(*b),
        None => {},
    }
    match t.object {
        Some(f) => lemma_wf_fields(f@),
        None => {},
    }
}

proof fn lemma_wf_fields(s: Seq<(String, TypeSet)>)
    requires
        fields_wf(s),
    ensures
        fields_shape_wf(fields_view(s)),
    decreases s,
{
    if s.len() > 0 {
        lemma_wf_fields(s.drop_last());
        lemma_wf_shape(s[s.len() - 1].1);
        assert(fields_view(s).drop_last() =~= fields_view(s.drop_last()));
    }
}

/// Decoding the snapshot of a well-formed node gives the node back.
pub proof fn lemma_snapshot_round_trip(n: TypeSet)
    requires
        n.wf(),
    ensures
        decode_shape(encode_shape(n@)) == Some(n@),
{
    lemma_wf_shape(n);
    lemma_round_trip(n@);
}

} // verus!
