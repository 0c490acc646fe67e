use vstd::prelude::*;

use crate::config::FormatConfig;
use crate::parser::{
    entry_key_stops, lemma_read_scalar_end, lemma_value_end, map_insert, spec_parse_entries,
    spec_into_map, spec_parse_items, spec_parse_record, spec_parse_value, spec_read_scalar,
};
use crate::roundtrip::{fields_representable, keys_sorted, lemma_record_roundtrip};
use crate::serializer::spec_record_text;
use crate::text::{chars_less, chars_of, lemma_chars_less_total, lemma_chars_less_trans, less_than};
use crate::value::{SpecValue, Value};

verus! {

/// Every object within `v` has its keys in strictly increasing order.
pub open spec fn objects_ordered(v: SpecValue) -> bool
    decreases v,
{
    match v {
        SpecValue::List(items) => forall|i: int| 0 <= i < items.len() ==> objects_ordered(#[trigger] items[i]),
        SpecValue::Object(entries) => {
            &&& keys_sorted(entries)
            &&& forall|i: int| 0 <= i < entries.len() ==> objects_ordered(#[trigger] entries[i].1)
        },
        _ => true,
    }
}

/// Whether every object within `v` has its keys in strictly increasing order
/// (see [`objects_ordered`]), as [`crate::serializer::serialize_value`] needs.
pub fn objects_in_order(v: &Value) -> (b: bool)
    ensures
        b == objects_ordered(v@),
    decreases v,
{
    match v {
        Value::List(items) => {
            let ghost views = v@->List_0;
            assert(v@ == SpecValue::List(views));
            assert(forall|j: int| 0 <= j < items.len() ==> views[j] == #[trigger] items[j]@);
            let mut i: usize = 0;
            while i < items.len()
                invariant
                    0 <= i <= items.len(),
                    views.len() == items.len(),
                    *v == Value::List(*items),
                    v@ == SpecValue::List(views),
                    forall|j: int| 0 <= j < items.len() ==> views[j] == #[trigger] items[j]@,
                    forall|j: int| 0 <= j < i ==> objects_ordered(#[trigger] views[j]),
                decreases items.len() - i,
            {
                proof {
                    let ghost w = *v;
                    assert(decreases_to!(w => w->List_0));
                    assert(decreases_to!(w->List_0 => w->List_0[i as int]));
                }
                if !objects_in_order(&items[i]) {
                    proof {
                        if objects_ordered(v@) {
                            lemma_ordered_item(views, i as int);
                        }
                    }
                    return false;
                }
                i = i + 1;
            }
            true
        },
        Value::Object(entries) => {
            let ghost views = v@->Object_0;
            assert(v@ == SpecValue::Object(views));
            assert(forall|j: int| 0 <= j < entries.len() ==> views[j] == (#[trigger] entries[j].0@, entries[j].1@));
            let mut i: usize = 0;
            while i < entries.len()
                invariant
                    0 <= i <= entries.len(),
                    views.len() == entries.len(),
                    *v == Value::Object(*entries),
                    v@ == SpecValue::Object(views),
                    forall|j: int| 0 <= j < entries.len() ==> views[j] == (#[trigger] entries[j].0@, entries[j].1@),
                    forall|a: int, b: int| 0 <= a < b < i ==> chars_less(#[trigger] views[a].0, #[trigger] views[b].0),
                    forall|j: int| 0 <= j < i ==> objects_ordered(#[trigger] views[j].1),
                decreases entries.len() - i,
            {
                if i > 0 {
                    let prev = chars_of(entries[i - 1].0.as_str());
                    let cur = chars_of(entries[i].0.as_str());
                    if !less_than(&prev, &cur) {
                        assert(!keys_sorted(views)) by {
                            assert(views[i - 1] == (entries[i - 1].0@, entries[i - 1].1@));
                            assert(views[i as int] == (entries[i as int].0@, entries[i as int].1@));
                            assert(!chars_less(views[i - 1].0, views[i as int].0));
                            if keys_sorted(views) {
                                assert(chars_less(views[i - 1].0, views[i as int].0));
                            }
                        }
                        return false;
                    }
                    proof {
                        assert forall|a: int, b: int| 0 <= a < b < i + 1 implies chars_less(
                            #[trigger] views[a].0,
                            #[trigger] views[b].0,
                        ) by {
                            if b == i && a < i - 1 {
                                lemma_chars_less_trans(views[a].0, views[i - 1].0, views[b].0);
                            }
                        }
                    }
                }
                proof {
                    let ghost w = *v;
                    assert(decreases_to!(w => w->Object_0));
                    assert(decreases_to!(w->Object_0 => w->Object_0[i as int]));
                    assert(decreases_to!(w->Object_0[i as int] => w->Object_0[i as int].1));
                }
                if !objects_in_order(&entries[i].1) {
                    assert(!objects_ordered(views[i as int].1));
                    return false;
                }
                i = i + 1;
            }
            proof {
                assert(keys_sorted(views));
            }
            true
        },
        _ => true,
    }
}

/// Key order constrains objects only: every scalar, whatever its text, has
/// its objects in order; a list has when each item has; an object has when
/// its keys are in strictly increasing order and each value has.
pub proof fn lemma_objects_ordered_cases(v: SpecValue)
    ensures
        !(v is List) && !(v is Object) ==> objects_ordered(v),
        forall|t: Seq<char>| #[trigger] objects_ordered(SpecValue::Str(t)),
        forall|t: Seq<char>| #[trigger] objects_ordered(SpecValue::Float(t)),
        forall|i: i64| #[trigger] objects_ordered(SpecValue::Int(i)),
        forall|b: bool| #[trigger] objects_ordered(SpecValue::Bool(b)),
        objects_ordered(SpecValue::Null),
        v matches SpecValue::List(items) ==> (objects_ordered(v) <==> forall|i: int|
            0 <= i < items.len() ==> objects_ordered(#[trigger] items[i])),
        v matches SpecValue::Object(entries) ==> (objects_ordered(v) <==> (keys_sorted(entries) && forall|i: int|
            0 <= i < entries.len() ==> objects_ordered(#[trigger] entries[i].1))),
{
    reveal_with_fuel(objects_ordered, 2);
    match v {
        SpecValue::List(items) => {
            assert(v->List_0 == items);
            if objects_ordered(v) {
                assert forall|i: int| 0 <= i < items.len() implies objects_ordered(#[trigger] items[i]) by {
                    assert(objects_ordered(v->List_0[i]));
                }
            }
        },
        SpecValue::Object(entries) => {
            assert(v->Object_0 == entries);
        },
        _ => {},
    }
}

/// Each item of a list whose objects are ordered has its objects ordered.
pub proof fn lemma_ordered_item(items: Seq<SpecValue>, i: int)
    requires
        objects_ordered(SpecValue::List(items)),
        0 <= i < items.len(),
    ensures
        objects_ordered(items[i]),
{
    reveal_with_fuel(objects_ordered, 2);
    let v = SpecValue::List(items);
    assert(v->List_0 == items);
    assert(objects_ordered(v->List_0[i]));
}

/// Inserting into a map with keys in order keeps them in order; each entry of
/// the result is the new one or an entry of the map.
pub proof fn lemma_map_insert_ordered(m: Seq<(Seq<char>, SpecValue)>, k: Seq<char>, v: SpecValue)
    requires
        keys_sorted(m),
    ensures
        keys_sorted(map_insert(m, k, v)),
        forall|i: int|
            0 <= i < map_insert(m, k, v).len() ==> #[trigger] map_insert(m, k, v)[i] == (k, v) || m.contains(
                map_insert(m, k, v)[i],
            ),
    decreases m.len(),
{
    let r = map_insert(m, k, v);
    if m.len() == 0 {
    } else if m[0].0 == k {
        assert forall|i: int| 0 <= i < r.len() implies #[trigger] r[i] == (k, v) || m.contains(r[i]) by {
            if i > 0 {
                assert(r[i] == m[i]);
            }
        }
        assert forall|i: int, j: int| 0 <= i < j < r.len() implies chars_less(#[trigger] r[i].0, #[trigger] r[j].0) by {
            assert(r[j] == m[j]);
            if i > 0 {
                assert(r[i] == m[i]);
            }
        }
    } else if chars_less(k, m[0].0) {
        assert forall|i: int| 0 <= i < r.len() implies #[trigger] r[i] == (k, v) || m.contains(r[i]) by {
            if i > 0 {
                assert(r[i] == m[i - 1]);
            }
        }
        assert forall|i: int, j: int| 0 <= i < j < r.len() implies chars_less(#[trigger] r[i].0, #[trigger] r[j].0) by {
            assert(r[j] == m[j - 1]);
            if i > 0 {
                assert(r[i] == m[i - 1]);
            } else if j > 1 {
                lemma_chars_less_trans(k, m[0].0, m[j - 1].0);
            }
        }
    } else {
        let rest = m.drop_first();
        assert(keys_sorted(rest)) by {
            assert forall|i: int, j: int| 0 <= i < j < rest.len() implies chars_less(#[trigger] rest[i].0, #[trigger] rest[j].0) by {
                assert(rest[i] == m[i + 1] && rest[j] == m[j + 1]);
            }
        }
        lemma_map_insert_ordered(rest, k, v);
        let rr = map_insert(rest, k, v);
        assert(r == seq![m[0]] + rr);
        lemma_chars_less_total(k, m[0].0);
        assert forall|i: int| 0 <= i < r.len() implies #[trigger] r[i] == (k, v) || m.contains(r[i]) by {
            if i > 0 {
                assert(r[i] == rr[i - 1]);
                if rr[i - 1] != (k, v) {
                    let j = choose|j: int| 0 <= j < rest.len() && rest[j] == rr[i - 1];
                    assert(m[j + 1] == rest[j]);
                }
            } else {
                assert(m[0] == r[0]);
            }
        }
        assert forall|i: int, j: int| 0 <= i < j < r.len() implies chars_less(#[trigger] r[i].0, #[trigger] r[j].0) by {
            assert(r[j] == rr[j - 1]);
            if i > 0 {
                assert(r[i] == rr[i - 1]);
            } else {
                if rr[j - 1] == (k, v) {
                } else {
                    let x = choose|x: int| 0 <= x < rest.len() && rest[x] == rr[j - 1];
                    assert(m[x + 1] == rest[x]);
                }
            }
        }
    }
}

/// Every value that parses successfully has its objects' keys in order.
pub proof fn lemma_parse_value_ordered(s: Seq<char>, p: int, cfg: FormatConfig)
    ensures
        spec_parse_value(s, p, cfg) matches Ok((v, _)) ==> objects_ordered(v),
    decreases s.len() - p, 1int,
{
    if 0 <= p < s.len() && s[p] == cfg.list_open {
        if !(p + 1 < s.len() && s[p + 1] == cfg.list_close) {
            lemma_parse_items_ordered(s, p + 1, Seq::empty(), cfg);
        }
    } else if 0 <= p < s.len() && s[p] == cfg.obj_open {
        if !(p + 1 < s.len() && s[p + 1] == cfg.obj_close) {
            lemma_parse_entries_ordered(s, p + 1, Seq::empty(), cfg);
        }
    }
}

/// Items that parse successfully after ordered items are all ordered.
pub proof fn lemma_parse_items_ordered(s: Seq<char>, p: int, acc: Seq<SpecValue>, cfg: FormatConfig)
    ensures
        (forall|i: int| 0 <= i < acc.len() ==> objects_ordered(#[trigger] acc[i])) ==> (spec_parse_items(
            s,
            p,
            acc,
            cfg,
        ) matches Ok((vs, _)) ==> forall|i: int| 0 <= i < vs.len() ==> objects_ordered(#[trigger] vs[i])),
    decreases s.len() - p, 2int,
{
    if p >= 0 {
        lemma_parse_value_ordered(s, p, cfg);
        match spec_parse_value(s, p, cfg) {
            Ok((v, e)) => {
                let acc2 = acc.push(v);
                if forall|i: int| 0 <= i < acc.len() ==> objects_ordered(#[trigger] acc[i]) {
                    assert forall|i: int| 0 <= i < acc2.len() implies objects_ordered(#[trigger] acc2[i]) by {
                        if i < acc.len() {
                            assert(acc2[i] == acc[i]);
                        }
                    }
                }
                if e >= p && e < s.len() && s[e] == cfg.list_sep {
                    lemma_parse_items_ordered(s, e + 1, acc2, cfg);
                }
            },
            Err(_) => {},
        }
    }
}

/// Entries that parse successfully into an ordered map give an ordered map.
pub proof fn lemma_parse_entries_ordered(
    s: Seq<char>,
    p: int,
    acc: Seq<(Seq<char>, SpecValue)>,
    cfg: FormatConfig,
)
    ensures
        (keys_sorted(acc) && forall|i: int| 0 <= i < acc.len() ==> objects_ordered(#[trigger] acc[i].1))
            ==> (spec_parse_entries(s, p, acc, cfg) matches Ok((m, _)) ==> objects_ordered(
            SpecValue::Object(m),
        )),
    decreases s.len() - p, 2int,
{
    if p >= 0 {
        let (k, e1) = spec_read_scalar(s, p, cfg.escape, entry_key_stops(cfg));
        lemma_read_scalar_end(s, p, cfg.escape, entry_key_stops(cfg));
        if e1 < s.len() && s[e1] == cfg.kv_sep {
            lemma_parse_value_ordered(s, e1 + 1, cfg);
            match spec_parse_value(s, e1 + 1, cfg) {
                Ok((v, e)) => {
                    let m = map_insert(acc, k, v);
                    if keys_sorted(acc) && forall|i: int|
                        0 <= i < acc.len() ==> objects_ordered(#[trigger] acc[i].1) {
                        lemma_map_insert_ordered(acc, k, v);
                        assert forall|i: int| 0 <= i < m.len() implies objects_ordered(#[trigger] m[i].1) by {
                            if m[i] != (k, v) {
                                let j = choose|j: int| 0 <= j < acc.len() && acc[j] == m[i];
                                assert(objects_ordered(acc[j].1));
                            }
                        }
                    }
                    if e >= p && e < s.len() && s[e] == cfg.field_sep {
                        lemma_parse_entries_ordered(s, e + 1, m, cfg);
                    }
                },
                Err(_) => {},
            }
        }
    }
}

/// Every record that parses successfully has its values' objects ordered.
pub proof fn lemma_parse_record_ordered(
    s: Seq<char>,
    p: int,
    acc: Seq<(Seq<char>, SpecValue)>,
    cfg: FormatConfig,
)
    requires
        forall|i: int| 0 <= i < acc.len() ==> objects_ordered(#[trigger] acc[i].1),
    ensures
        spec_parse_record(s, p, acc, cfg) matches Ok(fields) ==> forall|i: int|
            0 <= i < fields.len() ==> objects_ordered(#[trigger] fields[i].1),
    decreases s.len() - p,
{
    if 0 <= p < s.len() {
        if s[p] == cfg.field_sep {
            lemma_parse_record_ordered(s, p + 1, acc, cfg);
        } else {
            let (k, e1) = spec_read_scalar(s, p, cfg.escape, crate::parser::record_key_stops(cfg));
            if k.len() > 0 && e1 < s.len() && s[e1] == cfg.kv_sep {
                lemma_parse_value_ordered(s, e1 + 1, cfg);
                match spec_parse_value(s, e1 + 1, cfg) {
                    Ok((v, e)) => {
                        lemma_read_scalar_end(s, p, cfg.escape, crate::parser::record_key_stops(cfg));
                        lemma_value_end(s, e1 + 1, cfg);
                        let next = if e < s.len() && s[e] == cfg.field_sep { e + 1 } else { e };
                        let acc2 = acc.push((k, v));
                        assert forall|i: int| 0 <= i < acc2.len() implies objects_ordered(#[trigger] acc2[i].1) by {
                            if i < acc.len() {
                                assert(acc2[i] == acc[i]);
                            }
                        }
                        lemma_parse_record_ordered(s, next, acc2, cfg);
                    },
                    Err(_) => {},
                }
            }
        }
    }
}


/// Ordering the fields of a record by key gives keys in strictly increasing
/// order, each entry being one of the fields.
pub proof fn lemma_into_map_ordered(fields: Seq<(Seq<char>, SpecValue)>)
    ensures
        keys_sorted(spec_into_map(fields)),
        forall|i: int|
            0 <= i < spec_into_map(fields).len() ==> fields.contains(#[trigger] spec_into_map(fields)[i]),
    decreases fields.len(),
{
    if fields.len() > 0 {
        let init = fields.drop_last();
        lemma_into_map_ordered(init);
        let m = spec_into_map(init);
        lemma_map_insert_ordered(m, fields.last().0, fields.last().1);
        let r = spec_into_map(fields);
        assert forall|i: int| 0 <= i < r.len() implies fields.contains(#[trigger] r[i]) by {
            if r[i] == (fields.last().0, fields.last().1) {
                assert(fields[fields.len() - 1] == r[i]);
            } else {
                let j = choose|j: int| 0 <= j < m.len() && m[j] == r[i];
                assert(init.contains(m[j]));
                let x = choose|x: int| 0 <= x < init.len() && init[x] == m[j];
                assert(fields[x] == init[x]);
            }
        }
    }
}

/// The value of the first entry of `m` with the key `k`, if there is one.
pub open spec fn entry_of(m: Seq<(Seq<char>, SpecValue)>, k: Seq<char>) -> Option<SpecValue>
    decreases m.len(),
{
    if m.len() == 0 {
        None
    } else if m[0].0 == k {
        Some(m[0].1)
    } else {
        entry_of(m.drop_first(), k)
    }
}

/// The value of the last field of `fields` with the key `k`, if there is one.
pub open spec fn last_value(fields: Seq<(Seq<char>, SpecValue)>, k: Seq<char>) -> Option<SpecValue>
    decreases fields.len(),
{
    if fields.len() == 0 {
        None
    } else if fields.last().0 == k {
        Some(fields.last().1)
    } else {
        last_value(fields.drop_last(), k)
    }
}

/// Looking a key up after an insertion gives the inserted value for that
/// key, and what the map held for any other key.
pub proof fn lemma_entry_of_insert(m: Seq<(Seq<char>, SpecValue)>, k: Seq<char>, v: SpecValue, k2: Seq<char>)
    ensures
        entry_of(map_insert(m, k, v), k2) == if k2 == k {
            Some(v)
        } else {
            entry_of(m, k2)
        },
    decreases m.len(),
{
    if m.len() == 0 {
        assert(seq![(k, v)].drop_first() =~= Seq::<(Seq<char>, SpecValue)>::empty());
    } else if m[0].0 == k {
        assert((seq![(k, v)] + m.drop_first()).drop_first() =~= m.drop_first());
    } else if chars_less(k, m[0].0) {
        assert((seq![(k, v)] + m).drop_first() =~= m);
    } else {
        lemma_entry_of_insert(m.drop_first(), k, v, k2);
        assert((seq![m[0]] + map_insert(m.drop_first(), k, v)).drop_first() =~= map_insert(
            m.drop_first(),
            k,
            v,
        ));
    }
}

/// In a map with keys in order, each entry is what its key looks up.
pub proof fn lemma_entry_of_sorted(m: Seq<(Seq<char>, SpecValue)>, i: int)
    requires
        keys_sorted(m),
        0 <= i < m.len(),
    ensures
        entry_of(m, m[i].0) == Some(m[i].1),
    decreases i,
{
    if i > 0 {
        lemma_chars_less_total(m[0].0, m[0].0);
        assert(chars_less(m[0].0, m[i].0));
        let r = m.drop_first();
        assert forall|a: int, b: int| 0 <= a < b < r.len() implies chars_less(
            #[trigger] r[a].0,
            #[trigger] r[b].0,
        ) by {
            assert(r[a] == m[a + 1] && r[b] == m[b + 1]);
        }
        lemma_entry_of_sorted(r, i - 1);
        assert(r[i - 1] == m[i]);
    }
}

/// Ordering the fields of a record by key keeps every key, with the last
/// value given to it, and nothing else: a key looks up its last value, each
/// key occurs once, in increasing order, and each entry holds its key's last
/// value.
pub proof fn lemma_into_map_keeps_last(fields: Seq<(Seq<char>, SpecValue)>)
    ensures
        keys_sorted(spec_into_map(fields)),
        forall|k: Seq<char>| #[trigger] entry_of(spec_into_map(fields), k) == last_value(fields, k),
        forall|i: int|
            0 <= i < spec_into_map(fields).len() ==> last_value(fields, #[trigger] spec_into_map(fields)[i].0)
                == Some(spec_into_map(fields)[i].1),
    decreases fields.len(),
{
    lemma_into_map_ordered(fields);
    let r = spec_into_map(fields);
    if fields.len() > 0 {
        let init = fields.drop_last();
        lemma_into_map_keeps_last(init);
        assert forall|k: Seq<char>| #[trigger] entry_of(r, k) == last_value(fields, k) by {
            lemma_entry_of_insert(spec_into_map(init), fields.last().0, fields.last().1, k);
        }
    }
    assert forall|i: int| 0 <= i < r.len() implies last_value(fields, #[trigger] r[i].0) == Some(r[i].1) by {
        lemma_entry_of_sorted(r, i);
        assert(entry_of(r, r[i].0) == last_value(fields, r[i].0));
    }
}

/// Writing a record ordered by key and reading it back gives the ordered
/// record, when every key is nonempty and every value representable: each
/// key of the record occurs once in what is read, in increasing order, with
/// the last value the record gave it, and no other key occurs.
pub proof fn lemma_ordered_record_roundtrip(fields: Seq<(Seq<char>, SpecValue)>, cfg: FormatConfig)
    requires
        cfg.wf(),
        fields_representable(fields, cfg),
    ensures
        keys_sorted(spec_into_map(fields)),
        spec_parse_record(spec_record_text(spec_into_map(fields), cfg), 0, Seq::empty(), cfg) == Ok::<
            Seq<(Seq<char>, SpecValue)>,
            crate::parser::ParseError,
        >(spec_into_map(fields)),
        forall|k: Seq<char>| #[trigger] entry_of(spec_into_map(fields), k) == last_value(fields, k),
        forall|i: int|
            0 <= i < spec_into_map(fields).len() ==> last_value(fields, #[trigger] spec_into_map(fields)[i].0)
                == Some(spec_into_map(fields)[i].1),
{
    lemma_into_map_ordered(fields);
    lemma_into_map_keeps_last(fields);
    let m = spec_into_map(fields);
    assert forall|i: int| 0 <= i < m.len() implies (#[trigger] m[i]).0.len() > 0 && crate::roundtrip::representable(
        m[i].1,
        cfg,
    ) by {
        let j = choose|j: int| 0 <= j < fields.len() && fields[j] == m[i];
        assert(fields[j].0.len() > 0);
    }
    lemma_record_roundtrip(m, cfg);
}

} // verus!
