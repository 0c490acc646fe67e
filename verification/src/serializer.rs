use vstd::prelude::*;

use crate::config::FormatConfig;
use crate::text::{chars_of, int_text, int_to_text, push_char};
use crate::ordered::{lemma_into_map_ordered, lemma_ordered_item, objects_ordered};
use crate::parser::{into_map, spec_into_map};
use crate::value::{fields_view, SpecValue, Value};

verus! {


/// The escape table marks `ch`: an ASCII char that must be escaped.
pub open spec fn needs_escape(cfg: FormatConfig, ch: char) -> bool {
    (ch as u32) < 128 && cfg.special_table@[ch as u32 as int]
}

/// The text of one char: preceded by the escape char when it is marked.
pub open spec fn escaped_char(cfg: FormatConfig, ch: char) -> Seq<char> {
    if needs_escape(cfg, ch) {
        seq![cfg.escape, ch]
    } else {
        seq![ch]
    }
}

/// `s` with the escape char put before each marked char.
pub open spec fn spec_escape(s: Seq<char>, cfg: FormatConfig) -> Seq<char>
    decreases s.len(),
{
    if s.len() == 0 {
        Seq::empty()
    } else {
        escaped_char(cfg, s[0]) + spec_escape(s.drop_first(), cfg)
    }
}

/// The text of a value.
pub open spec fn spec_serialize_value(v: SpecValue, cfg: FormatConfig) -> Seq<char>
    decreases v,
{
    match v {
        SpecValue::Null => cfg.null_str@,
        SpecValue::Bool(b) => if b {
            cfg.true_str@
        } else {
            cfg.false_str@
        },
        SpecValue::Int(i) => int_text(i as int),
        SpecValue::Float(t) => t,
        SpecValue::Str(t) => spec_escape(t, cfg),
        SpecValue::List(items) => seq![cfg.list_open] + spec_join_items(items, cfg) + seq![cfg.list_close],
        SpecValue::Object(entries) => seq![cfg.obj_open] + spec_join_entries(entries, cfg) + seq![
            cfg.obj_close,
        ],
    }
}

/// The texts of `items`, separated by `list_sep`.
pub open spec fn spec_join_items(items: Seq<SpecValue>, cfg: FormatConfig) -> Seq<char>
    decreases items,
{
    if items.len() == 0 {
        Seq::empty()
    } else if items.len() == 1 {
        spec_serialize_value(items[0], cfg)
    } else {
        proof {
            assert(decreases_to!(items => items.subrange(1, items.len() as int)));
        }
        spec_serialize_value(items[0], cfg) + seq![cfg.list_sep] + spec_join_items(
            items.subrange(1, items.len() as int),
            cfg,
        )
    }
}

/// The texts of `entries`, separated by `field_sep`.
pub open spec fn spec_join_entries(entries: Seq<(Seq<char>, SpecValue)>, cfg: FormatConfig) -> Seq<char>
    decreases entries,
{
    if entries.len() == 0 {
        Seq::empty()
    } else if entries.len() == 1 {
        spec_escape(entries[0].0, cfg) + seq![cfg.kv_sep] + spec_serialize_value(entries[0].1, cfg)
    } else {
        proof {
            assert(decreases_to!(entries => entries.subrange(1, entries.len() as int)));
        }
        spec_escape(entries[0].0, cfg) + seq![cfg.kv_sep] + spec_serialize_value(entries[0].1, cfg)
            + seq![cfg.field_sep] + spec_join_entries(entries.subrange(1, entries.len() as int), cfg)
    }
}


/// The text of a top-level record: each entry's escaped key, `kv_sep`, its
/// value's text and `field_sep`.
pub open spec fn spec_record_text(fields: Seq<(Seq<char>, SpecValue)>, cfg: FormatConfig) -> Seq<char>
    decreases fields.len(),
{
    if fields.len() == 0 {
        Seq::empty()
    } else {
        spec_escape(fields[0].0, cfg) + seq![cfg.kv_sep] + spec_serialize_value(fields[0].1, cfg)
            + seq![cfg.field_sep] + spec_record_text(fields.drop_first(), cfg)
    }
}

/// Escaping a concatenation escapes each part in turn.
pub proof fn lemma_escape_concat(a: Seq<char>, b: Seq<char>, cfg: FormatConfig)
    ensures
        spec_escape(a + b, cfg) == spec_escape(a, cfg) + spec_escape(b, cfg),
    decreases a.len(),
{
    if a.len() == 0 {
        assert(a + b =~= b);
    } else {
        lemma_escape_concat(a.drop_first(), b, cfg);
        assert((a + b).drop_first() =~= a.drop_first() + b);
        assert((a + b)[0] == a[0]);
        assert(spec_escape(a + b, cfg) =~= escaped_char(cfg, a[0]) + (spec_escape(a.drop_first(), cfg)
            + spec_escape(b, cfg)));
    }
}

pub proof fn lemma_escape_push(a: Seq<char>, ch: char, cfg: FormatConfig)
    ensures
        spec_escape(a.push(ch), cfg) == spec_escape(a, cfg) + escaped_char(cfg, ch),
{
    lemma_escape_concat(a, seq![ch], cfg);
    assert(a + seq![ch] =~= a.push(ch));
    assert(seq![ch].drop_first() =~= Seq::<char>::empty());
    assert(spec_escape(Seq::<char>::empty(), cfg) == Seq::<char>::empty());
    assert(spec_escape(seq![ch], cfg) == escaped_char(cfg, ch) + spec_escape(seq![ch].drop_first(), cfg));
    assert(spec_escape(seq![ch], cfg) =~= escaped_char(cfg, ch));
}

proof fn lemma_join_items_push(items: Seq<SpecValue>, x: SpecValue, cfg: FormatConfig)
    ensures
        spec_join_items(items.push(x), cfg) == spec_join_items(items, cfg) + (if items.len() > 0 {
            seq![cfg.list_sep]
        } else {
            Seq::empty()
        }) + spec_serialize_value(x, cfg),
    decreases items.len(),
{
    let p = items.push(x);
    if items.len() == 0 {
        assert(p.len() == 1 && p[0] == x);
        assert(spec_join_items(p, cfg) == spec_serialize_value(x, cfg));
        assert(spec_join_items(p, cfg) =~= spec_join_items(items, cfg) + Seq::<char>::empty()
            + spec_serialize_value(x, cfg));
    } else if items.len() == 1 {
        assert(p.subrange(1, 2) =~= seq![x]);
        assert(spec_join_items(seq![x], cfg) == spec_serialize_value(x, cfg));
    } else {
        let rest = items.subrange(1, items.len() as int);
        lemma_join_items_push(rest, x, cfg);
        assert(p.subrange(1, p.len() as int) =~= rest.push(x));
        assert(spec_join_items(p, cfg) =~= spec_join_items(items, cfg) + seq![cfg.list_sep]
            + spec_serialize_value(x, cfg));
    }
}

proof fn lemma_join_entries_push(
    entries: Seq<(Seq<char>, SpecValue)>,
    k: Seq<char>,
    x: SpecValue,
    cfg: FormatConfig,
)
    ensures
        spec_join_entries(entries.push((k, x)), cfg) == spec_join_entries(entries, cfg) + (if entries.len()
            > 0 {
            seq![cfg.field_sep]
        } else {
            Seq::empty()
        }) + spec_escape(k, cfg) + seq![cfg.kv_sep] + spec_serialize_value(x, cfg),
    decreases entries.len(),
{
    let p = entries.push((k, x));
    if entries.len() == 0 {
        assert(p.len() == 1 && p[0] == (k, x));
        assert(spec_join_entries(p, cfg) =~= spec_join_entries(entries, cfg) + Seq::<char>::empty()
            + spec_escape(k, cfg) + seq![cfg.kv_sep] + spec_serialize_value(x, cfg));
    } else if entries.len() == 1 {
        assert(p.subrange(1, 2) =~= seq![(k, x)]);
        assert(p[0] == entries[0]);
        assert(spec_join_entries(seq![(k, x)], cfg) == spec_escape(k, cfg) + seq![cfg.kv_sep]
            + spec_serialize_value(x, cfg));
        assert(spec_join_entries(p, cfg) =~= spec_join_entries(entries, cfg) + seq![cfg.field_sep]
            + spec_escape(k, cfg) + seq![cfg.kv_sep] + spec_serialize_value(x, cfg));
    } else {
        let rest = entries.subrange(1, entries.len() as int);
        lemma_join_entries_push(rest, k, x, cfg);
        assert(p.subrange(1, p.len() as int) =~= rest.push((k, x)));
        assert(p[0] == entries[0]);
        assert(spec_join_entries(p, cfg) =~= spec_join_entries(entries, cfg) + seq![cfg.field_sep]
            + spec_escape(k, cfg) + seq![cfg.kv_sep] + spec_serialize_value(x, cfg));
    }
}

proof fn lemma_record_text_push(
    fields: Seq<(Seq<char>, SpecValue)>,
    k: Seq<char>,
    x: SpecValue,
    cfg: FormatConfig,
)
    ensures
        spec_record_text(fields.push((k, x)), cfg) == spec_record_text(fields, cfg) + spec_escape(k, cfg)
            + seq![cfg.kv_sep] + spec_serialize_value(x, cfg) + seq![cfg.field_sep],
    decreases fields.len(),
{
    let p = fields.push((k, x));
    if fields.len() == 0 {
        assert(p.drop_first() =~= Seq::<(Seq<char>, SpecValue)>::empty());
        assert(p[0] == (k, x));
        assert(spec_record_text(p.drop_first(), cfg) == Seq::<char>::empty());
        assert(spec_record_text(fields, cfg) == Seq::<char>::empty());
        assert(spec_record_text(p, cfg) == spec_escape(k, cfg) + seq![cfg.kv_sep] + spec_serialize_value(x, cfg)
            + seq![cfg.field_sep] + spec_record_text(p.drop_first(), cfg));
        assert(spec_record_text(p, cfg) =~= spec_record_text(fields, cfg) + spec_escape(k, cfg)
            + seq![cfg.kv_sep] + spec_serialize_value(x, cfg) + seq![cfg.field_sep]);
    } else {
        lemma_record_text_push(fields.drop_first(), k, x, cfg);
        assert(p.drop_first() =~= fields.drop_first().push((k, x)));
        assert(p[0] == fields[0]);
        let head = spec_escape(fields[0].0, cfg) + seq![cfg.kv_sep] + spec_serialize_value(fields[0].1, cfg)
            + seq![cfg.field_sep];
        assert(spec_record_text(p, cfg) == head + spec_record_text(p.drop_first(), cfg));
        assert(spec_record_text(fields, cfg) == head + spec_record_text(fields.drop_first(), cfg));
        let t = spec_record_text(fields.drop_first(), cfg);
        let tail = spec_escape(k, cfg) + seq![cfg.kv_sep] + spec_serialize_value(x, cfg) + seq![cfg.field_sep];
        assert(spec_record_text(p.drop_first(), cfg) =~= t + tail);
        assert(head + (t + tail) =~= (head + t) + tail);
        assert(spec_record_text(p, cfg) =~= spec_record_text(fields, cfg) + spec_escape(k, cfg)
            + seq![cfg.kv_sep] + spec_serialize_value(x, cfg) + seq![cfg.field_sep]);
    }
}

/// How lists, objects and records are written, built up one element at a
/// time: brackets around the elements, `list_sep` between list items,
/// `field_sep` between object entries, each entry as escaped key, `kv_sep`
/// and value text, and each record field ending with `field_sep`.
pub proof fn lemma_container_texts(
    items: Seq<SpecValue>,
    entries: Seq<(Seq<char>, SpecValue)>,
    fields: Seq<(Seq<char>, SpecValue)>,
    k: Seq<char>,
    x: SpecValue,
    cfg: FormatConfig,
)
    ensures
        spec_serialize_value(SpecValue::List(Seq::empty()), cfg) == seq![cfg.list_open, cfg.list_close],
        spec_serialize_value(SpecValue::List(seq![x]), cfg) == seq![cfg.list_open] + spec_serialize_value(x, cfg)
            + seq![cfg.list_close],
        items.len() > 0 ==> spec_serialize_value(SpecValue::List(items.push(x)), cfg) == spec_serialize_value(
            SpecValue::List(items),
            cfg,
        ).drop_last() + seq![cfg.list_sep] + spec_serialize_value(x, cfg) + seq![cfg.list_close],
        spec_serialize_value(SpecValue::Object(Seq::empty()), cfg) == seq![cfg.obj_open, cfg.obj_close],
        spec_serialize_value(SpecValue::Object(seq![(k, x)]), cfg) == seq![cfg.obj_open] + spec_escape(k, cfg)
            + seq![cfg.kv_sep] + spec_serialize_value(x, cfg) + seq![cfg.obj_close],
        entries.len() > 0 ==> spec_serialize_value(SpecValue::Object(entries.push((k, x))), cfg)
            == spec_serialize_value(SpecValue::Object(entries), cfg).drop_last() + seq![cfg.field_sep]
            + spec_escape(k, cfg) + seq![cfg.kv_sep] + spec_serialize_value(x, cfg) + seq![cfg.obj_close],
        spec_record_text(Seq::empty(), cfg) == Seq::<char>::empty(),
        spec_record_text(fields.push((k, x)), cfg) == spec_record_text(fields, cfg) + spec_escape(k, cfg)
            + seq![cfg.kv_sep] + spec_serialize_value(x, cfg) + seq![cfg.field_sep],
{
    let tx = spec_serialize_value(x, cfg);
    assert(seq![cfg.list_open] + Seq::<char>::empty() + seq![cfg.list_close] =~= seq![cfg.list_open, cfg.list_close]);
    assert(seq![cfg.obj_open] + Seq::<char>::empty() + seq![cfg.obj_close] =~= seq![cfg.obj_open, cfg.obj_close]);
    assert(spec_join_items(seq![x], cfg) == tx);
    assert(spec_join_entries(seq![(k, x)], cfg) == spec_escape(k, cfg) + seq![cfg.kv_sep] + tx);
    if items.len() > 0 {
        lemma_join_items_push(items, x, cfg);
        let j = spec_join_items(items, cfg);
        assert((seq![cfg.list_open] + j + seq![cfg.list_close]).drop_last() =~= seq![cfg.list_open] + j);
        assert(seq![cfg.list_open] + (j + seq![cfg.list_sep] + tx) + seq![cfg.list_close] =~= seq![cfg.list_open]
            + j + seq![cfg.list_sep] + tx + seq![cfg.list_close]);
    }
    if entries.len() > 0 {
        lemma_join_entries_push(entries, k, x, cfg);
        let j = spec_join_entries(entries, cfg);
        assert((seq![cfg.obj_open] + j + seq![cfg.obj_close]).drop_last() =~= seq![cfg.obj_open] + j);
        assert(seq![cfg.obj_open] + (j + seq![cfg.field_sep] + spec_escape(k, cfg) + seq![cfg.kv_sep] + tx)
            + seq![cfg.obj_close] =~= seq![cfg.obj_open] + j + seq![cfg.field_sep] + spec_escape(k, cfg)
            + seq![cfg.kv_sep] + tx + seq![cfg.obj_close]);
    }
    lemma_record_text_push(fields, k, x, cfg);
}

/// Escapes `s`: each ASCII char that the configuration's table marks is
/// preceded by the escape char; all other chars are kept as they are.
pub fn escape_str(s: &str, cfg: &FormatConfig) -> (out: String)
    ensures
        out@ == spec_escape(s@, *cfg),
{
    let chars = chars_of(s);
    let mut out = String::new();
    let mut i: usize = 0;
    while i < chars.len()
        invariant
            0 <= i <= chars.len(),
            chars@ == s@,
            out@ == spec_escape(chars@.take(i as int), *cfg),
        decreases chars.len() - i,
    {
        let ch = chars[i];
        proof {
            lemma_escape_push(chars@.take(i as int), ch, *cfg);
            assert(chars@.take(i as int).push(ch) =~= chars@.take(i + 1));
        }
        let code = ch as u32;
        if code < 128 && cfg.special_table[code as usize] {
            push_char(&mut out, cfg.escape);
        }
        push_char(&mut out, ch);
        i = i + 1;
    }
    proof {
        assert(chars@.take(chars.len() as int) =~= s@);
    }
    out
}

/// The text of a value: sentinels for null and booleans, decimal integers,
/// floats as their text, escaped strings, bracketed lists and objects. Every
/// object within the value keeps its keys in increasing order, each once.
pub fn serialize_value(val: &Value, cfg: &FormatConfig) -> (out: String)
    requires
        objects_ordered(val@),
    ensures
        out@ == spec_serialize_value(val@, *cfg),
    decreases val,
{
    match val {
        Value::Null => cfg.null_str.clone(),
        Value::Bool(b) => {
            if *b {
                cfg.true_str.clone()
            } else {
                cfg.false_str.clone()
            }
        },
        Value::Int(i) => int_to_text(*i),
        Value::Float(t) => t.clone(),
        Value::Str(s) => escape_str(s.as_str(), cfg),
        Value::List(items) => {
            let ghost views = val@->List_0;
            assert(val@ == SpecValue::List(views));
            assert(views.len() == items.len());
            assert(forall|j: int| 0 <= j < items.len() ==> views[j] == #[trigger] items[j]@);
            let mut out = String::new();
            push_char(&mut out, cfg.list_open);
            let mut i: usize = 0;
            while i < items.len()
                invariant
                    0 <= i <= items.len(),
                    views.len() == items.len(),
                    *val == Value::List(*items),
                    forall|j: int| 0 <= j < items.len() ==> views[j] == #[trigger] items[j]@,
                    objects_ordered(val@),
                    val@ == SpecValue::List(views),
                    out@ == seq![cfg.list_open] + spec_join_items(views.take(i as int), *cfg),
                decreases items.len() - i,
            {
                if i > 0 {
                    push_char(&mut out, cfg.list_sep);
                }
                proof {
                    let ghost v = *val;
                    assert(decreases_to!(v => v->List_0));
                    assert(decreases_to!(v->List_0 => v->List_0[i as int]));
                    lemma_ordered_item(views, i as int);
                }
                let piece = serialize_value(&items[i], cfg);
                out.append(piece.as_str());
                proof {
                    lemma_join_items_push(views.take(i as int), views[i as int], *cfg);
                    assert(views.take(i as int).push(views[i as int]) =~= views.take(i + 1));
                    assert(out@ =~= seq![cfg.list_open] + spec_join_items(views.take(i + 1), *cfg));
                }
                i = i + 1;
            }
            push_char(&mut out, cfg.list_close);
            proof {
                assert(views.take(items.len() as int) =~= views);
            }
            out
        },
        Value::Object(entries) => {
            let ghost views = val@->Object_0;
            assert(val@ == SpecValue::Object(views));
            assert(views.len() == entries.len());
            assert(forall|j: int| 0 <= j < entries.len() ==> views[j] == (#[trigger] entries[j].0@, entries[j].1@));
            let mut out = String::new();
            push_char(&mut out, cfg.obj_open);
            let mut i: usize = 0;
            while i < entries.len()
                invariant
                    0 <= i <= entries.len(),
                    views.len() == entries.len(),
                    *val == Value::Object(*entries),
                    forall|j: int| 0 <= j < entries.len() ==> views[j] == (#[trigger] entries[j].0@, entries[j].1@),
                    objects_ordered(val@),
                    val@ == SpecValue::Object(views),
                    out@ == seq![cfg.obj_open] + spec_join_entries(views.take(i as int), *cfg),
                decreases entries.len() - i,
            {
                if i > 0 {
                    push_char(&mut out, cfg.field_sep);
                }
                let key = escape_str(entries[i].0.as_str(), cfg);
                out.append(key.as_str());
                push_char(&mut out, cfg.kv_sep);
                proof {
                    let ghost v = *val;
                    assert(decreases_to!(v => v->Object_0));
                    assert(decreases_to!(v->Object_0 => v->Object_0[i as int]));
                    assert(decreases_to!(v->Object_0[i as int] => v->Object_0[i as int].1));
                    assert(objects_ordered(views[i as int].1));
                }
                let piece = serialize_value(&entries[i].1, cfg);
                out.append(piece.as_str());
                proof {
                    lemma_join_entries_push(views.take(i as int), views[i as int].0, views[i as int].1, *cfg);
                    assert(views.take(i as int).push(views[i as int]) =~= views.take(i + 1));
                    assert(out@ =~= seq![cfg.obj_open] + spec_join_entries(views.take(i + 1), *cfg));
                }
                i = i + 1;
            }
            push_char(&mut out, cfg.obj_close);
            proof {
                assert(views.take(entries.len() as int) =~= views);
            }
            out
        },
    }
}

/// The text of a top-level record: `key=value;` for each entry, in order.
/// Every object within the values keeps its keys in increasing order.
pub fn serialize_object(map: &[(String, Value)], cfg: &FormatConfig) -> (out: String)
    requires
        forall|i: int| 0 <= i < map@.len() ==> objects_ordered(#[trigger] map@[i].1@),
    ensures
        out@ == spec_record_text(fields_view(map@), *cfg),
{
    let ghost views = fields_view(map@);
    let mut out = String::new();
    let mut i: usize = 0;
    while i < map.len()
        invariant
            0 <= i <= map.len(),
            views == fields_view(map@),
            forall|j: int| 0 <= j < map@.len() ==> objects_ordered(#[trigger] map@[j].1@),
            out@ == spec_record_text(views.take(i as int), *cfg),
        decreases map.len() - i,
    {
        let key = escape_str(map[i].0.as_str(), cfg);
        out.append(key.as_str());
        push_char(&mut out, cfg.kv_sep);
        assert(objects_ordered(map@[i as int].1@));
        let piece = serialize_value(&map[i].1, cfg);
        out.append(piece.as_str());
        push_char(&mut out, cfg.field_sep);
        proof {
            lemma_record_text_push(views.take(i as int), views[i as int].0, views[i as int].1, *cfg);
            assert(views.take(i as int).push(views[i as int]) =~= views.take(i + 1));
            assert(out@ =~= spec_record_text(views.take(i + 1), *cfg));
        }
        i = i + 1;
    }
    proof {
        assert(views.take(map.len() as int) =~= views);
    }
    out
}

/// The text of a record with its fields ordered by key: each key once, in
/// increasing order, with the last value the fields give it (see
/// [`into_map`]), then written as [`serialize_object`] writes.
pub fn serialize_record(fields: Vec<(String, Value)>, cfg: &FormatConfig) -> (out: String)
    requires
        forall|i: int| 0 <= i < fields@.len() ==> objects_ordered(#[trigger] fields@[i].1@),
    ensures
        out@ == spec_record_text(spec_into_map(fields_view(fields@)), *cfg),
{
    let ghost fv = fields_view(fields@);
    proof {
        lemma_into_map_ordered(fv);
    }
    let ordered = into_map(fields);
    proof {
        assert forall|i: int| 0 <= i < ordered@.len() implies objects_ordered(#[trigger] ordered@[i].1@) by {
            assert(fields_view(ordered@)[i] == (ordered@[i].0@, ordered@[i].1@));
            assert(fv.contains(fields_view(ordered@)[i]));
            let j = choose|j: int| 0 <= j < fv.len() && fv[j] == fields_view(ordered@)[i];
            assert(fv[j] == (fields@[j].0@, fields@[j].1@));
            assert(objects_ordered(fields@[j].1@));
        }
    }
    serialize_object(ordered.as_slice(), cfg)
}

} // verus!
