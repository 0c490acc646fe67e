use vstd::prelude::*;

use crate::config::{is_special_code, FormatConfig};
use crate::parser::{
    ParseError,
    entry_key_stops, is_stop, map_insert, record_key_stops, spec_coerce, spec_parse_entries,
    spec_parse_items, spec_parse_record, spec_parse_value, spec_read_scalar,
};
use crate::serializer::{
    escaped_char, needs_escape, spec_escape, spec_join_entries, spec_join_items, spec_record_text,
    spec_serialize_value,
};
use crate::text::{chars_less, int_text, is_float_literal, spec_parse_i64};
use crate::value::SpecValue;

verus! {

/// `t` holds none of the delimiters of `cfg`.
pub open spec fn is_plain(cfg: FormatConfig, t: Seq<char>) -> bool {
    forall|i: int| 0 <= i < t.len() ==> !cfg.delimiters().contains(#[trigger] t[i])
}

/// `t` is one of the sentinel strings of `cfg`.
pub open spec fn is_sentinel(cfg: FormatConfig, t: Seq<char>) -> bool {
    t == cfg.null_str@ || t == cfg.true_str@ || t == cfg.false_str@
}

/// The keys of `entries` are in strictly increasing [`chars_less`] order.
pub open spec fn keys_sorted(entries: Seq<(Seq<char>, SpecValue)>) -> bool {
    forall|i: int, j: int| 0 <= i < j < entries.len() ==> chars_less(#[trigger] entries[i].0, #[trigger] entries[j].0)
}

/// A char at which a scalar ends, and so may follow a value: `field_sep`,
/// `kv_sep`, `list_sep`, `list_close` or `obj_close`.
pub open spec fn is_terminator(cfg: FormatConfig, c: char) -> bool {
    c == cfg.field_sep || c == cfg.kv_sep || c == cfg.list_sep || c == cfg.list_close || c == cfg.obj_close
}

/// The values whose text reads back as themselves: scalar texts are taken
/// for what they hold (a sentinel, then an integer, then a float), number
/// texts are written without escaping, a list holding only an empty string
/// is written as an empty list, and object keys must be in order.
pub open spec fn representable(v: SpecValue, cfg: FormatConfig) -> bool
    decreases v,
{
    match v {
        SpecValue::Null => true,
        SpecValue::Bool(_) => true,
        SpecValue::Int(i) => is_plain(cfg, int_text(i as int)) && !is_sentinel(cfg, int_text(i as int)),
        SpecValue::Float(t) => {
            &&& is_float_literal(t)
            &&& spec_parse_i64(t) is None
            &&& is_plain(cfg, t)
            &&& !is_sentinel(cfg, t)
        },
        SpecValue::Str(t) => spec_coerce(t, cfg) == SpecValue::Str(t),
        SpecValue::List(items) => {
            &&& !(items.len() == 1 && items[0] == SpecValue::Str(Seq::empty()))
            &&& forall|i: int| 0 <= i < items.len() ==> representable(#[trigger] items[i], cfg)
        },
        SpecValue::Object(entries) => {
            &&& keys_sorted(entries)
            &&& forall|i: int| 0 <= i < entries.len() ==> representable(#[trigger] entries[i].1, cfg)
        },
    }
}


/// The delimiters of a valid configuration, one by one: ASCII, distinct, and
/// delimiters.
pub proof fn lemma_delimiters(cfg: FormatConfig)
    requires
        cfg.wf(),
    ensures
        cfg.field_sep != cfg.kv_sep,
        cfg.field_sep != cfg.list_open,
        cfg.field_sep != cfg.list_close,
        cfg.field_sep != cfg.list_sep,
        cfg.field_sep != cfg.obj_open,
        cfg.field_sep != cfg.obj_close,
        cfg.field_sep != cfg.escape,
        cfg.kv_sep != cfg.list_open,
        cfg.kv_sep != cfg.list_close,
        cfg.kv_sep != cfg.list_sep,
        cfg.kv_sep != cfg.obj_open,
        cfg.kv_sep != cfg.obj_close,
        cfg.kv_sep != cfg.escape,
        cfg.list_open != cfg.list_close,
        cfg.list_open != cfg.list_sep,
        cfg.list_open != cfg.obj_open,
        cfg.list_open != cfg.obj_close,
        cfg.list_open != cfg.escape,
        cfg.list_close != cfg.list_sep,
        cfg.list_close != cfg.obj_open,
        cfg.list_close != cfg.obj_close,
        cfg.list_close != cfg.escape,
        cfg.list_sep != cfg.obj_open,
        cfg.list_sep != cfg.obj_close,
        cfg.list_sep != cfg.escape,
        cfg.obj_open != cfg.obj_close,
        cfg.obj_open != cfg.escape,
        cfg.obj_close != cfg.escape,
        (cfg.field_sep as u32) < 128,
        (cfg.kv_sep as u32) < 128,
        (cfg.list_open as u32) < 128,
        (cfg.list_close as u32) < 128,
        (cfg.list_sep as u32) < 128,
        (cfg.obj_open as u32) < 128,
        (cfg.obj_close as u32) < 128,
        (cfg.escape as u32) < 128,
        cfg.delimiters().contains(cfg.field_sep),
        cfg.delimiters().contains(cfg.kv_sep),
        cfg.delimiters().contains(cfg.list_open),
        cfg.delimiters().contains(cfg.list_close),
        cfg.delimiters().contains(cfg.list_sep),
        cfg.delimiters().contains(cfg.obj_open),
        cfg.delimiters().contains(cfg.obj_close),
        cfg.delimiters().contains(cfg.escape),
{
    crate::config::lemma_valid_settings(cfg);
    assert(cfg.delimiters()[0] == cfg.field_sep);
    assert(cfg.delimiters()[1] == cfg.kv_sep);
    assert(cfg.delimiters()[2] == cfg.list_open);
    assert(cfg.delimiters()[3] == cfg.list_close);
    assert(cfg.delimiters()[4] == cfg.list_sep);
    assert(cfg.delimiters()[5] == cfg.obj_open);
    assert(cfg.delimiters()[6] == cfg.obj_close);
    assert(cfg.delimiters()[7] == cfg.escape);
    assert(cfg.delimiters()[0] != cfg.delimiters()[1]);
    assert(cfg.delimiters()[0] != cfg.delimiters()[2]);
    assert(cfg.delimiters()[0] != cfg.delimiters()[3]);
    assert(cfg.delimiters()[0] != cfg.delimiters()[4]);
    assert(cfg.delimiters()[0] != cfg.delimiters()[5]);
    assert(cfg.delimiters()[0] != cfg.delimiters()[6]);
    assert(cfg.delimiters()[0] != cfg.delimiters()[7]);
    assert(cfg.delimiters()[1] != cfg.delimiters()[2]);
    assert(cfg.delimiters()[1] != cfg.delimiters()[3]);
    assert(cfg.delimiters()[1] != cfg.delimiters()[4]);
    assert(cfg.delimiters()[1] != cfg.delimiters()[5]);
    assert(cfg.delimiters()[1] != cfg.delimiters()[6]);
    assert(cfg.delimiters()[1] != cfg.delimiters()[7]);
    assert(cfg.delimiters()[2] != cfg.delimiters()[3]);
    assert(cfg.delimiters()[2] != cfg.delimiters()[4]);
    assert(cfg.delimiters()[2] != cfg.delimiters()[5]);
    assert(cfg.delimiters()[2] != cfg.delimiters()[6]);
    assert(cfg.delimiters()[2] != cfg.delimiters()[7]);
    assert(cfg.delimiters()[3] != cfg.delimiters()[4]);
    assert(cfg.delimiters()[3] != cfg.delimiters()[5]);
    assert(cfg.delimiters()[3] != cfg.delimiters()[6]);
    assert(cfg.delimiters()[3] != cfg.delimiters()[7]);
    assert(cfg.delimiters()[4] != cfg.delimiters()[5]);
    assert(cfg.delimiters()[4] != cfg.delimiters()[6]);
    assert(cfg.delimiters()[4] != cfg.delimiters()[7]);
    assert(cfg.delimiters()[5] != cfg.delimiters()[6]);
    assert(cfg.delimiters()[5] != cfg.delimiters()[7]);
    assert(cfg.delimiters()[6] != cfg.delimiters()[7]);
    assert((cfg.delimiters()[0] as u32) < 128);
    assert((cfg.delimiters()[1] as u32) < 128);
    assert((cfg.delimiters()[2] as u32) < 128);
    assert((cfg.delimiters()[3] as u32) < 128);
    assert((cfg.delimiters()[4] as u32) < 128);
    assert((cfg.delimiters()[5] as u32) < 128);
    assert((cfg.delimiters()[6] as u32) < 128);
    assert((cfg.delimiters()[7] as u32) < 128);
}

/// In a valid configuration a char is escaped exactly when it is a delimiter.
pub proof fn lemma_needs_escape(cfg: FormatConfig, c: char)
    requires
        cfg.wf(),
    ensures
        needs_escape(cfg, c) == cfg.delimiters().contains(c),
{
    lemma_delimiters(cfg);
    let d = cfg.delimiters();
    if d.contains(c) {
        let j = choose|j: int| 0 <= j < d.len() && d[j] == c;
        assert(is_special_code(d, c as u32 as int));
    }
    if needs_escape(cfg, c) {
        assert(is_special_code(d, c as u32 as int));
        let j = choose|j: int| 0 <= j < d.len() && d[j] as u32 == c as u32 as int;
        vstd::utf8::char_u32_cast(d[j], d[j] as u32);
        vstd::utf8::char_u32_cast(c, c as u32);
        assert(d[j] == c);
    }
}

/// A text without delimiters is its own escaped form.
pub proof fn lemma_plain_escape(cfg: FormatConfig, t: Seq<char>)
    requires
        cfg.wf(),
        is_plain(cfg, t),
    ensures
        spec_escape(t, cfg) == t,
    decreases t.len(),
{
    if t.len() > 0 {
        lemma_needs_escape(cfg, t[0]);
        assert(!cfg.delimiters().contains(t[0]));
        assert(is_plain(cfg, t.drop_first())) by {
            assert forall|i: int| 0 <= i < t.drop_first().len() implies !cfg.delimiters().contains(
                #[trigger] t.drop_first()[i],
            ) by {
                assert(t.drop_first()[i] == t[i + 1]);
            }
        }
        lemma_plain_escape(cfg, t.drop_first());
        assert(seq![t[0]] + t.drop_first() =~= t);
    }
}

/// The chars at which a scalar ends, in a valid configuration.
pub proof fn lemma_scalar_stops(cfg: FormatConfig, c: char)
    requires
        cfg.wf(),
    ensures
        is_stop(c, cfg.scalar_stop@) <==> (c == cfg.field_sep || c == cfg.kv_sep || c == cfg.list_sep
            || c == cfg.list_close || c == cfg.obj_close),
{
    lemma_delimiters(cfg);
    let st = cfg.scalar_stop@;
    assert(st == cfg.stop_bytes());
    lemma_byte_is_char(cfg.field_sep, c);
    lemma_byte_is_char(cfg.kv_sep, c);
    lemma_byte_is_char(cfg.list_sep, c);
    lemma_byte_is_char(cfg.list_close, c);
    lemma_byte_is_char(cfg.obj_close, c);
    if is_stop(c, st) {
        let i = choose|i: int| 0 <= i < st.len() && st[i] as u32 == c as u32;
        assert(0 <= i < 5);
    }
    if c == cfg.field_sep {
        assert(st[0] as u32 == c as u32);
    } else if c == cfg.kv_sep {
        assert(st[1] as u32 == c as u32);
    } else if c == cfg.list_sep {
        assert(st[2] as u32 == c as u32);
    } else if c == cfg.list_close {
        assert(st[3] as u32 == c as u32);
    } else if c == cfg.obj_close {
        assert(st[4] as u32 == c as u32);
    }
}

/// The chars at which a key inside an object ends, in a valid configuration.
pub proof fn lemma_entry_key_stops(cfg: FormatConfig, c: char)
    requires
        cfg.wf(),
    ensures
        is_stop(c, entry_key_stops(cfg)) <==> (c == cfg.kv_sep || c == cfg.obj_close),
{
    lemma_delimiters(cfg);
    let st = entry_key_stops(cfg);
    lemma_byte_is_char(cfg.kv_sep, c);
    lemma_byte_is_char(cfg.obj_close, c);
    if is_stop(c, st) {
        let i = choose|i: int| 0 <= i < st.len() && st[i] as u32 == c as u32;
        assert(0 <= i < 2);
    }
    if c == cfg.kv_sep {
        assert(st[0] as u32 == c as u32);
    } else if c == cfg.obj_close {
        assert(st[1] as u32 == c as u32);
    }
}

/// The chars at which a key of a record ends, in a valid configuration.
pub proof fn lemma_record_key_stops(cfg: FormatConfig, c: char)
    requires
        cfg.wf(),
    ensures
        is_stop(c, record_key_stops(cfg)) <==> c == cfg.kv_sep,
{
    lemma_delimiters(cfg);
    let st = record_key_stops(cfg);
    lemma_byte_is_char(cfg.kv_sep, c);
    if is_stop(c, st) {
        let i = choose|i: int| 0 <= i < st.len() && st[i] as u32 == c as u32;
        assert(i == 0);
    }
    if c == cfg.kv_sep {
        assert(st[0] as u32 == c as u32);
    }
}

proof fn lemma_byte_is_char(d: char, c: char)
    requires
        (d as u32) < 128,
    ensures
        (d as u32 as u8) as u32 == c as u32 <==> c == d,
{
    vstd::utf8::char_u32_cast(d, d as u32);
    vstd::utf8::char_u32_cast(c, c as u32);
}


/// A subrange that equals a concatenation splits into its parts.
pub proof fn lemma_subrange_split(s: Seq<char>, p: int, a: Seq<char>, b: Seq<char>)
    requires
        0 <= p,
        p + a.len() + b.len() <= s.len(),
        s.subrange(p, p + a.len() + b.len()) == a + b,
    ensures
        s.subrange(p, p + a.len()) == a,
        s.subrange(p + a.len(), p + a.len() + b.len()) == b,
{
    assert(s.subrange(p, p + a.len()) =~= (a + b).subrange(0, a.len() as int));
    assert((a + b).subrange(0, a.len() as int) =~= a);
    assert(s.subrange(p + a.len(), p + a.len() + b.len()) =~= (a + b).subrange(
        a.len() as int,
        (a.len() + b.len()) as int,
    ));
    assert((a + b).subrange(a.len() as int, (a.len() + b.len()) as int) =~= b);
}

/// Reading a scalar from its escaped text gives the text back, and ends
/// where the escaped text ends, when a stop char (or the end) follows it.
pub proof fn lemma_read_escaped(s: Seq<char>, p: int, t: Seq<char>, stops: Seq<u8>, cfg: FormatConfig)
    requires
        cfg.wf(),
        0 <= p,
        p + spec_escape(t, cfg).len() <= s.len(),
        s.subrange(p, p + spec_escape(t, cfg).len()) == spec_escape(t, cfg),
        p + spec_escape(t, cfg).len() == s.len() || (is_stop(s[p + spec_escape(t, cfg).len()], stops)
            && s[p + spec_escape(t, cfg).len()] != cfg.escape),
        forall|c: char| is_stop(c, stops) ==> cfg.delimiters().contains(c),
    ensures
        spec_read_scalar(s, p, cfg.escape, stops) == (t, p + spec_escape(t, cfg).len()),
    decreases t.len(),
{
    let e = spec_escape(t, cfg);
    if t.len() == 0 {
        assert(e.len() == 0);
        assert(t =~= Seq::<char>::empty());
    } else {
        let c0 = t[0];
        let rest = t.drop_first();
        let er = spec_escape(rest, cfg);
        let ec = escaped_char(cfg, c0);
        assert(e == ec + er);
        lemma_subrange_split(s, p, ec, er);
        lemma_needs_escape(cfg, c0);
        lemma_delimiters(cfg);
        if needs_escape(cfg, c0) {
            assert(s[p] == cfg.escape) by {
                assert(s.subrange(p, p + 2)[0] == s[p]);
            }
            assert(s[p + 1] == c0) by {
                assert(s.subrange(p, p + 2)[1] == s[p + 1]);
            }
            lemma_read_escaped(s, p + 2, rest, stops, cfg);
            assert(seq![c0] + rest =~= t);
        } else {
            assert(s[p] == c0) by {
                assert(s.subrange(p, p + 1)[0] == s[p]);
            }
            assert(!cfg.delimiters().contains(c0));
            assert(c0 != cfg.escape);
            assert(!is_stop(c0, stops));
            lemma_read_escaped(s, p + 1, rest, stops, cfg);
            assert(seq![c0] + rest =~= t);
        }
    }
}

/// A value's text is empty only for the empty string; otherwise its first
/// char is none of the chars that end or separate values, and a scalar's
/// text does not begin a list or an object.
pub proof fn lemma_first_char(v: SpecValue, cfg: FormatConfig)
    requires
        cfg.wf(),
        representable(v, cfg),
    ensures
        spec_serialize_value(v, cfg).len() == 0 <==> v == SpecValue::Str(Seq::empty()),
        spec_serialize_value(v, cfg).len() > 0 ==> {
            let c = spec_serialize_value(v, cfg)[0];
            &&& !is_terminator(cfg, c)
            &&& c != cfg.kv_sep
            &&& (!(v is List) && !(v is Object)) ==> c != cfg.list_open && c != cfg.obj_open
        },
{
    lemma_delimiters(cfg);
    crate::config::lemma_valid_settings(cfg);
    let t = spec_serialize_value(v, cfg);
    match v {
        SpecValue::Null => {
            assert(cfg.sentinels()[0] == cfg.null_str@);
            assert(!cfg.delimiters().contains(cfg.sentinels()[0][0]));
        },
        SpecValue::Bool(b) => {
            if b {
                assert(cfg.sentinels()[1] == cfg.true_str@);
                assert(!cfg.delimiters().contains(cfg.sentinels()[1][0]));
            } else {
                assert(cfg.sentinels()[2] == cfg.false_str@);
                assert(!cfg.delimiters().contains(cfg.sentinels()[2][0]));
            }
        },
        SpecValue::Int(i) => {
            crate::text::lemma_int_text_parses(i);
            assert(!cfg.delimiters().contains(t[0]));
        },
        SpecValue::Float(f) => {
            if f.len() == 0 {
                assert(!is_float_literal(f)) by {
                    reveal_with_fuel(crate::text::digit_run, 2);
                }
            } else {
                assert(!cfg.delimiters().contains(t[0]));
            }
        },
        SpecValue::Str(x) => {
            if x.len() == 0 {
                assert(x =~= Seq::<char>::empty());
            } else {
                lemma_needs_escape(cfg, x[0]);
                assert(t == escaped_char(cfg, x[0]) + spec_escape(x.drop_first(), cfg));
                if !needs_escape(cfg, x[0]) {
                    assert(t[0] == x[0]);
                } else {
                    assert(t[0] == cfg.escape);
                }
            }
        },
        SpecValue::List(_) => {},
        SpecValue::Object(_) => {},
    }
}

/// Inserting a key greater than all keys of a map appends it.
pub proof fn lemma_map_insert_last(m: Seq<(Seq<char>, SpecValue)>, k: Seq<char>, v: SpecValue)
    requires
        forall|j: int| 0 <= j < m.len() ==> chars_less(#[trigger] m[j].0, k),
    ensures
        map_insert(m, k, v) == m.push((k, v)),
    decreases m.len(),
{
    if m.len() > 0 {
        crate::text::lemma_chars_less_total(m[0].0, k);
        assert(chars_less(m[0].0, k));
        lemma_map_insert_last(m.drop_first(), k, v);
        assert(seq![m[0]] + m.drop_first().push((k, v)) =~= m.push((k, v)));
    } else {
        assert(seq![(k, v)] =~= m.push((k, v)));
    }
}


/// The text of a nonempty list's items begins with a char other than `list_close`.
proof fn lemma_join_items_first(items: Seq<SpecValue>, cfg: FormatConfig)
    requires
        cfg.wf(),
        items.len() > 0,
        !(items.len() == 1 && items[0] == SpecValue::Str(Seq::empty())),
        forall|i: int| 0 <= i < items.len() ==> representable(#[trigger] items[i], cfg),
    ensures
        spec_join_items(items, cfg).len() > 0,
        spec_join_items(items, cfg)[0] != cfg.list_close,
{
    lemma_delimiters(cfg);
    let x = items[0];
    assert(representable(x, cfg));
    lemma_first_char(x, cfg);
    let tx = spec_serialize_value(x, cfg);
    if items.len() > 1 {
        let j = spec_join_items(items, cfg);
        assert(j == tx + seq![cfg.list_sep] + spec_join_items(items.subrange(1, items.len() as int), cfg));
        if tx.len() == 0 {
            assert(j[0] == cfg.list_sep);
        } else {
            assert(j[0] == tx[0]);
        }
    }
}

/// The text of a nonempty object's entries begins with a char other than `obj_close`.
proof fn lemma_join_entries_first(entries: Seq<(Seq<char>, SpecValue)>, cfg: FormatConfig)
    requires
        cfg.wf(),
        entries.len() > 0,
    ensures
        spec_join_entries(entries, cfg).len() > 0,
        spec_join_entries(entries, cfg)[0] != cfg.obj_close,
{
    lemma_delimiters(cfg);
    let k = entries[0].0;
    let ek = spec_escape(k, cfg);
    let j = spec_join_entries(entries, cfg);
    let head = ek + seq![cfg.kv_sep] + spec_serialize_value(entries[0].1, cfg);
    if entries.len() == 1 {
        assert(j == head);
    } else {
        assert(j == head + seq![cfg.field_sep] + spec_join_entries(
            entries.subrange(1, entries.len() as int),
            cfg,
        ));
    }
    if k.len() == 0 {
        assert(ek.len() == 0);
        assert(j[0] == cfg.kv_sep);
    } else {
        lemma_needs_escape(cfg, k[0]);
        assert(ek == escaped_char(cfg, k[0]) + spec_escape(k.drop_first(), cfg));
        assert(j[0] == ek[0]);
    }
}

/// A value's text, at the end of the text or followed by a char at which a
/// scalar ends, parses back to the value, ending where its text ends.
pub proof fn lemma_parse_serialized_value(s: Seq<char>, p: int, v: SpecValue, cfg: FormatConfig)
    requires
        cfg.wf(),
        representable(v, cfg),
        0 <= p,
        p + spec_serialize_value(v, cfg).len() <= s.len(),
        s.subrange(p, p + spec_serialize_value(v, cfg).len()) == spec_serialize_value(v, cfg),
        p + spec_serialize_value(v, cfg).len() == s.len() || is_terminator(
            cfg,
            s[p + spec_serialize_value(v, cfg).len()],
        ),
    ensures
        spec_parse_value(s, p, cfg) == Ok::<(SpecValue, int), ParseError>(
            (v, p + spec_serialize_value(v, cfg).len()),
        ),
    decreases v,
{
    let t = spec_serialize_value(v, cfg);
    let n = t.len() as int;
    lemma_delimiters(cfg);
    crate::config::lemma_valid_settings(cfg);
    lemma_first_char(v, cfg);
    match v {
        SpecValue::List(items) => {
            assert(s[p] == cfg.list_open) by {
                assert(s.subrange(p, p + n)[0] == s[p]);
            }
            let j = spec_join_items(items, cfg);
            assert(t == seq![cfg.list_open] + j + seq![cfg.list_close]);
            lemma_subrange_split(s, p, seq![cfg.list_open] + j, seq![cfg.list_close]);
            lemma_subrange_split(s, p, seq![cfg.list_open], j);
            assert(s[p + 1 + j.len()] == cfg.list_close) by {
                assert(s.subrange(p, p + n)[(1 + j.len()) as int] == s[p + 1 + j.len()]);
            }
            if items.len() == 0 {
                assert(items =~= Seq::<SpecValue>::empty());
            } else {
                lemma_join_items_first(items, cfg);
                assert(s[p + 1] == j[0]) by {
                    assert(s.subrange(p + 1, p + 1 + j.len())[0] == s[p + 1]);
                }
                assert(decreases_to!(v => v->List_0));
                lemma_parse_serialized_items(s, p + 1, Seq::empty(), items, cfg);
                assert(Seq::<SpecValue>::empty() + items =~= items);
            }
        },
        SpecValue::Object(entries) => {
            assert(s[p] == cfg.obj_open) by {
                assert(s.subrange(p, p + n)[0] == s[p]);
            }
            let j = spec_join_entries(entries, cfg);
            assert(t == seq![cfg.obj_open] + j + seq![cfg.obj_close]);
            lemma_subrange_split(s, p, seq![cfg.obj_open] + j, seq![cfg.obj_close]);
            lemma_subrange_split(s, p, seq![cfg.obj_open], j);
            assert(s[p + 1 + j.len()] == cfg.obj_close) by {
                assert(s.subrange(p, p + n)[(1 + j.len()) as int] == s[p + 1 + j.len()]);
            }
            if entries.len() == 0 {
                assert(entries =~= Seq::<(Seq<char>, SpecValue)>::empty());
            } else {
                lemma_join_entries_first(entries, cfg);
                assert(s[p + 1] == j[0]) by {
                    assert(s.subrange(p + 1, p + 1 + j.len())[0] == s[p + 1]);
                }
                assert(decreases_to!(v => v->Object_0));
                assert(keys_sorted(Seq::<(Seq<char>, SpecValue)>::empty() + entries)) by {
                    assert(Seq::<(Seq<char>, SpecValue)>::empty() + entries =~= entries);
                }
                lemma_parse_serialized_entries(s, p + 1, Seq::empty(), entries, cfg);
                assert(Seq::<(Seq<char>, SpecValue)>::empty() + entries =~= entries);
            }
        },
        _ => {
            let tt = match v {
                SpecValue::Null => cfg.null_str@,
                SpecValue::Bool(b) => if b {
                    cfg.true_str@
                } else {
                    cfg.false_str@
                },
                SpecValue::Int(i) => int_text(i as int),
                SpecValue::Float(f) => f,
                SpecValue::Str(x) => x,
                _ => Seq::empty(),
            };
            match v {
                SpecValue::Str(x) => {},
                _ => {
                    assert(is_plain(cfg, tt)) by {
                        match v {
                            SpecValue::Null => {
                                assert(cfg.sentinels()[0] == tt);
                            },
                            SpecValue::Bool(b) => {
                                if b {
                                    assert(cfg.sentinels()[1] == tt);
                                } else {
                                    assert(cfg.sentinels()[2] == tt);
                                }
                            },
                            _ => {},
                        }
                    }
                    lemma_plain_escape(cfg, tt);
                },
            }
            assert(spec_escape(tt, cfg) == t);
            assert(spec_coerce(tt, cfg) == v) by {
                match v {
                    SpecValue::Int(i) => {
                        crate::text::lemma_int_text_parses(i);
                    },
                    _ => {},
                }
            }
            if n > 0 {
                assert(s[p] == t[0]) by {
                    assert(s.subrange(p, p + n)[0] == s[p]);
                }
            }
            assert forall|c: char| is_stop(c, cfg.scalar_stop@) implies cfg.delimiters().contains(c) by {
                lemma_scalar_stops(cfg, c);
            }
            lemma_scalar_stops(cfg, s[p + n]);
            lemma_read_escaped(s, p, tt, cfg.scalar_stop@, cfg);
        },
    }
}

/// The text of a nonempty list's items, followed by `list_close`, parses back
/// to those items after `acc`.
pub proof fn lemma_parse_serialized_items(
    s: Seq<char>,
    q: int,
    acc: Seq<SpecValue>,
    items: Seq<SpecValue>,
    cfg: FormatConfig,
)
    requires
        cfg.wf(),
        items.len() > 0,
        forall|i: int| 0 <= i < items.len() ==> representable(#[trigger] items[i], cfg),
        0 <= q,
        q + spec_join_items(items, cfg).len() < s.len(),
        s.subrange(q, q + spec_join_items(items, cfg).len()) == spec_join_items(items, cfg),
        s[q + spec_join_items(items, cfg).len()] == cfg.list_close,
    ensures
        spec_parse_items(s, q, acc, cfg) == Ok::<(Seq<SpecValue>, int), ParseError>(
            (acc + items, q + spec_join_items(items, cfg).len() + 1),
        ),
    decreases items,
{
    lemma_delimiters(cfg);
    let j = spec_join_items(items, cfg);
    let x = items[0];
    let tx = spec_serialize_value(x, cfg);
    assert(representable(x, cfg));
    if items.len() == 1 {
        assert(j == tx);
        lemma_parse_serialized_value(s, q, x, cfg);
        assert(acc.push(x) =~= acc + items);
    } else {
        let rest = items.subrange(1, items.len() as int);
        let jr = spec_join_items(rest, cfg);
        assert(j == tx + seq![cfg.list_sep] + jr);
        lemma_subrange_split(s, q, tx + seq![cfg.list_sep], jr);
        lemma_subrange_split(s, q, tx, seq![cfg.list_sep]);
        assert(s[q + tx.len()] == cfg.list_sep) by {
            assert(s.subrange(q + tx.len(), q + tx.len() + 1)[0] == s[q + tx.len()]);
        }
        assert(s[q + j.len()] == cfg.list_close);
        lemma_parse_serialized_value(s, q, x, cfg);
        assert(decreases_to!(items => rest));
        assert forall|i: int| 0 <= i < rest.len() implies representable(#[trigger] rest[i], cfg) by {
            assert(rest[i] == items[i + 1]);
        }
        lemma_parse_serialized_items(s, q + tx.len() + 1, acc.push(x), rest, cfg);
        assert(acc.push(x) + rest =~= acc + items);
    }
}

/// The text of a nonempty object's entries, followed by `obj_close`, parses
/// back to those entries after the map `acc`, when all keys are in order.
pub proof fn lemma_parse_serialized_entries(
    s: Seq<char>,
    q: int,
    acc: Seq<(Seq<char>, SpecValue)>,
    entries: Seq<(Seq<char>, SpecValue)>,
    cfg: FormatConfig,
)
    requires
        cfg.wf(),
        entries.len() > 0,
        forall|i: int| 0 <= i < entries.len() ==> representable(#[trigger] entries[i].1, cfg),
        keys_sorted(acc + entries),
        0 <= q,
        q + spec_join_entries(entries, cfg).len() < s.len(),
        s.subrange(q, q + spec_join_entries(entries, cfg).len()) == spec_join_entries(entries, cfg),
        s[q + spec_join_entries(entries, cfg).len()] == cfg.obj_close,
    ensures
        spec_parse_entries(s, q, acc, cfg) == Ok::<(Seq<(Seq<char>, SpecValue)>, int), ParseError>(
            (acc + entries, q + spec_join_entries(entries, cfg).len() + 1),
        ),
    decreases entries,
{
    lemma_delimiters(cfg);
    let j = spec_join_entries(entries, cfg);
    let k = entries[0].0;
    let x = entries[0].1;
    assert(representable(x, cfg));
    let ek = spec_escape(k, cfg);
    let tx = spec_serialize_value(x, cfg);
    let head = ek + seq![cfg.kv_sep] + tx;
    if entries.len() == 1 {
        assert(j == head);
    } else {
        assert(j == head + seq![cfg.field_sep] + spec_join_entries(
            entries.subrange(1, entries.len() as int),
            cfg,
        ));
        let jr = spec_join_entries(entries.subrange(1, entries.len() as int), cfg);
        assert(j =~= head + (seq![cfg.field_sep] + jr));
        lemma_subrange_split(s, q, head, seq![cfg.field_sep] + jr);
    }
    assert(s.subrange(q, q + head.len()) == head);
    lemma_subrange_split(s, q, ek + seq![cfg.kv_sep], tx);
    lemma_subrange_split(s, q, ek, seq![cfg.kv_sep]);
    let e1 = q + ek.len();
    assert(s[e1] == cfg.kv_sep) by {
        assert(s.subrange(e1, e1 + 1)[0] == s[e1]);
    }
    // The key.
    assert forall|c: char| is_stop(c, entry_key_stops(cfg)) implies cfg.delimiters().contains(c) by {
        lemma_entry_key_stops(cfg, c);
    }
    lemma_entry_key_stops(cfg, cfg.kv_sep);
    lemma_read_escaped(s, q, k, entry_key_stops(cfg), cfg);
    // The value, followed by `field_sep` or `obj_close`.
    let e = e1 + 1 + tx.len();
    if entries.len() == 1 {
        assert(s[e] == cfg.obj_close);
    } else {
        assert(s[e] == cfg.field_sep) by {
            assert(s.subrange(q, q + j.len())[head.len() as int] == s[e]);
        }
    }
    assert(decreases_to!(entries => entries[0]));
    assert(decreases_to!(entries[0] => entries[0].1));
    lemma_parse_serialized_value(s, e1 + 1, x, cfg);
    // The entry goes at the end of the map.
    assert forall|i: int| 0 <= i < acc.len() implies chars_less(#[trigger] acc[i].0, k) by {
        assert((acc + entries)[i] == acc[i]);
        assert((acc + entries)[acc.len() as int] == entries[0]);
    }
    lemma_map_insert_last(acc, k, x);
    assert(entries[0] == (k, x));
    if entries.len() == 1 {
        assert(acc.push((k, x)) =~= acc + entries);
    } else {
        let rest = entries.subrange(1, entries.len() as int);
        let jr = spec_join_entries(rest, cfg);
        lemma_subrange_split(s, e, seq![cfg.field_sep], jr);
        assert(acc.push((k, x)) + rest =~= acc + entries);
        assert(decreases_to!(entries => rest));
        assert forall|i: int| 0 <= i < rest.len() implies representable(#[trigger] rest[i].1, cfg) by {
            assert(rest[i] == entries[i + 1]);
        }
        lemma_parse_serialized_entries(s, e + 1, acc.push((k, x)), rest, cfg);
    }
}


/// Each field of `fields` has a nonempty key and a value whose text reads back.
pub open spec fn fields_representable(fields: Seq<(Seq<char>, SpecValue)>, cfg: FormatConfig) -> bool {
    forall|i: int|
        0 <= i < fields.len() ==> (#[trigger] fields[i]).0.len() > 0 && representable(fields[i].1, cfg)
}

/// The rest of a text, when it is the text of a record, parses back to that
/// record after `acc`.
pub proof fn lemma_parse_serialized_record(
    s: Seq<char>,
    p: int,
    acc: Seq<(Seq<char>, SpecValue)>,
    fields: Seq<(Seq<char>, SpecValue)>,
    cfg: FormatConfig,
)
    requires
        cfg.wf(),
        0 <= p <= s.len(),
        s.subrange(p, s.len() as int) == spec_record_text(fields, cfg),
        fields_representable(fields, cfg),
    ensures
        spec_parse_record(s, p, acc, cfg) == Ok::<Seq<(Seq<char>, SpecValue)>, ParseError>(acc + fields),
    decreases fields.len(),
{
    lemma_delimiters(cfg);
    if fields.len() == 0 {
        assert(p == s.len());
        assert(acc + fields =~= acc);
    } else {
        let k = fields[0].0;
        let x = fields[0].1;
        assert(k.len() > 0 && representable(x, cfg));
        let ek = spec_escape(k, cfg);
        let tx = spec_serialize_value(x, cfg);
        let rest = fields.drop_first();
        let rt = spec_record_text(rest, cfg);
        let head = ek + seq![cfg.kv_sep] + tx;
        let text = spec_record_text(fields, cfg);
        assert(text == head + seq![cfg.field_sep] + rt);
        assert(text =~= head + (seq![cfg.field_sep] + rt));
        assert(s.subrange(p, p + head.len() + 1 + rt.len()) == head + (seq![cfg.field_sep] + rt));
        lemma_subrange_split(s, p, head, seq![cfg.field_sep] + rt);
        lemma_subrange_split(s, p + head.len(), seq![cfg.field_sep], rt);
        lemma_subrange_split(s, p, ek + seq![cfg.kv_sep], tx);
        lemma_subrange_split(s, p, ek, seq![cfg.kv_sep]);
        let e1 = p + ek.len();
        assert(s[e1] == cfg.kv_sep) by {
            assert(s.subrange(e1, e1 + 1)[0] == s[e1]);
        }
        let e = e1 + 1 + tx.len();
        assert(s[e] == cfg.field_sep) by {
            assert(s.subrange(e, e + 1)[0] == s[e]);
        }
        // The first char is not `field_sep`.
        lemma_needs_escape(cfg, k[0]);
        assert(ek == escaped_char(cfg, k[0]) + spec_escape(k.drop_first(), cfg));
        assert(s[p] == ek[0]) by {
            assert(s.subrange(p, p + ek.len())[0] == s[p]);
        }
        // The key.
        assert forall|c: char| is_stop(c, record_key_stops(cfg)) implies cfg.delimiters().contains(c) by {
            lemma_record_key_stops(cfg, c);
        }
        lemma_record_key_stops(cfg, cfg.kv_sep);
        lemma_read_escaped(s, p, k, record_key_stops(cfg), cfg);
        // The value.
        lemma_parse_serialized_value(s, e1 + 1, x, cfg);
        // The rest.
        assert(s.subrange(e + 1, s.len() as int) =~= rt) by {
            assert(s.len() == p + text.len());
        }
        assert forall|i: int| 0 <= i < rest.len() implies (#[trigger] rest[i]).0.len() > 0 && representable(
            rest[i].1,
            cfg,
        ) by {
            assert(rest[i] == fields[i + 1]);
        }
        lemma_parse_serialized_record(s, e + 1, acc.push((k, x)), rest, cfg);
        assert(fields[0] == (k, x));
        assert(acc.push((k, x)) + rest =~= acc + fields);
    }
}

/// Writing a record and reading the text back gives the same record, when
/// every key is nonempty and every value is representable.
pub proof fn lemma_record_roundtrip(fields: Seq<(Seq<char>, SpecValue)>, cfg: FormatConfig)
    requires
        cfg.wf(),
        fields_representable(fields, cfg),
    ensures
        spec_parse_record(spec_record_text(fields, cfg), 0, Seq::empty(), cfg) == Ok::<
            Seq<(Seq<char>, SpecValue)>,
            ParseError,
        >(fields),
{
    let s = spec_record_text(fields, cfg);
    assert(s.subrange(0, s.len() as int) =~= s);
    lemma_parse_serialized_record(s, 0, Seq::empty(), fields, cfg);
    assert(Seq::<(Seq<char>, SpecValue)>::empty() + fields =~= fields);
}

/// Writing a representable value and reading it back gives the same value,
/// ending where its text ends, when the text that follows is empty or begins
/// with a char at which a scalar ends.
pub proof fn lemma_value_roundtrip(v: SpecValue, follow: Seq<char>, cfg: FormatConfig)
    requires
        cfg.wf(),
        representable(v, cfg),
        follow.len() == 0 || is_terminator(cfg, follow[0]),
    ensures
        spec_parse_value(spec_serialize_value(v, cfg) + follow, 0, cfg) == Ok::<
            (SpecValue, int),
            ParseError,
        >((v, spec_serialize_value(v, cfg).len() as int)),
{
    let t = spec_serialize_value(v, cfg);
    let s = t + follow;
    assert(s.subrange(0, t.len() as int) =~= t);
    if follow.len() > 0 {
        assert(s[t.len() as int] == follow[0]);
    }
    lemma_parse_serialized_value(s, 0, v, cfg);
}


/// How the text of a scalar is read, for a valid configuration: a sentinel
/// gives its value; otherwise text that `i64::from_str` accepts gives that
/// integer; otherwise text that `f64::from_str` accepts gives a float with
/// that text; and any other text gives the string it spells, whatever chars
/// it holds.
pub proof fn lemma_scalar_reading(t: Seq<char>, cfg: FormatConfig)
    requires
        cfg.wf(),
    ensures
        t == cfg.null_str@ ==> spec_coerce(t, cfg) == SpecValue::Null,
        t == cfg.true_str@ ==> spec_coerce(t, cfg) == SpecValue::Bool(true),
        t == cfg.false_str@ ==> spec_coerce(t, cfg) == SpecValue::Bool(false),
        !is_sentinel(cfg, t) ==> (spec_parse_i64(t) matches Some(i) ==> spec_coerce(t, cfg) == SpecValue::Int(i)),
        !is_sentinel(cfg, t) && spec_parse_i64(t) is None && is_float_literal(t) ==> spec_coerce(t, cfg)
            == SpecValue::Float(t),
        !is_sentinel(cfg, t) && spec_parse_i64(t) is None && !is_float_literal(t) ==> spec_coerce(t, cfg)
            == SpecValue::Str(t),
{
    crate::config::lemma_valid_settings(cfg);
}

/// A field `key=text`, where neither the nonempty key nor the text holds a
/// delimiter, is read as one field with that key and the text's scalar
/// value.
pub proof fn lemma_scalar_field(k: Seq<char>, t: Seq<char>, cfg: FormatConfig)
    requires
        cfg.wf(),
        k.len() > 0,
        is_plain(cfg, k),
        is_plain(cfg, t),
    ensures
        spec_parse_record(k + seq![cfg.kv_sep] + t, 0, Seq::empty(), cfg) == Ok::<
            Seq<(Seq<char>, SpecValue)>,
            ParseError,
        >(seq![(k, spec_coerce(t, cfg))]),
{
    lemma_delimiters(cfg);
    let s = k + seq![cfg.kv_sep] + t;
    let e1 = k.len() as int;
    lemma_plain_escape(cfg, k);
    lemma_plain_escape(cfg, t);
    assert(s[0] == k[0]);
    assert(!cfg.delimiters().contains(k[0]));
    assert(s.subrange(0, e1) =~= k);
    assert(s[e1] == cfg.kv_sep);
    assert forall|c: char| is_stop(c, record_key_stops(cfg)) implies cfg.delimiters().contains(c) by {
        lemma_record_key_stops(cfg, c);
    }
    lemma_record_key_stops(cfg, cfg.kv_sep);
    lemma_read_escaped(s, 0, k, record_key_stops(cfg), cfg);
    let p = e1 + 1;
    assert(s.subrange(p, s.len() as int) =~= t);
    if t.len() > 0 {
        assert(s[p] == t[0]);
        assert(!cfg.delimiters().contains(t[0]));
    }
    assert forall|c: char| is_stop(c, cfg.scalar_stop@) implies cfg.delimiters().contains(c) by {
        lemma_scalar_stops(cfg, c);
    }
    lemma_read_escaped(s, p, t, cfg.scalar_stop@, cfg);
    assert(spec_read_scalar(s, 0, cfg.escape, record_key_stops(cfg)) == (k, e1));
    assert(s[0] != cfg.field_sep);
    assert(p == s.len() || (s[p] != cfg.list_open && s[p] != cfg.obj_open));
    assert(spec_parse_value(s, p, cfg) == Ok::<(SpecValue, int), ParseError>((spec_coerce(t, cfg), s.len() as int)));
    let one = Seq::<(Seq<char>, SpecValue)>::empty().push((k, spec_coerce(t, cfg)));
    assert(one =~= seq![(k, spec_coerce(t, cfg))]);
    assert(spec_parse_record(s, s.len() as int, one, cfg) == Ok::<Seq<(Seq<char>, SpecValue)>, ParseError>(one));
    assert(0 < s.len());
    assert(spec_parse_record(s, 0, Seq::empty(), cfg) == spec_parse_record(s, s.len() as int, one, cfg));
}

/// The text of every string is the string with the escape char put before
/// each delimiter: a string without delimiters is written as it is, and
/// reading the text of any string as a scalar gives the string back.
pub proof fn lemma_string_text(t: Seq<char>, cfg: FormatConfig)
    requires
        cfg.wf(),
    ensures
        spec_serialize_value(SpecValue::Str(t), cfg) == spec_escape(t, cfg),
        is_plain(cfg, t) ==> spec_serialize_value(SpecValue::Str(t), cfg) == t,
        spec_read_scalar(spec_serialize_value(SpecValue::Str(t), cfg), 0, cfg.escape, cfg.scalar_stop@) == (
            t,
            spec_serialize_value(SpecValue::Str(t), cfg).len() as int,
        ),
{
    lemma_delimiters(cfg);
    if is_plain(cfg, t) {
        lemma_plain_escape(cfg, t);
    }
    let e = spec_escape(t, cfg);
    assert(e.subrange(0, e.len() as int) =~= e);
    assert forall|c: char| is_stop(c, cfg.scalar_stop@) implies cfg.delimiters().contains(c) by {
        lemma_scalar_stops(cfg, c);
    }
    lemma_read_escaped(e, 0, t, cfg.scalar_stop@, cfg);
}

/// The texts of the other scalars: the sentinels for null and the booleans,
/// a float's own text, and for an integer a text that `i64::from_str` reads
/// back as that integer, holding no delimiter.
pub proof fn lemma_scalar_texts(cfg: FormatConfig, i: i64, f: Seq<char>)
    requires
        cfg.wf(),
    ensures
        spec_serialize_value(SpecValue::Null, cfg) == cfg.null_str@,
        spec_serialize_value(SpecValue::Bool(true), cfg) == cfg.true_str@,
        spec_serialize_value(SpecValue::Bool(false), cfg) == cfg.false_str@,
        spec_serialize_value(SpecValue::Float(f), cfg) == f,
        spec_parse_i64(spec_serialize_value(SpecValue::Int(i), cfg)) == Some(i),
        forall|j: int|
            0 <= j < spec_serialize_value(SpecValue::Int(i), cfg).len() ==> crate::text::is_digit(
                #[trigger] spec_serialize_value(SpecValue::Int(i), cfg)[j],
            ) || (j == 0 && spec_serialize_value(SpecValue::Int(i), cfg)[j] == '-'),
{
    crate::text::lemma_int_text_parses(i);
    let t = int_text(i as int);
    assert forall|j: int| 0 <= j < t.len() implies crate::text::is_digit(#[trigger] t[j]) || (j == 0 && t[j]
        == '-') by {
        crate::text::lemma_int_text_chars(i, j);
    }
}


/// Escaping, char by char: the empty text stays empty, and each char is
/// appended as it is, preceded by the escape char exactly when it is one of
/// the delimiters.
pub proof fn lemma_escape_steps(t: Seq<char>, c: char, cfg: FormatConfig)
    requires
        cfg.wf(),
    ensures
        spec_escape(Seq::empty(), cfg) == Seq::<char>::empty(),
        spec_escape(t.push(c), cfg) == spec_escape(t, cfg) + if cfg.delimiters().contains(c) {
            seq![cfg.escape, c]
        } else {
            seq![c]
        },
{
    crate::serializer::lemma_escape_push(t, c, cfg);
    lemma_needs_escape(cfg, c);
}

/// A record text made only of `field_sep`s holds no field, and one whose
/// first field has an empty key (it begins with `kv_sep`) ends there.
pub proof fn lemma_record_edges(s: Seq<char>, p: int, acc: Seq<(Seq<char>, SpecValue)>, cfg: FormatConfig)
    requires
        cfg.wf(),
        0 <= p,
    ensures
        (forall|i: int| p <= i < s.len() ==> s[i] == cfg.field_sep) ==> spec_parse_record(s, p, acc, cfg) == Ok::<
            Seq<(Seq<char>, SpecValue)>,
            ParseError,
        >(acc),
        p < s.len() && s[p] == cfg.kv_sep ==> spec_parse_record(s, p, acc, cfg) == Ok::<
            Seq<(Seq<char>, SpecValue)>,
            ParseError,
        >(acc),
    decreases s.len() - p,
{
    lemma_delimiters(cfg);
    if p < s.len() {
        lemma_record_edges(s, p + 1, acc, cfg);
        if s[p] == cfg.kv_sep {
            lemma_record_key_stops(cfg, cfg.kv_sep);
            assert(spec_read_scalar(s, p, cfg.escape, record_key_stops(cfg)).0 =~= Seq::<char>::empty());
        }
    }
}

} // verus!
