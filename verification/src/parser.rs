use vstd::prelude::*;

use crate::config::FormatConfig;
use crate::text::{
    byte_offset, byte_offset_of, char_debug, chars_less, chars_of, debug_char, float_literal,
    is_float_literal, lead_byte, lead_byte_of, less_than, nat_text, parse_i64, push_char,
    spec_parse_i64, usize_to_text,
};
use crate::ordered::{entry_of, last_value, lemma_into_map_keeps_last};
use crate::roundtrip::keys_sorted;
use crate::value::{fields_view, lemma_list_view, lemma_object_view, values_view, SpecValue, Value};

verus! {

/// Why a text failed to parse. Positions are byte offsets into the UTF-8
/// text, and `found` is the first byte of the char met there.
#[derive(Debug, Clone, Copy, PartialEq, Eq)]
pub enum ParseError {
    /// A delimiter was required where another char stands.
    Expected { expected: char, found: u8, pos: usize },
    /// A delimiter was required where the text ends.
    ExpectedEof { expected: char },
    /// A list item is followed by a char other than `list_sep` or `list_close`.
    UnexpectedInList { found: u8, pos: usize },
    /// The text ends inside a list.
    UnterminatedList,
    /// An object entry is followed by a char other than `field_sep` or `obj_close`.
    UnexpectedInObject { found: u8, pos: usize },
    /// The text ends inside an object.
    UnterminatedObject,
}

/// The message of a parse error. A byte found is shown as the char with
/// that code.
pub open spec fn parse_error_message(e: ParseError) -> Seq<char> {
    match e {
        ParseError::Expected { expected, found, pos } => "Expected "@ + char_debug(expected) + " but got "@
            + char_debug(found as char) + " at pos "@ + nat_text(pos as nat),
        ParseError::ExpectedEof { expected } => "Expected "@ + char_debug(expected) + " but got EOF"@,
        ParseError::UnexpectedInList { found, pos } => "Unexpected "@ + char_debug(found as char)
            + " in list at pos "@ + nat_text(pos as nat),
        ParseError::UnterminatedList => "Unterminated list"@,
        ParseError::UnexpectedInObject { found, pos } => "Unexpected "@ + char_debug(found as char)
            + " in object at pos "@ + nat_text(pos as nat),
        ParseError::UnterminatedObject => "Unterminated object"@,
    }
}

impl ParseError {
    /// The error's message.
    pub fn message(&self) -> (m: String)
        ensures
            m@ == parse_error_message(*self),
    {
        match self {
            ParseError::Expected { expected, found, pos } => {
                let mut m = String::from_str("Expected ");
                let d = debug_char(*expected);
                m.append(d.as_str());
                m.append(" but got ");
                let f = debug_char(*found as char);
                m.append(f.as_str());
                m.append(" at pos ");
                let n = usize_to_text(*pos);
                m.append(n.as_str());
                m
            },
            ParseError::ExpectedEof { expected } => {
                let mut m = String::from_str("Expected ");
                let d = debug_char(*expected);
                m.append(d.as_str());
                m.append(" but got EOF");
                m
            },
            ParseError::UnexpectedInList { found, pos } => {
                let mut m = String::from_str("Unexpected ");
                let f = debug_char(*found as char);
                m.append(f.as_str());
                m.append(" in list at pos ");
                let n = usize_to_text(*pos);
                m.append(n.as_str());
                m
            },
            ParseError::UnterminatedList => String::from_str("Unterminated list"),
            ParseError::UnexpectedInObject { found, pos } => {
                let mut m = String::from_str("Unexpected ");
                let f = debug_char(*found as char);
                m.append(f.as_str());
                m.append(" in object at pos ");
                let n = usize_to_text(*pos);
                m.append(n.as_str());
                m
            },
            ParseError::UnterminatedObject => String::from_str("Unterminated object"),
        }
    }
}

/// `c` is one of the bytes `stops` (as an ASCII char).
pub open spec fn is_stop(c: char, stops: Seq<u8>) -> bool {
    exists|i: int| 0 <= i < stops.len() && stops[i] as u32 == c as u32
}

/// Reads a scalar from index `p` of `s`: each char after `esc` is taken as it
/// is, and the text ends at the first unescaped char of `stops`, or at the
/// end. Gives the unescaped text and the index after it.
pub open spec fn spec_read_scalar(s: Seq<char>, p: int, esc: char, stops: Seq<u8>) -> (Seq<char>, int)
    decreases s.len() - p,
{
    if p < 0 || p >= s.len() {
        (Seq::empty(), p)
    } else if s[p] == esc {
        if p + 1 < s.len() {
            let rest = spec_read_scalar(s, p + 2, esc, stops);
            (seq![s[p + 1]] + rest.0, rest.1)
        } else {
            (Seq::empty(), p + 1)
        }
    } else if is_stop(s[p], stops) {
        (Seq::empty(), p)
    } else {
        let rest = spec_read_scalar(s, p + 1, esc, stops);
        (seq![s[p]] + rest.0, rest.1)
    }
}

/// The value of a scalar's text: a sentinel, then an `i64`, then a float
/// literal, and otherwise the text as a string.
pub open spec fn spec_coerce(t: Seq<char>, cfg: FormatConfig) -> SpecValue {
    if t == cfg.null_str@ {
        SpecValue::Null
    } else if t == cfg.true_str@ {
        SpecValue::Bool(true)
    } else if t == cfg.false_str@ {
        SpecValue::Bool(false)
    } else {
        match spec_parse_i64(t) {
            Some(i) => SpecValue::Int(i),
            None => if is_float_literal(t) {
                SpecValue::Float(t)
            } else {
                SpecValue::Str(t)
            },
        }
    }
}

/// `m` with `k` mapped to `v`, keeping the keys in [`chars_less`] order: an
/// equal key has its value replaced.
pub open spec fn map_insert(m: Seq<(Seq<char>, SpecValue)>, k: Seq<char>, v: SpecValue) -> Seq<
    (Seq<char>, SpecValue),
>
    decreases m.len(),
{
    if m.len() == 0 {
        seq![(k, v)]
    } else if m[0].0 == k {
        seq![(k, v)] + m.drop_first()
    } else if chars_less(k, m[0].0) {
        seq![(k, v)] + m
    } else {
        seq![m[0]] + map_insert(m.drop_first(), k, v)
    }
}

/// The error that `expect(ch)` gives at index `p` of `s`.
pub open spec fn expect_error(s: Seq<char>, p: int, ch: char) -> ParseError {
    if p < s.len() {
        ParseError::Expected { expected: ch, found: lead_byte(s[p]), pos: byte_offset(s, p) as usize }
    } else {
        ParseError::ExpectedEof { expected: ch }
    }
}

/// The stop bytes for a key inside an object.
pub open spec fn entry_key_stops(cfg: FormatConfig) -> Seq<u8> {
    seq![cfg.kv_sep as u32 as u8, cfg.obj_close as u32 as u8]
}

/// The stop bytes for a key of a record.
pub open spec fn record_key_stops(cfg: FormatConfig) -> Seq<u8> {
    seq![cfg.kv_sep as u32 as u8]
}

/// Parses a value at index `p` of `s`: a list, an object, or a scalar.
/// Gives the value and the index after it.
pub open spec fn spec_parse_value(s: Seq<char>, p: int, cfg: FormatConfig) -> Result<(SpecValue, int), ParseError>
    decreases s.len() - p, 1int,
{
    if 0 <= p < s.len() && s[p] == cfg.list_open {
        if p + 1 < s.len() && s[p + 1] == cfg.list_close {
            Ok((SpecValue::List(Seq::empty()), p + 2))
        } else {
            match spec_parse_items(s, p + 1, Seq::empty(), cfg) {
                Ok((items, e)) => Ok((SpecValue::List(items), e)),
                Err(err) => Err(err),
            }
        }
    } else if 0 <= p < s.len() && s[p] == cfg.obj_open {
        if p + 1 < s.len() && s[p + 1] == cfg.obj_close {
            Ok((SpecValue::Object(Seq::empty()), p + 2))
        } else {
            match spec_parse_entries(s, p + 1, Seq::empty(), cfg) {
                Ok((entries, e)) => Ok((SpecValue::Object(entries), e)),
                Err(err) => Err(err),
            }
        }
    } else {
        let (t, e) = spec_read_scalar(s, p, cfg.escape, cfg.scalar_stop@);
        Ok((spec_coerce(t, cfg), e))
    }
}

/// Parses the items of a list from index `p` on, after `acc`, up to and
/// including `list_close`.
pub open spec fn spec_parse_items(s: Seq<char>, p: int, acc: Seq<SpecValue>, cfg: FormatConfig) -> Result<
    (Seq<SpecValue>, int),
    ParseError,
>
    decreases s.len() - p, 2int,
{
    if p < 0 {
        Err(ParseError::UnterminatedList)
    } else {
        match spec_parse_value(s, p, cfg) {
            Err(err) => Err(err),
            Ok((v, e)) => if e < p {
                Err(ParseError::UnterminatedList)
            } else if e < s.len() && s[e] == cfg.list_sep {
                spec_parse_items(s, e + 1, acc.push(v), cfg)
            } else if e < s.len() && s[e] == cfg.list_close {
                Ok((acc.push(v), e + 1))
            } else if e < s.len() {
                Err(ParseError::UnexpectedInList { found: lead_byte(s[e]), pos: byte_offset(s, e) as usize })
            } else {
                Err(ParseError::UnterminatedList)
            },
        }
    }
}

/// Parses the entries of an object from index `p` on, into the map `acc`, up
/// to and including `obj_close`.
pub open spec fn spec_parse_entries(
    s: Seq<char>,
    p: int,
    acc: Seq<(Seq<char>, SpecValue)>,
    cfg: FormatConfig,
) -> Result<(Seq<(Seq<char>, SpecValue)>, int), ParseError>
    decreases s.len() - p, 2int,
{
    if p < 0 {
        Err(ParseError::UnterminatedObject)
    } else {
        let (k, e1) = spec_read_scalar(s, p, cfg.escape, entry_key_stops(cfg));
        proof {
            lemma_read_scalar_end(s, p, cfg.escape, entry_key_stops(cfg));
        }
        if !(e1 < s.len() && s[e1] == cfg.kv_sep) {
            Err(expect_error(s, e1, cfg.kv_sep))
        } else {
            match spec_parse_value(s, e1 + 1, cfg) {
                Err(err) => Err(err),
                Ok((v, e)) => {
                    let m = map_insert(acc, k, v);
                    if e < p {
                        Err(ParseError::UnterminatedObject)
                    } else if e < s.len() && s[e] == cfg.field_sep {
                        spec_parse_entries(s, e + 1, m, cfg)
                    } else if e < s.len() && s[e] == cfg.obj_close {
                        Ok((m, e + 1))
                    } else if e < s.len() {
                        Err(
                            ParseError::UnexpectedInObject {
                                found: lead_byte(s[e]),
                                pos: byte_offset(s, e) as usize,
                            },
                        )
                    } else {
                        Err(ParseError::UnterminatedObject)
                    }
                },
            }
        }
    }
}

/// Where a scalar read ends: at or after where it starts, and within the text
/// when it starts within it.
pub proof fn lemma_read_scalar_end(s: Seq<char>, p: int, esc: char, stops: Seq<u8>)
    ensures
        spec_read_scalar(s, p, esc, stops).1 >= p,
        0 <= p <= s.len() ==> spec_read_scalar(s, p, esc, stops).1 <= s.len(),
    decreases s.len() - p,
{
    if 0 <= p < s.len() {
        if s[p] == esc {
            if p + 1 < s.len() {
                lemma_read_scalar_end(s, p + 2, esc, stops);
            }
        } else if !is_stop(s[p], stops) {
            lemma_read_scalar_end(s, p + 1, esc, stops);
        }
    }
}


/// Where a parsed value ends: at or after where it starts, within the text.
pub proof fn lemma_value_end(s: Seq<char>, p: int, cfg: FormatConfig)
    ensures
        spec_parse_value(s, p, cfg) matches Ok((_, e)) ==> e >= p && (0 <= p <= s.len() ==> e <= s.len()),
    decreases s.len() - p, 1int,
{
    if 0 <= p < s.len() && s[p] == cfg.list_open {
        if !(p + 1 < s.len() && s[p + 1] == cfg.list_close) {
            lemma_items_end(s, p + 1, Seq::empty(), cfg);
        }
    } else if 0 <= p < s.len() && s[p] == cfg.obj_open {
        if !(p + 1 < s.len() && s[p + 1] == cfg.obj_close) {
            lemma_entries_end(s, p + 1, Seq::empty(), cfg);
        }
    } else {
        lemma_read_scalar_end(s, p, cfg.escape, cfg.scalar_stop@);
    }
}

/// Where parsed list items end: after where they start, within the text.
pub proof fn lemma_items_end(s: Seq<char>, p: int, acc: Seq<SpecValue>, cfg: FormatConfig)
    ensures
        spec_parse_items(s, p, acc, cfg) matches Ok((_, e)) ==> e > p && (0 <= p <= s.len() ==> e <= s.len()),
    decreases s.len() - p, 2int,
{
    if p >= 0 {
        lemma_value_end(s, p, cfg);
        match spec_parse_value(s, p, cfg) {
            Ok((v, e)) => {
                if e >= p && e < s.len() && s[e] == cfg.list_sep {
                    lemma_items_end(s, e + 1, acc.push(v), cfg);
                }
            },
            Err(_) => {},
        }
    }
}

/// Where parsed object entries end: after where they start, within the text.
pub proof fn lemma_entries_end(s: Seq<char>, p: int, acc: Seq<(Seq<char>, SpecValue)>, cfg: FormatConfig)
    ensures
        spec_parse_entries(s, p, acc, cfg) matches Ok((_, e)) ==> e > p && (0 <= p <= s.len() ==> e <= s.len()),
    decreases s.len() - p, 2int,
{
    if p >= 0 {
        let (k, e1) = spec_read_scalar(s, p, cfg.escape, entry_key_stops(cfg));
        lemma_read_scalar_end(s, p, cfg.escape, entry_key_stops(cfg));
        if e1 < s.len() && s[e1] == cfg.kv_sep {
            lemma_value_end(s, e1 + 1, cfg);
            match spec_parse_value(s, e1 + 1, cfg) {
                Ok((v, e)) => {
                    if e >= p && e < s.len() && s[e] == cfg.field_sep {
                        lemma_entries_end(s, e + 1, map_insert(acc, k, v), cfg);
                    }
                },
                Err(_) => {},
            }
        }
    }
}

/// Parses a record from index `p` of `s` on, after the fields `acc`: fields
/// `key=value` separated by `field_sep`; an empty key ends the record.
pub open spec fn spec_parse_record(
    s: Seq<char>,
    p: int,
    acc: Seq<(Seq<char>, SpecValue)>,
    cfg: FormatConfig,
) -> Result<Seq<(Seq<char>, SpecValue)>, ParseError>
    decreases s.len() - p,
{
    if p < 0 || p >= s.len() {
        Ok(acc)
    } else if s[p] == cfg.field_sep {
        spec_parse_record(s, p + 1, acc, cfg)
    } else {
        let (k, e1) = spec_read_scalar(s, p, cfg.escape, record_key_stops(cfg));
        if k.len() == 0 {
            Ok(acc)
        } else if !(e1 < s.len() && s[e1] == cfg.kv_sep) {
            Err(expect_error(s, e1, cfg.kv_sep))
        } else {
            match spec_parse_value(s, e1 + 1, cfg) {
                Err(err) => Err(err),
                Ok((v, e)) => {
                    proof {
                        lemma_read_scalar_end(s, p, cfg.escape, record_key_stops(cfg));
                        lemma_value_end(s, e1 + 1, cfg);
                    }
                    let next = if e < s.len() && s[e] == cfg.field_sep { e + 1 } else { e };
                    spec_parse_record(s, next, acc.push((k, v)), cfg)
                },
            }
        }
    }
}


/// The first index `i` of `m` whose key does not come before `k` splits the
/// insertion: the entries before it stay as they are.
proof fn lemma_map_insert_split(m: Seq<(Seq<char>, SpecValue)>, k: Seq<char>, v: SpecValue, i: int)
    requires
        0 <= i <= m.len(),
        forall|j: int| 0 <= j < i ==> chars_less(#[trigger] m[j].0, k),
    ensures
        map_insert(m, k, v) == m.take(i) + map_insert(m.skip(i), k, v),
    decreases i,
{
    if i == 0 {
        assert(m.skip(0) =~= m);
        assert(m.take(0) + map_insert(m, k, v) =~= map_insert(m, k, v));
    } else {
        crate::text::lemma_chars_less_total(m[0].0, k);
        lemma_map_insert_split(m.drop_first(), k, v, i - 1);
        assert(m.drop_first().skip(i - 1) =~= m.skip(i));
        assert(m.take(i) =~= seq![m[0]] + m.drop_first().take(i - 1));
    }
}

/// Inserts `key` with `val` into the key-ordered entries `map`, replacing the
/// value of an equal key.
fn insert_entry(map: &mut Vec<(String, Value)>, key: String, val: Value)
    ensures
        fields_view(final(map)@) == map_insert(fields_view(old(map)@), key@, val@),
{
    let ghost m = fields_view(map@);
    let kc = chars_of(key.as_str());
    let mut i: usize = 0;
    while i < map.len()
        invariant_except_break
            0 <= i <= map.len(),
            m == fields_view(map@),
            kc@ == key@,
            forall|j: int| 0 <= j < i ==> chars_less(#[trigger] m[j].0, key@),
        ensures
            0 <= i <= map.len(),
            m == fields_view(map@),
            forall|j: int| 0 <= j < i ==> chars_less(#[trigger] m[j].0, key@),
            i < map.len() ==> !chars_less(m[i as int].0, key@),
        decreases map.len() - i,
    {
        let mc = chars_of(map[i].0.as_str());
        if !less_than(&mc, &kc) {
            break;
        }
        i = i + 1;
    }
    proof {
        lemma_map_insert_split(m, key@, val@, i as int);
    }
    let ghost kv = key@;
    let ghost vv = val@;
    if i < map.len() && map[i].0 == key {
        let _old = map.remove(i);
        map.insert(i, (key, val));
        proof {
            assert(m.skip(i as int).drop_first() =~= m.skip(i + 1));
            assert(fields_view(map@) =~= m.take(i as int) + map_insert(m.skip(i as int), kv, vv));
        }
    } else {
        proof {
            if i < m.len() {
                crate::text::lemma_chars_less_total(m[i as int].0, kv);
            }
        }
        map.insert(i, (key, val));
        proof {
            assert(fields_view(map@) =~= m.take(i as int) + map_insert(m.skip(i as int), kv, vv));
        }
    }
}

/// The map that inserting each of `fields` in turn gives: keys in order,
/// the last value of a repeated key kept.
pub open spec fn spec_into_map(fields: Seq<(Seq<char>, SpecValue)>) -> Seq<(Seq<char>, SpecValue)>
    decreases fields.len(),
{
    if fields.len() == 0 {
        Seq::empty()
    } else {
        map_insert(spec_into_map(fields.drop_last()), fields.last().0, fields.last().1)
    }
}

/// Orders the fields of a record by key, as an object's entries are kept
/// (see [`spec_into_map`]): each key once, in increasing order, with the last
/// value that the fields give it.
pub fn into_map(fields: Vec<(String, Value)>) -> (m: Vec<(String, Value)>)
    ensures
        fields_view(m@) == spec_into_map(fields_view(fields@)),
        keys_sorted(fields_view(m@)),
        forall|k: Seq<char>| #[trigger] entry_of(fields_view(m@), k) == last_value(fields_view(fields@), k),
{
    proof {
        lemma_into_map_keeps_last(fields_view(fields@));
    }
    let ghost all = fields_view(fields@);
    let mut rest = fields;
    let mut m: Vec<(String, Value)> = Vec::new();
    let ghost n = rest.len();
    proof {
        assert(fields_view(m@) =~= spec_into_map(all.take(0)));
        assert(fields_view(rest@) =~= all.skip(0));
    }
    while rest.len() > 0
        invariant
            all.len() == n,
            rest.len() <= n,
            fields_view(rest@) == all.skip(n - rest.len()),
            fields_view(m@) == spec_into_map(all.take(n - rest.len())),
        decreases rest.len(),
    {
        let ghost i = n - rest.len();
        let ghost before = rest@;
        let (k, v) = rest.remove(0);
        proof {
            assert(all[i] == fields_view(before)[0]);
            assert(rest@ == before.remove(0));
            assert forall|j: int| 0 <= j < rest.len() implies fields_view(rest@)[j] == all.skip(i + 1)[j] by {
                assert(rest@[j] == before[j + 1]);
                assert(fields_view(before)[j + 1] == all.skip(i)[j + 1]);
            }
            assert(fields_view(rest@) =~= all.skip(i + 1));
            assert(all.take(i + 1).drop_last() =~= all.take(i));
            assert(all.take(i + 1).last() == all[i]);
        }
        insert_entry(&mut m, k, v);
    }
    proof {
        assert(all.take(n as int) =~= all);
    }
    m
}

/// Whether `c` is one of the bytes `stops`.
fn is_stop_char(c: char, stops: &[u8]) -> (r: bool)
    ensures
        r == is_stop(c, stops@),
{
    let mut i: usize = 0;
    while i < stops.len()
        invariant
            0 <= i <= stops.len(),
            forall|j: int| 0 <= j < i ==> stops@[j] as u32 != c as u32,
        decreases stops.len() - i,
    {
        if (stops[i] as u32) == (c as u32) {
            return true;
        }
        i = i + 1;
    }
    false
}

/// The value of a scalar's text (see [`spec_coerce`]).
fn coerce_scalar(s: String, cfg: &FormatConfig) -> (v: Value)
    ensures
        v@ == spec_coerce(s@, *cfg),
{
    if s == cfg.null_str {
        return Value::Null;
    }
    if s == cfg.true_str {
        return Value::Bool(true);
    }
    if s == cfg.false_str {
        return Value::Bool(false);
    }
    let chars = chars_of(s.as_str());
    match parse_i64(chars.as_slice()) {
        Some(i) => Value::Int(i),
        None => {
            if float_literal(chars.as_slice()) {
                Value::Float(s)
            } else {
                Value::Str(s)
            }
        },
    }
}

/// A parser reading a text char by char, with a configuration.
pub struct Parser<'a> {
    input: &'a [char],
    pos: usize,
    cfg: &'a FormatConfig,
}

impl<'a> Parser<'a> {
    /// The text being parsed.
    pub closed spec fn text(&self) -> Seq<char> {
        self.input@
    }

    /// The index of the next char to read.
    pub closed spec fn position(&self) -> int {
        self.pos as int
    }

    /// The configuration in use.
    pub closed spec fn config(&self) -> FormatConfig {
        *self.cfg
    }

    /// The position lies within the text, whose UTF-8 encoding is shorter
    /// than `usize::MAX` bytes, and the delimiters are ASCII.
    pub closed spec fn ready(&self) -> bool {
        &&& self.pos <= self.input@.len()
        &&& self.cfg.ascii_delimiters()
        &&& vstd::utf8::encode_utf8(self.input@).len() < usize::MAX
    }

    /// A parser at the start of `input`.
    pub fn new(input: &'a [char], cfg: &'a FormatConfig) -> (p: Self)
        requires
            vstd::utf8::encode_utf8(input@).len() < usize::MAX,
            cfg.ascii_delimiters(),
        ensures
            p.text() == input@,
            p.position() == 0,
            p.config() == *cfg,
            p.ready(),
    {
        Parser { input, pos: 0, cfg }
    }

    fn peek(&self) -> (r: Option<char>)
        ensures
            r == if self.pos < self.input@.len() {
                Some(self.input@[self.pos as int])
            } else {
                None::<char>
            },
    {
        if self.pos < self.input.len() {
            Some(self.input[self.pos])
        } else {
            None
        }
    }

    /// Moves past the next char and gives it.
    fn advance(&mut self) -> (r: Option<char>)
        requires
            old(self).ready(),
            old(self).pos < old(self).input@.len(),
        ensures
            final(self).input == old(self).input,
            final(self).cfg == old(self).cfg,
            final(self).ready(),
            r == Some(old(self).input@[old(self).pos as int]),
            final(self).pos == old(self).pos + 1,
    {
        let c = self.input[self.pos];
        self.pos = self.pos + 1;
        Some(c)
    }

    /// Moves one char on, past the end when there is none, and fails unless
    /// the char moved past is `ch`.
    fn expect(&mut self, ch: char) -> (r: Result<(), ParseError>)
        requires
            old(self).ready(),
        ensures
            final(self).input == old(self).input,
            final(self).cfg == old(self).cfg,
            final(self).pos == old(self).pos + 1,
            if old(self).pos < old(self).input@.len() && old(self).input@[old(self).pos as int] == ch {
                r is Ok && final(self).ready()
            } else {
                r == Err::<(), ParseError>(expect_error(old(self).input@, old(self).pos as int, ch))
            },
    {
        proof {
            crate::text::lemma_encode_utf8_len(self.input@);
        }
        let p = self.pos;
        self.pos = p + 1;
        if p < self.input.len() {
            let b = self.input[p];
            if b == ch {
                Ok(())
            } else {
                Err(ParseError::Expected { expected: ch, found: lead_byte_of(b), pos: byte_offset_of(self.input, p) })
            }
        } else {
            Err(ParseError::ExpectedEof { expected: ch })
        }
    }

    /// Reads a scalar up to the first unescaped char of `stop_at` (see
    /// [`spec_read_scalar`]), giving its unescaped text.
    fn read_scalar(&mut self, stop_at: &[u8]) -> (out: String)
        requires
            old(self).ready(),
        ensures
            final(self).input == old(self).input,
            final(self).cfg == old(self).cfg,
            final(self).ready(),
            (out@, final(self).pos as int) == spec_read_scalar(
                old(self).input@,
                old(self).pos as int,
                old(self).cfg.escape,
                stop_at@,
            ),
    {
        let ghost s = self.input@;
        let ghost p0 = self.pos as int;
        let ghost esc = self.cfg.escape;
        let ghost input0 = self.input;
        let ghost cfg0 = self.cfg;
        let mut out = String::new();
        loop
            invariant
                self.ready(),
                self.input == input0,
                self.cfg == cfg0,
                s == self.input@,
                esc == self.cfg.escape,
                spec_read_scalar(s, p0, esc, stop_at@) == (
                    out@ + spec_read_scalar(s, self.pos as int, esc, stop_at@).0,
                    spec_read_scalar(s, self.pos as int, esc, stop_at@).1,
                ),
            ensures
                spec_read_scalar(s, self.pos as int, esc, stop_at@) == (Seq::<char>::empty(), self.pos as int),
            decreases self.input@.len() - self.pos,
        {
            match self.peek() {
                None => {
                    break;
                },
                Some(b) => {
                    if b == self.cfg.escape {
                        let ghost before = self.pos as int;
                        self.advance();
                        if self.pos < self.input.len() {
                            let c = self.input[self.pos];
                            self.advance();
                            let ghost out0 = out@;
                            push_char(&mut out, c);
                            proof {
                                let rest = spec_read_scalar(s, before + 2, esc, stop_at@);
                                assert(out@ + rest.0 =~= out0 + (seq![c] + rest.0));
                            }
                        } else {
                            proof {
                                assert(out@ + Seq::<char>::empty() =~= out@);
                            }
                        }
                    } else if is_stop_char(b, stop_at) {
                        break;
                    } else {
                        let ghost before = self.pos as int;
                        self.advance();
                        let ghost out0 = out@;
                        push_char(&mut out, b);
                        proof {
                            let rest = spec_read_scalar(s, before + 1, esc, stop_at@);
                            assert(out@ + rest.0 =~= out0 + (seq![b] + rest.0));
                        }
                    }
                },
            }
        }
        proof {
            assert(out@ + Seq::<char>::empty() =~= out@);
        }
        out
    }
}


/// A parse outcome for list items, as the outcome for the list.
pub open spec fn as_list(r: Result<(Seq<SpecValue>, int), ParseError>) -> Result<(SpecValue, int), ParseError> {
    match r {
        Ok((items, e)) => Ok((SpecValue::List(items), e)),
        Err(err) => Err(err),
    }
}

/// A parse outcome for object entries, as the outcome for the object.
pub open spec fn as_object(r: Result<(Seq<(Seq<char>, SpecValue)>, int), ParseError>) -> Result<
    (SpecValue, int),
    ParseError,
> {
    match r {
        Ok((entries, e)) => Ok((SpecValue::Object(entries), e)),
        Err(err) => Err(err),
    }
}

impl<'a> Parser<'a> {
    /// Parses a value at the position: a list, an object or a scalar (see
    /// [`spec_parse_value`]).
    pub fn parse_value(&mut self) -> (res: Result<Value, ParseError>)
        requires
            old(self).ready(),
        ensures
            final(self).text() == old(self).text(),
            final(self).config() == old(self).config(),
            match spec_parse_value(old(self).text(), old(self).position(), old(self).config()) {
                Ok((v, e)) => res matches Ok(x) && x@ == v && final(self).position() == e && final(self).ready(),
                Err(err) => res == Err::<Value, ParseError>(err),
            },
        decreases old(self).text().len() - old(self).position(), 1int,
    {
        match self.peek() {
            Some(b) => {
                if b == self.cfg.list_open {
                    return self.parse_list();
                }
                if b == self.cfg.obj_open {
                    return self.parse_nested_object();
                }
                self.parse_scalar()
            },
            None => self.parse_scalar(),
        }
    }

    fn parse_scalar(&mut self) -> (res: Result<Value, ParseError>)
        requires
            old(self).ready(),
        ensures
            final(self).text() == old(self).text(),
            final(self).config() == old(self).config(),
            final(self).ready(),
            ({
                let (t, e) = spec_read_scalar(
                    old(self).input@,
                    old(self).pos as int,
                    old(self).cfg.escape,
                    old(self).cfg.scalar_stop@,
                );
                res matches Ok(x) && x@ == spec_coerce(t, *old(self).cfg) && final(self).pos == e
            }),
    {
        let cfg = self.cfg;
        let stops = cfg.scalar_stop.as_slice();
        let s = self.read_scalar(stops);
        Ok(coerce_scalar(s, cfg))
    }

    fn parse_list(&mut self) -> (res: Result<Value, ParseError>)
        requires
            old(self).ready(),
            old(self).pos < old(self).input@.len(),
            old(self).input@[old(self).pos as int] == old(self).cfg.list_open,
        ensures
            final(self).text() == old(self).text(),
            final(self).config() == old(self).config(),
            match spec_parse_value(old(self).input@, old(self).pos as int, *old(self).cfg) {
                Ok((v, e)) => res matches Ok(x) && x@ == v && final(self).pos == e && final(self).ready(),
                Err(err) => res == Err::<Value, ParseError>(err),
            },
        decreases old(self).text().len() - old(self).position(), 0int,
    {
        let ghost s = self.input@;
        let ghost p0 = self.pos as int;
        let ghost cfg = *self.cfg;
        match self.expect(self.cfg.list_open) {
            Ok(()) => {},
            Err(e) => {
                return Err(e);
            },
        }
        let mut items: Vec<Value> = Vec::new();
        match self.peek() {
            Some(b) => {
                if b == self.cfg.list_close {
                    self.advance();
                    proof {
                        lemma_list_view(items);
                        assert(values_view(items@) =~= Seq::<SpecValue>::empty());
                    }
                    return Ok(Value::List(items));
                }
            },
            None => {},
        }
        proof {
            assert(values_view(items@) =~= Seq::<SpecValue>::empty());
        }
        loop
            invariant_except_break
                self.ready(),
                self.input@ == s,
                *self.cfg == cfg,
                old(self).input@ == s,
                *old(self).cfg == cfg,
                p0 == old(self).pos,
                s == self.input@,
                cfg == *self.cfg,
                p0 < self.pos,
                spec_parse_value(s, p0, cfg) == as_list(
                    spec_parse_items(s, self.pos as int, values_view(items@), cfg),
                ),
            ensures
                self.ready(),
                self.input@ == s,
                *self.cfg == cfg,
                old(self).input@ == s,
                *old(self).cfg == cfg,
                p0 == old(self).pos,
                spec_parse_value(s, p0, cfg) == Ok::<(SpecValue, int), ParseError>(
                    (SpecValue::List(values_view(items@)), self.pos as int),
                ),
            decreases self.input@.len() - self.pos,
        {
            let ghost q = self.pos as int;
            let ghost before = values_view(items@);
            let v = match self.parse_value() {
                Ok(v) => v,
                Err(e) => {
                    return Err(e);
                },
            };
            proof {
                lemma_value_end(s, q, cfg);
            }
            let ghost vv = v@;
            items.push(v);
            proof {
                assert(values_view(items@) =~= before.push(vv));
            }
            match self.peek() {
                Some(b) => {
                    if b == self.cfg.list_sep {
                        self.advance();
                    } else if b == self.cfg.list_close {
                        self.advance();
                        break;
                    } else {
                        return Err(
                            ParseError::UnexpectedInList {
                                found: lead_byte_of(b),
                                pos: byte_offset_of(self.input, self.pos),
                            },
                        );
                    }
                },
                None => {
                    return Err(ParseError::UnterminatedList);
                },
            }
        }
        proof {
            lemma_list_view(items);
        }
        Ok(Value::List(items))
    }

    fn parse_nested_object(&mut self) -> (res: Result<Value, ParseError>)
        requires
            old(self).ready(),
            old(self).pos < old(self).input@.len(),
            old(self).input@[old(self).pos as int] != old(self).cfg.list_open,
            old(self).input@[old(self).pos as int] == old(self).cfg.obj_open,
        ensures
            final(self).text() == old(self).text(),
            final(self).config() == old(self).config(),
            match spec_parse_value(old(self).input@, old(self).pos as int, *old(self).cfg) {
                Ok((v, e)) => res matches Ok(x) && x@ == v && final(self).pos == e && final(self).ready(),
                Err(err) => res == Err::<Value, ParseError>(err),
            },
        decreases old(self).text().len() - old(self).position(), 0int,
    {
        let ghost s = self.input@;
        let ghost p0 = self.pos as int;
        let ghost cfg = *self.cfg;
        match self.expect(self.cfg.obj_open) {
            Ok(()) => {},
            Err(e) => {
                return Err(e);
            },
        }
        let mut map: Vec<(String, Value)> = Vec::new();
        match self.peek() {
            Some(b) => {
                if b == self.cfg.obj_close {
                    self.advance();
                    proof {
                        lemma_object_view(map);
                        assert(fields_view(map@) =~= Seq::<(Seq<char>, SpecValue)>::empty());
                    }
                    return Ok(Value::Object(map));
                }
            },
            None => {},
        }
        proof {
            assert(fields_view(map@) =~= Seq::<(Seq<char>, SpecValue)>::empty());
        }
        loop
            invariant_except_break
                self.ready(),
                self.input@ == s,
                *self.cfg == cfg,
                old(self).input@ == s,
                *old(self).cfg == cfg,
                p0 == old(self).pos,
                s == self.input@,
                cfg == *self.cfg,
                p0 < self.pos,
                spec_parse_value(s, p0, cfg) == as_object(
                    spec_parse_entries(s, self.pos as int, fields_view(map@), cfg),
                ),
            ensures
                self.ready(),
                self.input@ == s,
                *self.cfg == cfg,
                old(self).input@ == s,
                *old(self).cfg == cfg,
                p0 == old(self).pos,
                spec_parse_value(s, p0, cfg) == Ok::<(SpecValue, int), ParseError>(
                    (SpecValue::Object(fields_view(map@)), self.pos as int),
                ),
            decreases self.input@.len() - self.pos,
        {
            let ghost q = self.pos as int;
            let stops = [(self.cfg.kv_sep as u32) as u8, (self.cfg.obj_close as u32) as u8];
            assert(stops@ == entry_key_stops(cfg));
            let key = self.read_scalar(stops.as_slice());
            proof {
                lemma_read_scalar_end(s, q, cfg.escape, entry_key_stops(cfg));
            }
            match self.expect(self.cfg.kv_sep) {
                Ok(()) => {},
                Err(e) => {
                    return Err(e);
                },
            }
            let ghost e1 = self.pos as int - 1;
            let val = match self.parse_value() {
                Ok(v) => v,
                Err(e) => {
                    return Err(e);
                },
            };
            proof {
                lemma_value_end(s, e1 + 1, cfg);
            }
            insert_entry(&mut map, key, val);
            match self.peek() {
                Some(b) => {
                    if b == self.cfg.field_sep {
                        self.advance();
                    } else if b == self.cfg.obj_close {
                        self.advance();
                        break;
                    } else {
                        return Err(
                            ParseError::UnexpectedInObject {
                                found: lead_byte_of(b),
                                pos: byte_offset_of(self.input, self.pos),
                            },
                        );
                    }
                },
                None => {
                    return Err(ParseError::UnterminatedObject);
                },
            }
        }
        proof {
            lemma_object_view(map);
        }
        Ok(Value::Object(map))
    }

    /// Parses a record from the position: fields `key=value` separated by
    /// `field_sep`, up to the end of the text or an empty key (see
    /// [`spec_parse_record`]).
    pub fn parse_record(&mut self) -> (res: Result<Vec<(String, Value)>, ParseError>)
        requires
            old(self).ready(),
        ensures
            final(self).text() == old(self).text(),
            final(self).config() == old(self).config(),
            match spec_parse_record(old(self).text(), old(self).position(), Seq::empty(), old(self).config()) {
                Ok(fields) => res matches Ok(v) && fields_view(v@) == fields,
                Err(err) => res == Err::<Vec<(String, Value)>, ParseError>(err),
            },
    {
        let ghost s = self.input@;
        let ghost p0 = self.pos as int;
        let ghost cfg = *self.cfg;
        let mut fields: Vec<(String, Value)> = Vec::new();
        proof {
            assert(fields_view(fields@) =~= Seq::<(Seq<char>, SpecValue)>::empty());
        }
        while self.pos < self.input.len()
            invariant_except_break
                self.ready(),
                self.input@ == s,
                *self.cfg == cfg,
                old(self).input@ == s,
                *old(self).cfg == cfg,
                p0 == old(self).pos,
                s == self.input@,
                cfg == *self.cfg,
                spec_parse_record(s, p0, Seq::empty(), cfg) == spec_parse_record(
                    s,
                    self.pos as int,
                    fields_view(fields@),
                    cfg,
                ),
            ensures
                self.input@ == s,
                *self.cfg == cfg,
                old(self).input@ == s,
                *old(self).cfg == cfg,
                p0 == old(self).pos,
                spec_parse_record(s, p0, Seq::empty(), cfg) == Ok::<
                    Seq<(Seq<char>, SpecValue)>,
                    ParseError,
                >(fields_view(fields@)),
            decreases self.input@.len() - self.pos,
        {
            let ghost q = self.pos as int;
            match self.peek() {
                Some(b) => {
                    if b == self.cfg.field_sep {
                        self.advance();
                        continue;
                    }
                },
                None => {},
            }
            let stops = [(self.cfg.kv_sep as u32) as u8];
            assert(stops@ == record_key_stops(cfg));
            let key = self.read_scalar(stops.as_slice());
            if key.as_str().is_empty() {
                break;
            }
            proof {
                lemma_read_scalar_end(s, q, cfg.escape, record_key_stops(cfg));
            }
            match self.expect(self.cfg.kv_sep) {
                Ok(()) => {},
                Err(e) => {
                    return Err(e);
                },
            }
            let ghost e1 = self.pos as int - 1;
            let val = match self.parse_value() {
                Ok(v) => v,
                Err(e) => {
                    return Err(e);
                },
            };
            proof {
                lemma_value_end(s, e1 + 1, cfg);
            }
            let ghost before = fields_view(fields@);
            let ghost kv = key@;
            let ghost vv = val@;
            fields.push((key, val));
            proof {
                assert(fields_view(fields@) =~= before.push((kv, vv)));
            }
            match self.peek() {
                Some(b) => {
                    if b == self.cfg.field_sep {
                        self.advance();
                    }
                },
                None => {},
            }
        }
        Ok(fields)
    }
}

/// Parses a whole text as a record with the configuration `cfg`, whose
/// delimiters are ASCII. The text's UTF-8 length is below `usize::MAX`, so
/// that a position one past its end can be held.
pub fn parse_record_str(s: &str, cfg: &FormatConfig) -> (res: Result<Vec<(String, Value)>, ParseError>)
    requires
        vstd::utf8::encode_utf8(s@).len() < usize::MAX,
        cfg.ascii_delimiters(),
    ensures
        match spec_parse_record(s@, 0, Seq::empty(), *cfg) {
            Ok(fields) => res matches Ok(v) && fields_view(v@) == fields,
            Err(err) => res == Err::<Vec<(String, Value)>, ParseError>(err),
        },
{
    let chars = chars_of(s);
    let mut parser = Parser::new(chars.as_slice(), cfg);
    parser.parse_record()
}


/// The message of each parse error: the expected and found chars shown with
/// `{:?}` (a found byte as the char with that code) and the byte position in
/// decimal.
pub proof fn lemma_parse_messages(expected: char, found: u8, pos: usize)
    ensures
        parse_error_message(ParseError::Expected { expected, found, pos }) == "Expected "@ + char_debug(expected)
            + " but got "@ + char_debug(found as char) + " at pos "@ + nat_text(pos as nat),
        parse_error_message(ParseError::ExpectedEof { expected }) == "Expected "@ + char_debug(expected)
            + " but got EOF"@,
        parse_error_message(ParseError::UnexpectedInList { found, pos }) == "Unexpected "@ + char_debug(
            found as char,
        ) + " in list at pos "@ + nat_text(pos as nat),
        parse_error_message(ParseError::UnterminatedList) == "Unterminated list"@,
        parse_error_message(ParseError::UnexpectedInObject { found, pos }) == "Unexpected "@ + char_debug(
            found as char,
        ) + " in object at pos "@ + nat_text(pos as nat),
        parse_error_message(ParseError::UnterminatedObject) == "Unterminated object"@,
{
}

} // verus!
