use vstd::prelude::*;

use crate::text::{char_debug, chars_of, debug_char, debug_str, str_debug};

verus! {

/// Names the eight delimiter settings of a [`FormatConfig`], in the order
/// in which they are checked.
#[derive(Debug, Clone, Copy, PartialEq, Eq)]
pub enum Delimiter {
    FieldSep,
    KvSep,
    ListOpen,
    ListClose,
    ListSep,
    ObjOpen,
    ObjClose,
    Escape,
}

/// Names the three sentinel strings of a [`FormatConfig`].
#[derive(Debug, Clone, Copy, PartialEq, Eq)]
pub enum Sentinel {
    Null,
    True,
    False,
}

/// Why a [`FormatConfig`] was refused.
#[derive(Debug, Clone, Copy, PartialEq, Eq)]
pub enum ConfigError {
    /// A delimiter is not an ASCII character.
    NotAscii { delimiter: Delimiter, ch: char },
    /// Two delimiters are the same character.
    Conflict { earlier: Delimiter, later: Delimiter, ch: char },
    /// A sentinel string is empty.
    EmptySentinel { sentinel: Sentinel },
    /// Two sentinel strings are equal.
    SameSentinels { first: Sentinel, second: Sentinel },
    /// A sentinel string holds a delimiter character.
    DelimiterInSentinel { sentinel: Sentinel, ch: char },
}

/// The delimiter at position `i` of the checking order.
pub open spec fn delimiter_at(i: int) -> Delimiter {
    if i == 0 {
        Delimiter::FieldSep
    } else if i == 1 {
        Delimiter::KvSep
    } else if i == 2 {
        Delimiter::ListOpen
    } else if i == 3 {
        Delimiter::ListClose
    } else if i == 4 {
        Delimiter::ListSep
    } else if i == 5 {
        Delimiter::ObjOpen
    } else if i == 6 {
        Delimiter::ObjClose
    } else {
        Delimiter::Escape
    }
}

/// The sentinel at position `i` of the checking order.
pub open spec fn sentinel_at(i: int) -> Sentinel {
    if i == 0 {
        Sentinel::Null
    } else if i == 1 {
        Sentinel::True
    } else {
        Sentinel::False
    }
}

fn delimiter_from_index(i: usize) -> (d: Delimiter)
    ensures
        d == delimiter_at(i as int),
{
    if i == 0 {
        Delimiter::FieldSep
    } else if i == 1 {
        Delimiter::KvSep
    } else if i == 2 {
        Delimiter::ListOpen
    } else if i == 3 {
        Delimiter::ListClose
    } else if i == 4 {
        Delimiter::ListSep
    } else if i == 5 {
        Delimiter::ObjOpen
    } else if i == 6 {
        Delimiter::ObjClose
    } else {
        Delimiter::Escape
    }
}

fn sentinel_from_index(i: usize) -> (s: Sentinel)
    ensures
        s == sentinel_at(i as int),
{
    if i == 0 {
        Sentinel::Null
    } else if i == 1 {
        Sentinel::True
    } else {
        Sentinel::False
    }
}

/// The name of a delimiter setting.
pub open spec fn delimiter_name(d: Delimiter) -> Seq<char> {
    match d {
        Delimiter::FieldSep => "field_sep"@,
        Delimiter::KvSep => "kv_sep"@,
        Delimiter::ListOpen => "list_open"@,
        Delimiter::ListClose => "list_close"@,
        Delimiter::ListSep => "list_sep"@,
        Delimiter::ObjOpen => "obj_open"@,
        Delimiter::ObjClose => "obj_close"@,
        Delimiter::Escape => "escape"@,
    }
}

/// The name of a sentinel setting.
pub open spec fn sentinel_name(s: Sentinel) -> Seq<char> {
    match s {
        Sentinel::Null => "null_str"@,
        Sentinel::True => "true_str"@,
        Sentinel::False => "false_str"@,
    }
}

/// The message of a configuration error.
pub open spec fn config_error_message(e: ConfigError) -> Seq<char> {
    match e {
        ConfigError::NotAscii { delimiter, ch } => "'"@ + delimiter_name(delimiter)
            + "' must be an ASCII character, got "@ + char_debug(ch),
        ConfigError::Conflict { earlier, later, ch } => "Delimiter conflict: '"@ + delimiter_name(earlier)
            + "' and '"@ + delimiter_name(later) + "' are both "@ + char_debug(ch),
        ConfigError::EmptySentinel { sentinel } => "'"@ + sentinel_name(sentinel) + "' must not be empty"@,
        ConfigError::SameSentinels { first, second } => sentinel_name(first) + " and "@ + sentinel_name(
            second,
        ) + " must be different"@,
        ConfigError::DelimiterInSentinel { sentinel, ch } => "'"@ + sentinel_name(sentinel)
            + "' contains delimiter character "@ + char_debug(ch),
    }
}

impl ConfigError {
    /// The error's message.
    pub fn message(&self) -> (m: String)
        ensures
            m@ == config_error_message(*self),
    {
        match self {
            ConfigError::NotAscii { delimiter, ch } => {
                let mut m = String::from_str("'");
                m.append(delimiter.name());
                m.append("' must be an ASCII character, got ");
                let d = debug_char(*ch);
                m.append(d.as_str());
                m
            },
            ConfigError::Conflict { earlier, later, ch } => {
                let mut m = String::from_str("Delimiter conflict: '");
                m.append(earlier.name());
                m.append("' and '");
                m.append(later.name());
                m.append("' are both ");
                let d = debug_char(*ch);
                m.append(d.as_str());
                m
            },
            ConfigError::EmptySentinel { sentinel } => {
                let mut m = String::from_str("'");
                m.append(sentinel.name());
                m.append("' must not be empty");
                m
            },
            ConfigError::SameSentinels { first, second } => {
                let mut m = String::from_str(first.name());
                m.append(" and ");
                m.append(second.name());
                m.append(" must be different");
                m
            },
            ConfigError::DelimiterInSentinel { sentinel, ch } => {
                let mut m = String::from_str("'");
                m.append(sentinel.name());
                m.append("' contains delimiter character ");
                let d = debug_char(*ch);
                m.append(d.as_str());
                m
            },
        }
    }
}

impl Delimiter {
    /// The setting's name, as the keyword argument is called.
    pub fn name(&self) -> (n: &'static str)
        ensures
            n@ == delimiter_name(*self),
    {
        match self {
            Delimiter::FieldSep => "field_sep",
            Delimiter::KvSep => "kv_sep",
            Delimiter::ListOpen => "list_open",
            Delimiter::ListClose => "list_close",
            Delimiter::ListSep => "list_sep",
            Delimiter::ObjOpen => "obj_open",
            Delimiter::ObjClose => "obj_close",
            Delimiter::Escape => "escape",
        }
    }
}

impl Sentinel {
    /// The setting's name, as the keyword argument is called.
    pub fn name(&self) -> (n: &'static str)
        ensures
            n@ == sentinel_name(*self),
    {
        match self {
            Sentinel::Null => "null_str",
            Sentinel::True => "true_str",
            Sentinel::False => "false_str",
        }
    }
}

/// The first index `i >= from` at which `d[i]` is not ASCII.
pub open spec fn first_non_ascii(d: Seq<char>, from: int) -> Option<int>
    decreases d.len() - from,
{
    if from < 0 || from >= d.len() {
        None
    } else if (d[from] as u32) >= 128 {
        Some(from)
    } else {
        first_non_ascii(d, from + 1)
    }
}

/// The first index `i` with `from <= i < end` and `d[i] == c`.
pub open spec fn first_match(d: Seq<char>, c: char, from: int, end: int) -> Option<int>
    decreases end - from,
{
    if from < 0 || from >= end {
        None
    } else if d[from] == c {
        Some(from)
    } else {
        first_match(d, c, from + 1, end)
    }
}

/// The first `j >= from` such that `d[j]` equals an earlier `d[i]`, with that `i`.
pub open spec fn first_conflict(d: Seq<char>, from: int) -> Option<(int, int)>
    decreases d.len() - from,
{
    if from < 0 || from >= d.len() {
        None
    } else {
        match first_match(d, d[from], 0, from) {
            Some(i) => Some((i, from)),
            None => first_conflict(d, from + 1),
        }
    }
}

/// The first index `k >= from` at which `s[k]` is empty.
pub open spec fn first_empty(s: Seq<Seq<char>>, from: int) -> Option<int>
    decreases s.len() - from,
{
    if from < 0 || from >= s.len() {
        None
    } else if s[from].len() == 0 {
        Some(from)
    } else {
        first_empty(s, from + 1)
    }
}

/// The first index `i >= from` such that `t[i]` is one of `d`.
pub open spec fn first_in(t: Seq<char>, d: Seq<char>, from: int) -> Option<int>
    decreases t.len() - from,
{
    if from < 0 || from >= t.len() {
        None
    } else if d.contains(t[from]) {
        Some(from)
    } else {
        first_in(t, d, from + 1)
    }
}

/// The first sentinel `k >= from` holding a character of `d`, with that character.
pub open spec fn first_sentinel_with_delimiter(s: Seq<Seq<char>>, d: Seq<char>, from: int) -> Option<(int, char)>
    decreases s.len() - from,
{
    if from < 0 || from >= s.len() {
        None
    } else {
        match first_in(s[from], d, 0) {
            Some(i) => Some((from, s[from][i])),
            None => first_sentinel_with_delimiter(s, d, from + 1),
        }
    }
}

/// The first check that the delimiters `d` and the sentinels `s` fail, in the
/// order in which [`FormatConfig::new`] checks them; `None` when all pass.
pub open spec fn settings_error(d: Seq<char>, s: Seq<Seq<char>>) -> Option<ConfigError> {
    match first_non_ascii(d, 0) {
        Some(i) => Some(ConfigError::NotAscii { delimiter: delimiter_at(i), ch: d[i] }),
        None => match first_conflict(d, 0) {
            Some((i, j)) => Some(
                ConfigError::Conflict { earlier: delimiter_at(i), later: delimiter_at(j), ch: d[j] },
            ),
            None => match first_empty(s, 0) {
                Some(k) => Some(ConfigError::EmptySentinel { sentinel: sentinel_at(k) }),
                None => if s[0] == s[1] {
                    Some(ConfigError::SameSentinels { first: Sentinel::Null, second: Sentinel::True })
                } else if s[0] == s[2] {
                    Some(ConfigError::SameSentinels { first: Sentinel::Null, second: Sentinel::False })
                } else if s[1] == s[2] {
                    Some(ConfigError::SameSentinels { first: Sentinel::True, second: Sentinel::False })
                } else {
                    match first_sentinel_with_delimiter(s, d, 0) {
                        Some((k, c)) => Some(
                            ConfigError::DelimiterInSentinel { sentinel: sentinel_at(k), ch: c },
                        ),
                        None => None,
                    }
                },
            },
        },
    }
}

/// The first check that the given settings fail, as [`settings_error`] on them.
pub open spec fn arguments_error(
    field_sep: char,
    kv_sep: char,
    list_open: char,
    list_close: char,
    list_sep: char,
    obj_open: char,
    obj_close: char,
    escape: char,
    null_str: Seq<char>,
    true_str: Seq<char>,
    false_str: Seq<char>,
) -> Option<ConfigError> {
    settings_error(
        seq![field_sep, kv_sep, list_open, list_close, list_sep, obj_open, obj_close, escape],
        seq![null_str, true_str, false_str],
    )
}

/// True when the ASCII code `i` is one of the delimiters `d`.
pub open spec fn is_special_code(d: Seq<char>, i: int) -> bool {
    exists|j: int| 0 <= j < d.len() && d[j] as u32 == i
}

/// Settings of the text format: eight delimiter characters and three
/// sentinel strings, with two lookup tables derived from them.
#[derive(Debug, Clone)]
pub struct FormatConfig {
    pub field_sep: char,
    pub kv_sep: char,
    pub list_open: char,
    pub list_close: char,
    pub list_sep: char,
    pub obj_open: char,
    pub obj_close: char,
    pub escape: char,
    pub null_str: String,
    pub true_str: String,
    pub false_str: String,
    /// Indexed by ASCII code: true for the codes that must be escaped.
    pub special_table: [bool; 256],
    /// The characters at which an unescaped scalar ends, as ASCII bytes.
    pub scalar_stop: [u8; 5],
}

impl FormatConfig {
    /// The eight delimiters, in checking order.
    pub open spec fn delimiters(self) -> Seq<char> {
        seq![
            self.field_sep,
            self.kv_sep,
            self.list_open,
            self.list_close,
            self.list_sep,
            self.obj_open,
            self.obj_close,
            self.escape,
        ]
    }

    /// The three sentinel strings: for null, true and false.
    pub open spec fn sentinels(self) -> Seq<Seq<char>> {
        seq![self.null_str@, self.true_str@, self.false_str@]
    }

    /// The bytes at which a scalar ends, as `new` computes them.
    pub open spec fn stop_bytes(self) -> Seq<u8> {
        seq![
            self.field_sep as u32 as u8,
            self.kv_sep as u32 as u8,
            self.list_sep as u32 as u8,
            self.list_close as u32 as u8,
            self.obj_close as u32 as u8,
        ]
    }

    /// The lookup tables hold what `new` derives from the delimiters.
    pub open spec fn tables_match(self) -> bool {
        &&& forall|i: int|
            0 <= i < 256 ==> self.special_table@[i] == is_special_code(self.delimiters(), i)
        &&& self.scalar_stop@ == self.stop_bytes()
    }

    /// The delimiters and the scalar stop bytes are all ASCII, as the parser
    /// needs: it compares each char of the text with the delimiters, and the
    /// format's positions and stop bytes are defined on single-byte
    /// delimiters.
    pub open spec fn ascii_delimiters(self) -> bool {
        &&& forall|i: int| 0 <= i < 8 ==> (#[trigger] self.delimiters()[i] as u32) < 128
        &&& forall|i: int| 0 <= i < 5 ==> #[trigger] self.scalar_stop@[i] < 128
    }

    /// Whether the delimiters and the scalar stop bytes are all ASCII (see
    /// [`FormatConfig::ascii_delimiters`]). Settings may be changed field by
    /// field after `new`, so a caller of the parser tests this first.
    pub fn has_ascii_delimiters(&self) -> (b: bool)
        ensures
            b == self.ascii_delimiters(),
    {
        let d = self.special_chars();
        let mut i: usize = 0;
        while i < 8
            invariant
                0 <= i <= 8,
                d@ == self.delimiters(),
                forall|j: int| 0 <= j < i ==> (#[trigger] self.delimiters()[j] as u32) < 128,
            decreases 8 - i,
        {
            if (d[i] as u32) >= 128 {
                return false;
            }
            i = i + 1;
        }
        let mut k: usize = 0;
        while k < 5
            invariant
                0 <= k <= 5,
                forall|j: int| 0 <= j < 8 ==> (#[trigger] self.delimiters()[j] as u32) < 128,
                forall|j: int| 0 <= j < k ==> #[trigger] self.scalar_stop@[j] < 128,
            decreases 5 - k,
        {
            if self.scalar_stop[k] >= 128 {
                return false;
            }
            k = k + 1;
        }
        true
    }

    /// The configuration is one that `new` returns.
    pub open spec fn wf(self) -> bool {
        &&& settings_error(self.delimiters(), self.sentinels()) is None
        &&& self.tables_match()
    }

    /// Validates the settings and builds a configuration with its lookup tables.
    /// Fails with the first check, in a fixed order, that the settings fail.
    pub fn new(
        field_sep: char,
        kv_sep: char,
        list_open: char,
        list_close: char,
        list_sep: char,
        obj_open: char,
        obj_close: char,
        escape: char,
        null_str: String,
        true_str: String,
        false_str: String,
    ) -> (res: Result<FormatConfig, ConfigError>)
        ensures
            res matches Err(e) ==> arguments_error(
                field_sep, kv_sep, list_open, list_close, list_sep, obj_open, obj_close, escape,
                null_str@, true_str@, false_str@,
            ) == Some(e),
            res matches Ok(cfg) ==> {
                &&& settings_error(cfg.delimiters(), cfg.sentinels()) is None
                &&& cfg.delimiters() == seq![field_sep, kv_sep, list_open, list_close, list_sep, obj_open, obj_close, escape]
                &&& cfg.sentinels() == seq![null_str@, true_str@, false_str@]
                &&& cfg.wf()
                &&& cfg.ascii_delimiters()
            },
    {
        let delims: [char; 8] = [field_sep, kv_sep, list_open, list_close, list_sep, obj_open, obj_close, escape];
        let ghost d = seq![field_sep, kv_sep, list_open, list_close, list_sep, obj_open, obj_close, escape];
        let ghost s = seq![null_str@, true_str@, false_str@];
        assert(delims@ == d);
        assert(arguments_error(field_sep, kv_sep, list_open, list_close, list_sep, obj_open, obj_close, escape,
            null_str@, true_str@, false_str@) == settings_error(d, s));

        // All delimiters must be ASCII.
        let mut i: usize = 0;
        while i < 8
            invariant
                0 <= i <= 8,
                delims@ == d,
                arguments_error(field_sep, kv_sep, list_open, list_close, list_sep, obj_open, obj_close, escape,
                    null_str@, true_str@, false_str@) == settings_error(d, s),
                first_non_ascii(d, 0) == first_non_ascii(d, i as int),
            decreases 8 - i,
        {
            if (delims[i] as u32) >= 128 {
                assert(first_non_ascii(d, i as int) == Some(i as int));
                return Err(ConfigError::NotAscii { delimiter: delimiter_from_index(i), ch: delims[i] });
            }
            i = i + 1;
        }

        // No two delimiters may be the same character.
        let mut j: usize = 0;
        while j < 8
            invariant
                0 <= j <= 8,
                delims@ == d,
                arguments_error(field_sep, kv_sep, list_open, list_close, list_sep, obj_open, obj_close, escape,
                    null_str@, true_str@, false_str@) == settings_error(d, s),
                first_non_ascii(d, 0) is None,
                first_conflict(d, 0) == first_conflict(d, j as int),
            decreases 8 - j,
        {
            let mut k: usize = 0;
            while k < j
                invariant
                    0 <= k <= j < 8,
                    delims@ == d,
                    arguments_error(field_sep, kv_sep, list_open, list_close, list_sep, obj_open, obj_close, escape,
                        null_str@, true_str@, false_str@) == settings_error(d, s),
                    first_non_ascii(d, 0) is None,
                    first_conflict(d, 0) == first_conflict(d, j as int),
                    first_match(d, d[j as int], 0, j as int) == first_match(d, d[j as int], k as int, j as int),
                decreases j - k,
            {
                if delims[k] == delims[j] {
                    assert(first_match(d, d[j as int], 0, j as int) == Some(k as int));
                    assert(first_conflict(d, j as int) == Some((k as int, j as int)));
                    return Err(
                        ConfigError::Conflict {
                            earlier: delimiter_from_index(k),
                            later: delimiter_from_index(j),
                            ch: delims[j],
                        },
                    );
                }
                k = k + 1;
            }
            assert(first_match(d, d[j as int], 0, j as int) is None);
            j = j + 1;
        }

        let null_chars = chars_of(null_str.as_str());
        let true_chars = chars_of(true_str.as_str());
        let false_chars = chars_of(false_str.as_str());
        assert(first_non_ascii(d, 0) is None && first_conflict(d, 0) is None);
        assert(s[0] == null_chars@ && s[1] == true_chars@ && s[2] == false_chars@);

        // Sentinel strings must not be empty.
        if null_chars.len() == 0 {
            assert(first_empty(s, 0) == Some(0int));
            assert(settings_error(d, s) == Some(ConfigError::EmptySentinel { sentinel: Sentinel::Null }));
            return Err(ConfigError::EmptySentinel { sentinel: Sentinel::Null });
        }
        if true_chars.len() == 0 {
            assert(first_empty(s, 1) == Some(1int));
            assert(first_empty(s, 0) == Some(1int));
            assert(settings_error(d, s) == Some(ConfigError::EmptySentinel { sentinel: Sentinel::True }));
            return Err(ConfigError::EmptySentinel { sentinel: Sentinel::True });
        }
        if false_chars.len() == 0 {
            assert(first_empty(s, 2) == Some(2int));
            assert(first_empty(s, 1) == Some(2int));
            assert(first_empty(s, 0) == Some(2int));
            assert(settings_error(d, s) == Some(ConfigError::EmptySentinel { sentinel: Sentinel::False }));
            return Err(ConfigError::EmptySentinel { sentinel: Sentinel::False });
        }
        assert(first_empty(s, 0) is None) by {
            assert(first_empty(s, 3) is None);
        }

        // Sentinel strings must differ from each other.
        if null_str == true_str {
            return Err(ConfigError::SameSentinels { first: Sentinel::Null, second: Sentinel::True });
        }
        if null_str == false_str {
            return Err(ConfigError::SameSentinels { first: Sentinel::Null, second: Sentinel::False });
        }
        if true_str == false_str {
            return Err(ConfigError::SameSentinels { first: Sentinel::True, second: Sentinel::False });
        }

        // Sentinel strings must not hold a delimiter.
        match first_delimiter_in(&null_chars, &delims) {
            Some(c) => {
                return Err(ConfigError::DelimiterInSentinel { sentinel: Sentinel::Null, ch: c });
            },
            None => {},
        }
        match first_delimiter_in(&true_chars, &delims) {
            Some(c) => {
                assert(first_sentinel_with_delimiter(s, d, 1) == Some((1int, c)));
                assert(first_sentinel_with_delimiter(s, d, 0) == Some((1int, c)));
                return Err(ConfigError::DelimiterInSentinel { sentinel: Sentinel::True, ch: c });
            },
            None => {},
        }
        match first_delimiter_in(&false_chars, &delims) {
            Some(c) => {
                assert(first_sentinel_with_delimiter(s, d, 2) == Some((2int, c)));
                assert(first_sentinel_with_delimiter(s, d, 1) == Some((2int, c)));
                assert(first_sentinel_with_delimiter(s, d, 0) == Some((2int, c)));
                return Err(ConfigError::DelimiterInSentinel { sentinel: Sentinel::False, ch: c });
            },
            None => {},
        }
        assert(first_sentinel_with_delimiter(s, d, 0) is None) by {
            assert(first_sentinel_with_delimiter(s, d, 3) is None);
        }

        // The lookup table of characters to escape.
        let mut special_table = [false; 256];
        let mut m: usize = 0;
        while m < 8
            invariant
                0 <= m <= 8,
                delims@ == d,
                first_non_ascii(d, 0) is None,
                forall|c: int|
                    0 <= c < 256 ==> special_table@[c] == exists|x: int|
                        0 <= x < m && d[x] as u32 == c,
            decreases 8 - m,
        {
            assert(first_non_ascii(d, 0) is None ==> (d[m as int] as u32) < 128) by {
                lemma_first_non_ascii(d, 0);
            }
            let code = (delims[m] as u32) as usize;
            special_table[code] = true;
            m = m + 1;
        }
        proof {
            assert forall|c: int| 0 <= c < 256 implies special_table@[c] == is_special_code(d, c) by {
                if special_table@[c] {
                    let x = choose|x: int| 0 <= x < 8 && d[x] as u32 == c;
                    assert(0 <= x < d.len() && d[x] as u32 == c);
                }
            }
        }

        assert((field_sep as u32) < 128 && (kv_sep as u32) < 128 && (list_sep as u32) < 128
            && (list_close as u32) < 128 && (obj_close as u32) < 128) by {
            lemma_first_non_ascii(d, 0);
            assert(d[0] == field_sep && d[1] == kv_sep && d[4] == list_sep && d[3] == list_close && d[6] == obj_close);
        }
        let scalar_stop: [u8; 5] = [
            (field_sep as u32) as u8,
            (kv_sep as u32) as u8,
            (list_sep as u32) as u8,
            (list_close as u32) as u8,
            (obj_close as u32) as u8,
        ];

        let cfg = FormatConfig {
            field_sep,
            kv_sep,
            list_open,
            list_close,
            list_sep,
            obj_open,
            obj_close,
            escape,
            null_str,
            true_str,
            false_str,
            special_table,
            scalar_stop,
        };
        assert(cfg.delimiters() == d);
        assert(cfg.sentinels() == s);
        proof {
            lemma_wf_ascii(cfg);
        }
        Ok(cfg)
    }

    /// The text that shows the settings: each named, with `{:?}` for its value.
    pub open spec fn repr_text(self) -> Seq<char> {
        "FormatConfig(field_sep="@ + char_debug(self.field_sep) + ", kv_sep="@ + char_debug(self.kv_sep) + ", list_open="@ + char_debug(self.list_open) + ", list_close="@ + char_debug(self.list_close) + ", list_sep="@ + char_debug(self.list_sep) + ", obj_open="@ + char_debug(self.obj_open) + ", obj_close="@ + char_debug(self.obj_close) + ", escape="@ + char_debug(self.escape) + ", null_str="@ + str_debug(self.null_str@) + ", true_str="@ + str_debug(self.true_str@) + ", false_str="@ + str_debug(self.false_str@) + ")"@
    }

    /// Shows the settings, as `FormatConfig(field_sep=';', ...)`.
    pub fn repr(&self) -> (m: String)
        ensures
            m@ == self.repr_text(),
    {
        let mut m = String::new();
        m.append("FormatConfig(field_sep=");
        let d = debug_char(self.field_sep);
        m.append(d.as_str());
        m.append(", kv_sep=");
        let d = debug_char(self.kv_sep);
        m.append(d.as_str());
        m.append(", list_open=");
        let d = debug_char(self.list_open);
        m.append(d.as_str());
        m.append(", list_close=");
        let d = debug_char(self.list_close);
        m.append(d.as_str());
        m.append(", list_sep=");
        let d = debug_char(self.list_sep);
        m.append(d.as_str());
        m.append(", obj_open=");
        let d = debug_char(self.obj_open);
        m.append(d.as_str());
        m.append(", obj_close=");
        let d = debug_char(self.obj_close);
        m.append(d.as_str());
        m.append(", escape=");
        let d = debug_char(self.escape);
        m.append(d.as_str());
        m.append(", null_str=");
        let d = debug_str(self.null_str.as_str());
        m.append(d.as_str());
        m.append(", true_str=");
        let d = debug_str(self.true_str.as_str());
        m.append(d.as_str());
        m.append(", false_str=");
        let d = debug_str(self.false_str.as_str());
        m.append(d.as_str());
        m.append(")");
        proof {
            assert(Seq::<char>::empty() + "FormatConfig(field_sep="@ =~= "FormatConfig(field_sep="@);
        }
        m
    }

    /// The eight delimiter characters, in checking order.
    pub fn special_chars(&self) -> (out: Vec<char>)
        ensures
            out@ == self.delimiters(),
    {
        let out = vec![
            self.field_sep,
            self.kv_sep,
            self.list_open,
            self.list_close,
            self.list_sep,
            self.obj_open,
            self.obj_close,
            self.escape,
        ];
        assert(out@ == self.delimiters());
        out
    }
}

pub proof fn lemma_first_non_ascii(d: Seq<char>, from: int)
    requires
        0 <= from,
        first_non_ascii(d, from) is None,
    ensures
        forall|i: int| from <= i < d.len() ==> (d[i] as u32) < 128,
    decreases d.len() - from,
{
    if from < d.len() {
        lemma_first_non_ascii(d, from + 1);
    }
}

/// The first character of `t` that is one of the delimiters `d`.
fn first_delimiter_in(t: &Vec<char>, d: &[char; 8]) -> (res: Option<char>)
    ensures
        match first_in(t@, d@, 0) {
            Some(i) => res == Some(t@[i]),
            None => res is None,
        },
{
    let mut i: usize = 0;
    while i < t.len()
        invariant
            0 <= i <= t.len(),
            first_in(t@, d@, 0) == first_in(t@, d@, i as int),
        decreases t.len() - i,
    {
        let c = t[i];
        let mut j: usize = 0;
        while j < 8
            invariant
                0 <= j <= 8,
                0 <= i < t.len(),
                c == t@[i as int],
                first_in(t@, d@, 0) == first_in(t@, d@, i as int),
                forall|x: int| 0 <= x < j ==> d@[x] != c,
            decreases 8 - j,
        {
            if d[j] == c {
                assert(d@[j as int] == t@[i as int]);
                assert(d@.contains(t@[i as int]));
                assert(first_in(t@, d@, i as int) == Some(i as int));
                return Some(c);
            }
            j = j + 1;
        }
        assert(!d@.contains(t@[i as int]));
        i = i + 1;
    }
    None
}

impl Default for FormatConfig {
    /// The default settings: `; = [ ] | { } \` with `null`, `true` and `false`.
    fn default() -> (cfg: Self)
        ensures
            cfg.wf(),
            cfg.ascii_delimiters(),
            cfg.delimiters() == seq![';', '=', '[', ']', '|', '{', '}', '\\'],
            cfg.sentinels() == seq![seq!['n', 'u', 'l', 'l'], seq!['t', 'r', 'u', 'e'], seq!['f', 'a', 'l', 's', 'e']],
    {
        let null_str = String::from_str("null");
        let true_str = String::from_str("true");
        let false_str = String::from_str("false");
        proof {
            reveal_strlit("null");
            reveal_strlit("true");
            reveal_strlit("false");
            assert(null_str@ =~= seq!['n', 'u', 'l', 'l']);
            assert(true_str@ =~= seq!['t', 'r', 'u', 'e']);
            assert(false_str@ =~= seq!['f', 'a', 'l', 's', 'e']);
        }
        let ghost d = seq![';', '=', '[', ']', '|', '{', '}', '\\'];
        let ghost s = seq![null_str@, true_str@, false_str@];
        proof {
            lemma_default_settings_valid(d, s);
        }
        let res = FormatConfig::new(';', '=', '[', ']', '|', '{', '}', '\\', null_str, true_str, false_str);
        res.unwrap()
    }
}

proof fn lemma_default_settings_valid(d: Seq<char>, s: Seq<Seq<char>>)
    requires
        d == seq![';', '=', '[', ']', '|', '{', '}', '\\'],
        s == seq![seq!['n', 'u', 'l', 'l'], seq!['t', 'r', 'u', 'e'], seq!['f', 'a', 'l', 's', 'e']],
    ensures
        settings_error(d, s) is None,
{
    reveal_with_fuel(first_non_ascii, 9);
    reveal_with_fuel(first_conflict, 9);
    reveal_with_fuel(first_match, 9);
    reveal_with_fuel(first_empty, 4);
    reveal_with_fuel(first_sentinel_with_delimiter, 4);
    reveal_with_fuel(first_in, 6);
    assert(s[0] != s[1]);
    assert(s[0] != s[2]);
    assert(s[1] != s[2]);
    assert(!d.contains('n') && !d.contains('u') && !d.contains('l'));
    assert(!d.contains('t') && !d.contains('r') && !d.contains('e'));
    assert(!d.contains('f') && !d.contains('a') && !d.contains('s'));
}


proof fn lemma_first_match_none(d: Seq<char>, c: char, from: int, end: int)
    requires
        0 <= from,
        first_match(d, c, from, end) is None,
    ensures
        forall|i: int| from <= i < end ==> d[i] != c,
    decreases end - from,
{
    if from < end {
        lemma_first_match_none(d, c, from + 1, end);
    }
}

proof fn lemma_first_conflict_none(d: Seq<char>, from: int)
    requires
        0 <= from,
        first_conflict(d, from) is None,
    ensures
        forall|i: int, j: int| 0 <= i < j && from <= j < d.len() ==> d[i] != d[j],
    decreases d.len() - from,
{
    if from < d.len() {
        lemma_first_match_none(d, d[from], 0, from);
        lemma_first_conflict_none(d, from + 1);
    }
}

proof fn lemma_first_empty_none(s: Seq<Seq<char>>, from: int)
    requires
        0 <= from,
        first_empty(s, from) is None,
    ensures
        forall|k: int| from <= k < s.len() ==> s[k].len() > 0,
    decreases s.len() - from,
{
    if from < s.len() {
        lemma_first_empty_none(s, from + 1);
    }
}

proof fn lemma_first_in_none(t: Seq<char>, d: Seq<char>, from: int)
    requires
        0 <= from,
        first_in(t, d, from) is None,
    ensures
        forall|i: int| from <= i < t.len() ==> !d.contains(t[i]),
    decreases t.len() - from,
{
    if from < t.len() {
        lemma_first_in_none(t, d, from + 1);
    }
}

proof fn lemma_first_sentinel_none(s: Seq<Seq<char>>, d: Seq<char>, from: int)
    requires
        0 <= from,
        first_sentinel_with_delimiter(s, d, from) is None,
    ensures
        forall|k: int, i: int| from <= k < s.len() && 0 <= i < s[k].len() ==> !d.contains(s[k][i]),
    decreases s.len() - from,
{
    if from < s.len() {
        lemma_first_in_none(s[from], d, 0);
        lemma_first_sentinel_none(s, d, from + 1);
    }
}

/// A configuration that `new` returns has ASCII delimiters and stop bytes.
pub proof fn lemma_wf_ascii(cfg: FormatConfig)
    requires
        cfg.wf(),
    ensures
        cfg.ascii_delimiters(),
{
    lemma_valid_settings(cfg);
    let d = cfg.delimiters();
    assert(cfg.scalar_stop@ == cfg.stop_bytes());
    assert((d[0] as u32) < 128 && (d[1] as u32) < 128 && (d[3] as u32) < 128 && (d[4] as u32) < 128
        && (d[6] as u32) < 128);
    assert forall|i: int| 0 <= i < 5 implies #[trigger] cfg.scalar_stop@[i] < 128 by {
        assert(cfg.stop_bytes()[i] == cfg.scalar_stop@[i]);
    }
}

/// What a configuration that `new` accepts guarantees: ASCII delimiters that
/// are pairwise distinct, and nonempty, pairwise distinct sentinels that hold
/// no delimiter.
pub proof fn lemma_valid_settings(cfg: FormatConfig)
    requires
        cfg.wf(),
    ensures
        forall|i: int| 0 <= i < 8 ==> (#[trigger] cfg.delimiters()[i] as u32) < 128,
        forall|i: int, j: int|
            0 <= i < j < 8 ==> #[trigger] cfg.delimiters()[i] != #[trigger] cfg.delimiters()[j],
        cfg.null_str@.len() > 0,
        cfg.true_str@.len() > 0,
        cfg.false_str@.len() > 0,
        cfg.null_str@ != cfg.true_str@,
        cfg.null_str@ != cfg.false_str@,
        cfg.true_str@ != cfg.false_str@,
        forall|k: int, i: int|
            0 <= k < 3 && 0 <= i < cfg.sentinels()[k].len() ==> !cfg.delimiters().contains(
                #[trigger] cfg.sentinels()[k][i],
            ),
{
    let d = cfg.delimiters();
    let s = cfg.sentinels();
    lemma_first_non_ascii(d, 0);
    lemma_first_conflict_none(d, 0);
    lemma_first_empty_none(s, 0);
    lemma_first_sentinel_none(s, d, 0);
    assert(s[0] == cfg.null_str@ && s[1] == cfg.true_str@ && s[2] == cfg.false_str@);
}


proof fn lemma_no_non_ascii(d: Seq<char>, from: int)
    requires
        0 <= from,
        forall|i: int| from <= i < d.len() ==> (d[i] as u32) < 128,
    ensures
        first_non_ascii(d, from) is None,
    decreases d.len() - from,
{
    if from < d.len() {
        lemma_no_non_ascii(d, from + 1);
    }
}

proof fn lemma_no_match(d: Seq<char>, c: char, from: int, end: int)
    requires
        0 <= from,
        forall|i: int| from <= i < end ==> d[i] != c,
    ensures
        first_match(d, c, from, end) is None,
    decreases end - from,
{
    if from < end {
        lemma_no_match(d, c, from + 1, end);
    }
}

proof fn lemma_no_conflict(d: Seq<char>, from: int)
    requires
        0 <= from,
        forall|i: int, j: int| 0 <= i < j < d.len() ==> d[i] != d[j],
    ensures
        first_conflict(d, from) is None,
    decreases d.len() - from,
{
    if from < d.len() {
        lemma_no_match(d, d[from], 0, from);
        lemma_no_conflict(d, from + 1);
    }
}

proof fn lemma_no_empty(s: Seq<Seq<char>>, from: int)
    requires
        0 <= from,
        forall|k: int| from <= k < s.len() ==> s[k].len() > 0,
    ensures
        first_empty(s, from) is None,
    decreases s.len() - from,
{
    if from < s.len() {
        lemma_no_empty(s, from + 1);
    }
}

proof fn lemma_none_in(t: Seq<char>, d: Seq<char>, from: int)
    requires
        0 <= from,
        forall|i: int| from <= i < t.len() ==> !d.contains(t[i]),
    ensures
        first_in(t, d, from) is None,
    decreases t.len() - from,
{
    if from < t.len() {
        lemma_none_in(t, d, from + 1);
    }
}

proof fn lemma_no_sentinel_with_delimiter(s: Seq<Seq<char>>, d: Seq<char>, from: int)
    requires
        0 <= from,
        forall|k: int, i: int| from <= k < s.len() && 0 <= i < s[k].len() ==> !d.contains(s[k][i]),
    ensures
        first_sentinel_with_delimiter(s, d, from) is None,
    decreases s.len() - from,
{
    if from < s.len() {
        lemma_none_in(s[from], d, 0);
        lemma_no_sentinel_with_delimiter(s, d, from + 1);
    }
}

/// The settings pass every check exactly when the eight delimiters are ASCII
/// (code below 128) and pairwise distinct, and the three sentinels are
/// nonempty, pairwise different and hold no delimiter. So `new` accepts
/// every such set of settings, and refuses no other.
pub proof fn lemma_settings_accepted_iff(d: Seq<char>, s: Seq<Seq<char>>)
    requires
        d.len() == 8,
        s.len() == 3,
    ensures
        settings_error(d, s) is None <==> {
            &&& forall|i: int| 0 <= i < 8 ==> (#[trigger] d[i] as u32) < 128
            &&& forall|i: int, j: int| 0 <= i < j < 8 ==> #[trigger] d[i] != #[trigger] d[j]
            &&& forall|k: int| 0 <= k < 3 ==> (#[trigger] s[k]).len() > 0
            &&& s[0] != s[1] && s[0] != s[2] && s[1] != s[2]
            &&& forall|k: int, i: int| 0 <= k < 3 && 0 <= i < s[k].len() ==> !d.contains(#[trigger] s[k][i])
        },
{
    if settings_error(d, s) is None {
        lemma_first_non_ascii(d, 0);
        lemma_first_conflict_none(d, 0);
        lemma_first_empty_none(s, 0);
        lemma_first_sentinel_none(s, d, 0);
    }
    if (forall|i: int| 0 <= i < 8 ==> (#[trigger] d[i] as u32) < 128)
        && (forall|i: int, j: int| 0 <= i < j < 8 ==> #[trigger] d[i] != #[trigger] d[j])
        && (forall|k: int| 0 <= k < 3 ==> (#[trigger] s[k]).len() > 0)
        && (s[0] != s[1] && s[0] != s[2] && s[1] != s[2])
        && (forall|k: int, i: int| 0 <= k < 3 && 0 <= i < s[k].len() ==> !d.contains(#[trigger] s[k][i])) {
        lemma_no_non_ascii(d, 0);
        lemma_no_conflict(d, 0);
        lemma_no_empty(s, 0);
        lemma_no_sentinel_with_delimiter(s, d, 0);
    }
}

proof fn lemma_first_non_ascii_some(d: Seq<char>, from: int, i: int)
    requires
        first_non_ascii(d, from) == Some(i),
    ensures
        from <= i < d.len(),
        (d[i] as u32) >= 128,
        forall|j: int| from <= j < i ==> (d[j] as u32) < 128,
    decreases d.len() - from,
{
    if 0 <= from < d.len() && (d[from] as u32) < 128 {
        lemma_first_non_ascii_some(d, from + 1, i);
    }
}

proof fn lemma_first_match_some(d: Seq<char>, c: char, from: int, end: int, i: int)
    requires
        first_match(d, c, from, end) == Some(i),
    ensures
        from <= i < end,
        d[i] == c,
    decreases end - from,
{
    if 0 <= from < end && d[from] != c {
        lemma_first_match_some(d, c, from + 1, end, i);
    }
}

proof fn lemma_first_conflict_some(d: Seq<char>, from: int, i: int, j: int)
    requires
        first_conflict(d, from) == Some((i, j)),
    ensures
        0 <= i < j < d.len(),
        from <= j,
        d[i] == d[j],
    decreases d.len() - from,
{
    if 0 <= from < d.len() {
        match first_match(d, d[from], 0, from) {
            Some(x) => {
                lemma_first_match_some(d, d[from], 0, from, x);
            },
            None => {
                lemma_first_conflict_some(d, from + 1, i, j);
            },
        }
    }
}

proof fn lemma_first_empty_some(s: Seq<Seq<char>>, from: int, k: int)
    requires
        first_empty(s, from) == Some(k),
    ensures
        from <= k < s.len(),
        s[k].len() == 0,
    decreases s.len() - from,
{
    if 0 <= from < s.len() && s[from].len() != 0 {
        lemma_first_empty_some(s, from + 1, k);
    }
}

proof fn lemma_first_in_some(t: Seq<char>, d: Seq<char>, from: int, i: int)
    requires
        first_in(t, d, from) == Some(i),
    ensures
        from <= i < t.len(),
        d.contains(t[i]),
    decreases t.len() - from,
{
    if 0 <= from < t.len() && !d.contains(t[from]) {
        lemma_first_in_some(t, d, from + 1, i);
    }
}

proof fn lemma_first_sentinel_some(s: Seq<Seq<char>>, d: Seq<char>, from: int, k: int, c: char)
    requires
        first_sentinel_with_delimiter(s, d, from) == Some((k, c)),
    ensures
        from <= k < s.len(),
        s[k].contains(c),
        d.contains(c),
    decreases s.len() - from,
{
    if 0 <= from < s.len() {
        match first_in(s[from], d, 0) {
            Some(i) => {
                lemma_first_in_some(s[from], d, 0, i);
            },
            None => {
                lemma_first_sentinel_some(s, d, from + 1, k, c);
            },
        }
    }
}

/// Each refusal names a real fault of the settings: a delimiter with a code
/// of 128 or more; two delimiters that are the same char; an empty
/// sentinel; two equal sentinels; a sentinel holding a delimiter char.
pub proof fn lemma_settings_error_sound(d: Seq<char>, s: Seq<Seq<char>>)
    requires
        d.len() == 8,
        s.len() == 3,
    ensures
        settings_error(d, s) matches Some(ConfigError::NotAscii { delimiter, ch }) ==> (ch as u32) >= 128
            && exists|i: int| 0 <= i < 8 && d[i] == ch && delimiter == delimiter_at(i),
        settings_error(d, s) matches Some(ConfigError::Conflict { earlier, later, ch }) ==> exists|i: int, j: int|
            0 <= i < j < 8 && d[i] == ch && d[j] == ch && earlier == delimiter_at(i) && later == delimiter_at(j),
        settings_error(d, s) matches Some(ConfigError::EmptySentinel { sentinel }) ==> exists|k: int|
            0 <= k < 3 && s[k].len() == 0 && sentinel == sentinel_at(k),
        settings_error(d, s) matches Some(ConfigError::SameSentinels { first, second }) ==> exists|a: int, b: int|
            0 <= a < b < 3 && s[a] == s[b] && first == sentinel_at(a) && second == sentinel_at(b),
        settings_error(d, s) matches Some(ConfigError::DelimiterInSentinel { sentinel, ch }) ==> d.contains(ch)
            && exists|k: int| 0 <= k < 3 && s[k].contains(ch) && sentinel == sentinel_at(k),
{
    match first_non_ascii(d, 0) {
        Some(i) => {
            lemma_first_non_ascii_some(d, 0, i);
            assert(0 <= i < 8 && d[i] == d[i]);
        },
        None => match first_conflict(d, 0) {
            Some((i, j)) => {
                lemma_first_conflict_some(d, 0, i, j);
            },
            None => match first_empty(s, 0) {
                Some(k) => {
                    lemma_first_empty_some(s, 0, k);
                },
                None => {
                    if s[0] == s[1] {
                        assert(sentinel_at(0) == Sentinel::Null && sentinel_at(1) == Sentinel::True);
                    } else if s[0] == s[2] {
                        assert(sentinel_at(0) == Sentinel::Null && sentinel_at(2) == Sentinel::False);
                    } else if s[1] == s[2] {
                        assert(sentinel_at(1) == Sentinel::True && sentinel_at(2) == Sentinel::False);
                    } else {
                        match first_sentinel_with_delimiter(s, d, 0) {
                            Some((k, c)) => {
                                lemma_first_sentinel_some(s, d, 0, k, c);
                            },
                            None => {},
                        }
                    }
                },
            },
        },
    }
}


/// The names of the settings, as their keyword arguments are called, and the
/// message of each refusal, naming the settings and showing the char with
/// `{:?}`.
pub proof fn lemma_config_messages(d1: Delimiter, d2: Delimiter, s1: Sentinel, s2: Sentinel, ch: char)
    ensures
        delimiter_name(Delimiter::FieldSep) == "field_sep"@,
        delimiter_name(Delimiter::KvSep) == "kv_sep"@,
        delimiter_name(Delimiter::ListOpen) == "list_open"@,
        delimiter_name(Delimiter::ListClose) == "list_close"@,
        delimiter_name(Delimiter::ListSep) == "list_sep"@,
        delimiter_name(Delimiter::ObjOpen) == "obj_open"@,
        delimiter_name(Delimiter::ObjClose) == "obj_close"@,
        delimiter_name(Delimiter::Escape) == "escape"@,
        sentinel_name(Sentinel::Null) == "null_str"@,
        sentinel_name(Sentinel::True) == "true_str"@,
        sentinel_name(Sentinel::False) == "false_str"@,
        config_error_message(ConfigError::NotAscii { delimiter: d1, ch }) == "'"@ + delimiter_name(d1)
            + "' must be an ASCII character, got "@ + char_debug(ch),
        config_error_message(ConfigError::Conflict { earlier: d1, later: d2, ch }) == "Delimiter conflict: '"@
            + delimiter_name(d1) + "' and '"@ + delimiter_name(d2) + "' are both "@ + char_debug(ch),
        config_error_message(ConfigError::EmptySentinel { sentinel: s1 }) == "'"@ + sentinel_name(s1)
            + "' must not be empty"@,
        config_error_message(ConfigError::SameSentinels { first: s1, second: s2 }) == sentinel_name(s1)
            + " and "@ + sentinel_name(s2) + " must be different"@,
        config_error_message(ConfigError::DelimiterInSentinel { sentinel: s1, ch }) == "'"@ + sentinel_name(s1)
            + "' contains delimiter character "@ + char_debug(ch),
{
}

} // verus!
