use hotchpotch::config::{ConfigError, Delimiter, FormatConfig, Sentinel};

fn make(
    field_sep: char,
    kv_sep: char,
    null_str: &str,
    true_str: &str,
    false_str: &str,
) -> Result<FormatConfig, ConfigError> {
    FormatConfig::new(
        field_sep,
        kv_sep,
        '[',
        ']',
        '|',
        '{',
        '}',
        '\\',
        null_str.to_string(),
        true_str.to_string(),
        false_str.to_string(),
    )
}

#[test]
fn default_config_has_documented_settings() {
    let cfg = FormatConfig::default();
    assert_eq!(cfg.field_sep, ';');
    assert_eq!(cfg.kv_sep, '=');
    assert_eq!(cfg.list_open, '[');
    assert_eq!(cfg.list_close, ']');
    assert_eq!(cfg.list_sep, '|');
    assert_eq!(cfg.obj_open, '{');
    assert_eq!(cfg.obj_close, '}');
    assert_eq!(cfg.escape, '\\');
    assert_eq!(cfg.null_str, "null");
    assert_eq!(cfg.true_str, "true");
    assert_eq!(cfg.false_str, "false");
    assert_eq!(cfg.scalar_stop, [b';', b'=', b'|', b']', b'}']);
    for code in 0..256usize {
        let special = ";=[]|{}\\".bytes().any(|b| b as usize == code);
        assert_eq!(cfg.special_table[code], special, "code {}", code);
    }
}

#[test]
fn special_chars_lists_the_delimiters_in_order() {
    let cfg = FormatConfig::default();
    assert_eq!(cfg.special_chars(), vec![';', '=', '[', ']', '|', '{', '}', '\\']);
}

#[test]
fn custom_delimiters_are_accepted() {
    let cfg = FormatConfig::new(
        '&', ':', '[', ']', ',', '{', '}', '\\',
        "null".to_string(), "true".to_string(), "false".to_string(),
    )
    .unwrap();
    assert_eq!(cfg.special_chars(), vec!['&', ':', '[', ']', ',', '{', '}', '\\']);
    assert_eq!(cfg.scalar_stop, [b'&', b':', b',', b']', b'}']);
    assert!(cfg.special_table[b'&' as usize]);
    assert!(!cfg.special_table[b';' as usize]);
}

#[test]
fn non_ascii_delimiter_is_refused() {
    let err = make('é', '=', "null", "true", "false").unwrap_err();
    assert_eq!(err, ConfigError::NotAscii { delimiter: Delimiter::FieldSep, ch: 'é' });
    assert_eq!(err.message(), "'field_sep' must be an ASCII character, got 'é'");
}

#[test]
fn non_ascii_is_checked_before_conflicts() {
    let err = FormatConfig::new(
        ';', ';', '[', ']', '|', '{', '}', '→',
        "null".to_string(), "true".to_string(), "false".to_string(),
    )
    .unwrap_err();
    assert_eq!(err, ConfigError::NotAscii { delimiter: Delimiter::Escape, ch: '→' });
    assert_eq!(err.message(), "'escape' must be an ASCII character, got '→'");
}

#[test]
fn conflicting_delimiters_are_refused() {
    let err = make(';', ';', "null", "true", "false").unwrap_err();
    assert_eq!(
        err,
        ConfigError::Conflict { earlier: Delimiter::FieldSep, later: Delimiter::KvSep, ch: ';' }
    );
    assert_eq!(err.message(), "Delimiter conflict: 'field_sep' and 'kv_sep' are both ';'");
}

#[test]
fn first_conflict_is_reported() {
    let err = FormatConfig::new(
        ';', '=', '[', '=', '|', '{', ';', '\\',
        "null".to_string(), "true".to_string(), "false".to_string(),
    )
    .unwrap_err();
    assert_eq!(
        err,
        ConfigError::Conflict { earlier: Delimiter::KvSep, later: Delimiter::ListClose, ch: '=' }
    );
}

#[test]
fn empty_sentinels_are_refused() {
    let err = make(';', '=', "", "true", "false").unwrap_err();
    assert_eq!(err, ConfigError::EmptySentinel { sentinel: Sentinel::Null });
    assert_eq!(err.message(), "'null_str' must not be empty");
    let err = make(';', '=', "null", "", "false").unwrap_err();
    assert_eq!(err, ConfigError::EmptySentinel { sentinel: Sentinel::True });
    assert_eq!(err.message(), "'true_str' must not be empty");
    let err = make(';', '=', "null", "true", "").unwrap_err();
    assert_eq!(err, ConfigError::EmptySentinel { sentinel: Sentinel::False });
    assert_eq!(err.message(), "'false_str' must not be empty");
}

#[test]
fn equal_sentinels_are_refused() {
    let err = make(';', '=', "x", "x", "false").unwrap_err();
    assert_eq!(err, ConfigError::SameSentinels { first: Sentinel::Null, second: Sentinel::True });
    assert_eq!(err.message(), "null_str and true_str must be different");
    let err = make(';', '=', "x", "true", "x").unwrap_err();
    assert_eq!(err.message(), "null_str and false_str must be different");
    let err = make(';', '=', "null", "x", "x").unwrap_err();
    assert_eq!(err.message(), "true_str and false_str must be different");
}

#[test]
fn delimiter_in_sentinel_is_refused() {
    let err = make(';', '=', "null", "tr;ue", "false").unwrap_err();
    assert_eq!(err, ConfigError::DelimiterInSentinel { sentinel: Sentinel::True, ch: ';' });
    assert_eq!(err.message(), "'true_str' contains delimiter character ';'");
    let err = make(';', '=', "nu\\ll", "true", "fa=lse").unwrap_err();
    assert_eq!(err.message(), "'null_str' contains delimiter character '\\\\'");
}

#[test]
fn repr_shows_every_setting() {
    let cfg = FormatConfig::default();
    assert_eq!(
        cfg.repr(),
        "FormatConfig(field_sep=';', kv_sep='=', list_open='[', list_close=']', list_sep='|', \
         obj_open='{', obj_close='}', escape='\\\\', null_str=\"null\", true_str=\"true\", \
         false_str=\"false\")"
    );
}

#[test]
fn delimiter_and_sentinel_names() {
    assert_eq!(Delimiter::ObjClose.name(), "obj_close");
    assert_eq!(Delimiter::ListSep.name(), "list_sep");
    assert_eq!(Sentinel::False.name(), "false_str");
}

#[test]
fn ascii_delimiters_are_checked_field_by_field() {
    let mut cfg = FormatConfig::default();
    assert!(cfg.has_ascii_delimiters());
    cfg.list_sep = 'é';
    assert!(!cfg.has_ascii_delimiters());
    let mut cfg = FormatConfig::default();
    cfg.scalar_stop[2] = 0xC3;
    assert!(!cfg.has_ascii_delimiters());
}
