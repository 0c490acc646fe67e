# hotchpotch

A text format for nested values, meant for embedding records in CSV fields:

```
name=adam;hobbies=[cycling|rowing];height=175cm;
```

Values are null, booleans, integers, floats, strings, lists and objects
(maps from string keys). Delimiters are backslash-escaped inside strings and
keys, and every delimiter and sentinel is configurable.

## Layout

- `src/`: the library, verified with Verus.
  - `value.rs`: values and their mathematical models.
  - `config.rs`: the settings, their validation (`FormatConfig::new`) and the
    lookup tables derived from them.
  - `text.rs`: chars of strings, decimal integers, float literals, UTF-8 offsets.
  - `serializer.rs`: writing values and records, with their specifications.
  - `parser.rs`: reading values and records, with their specifications.
  - `roundtrip.rs`: for representable values (those whose text is not taken
    for another value, with object keys in order), reading back what was
    written gives the same value or record.
  - `ordered.rs`: object keys stay in order, and ordering a record by key
    keeps each key with its last value.
- `tests/`: tests on concrete values.
- `app/`: the Python module (`FormatConfig`, `dumps`, `loads`) built with pyo3.

Floats are held in the library as their decimal text; the Python module
converts between that text and Python floats.
