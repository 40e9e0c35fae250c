use marked_yaml::builder::{MarkedYaml, Warning, YamlEvent};
use marked_yaml::model::{Mark, Value};
use marked_yaml::parse::{parse, ConfigurationError};
use marked_yaml::pointer::{segment_step, PathStep};

fn prop(name: &str) -> PathStep {
    PathStep::Property(name.to_string())
}

fn idx(i: usize) -> PathStep {
    PathStep::Index(i)
}

fn mapping_keys(v: &Value) -> Vec<String> {
    match v {
        Value::Mapping(_, entries, _) => entries.iter().map(|e| e.0.name.clone()).collect(),
        _ => panic!("expected a mapping"),
    }
}

fn scalar_text(v: &Value) -> &str {
    match v {
        Value::String(s, _) => s.as_str(),
        _ => panic!("expected a scalar"),
    }
}

fn scalar_mark(v: &Value) -> Mark {
    match v {
        Value::String(_, m) => *m,
        _ => panic!("expected a scalar"),
    }
}

#[test]
fn test() {
    // DON'T reformat this. It'll change the test results
    let yaml = r#"test:
  a: 4
  b: 3       
  c: &id001
  - d
  - e
  - f:
     - g
     - h:
         i: k 
  l: *id001
      
"#;
    let parsed = parse(yaml).unwrap();
    let root = parsed.root().unwrap();
    assert_eq!(mapping_keys(root), vec!["test".to_string()]);
    let inner = parsed.get_element(&vec![prop("test")]).unwrap();
    assert_eq!(
        mapping_keys(inner),
        vec!["a".to_string(), "b".to_string(), "c".to_string(), "l".to_string()]
    );
    let a = parsed.get_element(&vec![prop("test"), prop("a")]).unwrap();
    assert_eq!(scalar_text(a), "4");
    let b = parsed.get_element(&vec![prop("test"), prop("b")]).unwrap();
    assert_eq!(scalar_text(b), "3");
    let c = parsed.get_element(&vec![prop("test"), prop("c")]).unwrap();
    match c {
        Value::Sequence(items, _) => assert_eq!(items.len(), 3),
        _ => panic!("expected a sequence under c"),
    }
    let d = parsed.get_element(&vec![prop("test"), prop("c"), idx(0)]).unwrap();
    assert_eq!(scalar_text(d), "d");
    let k = parsed
        .get_element(&vec![prop("test"), prop("c"), idx(2), prop("f"), idx(1), prop("h"), prop("i")])
        .unwrap();
    assert_eq!(scalar_text(k), "k");
    // the alias resolves to the same structure as its anchor
    let l0 = parsed.get_element(&vec![prop("test"), prop("l"), idx(0)]).unwrap();
    assert_eq!(scalar_text(l0), "d");
}

#[test]
fn round_trip_alias_keeps_anchor_positions() {
    let yaml = "test:\n  a: 4\n  c: &id001\n  - d\n  - e\n  l: *id001\n";
    let parsed = parse(yaml).unwrap();
    let inner = parsed.get_element(&vec![prop("test")]).unwrap();
    assert_eq!(
        mapping_keys(inner),
        vec!["a".to_string(), "c".to_string(), "l".to_string()]
    );
    let a = parsed.get_element(&vec![prop("test"), prop("a")]).unwrap();
    assert_eq!(scalar_text(a), "4");
    let c0 = parsed.get_element(&vec![prop("test"), prop("c"), idx(0)]).unwrap();
    let c1 = parsed.get_element(&vec![prop("test"), prop("c"), idx(1)]).unwrap();
    assert_eq!(scalar_text(c0), "d");
    assert_eq!(scalar_text(c1), "e");
    let l0 = parsed.get_element(&vec![prop("test"), prop("l"), idx(0)]).unwrap();
    let l1 = parsed.get_element(&vec![prop("test"), prop("l"), idx(1)]).unwrap();
    assert_eq!(scalar_text(l0), "d");
    assert_eq!(scalar_text(l1), "e");
    // the alias carries the anchor's positions, not the alias site's
    assert_eq!(scalar_mark(l0), scalar_mark(c0));
    assert_eq!(scalar_mark(l1), scalar_mark(c1));
    // the anchored "d" sits on its own line, well before the alias line
    assert!(scalar_mark(l0).line < 6);
}

#[test]
fn empty_path_returns_root() {
    let parsed = parse("a: 1\nb: 2\n").unwrap();
    let root = parsed.root().unwrap();
    let via_path = parsed.get_element(&vec![]).unwrap();
    assert_eq!(mapping_keys(root), mapping_keys(via_path));
    assert_eq!(mapping_keys(root), vec!["a".to_string(), "b".to_string()]);
}

#[test]
fn kind_mismatch_is_not_found() {
    let parsed = parse("top:\n  items:\n  - one\n  - two\n").unwrap();
    // an index step against a mapping
    assert!(parsed.get_element(&vec![idx(0)]).is_none());
    // a property step against a sequence
    assert!(parsed.get_element(&vec![prop("top"), prop("items"), prop("one")]).is_none());
    // a property step against a scalar
    assert!(parsed.get_element(&vec![prop("top"), prop("items"), idx(0), prop("x")]).is_none());
    // an index past the end
    assert!(parsed.get_element(&vec![prop("top"), prop("items"), idx(2)]).is_none());
    // a missing key
    assert!(parsed.get_element(&vec![prop("absent")]).is_none());
}

#[test]
fn duplicate_key_keeps_first_place_last_value() {
    let parsed = parse("a: 1\nb: 2\na: 3\n").unwrap();
    let root = parsed.root().unwrap();
    assert_eq!(mapping_keys(root), vec!["a".to_string(), "b".to_string()]);
    let a = parsed.get_element(&vec![prop("a")]).unwrap();
    assert_eq!(scalar_text(a), "3");
    let b = parsed.get_element(&vec![prop("b")]).unwrap();
    assert_eq!(scalar_text(b), "2");
}

#[test]
fn unresolved_alias_warns_and_omits() {
    // the tokenizer itself refuses an alias to an unknown *name*, so an
    // unresolved numeric anchor id can only arrive at the event level
    let mut builder = MarkedYaml::new();
    let mark = Mark { line: 1, col: 0, index: 0 };
    builder.on_event(YamlEvent::SequenceStart(1), mark).unwrap();
    builder.on_event(YamlEvent::Scalar("1".to_string(), 2), mark).unwrap();
    builder.on_event(YamlEvent::Alias(99), mark).unwrap();
    builder.on_event(YamlEvent::Scalar("2".to_string(), 3), mark).unwrap();
    builder.on_event(YamlEvent::SequenceEnd, mark).unwrap();
    assert!(builder.warnings().contains(&Warning::UnresolvedAlias));
    let root = builder.root().unwrap();
    match root {
        Value::Sequence(items, _) => {
            assert_eq!(items.len(), 2);
            assert_eq!(scalar_text(&items[0]), "1");
            assert_eq!(scalar_text(&items[1]), "2");
        }
        _ => panic!("expected a sequence"),
    }
}

#[test]
fn malformed_source_is_one_structured_error() {
    let result = parse("a: [1, 2\n");
    match result {
        Err(ConfigurationError::InvalidConfiguration { message, error }) => {
            assert_eq!(message, "could not parse yaml");
            assert!(!error.is_empty());
        }
        _ => panic!("expected a structured parse error"),
    }
}

#[test]
fn carriage_returns_are_stripped() {
    let with_cr = parse("a: 1\r\nb: 2\r\n").unwrap();
    let without_cr = parse("a: 1\nb: 2\n").unwrap();
    let ra = with_cr.get_element(&vec![prop("a")]).unwrap();
    let rb = without_cr.get_element(&vec![prop("a")]).unwrap();
    assert_eq!(scalar_text(ra), scalar_text(rb));
    assert_eq!(scalar_mark(ra), scalar_mark(rb));
}

#[test]
fn end_marker_is_last_child() {
    let parsed = parse("a: 1\nb: 2\n").unwrap();
    let root = parsed.root().unwrap();
    let b = parsed.get_element(&vec![prop("b")]).unwrap();
    assert_eq!(root.end_marker(), b.end_marker());
    assert_eq!(b.end_marker(), scalar_mark(b));
}

#[test]
fn imbalanced_end_event_is_reported() {
    let mut builder = MarkedYaml::new();
    let mark = Mark { line: 1, col: 0, index: 0 };
    assert!(builder.on_event(YamlEvent::MappingEnd, mark).is_err());
    assert!(builder.on_event(YamlEvent::SequenceEnd, mark).is_err());
}

#[test]
fn orphan_scalar_warns() {
    let mut builder = MarkedYaml::new();
    let mark = Mark { line: 1, col: 0, index: 0 };
    // with no container open, the first scalar becomes the pending key and
    // the second has nowhere to go: it is dropped with a warning
    builder.on_event(YamlEvent::Scalar("key".to_string(), 1), mark).unwrap();
    builder.on_event(YamlEvent::Scalar("value".to_string(), 2), mark).unwrap();
    assert!(builder.warnings().contains(&Warning::OrphanScalar));
}

#[test]
fn orphan_alias_warns() {
    let mut builder = MarkedYaml::new();
    let mark = Mark { line: 1, col: 0, index: 0 };
    // anchor a finished sequence, then reference it with nothing open
    builder.on_event(YamlEvent::SequenceStart(7), mark).unwrap();
    builder.on_event(YamlEvent::SequenceEnd, mark).unwrap();
    builder.on_event(YamlEvent::Alias(7), mark).unwrap();
    assert!(builder.warnings().contains(&Warning::OrphanAlias));
}

#[test]
fn document_of_scalars_rebuilds_declared_shape() {
    let parsed = parse("first: x\nsecond:\n- s0\n- s1\nthird:\n  inner: y\n").unwrap();
    let root = parsed.root().unwrap();
    assert_eq!(
        mapping_keys(root),
        vec!["first".to_string(), "second".to_string(), "third".to_string()]
    );
    assert_eq!(scalar_text(parsed.get_element(&vec![prop("first")]).unwrap()), "x");
    match parsed.get_element(&vec![prop("second")]).unwrap() {
        Value::Sequence(items, _) => assert_eq!(items.len(), 2),
        _ => panic!("expected a sequence"),
    }
    assert_eq!(scalar_text(parsed.get_element(&vec![prop("second"), idx(1)]).unwrap()), "s1");
    assert_eq!(
        scalar_text(parsed.get_element(&vec![prop("third"), prop("inner")]).unwrap()),
        "y"
    );
}

#[test]
fn label_from_name_has_no_position() {
    let label = marked_yaml::model::Label::from("key".to_string());
    assert_eq!(label.name, "key");
    assert!(label.marker.is_none());
}

#[test]
fn segment_step_decodes_escapes_and_indexes() {
    match segment_step("a~1b~0c") {
        PathStep::Property(s) => assert_eq!(s, "a/b~c"),
        _ => panic!("expected a property"),
    }
    match segment_step("42") {
        PathStep::Index(i) => assert_eq!(i, 42),
        _ => panic!("expected an index"),
    }
    match segment_step("") {
        PathStep::Property(s) => assert_eq!(s, ""),
        _ => panic!("expected a property"),
    }
    match segment_step("4a") {
        PathStep::Property(s) => assert_eq!(s, "4a"),
        _ => panic!("expected a property"),
    }
    // a number too large for an index stays a property name
    match segment_step("99999999999999999999999999999999") {
        PathStep::Property(s) => assert_eq!(s, "99999999999999999999999999999999"),
        _ => panic!("expected a property"),
    }
    // escapes decode in one pass: `~01` is `~1`, not `/`
    match segment_step("~01") {
        PathStep::Property(s) => assert_eq!(s, "~1"),
        _ => panic!("expected a property"),
    }
}
