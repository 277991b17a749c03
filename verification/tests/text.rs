use grid_wall_builder::scene_lines::{parse_vector_line, FloatCheck, parse_bool, parse_node_line, parse_resource_id, parse_resource_reference, parse_suffix_id, parse_usize, ImportError};
use grid_wall_builder::text::{decimal_chars, parse_usize_chars, split_lines, split_words, trim};

fn chars(s: &str) -> Vec<char> {
    s.chars().collect()
}

fn string(v: &[char]) -> String {
    v.iter().collect()
}

#[test]
fn lines_split_like_str_lines() {
    for text in ["", "a", "a\n", "a\nb", "a\r\nb\r\n", "\n\n", "x\r", "a\rb\n"] {
        let lines: Vec<String> = split_lines(&chars(text)).iter().map(|l| string(l)).collect();
        let expected: Vec<String> = text.lines().map(|l| l.to_string()).collect();
        assert_eq!(lines, expected, "{text:?}");
    }
}

#[test]
fn trim_removes_unicode_whitespace() {
    for text in ["  a b  ", "\t\u{a0}x\u{3000}", "   ", "", "y"] {
        assert_eq!(string(&trim(&chars(text))), text.trim());
    }
}

#[test]
fn words_split_like_split_whitespace() {
    for text in [" a  b\tc ", "", "   ", "one"] {
        let words: Vec<String> = split_words(&chars(text)).iter().map(|w| string(w)).collect();
        let expected: Vec<String> = text.split_whitespace().map(|w| w.to_string()).collect();
        assert_eq!(words, expected);
    }
}

#[test]
fn unsigned_numbers_parse_like_usize_from_str() {
    for text in ["0", "42", "+7", "-1", "", "+", "1a", "007", "18446744073709551616", "٣"] {
        assert_eq!(parse_usize_chars(&chars(text)), text.parse::<usize>().ok(), "{text:?}");
    }
}

#[test]
fn decimal_digits_of_numbers() {
    for n in [0usize, 7, 10, 1234, usize::MAX] {
        assert_eq!(string(&decimal_chars(n)), n.to_string());
    }
}

#[test]
fn field_parsers_report_their_label() {
    assert_eq!(parse_usize(&chars("12"), "grid_w"), Ok(12));
    assert_eq!(
        parse_usize(&chars("x"), "grid_w"),
        Err(ImportError::Invalid("Failed to parse grid_w from `x`".to_string()))
    );
    assert_eq!(parse_bool(&chars("true"), "b"), Ok(true));
    assert_eq!(parse_bool(&chars("false"), "b"), Ok(false));
    assert_eq!(
        parse_bool(&chars("yes"), "include_backplanes"),
        Err(ImportError::Invalid("Failed to parse include_backplanes from `yes`".to_string()))
    );
    assert_eq!(parse_suffix_id(&chars("Segment_12"), "Segment_"), Ok(12));
    assert_eq!(
        parse_suffix_id(&chars("Wall_1"), "Segment_"),
        Err(ImportError::Invalid("Expected `Segment_` prefix in `Wall_1`".to_string()))
    );
}

#[test]
fn node_lines_give_their_name() {
    let line = chars("  [node name=\"Segment_3\" type=\"StaticBody3D\" parent=\"BoxMeshes\"]  ");
    let name = parse_node_line(&line, &chars("StaticBody3D"), Some(&chars("BoxMeshes"))).unwrap();
    assert_eq!(string(&name), "Segment_3");
    assert!(matches!(
        parse_node_line(&line, &chars("Node3D"), None),
        Err(ImportError::Unsupported(_))
    ));
    assert!(matches!(
        parse_node_line(&line, &chars("StaticBody3D"), Some(&chars("."))),
        Err(ImportError::Unsupported(_))
    ));
    assert!(matches!(
        parse_node_line(&chars("[node name=\"x]"), &chars("x"), None),
        Err(ImportError::Unsupported(_))
    ));
}

#[test]
fn resource_ids_and_references() {
    let prefix = "[sub_resource type=\"BoxMesh\" id=\"BoxMesh_";
    assert_eq!(parse_resource_id(&chars("[sub_resource type=\"BoxMesh\" id=\"BoxMesh_17\"]"), prefix), Ok(17));
    assert!(matches!(
        parse_resource_id(&chars("[sub_resource type=\"BoxMesh\" id=\"BoxMesh_]"), prefix),
        Err(ImportError::Invalid(m)) if m.starts_with("Malformed resource id")
    ));
    assert!(matches!(
        parse_resource_id(&chars("[sub_resource type=\"BoxMesh\" id=\"BoxMesh_1\""), prefix),
        Err(ImportError::Unsupported(_))
    ));
    let reference = "mesh = SubResource(\"BoxMesh_";
    assert_eq!(parse_resource_reference(&chars("mesh = SubResource(\"BoxMesh_4\")"), reference), Ok(4));
    assert!(matches!(
        parse_resource_reference(&chars("mesh = SubResource(\"BoxMesh_4é)"), reference),
        Err(ImportError::Invalid(m)) if m.starts_with("Malformed resource reference")
    ));
}

#[test]
fn vector_lines_with_any_prefix_but_the_whole_line() {
    let mut checks: Vec<FloatCheck> = Vec::new();
    let parts = parse_vector_line(&mut checks, &chars("(1, 2)"), "", 2, "two").expect("two parts");
    assert_eq!(parts, vec![chars("(1"), chars("2")]);
    assert_eq!(checks.len(), 2);
    let parts = parse_vector_line(&mut checks, &chars("f() 3)"), "f()", 1, "one").expect("one part");
    assert_eq!(parts, vec![chars("3")]);
    assert!(matches!(
        parse_vector_line(&mut checks, &chars("f(1)"), "size(", 1, "one"),
        Err(ImportError::Unsupported(_))
    ));
}
