use tokr::ast::{File, PathSegment, ThemeDecl, Value};
use tokr::diagnostics::DiagnosticBag;
use tokr::ir::{lower, run_passes, IrNode, IrValue, PassConfig};
use tokr::sema::SymbolTable;
use tokr::span::Span;

fn test_table(decls: Vec<(&'static str, Value)>) -> SymbolTable {
    let mut file = File::default();
    for (path_str, val) in decls {
        let mut path = Vec::new();
        for seg in path_str.split('.') {
            if seg.ends_with(']') {
                let parts: Vec<&str> = seg.split('[').collect();
                if !parts[0].is_empty() {
                    path.push(PathSegment::Field(parts[0].to_string()));
                }
                let idx = parts[1].trim_end_matches(']').parse::<u32>().unwrap();
                path.push(PathSegment::Index(idx));
            } else {
                path.push(PathSegment::Field(seg.to_string()));
            }
        }
        file.decls.push(ThemeDecl {
            path,
            path_span: Span::new(0, 0),
            var_name: String::new(),
            is_sass_var: true,
            value: val,
            span: Span::new(0, 0),
        });
    }
    let mut bag = DiagnosticBag::default();
    tokr::sema::analyze(&file, &mut bag)
}

fn raw(s: &str) -> Value {
    Value::Raw {
        text: s.to_string(),
        span: Span::new(0, 0),
    }
}

fn child<'a>(map: &'a [(String, IrNode)], key: &str) -> Option<&'a IrNode> {
    map.iter().find(|(k, _)| k == key).map(|(_, v)| v)
}

#[test]
fn test_lower_object() {
    let table = test_table(vec![("palette.accent", raw("1")), ("palette.primary", raw("2"))]);
    let ir = lower(&table);
    let cfg = PassConfig {
        strict: false,
        order_table: Vec::new(),
    };
    let ir = run_passes(ir, &cfg);

    match ir {
        IrNode::Object(map) => {
            let palette = child(&map, "palette").unwrap();
            match palette {
                IrNode::Object(p_map) => {
                    assert!(child(p_map, "accent").is_some());
                    assert!(child(p_map, "primary").is_some());
                }
                _ => panic!(),
            }
        }
        _ => panic!(),
    }
}

#[test]
fn test_lower_array() {
    let table = test_table(vec![("boxShadow[0]", raw("0")), ("boxShadow[2]", raw("2"))]);
    let ir = lower(&table);
    let cfg = PassConfig {
        strict: false,
        order_table: Vec::new(),
    };
    let ir = run_passes(ir, &cfg);

    match ir {
        IrNode::Object(map) => {
            let arr = child(&map, "boxShadow").unwrap();
            match arr {
                IrNode::Array(a) => {
                    assert_eq!(a.len(), 3);
                    assert_eq!(a[0], IrNode::Leaf(IrValue::Raw("0".into())));
                    assert_eq!(a[1], IrNode::Leaf(IrValue::Raw("undefined".into())));
                    assert_eq!(a[2], IrNode::Leaf(IrValue::Raw("2".into())));
                }
                _ => panic!(),
            }
        }
        _ => panic!(),
    }
}

#[test]
fn test_ordering_pass() {
    let table = test_table(vec![
        ("palette.secondary", raw("2")),
        ("palette.primary", raw("1")),
        ("palette.accent", raw("3")),
    ]);
    let ir = lower(&table);

    let order_table = vec![(
        "palette".to_string(),
        vec!["primary".to_string(), "secondary".to_string(), "accent".to_string()],
    )];

    let cfg = PassConfig {
        strict: false,
        order_table,
    };
    let ir = run_passes(ir, &cfg);

    match ir {
        IrNode::Object(map) => {
            let palette = child(&map, "palette").unwrap();
            match palette {
                IrNode::Object(p_map) => {
                    let keys: Vec<_> = p_map.iter().map(|(k, _)| k.as_str()).collect();
                    assert_eq!(keys, vec!["primary", "secondary", "accent"]);
                }
                _ => panic!(),
            }
        }
        _ => panic!(),
    }
}

#[test]
fn lowering_keeps_declaration_order_before_passes() {
    let table = test_table(vec![("b", raw("1")), ("a", raw("2"))]);
    let ir = lower(&table);
    match &ir {
        IrNode::Object(map) => {
            let keys: Vec<_> = map.iter().map(|(k, _)| k.as_str()).collect();
            assert_eq!(keys, vec!["b", "a"]);
        }
        _ => panic!(),
    }
}

#[test]
fn keys_without_order_go_by_bytes() {
    let table = test_table(vec![("b", raw("1")), ("B", raw("2")), ("a", raw("3")), ("_x", raw("4"))]);
    let ir = run_passes(lower(&table), &PassConfig::default());
    match &ir {
        IrNode::Object(map) => {
            let keys: Vec<_> = map.iter().map(|(k, _)| k.as_str()).collect();
            assert_eq!(keys, vec!["B", "_x", "a", "b"]);
        }
        _ => panic!(),
    }
}

#[test]
fn unlisted_keys_follow_listed_ones() {
    let table = test_table(vec![("z", raw("1")), ("m", raw("2")), ("a", raw("3")), ("q", raw("4"))]);
    let cfg = PassConfig {
        strict: false,
        order_table: vec![(String::new(), vec!["q".to_string(), "z".to_string()])],
    };
    let ir = run_passes(lower(&table), &cfg);
    match &ir {
        IrNode::Object(map) => {
            let keys: Vec<_> = map.iter().map(|(k, _)| k.as_str()).collect();
            assert_eq!(keys, vec!["q", "z", "a", "m"]);
        }
        _ => panic!(),
    }
}

#[test]
fn order_applies_to_nested_array_paths() {
    let table = test_table(vec![("list[0].b", raw("1")), ("list[0].a", raw("2"))]);
    let cfg = PassConfig {
        strict: false,
        order_table: vec![("list[0]".to_string(), vec!["b".to_string(), "a".to_string()])],
    };
    let ir = run_passes(lower(&table), &cfg);
    match &ir {
        IrNode::Object(map) => match child(map, "list").unwrap() {
            IrNode::Array(a) => match &a[0] {
                IrNode::Object(m) => {
                    let keys: Vec<_> = m.iter().map(|(k, _)| k.as_str()).collect();
                    assert_eq!(keys, vec!["b", "a"]);
                }
                _ => panic!(),
            },
            _ => panic!(),
        },
        _ => panic!(),
    }
}

#[test]
fn holes_are_filled_by_the_passes() {
    let table = test_table(vec![("s[1]", raw("x"))]);
    let ir = lower(&table);
    assert_eq!(
        ir,
        IrNode::Object(vec![(
            "s".to_string(),
            IrNode::Array(vec![IrNode::Hole, IrNode::Leaf(IrValue::Raw("x".into()))])
        )])
    );
    let filled = run_passes(ir, &PassConfig::default());
    assert_eq!(
        filled,
        IrNode::Object(vec![(
            "s".to_string(),
            IrNode::Array(vec![
                IrNode::Leaf(IrValue::Raw("undefined".into())),
                IrNode::Leaf(IrValue::Raw("x".into()))
            ])
        )])
    );
}

#[test]
fn lower_reads_back_each_value() {
    let table = test_table(vec![("a.b", raw("1")), ("a.c[1].d", raw("2")), ("e", Value::VarRef { css_var: "--e".to_string(), span: Span::new(0, 0) })]);
    let ir = lower(&table);
    match &ir {
        IrNode::Object(root) => {
            match child(root, "a").unwrap() {
                IrNode::Object(a) => {
                    assert_eq!(child(a, "b"), Some(&IrNode::Leaf(IrValue::Raw("1".into()))));
                    match child(a, "c").unwrap() {
                        IrNode::Array(c) => {
                            assert_eq!(c.len(), 2);
                            assert_eq!(c[0], IrNode::Hole);
                            match &c[1] {
                                IrNode::Object(d) => assert_eq!(
                                    child(d, "d"),
                                    Some(&IrNode::Leaf(IrValue::Raw("2".into())))
                                ),
                                _ => panic!(),
                            }
                        }
                        _ => panic!(),
                    }
                }
                _ => panic!(),
            }
            assert_eq!(child(root, "e"), Some(&IrNode::Leaf(IrValue::CssVarRef("--e".into()))));
        }
        _ => panic!(),
    }
}

#[test]
fn as_object_mut_and_as_array_mut_give_children() {
    let mut o = IrNode::Object(Vec::new());
    o.as_object_mut().push(("k".to_string(), IrNode::Hole));
    assert_eq!(o, IrNode::Object(vec![("k".to_string(), IrNode::Hole)]));
    let mut a = IrNode::Array(Vec::new());
    a.as_array_mut().push(IrNode::Hole);
    assert_eq!(a, IrNode::Array(vec![IrNode::Hole]));
}
