use tokr::codegen::{generate_dts, generate_js, generate_node, generate_ts, generate_type_node};
use tokr::ir::{IrNode, IrValue};

#[test]
fn test_codegen() {
    let obj = vec![
        (
            "accent".to_string(),
            IrNode::Leaf(IrValue::CssVarRef("--accent".into())),
        ),
        (
            "primary".to_string(),
            IrNode::Leaf(IrValue::CssVarRef("--primary".into())),
        ),
    ];
    let ir = IrNode::Object(obj);

    let ts = generate_ts(&ir);
    println!("Generated TS:\n{}", ts);
    assert!(ts.contains("export const theme"));
    assert!(ts.contains("accent: \"var(--accent)\""));
    assert!(ts.contains("primary: \"var(--primary)\""));
}

fn sample() -> IrNode {
    IrNode::Object(vec![
        ("a".to_string(), IrNode::Leaf(IrValue::Raw("1px".into()))),
        (
            "b-c".to_string(),
            IrNode::Array(vec![
                IrNode::Leaf(IrValue::Raw("undefined".into())),
                IrNode::Hole,
                IrNode::Leaf(IrValue::CssVarRef("--x".into())),
            ]),
        ),
    ])
}

#[test]
fn ts_module_exact_text() {
    assert_eq!(
        generate_ts(&sample()),
        "export const theme = {a: \"1px\",\"b-c\": [undefined,undefined,\"var(--x)\"]} as const;\n"
    );
}

#[test]
fn js_module_exact_text() {
    assert_eq!(
        generate_js(&sample()),
        "export const theme = {a: \"1px\",\"b-c\": [undefined,undefined,\"var(--x)\"]};\n"
    );
}

#[test]
fn dts_exact_text() {
    assert_eq!(
        generate_dts(&sample()),
        "export declare const theme: {a: string,\"b-c\": [string,undefined,string]};\n"
    );
}

#[test]
fn empty_containers_and_quoted_keys() {
    let ir = IrNode::Object(vec![
        ("".to_string(), IrNode::Object(Vec::new())),
        ("1a".to_string(), IrNode::Array(Vec::new())),
        ("$ok_1".to_string(), IrNode::Leaf(IrValue::Raw("x".into()))),
    ]);
    assert_eq!(
        generate_ts(&ir),
        "export const theme = {\"\": {},\"1a\": [],$ok_1: \"x\"} as const;\n"
    );
}

fn mixed_object() -> IrNode {
    IrNode::Object(vec![
        (
            "a".to_string(),
            IrNode::Array(vec![
                IrNode::Leaf(IrValue::Raw("1".to_string())),
                IrNode::Hole,
                IrNode::Leaf(IrValue::Raw("undefined".to_string())),
            ]),
        ),
        ("b".to_string(), IrNode::Leaf(IrValue::CssVarRef("--b".to_string()))),
    ])
}

#[test]
fn generate_node_quotes_every_key() {
    let mut out = String::new();
    generate_node(&mixed_object(), &mut out);
    assert_eq!(out, r#"{"a": ["1",undefined,undefined],"b": "var(--b)"}"#);
}

#[test]
fn generate_type_node_quotes_every_key() {
    let mut out = String::from("x ");
    generate_type_node(&mixed_object(), &mut out);
    assert_eq!(out, r#"x {"a": [string,undefined,string],"b": string}"#);
}

#[test]
fn modules_leave_identifier_keys_bare() {
    assert_eq!(
        generate_js(&mixed_object()),
        "export const theme = {a: [\"1\",undefined,undefined],b: \"var(--b)\"};\n"
    );
    assert_eq!(
        generate_dts(&mixed_object()),
        "export declare const theme: {a: [string,undefined,string],b: string};\n"
    );
}

#[test]
fn modules_quote_other_keys() {
    let ir = IrNode::Object(vec![
        ("1".to_string(), IrNode::Leaf(IrValue::Raw("x".to_string()))),
        ("a-b".to_string(), IrNode::Leaf(IrValue::Raw("y".to_string()))),
        ("$c_2".to_string(), IrNode::Hole),
    ]);
    assert_eq!(
        generate_ts(&ir),
        "export const theme = {\"1\": \"x\",\"a-b\": \"y\",$c_2: undefined} as const;\n"
    );
}
