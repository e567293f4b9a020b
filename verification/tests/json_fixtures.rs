use sszt::doc::DocNode;
use sszt::document_to_ssz;

fn from_json(v: &serde_json::Value) -> DocNode {
    match v {
        serde_json::Value::Null => DocNode::Null,
        serde_json::Value::Bool(b) => DocNode::Bool(*b),
        serde_json::Value::String(s) => DocNode::Text(s.clone()),
        serde_json::Value::Array(a) => DocNode::Sequence(a.iter().map(from_json).collect()),
        serde_json::Value::Object(o) => DocNode::Mapping(
            o.iter().map(|(k, v)| (k.clone(), from_json(v))).collect(),
        ),
        serde_json::Value::Number(_) => panic!("number scalars are not part of the tagging convention"),
    }
}

fn json_to_ssz(data: Vec<u8>) -> Vec<u8> {
    let v: serde_json::Value = serde_json::from_slice(&data).unwrap();
    document_to_ssz(&from_json(&v)).unwrap()
}

#[test]
fn test_simple_fixed_size() {
    let json = r#"{
        "fixed": [
            "vector",
            "0:u8",
            "1:u8",
            "2:u8",
            "3:u8",
            "4:u8"
        ],
        "other": {
            "a": "16:u16",
            "b": "32:u32"
        }
    }"#;

    assert_eq!(
        json_to_ssz(json.as_bytes().into()),
        [0, 1, 2, 3, 4, 16, 0, 32, 0, 0, 0]
    );
}

#[test]
fn test_recursive_fixed_size() {
    let json = r#"{
        "fixed": [
            "vector",
            ["vector", "0:u8"],
            ["vector", "1:u8"],
            ["vector", "2:u8"],
            ["vector", "3:u8"],
            ["vector", "4:u8"]
        ],
        "other": {
            "a": {
                "b": {
                    "c": {
                        "d": [
                            "vector",
                            "16:u16"
                        ]
                    }
                }
            },
            "b": "32:u32"
        }
    }"#;

    assert_eq!(
        json_to_ssz(json.as_bytes().into()),
        [0, 1, 2, 3, 4, 16, 0, 32, 0, 0, 0]
    );
}

#[test]
fn test_simple_variable_size() {
    let json = r#"[
        "list",
        "0:u8",
        "1:u8",
        "2:u8",
        "3:u8"
    ]"#;

    assert_eq!(json_to_ssz(json.as_bytes().into()), [4, 0, 0, 0, 0, 1, 2, 3]);
}

#[test]
fn test_variable_size() {
    let json = r#"{
        "lists": {
            "a_list": [
                "list",
                "0:u8",
                "1:u8",
                "2:u8",
                "3:u8"
            ]
        }
    }"#;

    assert_eq!(
        json_to_ssz(json.as_bytes().into()),
        [12, 0, 0, 0, 8, 0, 0, 0, 4, 0, 0, 0, 0, 1, 2, 3]
    );
}
