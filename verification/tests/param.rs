use ethabi::{Param, ParamIr, ParamType, Reader};

fn described(value: &serde_json::Value) -> ParamIr {
    let name = value["name"].as_str().unwrap().to_owned();
    let kind = Reader::read(value["type"].as_str().unwrap()).unwrap();
    let components = match value.get("components") {
        Some(list) => list.as_array().unwrap().iter().map(|c| Param::from(described(c))).collect(),
        None => vec![],
    };
    ParamIr { name, kind, components }
}

fn param_from_str(text: &str) -> Param {
    let value: serde_json::Value = serde_json::from_str(text).unwrap();
    Param::from(described(&value))
}

#[test]
fn param_deserialization() {
    let s = r#"{
			"name": "foo",
			"type": "address"
		}"#;

    let deserialized: Param = param_from_str(s);

    assert_eq!(
        deserialized,
        Param { name: "foo".to_owned(), kind: ParamType::Address, components: vec![] }
    );
}

#[test]
fn param_deserialization_with_components() {
    let s = r#"{
			"name": "foo",
			"type": "tuple",
			"components": [
				{
					"name": "bar",
					"type": "uint256"
				}
			]
		}"#;

    let deserialized: Param = param_from_str(s);

    assert_eq!(
        deserialized,
        Param {
            name: "foo".to_owned(),
            kind: ParamType::Tuple(vec![ParamType::Uint(256)]),
            components: vec![Param {
                name: "bar".to_owned(),
                kind: ParamType::Uint(256),
                components: vec![]
            }]
        }
    );
}

#[test]
fn tuple_kind_is_folded_from_two_components() {
    let described = ParamIr {
        name: "pair".to_owned(),
        kind: ParamType::Tuple(vec![]),
        components: vec![
            Param { name: "flag".to_owned(), kind: ParamType::Bool, components: vec![] },
            Param { name: "data".to_owned(), kind: ParamType::Bytes, components: vec![] },
        ],
    };
    let param = Param::from(described);
    assert_eq!(param.kind, ParamType::Tuple(vec![ParamType::Bool, ParamType::Bytes]));
    assert_eq!(param.name, "pair");
    assert_eq!(param.components.len(), 2);
    assert_eq!(param.components[0].name, "flag");
    assert_eq!(param.components[1].name, "data");
}

#[test]
fn components_replace_the_declared_members() {
    let described = ParamIr {
        name: "t".to_owned(),
        kind: ParamType::Tuple(vec![ParamType::Address, ParamType::Address]),
        components: vec![Param {
            name: "only".to_owned(),
            kind: ParamType::String,
            components: vec![],
        }],
    };
    assert_eq!(Param::from(described).kind, ParamType::Tuple(vec![ParamType::String]));
}

#[test]
fn tuple_without_components_keeps_its_kind() {
    let described = ParamIr {
        name: "t".to_owned(),
        kind: ParamType::Tuple(vec![ParamType::Bool, ParamType::Bytes]),
        components: vec![],
    };
    assert_eq!(
        Param::from(described).kind,
        ParamType::Tuple(vec![ParamType::Bool, ParamType::Bytes])
    );
}

#[test]
fn components_of_a_kind_that_is_no_tuple_are_kept_and_ignored() {
    let described = ParamIr {
        name: "n".to_owned(),
        kind: ParamType::Array(Box::new(ParamType::Bool)),
        components: vec![Param {
            name: "c".to_owned(),
            kind: ParamType::Uint(8),
            components: vec![],
        }],
    };
    let param = Param::from(described);
    assert_eq!(param.kind, ParamType::Array(Box::new(ParamType::Bool)));
    assert_eq!(param.components.len(), 1);
}

#[test]
fn nested_components_fold_one_level() {
    let inner = Param {
        name: "inner".to_owned(),
        kind: ParamType::Tuple(vec![ParamType::Bool]),
        components: vec![Param {
            name: "b".to_owned(),
            kind: ParamType::Bool,
            components: vec![],
        }],
    };
    let described = ParamIr {
        name: "outer".to_owned(),
        kind: ParamType::Tuple(vec![]),
        components: vec![inner.clone()],
    };
    let param = Param::from(described);
    assert_eq!(param.kind, ParamType::Tuple(vec![ParamType::Tuple(vec![ParamType::Bool])]));
    assert_eq!(param.components, vec![inner]);
}

#[test]
fn param_clone_is_equal() {
    let described = ParamIr {
        name: "foo".to_owned(),
        kind: ParamType::Tuple(vec![]),
        components: vec![Param {
            name: "bar".to_owned(),
            kind: ParamType::FixedArray(Box::new(ParamType::Int(16)), 3),
            components: vec![],
        }],
    };
    assert_eq!(described.clone(), described);
    let param = Param::from(described);
    assert_eq!(param.clone(), param);
}

#[test]
fn described_tuple_of_bool_and_bytes() {
    let param = param_from_str(
        r#"{"name": "foo", "type": "tuple", "components": [
            {"name": "bar", "type": "bool"}, {"name": "baz", "type": "bytes"}]}"#,
    );
    assert_eq!(param.kind, ParamType::Tuple(vec![ParamType::Bool, ParamType::Bytes]));
}
