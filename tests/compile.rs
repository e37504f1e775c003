use ts2rs::classify::{snake_case_exec, TargetKind};
use ts2rs::emit::compile;
use ts2rs::schema::{Field, Literal, Primitive, SourceType};
use ts2rs::table::{CompileError, Table};

fn field(name: &str, ty: SourceType) -> Field {
    Field { name: name.to_string(), ty, optional: false }
}

fn lit_str(s: &str) -> SourceType {
    SourceType::Lit(Literal::Str(s.to_string()))
}

fn lit_num(s: &str) -> SourceType {
    SourceType::Lit(Literal::Num(s.to_string()))
}

fn num() -> SourceType {
    SourceType::Prim(Primitive::Num)
}

fn shapes_table() -> Table {
    let mut t = Table::new();
    let rect = SourceType::Record(
        vec![field("type", lit_str("rectangle")), field("width", num()), field("height", num())],
        false,
    );
    let circle = SourceType::Record(vec![field("type", lit_str("circle")), field("radius", num())], false);
    assert!(t.declare("Rectangle".to_string(), rect).is_ok());
    assert!(t.declare("Circle".to_string(), circle).is_ok());
    let shape = SourceType::Union(vec![
        SourceType::Ref("Rectangle".to_string()),
        SourceType::Ref("Circle".to_string()),
    ]);
    assert!(t.declare("Shape".to_string(), shape).is_ok());
    t
}

#[test]
fn tagged_union_selects_type_field() {
    let t = shapes_table();
    let defs = compile(&t, &"Shape".to_string(), false).ok().unwrap();
    assert_eq!(defs.len(), 3);
    assert_eq!(defs[0].name, "Shape");
    match &defs[0].kind {
        TargetKind::Tagged { tag, values } => {
            assert_eq!(tag, "type");
            assert_eq!(values.len(), 2);
            assert!(matches!(&values[0], Literal::Str(s) if s == "rectangle"));
            assert!(matches!(&values[1], Literal::Str(s) if s == "circle"));
        }
        _ => panic!("expected a tagged union"),
    }
    let mut names: Vec<String> = defs.iter().map(|d| d.name.clone()).collect();
    names.sort();
    assert_eq!(names, vec!["Circle", "Rectangle", "Shape"]);
}

#[test]
fn union_without_tag_is_ambiguous() {
    let mut t = Table::new();
    let a = SourceType::Record(vec![field("width", num())], false);
    let b = SourceType::Record(vec![field("radius", num())], false);
    t.declare("A".to_string(), a).ok().unwrap();
    t.declare("B".to_string(), b).ok().unwrap();
    let u = SourceType::Union(vec![SourceType::Ref("A".to_string()), SourceType::Ref("B".to_string())]);
    t.declare("U".to_string(), u).ok().unwrap();
    match compile(&t, &"U".to_string(), false) {
        Err(CompileError::AmbiguousDiscriminant(n)) => assert_eq!(n, "U"),
        _ => panic!("expected AmbiguousDiscriminant"),
    }
}

#[test]
fn union_with_two_candidate_tags_is_ambiguous() {
    let mut t = Table::new();
    let a = SourceType::Record(vec![field("kind", lit_str("a")), field("code", lit_num("1"))], false);
    let b = SourceType::Record(vec![field("kind", lit_str("b")), field("code", lit_num("2"))], false);
    let u = SourceType::Union(vec![a, b]);
    t.declare("U".to_string(), u).ok().unwrap();
    assert!(matches!(compile(&t, &"U".to_string(), false), Err(CompileError::AmbiguousDiscriminant(_))));
}

#[test]
fn shared_tag_value_is_ambiguous() {
    let mut t = Table::new();
    let a = SourceType::Record(vec![field("kind", lit_str("same")), field("x", num())], false);
    let b = SourceType::Record(vec![field("kind", lit_str("same")), field("y", num())], false);
    t.declare("U".to_string(), SourceType::Union(vec![a, b])).ok().unwrap();
    assert!(matches!(compile(&t, &"U".to_string(), false), Err(CompileError::AmbiguousDiscriminant(_))));
}

#[test]
fn missing_root_is_type_not_found() {
    let t = shapes_table();
    match compile(&t, &"Triangle".to_string(), false) {
        Err(CompileError::TypeNotFound(n)) => assert_eq!(n, "Triangle"),
        _ => panic!("expected TypeNotFound"),
    }
}

#[test]
fn missing_reference_is_unresolved() {
    let mut t = Table::new();
    let r = SourceType::Record(vec![field("owner", SourceType::Ref("Person".to_string()))], false);
    t.declare("Pet".to_string(), r).ok().unwrap();
    match compile(&t, &"Pet".to_string(), false) {
        Err(CompileError::UnresolvedReference(n)) => assert_eq!(n, "Person"),
        _ => panic!("expected UnresolvedReference"),
    }
}

#[test]
fn function_type_is_unsupported() {
    let mut t = Table::new();
    let r = SourceType::Record(vec![field("callback", SourceType::Unsupported)], false);
    t.declare("Handler".to_string(), r).ok().unwrap();
    match compile(&t, &"Handler".to_string(), false) {
        Err(CompileError::UnsupportedConstruct(n)) => assert_eq!(n, "Handler"),
        _ => panic!("expected UnsupportedConstruct"),
    }
}

#[test]
fn duplicate_declaration_is_refused() {
    let mut t = Table::new();
    t.declare("A".to_string(), num()).ok().unwrap();
    match t.declare("A".to_string(), lit_str("x")) {
        Err(CompileError::DuplicateDeclaration(n)) => assert_eq!(n, "A"),
        _ => panic!("expected DuplicateDeclaration"),
    }
    assert_eq!(t.decls.len(), 1);
}

#[test]
fn literal_enum_keeps_each_literal() {
    let mut t = Table::new();
    let status = SourceType::Union(vec![lit_str("Processing"), lit_str("Shipped"), lit_str("Delivered"), lit_str("Shipped")]);
    t.declare("OrderStatus".to_string(), status).ok().unwrap();
    let defs = compile(&t, &"OrderStatus".to_string(), false).ok().unwrap();
    match &defs[0].kind {
        TargetKind::Enum { variants } => {
            assert_eq!(variants.len(), 3);
            let texts: Vec<&str> = variants
                .iter()
                .map(|v| match v {
                    Literal::Str(s) => s.as_str(),
                    Literal::Num(_) => panic!("expected string literals"),
                })
                .collect();
            assert_eq!(texts, vec!["Processing", "Shipped", "Delivered"]);
        }
        _ => panic!("expected an enum"),
    }
}

#[test]
fn numeric_looking_strings_stay_apart_from_numbers() {
    let mut t = Table::new();
    let u = SourceType::Union(vec![lit_str("1"), lit_str("2"), lit_str("3"), lit_num("1"), lit_num("2"), lit_num("3")]);
    t.declare("Level".to_string(), u).ok().unwrap();
    let defs = compile(&t, &"Level".to_string(), false).ok().unwrap();
    match &defs[0].kind {
        TargetKind::Enum { variants } => {
            assert_eq!(variants.len(), 6);
            assert!(matches!(&variants[0], Literal::Str(s) if s == "1"));
            assert!(matches!(&variants[3], Literal::Num(s) if s == "1"));
        }
        _ => panic!("expected an enum"),
    }
}

#[test]
fn index_signature_opens_record_only_when_lenient() {
    let mut t = Table::new();
    let r = SourceType::Record(vec![field("userName", SourceType::Prim(Primitive::Str))], true);
    t.declare("Config".to_string(), r).ok().unwrap();
    let lenient = compile(&t, &"Config".to_string(), false).ok().unwrap();
    let strict = compile(&t, &"Config".to_string(), true).ok().unwrap();
    match (&lenient[0].kind, &strict[0].kind) {
        (TargetKind::Struct { fields, open: true }, TargetKind::Struct { open: false, .. }) => {
            assert_eq!(fields[0].wire, "userName");
            assert_eq!(fields[0].name, "user_name");
        }
        _ => panic!("expected an open record when lenient and a closed one when strict"),
    }
}

#[test]
fn tuple_map_and_optional_classes() {
    let mut t = Table::new();
    let dp = SourceType::Record(
        vec![
            field("values", SourceType::Tuple(vec![SourceType::Prim(Primitive::Str), num()])),
            field("metadata", SourceType::MapLike(Box::new(num()))),
        ],
        false,
    );
    t.declare("DataPoint".to_string(), dp).ok().unwrap();
    t.declare("Pair".to_string(), SourceType::Tuple(vec![SourceType::Prim(Primitive::Str), num()])).ok().unwrap();
    let defs = compile(&t, &"Pair".to_string(), false).ok().unwrap();
    assert_eq!(defs.len(), 1);
    assert!(matches!(defs[0].kind, TargetKind::Tuple));
    t.declare("Scores".to_string(), SourceType::MapLike(Box::new(num()))).ok().unwrap();
    t.declare("Maybe".to_string(), SourceType::Union(vec![num(), SourceType::Prim(Primitive::Null)])).ok().unwrap();
    t.declare("Either".to_string(), SourceType::Union(vec![num(), SourceType::Prim(Primitive::Str)])).ok().unwrap();
    t.declare("Other".to_string(), SourceType::Ref("Pair".to_string())).ok().unwrap();
    assert!(matches!(compile(&t, &"Scores".to_string(), false).ok().unwrap()[0].kind, TargetKind::MapLike));
    assert!(matches!(compile(&t, &"Maybe".to_string(), false).ok().unwrap()[0].kind, TargetKind::Optional));
    assert!(matches!(compile(&t, &"Either".to_string(), false).ok().unwrap()[0].kind, TargetKind::Untagged));
    let other = compile(&t, &"Other".to_string(), false).ok().unwrap();
    assert!(matches!(other[0].kind, TargetKind::Alias));
    assert!(matches!(other[1].kind, TargetKind::Tuple));
    let defs = compile(&t, &"DataPoint".to_string(), false).ok().unwrap();
    assert!(matches!(&defs[0].kind, TargetKind::Struct { fields, open: false } if fields.len() == 2));
}

#[test]
fn recursive_reference_is_emitted_once() {
    let mut t = Table::new();
    let node = SourceType::Record(
        vec![field("children", SourceType::Array(Box::new(SourceType::Ref("Node".to_string()))))],
        false,
    );
    t.declare("Node".to_string(), node).ok().unwrap();
    let defs = compile(&t, &"Node".to_string(), false).ok().unwrap();
    assert_eq!(defs.len(), 1);
}

#[test]
fn snake_case_of_field_names() {
    assert_eq!(snake_case_exec(&"totalPrice".to_string()), "total_price");
    assert_eq!(snake_case_exec(&"inStock".to_string()), "in_stock");
    assert_eq!(snake_case_exec(&"id".to_string()), "id");
    assert_eq!(snake_case_exec(&"URL".to_string()), "u_r_l");
    assert_eq!(snake_case_exec(&"Name".to_string()), "name");
}

#[test]
fn emission_order_is_first_discovery_depth_first() {
    let mut t = Table::new();
    let a = SourceType::Record(
        vec![field("b", SourceType::Ref("B".to_string())), field("c", SourceType::Ref("C".to_string()))],
        false,
    );
    let b = SourceType::Record(vec![field("d", SourceType::Ref("D".to_string()))], false);
    t.declare("A".to_string(), a).ok().unwrap();
    t.declare("B".to_string(), b).ok().unwrap();
    t.declare("C".to_string(), num()).ok().unwrap();
    t.declare("D".to_string(), SourceType::Ref("C".to_string())).ok().unwrap();
    let defs = compile(&t, &"A".to_string(), false).ok().unwrap();
    let names: Vec<&str> = defs.iter().map(|d| d.name.as_str()).collect();
    assert_eq!(names, vec!["A", "B", "D", "C"]);
}
