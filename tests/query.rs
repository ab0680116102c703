use gdp::ast::ASTExpression;
use gdp::frame::Frame;
use gdp::generic_query::{GenericQueries, QueryError};
use gdp::json::{Json, Num};
use gdp::parser::MyParser;
use gdp::query::{Catalog, QueryProgram};
use gdp::value::Value;

fn text(s: &str) -> Json {
    Json::Str(s.to_string())
}

fn object(entries: Vec<(&str, Json)>) -> Json {
    Json::Object(entries.into_iter().map(|(k, v)| (k.to_string(), v)).collect())
}

fn program(datasets: Vec<(&str, Json)>, text_maps: Vec<(&str, Json)>) -> QueryProgram {
    QueryProgram {
        generic_query: GenericQueries::with_builtins(),
        catalog: Catalog {
            datasets: datasets.into_iter().map(|(k, v)| (k.to_string(), v)).collect(),
            text_maps: text_maps.into_iter().map(|(k, v)| (k.to_string(), v)).collect(),
        },
    }
}

fn empty_program() -> QueryProgram {
    program(vec![], vec![])
}

fn bound<'a>(f: &'a Frame, name: &str) -> &'a Json {
    &f.get(name).expect("variable is bound").json
}

fn sorted(f: &Frame) -> Vec<(String, Json)> {
    let mut v: Vec<(String, Json)> = f.entries().iter().map(|(k, v)| (k.clone(), v.json.clone())).collect();
    v.sort_by(|a, b| a.0.cmp(&b.0));
    v
}

fn weapons() -> QueryProgram {
    program(
        vec![
            (
                "Weapon",
                Json::Array(vec![
                    object(vec![("id", Json::Number(Num::Int(1))), ("name", Json::Number(Num::Int(500)))]),
                    object(vec![("id", Json::Number(Num::Int(2))), ("name", Json::Number(Num::Int(600)))]),
                    object(vec![("id", Json::Number(Num::Int(3)))]),
                ]),
            ),
        ],
        vec![("CHS", object(vec![("500", text("sword")), ("600", text("bow")), ("700", text("sword"))]))],
    )
}

#[test]
fn and_chain_nests_left() {
    let e = MyParser::parsestring_expression("A ?x && B ?y && C ?z").expect("parses");
    match e {
        ASTExpression::AndExpression(outer) => {
            match *outer.right {
                ASTExpression::PrimaryExpression(p) => assert_eq!(p.predicate, vec!["C".to_string()]),
                _ => panic!("right operand is the last call"),
            }
            match *outer.left {
                ASTExpression::AndExpression(inner) => {
                    assert!(matches!(*inner.left, ASTExpression::PrimaryExpression(_)));
                    assert!(matches!(*inner.right, ASTExpression::PrimaryExpression(_)));
                },
                _ => panic!("left operand is a conjunction"),
            }
        },
        _ => panic!("a conjunction"),
    }
}

#[test]
fn or_chain_nests_left() {
    let e = MyParser::parsestring_expression("A ?x || B ?y || C ?z").expect("parses");
    match e {
        ASTExpression::OrExpression(outer) => {
            assert!(matches!(*outer.left, ASTExpression::OrExpression(_)));
            assert!(matches!(*outer.right, ASTExpression::PrimaryExpression(_)));
        },
        _ => panic!("a disjunction"),
    }
}

#[test]
fn and_binds_tighter_than_or() {
    let e = MyParser::parsestring_expression("A ?x || B ?y && C ?z").expect("parses");
    match e {
        ASTExpression::OrExpression(o) => assert!(matches!(*o.right, ASTExpression::AndExpression(_))),
        _ => panic!("a disjunction"),
    }
}

#[test]
fn dotted_path_and_arguments() {
    let e = MyParser::parsestring_expression("Res.a.b ?x \"t x\" 12 -1.5").expect("parses");
    match e {
        ASTExpression::PrimaryExpression(p) => {
            assert_eq!(p.predicate, vec!["Res".to_string(), "a".to_string(), "b".to_string()]);
            assert_eq!(p.args.len(), 4);
            assert!(matches!(&p.args[0], ASTExpression::Variable(v) if v.name == "x"));
            assert!(matches!(&p.args[1], ASTExpression::String(s) if s.value == "t x"));
            assert!(matches!(&p.args[2], ASTExpression::Number(Num::Int(12))));
            assert!(matches!(&p.args[3], ASTExpression::Number(Num::Micro(-1500000))));
        },
        _ => panic!("a call"),
    }
}

#[test]
fn malformed_query_gives_nothing() {
    assert!(MyParser::parsestring_expression("A ?x &&").is_none());
    assert!(MyParser::parsestring_expression("(A ?x").is_none());
    let r = weapons().query("Weapon ?x && ").expect("no error");
    assert!(r.is_empty());
}

#[test]
fn equal_values_hash_equal() {
    let a = Value::from_json(object(vec![("id", Json::Number(Num::Int(1))), ("k", text("v"))]));
    let b = Value::from_json(object(vec![("id", Json::Number(Num::Int(1))), ("k", text("v"))]));
    let c = Value::from_json(object(vec![("id", Json::Number(Num::Int(2))), ("k", text("v"))]));
    assert_eq!(a.hash, b.hash);
    assert_ne!(a.hash, c.hash);
    assert_eq!(Value::from_number(Num::Int(3)).hash, Value::from_json(Json::Number(Num::Int(3))).hash);
    assert_eq!(Value::from_string("3").hash, Value::from_number(Num::Int(3)).hash);
    assert_eq!(Value::from_string("-500").hash, Value::from_number(Num::Int(-500)).hash);
    assert_ne!(Value::from_string("3").hash, Value::from_number(Num::Micro(3000001)).hash);
}

#[test]
fn repeated_variable_must_agree() {
    let p = program(vec![("Pair", Json::Array(vec![object(vec![("a", text("x"))])]))], vec![]);
    let r = p.query("Pair.a ?r ?r").expect("no error");
    assert!(r.is_empty());
    let r = p.query("Pair.a ?r ?v && Pair.a ?s ?v").expect("no error");
    assert_eq!(r.len(), 1);
    assert_eq!(bound(&r[0], "v"), &text("x"));
}

#[test]
fn and_composes_left_to_right() {
    let p = weapons();
    let whole = p.query("Weapon.name ?w ?h && CHS ?h ?t").expect("no error");
    let left = MyParser::parsestring_expression("Weapon.name ?w ?h").unwrap();
    let right = MyParser::parsestring_expression("CHS ?h ?t").unwrap();
    let mid = p.query_internal(&vec![Frame::new()], &left).expect("no error");
    let step = p.query_internal(&mid, &right).expect("no error");
    assert_eq!(mid.len(), 2);
    assert_eq!(whole.len(), 2);
    assert_eq!(bound(&whole[0], "t"), &text("sword"));
    assert_eq!(bound(&whole[1], "t"), &text("bow"));
    assert_eq!(whole.len(), step.len());
    for (a, b) in whole.iter().zip(step.iter()) {
        assert_eq!(sorted(a), sorted(b));
    }
}

#[test]
fn or_concatenates_in_order() {
    let p = weapons();
    let whole = p.query("CHS \"500\" ?t || CHS \"600\" ?t").expect("no error");
    assert_eq!(whole.len(), 2);
    assert_eq!(bound(&whole[0], "t"), &text("sword"));
    assert_eq!(bound(&whole[1], "t"), &text("bow"));
    let one_side = p.query("CHS \"999\" ?t || CHS \"600\" ?t").expect("no error");
    assert_eq!(one_side.len(), 1);
    let neither = p.query("CHS \"999\" ?t || Nothing ?t").expect("no error");
    assert!(neither.is_empty());
}

#[test]
fn split_by_all_bound_keeps_frame() {
    let r = empty_program().query("split_by \"UI_\" \"Equip\" \"Icon\" \"UI_EquipIcon\"").expect("no error");
    assert_eq!(r.len(), 1);
    assert!(r[0].entries().is_empty());
}

#[test]
fn split_by_mismatch_drops_frame() {
    let r = empty_program().query("split_by \"a\" \"b\" \"c\" \"xyz\"").expect("no error");
    assert!(r.is_empty());
}

#[test]
fn split_by_solves_prefix() {
    let r = empty_program().query("split_by ?p \"Equip\" \"Icon\" \"UI_EquipIcon\"").expect("no error");
    assert_eq!(r.len(), 1);
    assert_eq!(bound(&r[0], "p"), &text("UI_"));
}

#[test]
fn split_by_solves_middle_and_suffix() {
    let r = empty_program().query("split_by \"UI_\" ?m \"Icon\" \"UI_EquipIcon\"").expect("no error");
    assert_eq!(r.len(), 1);
    assert_eq!(bound(&r[0], "m"), &text("Equip"));
    let r = empty_program().query("split_by \"UI_\" \"Equip\" ?s \"UI_EquipIcon\"").expect("no error");
    assert_eq!(bound(&r[0], "s"), &text("Icon"));
    let r = empty_program().query("split_by \"ab\" ?m \"bc\" \"abc\"").expect("no error");
    assert!(r.is_empty());
}

#[test]
fn split_by_three_free_enumerates_pairs() {
    let r = empty_program().query("split_by ?a ?b ?c \"abc\"").expect("no error");
    assert_eq!(r.len(), 10);
    assert_eq!(bound(&r[0], "a"), &text(""));
    assert_eq!(bound(&r[0], "c"), &text("abc"));
    assert_eq!(bound(&r[9], "a"), &text("abc"));
    for f in r.iter() {
        let parts: Vec<String> = ["a", "b", "c"]
            .iter()
            .map(|n| match bound(f, n) {
                Json::Str(s) => s.clone(),
                _ => panic!("a string"),
            })
            .collect();
        assert_eq!(parts.concat(), "abc");
    }
}

#[test]
fn split_by_two_free_enumerates_cuts() {
    let r = empty_program().query("split_by ?a ?b \"c\" \"xyc\"").expect("no error");
    assert_eq!(r.len(), 3);
    assert_eq!(bound(&r[1], "a"), &text("x"));
    assert_eq!(bound(&r[1], "b"), &text("y"));
    let r = empty_program().query("split_by \"x\" ?b ?c \"xyz\"").expect("no error");
    assert_eq!(r.len(), 3);
    let r = empty_program().query("split_by ?a \"y\" ?c \"xyzy\"").expect("no error");
    assert_eq!(r.len(), 2);
    assert_eq!(bound(&r[0], "a"), &text("x"));
    assert_eq!(bound(&r[0], "c"), &text("zy"));
    assert_eq!(bound(&r[1], "c"), &text(""));
}

#[test]
fn split_by_whole_free_is_an_error() {
    let r = empty_program().query("split_by ?a ?b ?c ?d");
    assert_eq!(r.err(), Some(QueryError::UnboundedSolutionSpace));
    let r = empty_program().query("split_by \"a\" \"b\" \"c\" ?d");
    assert_eq!(r.err(), Some(QueryError::UnboundedSolutionSpace));
}

#[test]
fn split_by_uses_bindings_of_the_frame() {
    let r = weapons().query("CHS \"600\" ?w && split_by ?p \"o\" ?s ?w").expect("no error");
    assert_eq!(r.len(), 1);
    assert_eq!(bound(&r[0], "p"), &text("b"));
    assert_eq!(bound(&r[0], "s"), &text("w"));
}

#[test]
fn dataset_lookup_binds_record_and_field() {
    let record = object(vec![("id", Json::Number(Num::Int(1))), ("nameTextMapHash", Json::Number(Num::Int(500)))]);
    let p = program(vec![("Resource", Json::Array(vec![record.clone()]))], vec![]);
    let r = p.query("Resource.nameTextMapHash ?x ?y").expect("no error");
    assert_eq!(r.len(), 1);
    assert_eq!(bound(&r[0], "x"), &record);
    assert_eq!(bound(&r[0], "y"), &Json::Number(Num::Int(500)));
}

#[test]
fn dataset_lookup_skips_records_without_field() {
    let r = weapons().query("Weapon.name ?x ?y").expect("no error");
    assert_eq!(r.len(), 2);
    let r = weapons().query("Weapon ?x").expect("no error");
    assert_eq!(r.len(), 3);
    let r = weapons().query("Weapon.name ?x 600").expect("no error");
    assert_eq!(r.len(), 1);
    assert_eq!(bound(&r[0], "x"), &object(vec![("id", Json::Number(Num::Int(2))), ("name", Json::Number(Num::Int(600)))]));
    let r = weapons().query("Weapon.name.deeper ?x ?y").expect("no error");
    assert!(r.is_empty());
    let r = weapons().query("Missing ?x").expect("no error");
    assert!(r.is_empty());
}

#[test]
fn translation_lookup_by_text() {
    let p = program(vec![], vec![("CHS", object(vec![("K1", text("祭礼剑")), ("K2", text(""))]))]);
    let r = p.query("CHS ?k \"祭礼剑\"").expect("no error");
    assert_eq!(r.len(), 1);
    assert_eq!(bound(&r[0], "k"), &text("K1"));
}

#[test]
fn translation_empty_text_never_matches() {
    let p = program(vec![], vec![("CHS", object(vec![("K1", text("祭礼剑")), ("K2", text(""))]))]);
    let r = p.query("CHS \"K2\" ?v").expect("no error");
    assert!(r.is_empty());
    let r = p.query("CHS ?k \"\"").expect("no error");
    assert!(r.is_empty());
    let r = p.query("CHS ?k ?v").expect("no error");
    assert_eq!(r.len(), 1);
    let r = p.query("CHS \"K1\" ?v").expect("no error");
    assert_eq!(bound(&r[0], "v"), &text("祭礼剑"));
    let r = p.query("CHS \"K1\" \"other\"").expect("no error");
    assert!(r.is_empty());
}

#[test]
fn translation_by_text_finds_every_key() {
    let r = weapons().query("CHS ?k \"sword\"").expect("no error");
    assert_eq!(r.len(), 2);
    assert_eq!(bound(&r[0], "k"), &text("500"));
    assert_eq!(bound(&r[1], "k"), &text("700"));
}

#[test]
fn unknown_predicate_gives_nothing() {
    let r = weapons().query("Nothing ?x ?y").expect("no error");
    assert!(r.is_empty());
    let r = weapons().query("Nothing ?x && Weapon ?y").expect("no error");
    assert!(r.is_empty());
}

#[test]
fn numbers_within_a_millionth_of_an_integer_are_that_integer() {
    let e = MyParser::parsestring_expression("A 1.0000001 2.5 -0.000001 007").expect("parses");
    match e {
        ASTExpression::PrimaryExpression(p) => {
            assert!(matches!(&p.args[0], ASTExpression::Number(Num::Int(1))));
            assert!(matches!(&p.args[1], ASTExpression::Number(Num::Micro(2500000))));
            assert!(matches!(&p.args[2], ASTExpression::Number(Num::Micro(-1))));
            assert!(matches!(&p.args[3], ASTExpression::Number(Num::Int(7))));
            let one = p.args[0].try_to_value().unwrap();
            assert_eq!(one.hash, Value::from_number(Num::Int(1)).hash);
        },
        _ => panic!("a call"),
    }
    assert!(MyParser::parsestring_expression("A 1234567890123456789").is_none());
    assert!(MyParser::parsestring_expression("A 1234567890123.5").is_none());
    let big = MyParser::parsestring_expression("A 123456789012345678").expect("parses");
    match big {
        ASTExpression::PrimaryExpression(p) => {
            assert!(matches!(&p.args[0], ASTExpression::Number(Num::Int(123456789012345678))))
        },
        _ => panic!("a call"),
    }
    assert!(MyParser::parsestring_expression("A 1.").is_none());
}

#[test]
fn number_literal_matches_record_field() {
    let r = weapons().query("Weapon.id ?x 2.0000000 && Weapon.name ?x ?n").expect("no error");
    assert_eq!(r.len(), 1);
    assert_eq!(bound(&r[0], "n"), &Json::Number(Num::Int(600)));
}

#[test]
fn numeric_field_joins_text_key() {
    let p = weapons();
    let r = p.query("Weapon.name ?x ?y && CHS ?y \"bow\"").expect("no error");
    assert_eq!(r.len(), 1);
    assert_eq!(bound(&r[0], "y"), &Json::Number(Num::Int(600)));
    let r = p.query("CHS 500 ?t").expect("no error");
    assert_eq!(r.len(), 1);
    assert_eq!(bound(&r[0], "t"), &text("sword"));
}

#[test]
fn split_by_repeated_variable_must_take_equal_parts() {
    let r = empty_program().query("split_by ?a ?a \"c\" \"xc\"").expect("no error");
    assert!(r.is_empty());
    let r = empty_program().query("split_by ?a ?a \"\" \"xx\"").expect("no error");
    assert_eq!(r.len(), 1);
    assert_eq!(bound(&r[0], "a"), &text("x"));
    let r = empty_program().query("split_by ?a ?b ?a \"aba\"").expect("no error");
    assert_eq!(r.len(), 2);
    assert_eq!(bound(&r[0], "a"), &text(""));
    assert_eq!(bound(&r[0], "b"), &text("aba"));
    assert_eq!(bound(&r[1], "a"), &text("a"));
    assert_eq!(bound(&r[1], "b"), &text("b"));
    let r = empty_program().query("split_by ?a \"-\" ?a \"x-x\"").expect("no error");
    assert_eq!(r.len(), 1);
}

#[test]
fn object_key_order_does_not_change_hash() {
    let a = Value::from_json(object(vec![("id", Json::Number(Num::Int(1))), ("name", text("x")), ("z", Json::Null)]));
    let b = Value::from_json(object(vec![("z", Json::Null), ("name", text("x")), ("id", Json::Number(Num::Int(1)))]));
    assert_eq!(a.hash, b.hash);
    let p = program(vec![("R", Json::Array(vec![object(vec![("b", text("1")), ("a", text("2"))])]))], vec![]);
    let r = p.query("R ?x && R ?x").expect("no error");
    assert_eq!(r.len(), 1);
}

#[test]
fn numbers_just_below_an_integer_are_that_integer() {
    let e = MyParser::parsestring_expression("A 2.9999995 2.999999 -0.9999999 2.9999990").expect("parses");
    match e {
        ASTExpression::PrimaryExpression(p) => {
            assert!(matches!(&p.args[0], ASTExpression::Number(Num::Int(3))));
            assert!(matches!(&p.args[1], ASTExpression::Number(Num::Micro(2999999))));
            assert!(matches!(&p.args[2], ASTExpression::Number(Num::Int(-1))));
            assert!(matches!(&p.args[3], ASTExpression::Number(Num::Micro(2999999))));
        },
        _ => panic!("a call"),
    }
}

#[test]
fn split_by_reads_fractional_numbers_as_text() {
    let r = empty_program().query("split_by ?a \".\" ?b 1.5").expect("no error");
    assert_eq!(r.len(), 1);
    assert_eq!(bound(&r[0], "a"), &text("1"));
    assert_eq!(bound(&r[0], "b"), &text("5"));
}
