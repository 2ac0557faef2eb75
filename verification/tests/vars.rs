use jdc_core::ir::TypeRef;
use jdc_core::types::{
    binary_simple_name, dotted_source, internal_name_to_java, parse_class_signature, parse_field_descriptor,
    parse_field_signature, parse_method_descriptor, parse_method_signature, parse_type_at, render_type_params,
    GenericType, JavaType, TypeParam, WildcardBound,
};
use jdc_core::typeutil::{classsig_internal, g_has_typevar, g_has_wildcard, g_mentions_any, subst_typevars};
use jdc_core::var::{sig_matches_base, sig_type_at, unknown_ref_type, VarTable};

fn int_ref() -> TypeRef {
    TypeRef::J(JavaType::Int)
}

#[test]
fn variables_are_found_on_their_slot() {
    let mut t = VarTable::default();
    assert_eq!(t.add_catch_var(2, "a".to_string(), int_ref()), 0);
    assert_eq!(t.add_split(0, "b".to_string(), int_ref()), 1);
    assert_eq!(t.sole_on_slot(2), Some(0));
    assert_eq!(t.sole_on_slot(0), None);
    assert_eq!(t.sole_on_slot(9), None);
    assert_eq!(t.at(2, 40), Some(0));
    assert_eq!(t.at(0, 40), None);
    assert_eq!(t.var(1).name, "b");
    t.var_mut(1).name = "c".to_string();
    assert_eq!(t.var(1).name, "c");
    t.add_catch_var(2, "d".to_string(), int_ref());
    assert_eq!(t.sole_on_slot(2), None);
    assert_eq!(t.vars_on_slot(2), &[(0, u16::MAX, 0), (0, u16::MAX, 2)]);
    assert_eq!(t.vars_on_slot(7).len(), 0);
}

#[test]
fn live_ranges_pick_the_variable() {
    let mut t = VarTable::default();
    t.add_catch_var(1, "a".to_string(), int_ref());
    t.add_catch_var(1, "b".to_string(), int_ref());
    t.by_slot[1] = vec![(10, 20, 0), (30, 40, 1)];
    assert_eq!(t.at(1, 15), Some(0));
    assert_eq!(t.at(1, 25), Some(1));
    assert_eq!(t.at(1, 3), Some(0));
    assert_eq!(t.at(1, 1), Some(0));
    assert_eq!(t.at(1, 50), Some(1));
    t.handler_starts.push(29);
    assert_eq!(t.at(1, 25), Some(0));
}

#[test]
fn unknown_variable_has_a_placeholder_name() {
    let t = VarTable::default();
    assert_eq!(t.var(12).name, "var12");
    assert_eq!(t.at(0, 0), None);
}

#[test]
fn stack_and_catch_variables() {
    let mut t = VarTable::default();
    let s = t.add_stack_var(3, "s".to_string(), int_ref());
    assert_eq!(t.stack_vars, vec![s]);
    let c = t.add_catch_var(3, "e".to_string(), unknown_ref_type());
    assert_eq!(c, s + 1);
    assert_eq!(t.stack_vars, vec![s]);
    assert_eq!(
        unknown_ref_type(),
        TypeRef::G(parse_field_signature("Ljava/lang/Object;").unwrap())
    );
}

#[test]
fn variable_signatures() {
    let rows = vec![(4u16, 9u16, "Ljava/util/List<TE;>;".to_string(), 1u16)];
    let list = JavaType::Object("java/util/List".to_string());
    assert!(sig_type_at(&rows, 4, 1, &list).is_some());
    assert!(sig_type_at(&rows, 5, 1, &list).is_none());
    assert!(sig_type_at(&rows, 4, 1, &JavaType::Int).is_none());
    let var = TypeRef::G(GenericType::TypeVar("T".to_string()));
    assert!(sig_matches_base(&var, &list));
    assert!(!sig_matches_base(&var, &JavaType::Long));
    assert!(sig_matches_base(&int_ref(), &list));
}

#[test]
fn names_in_source_form() {
    assert_eq!(internal_name_to_java("java/util/Map$Entry", true), "java.util.Map.Entry");
    assert_eq!(internal_name_to_java("java/lang/String", false), "String");
    assert_eq!(internal_name_to_java("a/b/Outer$Inner", false), "Outer$Inner");
    assert_eq!(internal_name_to_java("a/b/Outer$1Local", false), "Local");
    assert_eq!(binary_simple_name("Outer$Inner"), "Outer.Inner");
    assert_eq!(binary_simple_name("a/b/Outer$Inner"), "Outer.Inner");
    assert_eq!(binary_simple_name("a/b/Outer$1Local"), "Local");
    assert_eq!(binary_simple_name("a/DolTest2$$dollah$$"), "DolTest2$$dollah$$");
    assert_eq!(binary_simple_name("java/lang/String"), "String");
    assert_eq!(dotted_source("a/b/Outer$Inner"), "a.b.Outer.Inner");
}

#[test]
fn type_facts() {
    assert_eq!(JavaType::Long.slot_size(), 2);
    assert_eq!(JavaType::Int.slot_size(), 1);
    assert!(JavaType::Double.is_wide());
    assert!(JavaType::Char.is_integral());
    assert!(JavaType::Float.is_numeric());
    assert!(!JavaType::Boolean.is_numeric());
    assert!(JavaType::Array(Box::new(JavaType::Int)).is_reference());
    assert!(!JavaType::Void.is_reference());
    assert_eq!(JavaType::Long.primitive_char(), Some('J'));
    assert_eq!(JavaType::Object("a/B".to_string()).primitive_char(), None);
    assert_eq!(JavaType::Array(Box::new(JavaType::Object("a/B".to_string()))).to_java(true), "a.B[]");
    assert_eq!(JavaType::Array(Box::new(JavaType::Short)).to_descriptor(), "[S");
}

#[test]
fn malformed_descriptors_are_refused() {
    for s in ["", "Q", "[", "L", "Ljava/lang/String", "II", "[V]"] {
        assert_eq!(parse_field_descriptor(s), None, "{}", s);
    }
    for s in ["", "I", "()", "(", "(I)", "(Q)V", "()VV"] {
        assert_eq!(parse_method_descriptor(s), None, "{}", s);
    }
    assert_eq!(parse_type_at(b"xI", 1), Some((JavaType::Int, 2)));
    assert_eq!(parse_type_at(b"I", 1), None);
    assert_eq!(
        parse_field_descriptor("La/\u{e9};"),
        Some(JavaType::Object("a/\u{e9}".to_string()))
    );
}

#[test]
fn malformed_signatures_are_refused() {
    for s in ["", "L", "Ljava/util/List<", "Ljava/util/List<>", "T", "TE", "["] {
        assert!(parse_field_signature(s).is_none(), "{}", s);
    }
    assert!(parse_method_signature("(I").is_none());
    assert!(parse_class_signature("<T").is_none());
}

#[test]
fn rendered_type_parameters() {
    let m = parse_method_signature("<T:Ljava/lang/Object;:Ljava/lang/Runnable;>(TT;)V").unwrap();
    let mut out = String::new();
    render_type_params(&m.params, &mut out);
    assert_eq!(out, "<T extends java.lang.Runnable>");
    let mut none = String::new();
    render_type_params(&[], &mut none);
    assert_eq!(none, "");
}

#[test]
fn type_variables_are_substituted() {
    let list = parse_field_signature("Ljava/util/List<TE;>;").unwrap();
    assert!(g_has_typevar(&list));
    assert!(!g_has_wildcard(&list));
    assert!(g_mentions_any(&list, &["X".to_string(), "E".to_string()]));
    assert!(!g_mentions_any(&list, &["X".to_string()]));
    let params = vec![TypeParam { name: "E".to_string(), class_bound: None, interface_bounds: vec![] }];
    let args = vec![parse_field_signature("Ljava/lang/String;").unwrap()];
    let sub = subst_typevars(&list, &params, &args);
    assert_eq!(sub.to_java(), "java.util.List<java.lang.String>");
    assert!(!g_has_typevar(&sub));
    assert!(g_has_wildcard(&GenericType::Wildcard(WildcardBound::Any)));
    let nested = parse_field_signature("La/Outer<TT;>.Inner;").unwrap();
    if let GenericType::Class(cs) = &nested {
        assert_eq!(classsig_internal(cs), "a/Outer$Inner");
        assert_eq!(nested.as_internal_name(), None);
    } else {
        panic!();
    }
}

#[test]
fn plain_class_types_have_an_internal_name() {
    let plain = parse_field_signature("La/Outer.Inner;").unwrap();
    assert_eq!(plain.as_internal_name(), Some("a/Outer$Inner".to_string()));
    assert_eq!(GenericType::Primitive('I').as_internal_name(), None);
}

#[test]
fn parsing_undoes_rendering() {
    for s in ["I", "[[J", "La/b/C;", "[Z"] {
        assert_eq!(parse_field_descriptor(s).unwrap().to_descriptor(), s);
    }
    for s in ["()V", "(I[La/B;J)[D"] {
        assert_eq!(parse_method_descriptor(s).unwrap().to_descriptor(), s);
    }
}

#[test]
fn substitution_keeps_other_variables() {
    let params = vec![TypeParam { name: "E".to_string(), class_bound: None, interface_bounds: vec![] }];
    let args = vec![parse_field_signature("Ljava/lang/String;").unwrap()];
    for text in ["TT;", "[TT;", "La/M<TK;+TV;>;", "[I", "La/M<*>;"] {
        let t = parse_field_signature(text).unwrap();
        assert_eq!(subst_typevars(&t, &params, &args).to_java(), t.to_java());
    }
    let t = parse_field_signature("La/M<TK;[TE;>;").unwrap();
    assert_eq!(subst_typevars(&t, &params, &args).to_java(), "a.M<K, java.lang.String[]>");
}
