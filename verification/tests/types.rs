use jdc_core::types::{
    parse_class_signature, parse_field_descriptor, parse_field_signature, parse_method_descriptor,
    parse_method_signature, GenericType, JavaType,
};

#[test]
fn field_descriptors() {
    assert_eq!(parse_field_descriptor("I"), Some(JavaType::Int));
    assert_eq!(
        parse_field_descriptor("[[Ljava/lang/String;"),
        Some(JavaType::Array(Box::new(JavaType::Array(Box::new(
            JavaType::Object("java/lang/String".into())
        )))))
    );
    assert_eq!(parse_field_descriptor("Lx;extra"), None);
}

#[test]
fn method_descriptors() {
    let d = parse_method_descriptor("(IDLjava/lang/Thread;)Ljava/lang/Object;").unwrap();
    assert_eq!(d.args.len(), 3);
    assert_eq!(d.ret, JavaType::Object("java/lang/Object".into()));
    assert_eq!(d.arg_slots(), 4);
    let d2 = parse_method_descriptor("()V").unwrap();
    assert!(d2.args.is_empty());
    assert_eq!(d2.ret, JavaType::Void);
    assert_eq!(parse_method_descriptor("(I"), None);
}

#[test]
fn roundtrip_descriptor() {
    let s = "(J[D[[C)V";
    let d = parse_method_descriptor(s).unwrap();
    assert_eq!(d.to_descriptor(), s);
}

#[test]
fn class_sigs() {
    let cs = parse_class_signature("<T:Ljava/lang/Object;>Ljava/util/AbstractList<Ljava/lang/String;>;Ljava/util/List<Ljava/lang/String;>;").unwrap();
    assert_eq!(cs.params.len(), 1);
    assert_eq!(cs.params[0].name, "T");
    assert!(cs.to_java().starts_with("<T>"));
    assert!(cs.to_java().contains("java.util.AbstractList<java.lang.String>"));
}

#[test]
fn nested_class_sig() {
    let g = parse_field_signature("Ljava/util/Map<Ljava/lang/String;Ljava/lang/Integer;>.Entry<Ljava/lang/String;Ljava/lang/Integer;>;").unwrap();
    let java = g.to_java();
    assert_eq!(java, "java.util.Map<java.lang.String, java.lang.Integer>.Entry<java.lang.String, java.lang.Integer>");
    if let GenericType::Class(cs) = &g {
        assert_eq!(cs.internal_name(), "java/util/Map$Entry");
    } else {
        panic!();
    }
}

#[test]
fn method_sig() {
    let m = parse_method_signature("<K:Ljava/lang/Object;V:Ljava/lang/Object;>(TK;TV;)TV;^Ljava/io/IOException;").unwrap();
    assert_eq!(m.params.len(), 2);
    assert_eq!(m.args.len(), 2);
    assert_eq!(m.throws.len(), 1);
    assert!(m.to_java().contains("(K, V)V"));
}

#[test]
fn wildcards_and_arrays() {
    let g = parse_field_signature("Ljava/util/List<+Ljava/lang/Number;>;").unwrap();
    assert_eq!(g.to_java(), "java.util.List<? extends java.lang.Number>");
    let g2 = parse_field_signature("[[Ljava/util/List<*>;").unwrap();
    assert_eq!(g2.to_java(), "java.util.List<?>[][]");
    let g3 = parse_field_signature("Ljava/util/List<-Ljava/lang/Integer;>;").unwrap();
    assert_eq!(g3.to_java(), "java.util.List<? super java.lang.Integer>");
}

#[test]
fn typevar_bound() {
    let cs = parse_class_signature("<E:Ljava/lang/Comparable<-TE;>;>Ljava/lang/Object;").unwrap();
    assert_eq!(cs.params.len(), 1);
    let cb = cs.params[0].class_bound.as_ref().unwrap();
    assert!(cb.to_java().contains("java.lang.Comparable<? super E>"));
}
