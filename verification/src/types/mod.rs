//! Machine-neutral type model.
//!
//! Both JVM class files and DEX describe types with the same grammar
//! (`Lcom/foo/Bar;`, `[I`, `(ILjava/lang/String;)V`), so one model serves
//! every Java-family front-end. Generic signatures ([`signature`]) mirror the
//! JVM `Signature` attribute; a front-end whose container does not record
//! them simply leaves that information absent.

pub mod descriptor;
pub mod laws;
pub mod signature;
pub mod written;

pub use descriptor::{
    binary_simple_name, dotted_source, internal_name_to_java, parse_field_descriptor,
    parse_method_descriptor, parse_type_at, JavaType, MethodDescriptor,
};
pub use signature::{
    parse_class_signature, parse_field_signature, parse_method_signature, render_type_params,
    ClassSig, ClassSigPart, ClassSignature, GenericType, MethodSignature, TypeParam, WildcardBound,
};
