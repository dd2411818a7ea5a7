use cool_frontend::symbol_table::{Class, ClassFeature, Env, SemanticError, SymbolTable, Type};

#[test]
fn duplicate_class_is_rejected() {
    let mut env = Env::new();
    assert!(env.declare_class("A", None).is_ok());
    let e = env.declare_class("A", Some("IO"));
    assert!(matches!(e, Err(SemanticError::DuplicateClass(n)) if n == "A"));
}

#[test]
fn builtin_names_cannot_be_redeclared() {
    let mut env = Env::new();
    assert!(matches!(
        env.declare_class("Int", None),
        Err(SemanticError::DuplicateClass(_))
    ));
    assert!(matches!(
        env.declare_class("Object", None),
        Err(SemanticError::DuplicateClass(_))
    ));
}

#[test]
fn int_is_not_inheritable() {
    let mut env = Env::new();
    let e = env.declare_class("A", Some("Int"));
    assert!(matches!(e, Err(SemanticError::NotInheritable(n)) if n == "Int"));
}

#[test]
fn bool_and_string_are_not_inheritable() {
    let mut env = Env::new();
    assert!(matches!(
        env.declare_class("A", Some("Bool")),
        Err(SemanticError::NotInheritable(_))
    ));
    assert!(matches!(
        env.declare_class("A", Some("String")),
        Err(SemanticError::NotInheritable(_))
    ));
}

#[test]
fn undeclared_parent_is_rejected() {
    let mut env = Env::new();
    let e = env.declare_class("A", Some("Zzz"));
    assert!(matches!(e, Err(SemanticError::UndeclaredType(n)) if n == "Zzz"));
}

#[test]
fn io_and_object_and_user_classes_are_inheritable() {
    let mut env = Env::new();
    assert!(env.declare_class("A", Some("IO")).is_ok());
    assert!(env.declare_class("B", Some("Object")).is_ok());
    assert!(env.declare_class("C", Some("A")).is_ok());
}

#[test]
fn inherited_member_lookup() {
    let mut env = Env::new();
    assert!(env.declare_class("A", None).is_ok());
    assert!(env.declare_class("B", Some("A")).is_ok());
    assert!(env.define_member_variable("A", "x", "Int").is_ok());
    let b = env.into_type("B").unwrap();
    assert!(b.contains_member_variable("x", env.class_table()));
    assert!(!b.contains_member_variable("y", env.class_table()));
}

#[test]
fn lookup_walks_the_whole_chain() {
    let mut env = Env::new();
    assert!(env.declare_class("A", None).is_ok());
    assert!(env.declare_class("B", Some("A")).is_ok());
    assert!(env.declare_class("C", Some("B")).is_ok());
    assert!(env.define_member_variable("A", "x", "Int").is_ok());
    assert!(env.define_method("B", "m", Vec::new(), "Bool").is_ok());
    let c = env.into_type("C").unwrap();
    assert!(c.contains_member_variable("x", env.class_table()));
    assert!(c.contains_method("m", env.class_table()));
    assert!(c.contains_method("abort", env.class_table()));
    assert!(!c.contains_method("x", env.class_table()));
    assert!(!c.contains_member_variable("m", env.class_table()));
}

#[test]
fn duplicate_method_and_redefinition() {
    let mut env = Env::new();
    assert!(env.declare_class("C", None).is_ok());
    assert!(env.define_method("C", "foo", Vec::new(), "Int").is_ok());
    let dup = env.define_method("C", "foo", Vec::new(), "Int");
    assert!(matches!(dup, Err(SemanticError::DuplicateMethod(c, m)) if c == "C" && m == "foo"));
    assert!(env.redefine_method("C", "foo", Vec::new(), "Bool").is_ok());
    let c = env.into_type("C").unwrap();
    let idx = c.unwrap_class().unwrap();
    let table = env.class_table();
    let foo = table[idx].get_method("foo").unwrap();
    assert_eq!(foo.return_type, Type::Bool);
}

#[test]
fn redefining_an_unknown_method_fails() {
    let mut env = Env::new();
    assert!(env.declare_class("A", None).is_ok());
    let e = env.redefine_method("A", "nope", Vec::new(), "Int");
    assert!(matches!(e, Err(SemanticError::MethodNotDefined(m)) if m == "nope"));
}

#[test]
fn redefining_an_inherited_method_succeeds() {
    let mut env = Env::new();
    assert!(env.declare_class("A", None).is_ok());
    assert!(env.declare_class("B", Some("A")).is_ok());
    assert!(env.define_method("A", "foo", Vec::new(), "Int").is_ok());
    assert!(env.redefine_method("B", "foo", Vec::new(), "Bool").is_ok());
}

#[test]
fn scope_rejects_same_scope_redeclaration() {
    let mut env = Env::new();
    env.start_scope();
    assert!(env.add_variable("x", "Int").is_ok());
    let e = env.add_variable("x", "Bool");
    assert!(matches!(e, Err(SemanticError::DuplicateVariable(n)) if n == "x"));
    env.end_scope();
    env.start_scope();
    assert!(env.add_variable("x", "Bool").is_ok());
}

#[test]
fn shadowing_across_scopes_is_allowed() {
    let mut env = Env::new();
    env.start_scope();
    assert!(env.add_variable("x", "Int").is_ok());
    env.start_scope();
    assert!(env.add_variable("x", "Bool").is_ok());
    env.end_scope();
    env.end_scope();
}

#[test]
fn add_variable_requires_a_declared_type() {
    let mut env = Env::new();
    env.start_scope();
    let e = env.add_variable("x", "Nope");
    assert!(matches!(e, Err(SemanticError::UndeclaredType(n)) if n == "Nope"));
}

#[test]
fn member_on_builtin_class_is_rejected() {
    let mut env = Env::new();
    let e = env.define_member_variable("Int", "x", "Int");
    assert!(matches!(e, Err(SemanticError::BuiltinClass(n)) if n == "Int"));
}

#[test]
fn member_of_undeclared_type_is_rejected() {
    let mut env = Env::new();
    assert!(env.declare_class("A", None).is_ok());
    let e = env.define_member_variable("A", "x", "Nope");
    assert!(matches!(e, Err(SemanticError::UndeclaredType(n)) if n == "Nope"));
}

#[test]
fn duplicate_member_through_inheritance_is_rejected() {
    let mut env = Env::new();
    assert!(env.declare_class("A", None).is_ok());
    assert!(env.declare_class("B", Some("A")).is_ok());
    assert!(env.define_member_variable("A", "x", "Int").is_ok());
    let e = env.define_member_variable("B", "x", "Bool");
    assert!(matches!(e, Err(SemanticError::DuplicateMemberVariable(c, m)) if c == "B" && m == "x"));
}

#[test]
fn member_blocked_by_own_method_of_the_same_name() {
    let mut env = Env::new();
    assert!(env.declare_class("A", None).is_ok());
    assert!(env.define_method("A", "x", Vec::new(), "Int").is_ok());
    let e = env.define_member_variable("A", "x", "Int");
    assert!(matches!(e, Err(SemanticError::DuplicateMemberVariable(c, m)) if c == "A" && m == "x"));
    // The method is still there, untouched.
    let a = env.into_type("A").unwrap();
    assert!(a.contains_method("x", env.class_table()));
    assert!(!a.contains_member_variable("x", env.class_table()));
}

#[test]
fn method_blocked_by_own_member_of_the_same_name() {
    let mut env = Env::new();
    assert!(env.declare_class("A", None).is_ok());
    assert!(env.define_member_variable("A", "x", "Int").is_ok());
    let e = env.define_method("A", "x", Vec::new(), "Int");
    assert!(matches!(e, Err(SemanticError::DuplicateMethod(c, m)) if c == "A" && m == "x"));
    let a = env.into_type("A").unwrap();
    assert!(a.contains_member_variable("x", env.class_table()));
    assert!(!a.contains_method("x", env.class_table()));
}

#[test]
fn member_blocked_by_inherited_method_of_the_same_name() {
    let mut env = Env::new();
    assert!(env.declare_class("A", None).is_ok());
    assert!(env.declare_class("B", Some("A")).is_ok());
    assert!(env.define_method("A", "m", Vec::new(), "Int").is_ok());
    let e = env.define_member_variable("B", "m", "Int");
    assert!(matches!(e, Err(SemanticError::DuplicateMemberVariable(_, _))));
}

#[test]
fn features_blocked_by_builtin_parent_methods() {
    let mut env = Env::new();
    assert!(env.declare_class("A", None).is_ok());
    // Every class inherits Object's fixed methods; their names are taken.
    let e = env.define_member_variable("A", "abort", "Int");
    assert!(matches!(e, Err(SemanticError::DuplicateMemberVariable(_, _))));
    let e = env.define_method("A", "type_name", Vec::new(), "Int");
    assert!(matches!(e, Err(SemanticError::DuplicateMethod(_, _))));
}

#[test]
fn duplicate_parameter_names_are_rejected() {
    let mut env = Env::new();
    assert!(env.declare_class("A", None).is_ok());
    let params = vec![
        (String::from("p"), String::from("Int")),
        (String::from("q"), String::from("Int")),
        (String::from("p"), String::from("Bool")),
    ];
    let e = env.define_method("A", "m", params, "Int");
    assert!(matches!(e, Err(SemanticError::DuplicateParameter(n)) if n == "p"));
    assert!(env.declare_class("B", None).is_ok());
    assert!(env.define_method("B", "m", Vec::new(), "Int").is_ok());
    let params = vec![
        (String::from("p"), String::from("Int")),
        (String::from("p"), String::from("Int")),
    ];
    let e = env.redefine_method("B", "m", params, "Int");
    assert!(matches!(e, Err(SemanticError::DuplicateParameter(n)) if n == "p"));
}

#[test]
fn method_parameter_of_undeclared_type_is_rejected() {
    let mut env = Env::new();
    assert!(env.declare_class("A", None).is_ok());
    let params = vec![(String::from("p"), String::from("Nope"))];
    let e = env.define_method("A", "m", params, "Int");
    assert!(
        matches!(e, Err(SemanticError::UndeclaredParameterType(p, t)) if p == "p" && t == "Nope")
    );
}

#[test]
fn method_parameters_are_resolved() {
    let mut env = Env::new();
    assert!(env.declare_class("A", None).is_ok());
    let params = vec![
        (String::from("p"), String::from("Int")),
        (String::from("q"), String::from("A")),
    ];
    assert!(env.define_method("A", "m", params, "Bool").is_ok());
    let a = env.into_type("A").unwrap();
    assert!(a.contains_method("m", env.class_table()));
    let idx = a.unwrap_class().unwrap();
    let m = env.class_table()[idx].get_method("m").unwrap();
    assert_eq!(m.parameters.len(), 2);
    assert_eq!(m.parameters[0], (String::from("p"), Type::Int));
    assert_eq!(m.parameters[1], (String::from("q"), Type::Custom(0)));
}

#[test]
fn builtin_method_tables() {
    let env = Env::new();
    let table = env.class_table();
    let object = env.into_type("Object").unwrap();
    assert!(object.contains_method("abort", table));
    assert!(object.contains_method("type_name", table));
    assert!(object.contains_method("copy", table));
    assert!(!object.contains_method("out_string", table));
    let io = env.into_type("IO").unwrap();
    assert!(io.contains_method("out_string", table));
    assert!(io.contains_method("out_int", table));
    assert!(io.contains_method("in_string", table));
    assert!(io.contains_method("in_int", table));
    let string = env.into_type("String").unwrap();
    assert!(string.contains_method("length", table));
    assert!(string.contains_method("concat", table));
    assert!(string.contains_method("substr", table));
    let int = env.into_type("Int").unwrap();
    assert!(!int.contains_method("abort", table));
    let boolean = env.into_type("Bool").unwrap();
    assert!(!boolean.contains_method("length", table));
}

#[test]
fn user_class_inherits_object_methods() {
    let mut env = Env::new();
    assert!(env.declare_class("A", None).is_ok());
    let a = env.into_type("A").unwrap();
    assert!(a.contains_method("abort", env.class_table()));
}

#[test]
fn builtins_expose_no_member_variables() {
    let env = Env::new();
    let int = env.into_type("Int").unwrap();
    assert!(!int.contains_member_variable("x", env.class_table()));
}

#[test]
fn type_declared_and_builtin_names() {
    let mut env = Env::new();
    assert!(env.type_declared("Object"));
    assert!(env.type_declared("IO"));
    assert!(!env.type_declared("A"));
    assert!(env.declare_class("A", None).is_ok());
    assert!(env.type_declared("A"));
    assert!(Type::is_builtin("String"));
    assert!(!Type::is_builtin("A"));
    assert!(Type::is_inheritable("Object"));
    assert!(Type::is_inheritable("A"));
    assert!(!Type::is_inheritable("Int"));
}

#[test]
fn unwrap_class_distinguishes_builtins() {
    let mut env = Env::new();
    assert!(env.declare_class("A", None).is_ok());
    assert_eq!(env.into_type("A").unwrap().unwrap_class(), Some(0));
    assert_eq!(env.into_type("Int").unwrap().unwrap_class(), None);
}

#[test]
fn method_label_joins_class_and_method_names() {
    let mut env = Env::new();
    assert!(env.declare_class("A", None).is_ok());
    assert!(env.define_method("A", "foo", Vec::new(), "Int").is_ok());
    let idx = env.into_type("A").unwrap().unwrap_class().unwrap();
    let table = env.class_table();
    let m = table[idx].get_method("foo").unwrap();
    assert_eq!(m.label(table), String::from("A_foo"));
}

#[test]
fn class_feature_kinds() {
    let member = ClassFeature::Member(String::from("x"), Type::Int);
    assert!(member.is_member());
    assert!(!member.is_method());
}

#[test]
fn class_own_lookups() {
    let table: Vec<Class> = Vec::new();
    let mut c = Class::new("A", None);
    assert_eq!(c.parent, Type::Object);
    assert!(c.add_member_variable("x", &Type::Int, &table).is_ok());
    assert_eq!(c.get_member_type("x"), Some(Type::Int));
    assert_eq!(c.get_member_type("y"), None);
    assert!(c.contains_member_variable("x", &table));
    assert!(!c.contains_method("x", &table));
    let dup = c.add_member_variable("x", &Type::Bool, &table);
    assert!(matches!(dup, Err(SemanticError::DuplicateMemberVariable(_, _))));
}

#[test]
fn temporaries_never_collide_with_user_names() {
    let mut st = SymbolTable::new();
    assert!(st.add_new_variable("t0", Type::Int).is_ok());
    assert!(st.add_new_variable("t2", Type::Int).is_ok());
    st.add_new_temporary(Type::Bool);
    // t0 is taken by the user, so the first temporary is t1.
    assert_eq!(st.get("t0"), Some(Type::Int));
    assert_eq!(st.get("t1"), Some(Type::Bool));
    st.add_new_temporary(Type::String);
    // t2 is taken too; the counter skips to t3.
    assert_eq!(st.get("t2"), Some(Type::Int));
    assert_eq!(st.get("t3"), Some(Type::String));
}

#[test]
fn env_temporaries_never_overwrite_user_bindings() {
    let mut env = Env::new();
    env.start_scope();
    assert!(env.add_variable("t0", "Int").is_ok());
    assert!(env.add_temporary("Bool").is_ok());
    // The temporary took t1, so t1 is now bound and t0 kept its type.
    let e = env.add_variable("t1", "Int");
    assert!(matches!(e, Err(SemanticError::DuplicateVariable(n)) if n == "t1"));
    let e = env.add_variable("t0", "Bool");
    assert!(matches!(e, Err(SemanticError::DuplicateVariable(n)) if n == "t0"));
}

#[test]
fn symbol_table_bindings_and_temporaries() {
    let mut st = SymbolTable::new();
    assert!(!st.contains_symbol("x"));
    assert!(st.add_new_variable("x", Type::Int).is_ok());
    assert!(st.contains_symbol("x"));
    assert_eq!(st.get("x"), Some(Type::Int));
    assert_eq!(st.get("y"), None);
    assert!(matches!(
        st.add_new_variable("x", Type::Bool),
        Err(SemanticError::DuplicateVariable(_))
    ));
    st.add_new_temporary(Type::Bool);
    st.add_new_temporary(Type::Int);
    assert_eq!(st.get("t0"), Some(Type::Bool));
    assert_eq!(st.get("t1"), Some(Type::Int));
}

#[test]
fn semantic_error_messages_name_the_offenders() {
    let e = SemanticError::DuplicateClass(String::from("A"));
    assert_eq!(e.message(), String::from("class A is already defined"));
    let e = SemanticError::UndeclaredParameterType(String::from("p"), String::from("T"));
    assert_eq!(e.message(), String::from("type T of parameter p is not declared"));
    let e = SemanticError::DuplicateMemberVariable(String::from("B"), String::from("x"));
    assert_eq!(e.message(), String::from("B already contains member variable x"));
    let e = SemanticError::DuplicateParameter(String::from("p"));
    assert_eq!(e.message(), String::from("duplicate parameter p"));
}

#[test]
fn env_temporaries_use_the_scope_counter() {
    let mut env = Env::new();
    env.start_scope();
    assert!(env.add_temporary("Int").is_ok());
    assert!(env.add_temporary("Bool").is_ok());
    let e = env.add_temporary("Nope");
    assert!(matches!(e, Err(SemanticError::UndeclaredType(_))));
}
