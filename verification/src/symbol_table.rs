//! The type/class environment: a global class table with single
//! inheritance, member and method lookup through the inheritance chain,
//! and a stack of lexical scopes for local bindings.
//!
//! The class table owns every class; a parent and a `Type::Custom` value
//! refer to a class by its index in the table. A class is only ever
//! declared after its parent, so parent indices strictly decrease along
//! any inheritance chain.

use vstd::prelude::*;

use crate::lexer::decimal_value;
use crate::lexer::digit_value;
use crate::lexer::str_eq;

verus! {

/// A type: one of the five built-ins, or a user-declared class referred
/// to by its index in the class table.
#[derive(Clone, Copy, Debug, PartialEq, Eq, Structural)]
pub enum Type {
    String,
    Object,
    Bool,
    Int,
    IO,
    Custom(usize),
}

/// A method: its name, the table index of the class that owns it, its
/// parameters in declaration order, and its return type.
#[derive(Clone, Debug, PartialEq)]
pub struct Method {
    pub name: String,
    pub class: usize,
    pub parameters: Vec<(String, Type)>,
    pub return_type: Type,
}

/// A feature of a class: a member variable with its declared type, or a
/// method. The feature's name is the member's name or the method's name.
#[derive(Clone, Debug, PartialEq)]
pub enum ClassFeature {
    Member(String, Type),
    Method(Method),
}

/// A user-declared class: its name, its parent type (`Type::Object` when
/// unspecified), and its own features. Feature names are unique within
/// one class's own list; shadowing a parent's feature is permitted.
#[derive(Clone, Debug, PartialEq)]
pub struct Class {
    pub name: String,
    pub parent: Type,
    pub features: Vec<ClassFeature>,
}

/// A semantic failure, identifying the offending name, class or type.
#[derive(Clone, Debug, PartialEq)]
pub enum SemanticError {
    /// The class name is already a built-in or a declared class.
    DuplicateClass(String),
    /// The named type may not be inherited from.
    NotInheritable(String),
    /// The named type is not declared.
    UndeclaredType(String),
    /// The named class is a built-in, whose feature set is fixed.
    BuiltinClass(String),
    /// The class (first) already exposes a feature of the member's name
    /// (second).
    DuplicateMemberVariable(String, String),
    /// The class (first) already exposes a feature of the method's name
    /// (second).
    DuplicateMethod(String, String),
    /// No class in the chain exposes the method to be redefined.
    MethodNotDefined(String),
    /// Two parameters of one method share this name.
    DuplicateParameter(String),
    /// A parameter (first) has an undeclared type (second).
    UndeclaredParameterType(String, String),
    /// The name is already bound in the current innermost scope.
    DuplicateVariable(String),
}

impl SemanticError {
    /// The failure as a human-readable message naming the offending
    /// identifiers.
    pub fn message(&self) -> (r: String)
        ensures
            r@ == (match self {
                SemanticError::DuplicateClass(n) => "class "@ + n@ + " is already defined"@,
                SemanticError::NotInheritable(_) => "No class can inherit from Int, Bool or String"@,
                SemanticError::UndeclaredType(n) => "Type "@ + n@ + " is not defined"@,
                SemanticError::BuiltinClass(n) => "Cannot modify builtin type "@ + n@,
                SemanticError::DuplicateMemberVariable(c, m) => c@
                    + " already contains member variable "@ + m@,
                SemanticError::DuplicateMethod(c, m) => c@ + " already contains method "@ + m@,
                SemanticError::MethodNotDefined(m) => "method "@ + m@ + " is not defined already"@,
                SemanticError::DuplicateParameter(p) => "duplicate parameter "@ + p@,
                SemanticError::UndeclaredParameterType(p, t) => "type "@ + t@ + " of parameter "@
                    + p@ + " is not declared"@,
                SemanticError::DuplicateVariable(n) => n@ + " is already defined"@,
            }),
    {
        match self {
            SemanticError::DuplicateClass(n) => {
                let mut s = String::from_str("class ");
                s.append(n.as_str());
                s.append(" is already defined");
                proof {
                    assert(s@ =~= "class "@ + n@ + " is already defined"@);
                }
                s
            },
            SemanticError::NotInheritable(_) => String::from_str(
                "No class can inherit from Int, Bool or String",
            ),
            SemanticError::UndeclaredType(n) => {
                let mut s = String::from_str("Type ");
                s.append(n.as_str());
                s.append(" is not defined");
                proof {
                    assert(s@ =~= "Type "@ + n@ + " is not defined"@);
                }
                s
            },
            SemanticError::BuiltinClass(n) => {
                let mut s = String::from_str("Cannot modify builtin type ");
                s.append(n.as_str());
                s
            },
            SemanticError::DuplicateMemberVariable(c, m) => {
                let mut s = c.clone();
                s.append(" already contains member variable ");
                s.append(m.as_str());
                proof {
                    assert(s@ =~= c@ + " already contains member variable "@ + m@);
                }
                s
            },
            SemanticError::DuplicateMethod(c, m) => {
                let mut s = c.clone();
                s.append(" already contains method ");
                s.append(m.as_str());
                proof {
                    assert(s@ =~= c@ + " already contains method "@ + m@);
                }
                s
            },
            SemanticError::MethodNotDefined(m) => {
                let mut s = String::from_str("method ");
                s.append(m.as_str());
                s.append(" is not defined already");
                proof {
                    assert(s@ =~= "method "@ + m@ + " is not defined already"@);
                }
                s
            },
            SemanticError::DuplicateParameter(p) => {
                let mut s = String::from_str("duplicate parameter ");
                s.append(p.as_str());
                s
            },
            SemanticError::UndeclaredParameterType(p, t) => {
                let mut s = String::from_str("type ");
                s.append(t.as_str());
                s.append(" of parameter ");
                s.append(p.as_str());
                s.append(" is not declared");
                proof {
                    assert(s@ =~= "type "@ + t@ + " of parameter "@ + p@ + " is not declared"@);
                }
                s
            },
            SemanticError::DuplicateVariable(n) => {
                let mut s = n.clone();
                s.append(" is already defined");
                s
            },
        }
    }
}

// ---------------------------------------------------------------------------
// Specification model: names, lookup, and the inheritance-chain walks.
// ---------------------------------------------------------------------------

/// The five built-in type names.
pub open spec fn is_builtin_name(name: Seq<char>) -> bool {
    name == "Object"@ || name == "String"@ || name == "Bool"@ || name == "Int"@ || name == "IO"@
}

/// Every type but `Int`, `Bool` and `String` may be inherited from.
pub open spec fn is_inheritable_name(name: Seq<char>) -> bool {
    !(name == "String"@ || name == "Bool"@ || name == "Int"@)
}

impl ClassFeature {
    /// The feature's name.
    pub open spec fn spec_name(&self) -> Seq<char> {
        match self {
            ClassFeature::Member(n, _) => n@,
            ClassFeature::Method(m) => m.name@,
        }
    }
}

/// The index of the first feature named `name` at or after position `j`,
/// or -1 when there is none.
pub open spec fn find_feature_from(fs: Seq<ClassFeature>, name: Seq<char>, j: int) -> int
    decreases fs.len() - j,
{
    if j < 0 || j >= fs.len() {
        -1
    } else if fs[j].spec_name() == name {
        j
    } else {
        find_feature_from(fs, name, j + 1)
    }
}

/// The index of the feature named `name` in a class's own list, or -1.
pub open spec fn feature_index(fs: Seq<ClassFeature>, name: Seq<char>) -> int {
    find_feature_from(fs, name, 0)
}

/// The feature named `name` in a class's own list, if any.
pub open spec fn find_feature(fs: Seq<ClassFeature>, name: Seq<char>) -> Option<ClassFeature> {
    let k = feature_index(fs, name);
    if k >= 0 {
        Option::Some(fs[k])
    } else {
        Option::None
    }
}

pub proof fn lemma_find_feature_from(fs: Seq<ClassFeature>, name: Seq<char>, j: int)
    requires
        0 <= j,
    ensures
        ({
            let k = find_feature_from(fs, name, j);
            &&& -1 <= k
            &&& (k == -1 ==> forall|i: int|
                j <= i < fs.len() ==> (#[trigger] fs[i]).spec_name() != name)
            &&& (k >= 0 ==> j <= k < fs.len() && fs[k].spec_name() == name && forall|i: int|
                j <= i < k ==> (#[trigger] fs[i]).spec_name() != name)
        }),
    decreases fs.len() - j,
{
    if j < fs.len() && fs[j].spec_name() != name {
        lemma_find_feature_from(fs, name, j + 1);
    }
}

/// A measure that strictly decreases along a well-formed inheritance
/// chain: 0 for built-ins, one more than the table index for a class.
pub open spec fn type_rank(t: Type) -> int {
    match t {
        Type::Custom(i) => i as int + 1,
        _ => 0,
    }
}

/// Whether a type refers only into the first `n` entries of the class
/// table.
pub open spec fn type_valid(t: Type, n: int) -> bool {
    match t {
        Type::Custom(i) => (i as int) < n,
        _ => true,
    }
}

/// Whether every class's parent stands strictly earlier in the table
/// than the class itself (built-in parents always do): the shape that
/// declare-before-use gives the table, and what makes every
/// inheritance-chain walk terminate.
pub open spec fn classes_parent_wf(classes: Seq<Class>) -> bool {
    forall|i: int|
        0 <= i < classes.len() ==> type_rank(#[trigger] classes[i].parent) <= i
}

/// The fixed method table of the built-in types: Object answers abort,
/// type_name and copy; IO its four read/write methods; String its three;
/// Bool and Int have none.
pub open spec fn builtin_has_method(t: Type, name: Seq<char>) -> bool {
    match t {
        Type::Object => name == "abort"@ || name == "type_name"@ || name == "copy"@,
        Type::IO => name == "out_string"@ || name == "out_int"@ || name == "in_string"@ || name
            == "in_int"@,
        Type::String => name == "length"@ || name == "concat"@ || name == "substr"@,
        _ => false,
    }
}

/// Whether a type exposes a member variable named `name`: a class owns
/// it directly or an ancestor does; built-ins expose none. The walk is
/// total: it stops at any index out of the table or any parent whose
/// rank does not decrease (which a well-formed table never holds).
pub open spec fn type_has_member(classes: Seq<Class>, t: Type, name: Seq<char>) -> bool
    decreases type_rank(t),
{
    match t {
        Type::Custom(i) => {
            if (i as int) < classes.len() {
                match find_feature(classes[i as int].features@, name) {
                    Option::Some(f) => f is Member,
                    Option::None => {
                        let p = classes[i as int].parent;
                        if type_rank(p) < type_rank(t) {
                            type_has_member(classes, p, name)
                        } else {
                            false
                        }
                    },
                }
            } else {
                false
            }
        },
        _ => false,
    }
}

/// Whether a type exposes a method named `name`: a class owns it
/// directly or an ancestor does; built-ins answer from their fixed
/// method table. Total in the same way as [`type_has_member`].
pub open spec fn type_has_method(classes: Seq<Class>, t: Type, name: Seq<char>) -> bool
    decreases type_rank(t),
{
    match t {
        Type::Custom(i) => {
            if (i as int) < classes.len() {
                match find_feature(classes[i as int].features@, name) {
                    Option::Some(f) => f is Method,
                    Option::None => {
                        let p = classes[i as int].parent;
                        if type_rank(p) < type_rank(t) {
                            type_has_method(classes, p, name)
                        } else {
                            false
                        }
                    },
                }
            } else {
                false
            }
        },
        _ => builtin_has_method(t, name),
    }
}

/// What a class exposes under `name` as a member: its own feature of
/// that name decides; otherwise the parent chain does.
pub open spec fn class_has_member(c: Class, classes: Seq<Class>, name: Seq<char>) -> bool {
    match find_feature(c.features@, name) {
        Option::Some(f) => f is Member,
        Option::None => type_has_member(classes, c.parent, name),
    }
}

/// What a class exposes under `name` as a method, as
/// [`class_has_member`] for members.
pub open spec fn class_has_method(c: Class, classes: Seq<Class>, name: Seq<char>) -> bool {
    match find_feature(c.features@, name) {
        Option::Some(f) => f is Method,
        Option::None => type_has_method(classes, c.parent, name),
    }
}

/// Whether a type exposes any feature named `name`, a member variable or
/// a method: what blocks adding a new feature of that name.
pub open spec fn type_has_feature(classes: Seq<Class>, t: Type, name: Seq<char>) -> bool {
    type_has_member(classes, t, name) || type_has_method(classes, t, name)
}

/// Whether a class exposes any feature named `name`, its own features
/// first, then the parent chain.
pub open spec fn class_has_feature(c: Class, classes: Seq<Class>, name: Seq<char>) -> bool {
    class_has_member(c, classes, name) || class_has_method(c, classes, name)
}

/// The index of the first class named `name` at or after position `j`,
/// or -1 when there is none.
pub open spec fn find_class_from(classes: Seq<Class>, name: Seq<char>, j: int) -> int
    decreases classes.len() - j,
{
    if j < 0 || j >= classes.len() {
        -1
    } else if classes[j].name@ == name {
        j
    } else {
        find_class_from(classes, name, j + 1)
    }
}

/// The index of the class named `name` in the table, or -1.
pub open spec fn class_index(classes: Seq<Class>, name: Seq<char>) -> int {
    find_class_from(classes, name, 0)
}

pub proof fn lemma_find_class_from(classes: Seq<Class>, name: Seq<char>, j: int)
    requires
        0 <= j,
    ensures
        ({
            let k = find_class_from(classes, name, j);
            &&& -1 <= k
            &&& (k == -1 ==> forall|i: int|
                j <= i < classes.len() ==> (#[trigger] classes[i]).name@ != name)
            &&& (k >= 0 ==> j <= k < classes.len() && classes[k].name@ == name && forall|i: int|
                j <= i < k ==> (#[trigger] classes[i]).name@ != name)
        }),
    decreases classes.len() - j,
{
    if 0 <= j < classes.len() && classes[j].name@ != name {
        lemma_find_class_from(classes, name, j + 1);
    }
}

/// What a type name denotes against a class table: one of the built-ins
/// by its fixed name, a declared class by its table index, or nothing.
pub open spec fn resolve_type(classes: Seq<Class>, name: Seq<char>) -> Option<Type> {
    if name == "Object"@ {
        Option::Some(Type::Object)
    } else if name == "String"@ {
        Option::Some(Type::String)
    } else if name == "Bool"@ {
        Option::Some(Type::Bool)
    } else if name == "Int"@ {
        Option::Some(Type::Int)
    } else if name == "IO"@ {
        Option::Some(Type::IO)
    } else {
        let k = class_index(classes, name);
        if k >= 0 {
            Option::Some(Type::Custom(k as usize))
        } else {
            Option::None
        }
    }
}

/// The built-in name a non-custom type displays.
pub open spec fn builtin_name_seq(t: Type) -> Seq<char> {
    match t {
        Type::Object => "Object"@,
        Type::String => "String"@,
        Type::Bool => "Bool"@,
        Type::Int => "Int"@,
        Type::IO => "IO"@,
        Type::Custom(_) => Seq::<char>::empty(),
    }
}

/// How adding a member variable changes a class's own list: the new
/// feature goes to the end (a name the class already exposes is never
/// added). Only the member's name and type are known; the stored string
/// itself is fresh.
pub open spec fn member_put(before: Class, after: Class, name: Seq<char>, t: Type) -> bool {
    &&& after.features@ == before.features@.push(after.features@.last())
    &&& (after.features@.last() matches ClassFeature::Member(n, ty) && n@ == name && ty == t)
    &&& after.name == before.name
    &&& after.parent == before.parent
}

/// How inserting a method changes a class's own list: a feature of the
/// same name is replaced in place (overriding), otherwise the new
/// feature goes to the end.
pub open spec fn method_put(before: Class, after: Class, m: Method) -> bool {
    let k = feature_index(before.features@, m.name@);
    &&& (if k >= 0 {
        after.features@ == before.features@.update(k, ClassFeature::Method(m))
    } else {
        after.features@ == before.features@.push(ClassFeature::Method(m))
    })
    &&& after.name == before.name
    &&& after.parent == before.parent
}

/// As [`method_put`], for a method whose string fields are fresh: only
/// their views and the other fields are known.
pub open spec fn method_put_fields(
    before: Class,
    after: Class,
    name: Seq<char>,
    class: int,
    params: Seq<(String, Type)>,
    ret: Type,
) -> bool {
    let k = feature_index(before.features@, name);
    let f = if k >= 0 {
        after.features@[k]
    } else {
        after.features@.last()
    };
    &&& (f matches ClassFeature::Method(m) && m.name@ == name && m.class as int == class
        && m.parameters@ == params && m.return_type == ret)
    &&& (if k >= 0 {
        after.features@ == before.features@.update(k, f)
    } else {
        after.features@ == before.features@.push(f)
    })
    &&& after.name == before.name
    &&& after.parent == before.parent
}

/// An inheritance walk reads only table entries below its starting rank,
/// so two tables that agree on those entries answer alike. This is what
/// lets a class be taken out of the table, queried against the rest, and
/// put back.
pub proof fn lemma_has_member_agree(
    c1: Seq<Class>,
    c2: Seq<Class>,
    t: Type,
    name: Seq<char>,
    n: int,
)
    requires
        n <= c1.len(),
        n <= c2.len(),
        forall|j: int| 0 <= j < n ==> c1[j] == c2[j],
        type_rank(t) <= n,
    ensures
        type_has_member(c1, t, name) == type_has_member(c2, t, name),
    decreases type_rank(t),
{
    match t {
        Type::Custom(i) => {
            let p = c1[i as int].parent;
            if type_rank(p) < type_rank(t) {
                lemma_has_member_agree(c1, c2, p, name, n);
            }
        },
        _ => {},
    }
}

/// As [`lemma_has_member_agree`], for method lookup.
pub proof fn lemma_has_method_agree(
    c1: Seq<Class>,
    c2: Seq<Class>,
    t: Type,
    name: Seq<char>,
    n: int,
)
    requires
        n <= c1.len(),
        n <= c2.len(),
        forall|j: int| 0 <= j < n ==> c1[j] == c2[j],
        type_rank(t) <= n,
    ensures
        type_has_method(c1, t, name) == type_has_method(c2, t, name),
    decreases type_rank(t),
{
    match t {
        Type::Custom(i) => {
            let p = c1[i as int].parent;
            if type_rank(p) < type_rank(t) {
                lemma_has_method_agree(c1, c2, p, name, n);
            }
        },
        _ => {},
    }
}

/// A name that resolves denotes a type that refers into the table.
pub proof fn lemma_resolve_valid(classes: Seq<Class>, name: Seq<char>)
    ensures
        resolve_type(classes, name) matches Some(t) ==> type_valid(t, classes.len() as int)
            && type_rank(t) <= classes.len() as int,
{
    lemma_find_class_from(classes, name, 0);
}

// ---------------------------------------------------------------------------
// Executable lookup helpers.
// ---------------------------------------------------------------------------

/// Finds the index of a class's own feature named `name`.
fn find_feature_index(fs: &Vec<ClassFeature>, name: &str) -> (r: Option<usize>)
    ensures
        ({
            let k = feature_index(fs@, name@);
            match r {
                Option::Some(ki) => ki as int == k,
                Option::None => k == -1,
            }
        }),
{
    let mut j: usize = 0;
    while j < fs.len()
        invariant
            j <= fs@.len(),
            find_feature_from(fs@, name@, j as int) == feature_index(fs@, name@),
        decreases fs@.len() - j,
    {
        let same = match &fs[j] {
            ClassFeature::Member(n, _) => str_eq(n.as_str(), name),
            ClassFeature::Method(m) => str_eq(m.name.as_str(), name),
        };
        if same {
            return Some(j);
        }
        j = j + 1;
    }
    None
}

/// Finds the index of the class named `name` in the table.
fn find_class_index(classes: &Vec<Class>, name: &str) -> (r: Option<usize>)
    ensures
        ({
            let k = class_index(classes@, name@);
            match r {
                Option::Some(ki) => ki as int == k,
                Option::None => k == -1,
            }
        }),
{
    let mut j: usize = 0;
    while j < classes.len()
        invariant
            j <= classes@.len(),
            find_class_from(classes@, name@, j as int) == class_index(classes@, name@),
        decreases classes@.len() - j,
    {
        if str_eq(classes[j].name.as_str(), name) {
            return Some(j);
        }
        j = j + 1;
    }
    None
}

/// Finds the index of the first parameter that repeats an earlier name.
fn find_duplicate_param(parameters: &Vec<(String, String)>) -> (r: Option<usize>)
    ensures
        ({
            let d = param_dup_from(parameters@, 0);
            match r {
                Option::Some(j) => j as int == d && (j as int) < parameters@.len(),
                Option::None => d == -1,
            }
        }),
{
    let mut j: usize = 0;
    while j < parameters.len()
        invariant
            j <= parameters@.len(),
            param_dup_from(parameters@, j as int) == param_dup_from(parameters@, 0),
        decreases parameters@.len() - j,
    {
        let mut k: usize = 0;
        let mut dup: bool = false;
        while k < j
            invariant
                k <= j,
                j < parameters@.len(),
                dup == (exists|kk: int|
                    0 <= kk < k && (#[trigger] parameters@[kk].0@) == parameters@[j as int].0@),
            decreases j - k,
        {
            if str_eq(parameters[k].0.as_str(), parameters[j].0.as_str()) {
                dup = true;
            }
            k = k + 1;
        }
        if dup {
            return Some(j);
        }
        j = j + 1;
    }
    None
}

// ---------------------------------------------------------------------------
// Queries.
// ---------------------------------------------------------------------------

impl Method {
    /// The method's display label: the owning class's name, an
    /// underscore, and the method's name — unique across the program
    /// when class names and feature names are.
    pub fn label(&self, classes: &Vec<Class>) -> (r: String)
        requires
            (self.class as int) < classes@.len(),
        ensures
            r@ == classes@[self.class as int].name@ + "_"@ + self.name@,
    {
        let mut s = classes[self.class].name.clone();
        s.append("_");
        s.append(self.name.as_str());
        proof {
            assert(s@ =~= classes@[self.class as int].name@ + "_"@ + self.name@);
        }
        s
    }
}

impl ClassFeature {
    /// Whether this feature is a member variable.
    pub fn is_member(&self) -> (r: bool)
        ensures
            r == (self is Member),
    {
        match self {
            ClassFeature::Member(_, _) => true,
            _ => false,
        }
    }

    /// Whether this feature is a method.
    pub fn is_method(&self) -> (r: bool)
        ensures
            r == (self is Method),
    {
        match self {
            ClassFeature::Method(_) => true,
            _ => false,
        }
    }
}

impl Type {
    /// Whether `name` names one of the five built-in types.
    pub fn is_builtin(name: &str) -> (r: bool)
        ensures
            r == is_builtin_name(name@),
    {
        str_eq(name, "Object") || str_eq(name, "String") || str_eq(name, "Bool") || str_eq(
            name,
            "Int",
        ) || str_eq(name, "IO")
    }

    /// Whether a class may name `name` as its parent: everything but
    /// `String`, `Bool` and `Int`.
    pub fn is_inheritable(name: &str) -> (r: bool)
        ensures
            r == is_inheritable_name(name@),
    {
        !(str_eq(name, "String") || str_eq(name, "Bool") || str_eq(name, "Int"))
    }

    /// The class-table index behind a custom type, if this is one.
    pub fn unwrap_class(&self) -> (r: Option<usize>)
        ensures
            r == (match *self {
                Type::Custom(i) => Option::Some(i),
                _ => Option::<usize>::None,
            }),
    {
        match self {
            Type::Custom(i) => Some(*i),
            _ => None,
        }
    }

    /// The display name of a built-in type.
    fn builtin_name(&self) -> (r: &str)
        requires
            !(*self is Custom),
        ensures
            r@ == builtin_name_seq(*self),
    {
        match self {
            Type::Object => "Object",
            Type::String => "String",
            Type::Bool => "Bool",
            Type::Int => "Int",
            Type::IO => "IO",
            Type::Custom(_) => {
                proof {
                    assert(false);
                }
                ""
            },
        }
    }

    /// Adds a member variable to the class this type names. Fails on a
    /// built-in, or when the class already exposes the name.
    pub fn add_member_variable(&self, name: &str, type_: &Type, classes: &mut Vec<Class>) -> (r:
        Result<(), SemanticError>)
        requires
            classes_parent_wf(old(classes)@),
            type_valid(*self, old(classes)@.len() as int),
        ensures
            match *self {
                Type::Custom(ci) => {
                    let cs = old(classes)@;
                    if type_has_feature(cs, *self, name@) {
                        (r matches Err(SemanticError::DuplicateMemberVariable(cn, mn)) && cn@
                            == cs[ci as int].name@ && mn@ == name@) && final(classes)@ == cs
                    } else {
                        r is Ok && final(classes)@.len() == cs.len() && (forall|j: int|
                            0 <= j < cs.len() && j != ci as int ==> final(classes)@[j] == cs[j])
                            && member_put(cs[ci as int], final(classes)@[ci as int], name@, *type_)
                    }
                },
                _ => (r matches Err(SemanticError::BuiltinClass(n)) && n@ == builtin_name_seq(
                    *self,
                )) && final(classes)@ == old(classes)@,
            },
    {
        match self {
            Type::Custom(ci) => {
                let ci = *ci;
                let ghost cs = classes@;
                let mut c = classes.remove(ci);
                proof {
                    assert(forall|j: int| 0 <= j < ci ==> classes@[j] == cs[j]);
                    lemma_has_member_agree(classes@, cs, c.parent, name@, ci as int);
                    lemma_has_method_agree(classes@, cs, c.parent, name@, ci as int);
                    assert(c == cs[ci as int]);
                    assert(type_rank(cs[ci as int].parent) <= ci as int);
                    assert(type_has_member(cs, Type::Custom(ci), name@) == class_has_member(
                        c,
                        classes@,
                        name@,
                    ));
                    assert(type_has_method(cs, Type::Custom(ci), name@) == class_has_method(
                        c,
                        classes@,
                        name@,
                    ));
                }
                let res = c.add_member_variable(name, type_, classes);
                classes.insert(ci, c);
                proof {
                    assert(classes@ =~= cs.update(ci as int, classes@[ci as int]));
                    if type_has_feature(cs, Type::Custom(ci), name@) {
                        assert(classes@ =~= cs);
                    }
                }
                res
            },
            _ => Err(SemanticError::BuiltinClass(String::from_str(self.builtin_name()))),
        }
    }

    /// Adds a method, built here from its parts, to the class this type
    /// names. Fails on a built-in, or when the class already exposes the
    /// name.
    pub fn add_method(
        &self,
        name: &str,
        parameters: Vec<(String, Type)>,
        return_type: &Type,
        classes: &mut Vec<Class>,
    ) -> (r: Result<(), SemanticError>)
        requires
            classes_parent_wf(old(classes)@),
            type_valid(*self, old(classes)@.len() as int),
        ensures
            match *self {
                Type::Custom(ci) => {
                    let cs = old(classes)@;
                    if type_has_feature(cs, *self, name@) {
                        (r matches Err(SemanticError::DuplicateMethod(cn, mn)) && cn@
                            == cs[ci as int].name@ && mn@ == name@) && final(classes)@ == cs
                    } else {
                        r is Ok && final(classes)@.len() == cs.len() && (forall|j: int|
                            0 <= j < cs.len() && j != ci as int ==> final(classes)@[j] == cs[j])
                            && method_put_fields(
                            cs[ci as int],
                            final(classes)@[ci as int],
                            name@,
                            ci as int,
                            parameters@,
                            *return_type,
                        )
                    }
                },
                _ => (r matches Err(SemanticError::BuiltinClass(n)) && n@ == builtin_name_seq(
                    *self,
                )) && final(classes)@ == old(classes)@,
            },
    {
        match self {
            Type::Custom(ci) => {
                let ci = *ci;
                let ghost cs = classes@;
                let mut c = classes.remove(ci);
                proof {
                    assert(forall|j: int| 0 <= j < ci ==> classes@[j] == cs[j]);
                    lemma_has_member_agree(classes@, cs, c.parent, name@, ci as int);
                    lemma_has_method_agree(classes@, cs, c.parent, name@, ci as int);
                    assert(c == cs[ci as int]);
                    assert(type_rank(cs[ci as int].parent) <= ci as int);
                    assert(type_has_member(cs, Type::Custom(ci), name@) == class_has_member(
                        c,
                        classes@,
                        name@,
                    ));
                    assert(type_has_method(cs, Type::Custom(ci), name@) == class_has_method(
                        c,
                        classes@,
                        name@,
                    ));
                    lemma_find_feature_from(cs[ci as int].features@, name@, 0);
                }
                let method = Method {
                    name: String::from_str(name),
                    class: ci,
                    parameters,
                    return_type: *return_type,
                };
                let res = c.add_method(method, classes);
                classes.insert(ci, c);
                proof {
                    assert(classes@ =~= cs.update(ci as int, classes@[ci as int]));
                    if type_has_feature(cs, Type::Custom(ci), name@) {
                        assert(classes@ =~= cs);
                    }
                }
                res
            },
            _ => Err(SemanticError::BuiltinClass(String::from_str(self.builtin_name()))),
        }
    }

    /// Replaces (overrides) a method of the class this type names: the
    /// feature must already be exposed, its own or inherited.
    pub fn redefine_method(
        &self,
        name: &str,
        parameters: Vec<(String, Type)>,
        return_type: &Type,
        classes: &mut Vec<Class>,
    ) -> (r: Result<(), SemanticError>)
        requires
            classes_parent_wf(old(classes)@),
            type_valid(*self, old(classes)@.len() as int),
        ensures
            match *self {
                Type::Custom(ci) => {
                    let cs = old(classes)@;
                    if !type_has_method(cs, *self, name@) {
                        (r matches Err(SemanticError::MethodNotDefined(mn)) && mn@ == name@)
                            && final(classes)@ == cs
                    } else {
                        r is Ok && final(classes)@.len() == cs.len() && (forall|j: int|
                            0 <= j < cs.len() && j != ci as int ==> final(classes)@[j] == cs[j])
                            && method_put_fields(
                            cs[ci as int],
                            final(classes)@[ci as int],
                            name@,
                            ci as int,
                            parameters@,
                            *return_type,
                        )
                    }
                },
                _ => (r matches Err(SemanticError::BuiltinClass(n)) && n@ == builtin_name_seq(
                    *self,
                )) && final(classes)@ == old(classes)@,
            },
    {
        match self {
            Type::Custom(ci) => {
                let ci = *ci;
                let ghost cs = classes@;
                let mut c = classes.remove(ci);
                proof {
                    assert(forall|j: int| 0 <= j < ci ==> classes@[j] == cs[j]);
                    lemma_has_method_agree(classes@, cs, c.parent, name@, ci as int);
                    assert(c == cs[ci as int]);
                    assert(type_rank(cs[ci as int].parent) <= ci as int);
                    assert(type_has_method(cs, Type::Custom(ci), name@) == class_has_method(
                        c,
                        classes@,
                        name@,
                    ));
                    lemma_find_feature_from(cs[ci as int].features@, name@, 0);
                }
                let method = Method {
                    name: String::from_str(name),
                    class: ci,
                    parameters,
                    return_type: *return_type,
                };
                let res = c.redefine_method(method, classes);
                classes.insert(ci, c);
                proof {
                    assert(classes@ =~= cs.update(ci as int, classes@[ci as int]));
                    if !type_has_method(cs, Type::Custom(ci), name@) {
                        assert(classes@ =~= cs);
                    }
                }
                res
            },
            _ => Err(SemanticError::BuiltinClass(String::from_str(self.builtin_name()))),
        }
    }

    /// Whether this type exposes a member variable named `name`,
    /// walking the parent chain transitively.
    pub fn contains_member_variable(&self, name: &str, classes: &Vec<Class>) -> (r: bool)
        ensures
            r == type_has_member(classes@, *self, name@),
    {
        let mut t: Type = *self;
        loop
            invariant
                type_has_member(classes@, t, name@) == type_has_member(classes@, *self, name@),
            decreases type_rank(t),
        {
            match t {
                Type::Custom(i) => {
                    if i < classes.len() {
                        match find_feature_index(&classes[i].features, name) {
                            Some(k) => {
                                proof {
                                    lemma_find_feature_from(classes@[i as int].features@, name@, 0);
                                }
                                return classes[i].features[k].is_member();
                            },
                            None => {
                                let p = classes[i].parent;
                                let descending = match p {
                                    Type::Custom(j) => j < i,
                                    _ => true,
                                };
                                if descending {
                                    t = p;
                                } else {
                                    return false;
                                }
                            },
                        }
                    } else {
                        return false;
                    }
                },
                _ => {
                    return false;
                },
            }
        }
    }

    /// Whether this type exposes a method named `name`: built-ins answer
    /// from their fixed method table, classes walk the parent chain.
    pub fn contains_method(&self, name: &str, classes: &Vec<Class>) -> (r: bool)
        ensures
            r == type_has_method(classes@, *self, name@),
    {
        let mut t: Type = *self;
        loop
            invariant
                type_has_method(classes@, t, name@) == type_has_method(classes@, *self, name@),
            decreases type_rank(t),
        {
            match t {
                Type::Custom(i) => {
                    if i < classes.len() {
                        match find_feature_index(&classes[i].features, name) {
                            Some(k) => {
                                proof {
                                    lemma_find_feature_from(classes@[i as int].features@, name@, 0);
                                }
                                return classes[i].features[k].is_method();
                            },
                            None => {
                                let p = classes[i].parent;
                                let descending = match p {
                                    Type::Custom(j) => j < i,
                                    _ => true,
                                };
                                if descending {
                                    t = p;
                                } else {
                                    return false;
                                }
                            },
                        }
                    } else {
                        return false;
                    }
                },
                Type::Object => {
                    return str_eq(name, "abort") || str_eq(name, "type_name") || str_eq(
                        name,
                        "copy",
                    );
                },
                Type::IO => {
                    return str_eq(name, "out_string") || str_eq(name, "out_int") || str_eq(
                        name,
                        "in_string",
                    ) || str_eq(name, "in_int");
                },
                Type::String => {
                    return str_eq(name, "length") || str_eq(name, "concat") || str_eq(
                        name,
                        "substr",
                    );
                },
                _ => {
                    return false;
                },
            }
        }
    }
}

impl Class {
    /// A new class with no features yet; an unspecified parent defaults
    /// to `Type::Object`.
    pub fn new(name: &str, parent: Option<Type>) -> (c: Class)
        ensures
            c.name@ == name@,
            c.parent == (match parent {
                Option::Some(p) => p,
                Option::None => Type::Object,
            }),
            c.features@ == Seq::<ClassFeature>::empty(),
    {
        Class {
            name: String::from_str(name),
            parent: match parent {
                Some(p) => p,
                None => Type::Object,
            },
            features: Vec::new(),
        }
    }

    /// Whether this class exposes a member variable named `name`, its
    /// own features first, then the parent chain.
    pub fn contains_member_variable(&self, name: &str, classes: &Vec<Class>) -> (r: bool)
        ensures
            r == class_has_member(*self, classes@, name@),
    {
        match find_feature_index(&self.features, name) {
            Some(k) => {
                proof {
                    lemma_find_feature_from(self.features@, name@, 0);
                }
                self.features[k].is_member()
            },
            None => self.parent.contains_member_variable(name, classes),
        }
    }

    /// Whether this class exposes a method named `name`, its own
    /// features first, then the parent chain.
    pub fn contains_method(&self, name: &str, classes: &Vec<Class>) -> (r: bool)
        ensures
            r == class_has_method(*self, classes@, name@),
    {
        match find_feature_index(&self.features, name) {
            Some(k) => {
                proof {
                    lemma_find_feature_from(self.features@, name@, 0);
                }
                self.features[k].is_method()
            },
            None => self.parent.contains_method(name, classes),
        }
    }

    /// Puts a feature into this class's own list: a feature of the same
    /// name is replaced in place, otherwise the new one goes to the end.
    fn insert_feature(&mut self, f: ClassFeature)
        ensures
            final(self).name == old(self).name,
            final(self).parent == old(self).parent,
            ({
                let k = feature_index(old(self).features@, f.spec_name());
                if k >= 0 {
                    final(self).features@ == old(self).features@.update(k, f)
                } else {
                    final(self).features@ == old(self).features@.push(f)
                }
            }),
    {
        let ghost fs0 = self.features@;
        let idx = {
            let fname: &str = match &f {
                ClassFeature::Member(n, _) => n.as_str(),
                ClassFeature::Method(m) => m.name.as_str(),
            };
            find_feature_index(&self.features, fname)
        };
        match idx {
            Some(k) => {
                proof {
                    lemma_find_feature_from(fs0, f.spec_name(), 0);
                }
                self.features.remove(k);
                self.features.insert(k, f);
                proof {
                    assert(self.features@ =~= fs0.update(k as int, f));
                }
            },
            None => {
                self.features.push(f);
            },
        }
    }

    /// Adds a member variable to this class's own list, unless the class
    /// already exposes a feature of that name — of either kind, its own
    /// or inherited.
    pub fn add_member_variable(&mut self, name: &str, type_: &Type, classes: &Vec<Class>) -> (r:
        Result<(), SemanticError>)
        ensures
            if class_has_feature(*old(self), classes@, name@) {
                (r matches Err(SemanticError::DuplicateMemberVariable(cn, mn)) && cn@ == old(
                    self,
                ).name@ && mn@ == name@) && *final(self) == *old(self)
            } else {
                r is Ok && member_put(*old(self), *final(self), name@, *type_)
            },
    {
        if self.contains_member_variable(name, classes) || self.contains_method(name, classes) {
            Err(
                SemanticError::DuplicateMemberVariable(
                    self.name.clone(),
                    String::from_str(name),
                ),
            )
        } else {
            proof {
                lemma_find_feature_from(self.features@, name@, 0);
            }
            self.insert_feature(ClassFeature::Member(String::from_str(name), *type_));
            Ok(())
        }
    }

    /// Adds a method to this class's own list, unless the class already
    /// exposes a feature of that name — of either kind, its own or
    /// inherited. The method is constructed outside: the class table owns
    /// every class, so the owning-class reference is a table index.
    pub fn add_method(&mut self, method: Method, classes: &Vec<Class>) -> (r: Result<
        (),
        SemanticError,
    >)
        ensures
            if class_has_feature(*old(self), classes@, method.name@) {
                (r matches Err(SemanticError::DuplicateMethod(cn, mn)) && cn@ == old(self).name@
                    && mn@ == method.name@) && *final(self) == *old(self)
            } else {
                r is Ok && method_put(*old(self), *final(self), method)
            },
    {
        if self.contains_member_variable(method.name.as_str(), classes) || self.contains_method(
            method.name.as_str(),
            classes,
        ) {
            Err(SemanticError::DuplicateMethod(self.name.clone(), method.name.clone()))
        } else {
            self.insert_feature(ClassFeature::Method(method));
            Ok(())
        }
    }

    /// Replaces (overrides) a method: the feature must already be
    /// exposed, its own or inherited; the entry then goes into this
    /// class's own list.
    pub fn redefine_method(&mut self, method: Method, classes: &Vec<Class>) -> (r: Result<
        (),
        SemanticError,
    >)
        ensures
            if !class_has_method(*old(self), classes@, method.name@) {
                (r matches Err(SemanticError::MethodNotDefined(mn)) && mn@ == method.name@)
                    && *final(self) == *old(self)
            } else {
                r is Ok && method_put(*old(self), *final(self), method)
            },
    {
        if !self.contains_method(method.name.as_str(), classes) {
            Err(SemanticError::MethodNotDefined(method.name.clone()))
        } else {
            self.insert_feature(ClassFeature::Method(method));
            Ok(())
        }
    }

    /// The declared type of this class's own member variable named
    /// `name`, if it owns one (the parent chain is not consulted).
    pub fn get_member_type(&self, name: &str) -> (r: Option<Type>)
        ensures
            r == (match find_feature(self.features@, name@) {
                Option::Some(ClassFeature::Member(_, t)) => Option::Some(t),
                _ => Option::<Type>::None,
            }),
    {
        match find_feature_index(&self.features, name) {
            Some(k) => {
                proof {
                    lemma_find_feature_from(self.features@, name@, 0);
                }
                match &self.features[k] {
                    ClassFeature::Member(_, t) => Some(*t),
                    _ => None,
                }
            },
            None => None,
        }
    }

    /// This class's own method named `name`, if it owns one (the parent
    /// chain is not consulted).
    pub fn get_method(&self, name: &str) -> (r: Option<&Method>)
        ensures
            (match find_feature(self.features@, name@) {
                Option::Some(ClassFeature::Method(m)) => r matches Some(rm) && *rm == m,
                _ => r is None,
            }),
    {
        match find_feature_index(&self.features, name) {
            Some(k) => {
                proof {
                    lemma_find_feature_from(self.features@, name@, 0);
                }
                match &self.features[k] {
                    ClassFeature::Method(m) => Some(m),
                    _ => None,
                }
            },
            None => None,
        }
    }
}

// ---------------------------------------------------------------------------
// Minted names for temporaries: "t" followed by a decimal counter.
// ---------------------------------------------------------------------------

/// The character of one decimal digit.
pub open spec fn digit_char_of(d: int) -> char {
    if d == 0 {
        '0'
    } else if d == 1 {
        '1'
    } else if d == 2 {
        '2'
    } else if d == 3 {
        '3'
    } else if d == 4 {
        '4'
    } else if d == 5 {
        '5'
    } else if d == 6 {
        '6'
    } else if d == 7 {
        '7'
    } else if d == 8 {
        '8'
    } else if d == 9 {
        '9'
    } else {
        '?'
    }
}

/// The decimal digits of a non-negative number, most significant first.
pub open spec fn dec_digits(n: int) -> Seq<char>
    decreases n,
{
    if n < 10 {
        seq![digit_char_of(n)]
    } else {
        dec_digits(n / 10).push(digit_char_of(n % 10))
    }
}

/// The name minted for the temporary with counter value `i`.
pub open spec fn temp_name_seq(i: u32) -> Seq<char> {
    "t"@ + dec_digits(i as int)
}

/// The decimal digits of `n` denote `n` again.
pub proof fn lemma_dec_digits_value(n: int)
    requires
        0 <= n,
    ensures
        decimal_value(dec_digits(n)) == n,
    decreases n,
{
    if n < 10 {
        let d = seq![digit_char_of(n)];
        assert(d.drop_last() =~= Seq::<char>::empty());
        assert(decimal_value(Seq::<char>::empty()) == 0);
        assert(decimal_value(d) == digit_value(digit_char_of(n)));
    } else {
        lemma_dec_digits_value(n / 10);
        let u = dec_digits(n / 10);
        let d = u.push(digit_char_of(n % 10));
        assert(d.drop_last() =~= u);
        assert(d.last() == digit_char_of(n % 10));
        assert(decimal_value(d) == decimal_value(u) * 10 + digit_value(digit_char_of(n % 10)));
    }
}

/// Distinct counter values mint distinct names.
pub proof fn lemma_temp_name_injective(a: u32, b: u32)
    ensures
        temp_name_seq(a) == temp_name_seq(b) ==> a == b,
{
    if temp_name_seq(a) == temp_name_seq(b) {
        let p = "t"@;
        let da = dec_digits(a as int);
        let db = dec_digits(b as int);
        assert((p + da).subrange(p.len() as int, (p + da).len() as int) =~= da);
        assert((p + db).subrange(p.len() as int, (p + db).len() as int) =~= db);
        assert(da == db);
        lemma_dec_digits_value(a as int);
        lemma_dec_digits_value(b as int);
    }
}

/// Whether the temporary counter, standing at `i`, could still mint
/// `name`: the name is "t" and some counter value at or past `i`.
pub open spec fn is_mintable_name(name: Seq<char>, i: int) -> bool {
    exists|k: u32| i <= k as int && name == temp_name_seq(k)
}

/// How many bindings at positions `j` onward hold a name the counter
/// could still mint from `i`: the measure that shrinks each time the
/// counter skips over a value whose name is already bound.
pub open spec fn mintable_count(bs: Seq<(String, Type)>, i: int, j: int) -> int
    decreases bs.len() - j,
{
    if j < 0 || j >= bs.len() {
        0
    } else {
        mintable_count(bs, i, j + 1) + if is_mintable_name(bs[j].0@, i) {
            1int
        } else {
            0int
        }
    }
}

proof fn lemma_mintable_count_bounds(bs: Seq<(String, Type)>, i: int, j: int)
    requires
        0 <= j <= bs.len(),
    ensures
        0 <= mintable_count(bs, i, j) <= bs.len() - j,
    decreases bs.len() - j,
{
    if j < bs.len() {
        lemma_mintable_count_bounds(bs, i, j + 1);
    }
}

proof fn lemma_mintable_monotone(bs: Seq<(String, Type)>, i: int, j: int)
    requires
        0 <= j,
    ensures
        mintable_count(bs, i + 1, j) <= mintable_count(bs, i, j),
    decreases bs.len() - j,
{
    if 0 <= j < bs.len() {
        lemma_mintable_monotone(bs, i, j + 1);
        if is_mintable_name(bs[j].0@, i + 1) {
            let k = choose|k: u32| i + 1 <= k as int && bs[j].0@ == temp_name_seq(k);
            assert(i <= k as int && bs[j].0@ == temp_name_seq(k));
            assert(is_mintable_name(bs[j].0@, i));
        }
    }
}

/// Skipping a counter value whose name is bound strictly shrinks the
/// mintable count: the binding holding that name stops counting, since
/// no other counter value mints the same name.
proof fn lemma_mintable_strict(bs: Seq<(String, Type)>, i: u32, j: int, jb: int)
    requires
        0 <= j <= jb < bs.len(),
        bs[jb].0@ == temp_name_seq(i),
    ensures
        mintable_count(bs, i as int + 1, j) < mintable_count(bs, i as int, j),
    decreases jb - j,
{
    if j == jb {
        lemma_mintable_monotone(bs, i as int, j + 1);
        assert(i as int <= i as int && bs[jb].0@ == temp_name_seq(i));
        assert(is_mintable_name(bs[jb].0@, i as int));
        assert(!is_mintable_name(bs[jb].0@, i as int + 1)) by {
            if is_mintable_name(bs[jb].0@, i as int + 1) {
                let k = choose|k: u32|
                    i as int + 1 <= k as int && bs[jb].0@ == temp_name_seq(k);
                lemma_temp_name_injective(i, k);
                assert(false);
            }
        };
    } else {
        lemma_mintable_strict(bs, i, j + 1, jb);
        if is_mintable_name(bs[j].0@, i as int + 1) {
            let k = choose|k: u32| i as int + 1 <= k as int && bs[j].0@ == temp_name_seq(k);
            assert(i as int <= k as int && bs[j].0@ == temp_name_seq(k));
            assert(is_mintable_name(bs[j].0@, i as int));
        }
    }
}

/// How minting a temporary changes a scope: a fresh name — "t" and the
/// first counter value, at or past the old one, whose name is not yet
/// bound — is appended with the given type, every earlier binding stays
/// untouched, and the counter moves past the used value.
pub open spec fn temp_minted(before: SymbolTable, after: SymbolTable, t: Type) -> bool {
    &&& after.bindings() == before.bindings().push(after.bindings().last())
    &&& after.bindings().last().1 == t
    &&& before.counter() < after.counter()
    &&& after.counter() <= before.counter() + before.bindings().len() + 1
    &&& after.bindings().last().0@ == temp_name_seq((after.counter() - 1) as u32)
    &&& lookup_binding(before.bindings(), after.bindings().last().0@) is None
    &&& (forall|k: u32|
        before.counter() <= k && (k as int) < after.counter() - 1 ==> lookup_binding(
            before.bindings(),
            temp_name_seq(k),
        ) is Some)
}

/// One decimal digit as text.
fn digit_str(d: u32) -> (r: &'static str)
    requires
        d < 10,
    ensures
        r@ == seq![digit_char_of(d as int)],
{
    let s: &str = if d == 0 {
        "0"
    } else if d == 1 {
        "1"
    } else if d == 2 {
        "2"
    } else if d == 3 {
        "3"
    } else if d == 4 {
        "4"
    } else if d == 5 {
        "5"
    } else if d == 6 {
        "6"
    } else if d == 7 {
        "7"
    } else if d == 8 {
        "8"
    } else {
        "9"
    };
    proof {
        reveal_strlit("0");
        reveal_strlit("1");
        reveal_strlit("2");
        reveal_strlit("3");
        reveal_strlit("4");
        reveal_strlit("5");
        reveal_strlit("6");
        reveal_strlit("7");
        reveal_strlit("8");
        reveal_strlit("9");
        assert(s@ =~= seq![digit_char_of(d as int)]);
    }
    s
}

/// A number as decimal text.
fn u32_to_dec(n: u32) -> (r: String)
    ensures
        r@ == dec_digits(n as int),
    decreases n,
{
    if n < 10 {
        String::from_str(digit_str(n))
    } else {
        let mut s = u32_to_dec(n / 10);
        s.append(digit_str(n % 10));
        proof {
            assert(s@ =~= dec_digits(n as int / 10).push(digit_char_of(n as int % 10)));
        }
        s
    }
}

// ---------------------------------------------------------------------------
// One lexical scope.
// ---------------------------------------------------------------------------

/// The index of the first binding named `name` at or after position `j`,
/// or -1 when there is none.
pub open spec fn find_binding_from(bs: Seq<(String, Type)>, name: Seq<char>, j: int) -> int
    decreases bs.len() - j,
{
    if j < 0 || j >= bs.len() {
        -1
    } else if bs[j].0@ == name {
        j
    } else {
        find_binding_from(bs, name, j + 1)
    }
}

/// The index of the binding named `name`, or -1.
pub open spec fn binding_index(bs: Seq<(String, Type)>, name: Seq<char>) -> int {
    find_binding_from(bs, name, 0)
}

/// The type bound to `name`, if any.
pub open spec fn lookup_binding(bs: Seq<(String, Type)>, name: Seq<char>) -> Option<Type> {
    let k = binding_index(bs, name);
    if k >= 0 {
        Option::Some(bs[k].1)
    } else {
        Option::None
    }
}

pub proof fn lemma_find_binding_from(bs: Seq<(String, Type)>, name: Seq<char>, j: int)
    requires
        0 <= j,
    ensures
        ({
            let k = find_binding_from(bs, name, j);
            &&& -1 <= k
            &&& (k == -1 ==> forall|i: int| j <= i < bs.len() ==> (#[trigger] bs[i]).0@ != name)
            &&& (k >= 0 ==> j <= k < bs.len() && bs[k].0@ == name && forall|i: int|
                j <= i < k ==> (#[trigger] bs[i]).0@ != name)
        }),
    decreases bs.len() - j,
{
    if 0 <= j < bs.len() && bs[j].0@ != name {
        lemma_find_binding_from(bs, name, j + 1);
    }
}

/// How binding `name` to `t` changes a scope: the new binding goes to
/// the end (a name already bound in the scope is never re-bound).
pub open spec fn binding_put(
    before: Seq<(String, Type)>,
    after: Seq<(String, Type)>,
    name: Seq<char>,
    t: Type,
) -> bool {
    &&& after == before.push(after.last())
    &&& after.last().0@ == name
    &&& after.last().1 == t
}

/// One lexical scope: its local bindings and a private counter that
/// mints distinct temporary-variable names within the scope.
pub struct SymbolTable {
    symbols: Vec<(String, Type)>,
    i: u32,
}

impl SymbolTable {
    /// The bindings, in the order they were made.
    pub closed spec fn bindings(&self) -> Seq<(String, Type)> {
        self.symbols@
    }

    /// The temporary-name counter.
    pub closed spec fn counter(&self) -> u32 {
        self.i
    }

    /// An empty scope.
    pub fn new() -> (st: SymbolTable)
        ensures
            st.bindings() == Seq::<(String, Type)>::empty(),
            st.counter() == 0,
    {
        SymbolTable { symbols: Vec::new(), i: 0 }
    }

    /// Finds the index of the binding named `name`.
    fn find_index(&self, name: &str) -> (r: Option<usize>)
        ensures
            ({
                let k = binding_index(self.bindings(), name@);
                match r {
                    Option::Some(ki) => ki as int == k,
                    Option::None => k == -1,
                }
            }),
    {
        let mut j: usize = 0;
        while j < self.symbols.len()
            invariant
                j <= self.symbols@.len(),
                find_binding_from(self.symbols@, name@, j as int) == binding_index(
                    self.symbols@,
                    name@,
                ),
            decreases self.symbols@.len() - j,
        {
            if str_eq(self.symbols[j].0.as_str(), name) {
                return Some(j);
            }
            j = j + 1;
        }
        None
    }

    /// Whether `name` is bound in this scope.
    pub fn contains_symbol(&self, name: &str) -> (r: bool)
        ensures
            r == (lookup_binding(self.bindings(), name@) is Some),
    {
        match self.find_index(name) {
            Some(_) => true,
            None => false,
        }
    }

    /// Binds `name` in this scope, unless the name is already bound here.
    pub fn add_new_variable(&mut self, name: &str, t: Type) -> (r: Result<(), SemanticError>)
        ensures
            if lookup_binding(old(self).bindings(), name@) is Some {
                (r matches Err(SemanticError::DuplicateVariable(n)) && n@ == name@) && *final(self)
                    == *old(self)
            } else {
                r is Ok && binding_put(old(self).bindings(), final(self).bindings(), name@, t)
                    && final(self).counter() == old(self).counter()
            },
    {
        if self.contains_symbol(name) {
            Err(SemanticError::DuplicateVariable(String::from_str(name)))
        } else {
            self.symbols.push((String::from_str(name), t));
            Ok(())
        }
    }

    /// Binds a freshly minted name — "t" and the first counter value
    /// whose name is not yet bound in this scope — and moves the counter
    /// past it, so that a temporary never collides with an earlier
    /// temporary or with any user-bound name.
    pub fn add_new_temporary(&mut self, t: Type)
        requires
            old(self).counter() + old(self).bindings().len() < u32::MAX,
        ensures
            temp_minted(*old(self), *final(self), t),
    {
        let ghost bs0 = self.symbols@;
        let ghost i0 = self.i;
        proof {
            lemma_mintable_count_bounds(bs0, i0 as int, 0);
        }
        loop
            invariant
                self.symbols@ == bs0,
                bs0 == old(self).symbols@,
                i0 == old(self).i,
                i0 <= self.i,
                i0 as int + bs0.len() < u32::MAX as int,
                self.i as int - i0 as int + mintable_count(bs0, self.i as int, 0)
                    <= mintable_count(bs0, i0 as int, 0),
                mintable_count(bs0, i0 as int, 0) <= bs0.len(),
                forall|k: u32|
                    i0 <= k < self.i ==> lookup_binding(bs0, temp_name_seq(k)) is Some,
            decreases mintable_count(bs0, self.i as int, 0),
        {
            let name = {
                let mut n = String::from_str("t");
                let digits = u32_to_dec(self.i);
                n.append(digits.as_str());
                n
            };
            proof {
                assert(name@ == temp_name_seq(self.i));
                lemma_mintable_count_bounds(bs0, self.i as int, 0);
            }
            if self.contains_symbol(name.as_str()) {
                proof {
                    lemma_find_binding_from(bs0, name@, 0);
                    let jb = binding_index(bs0, name@);
                    lemma_mintable_strict(bs0, self.i, 0, jb);
                    lemma_mintable_count_bounds(bs0, self.i as int + 1, 0);
                }
                self.i = self.i + 1;
            } else {
                self.symbols.push((name, t));
                self.i = self.i + 1;
                return;
            }
        }
    }

    /// The type bound to `name` in this scope, if any.
    pub fn get(&self, name: &str) -> (r: Option<Type>)
        ensures
            r == lookup_binding(self.bindings(), name@),
    {
        match self.find_index(name) {
            Some(k) => {
                proof {
                    lemma_find_binding_from(self.symbols@, name@, 0);
                }
                Some(self.symbols[k].1)
            },
            None => None,
        }
    }
}

// ---------------------------------------------------------------------------
// The environment: the class table and the scope stack, with the
// invariants that hold at all times.
// ---------------------------------------------------------------------------

/// Whether a feature's types all refer into the first `n` table entries.
pub open spec fn feature_types_ok(f: ClassFeature, n: int) -> bool {
    match f {
        ClassFeature::Member(_, t) => type_valid(t, n),
        ClassFeature::Method(m) => type_valid(m.return_type, n) && (forall|k: int|
            0 <= k < m.parameters@.len() ==> type_valid((#[trigger] m.parameters@[k]).1, n)),
    }
}

/// Whether a method feature of the class at index `i` names `i` as its
/// owning class.
pub open spec fn feature_owner_ok(f: ClassFeature, i: int) -> bool {
    match f {
        ClassFeature::Method(m) => m.class as int == i,
        _ => true,
    }
}

/// What holds of one class at index `i` in a table of length `n`: no
/// built-in name, unique feature names, feature types in range, and
/// methods owned by this class.
pub open spec fn class_entry_wf(c: Class, n: int, i: int) -> bool {
    &&& !is_builtin_name(c.name@)
    &&& (forall|k1: int, k2: int|
        0 <= k1 < k2 < c.features@.len() ==> (#[trigger] c.features@[k1]).spec_name() != (
        #[trigger] c.features@[k2]).spec_name())
    &&& (forall|k: int|
        0 <= k < c.features@.len() ==> feature_types_ok(#[trigger] c.features@[k], n))
    &&& (forall|k: int|
        0 <= k < c.features@.len() ==> feature_owner_ok(#[trigger] c.features@[k], i))
}

/// What holds of the whole class table at all times: parents stand
/// strictly earlier than their classes, names are unique and never
/// built-in, and every entry is well-formed.
pub open spec fn env_classes_wf(classes: Seq<Class>) -> bool {
    &&& classes_parent_wf(classes)
    &&& (forall|i: int, j: int|
        0 <= i < j < classes.len() ==> (#[trigger] classes[i]).name@ != (
        #[trigger] classes[j]).name@)
    &&& (forall|i: int|
        0 <= i < classes.len() ==> class_entry_wf(#[trigger] classes[i], classes.len() as int, i))
}

/// What holds of one scope: unique binding names, and types in range.
pub open spec fn scope_wf(st: SymbolTable, n: int) -> bool {
    &&& (forall|k1: int, k2: int|
        0 <= k1 < k2 < st.bindings().len() ==> (#[trigger] st.bindings()[k1]).0@ != (
        #[trigger] st.bindings()[k2]).0@)
    &&& (forall|k: int|
        0 <= k < st.bindings().len() ==> type_valid((#[trigger] st.bindings()[k]).1, n))
}

/// What holds of the whole scope stack.
pub open spec fn scopes_wf(ts: Seq<SymbolTable>, n: int) -> bool {
    forall|i: int| 0 <= i < ts.len() ==> scope_wf(#[trigger] ts[i], n)
}

/// Well-formedness survives the table growing: a type that refers into
/// the first `n1` entries refers into the first `n2 >= n1` as well.
proof fn lemma_entry_wf_grow(c: Class, n1: int, n2: int, i: int)
    requires
        class_entry_wf(c, n1, i),
        n1 <= n2,
    ensures
        class_entry_wf(c, n2, i),
{
    assert forall|k: int|
        0 <= k < c.features@.len() implies feature_types_ok(#[trigger] c.features@[k], n2) by {
        assert(feature_types_ok(c.features@[k], n1));
    }
}

proof fn lemma_scopes_wf_grow(ts: Seq<SymbolTable>, n1: int, n2: int)
    requires
        scopes_wf(ts, n1),
        n1 <= n2,
    ensures
        scopes_wf(ts, n2),
{
    assert forall|i: int| 0 <= i < ts.len() implies scope_wf(#[trigger] ts[i], n2) by {
        assert(scope_wf(ts[i], n1));
        assert forall|k: int|
            0 <= k < ts[i].bindings().len() implies type_valid(
            (#[trigger] ts[i].bindings()[k]).1,
            n2,
        ) by {
            assert(type_valid(ts[i].bindings()[k].1, n1));
        }
    }
}

/// Putting a member variable of a valid type into a well-formed table
/// keeps the table well-formed.
proof fn lemma_wf_member_put(cs: Seq<Class>, cs2: Seq<Class>, ci: int, name: Seq<char>, t: Type)
    requires
        env_classes_wf(cs),
        0 <= ci < cs.len(),
        cs2.len() == cs.len(),
        forall|j: int| 0 <= j < cs.len() && j != ci ==> cs2[j] == cs[j],
        member_put(cs[ci], cs2[ci], name, t),
        feature_index(cs[ci].features@, name) == -1,
        type_valid(t, cs.len() as int),
    ensures
        env_classes_wf(cs2),
{
    let n = cs.len() as int;
    lemma_find_feature_from(cs[ci].features@, name, 0);
    let k = feature_index(cs[ci].features@, name);
    assert forall|i: int| 0 <= i < cs2.len() implies type_rank(
        #[trigger] cs2[i].parent,
    ) <= i by {
        assert(type_rank(cs[i].parent) <= i);
    }
    assert forall|i: int, j: int| 0 <= i < j < cs2.len() implies (#[trigger] cs2[i]).name@ != (
    #[trigger] cs2[j]).name@ by {
        assert(cs[i].name@ != cs[j].name@);
    }
    assert forall|i: int| 0 <= i < cs2.len() implies class_entry_wf(
        #[trigger] cs2[i],
        n,
        i,
    ) by {
        assert(class_entry_wf(cs[i], n, i));
        if i == ci {
            let fs = cs[ci].features@;
            let fs2 = cs2[ci].features@;
            assert forall|k1: int, k2: int|
                0 <= k1 < k2 < fs2.len() implies (#[trigger] fs2[k1]).spec_name() != (
            #[trigger] fs2[k2]).spec_name() by {
                if k >= 0 {
                    assert(fs2 == fs.update(k, fs2[k]));
                    assert(fs2[k].spec_name() == name);
                    assert(fs[k].spec_name() == name);
                    if k1 != k && k2 != k {
                        assert(fs2[k1] == fs[k1] && fs2[k2] == fs[k2]);
                    }
                } else {
                    if k2 == fs.len() {
                        assert(fs2[k2].spec_name() == name);
                        assert(fs[k1].spec_name() != name);
                        assert(fs2[k1] == fs[k1]);
                    }
                }
            }
            assert forall|kk: int|
                0 <= kk < fs2.len() implies feature_types_ok(#[trigger] fs2[kk], n)
                && feature_owner_ok(fs2[kk], i) by {
                if (k >= 0 && kk == k) || (k < 0 && kk == fs.len()) {
                } else {
                    assert(fs2[kk] == fs[kk]);
                    assert(feature_types_ok(fs[kk], n) && feature_owner_ok(fs[kk], i));
                }
            }
        }
    }
}

/// Putting a method with valid types, owned by its class, into a
/// well-formed table keeps the table well-formed.
proof fn lemma_wf_method_put(
    cs: Seq<Class>,
    cs2: Seq<Class>,
    ci: int,
    name: Seq<char>,
    params: Seq<(String, Type)>,
    ret: Type,
)
    requires
        env_classes_wf(cs),
        0 <= ci < cs.len(),
        cs2.len() == cs.len(),
        forall|j: int| 0 <= j < cs.len() && j != ci ==> cs2[j] == cs[j],
        method_put_fields(cs[ci], cs2[ci], name, ci, params, ret),
        type_valid(ret, cs.len() as int),
        forall|k: int| 0 <= k < params.len() ==> type_valid((#[trigger] params[k]).1, cs.len() as int),
    ensures
        env_classes_wf(cs2),
{
    let n = cs.len() as int;
    lemma_find_feature_from(cs[ci].features@, name, 0);
    let k = feature_index(cs[ci].features@, name);
    assert forall|i: int| 0 <= i < cs2.len() implies type_rank(
        #[trigger] cs2[i].parent,
    ) <= i by {
        assert(type_rank(cs[i].parent) <= i);
    }
    assert forall|i: int, j: int| 0 <= i < j < cs2.len() implies (#[trigger] cs2[i]).name@ != (
    #[trigger] cs2[j]).name@ by {
        assert(cs[i].name@ != cs[j].name@);
    }
    assert forall|i: int| 0 <= i < cs2.len() implies class_entry_wf(
        #[trigger] cs2[i],
        n,
        i,
    ) by {
        assert(class_entry_wf(cs[i], n, i));
        if i == ci {
            let fs = cs[ci].features@;
            let fs2 = cs2[ci].features@;
            assert forall|k1: int, k2: int|
                0 <= k1 < k2 < fs2.len() implies (#[trigger] fs2[k1]).spec_name() != (
            #[trigger] fs2[k2]).spec_name() by {
                if k >= 0 {
                    assert(fs2 == fs.update(k, fs2[k]));
                    assert(fs2[k].spec_name() == name);
                    assert(fs[k].spec_name() == name);
                    if k1 != k && k2 != k {
                        assert(fs2[k1] == fs[k1] && fs2[k2] == fs[k2]);
                    }
                } else {
                    if k2 == fs.len() {
                        assert(fs2[k2].spec_name() == name);
                        assert(fs[k1].spec_name() != name);
                        assert(fs2[k1] == fs[k1]);
                    }
                }
            }
            assert forall|kk: int|
                0 <= kk < fs2.len() implies feature_types_ok(#[trigger] fs2[kk], n)
                && feature_owner_ok(fs2[kk], i) by {
                if (k >= 0 && kk == k) || (k < 0 && kk == fs.len()) {
                } else {
                    assert(fs2[kk] == fs[kk]);
                    assert(feature_types_ok(fs[kk], n) && feature_owner_ok(fs[kk], i));
                }
            }
        }
    }
}

/// The index of the first parameter, at or after position `j`, that
/// repeats the name of an earlier parameter, or -1 when all names are
/// distinct: a method's parameters form a mapping from name to type.
pub open spec fn param_dup_from(params: Seq<(String, String)>, j: int) -> int
    decreases params.len() - j,
{
    if j < 0 || j >= params.len() {
        -1
    } else if exists|k: int| 0 <= k < j && (#[trigger] params[k].0@) == params[j].0@ {
        j
    } else {
        param_dup_from(params, j + 1)
    }
}

/// The index of the first parameter, at or after position `j`, whose
/// declared type name does not resolve, or -1 when all resolve.
pub open spec fn first_undeclared_from(
    classes: Seq<Class>,
    params: Seq<(String, String)>,
    j: int,
) -> int
    decreases params.len() - j,
{
    if j < 0 || j >= params.len() {
        -1
    } else if resolve_type(classes, params[j].1@) is None {
        j
    } else {
        first_undeclared_from(classes, params, j + 1)
    }
}

/// The parameter list with every declared type name resolved; only
/// meaningful when all of them resolve.
pub open spec fn resolved_params(classes: Seq<Class>, params: Seq<(String, String)>) -> Seq<
    (String, Type),
> {
    Seq::new(
        params.len(),
        |j: int|
            (
                params[j].0,
                match resolve_type(classes, params[j].1@) {
                    Option::Some(t) => t,
                    Option::None => Type::Object,
                },
            ),
    )
}

/// When no parameter is undeclared, every parameter's type resolves.
pub proof fn lemma_first_undeclared_none(
    classes: Seq<Class>,
    params: Seq<(String, String)>,
    j: int,
)
    requires
        0 <= j,
        first_undeclared_from(classes, params, j) < 0,
    ensures
        forall|i: int|
            j <= i < params.len() ==> resolve_type(classes, (#[trigger] params[i]).1@) is Some,
    decreases params.len() - j,
{
    if j < params.len() {
        lemma_first_undeclared_none(classes, params, j + 1);
    }
}

/// The environment: the global class table and the stack of lexical
/// scopes, owned as one explicit object whose lifetime is the
/// compilation run.
pub struct Env {
    classes: Vec<Class>,
    symbol_tables: Vec<SymbolTable>,
}

impl Env {
    /// The class table.
    pub closed spec fn classes_seq(&self) -> Seq<Class> {
        self.classes@
    }

    /// The scope stack, innermost scope last.
    pub closed spec fn scopes(&self) -> Seq<SymbolTable> {
        self.symbol_tables@
    }

    /// The environment's invariant; every operation preserves it.
    pub open spec fn wf(&self) -> bool {
        &&& env_classes_wf(self.classes_seq())
        &&& scopes_wf(self.scopes(), self.classes_seq().len() as int)
    }

    /// An empty environment: no classes but the built-ins, no scopes.
    pub fn new() -> (e: Env)
        ensures
            e.wf(),
            e.classes_seq() == Seq::<Class>::empty(),
            e.scopes() == Seq::<SymbolTable>::empty(),
    {
        Env { classes: Vec::new(), symbol_tables: Vec::new() }
    }

    /// A shared view of the class table, for inheritance-chain queries
    /// through [`Type`] and [`Class`].
    pub fn class_table(&self) -> (r: &Vec<Class>)
        ensures
            r@ == self.classes_seq(),
    {
        &self.classes
    }

    /// Resolves a type name: a built-in by its fixed name, or a declared
    /// class.
    pub fn into_type(&self, name: &str) -> (r: Result<Type, SemanticError>)
        ensures
            match resolve_type(self.classes_seq(), name@) {
                Option::Some(t) => r matches Ok(rt) && rt == t,
                Option::None => (r matches Err(SemanticError::UndeclaredType(n)) && n@ == name@),
            },
    {
        if str_eq(name, "Object") {
            Ok(Type::Object)
        } else if str_eq(name, "String") {
            Ok(Type::String)
        } else if str_eq(name, "Bool") {
            Ok(Type::Bool)
        } else if str_eq(name, "Int") {
            Ok(Type::Int)
        } else if str_eq(name, "IO") {
            Ok(Type::IO)
        } else {
            match find_class_index(&self.classes, name) {
                Some(k) => Ok(Type::Custom(k)),
                None => Err(SemanticError::UndeclaredType(String::from_str(name))),
            }
        }
    }

    /// Whether `name` is a declared type: a built-in or a declared class.
    pub fn type_declared(&self, name: &str) -> (r: bool)
        ensures
            r == (resolve_type(self.classes_seq(), name@) is Some),
    {
        Type::is_builtin(name) || match find_class_index(&self.classes, name) {
            Some(_) => true,
            None => false,
        }
    }

    /// Registers a new, empty class. Fails when `name` is already a
    /// built-in or declared class, when the parent is one of the three
    /// non-inheritable built-ins, or when the parent is not declared; an
    /// unspecified parent is `Object`.
    pub fn declare_class(&mut self, name: &str, parent: Option<&str>) -> (r: Result<
        (),
        SemanticError,
    >)
        requires
            old(self).wf(),
        ensures
            final(self).wf(),
            final(self).scopes() == old(self).scopes(),
            ({
                let cs = old(self).classes_seq();
                if resolve_type(cs, name@) is Some {
                    (r matches Err(SemanticError::DuplicateClass(n)) && n@ == name@) && final(self).classes_seq() == cs
                } else if (parent matches Some(p) && !is_inheritable_name(p@)) {
                    (r matches Err(SemanticError::NotInheritable(n)) && (parent matches Some(p)
                        && n@ == p@)) && final(self).classes_seq() == cs
                } else if (parent matches Some(p) && resolve_type(cs, p@) is None) {
                    (r matches Err(SemanticError::UndeclaredType(n)) && (parent matches Some(p)
                        && n@ == p@)) && final(self).classes_seq() == cs
                } else {
                    r is Ok && final(self).classes_seq() == cs.push(
                        final(self).classes_seq().last(),
                    ) && final(self).classes_seq().last().name@ == name@ && (match parent {
                        Option::Some(p) => resolve_type(cs, p@) == Option::Some(
                            final(self).classes_seq().last().parent,
                        ),
                        Option::None => final(self).classes_seq().last().parent == Type::Object,
                    }) && final(self).classes_seq().last().features@ == Seq::<
                        ClassFeature,
                    >::empty()
                }
            }),
    {
        if self.type_declared(name) {
            return Err(SemanticError::DuplicateClass(String::from_str(name)));
        }
        let ghost cs = self.classes@;
        let parent_type: Type = match parent {
            Some(p) => {
                if !Type::is_inheritable(p) {
                    return Err(SemanticError::NotInheritable(String::from_str(p)));
                }
                match self.into_type(p) {
                    Ok(t) => t,
                    Err(e) => {
                        return Err(e);
                    },
                }
            },
            None => Type::Object,
        };
        proof {
            match parent {
                Option::Some(p) => {
                    lemma_find_class_from(cs, p@, 0);
                },
                Option::None => {},
            }
            assert(type_valid(parent_type, cs.len() as int));
            assert(type_rank(parent_type) <= cs.len() as int);
        }
        let c = Class::new(name, Some(parent_type));
        self.classes.push(c);
        proof {
            let cs2 = self.classes@;
            let n2 = cs2.len() as int;
            lemma_find_class_from(cs, name@, 0);
            assert forall|i: int, j: int| 0 <= i < j < cs2.len() implies (
            #[trigger] cs2[i]).name@ != (#[trigger] cs2[j]).name@ by {
                if j < cs.len() {
                    assert(cs[i].name@ != cs[j].name@);
                } else {
                    assert(cs2[j].name@ == name@);
                    assert(cs[i].name@ != name@);
                }
            }
            assert forall|i: int| 0 <= i < cs2.len() implies type_rank(
                #[trigger] cs2[i].parent,
            ) <= i by {
                if i < cs.len() {
                    assert(type_rank(cs[i].parent) <= i);
                }
            }
            assert forall|i: int| 0 <= i < cs2.len() implies class_entry_wf(
                #[trigger] cs2[i],
                n2,
                i,
            ) by {
                if i < cs.len() {
                    assert(class_entry_wf(cs[i], cs.len() as int, i));
                    lemma_entry_wf_grow(cs[i], cs.len() as int, n2, i);
                }
            }
            lemma_scopes_wf_grow(self.symbol_tables@, cs.len() as int, n2);
        }
        Ok(())
    }

    /// Defines a member variable on a declared class. Fails on a
    /// built-in class, an undeclared class or type, or a name the class
    /// already exposes.
    pub fn define_member_variable(&mut self, classname: &str, name: &str, type_: &str) -> (r:
        Result<(), SemanticError>)
        requires
            old(self).wf(),
        ensures
            final(self).wf(),
            final(self).scopes() == old(self).scopes(),
            ({
                let cs = old(self).classes_seq();
                let ci = class_index(cs, classname@);
                if is_builtin_name(classname@) {
                    (r matches Err(SemanticError::BuiltinClass(n)) && n@ == classname@) && final(self).classes_seq() == cs
                } else if ci < 0 {
                    (r matches Err(SemanticError::UndeclaredType(n)) && n@ == classname@) && final(self).classes_seq() == cs
                } else if resolve_type(cs, type_@) is None {
                    (r matches Err(SemanticError::UndeclaredType(n)) && n@ == type_@) && final(self).classes_seq() == cs
                } else if type_has_feature(cs, Type::Custom(ci as usize), name@) {
                    (r matches Err(SemanticError::DuplicateMemberVariable(cn, mn)) && cn@
                        == classname@ && mn@ == name@) && final(self).classes_seq() == cs
                } else {
                    r is Ok && final(self).classes_seq().len() == cs.len() && (forall|j: int|
                        0 <= j < cs.len() && j != ci ==> final(self).classes_seq()[j] == cs[j]) && (
                    resolve_type(cs, type_@) matches Some(t) && member_put(
                        cs[ci],
                        final(self).classes_seq()[ci],
                        name@,
                        t,
                    ))
                }
            }),
    {
        if Type::is_builtin(classname) {
            return Err(SemanticError::BuiltinClass(String::from_str(classname)));
        }
        let ghost cs = self.classes@;
        let table_len = self.classes.len();
        proof {
            assert(cs.len() == table_len as int);
        }
        let class_t = match self.into_type(classname) {
            Ok(t) => t,
            Err(e) => {
                return Err(e);
            },
        };
        let t = match self.into_type(type_) {
            Ok(t) => t,
            Err(e) => {
                return Err(e);
            },
        };
        proof {
            lemma_find_class_from(cs, classname@, 0);
            lemma_resolve_valid(cs, classname@);
            lemma_resolve_valid(cs, type_@);
            assert(class_t == Type::Custom(class_index(cs, classname@) as usize));
        }
        let res = class_t.add_member_variable(name, &t, &mut self.classes);
        proof {
            let ci = class_index(cs, classname@);
            assert(ci >= 0);
            assert(class_t == Type::Custom(ci as usize));
            assert((ci as usize) as int == ci);
            if !type_has_feature(cs, Type::Custom(ci as usize), name@) {
                assert(res is Ok);
                assert(self.classes@.len() == cs.len());
                assert(forall|j: int| 0 <= j < cs.len() && j != ci ==> self.classes@[j] == cs[j]);
                assert(member_put(cs[ci], self.classes@[ci], name@, t));
                lemma_find_feature_from(cs[ci].features@, name@, 0);
                assert(feature_index(cs[ci].features@, name@) == -1);
                lemma_wf_member_put(cs, self.classes@, ci, name@, t);
            } else {
                assert(self.classes@ == cs);
            }
        }
        res
    }

    /// Defines a method on a declared class. Fails on a built-in class,
    /// an undeclared parameter type (naming the offending parameter), an
    /// undeclared class or return type, or a name the class already
    /// exposes.
    pub fn define_method(
        &mut self,
        classname: &str,
        name: &str,
        parameters: Vec<(String, String)>,
        return_type: &str,
    ) -> (r: Result<(), SemanticError>)
        requires
            old(self).wf(),
        ensures
            final(self).wf(),
            final(self).scopes() == old(self).scopes(),
            ({
                let cs = old(self).classes_seq();
                let ci = class_index(cs, classname@);
                let dup = param_dup_from(parameters@, 0);
                let bad = first_undeclared_from(cs, parameters@, 0);
                if is_builtin_name(classname@) {
                    (r matches Err(SemanticError::BuiltinClass(n)) && n@ == classname@) && final(self).classes_seq() == cs
                } else if dup >= 0 {
                    (r matches Err(SemanticError::DuplicateParameter(pn)) && pn@
                        == parameters@[dup].0@) && final(self).classes_seq() == cs
                } else if bad >= 0 {
                    (r matches Err(SemanticError::UndeclaredParameterType(pn, pt)) && pn@
                        == parameters@[bad].0@ && pt@ == parameters@[bad].1@) && final(self).classes_seq() == cs
                } else if ci < 0 {
                    (r matches Err(SemanticError::UndeclaredType(n)) && n@ == classname@) && final(self).classes_seq() == cs
                } else if resolve_type(cs, return_type@) is None {
                    (r matches Err(SemanticError::UndeclaredType(n)) && n@ == return_type@)
                        && final(self).classes_seq() == cs
                } else if type_has_feature(cs, Type::Custom(ci as usize), name@) {
                    (r matches Err(SemanticError::DuplicateMethod(cn, mn)) && cn@ == classname@
                        && mn@ == name@) && final(self).classes_seq() == cs
                } else {
                    r is Ok && final(self).classes_seq().len() == cs.len() && (forall|j: int|
                        0 <= j < cs.len() && j != ci ==> final(self).classes_seq()[j] == cs[j]) && (
                    resolve_type(cs, return_type@) matches Some(rt) && method_put_fields(
                        cs[ci],
                        final(self).classes_seq()[ci],
                        name@,
                        ci,
                        resolved_params(cs, parameters@),
                        rt,
                    ))
                }
            }),
    {
        if Type::is_builtin(classname) {
            return Err(SemanticError::BuiltinClass(String::from_str(classname)));
        }
        match find_duplicate_param(&parameters) {
            Some(j) => {
                return Err(SemanticError::DuplicateParameter(parameters[j].0.clone()));
            },
            None => {},
        }
        let ghost cs = self.classes@;
        let table_len = self.classes.len();
        proof {
            assert(cs.len() == table_len as int);
        }
        let resolved = match self.resolve_parameters(&parameters) {
            Ok(v) => v,
            Err(e) => {
                return Err(e);
            },
        };
        let class_t = match self.into_type(classname) {
            Ok(t) => t,
            Err(e) => {
                return Err(e);
            },
        };
        let ret_t = match self.into_type(return_type) {
            Ok(t) => t,
            Err(e) => {
                return Err(e);
            },
        };
        proof {
            lemma_find_class_from(cs, classname@, 0);
            lemma_resolve_valid(cs, classname@);
            lemma_resolve_valid(cs, return_type@);
            assert(class_t == Type::Custom(class_index(cs, classname@) as usize));
            lemma_first_undeclared_none(cs, parameters@, 0);
            assert forall|k: int|
                0 <= k < parameters@.len() implies type_valid(
                (#[trigger] resolved_params(cs, parameters@)[k]).1,
                cs.len() as int,
            ) by {
                lemma_resolve_valid(cs, parameters@[k].1@);
                assert(resolve_type(cs, parameters@[k].1@) is Some);
            }
        }
        let res = class_t.add_method(name, resolved, &ret_t, &mut self.classes);
        proof {
            let ci = class_index(cs, classname@);
            if !type_has_feature(cs, Type::Custom(ci as usize), name@) {
                lemma_wf_method_put(
                    cs,
                    self.classes@,
                    ci,
                    name@,
                    resolved_params(cs, parameters@),
                    ret_t,
                );
            }
        }
        res
    }

    /// Replaces (overrides) a method on a declared class: the same
    /// resolution as defining one, but the feature must already be
    /// exposed, its own or inherited, and the entry in the class's own
    /// feature list is replaced.
    pub fn redefine_method(
        &mut self,
        classname: &str,
        name: &str,
        parameters: Vec<(String, String)>,
        return_type: &str,
    ) -> (r: Result<(), SemanticError>)
        requires
            old(self).wf(),
        ensures
            final(self).wf(),
            final(self).scopes() == old(self).scopes(),
            ({
                let cs = old(self).classes_seq();
                let ci = class_index(cs, classname@);
                let dup = param_dup_from(parameters@, 0);
                let bad = first_undeclared_from(cs, parameters@, 0);
                if is_builtin_name(classname@) {
                    (r matches Err(SemanticError::BuiltinClass(n)) && n@ == classname@) && final(self).classes_seq() == cs
                } else if dup >= 0 {
                    (r matches Err(SemanticError::DuplicateParameter(pn)) && pn@
                        == parameters@[dup].0@) && final(self).classes_seq() == cs
                } else if bad >= 0 {
                    (r matches Err(SemanticError::UndeclaredParameterType(pn, pt)) && pn@
                        == parameters@[bad].0@ && pt@ == parameters@[bad].1@) && final(self).classes_seq() == cs
                } else if ci < 0 {
                    (r matches Err(SemanticError::UndeclaredType(n)) && n@ == classname@) && final(self).classes_seq() == cs
                } else if resolve_type(cs, return_type@) is None {
                    (r matches Err(SemanticError::UndeclaredType(n)) && n@ == return_type@)
                        && final(self).classes_seq() == cs
                } else if !type_has_method(cs, Type::Custom(ci as usize), name@) {
                    (r matches Err(SemanticError::MethodNotDefined(mn)) && mn@ == name@) && final(self).classes_seq() == cs
                } else {
                    r is Ok && final(self).classes_seq().len() == cs.len() && (forall|j: int|
                        0 <= j < cs.len() && j != ci ==> final(self).classes_seq()[j] == cs[j]) && (
                    resolve_type(cs, return_type@) matches Some(rt) && method_put_fields(
                        cs[ci],
                        final(self).classes_seq()[ci],
                        name@,
                        ci,
                        resolved_params(cs, parameters@),
                        rt,
                    ))
                }
            }),
    {
        if Type::is_builtin(classname) {
            return Err(SemanticError::BuiltinClass(String::from_str(classname)));
        }
        match find_duplicate_param(&parameters) {
            Some(j) => {
                return Err(SemanticError::DuplicateParameter(parameters[j].0.clone()));
            },
            None => {},
        }
        let ghost cs = self.classes@;
        let table_len = self.classes.len();
        proof {
            assert(cs.len() == table_len as int);
        }
        let resolved = match self.resolve_parameters(&parameters) {
            Ok(v) => v,
            Err(e) => {
                return Err(e);
            },
        };
        let class_t = match self.into_type(classname) {
            Ok(t) => t,
            Err(e) => {
                return Err(e);
            },
        };
        let ret_t = match self.into_type(return_type) {
            Ok(t) => t,
            Err(e) => {
                return Err(e);
            },
        };
        proof {
            lemma_find_class_from(cs, classname@, 0);
            lemma_resolve_valid(cs, classname@);
            lemma_resolve_valid(cs, return_type@);
            assert(class_t == Type::Custom(class_index(cs, classname@) as usize));
            lemma_first_undeclared_none(cs, parameters@, 0);
            assert forall|k: int|
                0 <= k < parameters@.len() implies type_valid(
                (#[trigger] resolved_params(cs, parameters@)[k]).1,
                cs.len() as int,
            ) by {
                lemma_resolve_valid(cs, parameters@[k].1@);
                assert(resolve_type(cs, parameters@[k].1@) is Some);
            }
        }
        let res = class_t.redefine_method(name, resolved, &ret_t, &mut self.classes);
        proof {
            let ci = class_index(cs, classname@);
            if type_has_method(cs, Type::Custom(ci as usize), name@) {
                lemma_wf_method_put(
                    cs,
                    self.classes@,
                    ci,
                    name@,
                    resolved_params(cs, parameters@),
                    ret_t,
                );
            }
        }
        res
    }

    /// Resolves each parameter's declared type, in order; the first
    /// parameter with an undeclared type is the error.
    fn resolve_parameters(&self, parameters: &Vec<(String, String)>) -> (r: Result<
        Vec<(String, Type)>,
        SemanticError,
    >)
        ensures
            ({
                let cs = self.classes_seq();
                let bad = first_undeclared_from(cs, parameters@, 0);
                if bad >= 0 {
                    (r matches Err(SemanticError::UndeclaredParameterType(pn, pt)) && pn@
                        == parameters@[bad].0@ && pt@ == parameters@[bad].1@)
                } else {
                    r matches Ok(v) && v@ == resolved_params(cs, parameters@)
                }
            }),
    {
        let ghost cs = self.classes@;
        let mut resolved: Vec<(String, Type)> = Vec::new();
        let mut idx: usize = 0;
        while idx < parameters.len()
            invariant
                cs == self.classes@,
                idx <= parameters@.len(),
                first_undeclared_from(cs, parameters@, idx as int) == first_undeclared_from(
                    cs,
                    parameters@,
                    0,
                ),
                resolved@.len() == idx,
                forall|j: int|
                    0 <= j < idx ==> (#[trigger] resolved@[j]) == resolved_params(
                        cs,
                        parameters@,
                    )[j],
            decreases parameters@.len() - idx,
        {
            let p = &parameters[idx];
            match self.into_type(p.1.as_str()) {
                Ok(t) => {
                    resolved.push((p.0.clone(), t));
                },
                Err(_) => {
                    return Err(SemanticError::UndeclaredParameterType(p.0.clone(), p.1.clone()));
                },
            }
            idx = idx + 1;
        }
        proof {
            assert(resolved@ =~= resolved_params(cs, parameters@));
        }
        Ok(resolved)
    }

    /// Pushes a fresh scope onto the binding stack.
    pub fn start_scope(&mut self)
        requires
            old(self).wf(),
        ensures
            final(self).wf(),
            final(self).classes_seq() == old(self).classes_seq(),
            final(self).scopes() == old(self).scopes().push(final(self).scopes().last()),
            final(self).scopes().last().bindings() == Seq::<(String, Type)>::empty(),
            final(self).scopes().last().counter() == 0,
    {
        self.symbol_tables.push(SymbolTable::new());
    }

    /// Pops the innermost scope; without an open scope this does
    /// nothing.
    pub fn end_scope(&mut self)
        requires
            old(self).wf(),
        ensures
            final(self).wf(),
            final(self).classes_seq() == old(self).classes_seq(),
            final(self).scopes() == if old(self).scopes().len() == 0 {
                old(self).scopes()
            } else {
                old(self).scopes().drop_last()
            },
    {
        let _ = self.symbol_tables.pop();
        proof {
            if old(self).symbol_tables@.len() == 0 {
                assert(self.symbol_tables@ =~= old(self).symbol_tables@);
            }
        }
    }

    /// Binds `name` in the innermost scope. Fails when the type is
    /// undeclared or the name is already bound in that same scope;
    /// shadowing across scope boundaries is allowed.
    pub fn add_variable(&mut self, name: &str, type_: &str) -> (r: Result<(), SemanticError>)
        requires
            old(self).wf(),
            old(self).scopes().len() > 0,
        ensures
            final(self).wf(),
            final(self).classes_seq() == old(self).classes_seq(),
            ({
                let cs = old(self).classes_seq();
                let scs = old(self).scopes();
                if resolve_type(cs, type_@) is None {
                    (r matches Err(SemanticError::UndeclaredType(n)) && n@ == type_@) && final(self).scopes() == scs
                } else if lookup_binding(scs.last().bindings(), name@) is Some {
                    (r matches Err(SemanticError::DuplicateVariable(n)) && n@ == name@) && final(self).scopes() == scs
                } else {
                    r is Ok && final(self).scopes().len() == scs.len() && (forall|j: int|
                        0 <= j < scs.len() - 1 ==> final(self).scopes()[j] == scs[j]) && final(self).scopes().last().counter() == scs.last().counter() && (resolve_type(
                        cs,
                        type_@,
                    ) matches Some(t) && binding_put(
                        scs.last().bindings(),
                        final(self).scopes().last().bindings(),
                        name@,
                        t,
                    ))
                }
            }),
    {
        let ghost scs = self.symbol_tables@;
        let t = match self.into_type(type_) {
            Ok(t) => t,
            Err(e) => {
                return Err(e);
            },
        };
        let mut st = match self.symbol_tables.pop() {
            Some(st) => st,
            None => {
                proof {
                    assert(false);
                }
                SymbolTable::new()
            },
        };
        let res = st.add_new_variable(name, t);
        self.symbol_tables.push(st);
        proof {
            assert(self.symbol_tables@ =~= scs.update(
                scs.len() - 1,
                self.symbol_tables@.last(),
            ));
            if !(lookup_binding(scs.last().bindings(), name@) is Some) {
                lemma_find_binding_from(scs.last().bindings(), name@, 0);
                lemma_resolve_valid(self.classes@, type_@);
                let st0 = scs.last();
                let st2 = self.symbol_tables@.last();
                assert forall|k1: int, k2: int|
                    0 <= k1 < k2 < st2.bindings().len() implies (
                #[trigger] st2.bindings()[k1]).0@ != (#[trigger] st2.bindings()[k2]).0@ by {
                    if k2 < st0.bindings().len() {
                        assert(st0.bindings()[k1].0@ != st0.bindings()[k2].0@);
                    } else {
                        assert(st2.bindings()[k2].0@ == name@);
                        assert(st0.bindings()[k1].0@ != name@);
                    }
                }
            } else {
                assert(self.symbol_tables@ =~= scs);
            }
        }
        res
    }

    /// Binds a freshly minted temporary name in the innermost scope: it
    /// collides neither with earlier temporaries nor with any user-bound
    /// name.
    pub fn add_temporary(&mut self, type_: &str) -> (r: Result<(), SemanticError>)
        requires
            old(self).wf(),
            old(self).scopes().len() > 0,
            old(self).scopes().last().counter() + old(self).scopes().last().bindings().len()
                < u32::MAX,
        ensures
            final(self).wf(),
            final(self).classes_seq() == old(self).classes_seq(),
            ({
                let cs = old(self).classes_seq();
                let scs = old(self).scopes();
                if resolve_type(cs, type_@) is None {
                    (r matches Err(SemanticError::UndeclaredType(n)) && n@ == type_@) && final(self).scopes() == scs
                } else {
                    r is Ok && final(self).scopes().len() == scs.len() && (forall|j: int|
                        0 <= j < scs.len() - 1 ==> final(self).scopes()[j] == scs[j]) && (
                    resolve_type(cs, type_@) matches Some(t) && temp_minted(
                        scs.last(),
                        final(self).scopes().last(),
                        t,
                    ))
                }
            }),
    {
        let ghost scs = self.symbol_tables@;
        let t = match self.into_type(type_) {
            Ok(t) => t,
            Err(e) => {
                return Err(e);
            },
        };
        let mut st = match self.symbol_tables.pop() {
            Some(st) => st,
            None => {
                proof {
                    assert(false);
                }
                SymbolTable::new()
            },
        };
        st.add_new_temporary(t);
        self.symbol_tables.push(st);
        proof {
            assert(self.symbol_tables@ =~= scs.update(
                scs.len() - 1,
                self.symbol_tables@.last(),
            ));
            lemma_resolve_valid(self.classes@, type_@);
            let st0 = scs.last();
            let st2 = self.symbol_tables@.last();
            let nm = st2.bindings().last().0@;
            lemma_find_binding_from(st0.bindings(), nm, 0);
            assert forall|k1: int, k2: int|
                0 <= k1 < k2 < st2.bindings().len() implies (#[trigger] st2.bindings()[k1]).0@
                != (#[trigger] st2.bindings()[k2]).0@ by {
                if k2 < st0.bindings().len() {
                    assert(st0.bindings()[k1].0@ != st0.bindings()[k2].0@);
                } else {
                    assert(st2.bindings()[k2].0@ == nm);
                    assert(st2.bindings()[k1] == st0.bindings()[k1]);
                    assert(st0.bindings()[k1].0@ != nm);
                }
            }
        }
        Ok(())
    }
}

} // verus!
