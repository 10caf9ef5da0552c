//! The types of the representation and the identifiers of its parts.

use vstd::prelude::*;

verus! {

/// The name of a variable.
pub type TempId = String;

/// The identifier of a function of the program.
pub type FunctionID = usize;

/// The identifier of a structure of the program.
pub type StructID = usize;

/// The identifier of a module of the program.
pub type ModuleID = usize;

/// The contents of a name.
pub type Name = Seq<char>;

/// A type of the program.
#[derive(Debug)]
pub enum Type {
    Bool,
    Prop,
    UInt(u32),
    Address,
    Vector(Box<Type>),
    Tuple(Vec<Type>),
    Struct { struct_id: StructID, type_args: Vec<Type> },
    Reference(Box<Type>),
    MutableReference(Box<Type>, Box<Type>),
    TypeParameter(u16),
    Option(Box<Type>),
    MoveAbort,
}

/// What a [`Type`] holds.
#[verifier::ext_equal]
pub enum Ty {
    Bool,
    Prop,
    UInt(u32),
    Address,
    Vector(Box<Ty>),
    Tuple(Seq<Ty>),
    Struct { struct_id: StructID, type_args: Seq<Ty> },
    Reference(Box<Ty>),
    MutableReference(Box<Ty>, Box<Ty>),
    TypeParameter(u16),
    Option(Box<Ty>),
    MoveAbort,
}

impl Type {
    /// What the type holds.
    pub open spec fn view(&self) -> Ty
        decreases self,
    {
        match *self {
            Type::Bool => Ty::Bool,
            Type::Prop => Ty::Prop,
            Type::UInt(b) => Ty::UInt(b),
            Type::Address => Ty::Address,
            Type::Vector(t) => Ty::Vector(Box::new((*t).view())),
            Type::Tuple(ts) => Ty::Tuple(Type::views(ts@)),
            Type::Struct { struct_id, type_args } => Ty::Struct {
                struct_id,
                type_args: Type::views(type_args@),
            },
            Type::Reference(t) => Ty::Reference(Box::new((*t).view())),
            Type::MutableReference(a, b) => Ty::MutableReference(
                Box::new((*a).view()),
                Box::new((*b).view()),
            ),
            Type::TypeParameter(i) => Ty::TypeParameter(i),
            Type::Option(t) => Ty::Option(Box::new((*t).view())),
            Type::MoveAbort => Ty::MoveAbort,
        }
    }

    /// What each of the types holds.
    pub open spec fn views(s: Seq<Type>) -> Seq<Ty>
        decreases s,
    {
        Seq::new(
            s.len(),
            |i: int|
                if 0 <= i < s.len() {
                    s[i].view()
                } else {
                    arbitrary()
                },
        )
    }
}

impl Clone for Type {
    fn clone(&self) -> (r: Self)
        ensures
            r@ == self@,
        decreases self,
    {
        match self {
            Type::Bool => Type::Bool,
            Type::Prop => Type::Prop,
            Type::UInt(b) => Type::UInt(*b),
            Type::Address => Type::Address,
            Type::Vector(t) => Type::Vector(Box::new((**t).clone())),
            Type::Tuple(ts) => Type::Tuple(clone_types(ts)),
            Type::Struct { struct_id, type_args } => Type::Struct {
                struct_id: *struct_id,
                type_args: clone_types(type_args),
            },
            Type::Reference(t) => Type::Reference(Box::new((**t).clone())),
            Type::MutableReference(a, b) => Type::MutableReference(
                Box::new((**a).clone()),
                Box::new((**b).clone()),
            ),
            Type::TypeParameter(i) => Type::TypeParameter(*i),
            Type::Option(t) => Type::Option(Box::new((**t).clone())),
            Type::MoveAbort => Type::MoveAbort,
        }
    }
}

/// A copy of a list of types.
pub fn clone_types(ts: &Vec<Type>) -> (r: Vec<Type>)
    ensures
        Type::views(r@) == Type::views(ts@),
    decreases ts,
{
    let mut out: Vec<Type> = Vec::new();
    let mut i: usize = 0;
    while i < ts.len()
        invariant
            i <= ts.len(),
            out.len() == i,
            forall|j: int| 0 <= j < i ==> (#[trigger] out@[j])@ == ts@[j]@,
        decreases ts.len() - i,
    {
        out.push(ts[i].clone());
        i += 1;
    }
    assert(Type::views(out@) =~= Type::views(ts@));
    out
}

impl Type {
    /// Whether two types are the same.
    pub fn same(&self, other: &Type) -> (r: bool)
        ensures
            r == (self@ == other@),
        decreases self,
    {
        match (self, other) {
            (Type::Bool, Type::Bool) => true,
            (Type::Prop, Type::Prop) => true,
            (Type::UInt(a), Type::UInt(b)) => *a == *b,
            (Type::Address, Type::Address) => true,
            (Type::Vector(a), Type::Vector(b)) => a.same(b),
            (Type::Tuple(a), Type::Tuple(b)) => same_types(a, b),
            (
                Type::Struct { struct_id: s, type_args: a },
                Type::Struct { struct_id: t, type_args: b },
            ) => *s == *t && same_types(a, b),
            (Type::Reference(a), Type::Reference(b)) => a.same(b),
            (Type::MutableReference(a, c), Type::MutableReference(b, d)) => a.same(b) && c.same(d),
            (Type::TypeParameter(a), Type::TypeParameter(b)) => *a == *b,
            (Type::Option(a), Type::Option(b)) => a.same(b),
            (Type::MoveAbort, Type::MoveAbort) => true,
            _ => false,
        }
    }
}

/// Whether two lists of types are the same.
pub fn same_types(a: &Vec<Type>, b: &Vec<Type>) -> (r: bool)
    ensures
        r == (Type::views(a@) == Type::views(b@)),
    decreases a,
{
    if a.len() != b.len() {
        assert(Type::views(a@).len() != Type::views(b@).len());
        return false;
    }
    let mut i: usize = 0;
    while i < a.len()
        invariant
            i <= a.len(),
            a.len() == b.len(),
            forall|j: int| 0 <= j < i ==> (#[trigger] a@[j])@ == b@[j]@,
        decreases a.len() - i,
    {
        if !a[i].same(&b[i]) {
            assert(Type::views(a@)[i as int] != Type::views(b@)[i as int]);
            return false;
        }
        i += 1;
    }
    assert(Type::views(a@) =~= Type::views(b@));
    true
}

impl Ty {
    /// The type with each type parameter replaced by the argument at its index.
    pub open spec fn instantiated(self, args: Seq<Ty>) -> Ty
        decreases self,
    {
        match self {
            Ty::Vector(t) => Ty::Vector(Box::new((*t).instantiated(args))),
            Ty::Tuple(ts) => Ty::Tuple(Ty::all_instantiated(ts, args)),
            Ty::Struct { struct_id, type_args } => Ty::Struct {
                struct_id,
                type_args: Ty::all_instantiated(type_args, args),
            },
            Ty::Reference(t) => Ty::Reference(Box::new((*t).instantiated(args))),
            Ty::MutableReference(a, b) => Ty::MutableReference(
                Box::new((*a).instantiated(args)),
                Box::new((*b).instantiated(args)),
            ),
            Ty::TypeParameter(i) => if (i as int) < args.len() {
                args[i as int]
            } else {
                self
            },
            Ty::Option(t) => Ty::Option(Box::new((*t).instantiated(args))),
            _ => self,
        }
    }

    /// Each of the types with its type parameters replaced.
    pub open spec fn all_instantiated(s: Seq<Ty>, args: Seq<Ty>) -> Seq<Ty>
        decreases s,
    {
        Seq::new(
            s.len(),
            |i: int|
                if 0 <= i < s.len() {
                    s[i].instantiated(args)
                } else {
                    arbitrary()
                },
        )
    }

    /// Whether a mutable reference occurs in the type.
    pub open spec fn has_mutable_ref(self) -> bool
        decreases self,
    {
        match self {
            Ty::Vector(t) => (*t).has_mutable_ref(),
            Ty::Tuple(ts) => Ty::some_mutable_ref(ts),
            Ty::Struct { type_args, .. } => Ty::some_mutable_ref(type_args),
            Ty::Reference(t) => (*t).has_mutable_ref(),
            Ty::MutableReference(_, _) => true,
            Ty::Option(t) => (*t).has_mutable_ref(),
            _ => false,
        }
    }

    /// Whether a mutable reference occurs in one of the types.
    pub open spec fn some_mutable_ref(s: Seq<Ty>) -> bool
        decreases s,
    {
        exists|i: int| 0 <= i < s.len() && (#[trigger] s[i]).has_mutable_ref()
    }

    /// The unit type.
    pub open spec fn unit() -> Ty {
        Ty::Tuple(Seq::empty())
    }

    /// The type behind a reference, or the type itself.
    pub open spec fn target(self) -> Ty {
        match self {
            Ty::Reference(t) => *t,
            Ty::MutableReference(t, _) => *t,
            _ => self,
        }
    }
}

impl Type {
    /// The type with each type parameter replaced by the argument at its index.
    pub fn substitute_type_params(&self, args: &Vec<Type>) -> (r: Type)
        ensures
            r@ == self@.instantiated(Type::views(args@)),
        decreases self,
    {
        match self {
            Type::Vector(t) => Type::Vector(Box::new(t.substitute_type_params(args))),
            Type::Tuple(ts) => Type::Tuple(substitute_all(ts, args)),
            Type::Struct { struct_id, type_args } => Type::Struct {
                struct_id: *struct_id,
                type_args: substitute_all(type_args, args),
            },
            Type::Reference(t) => Type::Reference(Box::new(t.substitute_type_params(args))),
            Type::MutableReference(a, b) => Type::MutableReference(
                Box::new(a.substitute_type_params(args)),
                Box::new(b.substitute_type_params(args)),
            ),
            Type::TypeParameter(i) => if (*i as usize) < args.len() {
                args[*i as usize].clone()
            } else {
                Type::TypeParameter(*i)
            },
            Type::Option(t) => Type::Option(Box::new(t.substitute_type_params(args))),
            Type::Bool => Type::Bool,
            Type::Prop => Type::Prop,
            Type::UInt(b) => Type::UInt(*b),
            Type::Address => Type::Address,
            Type::MoveAbort => Type::MoveAbort,
        }
    }

    /// Whether a mutable reference occurs in the type.
    pub fn contains_mutable_ref(&self) -> (r: bool)
        ensures
            r == self@.has_mutable_ref(),
        decreases self,
    {
        match self {
            Type::Vector(t) => t.contains_mutable_ref(),
            Type::Tuple(ts) => any_mutable_ref(ts),
            Type::Struct { type_args, .. } => any_mutable_ref(type_args),
            Type::Reference(t) => t.contains_mutable_ref(),
            Type::MutableReference(_, _) => true,
            Type::Option(t) => t.contains_mutable_ref(),
            _ => false,
        }
    }

    /// The unit type.
    pub fn unit() -> (r: Type)
        ensures
            r@ == Ty::unit(),
    {
        let r = Type::Tuple(Vec::new());
        assert(Type::views(r->Tuple_0@) =~= Seq::<Ty>::empty());
        r
    }

    /// The type behind a reference, or the type itself.
    pub fn deref(&self) -> (r: Type)
        ensures
            r@ == self@.target(),
    {
        match self {
            Type::Reference(t) => (**t).clone(),
            Type::MutableReference(t, _) => (**t).clone(),
            _ => self.clone(),
        }
    }
}

/// Each of the types with its type parameters replaced.
fn substitute_all(ts: &Vec<Type>, args: &Vec<Type>) -> (r: Vec<Type>)
    ensures
        Type::views(r@) == Ty::all_instantiated(Type::views(ts@), Type::views(args@)),
    decreases ts,
{
    let mut out: Vec<Type> = Vec::new();
    let mut i: usize = 0;
    while i < ts.len()
        invariant
            i <= ts.len(),
            out@.len() == i,
            forall|j: int| 0 <= j < i ==> (#[trigger] out@[j])@ == ts@[j]@.instantiated(
                Type::views(args@),
            ),
        decreases ts.len() - i,
    {
        out.push(ts[i].substitute_type_params(args));
        i += 1;
    }
    assert(Type::views(out@) =~= Ty::all_instantiated(Type::views(ts@), Type::views(args@)));
    out
}

/// Whether a mutable reference occurs in one of the types.
fn any_mutable_ref(ts: &Vec<Type>) -> (r: bool)
    ensures
        r == Ty::some_mutable_ref(Type::views(ts@)),
    decreases ts,
{
    let mut i: usize = 0;
    while i < ts.len()
        invariant
            i <= ts.len(),
            forall|j: int| 0 <= j < i ==> !(#[trigger] ts@[j])@.has_mutable_ref(),
        decreases ts.len() - i,
    {
        if ts[i].contains_mutable_ref() {
            assert(Type::views(ts@)[i as int].has_mutable_ref());
            return true;
        }
        i += 1;
    }
    false
}

} // verus!
