//! Patterns and enum declarations, and the shape check between them.

use vstd::prelude::*;

verus! {

broadcast use {vstd::seq::group_seq_axioms, vstd::std_specs::vec::group_vec_axioms};

/// A destructuring pattern, read for its shape only.
#[allow(inconsistent_fields)]
pub enum Pattern {
    Wildcard,
    Binding(String),
    Literal(i64),
    TupleVariant { enum_name: String, variant: String, fields: Vec<Pattern> },
    StructVariant { enum_name: String, variant: String, fields: Vec<FieldPattern> },
    UnitVariant { enum_name: String, variant: String },
}

/// One `name: pattern` entry of a struct-variant pattern.
pub struct FieldPattern {
    pub name: String,
    pub pattern: Pattern,
}

/// The declared shape of one enum variant.
pub enum VariantShape {
    Unit,
    Tuple(usize),
    Struct(Vec<String>),
}

pub struct VariantDecl {
    pub name: String,
    pub shape: VariantShape,
}

pub struct EnumDecl {
    pub name: String,
    pub variants: Vec<VariantDecl>,
}

#[derive(PartialEq, Eq, Structural, Clone, Copy, Debug)]
pub enum PatternError {
    UnknownVariant,
    ArityMismatch,
}

/// First index `j >= i` of a variant named `v`.
pub open spec fn variant_from(vs: Seq<VariantDecl>, v: Seq<char>, i: int) -> Option<int>
    decreases vs.len() - i,
{
    if i < 0 || i >= vs.len() {
        None
    } else if vs[i].name@ == v {
        Some(i)
    } else {
        variant_from(vs, v, i + 1)
    }
}

/// First enum (from index `i` on) named `e` that declares a variant `v`:
/// the enum's index and the variant's index.
pub open spec fn lookup_from(decls: Seq<EnumDecl>, e: Seq<char>, v: Seq<char>, i: int) -> Option<
    (int, int),
>
    decreases decls.len() - i,
{
    if i < 0 || i >= decls.len() {
        None
    } else if decls[i].name@ == e && variant_from(decls[i].variants@, v, 0) is Some {
        Some((i, variant_from(decls[i].variants@, v, 0)->0))
    } else {
        lookup_from(decls, e, v, i + 1)
    }
}

pub open spec fn lookup(decls: Seq<EnumDecl>, e: Seq<char>, v: Seq<char>) -> Option<(int, int)> {
    lookup_from(decls, e, v, 0)
}

pub open spec fn shape_of(decls: Seq<EnumDecl>, at: (int, int)) -> VariantShape {
    decls[at.0].variants@[at.1].shape
}

pub open spec fn names_contain(names: Seq<String>, n: Seq<char>) -> bool {
    exists|k: int| 0 <= k < names.len() && #[trigger] names[k]@ == n
}

/// The field names of a struct-variant pattern are distinct and all declared.
pub open spec fn fields_fit(fields: Seq<FieldPattern>, declared: Seq<String>) -> bool {
    &&& forall|i: int| 0 <= i < fields.len() ==> names_contain(declared, (#[trigger] fields[i]).name@)
    &&& forall|i: int, j: int|
        0 <= i < j < fields.len() ==> (#[trigger] fields[i]).name@ != (#[trigger] fields[j]).name@
}

/// The first shape error met in a left-to-right walk of `p`, if any.
pub open spec fn shape_error(p: Pattern, decls: Seq<EnumDecl>) -> Option<PatternError>
    decreases p,
{
    match p {
        Pattern::UnitVariant { enum_name, variant } => match lookup(decls, enum_name@, variant@) {
            None => Some(PatternError::UnknownVariant),
            Some(at) => if shape_of(decls, at) is Unit {
                None
            } else {
                Some(PatternError::ArityMismatch)
            },
        },
        Pattern::TupleVariant { enum_name, variant, fields } => match lookup(
            decls,
            enum_name@,
            variant@,
        ) {
            None => Some(PatternError::UnknownVariant),
            Some(at) => if shape_of(decls, at) is Tuple && shape_of(decls, at)->Tuple_0
                == fields.len() {
                seq_error(fields@, decls)
            } else {
                Some(PatternError::ArityMismatch)
            },
        },
        Pattern::StructVariant { enum_name, variant, fields } => match lookup(
            decls,
            enum_name@,
            variant@,
        ) {
            None => Some(PatternError::UnknownVariant),
            Some(at) => if shape_of(decls, at) is Struct && fields_fit(
                fields@,
                shape_of(decls, at)->Struct_0@,
            ) {
                field_error(fields@, decls)
            } else {
                Some(PatternError::ArityMismatch)
            },
        },
        _ => None,
    }
}

pub open spec fn seq_error(ps: Seq<Pattern>, decls: Seq<EnumDecl>) -> Option<PatternError>
    decreases ps,
{
    if ps.len() == 0 {
        None
    } else if shape_error(ps[0], decls) is Some {
        shape_error(ps[0], decls)
    } else {
        seq_error(ps.subrange(1, ps.len() as int), decls)
    }
}

pub open spec fn field_error(fs: Seq<FieldPattern>, decls: Seq<EnumDecl>) -> Option<
    PatternError,
>
    decreases fs,
{
    if fs.len() == 0 {
        None
    } else if shape_error(fs[0].pattern, decls) is Some {
        shape_error(fs[0].pattern, decls)
    } else {
        field_error(fs.subrange(1, fs.len() as int), decls)
    }
}

fn find_variant(vs: &Vec<VariantDecl>, v: &String) -> (r: Option<usize>)
    ensures
        r matches Some(j) ==> variant_from(vs@, v@, 0) == Some(j as int) && j < vs@.len(),
        r is None ==> variant_from(vs@, v@, 0) is None,
{
    let mut i: usize = 0;
    while i < vs.len()
        invariant
            i <= vs.len(),
            variant_from(vs@, v@, 0) == variant_from(vs@, v@, i as int),
        decreases vs.len() - i,
    {
        if vs[i].name == *v {
            return Some(i);
        }
        i = i + 1;
    }
    None
}

/// Finds the variant `variant` of the first declared enum `enum_name` that has it.
pub fn lookup_variant(decls: &Vec<EnumDecl>, enum_name: &String, variant: &String) -> (r: Option<
    (usize, usize),
>)
    ensures
        r matches Some(at) ==> lookup(decls@, enum_name@, variant@) == Some(
            (at.0 as int, at.1 as int),
        ) && at.0 < decls@.len() && at.1 < decls@[at.0 as int].variants@.len(),
        r is None ==> lookup(decls@, enum_name@, variant@) is None,
{
    let mut i: usize = 0;
    while i < decls.len()
        invariant
            i <= decls.len(),
            lookup(decls@, enum_name@, variant@) == lookup_from(
                decls@,
                enum_name@,
                variant@,
                i as int,
            ),
        decreases decls.len() - i,
    {
        if decls[i].name == *enum_name {
            match find_variant(&decls[i].variants, variant) {
                Some(j) => {
                    return Some((i, j));
                },
                None => {},
            }
        }
        i = i + 1;
    }
    None
}

fn declares(names: &Vec<String>, n: &String) -> (r: bool)
    ensures
        r == names_contain(names@, n@),
{
    let mut k: usize = 0;
    while k < names.len()
        invariant
            k <= names.len(),
            forall|q: int| 0 <= q < k ==> #[trigger] names@[q]@ != n@,
        decreases names.len() - k,
    {
        if names[k] == *n {
            return true;
        }
        k = k + 1;
    }
    false
}

fn check_fields_fit(fields: &Vec<FieldPattern>, declared: &Vec<String>) -> (r: bool)
    ensures
        r == fields_fit(fields@, declared@),
{
    let mut i: usize = 0;
    while i < fields.len()
        invariant
            i <= fields.len(),
            forall|a: int| 0 <= a < i ==> names_contain(declared@, (#[trigger] fields@[a]).name@),
            forall|a: int, b: int|
                0 <= a < b < i ==> (#[trigger] fields@[a]).name@ != (#[trigger] fields@[b]).name@,
        decreases fields.len() - i,
    {
        if !declares(declared, &fields[i].name) {
            assert(!fields_fit(fields@, declared@));
            return false;
        }
        let mut j: usize = 0;
        while j < i
            invariant
                i < fields.len(),
                j <= i,
                names_contain(declared@, fields@[i as int].name@),
                forall|a: int| 0 <= a < i ==> names_contain(declared@, (#[trigger] fields@[a]).name@),
                forall|a: int, b: int|
                    0 <= a < b < i ==> (#[trigger] fields@[a]).name@ != (#[trigger] fields@[b]).name@,
                forall|a: int| 0 <= a < j ==> (#[trigger] fields@[a]).name@ != fields@[i as int].name@,
            decreases i - j,
        {
            if fields[j].name == fields[i].name {
                assert(!fields_fit(fields@, declared@));
                return false;
            }
            j = j + 1;
        }
        i = i + 1;
    }
    true
}

/// Checks that `p`, and every pattern nested in it, names a declared variant
/// with the declared arity; returns the first error met left to right.
pub fn matches_shape(p: &Pattern, decls: &Vec<EnumDecl>) -> (r: Result<(), PatternError>)
    ensures
        r is Ok <==> shape_error(*p, decls@) is None,
        r matches Err(e) ==> shape_error(*p, decls@) == Some(e),
    decreases p,
{
    match p {
        Pattern::UnitVariant { enum_name, variant } => match lookup_variant(decls, enum_name, variant) {
            None => Err(PatternError::UnknownVariant),
            Some(at) => match &decls[at.0].variants[at.1].shape {
                VariantShape::Unit => Ok(()),
                _ => Err(PatternError::ArityMismatch),
            },
        },
        Pattern::TupleVariant { enum_name, variant, fields } => match lookup_variant(
            decls,
            enum_name,
            variant,
        ) {
            None => Err(PatternError::UnknownVariant),
            Some(at) => match &decls[at.0].variants[at.1].shape {
                VariantShape::Tuple(n) => {
                    if *n != fields.len() {
                        Err(PatternError::ArityMismatch)
                    } else {
                        all_match_shape(fields, decls)
                    }
                },
                _ => Err(PatternError::ArityMismatch),
            },
        },
        Pattern::StructVariant { enum_name, variant, fields } => match lookup_variant(
            decls,
            enum_name,
            variant,
        ) {
            None => Err(PatternError::UnknownVariant),
            Some(at) => match &decls[at.0].variants[at.1].shape {
                VariantShape::Struct(names) => {
                    if !check_fields_fit(fields, names) {
                        Err(PatternError::ArityMismatch)
                    } else {
                        fields_match_shape(fields, decls)
                    }
                },
                _ => Err(PatternError::ArityMismatch),
            },
        },
        _ => Ok(()),
    }
}

fn all_match_shape(ps: &Vec<Pattern>, decls: &Vec<EnumDecl>) -> (r: Result<(), PatternError>)
    ensures
        r is Ok <==> seq_error(ps@, decls@) is None,
        r matches Err(e) ==> seq_error(ps@, decls@) == Some(e),
    decreases ps,
{
    let mut i: usize = 0;
    assert(ps@.subrange(0, ps@.len() as int) =~= ps@);
    while i < ps.len()
        invariant
            i <= ps.len(),
            seq_error(ps@, decls@) == seq_error(ps@.subrange(i as int, ps@.len() as int), decls@),
        decreases ps.len() - i,
    {
        let ghost rest = ps@.subrange(i as int, ps@.len() as int);
        assert(rest[0] == ps@[i as int]);
        assert(rest.subrange(1, rest.len() as int) =~= ps@.subrange(i + 1, ps@.len() as int));
        match matches_shape(&ps[i], decls) {
            Err(e) => {
                return Err(e);
            },
            Ok(()) => {},
        }
        i = i + 1;
    }
    assert(ps@.subrange(i as int, ps@.len() as int).len() == 0);
    Ok(())
}

fn fields_match_shape(fs: &Vec<FieldPattern>, decls: &Vec<EnumDecl>) -> (r: Result<
    (),
    PatternError,
>)
    ensures
        r is Ok <==> field_error(fs@, decls@) is None,
        r matches Err(e) ==> field_error(fs@, decls@) == Some(e),
    decreases fs,
{
    let mut i: usize = 0;
    assert(fs@.subrange(0, fs@.len() as int) =~= fs@);
    while i < fs.len()
        invariant
            i <= fs.len(),
            field_error(fs@, decls@) == field_error(fs@.subrange(i as int, fs@.len() as int), decls@),
        decreases fs.len() - i,
    {
        let ghost rest = fs@.subrange(i as int, fs@.len() as int);
        assert(rest[0] == fs@[i as int]);
        assert(rest.subrange(1, rest.len() as int) =~= fs@.subrange(i + 1, fs@.len() as int));
        match matches_shape(&fs[i].pattern, decls) {
            Err(e) => {
                return Err(e);
            },
            Ok(()) => {},
        }
        i = i + 1;
    }
    assert(fs@.subrange(i as int, fs@.len() as int).len() == 0);
    Ok(())
}

} // verus!
