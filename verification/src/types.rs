//! Portable ShapeSQL scalar types and static descriptors.
use vstd::prelude::*;

verus! {

/// A portable ShapeSQL 0.1 scalar type.
#[derive(Clone, Copy, Debug, PartialEq, Eq, Hash, Structural)]
pub enum ScalarType {
    Boolean,
    Int64,
    Text,
}

/// The scalar type and nullability assigned during static analysis.
#[derive(Clone, Copy, Debug, PartialEq, Eq, Hash, Structural)]
pub struct TypeDescriptor {
    pub scalar: ScalarType,
    pub nullable: bool,
}

impl TypeDescriptor {
    pub fn new(scalar: ScalarType, nullable: bool) -> (result: Self)
        ensures
            result == (TypeDescriptor { scalar, nullable }),
    {
        Self { scalar, nullable }
    }

    pub fn non_nullable(scalar: ScalarType) -> (result: Self)
        ensures
            result == (TypeDescriptor { scalar, nullable: false }),
    {
        Self::new(scalar, false)
    }

    pub fn nullable(scalar: ScalarType) -> (result: Self)
        ensures
            result == (TypeDescriptor { scalar, nullable: true }),
    {
        Self::new(scalar, true)
    }

    pub fn with_nullable(self, nullable: bool) -> (result: Self)
        ensures
            result == (TypeDescriptor { scalar: self.scalar, nullable }),
    {
        Self { scalar: self.scalar, nullable }
    }
}

/// The derived `Debug` spelling of a scalar type.
pub open spec fn scalar_debug(scalar: ScalarType) -> Seq<char> {
    match scalar {
        ScalarType::Boolean => "Boolean"@,
        ScalarType::Int64 => "Int64"@,
        ScalarType::Text => "Text"@,
    }
}

pub(crate) fn scalar_debug_text(scalar: ScalarType) -> (text: &'static str)
    ensures
        text@ == scalar_debug(scalar),
{
    match scalar {
        ScalarType::Boolean => "Boolean",
        ScalarType::Int64 => "Int64",
        ScalarType::Text => "Text",
    }
}

/// The `Debug` spelling of a Boolean.
pub open spec fn bool_debug(b: bool) -> Seq<char> {
    if b {
        "true"@
    } else {
        "false"@
    }
}

/// The derived `Debug` spelling of a descriptor.
pub open spec fn descriptor_debug(descriptor: TypeDescriptor) -> Seq<char> {
    "TypeDescriptor { scalar: "@ + scalar_debug(descriptor.scalar) + ", nullable: "@ + bool_debug(
        descriptor.nullable,
    ) + " }"@
}

/// Appends the derived `Debug` spelling of a descriptor.
pub(crate) fn push_descriptor_debug(text: &mut String, descriptor: TypeDescriptor)
    ensures
        final(text)@ == old(text)@ + descriptor_debug(descriptor),
{
    text.append("TypeDescriptor { scalar: ");
    text.append(scalar_debug_text(descriptor.scalar));
    text.append(", nullable: ");
    text.append(if descriptor.nullable { "true" } else { "false" });
    text.append(" }");
    assert(text@ =~= old(text)@ + descriptor_debug(descriptor));
}

/// `prefix`, then `middle`, then `suffix`.
pub(crate) fn enclosed(prefix: &str, middle: &str, suffix: &str) -> (text: String)
    ensures
        text@ == prefix@ + middle@ + suffix@,
{
    let mut text = String::from_str(prefix);
    text.append(middle);
    text.append(suffix);
    text
}

/// `prefix`, then the decimal digits of `n`, then `suffix`.
pub(crate) fn enclosed_number(prefix: &str, n: u64, suffix: &str) -> (text: String)
    ensures
        text@ == prefix@ + crate::lower::decimal_digits(n as nat) + suffix@,
{
    let mut text = String::from_str(prefix);
    crate::lower::push_decimal(&mut text, n);
    text.append(suffix);
    text
}

} // verus!
