//! General helpers.

use vstd::prelude::*;

verus! {

/// A type that can state the name under which it is displayed.
pub trait TypeName {
    /// The name under which the type describes itself.
    spec fn spec_name() -> Seq<char>;

    /// Produce the name of the type.
    fn name() -> (r: String)
        ensures
            r@ == Self::spec_name(),
    ;
}

impl TypeName for i64 {
    open spec fn spec_name() -> Seq<char> {
        "i64"@
    }

    fn name() -> (r: String) {
        "i64".to_string()
    }
}

impl TypeName for usize {
    open spec fn spec_name() -> Seq<char> {
        "usize"@
    }

    fn name() -> (r: String) {
        "usize".to_string()
    }
}

impl TypeName for bool {
    open spec fn spec_name() -> Seq<char> {
        "bool"@
    }

    fn name() -> (r: String) {
        "bool".to_string()
    }
}

/// Display the type of the variable, as the type itself states it.
pub fn type_of<T: TypeName>(_value: &T) -> (r: String)
    ensures
        r@ == T::spec_name(),
{
    T::name()
}

} // verus!
