use vstd::prelude::*;

verus! {

/// The kind of value a positional argument holds.
#[derive(Clone, Copy, Debug, PartialEq, Eq, Structural)]
pub enum ArgumentType {
    String,
    File,
}

/// One positional argument slot of a command.
pub struct Argument {
    pub name: &'static str,
    pub ty: ArgumentType,
    pub required: bool,
    pub variadic: bool,
    pub description: &'static str,
}

impl Argument {
    /// A slot that holds a file path.
    pub fn new_file(name: &'static str, required: bool, variadic: bool, desc: &'static str) -> (r:
        Self)
        ensures
            r == (Argument { name, ty: ArgumentType::File, required, variadic, description: desc }),
    {
        Self::new(name, ArgumentType::File, required, variadic, desc)
    }

    /// A slot that holds a string.
    pub fn new_string(name: &'static str, required: bool, variadic: bool, desc: &'static str) -> (r:
        Self)
        ensures
            r == (Argument { name, ty: ArgumentType::String, required, variadic, description: desc }),
    {
        Self::new(name, ArgumentType::String, required, variadic, desc)
    }

    /// A slot of the given kind; nothing is checked.
    pub fn new(
        name: &'static str,
        ty: ArgumentType,
        required: bool,
        variadic: bool,
        desc: &'static str,
    ) -> (r: Self)
        ensures
            r == (Argument { name, ty, required, variadic, description: desc }),
    {
        Argument { name, ty, required, variadic, description: desc }
    }

    pub fn is_variadic(&self) -> (r: bool)
        ensures
            r == self.variadic,
    {
        self.variadic
    }

    pub fn name(&self) -> (r: &'static str)
        ensures
            r == self.name,
    {
        self.name
    }

    pub fn arg_type(&self) -> (r: ArgumentType)
        ensures
            r == self.ty,
    {
        self.ty
    }
}

} // verus!
