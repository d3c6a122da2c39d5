//! A minimal model of the surrounding module container.
//!
//! The name-metadata subsystem validates its indices against the shape
//! of the already-parsed module: the function space (imported plus
//! locally defined functions), the largest parameter count any
//! signature declares, and the largest local-variable count any
//! function body declares. This module holds exactly that shape, as
//! plain values.

use vstd::prelude::*;

verus! {

/// Type of a value a function can compute with.
#[derive(Debug, Clone, Copy, PartialEq, Eq, Structural)]
pub enum ValueType {
    I32,
    I64,
    F32,
    F64,
}

/// A function signature: the types of its parameters.
#[derive(Debug, Clone, PartialEq)]
pub struct FunctionType {
    pub params: Vec<ValueType>,
}

/// An entry of the type section.
#[derive(Debug, Clone, PartialEq)]
pub enum Type {
    Function(FunctionType),
}

/// A run of local variables of one type inside a function body.
#[derive(Debug, Clone, Copy, PartialEq, Eq, Structural)]
pub struct Local {
    pub count: u32,
    pub value_type: ValueType,
}

/// A function body: the local variables it declares.
#[derive(Debug, Clone, PartialEq)]
pub struct FuncBody {
    pub locals: Vec<Local>,
}

/// The type section: the signatures the module declares.
#[derive(Debug, Clone, PartialEq)]
pub struct TypeSection {
    pub types: Vec<Type>,
}

/// The import section, reduced to the count of imported functions.
#[derive(Debug, Clone, Copy, PartialEq, Eq, Structural)]
pub struct ImportSection {
    pub functions: u32,
}

/// The function section: the type index of each locally defined
/// function.
#[derive(Debug, Clone, PartialEq)]
pub struct FunctionSection {
    pub entries: Vec<u32>,
}

/// The code section: the body of each locally defined function.
#[derive(Debug, Clone, PartialEq)]
pub struct CodeSection {
    pub bodies: Vec<FuncBody>,
}

/// A typed section of a module.
#[derive(Debug, Clone, PartialEq)]
pub enum Section {
    Type(TypeSection),
    Import(ImportSection),
    Function(FunctionSection),
    Code(CodeSection),
}

/// An ordered collection of sections.
#[derive(Debug, Clone, PartialEq)]
pub struct Module {
    pub sections: Vec<Section>,
}

/// Addition that tops out at the largest 64-bit value instead of
/// growing past it.
pub open spec fn sat_add_u64(a: nat, b: nat) -> nat {
    if a + b <= u64::MAX {
        a + b
    } else {
        u64::MAX as nat
    }
}

/// The first type section, if any.
pub open spec fn first_type_section(s: Seq<Section>) -> Option<TypeSection>
    decreases s.len(),
{
    if s.len() == 0 {
        None
    } else {
        match s[0] {
            Section::Type(ts) => Some(ts),
            _ => first_type_section(s.skip(1)),
        }
    }
}

/// The first import section, if any.
pub open spec fn first_import_section(s: Seq<Section>) -> Option<ImportSection>
    decreases s.len(),
{
    if s.len() == 0 {
        None
    } else {
        match s[0] {
            Section::Import(is) => Some(is),
            _ => first_import_section(s.skip(1)),
        }
    }
}

/// The first function section, if any.
pub open spec fn first_function_section(s: Seq<Section>) -> Option<FunctionSection>
    decreases s.len(),
{
    if s.len() == 0 {
        None
    } else {
        match s[0] {
            Section::Function(fs) => Some(fs),
            _ => first_function_section(s.skip(1)),
        }
    }
}

/// The first code section, if any.
pub open spec fn first_code_section(s: Seq<Section>) -> Option<CodeSection>
    decreases s.len(),
{
    if s.len() == 0 {
        None
    } else {
        match s[0] {
            Section::Code(cs) => Some(cs),
            _ => first_code_section(s.skip(1)),
        }
    }
}

/// The function space of a module: imported plus locally defined
/// functions. Indices into this space are the valid domain for
/// function names.
pub open spec fn spec_functions_space(m: Module) -> nat {
    let imported: nat = match first_import_section(m.sections@) {
        Some(is) => is.functions as nat,
        None => 0,
    };
    let defined: nat = match first_function_section(m.sections@) {
        Some(fs) => fs.entries@.len(),
        None => 0,
    };
    sat_add_u64(imported, defined)
}

/// The parameter count a type declares.
pub open spec fn type_params(t: Type) -> nat {
    match t {
        Type::Function(ft) => ft.params@.len(),
    }
}

/// The largest parameter count among `s`, folded over an accumulator.
pub open spec fn max_params_from(s: Seq<Type>, acc: nat) -> nat
    decreases s.len(),
{
    if s.len() == 0 {
        acc
    } else {
        max_params_from(
            s.skip(1),
            if type_params(s[0]) > acc {
                type_params(s[0])
            } else {
                acc
            },
        )
    }
}

/// The declared local-variable total of a body, saturating at the
/// largest 64-bit value, folded over an accumulator.
pub open spec fn locals_total_from(s: Seq<Local>, acc: nat) -> nat
    decreases s.len(),
{
    if s.len() == 0 {
        acc
    } else {
        locals_total_from(s.skip(1), sat_add_u64(acc, s[0].count as nat))
    }
}

/// The largest local-variable total among the bodies, folded over an
/// accumulator.
pub open spec fn max_locals_from(s: Seq<FuncBody>, acc: nat) -> nat
    decreases s.len(),
{
    if s.len() == 0 {
        acc
    } else {
        max_locals_from(
            s.skip(1),
            if locals_total_from(s[0].locals@, 0) > acc {
                locals_total_from(s[0].locals@, 0)
            } else {
                acc
            },
        )
    }
}

/// The bound used for local-name indices: the largest parameter count
/// plus the largest local count, a single maximum shared by every
/// function.
pub open spec fn spec_local_space(m: Module) -> nat {
    let params: nat = match first_type_section(m.sections@) {
        Some(ts) => max_params_from(ts.types@, 0),
        None => 0,
    };
    let locals: nat = match first_code_section(m.sections@) {
        Some(cs) => max_locals_from(cs.bodies@, 0),
        None => 0,
    };
    sat_add_u64(params, locals)
}

/// Add two counts, topping out at the largest 64-bit value.
pub fn sat_add(a: u64, b: u64) -> (r: u64)
    ensures
        r as nat == sat_add_u64(a as nat, b as nat),
{
    if a > u64::MAX - b {
        u64::MAX
    } else {
        a + b
    }
}

impl Module {
    /// Create a module from its sections.
    pub fn new(sections: Vec<Section>) -> (m: Module)
        ensures
            m.sections@ == sections@,
    {
        Module { sections }
    }

    /// The first type section, if any.
    pub fn type_section(&self) -> (r: Option<&TypeSection>)
        ensures
            match r {
                Some(ts) => first_type_section(self.sections@) == Some(*ts),
                None => first_type_section(self.sections@) is None,
            },
    {
        let n = self.sections.len();
        proof {
            assert(self.sections@.skip(0) =~= self.sections@);
        }
        let mut i: usize = 0;
        while i < n
            invariant
                i <= n,
                n == self.sections@.len(),
                first_type_section(self.sections@) == first_type_section(self.sections@.skip(
                    i as int,
                )),
            decreases n - i,
        {
            proof {
                assert(self.sections@.skip(i as int).skip(1) =~= self.sections@.skip(i + 1));
                assert(self.sections@.skip(i as int)[0] == self.sections@[i as int]);
            }
            match &self.sections[i] {
                Section::Type(ts) => {
                    return Some(ts);
                },
                _ => {},
            }
            i = i + 1;
        }
        None
    }

    /// The first import section, if any.
    pub fn import_section(&self) -> (r: Option<&ImportSection>)
        ensures
            match r {
                Some(is) => first_import_section(self.sections@) == Some(*is),
                None => first_import_section(self.sections@) is None,
            },
    {
        let n = self.sections.len();
        proof {
            assert(self.sections@.skip(0) =~= self.sections@);
        }
        let mut i: usize = 0;
        while i < n
            invariant
                i <= n,
                n == self.sections@.len(),
                first_import_section(self.sections@) == first_import_section(self.sections@.skip(
                    i as int,
                )),
            decreases n - i,
        {
            proof {
                assert(self.sections@.skip(i as int).skip(1) =~= self.sections@.skip(i + 1));
                assert(self.sections@.skip(i as int)[0] == self.sections@[i as int]);
            }
            match &self.sections[i] {
                Section::Import(is) => {
                    return Some(is);
                },
                _ => {},
            }
            i = i + 1;
        }
        None
    }

    /// The first function section, if any.
    pub fn function_section(&self) -> (r: Option<&FunctionSection>)
        ensures
            match r {
                Some(fs) => first_function_section(self.sections@) == Some(*fs),
                None => first_function_section(self.sections@) is None,
            },
    {
        let n = self.sections.len();
        proof {
            assert(self.sections@.skip(0) =~= self.sections@);
        }
        let mut i: usize = 0;
        while i < n
            invariant
                i <= n,
                n == self.sections@.len(),
                first_function_section(self.sections@) == first_function_section(
                    self.sections@.skip(i as int),
                ),
            decreases n - i,
        {
            proof {
                assert(self.sections@.skip(i as int).skip(1) =~= self.sections@.skip(i + 1));
                assert(self.sections@.skip(i as int)[0] == self.sections@[i as int]);
            }
            match &self.sections[i] {
                Section::Function(fs) => {
                    return Some(fs);
                },
                _ => {},
            }
            i = i + 1;
        }
        None
    }

    /// The first code section, if any.
    pub fn code_section(&self) -> (r: Option<&CodeSection>)
        ensures
            match r {
                Some(cs) => first_code_section(self.sections@) == Some(*cs),
                None => first_code_section(self.sections@) is None,
            },
    {
        let n = self.sections.len();
        proof {
            assert(self.sections@.skip(0) =~= self.sections@);
        }
        let mut i: usize = 0;
        while i < n
            invariant
                i <= n,
                n == self.sections@.len(),
                first_code_section(self.sections@) == first_code_section(self.sections@.skip(
                    i as int,
                )),
            decreases n - i,
        {
            proof {
                assert(self.sections@.skip(i as int).skip(1) =~= self.sections@.skip(i + 1));
                assert(self.sections@.skip(i as int)[0] == self.sections@[i as int]);
            }
            match &self.sections[i] {
                Section::Code(cs) => {
                    return Some(cs);
                },
                _ => {},
            }
            i = i + 1;
        }
        None
    }

    /// The function space: imported plus locally defined functions.
    pub fn functions_space(&self) -> (r: u64)
        ensures
            r as nat == spec_functions_space(*self),
    {
        let imported: u64 = match self.import_section() {
            Some(is) => is.functions as u64,
            None => 0,
        };
        let defined: u64 = match self.function_section() {
            Some(fs) => fs.entries.len() as u64,
            None => 0,
        };
        sat_add(imported, defined)
    }
}

} // verus!
