//! The root of a JavaScript program: a script, a module, or a TypeScript
//! declaration module.

use vstd::prelude::*;

verus! {

/// How a source file is loaded.
#[derive(Clone, Copy, Debug, PartialEq, Eq, Structural)]
pub enum ModuleKind {
    /// A classic script: statements only.
    Script,
    /// An ES module: imports and exports are allowed.
    Module,
}

/// The kinds of the root node of a program.
#[derive(Clone, Copy, Debug, PartialEq, Eq, Structural)]
pub enum ProgramKind {
    JsScript,
    JsModule,
    TsDeclarationModule,
}

/// The kind of the root node of a program: a script is parsed as statements,
/// a module as a module body, which in a definition file (`.d.ts`) is a
/// declaration module.
pub fn program_kind(module_kind: ModuleKind, is_definition_file: bool) -> (kind: ProgramKind)
    ensures
        kind == match module_kind {
            ModuleKind::Script => ProgramKind::JsScript,
            ModuleKind::Module => if is_definition_file {
                ProgramKind::TsDeclarationModule
            } else {
                ProgramKind::JsModule
            },
        },
{
    match module_kind {
        ModuleKind::Script => ProgramKind::JsScript,
        ModuleKind::Module => {
            if is_definition_file {
                ProgramKind::TsDeclarationModule
            } else {
                ProgramKind::JsModule
            }
        },
    }
}

} // verus!
