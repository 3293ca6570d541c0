//! Instructor permissions, stored as small integer codes.
use vstd::prelude::*;

verus! {

#[derive(Clone, Copy, Debug, PartialEq, Eq, Structural)]
pub enum Permission {
    ViewGrades,
    SetGrades,
    GradeAssignment,
    CreateAssignment,
    ModifyRubric,
}

/// The stored code of each permission, in declaration order from 0.
pub open spec fn code_of(p: Permission) -> i32 {
    match p {
        Permission::ViewGrades => 0,
        Permission::SetGrades => 1,
        Permission::GradeAssignment => 2,
        Permission::CreateAssignment => 3,
        Permission::ModifyRubric => 4,
    }
}

impl Permission {
    /// The code under which the permission is stored.
    pub fn code(self) -> (r: i32)
        ensures
            r == code_of(self),
    {
        match self {
            Permission::ViewGrades => 0,
            Permission::SetGrades => 1,
            Permission::GradeAssignment => 2,
            Permission::CreateAssignment => 3,
            Permission::ModifyRubric => 4,
        }
    }

    /// The permission stored under `code`; `None` for a code that names none.
    pub fn from_code(code: i32) -> (r: Option<Permission>)
        ensures
            r is Some <==> 0 <= code <= 4,
            r matches Some(p) ==> code_of(p) == code,
    {
        match code {
            0 => Some(Permission::ViewGrades),
            1 => Some(Permission::SetGrades),
            2 => Some(Permission::GradeAssignment),
            3 => Some(Permission::CreateAssignment),
            4 => Some(Permission::ModifyRubric),
            _ => None,
        }
    }
}

} // verus!
