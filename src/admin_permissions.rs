//! Administrator permissions, stored as small integer codes.
use vstd::prelude::*;

verus! {

#[derive(Clone, Copy, Debug, PartialEq, Eq, Structural)]
pub enum Permission {
    CreateStudent,
    DeleteStudent,
    CreateInstructor,
    DeleteInstructor,
    CreateCourse,
    DeleteCourse,
    AssignInstructor,
    CreateAdmin,
    DeleteAdmin,
}

/// The stored code of each permission, in declaration order from 0.
pub open spec fn code_of(p: Permission) -> i32 {
    match p {
        Permission::CreateStudent => 0,
        Permission::DeleteStudent => 1,
        Permission::CreateInstructor => 2,
        Permission::DeleteInstructor => 3,
        Permission::CreateCourse => 4,
        Permission::DeleteCourse => 5,
        Permission::AssignInstructor => 6,
        Permission::CreateAdmin => 7,
        Permission::DeleteAdmin => 8,
    }
}

impl Permission {
    /// The code under which the permission is stored.
    pub fn code(self) -> (r: i32)
        ensures
            r == code_of(self),
    {
        match self {
            Permission::CreateStudent => 0,
            Permission::DeleteStudent => 1,
            Permission::CreateInstructor => 2,
            Permission::DeleteInstructor => 3,
            Permission::CreateCourse => 4,
            Permission::DeleteCourse => 5,
            Permission::AssignInstructor => 6,
            Permission::CreateAdmin => 7,
            Permission::DeleteAdmin => 8,
        }
    }

    /// The permission stored under `code`; `None` for a code that names none.
    pub fn from_code(code: i32) -> (r: Option<Permission>)
        ensures
            r is Some <==> 0 <= code <= 8,
            r matches Some(p) ==> code_of(p) == code,
    {
        match code {
            0 => Some(Permission::CreateStudent),
            1 => Some(Permission::DeleteStudent),
            2 => Some(Permission::CreateInstructor),
            3 => Some(Permission::DeleteInstructor),
            4 => Some(Permission::CreateCourse),
            5 => Some(Permission::DeleteCourse),
            6 => Some(Permission::AssignInstructor),
            7 => Some(Permission::CreateAdmin),
            8 => Some(Permission::DeleteAdmin),
            _ => None,
        }
    }
}

} // verus!
