//! View data used by the example templates.

use vstd::prelude::*;

verus! {

/// A user shown by the example templates.
#[derive(Debug, Clone)]
pub struct User {
    pub name: String,
    pub is_active: bool,
}

/// A group of users, for `for` loops nested through a field of the
/// enclosing element.
#[derive(Debug, Clone)]
pub struct Group {
    pub members: Vec<User>,
}

/// The view data of the reference mockup template.
pub struct MockupViewData<'a> {
    pub user: &'a str,
    pub html_inject_code: &'a str,
    pub is_admin: bool,
    pub user_list: &'a [User],
}

} // verus!
