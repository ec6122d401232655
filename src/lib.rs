use vstd::prelude::*;

pub mod text;
pub mod url_parser;
pub mod commands;

verus! {

/// Picks the directory that repositories live under: the one given
/// explicitly, else the value of the `GIT_PATH` variable, which the caller
/// looked up.
pub fn get_base_dir(provided_dir: Option<String>, git_path_var: Option<String>) -> (r: Result<String, String>)
    ensures
        provided_dir is Some ==> r == Ok::<String, String>(provided_dir->0),
        provided_dir is None && git_path_var is Some ==> r == Ok::<String, String>(git_path_var->0),
        provided_dir is None && git_path_var is None ==> r is Err,
{
    match provided_dir {
        Some(dir) => Ok(dir),
        None => match git_path_var {
            Some(v) => Ok(v),
            None => Err(String::from_str("GIT_PATH environment variable not set")),
        },
    }
}

} // verus!
