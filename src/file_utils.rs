use vstd::prelude::*;

verus! {

/// Refusals of the file layer, each with the path concerned.
#[derive(Debug, Clone, PartialEq, Eq)]
pub enum FileUtilsError {
    MissingFileThatMustExist(String),
    PresentFileThatMustNotExist(String),
}

/// Success when the path exists; `path` names it in the error.
pub fn file_must_exist(path_exists: bool, path: String) -> (r: Result<(), FileUtilsError>)
    ensures
        path_exists ==> r is Ok,
        !path_exists ==> r == Err::<(), _>(FileUtilsError::MissingFileThatMustExist(path)),
{
    if path_exists {
        Ok(())
    } else {
        Err(FileUtilsError::MissingFileThatMustExist(path))
    }
}

/// Success when the path does not exist, so that nothing is overwritten.
pub fn file_must_not_exist(path_exists: bool, path: String) -> (r: Result<(), FileUtilsError>)
    ensures
        !path_exists ==> r is Ok,
        path_exists ==> r == Err::<(), _>(FileUtilsError::PresentFileThatMustNotExist(path)),
{
    if !path_exists {
        Ok(())
    } else {
        Err(FileUtilsError::PresentFileThatMustNotExist(path))
    }
}

} // verus!
