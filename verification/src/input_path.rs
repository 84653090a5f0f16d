//! The check that an input path names a directory.
use vstd::prelude::*;

verus! {

/// The message for an input path that is not a directory.
pub open spec fn not_a_directory_message(is_file: bool) -> Seq<char> {
    if is_file {
        "invalid input path: a directory path is expected, a file was received"@
    } else {
        "invalid input path: a directory path is expected"@
    }
}

/// Checks an input path, given whether it is a directory and whether it is a
/// file: it must be a directory; the error says when a file was given.
pub fn ensure_path_is_dir(is_dir: bool, is_file: bool) -> (r: Result<(), String>)
    ensures
        is_dir ==> r is Ok,
        !is_dir ==> (r matches Err(m) && m@ == not_a_directory_message(is_file)),
{
    if !is_dir {
        let mut err_msg = String::from_str("invalid input path: a directory path is expected");
        if is_file {
            err_msg.append(", a file was received");
        }
        proof {
            reveal_strlit("invalid input path: a directory path is expected");
            reveal_strlit(", a file was received");
            reveal_strlit("invalid input path: a directory path is expected, a file was received");
        }
        assert(err_msg@ =~= not_a_directory_message(is_file));
        return Err(err_msg);
    }
    Ok(())
}

} // verus!
