use vstd::prelude::*;

use crate::rule::{join_path, path_join};

verus! {

/// The directory that holds the program's log files: `logs` under `.doze`.
pub fn log_dir() -> (res: String)
    ensures
        res@ == path_join(".doze"@, "logs"@),
{
    join_path(".doze", "logs")
}

} // verus!
