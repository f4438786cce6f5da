//! The two paths that the program is started with.

use vstd::prelude::*;

verus! {

/// Where the text is read from and where the result is written to.
pub struct CLI {
    pub data_in: String,
    pub data_out: String,
}

impl CLI {
    /// Takes the two paths from the command line. `args[0]` is the name of the
    /// program; what follows the second path is ignored.
    pub fn build(args: Vec<String>) -> (conf: Result<CLI, &'static str>)
        ensures
            conf is Ok <==> args.len() >= 3,
            conf matches Ok(cli) ==> cli.data_in@ == args[1]@ && cli.data_out@ == args[2]@,
            conf matches Err(why) ==> why@ == "not enough arguments"@,
    {
        if args.len() < 3 {
            return Err("not enough arguments");
        }
        let data_in = args[1].clone();
        let data_out = args[2].clone();
        Ok(CLI { data_in, data_out })
    }
}

} // verus!
