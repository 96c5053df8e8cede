use vstd::prelude::*;

verus! {

/// Settings of the line-search command: the text to look for, the file to
/// search, and whether letter case is ignored.
#[derive(Debug)]
pub struct Config {
    pub query: String,
    pub file_path: String,
    pub ignore_case: bool,
}

/// The argument that follows the last occurrence of `flag` among the first
/// `k` arguments, or the empty text when there is none.
pub open spec fn last_value_of(args: Seq<String>, flag: Seq<char>, k: int) -> Seq<char>
    decreases k,
{
    if k <= 0 {
        seq![]
    } else if args[k - 1]@ == flag && k < args.len() {
        args[k]@
    } else {
        last_value_of(args, flag, k - 1)
    }
}

pub open spec fn has_flag(args: Seq<String>, flag: Seq<char>) -> bool {
    exists|i: int| 0 <= i < args.len() && #[trigger] args[i]@ == flag
}

/// A value flag must be followed by its value.
pub open spec fn values_present(args: Seq<String>) -> bool {
    forall|i: int| 0 <= i < args.len() && (#[trigger] args[i]@ == "-q"@ || args[i]@ == "-p"@) ==> i + 1 < args.len()
}

impl Config {
    /// Reads `-q <query>`, `-p <path>` and `--ignore-case` from the argument
    /// list (program name first); a later flag overrides an earlier one.
    pub fn build(args: &[String]) -> (r: Result<Config, &'static str>)
        requires
            args@.len() >= 5 ==> values_present(args@),
        ensures
            args@.len() < 5 <==> r is Err,
            r is Err ==> r == Err::<Config, &'static str>("not enough arguments"),
            r matches Ok(c) ==> c.query@ == last_value_of(args@, "-q"@, args@.len() as int)
                && c.file_path@ == last_value_of(args@, "-p"@, args@.len() as int)
                && c.ignore_case == has_flag(args@, "--ignore-case"@),
    {
        if args.len() < 5 {
            return Err("not enough arguments");
        }
        let q_flag = "-q".to_owned();
        let p_flag = "-p".to_owned();
        let case_flag = "--ignore-case".to_owned();
        let mut query = String::new();
        let mut file_path = String::new();
        let mut ignore_case = false;
        let mut i: usize = 0;
        while i < args.len()
            invariant
                0 <= i <= args@.len(),
                values_present(args@),
                q_flag@ == "-q"@,
                p_flag@ == "-p"@,
                case_flag@ == "--ignore-case"@,
                query@ == last_value_of(args@, "-q"@, i as int),
                file_path@ == last_value_of(args@, "-p"@, i as int),
                ignore_case == exists|j: int| 0 <= j < i && #[trigger] args@[j]@ == "--ignore-case"@,
            decreases args.len() - i,
        {
            proof {
                reveal_strlit("-q");
                reveal_strlit("-p");
                reveal_strlit("--ignore-case");
                assert("-q"@[1] != "-p"@[1]);
                assert("-q"@.len() != "--ignore-case"@.len());
                assert("-p"@.len() != "--ignore-case"@.len());
            }
            let ghost was = ignore_case;
            if args[i] == q_flag {
                query = args[i + 1].clone();
            } else if args[i] == p_flag {
                file_path = args[i + 1].clone();
            } else if args[i] == case_flag {
                ignore_case = true;
            }
            proof {
                if args@[i as int]@ == "--ignore-case"@ {
                    assert(args@[i as int]@ == "--ignore-case"@);
                } else if !was {
                    assert forall|j: int| 0 <= j < i + 1 implies #[trigger] args@[j]@ != "--ignore-case"@ by {
                        if j < i {
                            assert(!(0 <= j < i && args@[j]@ == "--ignore-case"@));
                        }
                    }
                }
            }
            i = i + 1;
        }
        Ok(Config { query, file_path, ignore_case })
    }
}

} // verus!
