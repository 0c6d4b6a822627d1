use vstd::prelude::*;
use vstd::string::StringExecFns;

verus! {

/// What keeps a run from starting: a flag without a value, or a manager
/// name nobody knows.
#[derive(Clone, Copy, Debug, PartialEq, Eq, Structural)]
pub enum ArgumentError {
    MissingValue,
    NoSuchManager,
}

/// Which download strategy a run uses.
#[derive(Clone, Copy, Debug, PartialEq, Eq, Structural)]
pub enum ManagerType {
    BasicManager,
    RandomManager,
}

/// The value standing right after the first occurrence of a flag, if the
/// flag occurs and anything follows it.
pub open spec fn flag_value(args: Seq<String>, flag: Seq<char>) -> Option<Seq<char>>
    decreases args.len(),
{
    if args.len() == 0 {
        None
    } else if args[0]@ == flag {
        if args.len() >= 2 {
            Some(args[1]@)
        } else {
            None
        }
    } else {
        flag_value(args.drop_first(), flag)
    }
}

/// Scans the arguments for a flag and clones the value after it.
fn find_flag_value(args: &Vec<String>, flag: &str) -> (r: Result<String, ArgumentError>)
    ensures
        flag_value(args@, flag@) matches Some(v) ==> (r matches Ok(s) && s@ == v),
        flag_value(args@, flag@) is None ==> r == Err::<String, ArgumentError>(
            ArgumentError::MissingValue,
        ),
{
    let wanted = String::from_str(flag);
    let mut i: usize = 0;
    proof {
        assert(args@.skip(0) =~= args@);
    }
    while i < args.len()
        invariant
            0 <= i <= args@.len(),
            wanted@ == flag@,
            flag_value(args@, flag@) == flag_value(args@.skip(i as int), flag@),
        decreases args@.len() - i,
    {
        proof {
            assert(args@.skip(i as int)[0] == args@[i as int]);
            assert(args@.skip(i as int).drop_first() =~= args@.skip(i + 1));
        }
        if args[i].eq(&wanted) {
            if i + 1 < args.len() {
                proof {
                    assert(args@.skip(i as int)[1] == args@[i + 1]);
                }
                return Ok(args[i + 1].clone());
            } else {
                return Err(ArgumentError::MissingValue);
            }
        }
        i = i + 1;
    }
    proof {
        assert(args@.skip(args@.len() as int) =~= Seq::<String>::empty());
    }
    Err(ArgumentError::MissingValue)
}

/// The server address named after `--addr`.
pub fn get_addr(args: &Vec<String>) -> (r: Result<String, ArgumentError>)
    ensures
        flag_value(args@, "--addr"@) matches Some(v) ==> (r matches Ok(s) && s@ == v),
        flag_value(args@, "--addr"@) is None ==> r == Err::<String, ArgumentError>(
            ArgumentError::MissingValue,
        ),
{
    find_flag_value(args, "--addr")
}

/// The expected digest named after `--hash`.
pub fn get_hash(args: &Vec<String>) -> (r: Result<String, ArgumentError>)
    ensures
        flag_value(args@, "--hash"@) matches Some(v) ==> (r matches Ok(s) && s@ == v),
        flag_value(args@, "--hash"@) is None ==> r == Err::<String, ArgumentError>(
            ArgumentError::MissingValue,
        ),
{
    find_flag_value(args, "--hash")
}

/// Which manager a name stands for.
pub open spec fn manager_of_name(name: Seq<char>) -> Option<ManagerType> {
    if name == "basic_manager"@ {
        Some(ManagerType::BasicManager)
    } else if name == "random_manager"@ {
        Some(ManagerType::RandomManager)
    } else {
        None
    }
}

/// Resolves a manager name.
pub fn resolve_manager(name: &String) -> (r: Result<ManagerType, ArgumentError>)
    ensures
        manager_of_name(name@) matches Some(m) ==> r == Ok::<ManagerType, ArgumentError>(m),
        manager_of_name(name@) is None ==> r == Err::<ManagerType, ArgumentError>(
            ArgumentError::NoSuchManager,
        ),
{
    if name.eq(&String::from_str("basic_manager")) {
        Ok(ManagerType::BasicManager)
    } else if name.eq(&String::from_str("random_manager")) {
        Ok(ManagerType::RandomManager)
    } else {
        Err(ArgumentError::NoSuchManager)
    }
}

/// The manager named after `--manager`.
pub fn get_manager(args: &Vec<String>) -> (r: Result<ManagerType, ArgumentError>)
    ensures
        flag_value(args@, "--manager"@) is None ==> r == Err::<ManagerType, ArgumentError>(
            ArgumentError::MissingValue,
        ),
        flag_value(args@, "--manager"@) matches Some(v) ==> (manager_of_name(v) matches Some(m)
            ==> r == Ok::<ManagerType, ArgumentError>(m)) && (manager_of_name(v) is None ==> r
            == Err::<ManagerType, ArgumentError>(ArgumentError::NoSuchManager)),
{
    let name = match find_flag_value(args, "--manager") {
        Ok(s) => s,
        Err(e) => {
            return Err(e);
        },
    };
    resolve_manager(&name)
}

/// One configured run: where to download from, how, and which digest the
/// result must have.
#[derive(Debug)]
pub struct Application {
    pub server_addr: String,
    pub manager_type: ManagerType,
    pub hash: String,
}

impl Application {
    /// Builds a run out of resolved settings, rejecting an unknown
    /// manager name.
    pub fn new(addr: String, manager: String, hash: String) -> (r: Result<Self, ArgumentError>)
        ensures
            manager_of_name(manager@) matches Some(m) ==> (r matches Ok(app) && app.server_addr@
                == addr@ && app.manager_type == m && app.hash@ == hash@),
            manager_of_name(manager@) is None ==> r == Err::<Self, ArgumentError>(
                ArgumentError::NoSuchManager,
            ),
    {
        let manager_type = match resolve_manager(&manager) {
            Ok(m) => m,
            Err(e) => {
                return Err(e);
            },
        };
        Ok(Self { server_addr: addr, manager_type, hash })
    }

    /// Whether a computed digest matches the expected one.
    pub fn check_hash(&self, computed: &String) -> (r: bool)
        ensures
            r == (computed@ == self.hash@),
    {
        computed.eq(&self.hash)
    }
}

} // verus!
