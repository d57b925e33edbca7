use vstd::prelude::*;
use vstd::string::*;

verus! {

/// The outcome of a named check: `Ok` when the condition holds, otherwise
/// the message that explains the failure.
pub fn check(condition: bool, message: String) -> (r: Result<(), String>)
    ensures
        condition ==> r == Ok::<(), String>(()),
        !condition ==> r == Err::<(), String>(message),
{
    if condition {
        Ok(())
    } else {
        Err(message)
    }
}

/// Whether `name` is one of the arguments.
pub fn has_flag(args: &[String], name: &str) -> (found: bool)
    ensures
        found <==> exists|i: int| 0 <= i < args.len() && #[trigger] args[i]@ == name@,
{
    let wanted = String::from_str(name);
    let mut i: usize = 0;
    while i < args.len()
        invariant
            i <= args.len(),
            wanted@ == name@,
            forall|j: int| 0 <= j < i ==> #[trigger] args[j]@ != name@,
        decreases args.len() - i,
    {
        if args[i] == wanted {
            return true;
        }
        i = i + 1;
    }
    false
}

} // verus!
