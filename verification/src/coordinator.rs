//! What the coordinator of the workers reports when all of them are done.

use vstd::prelude::*;

verus! {

/// Reports how the workers ended, given how each of them ended, in the order
/// of the workers: with the error of the first worker that met one, and well
/// where none did.
pub fn first_error<E>(outcomes: Vec<Result<(), E>>) -> (res: Result<(), E>)
    ensures
        match res {
            Ok(_) => forall|i: int| 0 <= i < outcomes@.len() ==> (#[trigger] outcomes@[i]) is Ok,
            Err(e) => exists|i: int|
                0 <= i < outcomes@.len() && (#[trigger] outcomes@[i]) == Err::<(), E>(e)
                    && forall|j: int| 0 <= j < i ==> (#[trigger] outcomes@[j]) is Ok,
        },
{
    let ghost all = outcomes@;
    let mut left = outcomes;
    let mut first: Result<(), E> = Ok(());
    loop
        invariant
            left@ == all.subrange(0, left@.len() as int),
            left@.len() <= all.len(),
            match first {
                Ok(_) => forall|i: int|
                    left@.len() <= i < all.len() ==> (#[trigger] all[i]) is Ok,
                Err(e) => exists|i: int|
                    left@.len() <= i < all.len() && (#[trigger] all[i]) == Err::<(), E>(e)
                        && forall|j: int| left@.len() <= j < i ==> (#[trigger] all[j]) is Ok,
            },
        ensures
            left@.len() == 0,
            match first {
                Ok(_) => forall|i: int| 0 <= i < all.len() ==> (#[trigger] all[i]) is Ok,
                Err(e) => exists|i: int|
                    0 <= i < all.len() && (#[trigger] all[i]) == Err::<(), E>(e) && forall|j: int|
                        0 <= j < i ==> (#[trigger] all[j]) is Ok,
            },
        decreases left@.len(),
    {
        let ghost n = left@.len() as int;
        match left.pop() {
            None => {
                break ;
            },
            Some(Ok(_)) => {
                assert(all[n - 1] is Ok);
            },
            Some(Err(e)) => {
                assert(all[n - 1] == Err::<(), E>(e));
                first = Err(e);
            },
        }
    }
    first
}

} // verus!
