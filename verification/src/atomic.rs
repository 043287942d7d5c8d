//! Replacing a file without ever leaving a partial one behind.
//!
//! The target belongs to a running program that may read it at any moment. A
//! truncate-then-write that dies halfway leaves that program holding half a
//! file; a rename never does, because a rename within a directory is atomic. So
//! a document is written to a file alongside the target first, and that file then
//! takes the target's place.

use vstd::prelude::*;
use vstd::string::*;

verus! {

/// The name of the file a document is written to before it takes the place of
/// the file called `name`.
pub open spec fn temporary(name: Seq<char>) -> Seq<char> {
    seq!['.'] + name + ".cfggraft-tmp"@
}

/// The name of the file a document is written to before it takes the place of
/// the file called `name`. It is another name, so the target is never the file
/// being written.
pub fn temporary_name(name: &str) -> (s: String)
    ensures
        s@ == temporary(name@),
        s@ != name@,
{
    let mut s = String::new();
    s.push('.');
    s.append(name);
    s.append(".cfggraft-tmp");
    assert(s@ =~= temporary(name@));
    s
}

/// **Law.** The temporary name is hidden, holds the name it stands for, and is
/// another one for every other name.
pub proof fn law_temporary_names_are_told_apart(a: Seq<char>, b: Seq<char>)
    ensures
        temporary(a)[0] == '.',
        temporary(a).len() > a.len() + 1,
        temporary(a).subrange(1, 1 + a.len() as int) == a,
        temporary(a) == temporary(b) ==> a == b,
        temporary(a).skip(1 + a.len() as int) == temporary(b).skip(1 + b.len() as int),
{
    reveal_strlit(".cfggraft-tmp");
    assert(temporary(a).subrange(1, 1 + a.len() as int) =~= a);
    assert(temporary(a).skip(1 + a.len() as int) =~= ".cfggraft-tmp"@);
    assert(temporary(b).skip(1 + b.len() as int) =~= ".cfggraft-tmp"@);
    assert(temporary(b).subrange(1, 1 + b.len() as int) =~= b);
}

} // verus!
