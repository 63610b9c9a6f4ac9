//! Which relative paths stay below the directory that they start from.

use vstd::prelude::*;

verus! {

/// What a component of a path does.
#[derive(Clone, Copy, Debug, PartialEq, Eq, Structural)]
pub enum PathPart {
    /// It goes up one directory.
    ParentDir,
    /// It goes down into a named directory or file.
    Normal,
    /// It stays where it is.
    Other,
}

/// Why a path was refused.
#[derive(Clone, Copy, Debug, PartialEq, Eq, Structural)]
pub enum PathError {
    /// It leads out of the directory that it starts from.
    Traversal,
}

/// How far below its start a path leads; negative if it leads above.
pub open spec fn depth(parts: Seq<PathPart>) -> int
    decreases parts.len(),
{
    if parts.len() == 0 {
        0
    } else {
        depth(parts.drop_last()) + match parts.last() {
            PathPart::ParentDir => -1int,
            PathPart::Normal => 1int,
            PathPart::Other => 0int,
        }
    }
}

/// Some beginning of the path leads above its start.
pub open spec fn escapes(parts: Seq<PathPart>) -> bool {
    exists|n: int| 0 <= n <= parts.len() && depth(#[trigger] parts.take(n)) < 0
}

/// Refuses a relative path that leads above its start at any point, even if it comes
/// back. An absolute path is not refused.
pub fn check_path(absolute: bool, parts: &Vec<PathPart>) -> (result: Result<(), PathError>)
    ensures
        result == if !absolute && escapes(parts@) {
            Err::<(), PathError>(PathError::Traversal)
        } else {
            Ok::<(), PathError>(())
        },
{
    if absolute {
        return Ok(());
    }
    let mut below: usize = 0;
    let mut i: usize = 0;
    assert(parts@.take(0) =~= Seq::empty());
    while i < parts.len()
        invariant
            !absolute,
            i <= parts@.len(),
            below <= i,
            below == depth(parts@.take(i as int)),
            forall|n: int| 0 <= n <= i ==> depth(#[trigger] parts@.take(n)) >= 0,
        decreases parts@.len() - i,
    {
        assert(parts@.take(i + 1).drop_last() =~= parts@.take(i as int));
        assert(parts@.take(i + 1).last() == parts@[i as int]);
        match parts[i] {
            PathPart::ParentDir => {
                if below == 0 {
                    assert(depth(parts@.take(i + 1)) < 0);
                    return Err(PathError::Traversal);
                }
                below = below - 1;
            },
            PathPart::Normal => {
                below = below + 1;
            },
            PathPart::Other => {},
        }
        i = i + 1;
    }
    Ok(())
}

impl PathError {
    /// What went wrong, in words.
    pub fn message(&self) -> (text: String)
        ensures
            text@ == "Path traversal attempt detected"@,
    {
        "Path traversal attempt detected".to_owned()
    }
}

/// A path leads as far below its start as it has more names than steps up, and it escapes
/// exactly if some beginning of it has more steps up than names.
pub proof fn law_escaping_counts_names_and_steps_up(parts: Seq<PathPart>)
    ensures
        depth(parts) == parts.filter(|part: PathPart| part == PathPart::Normal).len()
            - parts.filter(|part: PathPart| part == PathPart::ParentDir).len(),
        escapes(parts) <==> exists|n: int|
            0 <= n <= parts.len() && (#[trigger] parts.take(n)).filter(
                |part: PathPart| part == PathPart::ParentDir,
            ).len() > parts.take(n).filter(|part: PathPart| part == PathPart::Normal).len(),
{
    lemma_depth(parts);
    assert forall|n: int| 0 <= n <= parts.len() implies (depth(#[trigger] parts.take(n)) < 0
        <==> parts.take(n).filter(|part: PathPart| part == PathPart::ParentDir).len()
        > parts.take(n).filter(|part: PathPart| part == PathPart::Normal).len()) by {
        lemma_depth(parts.take(n));
    }
}

proof fn lemma_depth(parts: Seq<PathPart>)
    ensures
        depth(parts) == parts.filter(|part: PathPart| part == PathPart::Normal).len()
            - parts.filter(|part: PathPart| part == PathPart::ParentDir).len(),
    decreases parts.len(),
{
    reveal(Seq::filter);
    if parts.len() > 0 {
        lemma_depth(parts.drop_last());
    }
}

} // verus!
