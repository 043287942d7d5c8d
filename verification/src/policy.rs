//! The decision, for every representation.
//!
//! [`decide`] is the only place in this crate where an outcome is chosen. It
//! knows nothing about JSON or files: it reads a declaration, an observation,
//! and an ownership verdict, and returns what to do.
//!
//! Keeping it in one total function is what makes a new representation cheap.
//! An adapter that answers "what is here, and is it ours?" inherits every rule
//! below without restating any of it, and cannot accidentally contradict
//! another adapter, because there is no second copy to drift from.

use crate::port::{Observed, Ownership, Repr, State};
use vstd::prelude::*;

verus! {

/// Why a change was refused.
///
/// Each variant names a different writer and a different remedy, so they are not
/// collapsed into one.
#[derive(Debug, Clone, Copy, PartialEq, Eq, Structural)]
pub enum Reason {
    /// A value is present that this tool cannot show it wrote. It may belong to
    /// the other program, or predate any provenance. Either way the declaration
    /// cannot claim it.
    Conflict,
    /// A value this tool wrote has since been changed by someone else.
    HandEdited,
    /// An item this tool wrote has since been deleted by someone else.
    RemovedByOther,
}

/// The label of a reason in reports.
pub open spec fn reason_label(r: Reason) -> Seq<char> {
    match r {
        Reason::Conflict => "conflict"@,
        Reason::HandEdited => "hand-edited"@,
        Reason::RemovedByOther => "removed"@,
    }
}

impl Reason {
    /// A short label for reports.
    pub fn label(self) -> (s: &'static str)
        ensures
            s@ == reason_label(self),
    {
        match self {
            Reason::Conflict => "conflict",
            Reason::HandEdited => "hand-edited",
            Reason::RemovedByOther => "removed",
        }
    }
}

/// What to do about one item.
#[derive(Debug, Clone, Copy, PartialEq, Eq, Structural)]
pub enum Decision {
    /// Nothing is there; write the declared value.
    Add,
    /// The target already agrees; leave it alone.
    Skip,
    /// A value this tool wrote is there and the declaration has moved on;
    /// replace it.
    Update,
    /// A value this tool wrote is there and is no longer declared; remove it.
    Retract,
    /// The value is not this tool's to change. Nothing is written.
    Refuse(Reason),
}

/// The label of a decision in reports.
pub open spec fn decision_label(d: Decision) -> Seq<char> {
    match d {
        Decision::Add => "add"@,
        Decision::Skip => "skip"@,
        Decision::Update => "update"@,
        Decision::Retract => "retract"@,
        Decision::Refuse(r) => reason_label(r),
    }
}

/// Whether a decision alters the target.
pub open spec fn alters(d: Decision) -> bool {
    d is Add || d is Update || d is Retract
}

impl Decision {
    /// Whether this decision alters the target.
    pub fn changes_target(self) -> (r: bool)
        ensures
            r == alters(self),
    {
        matches!(self, Decision::Add | Decision::Update | Decision::Retract)
    }

    /// Whether this decision reports drift: a difference this tool declined to
    /// overwrite.
    pub fn is_drift(self) -> (r: bool)
        ensures
            r == (self is Refuse),
    {
        matches!(self, Decision::Refuse(_))
    }

    /// A short label for reports.
    pub fn label(self) -> (s: &'static str)
        ensures
            s@ == decision_label(self),
    {
        match self {
            Decision::Add => "add",
            Decision::Skip => "skip",
            Decision::Update => "update",
            Decision::Retract => "retract",
            Decision::Refuse(r) => r.label(),
        }
    }
}

/// The decision table.
///
/// | declared | ownership | observed | result |
/// |---|---|---|---|
/// | yes | `Unknown` | absent | `Add` |
/// | yes | `Unknown` | equal | `Skip` |
/// | yes | `Unknown` | differs | `Refuse(Conflict)` |
/// | yes | `Ours` | equal | `Skip` |
/// | yes | `Ours` | differs | `Update` |
/// | yes | `Diverged` | any | `Refuse(HandEdited)` |
/// | yes | `Removed` | any | `Refuse(RemovedByOther)` |
/// | no | `Ours` | present | `Retract` |
/// | no | anything else | any | `Skip` |
pub open spec fn table(
    declared: Option<Seq<char>>,
    ownership: Ownership,
    observed: Option<Seq<char>>,
) -> Decision {
    match (declared, ownership, observed) {
        (Some(_), Ownership::Unknown, None) => Decision::Add,
        (Some(d), Ownership::Unknown, Some(o)) => if o == d {
            Decision::Skip
        } else {
            Decision::Refuse(Reason::Conflict)
        },
        (Some(d), Ownership::Ours, _) => if observed == Some(d) {
            Decision::Skip
        } else {
            Decision::Update
        },
        (Some(_), Ownership::Diverged, _) => Decision::Refuse(Reason::HandEdited),
        (Some(_), Ownership::Removed, _) => Decision::Refuse(Reason::RemovedByOther),
        (None, Ownership::Ours, Some(_)) => Decision::Retract,
        (None, _, _) => Decision::Skip,
    }
}

/// The text of an optional repr.
pub open spec fn optional_repr(r: Option<&Repr>) -> Option<Seq<char>> {
    match r {
        Some(d) => Some(d@),
        None => None,
    }
}

/// Decide what to do about one item.
///
/// `declared` is the value the declaration asks for, or `None` for an item that
/// provenance records but the declaration no longer mentions. `state` is what
/// the target holds and whose it is. The outcome is the one in [`table`].
///
/// # Why ownership decides and value equality does not
///
/// Two rows of the table observe a value that differs from the declaration; they
/// differ only in whether this tool can show it wrote that value. Without that
/// distinction the only safe answer to "the value differs" is to refuse, which
/// makes a declaration permanently unable to change its own mind, and, for a
/// set, makes a withdrawn element impossible to clean up, so every edit to the
/// declaration leaves its predecessor behind for good.
///
/// # Why a deletion is honoured
///
/// [`Removed`](Ownership::Removed) refuses rather than re-adding. Provenance
/// proves the item was ours, so re-adding would be safe for the *data*, but the
/// other writer's deletion is an edit like any other, and reinstating it on
/// every run produces a value that cannot be got rid of. The remedy is to stop
/// declaring it, which the report says plainly.
pub fn decide(declared: Option<&Repr>, state: &State) -> (d: Decision)
    ensures
        d == table(optional_repr(declared), state.ownership, state.observed@),
{
    let declared = match declared {
        Some(d) => d,
        None => {
            // Not declared. Only something provably ours may be withdrawn.
            return match (state.ownership, &state.observed) {
                (Ownership::Ours, Observed::Present(_)) => Decision::Retract,
                _ => Decision::Skip,
            };
        },
    };

    match state.ownership {
        Ownership::Diverged => Decision::Refuse(Reason::HandEdited),
        Ownership::Removed => Decision::Refuse(Reason::RemovedByOther),
        Ownership::Ours => {
            if state.observed.equals(declared) {
                Decision::Skip
            } else {
                // Provably ours, so the old value is this tool's to replace.
                Decision::Update
            }
        },
        Ownership::Unknown => match &state.observed {
            Observed::Absent => Decision::Add,
            Observed::Present(o) => {
                if o.same(declared) {
                    // Already agreed. The caller records ownership, adopting the
                    // item so that later changes to the declaration can apply.
                    Decision::Skip
                } else {
                    Decision::Refuse(Reason::Conflict)
                }
            },
        },
    }
}

/// **Law.** Nothing is written or removed unless ownership is `Ours`, except
/// `Add`, which writes only where there was nothing.
pub proof fn law_nothing_is_overwritten_unless_ours(
    declared: Option<Seq<char>>,
    ownership: Ownership,
    observed: Option<Seq<char>>,
)
    ensures
        alters(table(declared, ownership, observed)) ==> {
            ||| ownership == Ownership::Ours
            ||| table(declared, ownership, observed) is Add && observed is None
        },
        observed is Some && alters(table(declared, ownership, observed)) ==> ownership
            == Ownership::Ours,
{
}

/// **Law.** An item that is ours and holds the declared value is skipped, so a
/// settled declaration reapplies as `Skip`.
pub proof fn law_an_agreed_declaration_is_skipped(declared: Seq<char>)
    ensures
        table(Some(declared), Ownership::Ours, Some(declared)) == Decision::Skip,
{
}

/// **Law.** Without provenance every item reads as `Unknown`, and then the table
/// only ever adds what is absent, agrees with what matches and refuses the rest:
/// a loss of capability, never of data.
pub proof fn law_without_provenance_only_absent_items_are_written(
    declared: Option<Seq<char>>,
    observed: Option<Seq<char>>,
)
    ensures
        match table(declared, Ownership::Unknown, observed) {
            Decision::Add => declared is Some && observed is None,
            Decision::Skip => declared is None || observed == declared,
            Decision::Refuse(r) => r == Reason::Conflict && declared is Some && observed is Some
                && observed != declared,
            _ => false,
        },
{
}

/// **Law.** An item that is not declared is left alone unless it is provably
/// ours and still there.
pub proof fn law_undeclared_items_are_left_alone(
    ownership: Ownership,
    observed: Option<Seq<char>>,
)
    ensures
        table(None, ownership, observed) is Retract <==> ownership == Ownership::Ours
            && observed is Some,
        !(table(None, ownership, observed) is Retract) ==> table(None, ownership, observed)
            is Skip,
{
}

/// **Law.** A change by another writer is honoured: what was edited stays as it
/// is and what was deleted is not put back, whatever is declared. What is declared
/// all the same is refused, under the name of what the other writer did.
pub proof fn law_edits_by_others_are_honoured(
    declared: Option<Seq<char>>,
    observed: Option<Seq<char>>,
)
    ensures
        !alters(table(declared, Ownership::Diverged, observed)),
        !alters(table(declared, Ownership::Removed, observed)),
        declared is Some ==> table(declared, Ownership::Diverged, observed) == Decision::Refuse(
            Reason::HandEdited,
        ),
        declared is Some ==> table(declared, Ownership::Removed, observed) == Decision::Refuse(
            Reason::RemovedByOther,
        ),
        declared is None ==> table(declared, Ownership::Diverged, observed) is Skip,
        declared is None ==> table(declared, Ownership::Removed, observed) is Skip,
{
}

/// **Law.** What is ours follows the declaration: it is never refused, left alone
/// where it agrees, and replaced wherever it does not.
pub proof fn law_what_is_ours_follows_the_declaration(
    declared: Seq<char>,
    observed: Option<Seq<char>>,
)
    ensures
        !(table(Some(declared), Ownership::Ours, observed) is Refuse),
        table(Some(declared), Ownership::Ours, observed) is Skip <==> observed is Some
            && observed->0 == declared,
        table(Some(declared), Ownership::Ours, observed) is Update <==> observed is None
            || observed->0 != declared,
{
}

/// **Law.** A decision either changes the target or leaves it alone, and it leaves
/// it alone where it skips or refuses.
pub proof fn law_a_decision_changes_or_leaves(d: Decision)
    ensures
        alters(d) <==> !(d is Skip) && !(d is Refuse),
{
}

/// **Law.** Different outcomes have different labels.
pub proof fn law_labels_are_distinct(a: Decision, b: Decision)
    requires
        decision_label(a) == decision_label(b),
    ensures
        a == b,
{
    reveal_strlit("add");
    reveal_strlit("skip");
    reveal_strlit("update");
    reveal_strlit("retract");
    reveal_strlit("conflict");
    reveal_strlit("hand-edited");
    reveal_strlit("removed");
    // Only two labels are of the same length.
    assert("add"@.len() == 3);
    assert("skip"@.len() == 4);
    assert("update"@.len() == 6);
    assert("retract"@.len() == 7);
    assert("conflict"@.len() == 8);
    assert("hand-edited"@.len() == 11);
    assert("removed"@.len() == 7);
    assert("retract"@[2] == 't');
    assert("removed"@[2] == 'm');
}

} // verus!
