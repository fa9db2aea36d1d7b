//! What a run says to the user.

use crate::resolve::Overlap;
use crate::session::Ending;
use crate::text::{append_number, digits};
use vstd::prelude::*;

verus! {

/// An unread part of the source means that the mirror cannot be exact.
pub open spec fn incomplete_text(count: usize) -> Seq<char> {
    digits(count as nat) + " directory/directories could not be read - the mirror is incomplete."@
}

/// Error for an incomplete run. Unreadable directories mean that the source
/// inventory is not fully known: the mirror cannot be exact, and that must be
/// reflected in the exit code (cron job).
pub fn incomplete_scan_error(count: usize) -> (text: String)
    ensures
        text@ == incomplete_text(count),
{
    let mut text = String::new();
    append_number(&mut text, count as u64);
    text.append(" directory/directories could not be read - the mirror is incomplete.");
    assert(text@ =~= incomplete_text(count));
    text
}

impl Ending {
    /// What is said on the standard output at the end of a run.
    pub open spec fn notice_text(self) -> Option<Seq<char>> {
        match self {
            Ending::DryRun { .. } => Some("(dry-run: no changes)"@),
            Ending::InSync { .. } => Some("Nothing to do. Target is already in sync."@),
            Ending::Declined => Some("Aborted."@),
            Ending::Mirrored => Some("Done. The target now mirrors the source."@),
            _ => None,
        }
    }

    /// The error that a run ends with. `source` and `target` are the root
    /// directories as they are displayed.
    pub open spec fn error_text(self, source: Seq<char>, target: Seq<char>) -> Option<Seq<char>> {
        match self {
            Ending::SourceNotDirectory => Some("Source is not a directory: "@ + source),
            Ending::TargetNotDirectory => Some("Target is not a directory: "@ + target),
            Ending::SourceEmpty { entries } => Some(
                "Source "@ + source + " is empty, but the target holds "@ + digits(entries as nat)
                    + " entries. Aborting: this looks like an unmounted source disk. If the target really should be emptied: --allow-empty-source"@,
            ),
            Ending::TooManyDeletes { count, max } => Some(
                digits(count as nat) + " deletions exceed the limit --max-delete "@ + digits(
                    max as nat,
                ) + ". Aborting, nothing changed."@,
            ),
            Ending::DryRun { unreadable } => if unreadable > 0 {
                Some(incomplete_text(unreadable))
            } else {
                None
            },
            Ending::InSync { unreadable } => if unreadable > 0 {
                Some(incomplete_text(unreadable))
            } else {
                None
            },
            Ending::ActionsFailed { failed } => Some(digits(failed as nat) + " actions failed."@),
            Ending::Incomplete { unreadable } => Some(incomplete_text(unreadable)),
            _ => None,
        }
    }

    /// What is said on the standard output at the end of a run.
    pub fn notice(&self) -> (text: Option<String>)
        ensures
            match text {
                Some(t) => self.notice_text() == Some(t@),
                None => self.notice_text() is None,
            },
    {
        match self {
            Ending::DryRun { .. } => Some(String::from_str("(dry-run: no changes)")),
            Ending::InSync { .. } => Some(
                String::from_str("Nothing to do. Target is already in sync."),
            ),
            Ending::Declined => Some(String::from_str("Aborted.")),
            Ending::Mirrored => Some(String::from_str("Done. The target now mirrors the source.")),
            _ => None,
        }
    }

    /// The error that a run ends with, unless a step failed with an error of
    /// its own. `source` and `target` are the root directories as they are
    /// displayed.
    pub fn error(&self, source: &str, target: &str) -> (text: Option<String>)
        ensures
            match text {
                Some(t) => self.error_text(source@, target@) == Some(t@),
                None => self.error_text(source@, target@) is None,
            },
    {
        match *self {
            Ending::SourceNotDirectory => {
                let mut text = String::from_str("Source is not a directory: ");
                text.append(source);
                Some(text)
            },
            Ending::TargetNotDirectory => {
                let mut text = String::from_str("Target is not a directory: ");
                text.append(target);
                Some(text)
            },
            Ending::SourceEmpty { entries } => {
                let mut text = String::from_str("Source ");
                text.append(source);
                text.append(" is empty, but the target holds ");
                append_number(&mut text, entries as u64);
                text.append(
                    " entries. Aborting: this looks like an unmounted source disk. If the target really should be emptied: --allow-empty-source",
                );
                Some(text)
            },
            Ending::TooManyDeletes { count, max } => {
                let mut text = String::new();
                append_number(&mut text, count);
                assert(text@ =~= digits(count as nat));
                text.append(" deletions exceed the limit --max-delete ");
                append_number(&mut text, max);
                text.append(". Aborting, nothing changed.");
                Some(text)
            },
            Ending::DryRun { unreadable } => {
                if unreadable > 0 {
                    Some(incomplete_scan_error(unreadable))
                } else {
                    None
                }
            },
            Ending::InSync { unreadable } => {
                if unreadable > 0 {
                    Some(incomplete_scan_error(unreadable))
                } else {
                    None
                }
            },
            Ending::ActionsFailed { failed } => {
                let mut text = String::new();
                append_number(&mut text, failed);
                assert(text@ =~= digits(failed as nat));
                text.append(" actions failed.");
                Some(text)
            },
            Ending::Incomplete { unreadable } => Some(incomplete_scan_error(unreadable)),
            _ => None,
        }
    }
}

/// A run that ends without an error left nothing unread and nothing failed.
pub proof fn unread_directories_are_errors(
    unreadable: usize,
    source: Seq<char>,
    target: Seq<char>,
)
    ensures
        unreadable > 0 <==> (Ending::DryRun { unreadable }).error_text(source, target) is Some,
        unreadable > 0 <==> (Ending::InSync { unreadable }).error_text(source, target) is Some,
        (Ending::Incomplete { unreadable }).error_text(source, target) is Some,
        Ending::Mirrored.error_text(source, target) is None,
        Ending::Declined.error_text(source, target) is None,
{
}

/// The warning that planned deletions are skipped after an incomplete scan.
pub fn held_back_warning(count: u64, unreadable: usize) -> (text: String)
    ensures
        text@ == "Warning: "@ + digits(count as nat)
            + " planned deletion(s) are skipped because "@ + digits(unreadable as nat)
            + " directory/directories are not readable (--ignore-errors forces them)."@,
{
    let mut text = String::from_str("Warning: ");
    append_number(&mut text, count);
    text.append(" planned deletion(s) are skipped because ");
    append_number(&mut text, unreadable as u64);
    text.append(" directory/directories are not readable (--ignore-errors forces them).");
    text
}

/// The warning that deletions were skipped because actions failed.
pub fn skipped_warning(skipped: u64, failed: u64) -> (text: String)
    ensures
        text@ == "Warning: "@ + digits(skipped as nat) + " deletion(s) skipped because "@ + digits(
            failed as nat,
        ) + " action(s) failed (--ignore-errors forces them)."@,
{
    let mut text = String::from_str("Warning: ");
    append_number(&mut text, skipped);
    text.append(" deletion(s) skipped because ");
    append_number(&mut text, failed);
    text.append(" action(s) failed (--ignore-errors forces them).");
    text
}

/// The warning that a directory stays in the target.
pub fn kept_warning(dir: &str) -> (text: String)
    ensures
        text@ == "Warning: directory not deleted, as it holds excluded entries: "@
            + dir@,
{
    let mut text = String::from_str(
        "Warning: directory not deleted, as it holds excluded entries: ",
    );
    text.append(dir);
    text
}

/// The question that asks for a confirmation.
pub fn confirm_question(removed: u64) -> (text: String)
    ensures
        text@ == digits(removed as nat)
            + " files/folders will be DELETED in the target. Continue? [y/N] "@,
{
    let mut text = String::new();
    append_number(&mut text, removed);
    assert(text@ =~= digits(removed as nat));
    text.append(" files/folders will be DELETED in the target. Continue? [y/N] ");
    text
}

impl Overlap {
    /// The error for directories that cannot be used together. `source` and
    /// `target` are the resolved directories as they are displayed.
    pub open spec fn error_text(self, source: Seq<char>, target: Seq<char>) -> Seq<char> {
        match self {
            Overlap::Identical => "Source and target are identical: "@ + source,
            Overlap::TargetInsideSource => "Target lies inside the source: "@ + source
                + " contains "@ + target,
            Overlap::SourceInsideTarget => "Source lies inside the target: "@ + target
                + " contains "@ + source + " (would delete the source!)"@,
        }
    }

    /// The error for directories that cannot be used together. `source` and
    /// `target` are the resolved directories as they are displayed.
    pub fn error(&self, source: &str, target: &str) -> (text: String)
        ensures
            text@ == self.error_text(source@, target@),
    {
        match self {
            Overlap::Identical => {
                let mut text = String::from_str("Source and target are identical: ");
                text.append(source);
                text
            },
            Overlap::TargetInsideSource => {
                let mut text = String::from_str("Target lies inside the source: ");
                text.append(source);
                text.append(" contains ");
                text.append(target);
                text
            },
            Overlap::SourceInsideTarget => {
                let mut text = String::from_str("Source lies inside the target: ");
                text.append(target);
                text.append(" contains ");
                text.append(source);
                text.append(" (would delete the source!)");
                text
            },
        }
    }
}

} // verus!
