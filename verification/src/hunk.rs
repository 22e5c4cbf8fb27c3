//! One hunk of a `diff` between two versions of a file.
use vstd::prelude::*;
use crate::text::decimal_text;
use crate::text::i64_text;

verus! {

/// The kind number of a hunk that changes lines (`c` in `diff` output).
pub const KIND_CHANGE: i64 = 1;

/// The kind number of a hunk that adds lines (`a`).
pub const KIND_ADDITION: i64 = 2;

/// The kind number of a hunk that deletes lines (`d`).
pub const KIND_DELETION: i64 = 3;

/// Lines `left_from..=left_to` of the old version against lines
/// `right_from..=right_to` of the new one; `kind` says what the hunk does.
/// A field of `-1` marks a hunk that holds nothing.
#[derive(Clone, Copy, Debug)]
pub struct Hunk {
    pub left_from: i64,
    pub left_to: i64,
    pub right_from: i64,
    pub right_to: i64,
    pub kind: i64,
}

impl Hunk {
    /// The hunk with the given bounds and kind.
    pub fn new(left_from: i64, left_to: i64, right_from: i64, right_to: i64, kind: i64) -> (h: Hunk)
        ensures
            h.left_from == left_from,
            h.left_to == left_to,
            h.right_from == right_from,
            h.right_to == right_to,
            h.kind == kind,
    {
        Hunk { left_from, left_to, right_from, right_to, kind }
    }

    /// The empty hunk: every field `-1`.
    pub fn initialized() -> (h: Hunk)
        ensures
            h.left_from == -1,
            h.left_to == -1,
            h.right_from == -1,
            h.right_to == -1,
            h.kind == -1,
    {
        Hunk { left_from: -1, left_to: -1, right_from: -1, right_to: -1, kind: -1 }
    }

    /// The hunk described field by field.
    pub fn to_string(&self) -> (r: String)
        ensures
            r@ == "Hunk: leftFrom="@ + decimal_text(self.left_from as int) + ", leftTo="@
                + decimal_text(self.left_to as int) + ", rightFrom="@ + decimal_text(
                self.right_from as int,
            ) + ", rightTo="@ + decimal_text(self.right_to as int) + ", kind="@ + decimal_text(
                self.kind as int,
            ),
    {
        let mut r = String::from_str("Hunk: leftFrom=");
        r.append(i64_text(self.left_from).as_str());
        r.append(", leftTo=");
        r.append(i64_text(self.left_to).as_str());
        r.append(", rightFrom=");
        r.append(i64_text(self.right_from).as_str());
        r.append(", rightTo=");
        r.append(i64_text(self.right_to).as_str());
        r.append(", kind=");
        r.append(i64_text(self.kind).as_str());
        r
    }

    /// Whether the hunk changes lines.
    pub fn is_change(&self) -> (b: bool)
        ensures
            b == (self.kind == KIND_CHANGE),
    {
        self.kind == KIND_CHANGE
    }

    /// Whether the hunk adds lines.
    pub fn is_addition(&self) -> (b: bool)
        ensures
            b == (self.kind == KIND_ADDITION),
    {
        self.kind == KIND_ADDITION
    }

    /// Whether the hunk deletes lines.
    pub fn is_deletion(&self) -> (b: bool)
        ensures
            b == (self.kind == KIND_DELETION),
    {
        self.kind == KIND_DELETION
    }
}

} // verus!
