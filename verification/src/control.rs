//! The control record that the TC program and its manager share.

use crate::text::{decimal, decimal_string};
use vstd::prelude::*;

verus! {

/// The version of the map layout that this crate writes and accepts. Zero stands for a record
/// that was never written.
pub const LAYOUT_VERSION: u32 = 1;

/// The number of slots: one is in use, the other is filled anew.
pub const SLOT_COUNT: u32 = 2;

/// The control record.
#[derive(Clone, Copy, Debug, PartialEq, Eq, Structural)]
pub struct Control {
    pub layout_version: u32,
    pub active_slot: u32,
}

/// Why a control record is not accepted.
#[derive(Clone, Copy, Debug, PartialEq, Eq, Structural)]
pub enum LayoutError {
    /// There is no control record.
    Missing,
    /// The record has another layout, or points to no slot.
    Incompatible { layout_version: u32, active_slot: u32 },
}

/// When a control record is looked at.
#[derive(Clone, Copy, Debug, PartialEq, Eq, Structural)]
pub enum Occasion {
    /// At start.
    Start,
    /// When the kernel state is brought back in line.
    Reconcile,
    /// Before pinned state is removed.
    Cleanup,
}

impl LayoutError {
    /// The message for the error, where `pin_path` is how the place of the pinned state is shown.
    pub open spec fn text(self, occasion: Occasion, pin_path: Seq<char>) -> Seq<char> {
        match self {
            LayoutError::Missing => "no cidrwall TC state exists at "@ + pin_path,
            LayoutError::Incompatible { layout_version, active_slot } => match occasion {
                Occasion::Start => pin_path + " contains an incompatible TC map layout (version="@
                    + decimal(layout_version as nat) + ", active_slot="@ + decimal(
                    active_slot as nat,
                ) + ")"@,
                Occasion::Reconcile => "TC control map has an incompatible layout"@,
                Occasion::Cleanup => "refusing to clean an incompatible TC layout at "@ + pin_path,
            },
        }
    }

    /// The message for the error, where `pin_path` is how the place of the pinned state is shown.
    pub fn message(self, occasion: Occasion, pin_path: &str) -> (s: String)
        ensures
            s@ == self.text(occasion, pin_path@),
    {
        match self {
            LayoutError::Missing => {
                let mut s = "no cidrwall TC state exists at ".to_owned();
                s.append(pin_path);
                s
            },
            LayoutError::Incompatible { layout_version, active_slot } => match occasion {
                Occasion::Start => {
                    let mut s = pin_path.to_owned();
                    s.append(" contains an incompatible TC map layout (version=");
                    s.append(decimal_string(layout_version).as_str());
                    s.append(", active_slot=");
                    s.append(decimal_string(active_slot).as_str());
                    s.append(")");
                    s
                },
                Occasion::Reconcile => "TC control map has an incompatible layout".to_owned(),
                Occasion::Cleanup => {
                    let mut s = "refusing to clean an incompatible TC layout at ".to_owned();
                    s.append(pin_path);
                    s
                },
            },
        }
    }
}

/// Whether `r` is what becomes of the record `found` at start: a record that was never written is
/// replaced by one that points to the first slot, a compatible one is kept, any other is refused.
pub open spec fn adopts(found: Control, r: Result<Option<Control>, LayoutError>) -> bool {
    if found.layout_version == 0 {
        r == Ok::<_, LayoutError>(Some(Control::pointing_to(0)))
    } else if found.compatible() {
        r == Ok::<Option<Control>, LayoutError>(None)
    } else {
        r == Err::<Option<Control>, _>(found.mismatch())
    }
}

impl Control {
    /// Whether the record has this crate's layout and points to a slot.
    pub open spec fn compatible(self) -> bool {
        self.layout_version == LAYOUT_VERSION && self.active_slot < SLOT_COUNT
    }

    /// The record that makes `slot` the active one.
    pub open spec fn pointing_to(slot: u32) -> Control {
        Control { layout_version: LAYOUT_VERSION, active_slot: slot }
    }

    /// The error for a record that is not compatible.
    pub open spec fn mismatch(self) -> LayoutError {
        LayoutError::Incompatible {
            layout_version: self.layout_version,
            active_slot: self.active_slot,
        }
    }

    /// Whether the record has this crate's layout and points to a slot.
    pub fn is_compatible(self) -> (r: bool)
        ensures
            r == self.compatible(),
            r == (self.layout_version == LAYOUT_VERSION && self.active_slot < 2),
    {
        self.layout_version == LAYOUT_VERSION && self.active_slot < SLOT_COUNT
    }

    /// Accepts a record that is compatible.
    pub fn check(self) -> (r: Result<(), LayoutError>)
        ensures
            match r {
                Ok(_) => self.compatible(),
                Err(e) => !self.compatible() && e == self.mismatch(),
            },
            r is Ok <==> self.layout_version == LAYOUT_VERSION && self.active_slot < 2,
            r matches Err(e) ==> e == (LayoutError::Incompatible {
                layout_version: self.layout_version,
                active_slot: self.active_slot,
            }),
    {
        if self.is_compatible() {
            Ok(())
        } else {
            Err(
                LayoutError::Incompatible {
                    layout_version: self.layout_version,
                    active_slot: self.active_slot,
                },
            )
        }
    }

    /// Decides what to do with the record found at start: a record that was never written is to
    /// be replaced by the one returned, a compatible one is kept, any other is refused.
    pub fn adopt(self) -> (r: Result<Option<Control>, LayoutError>)
        ensures
            adopts(self, r),
            self.layout_version == 0 ==> (r matches Ok(Some(c)) && c.layout_version
                == LAYOUT_VERSION && c.active_slot == 0),
            self.layout_version != 0 ==> (r == Ok::<Option<Control>, LayoutError>(None) <==> (
            self.layout_version == LAYOUT_VERSION && self.active_slot < 2)),
            self.layout_version != 0 ==> !(r matches Ok(Some(_))),
            r matches Err(e) ==> e == (LayoutError::Incompatible {
                layout_version: self.layout_version,
                active_slot: self.active_slot,
            }),
    {
        if self.layout_version == 0 {
            return Ok(Some(Control { layout_version: LAYOUT_VERSION, active_slot: 0 }));
        }
        match self.check() {
            Ok(_) => Ok(None),
            Err(e) => Err(e),
        }
    }
}

/// Why pinned state with the control record `found` may not be removed: there is no record, or it
/// is not compatible.
pub open spec fn pinned_refusal(found: Option<Control>) -> Option<LayoutError> {
    match found {
        None => Some(LayoutError::Missing),
        Some(c) => if c.compatible() {
            None
        } else {
            Some(c.mismatch())
        },
    }
}

/// Decides whether pinned state with the control record `found` may be removed.
pub fn validate_pinned_layout(found: Option<Control>) -> (r: Result<(), LayoutError>)
    ensures
        match r {
            Ok(_) => pinned_refusal(found) is None,
            Err(e) => pinned_refusal(found) == Some(e),
        },
        r is Ok <==> (found matches Some(c) && c.layout_version == LAYOUT_VERSION && c.active_slot
            < 2),
        r == Err::<(), LayoutError>(LayoutError::Missing) <==> found is None,
        r matches Err(LayoutError::Incompatible { layout_version, active_slot }) ==> found == Some(
            Control { layout_version, active_slot },
        ),
{
    match found {
        None => Err(LayoutError::Missing),
        Some(c) => c.check(),
    }
}

/// The record in force after start is compatible, and what was decided once stays: that record is
/// kept at the next start.
pub proof fn law_adopted_record_is_compatible(
    found: Control,
    r: Result<Option<Control>, LayoutError>,
)
    requires
        adopts(found, r),
        r is Ok,
    ensures
        ({
            let in_force = match r->Ok_0 {
                Some(written) => written,
                None => found,
            };
            in_force.compatible() && adopts(in_force, Ok(None))
        }),
{
}

} // verus!
