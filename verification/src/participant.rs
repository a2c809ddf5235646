//! Where a participant of a call is.
use vstd::prelude::*;

verus! {

/// Where a participant is.
#[derive(Clone, Copy, Debug, PartialEq, Eq, Structural)]
pub enum ParticipantLocation {
    SharedProject { project_id: u64 },
    UnsharedProject,
    External,
}

/// A place as it is sent.
#[derive(Clone, Copy, Debug, PartialEq, Eq, Structural)]
pub enum LocationVariant {
    SharedProject { id: u64 },
    UnsharedProject,
    External,
}

/// A message with a place, which may be missing.
#[derive(Clone, Copy, Debug, PartialEq, Eq, Structural)]
pub struct LocationMessage {
    pub variant: Option<LocationVariant>,
}

/// A message that says nothing of a place.
#[derive(Clone, Copy, Debug, PartialEq, Eq, Structural)]
pub struct LocationMissing;

impl LocationMissing {
    /// What is told to the user.
    pub fn message(&self) -> (r: &'static str)
        ensures
            r@ == "participant location was not provided"@,
    {
        "participant location was not provided"
    }
}

/// The place that a message tells.
pub open spec fn location_told(message: Option<LocationMessage>) -> Option<ParticipantLocation> {
    match message {
        Some(LocationMessage { variant: Some(LocationVariant::SharedProject { id }) }) => Some(
            ParticipantLocation::SharedProject { project_id: id },
        ),
        Some(LocationMessage { variant: Some(LocationVariant::UnsharedProject) }) => Some(
            ParticipantLocation::UnsharedProject,
        ),
        Some(LocationMessage { variant: Some(LocationVariant::External) }) => Some(
            ParticipantLocation::External,
        ),
        _ => None,
    }
}

impl ParticipantLocation {
    /// Reads the place from a message.
    pub fn from_proto(location: Option<LocationMessage>) -> (r: Result<
        ParticipantLocation,
        LocationMissing,
    >)
        ensures
            match location_told(location) {
                Some(place) => r == Ok::<ParticipantLocation, LocationMissing>(place),
                None => r is Err,
            },
    {
        let variant: Option<LocationVariant> = match location {
            Some(message) => message.variant,
            None => None,
        };
        match variant {
            Some(LocationVariant::SharedProject { id }) => Ok(
                ParticipantLocation::SharedProject { project_id: id },
            ),
            Some(LocationVariant::UnsharedProject) => Ok(ParticipantLocation::UnsharedProject),
            Some(LocationVariant::External) => Ok(ParticipantLocation::External),
            None => Err(LocationMissing),
        }
    }
}

/// A participant is where the message says, in the project that it names; a message that says nothing
/// tells nothing.
pub proof fn locations_are_told_as_they_are(id: u64)
    ensures
        location_told(
            Some(LocationMessage { variant: Some(LocationVariant::SharedProject { id }) }),
        ) == Some(ParticipantLocation::SharedProject { project_id: id }),
        location_told(Some(LocationMessage { variant: Some(LocationVariant::UnsharedProject) }))
            == Some(ParticipantLocation::UnsharedProject),
        location_told(Some(LocationMessage { variant: Some(LocationVariant::External) })) == Some(
            ParticipantLocation::External,
        ),
        location_told(Some(LocationMessage { variant: None })) is None,
        location_told(None) is None,
{
}

} // verus!
