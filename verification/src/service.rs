//! A bookable service and the users who host its bookings.

use crate::booking_slots::BookingHorizon;
use crate::freebusy::Participant;
use crate::round_robin::RoundRobinAlgorithm;
use vstd::prelude::*;

verus! {

/// A service of an account. The policy by which a host is picked is set when
/// the service is made and stays as it is.
#[derive(Debug)]
pub struct Service {
    pub id: String,
    pub account_id: String,
    pub users: Vec<Participant>,
    pub algorithm: RoundRobinAlgorithm,
    /// How long before a booking it has to be made, in milliseconds.
    pub closest_booking_time: Option<i64>,
    /// How long before a booking it can be made, in milliseconds.
    pub furthest_booking_time: Option<i64>,
}

impl Service {
    /// The booking horizon of the service at the instant `now`.
    pub fn horizon(&self, now: i64) -> (horizon: BookingHorizon)
        ensures
            horizon == (BookingHorizon {
                now,
                closest_booking_time: self.closest_booking_time,
                furthest_booking_time: self.furthest_booking_time,
            }),
    {
        BookingHorizon {
            now,
            closest_booking_time: self.closest_booking_time,
            furthest_booking_time: self.furthest_booking_time,
        }
    }
}

} // verus!
