//! What a client of the scheduler sends to the service endpoints: the path
//! of each request and the body that goes with it.

use crate::freebusy::TimePlan;
use vstd::prelude::*;
use vstd::string::StringExecFns;

verus! {

/// A user to add to a service, and how the user takes part in it.
#[derive(Debug)]
pub struct AddServiceUserInput {
    pub service_id: String,
    pub user_id: String,
    pub availibility: Option<TimePlan>,
    pub busy: Option<Vec<String>>,
    pub buffer: Option<i64>,
    pub closest_booking_time: Option<i64>,
    pub furthest_booking_time: Option<i64>,
}

/// A user of a service, and how the user is to take part in it from now on.
#[derive(Debug)]
pub struct UpdateServiceUserInput {
    pub service_id: String,
    pub user_id: String,
    pub availibility: Option<TimePlan>,
    pub busy: Option<Vec<String>>,
    pub buffer: Option<i64>,
    pub closest_booking_time: Option<i64>,
    pub furthest_booking_time: Option<i64>,
}

/// A user to take out of a service.
#[derive(Debug)]
pub struct RemoveServiceUserInput {
    pub service_id: String,
    pub user_id: String,
}

/// The body of a request that adds a user to a service.
#[derive(Debug)]
pub struct AddUserRequestBody {
    pub user_id: String,
    pub availibility: Option<TimePlan>,
    pub buffer: Option<i64>,
    pub busy: Option<Vec<String>>,
    pub closest_booking_time: Option<i64>,
    pub furthest_booking_time: Option<i64>,
}

/// The body of a request that updates a user of a service.
#[derive(Debug)]
pub struct UpdateUserRequestBody {
    pub availibility: Option<TimePlan>,
    pub buffer: Option<i64>,
    pub busy: Option<Vec<String>>,
    pub closest_booking_time: Option<i64>,
    pub furthest_booking_time: Option<i64>,
}

/// The path of a service.
pub fn service_path(service_id: &String) -> (path: String)
    ensures
        path@ == "service/"@ + service_id@,
{
    let mut path = String::from_str("service/");
    path.append(service_id.as_str());
    path
}

/// The path of the booking slots of a service.
pub fn service_booking_path(service_id: &String) -> (path: String)
    ensures
        path@ == "service/"@ + service_id@ + "/booking"@,
{
    let mut path = service_path(service_id);
    path.append("/booking");
    path
}

/// The path of the users of a service.
pub fn service_users_path(service_id: &String) -> (path: String)
    ensures
        path@ == "service/"@ + service_id@ + "/users"@,
{
    let mut path = service_path(service_id);
    path.append("/users");
    path
}

/// The path of one user of a service.
pub fn service_user_path(service_id: &String, user_id: &String) -> (path: String)
    ensures
        path@ == "service/"@ + service_id@ + "/users/"@ + user_id@,
{
    let mut path = service_path(service_id);
    path.append("/users/");
    path.append(user_id.as_str());
    path
}

impl RemoveServiceUserInput {
    /// The path of the request.
    pub fn path(&self) -> (path: String)
        ensures
            path@ == "service/"@ + self.service_id@ + "/users/"@ + self.user_id@,
    {
        service_user_path(&self.service_id, &self.user_id)
    }
}

impl UpdateServiceUserInput {
    /// The path and the body of the request.
    pub fn request(self) -> (r: (String, UpdateUserRequestBody))
        ensures
            r.0@ == "service/"@ + self.service_id@ + "/users/"@ + self.user_id@,
            r.1.availibility == self.availibility,
            r.1.buffer == self.buffer,
            r.1.busy == self.busy,
            r.1.closest_booking_time == self.closest_booking_time,
            r.1.furthest_booking_time == self.furthest_booking_time,
    {
        let path = service_user_path(&self.service_id, &self.user_id);
        let body = UpdateUserRequestBody {
            availibility: self.availibility,
            buffer: self.buffer,
            busy: self.busy,
            closest_booking_time: self.closest_booking_time,
            furthest_booking_time: self.furthest_booking_time,
        };
        (path, body)
    }
}

impl AddServiceUserInput {
    /// The path and the body of the request.
    pub fn request(self) -> (r: (String, AddUserRequestBody))
        ensures
            r.0@ == "service/"@ + self.service_id@ + "/users"@,
            r.1.user_id == self.user_id,
            r.1.availibility == self.availibility,
            r.1.buffer == self.buffer,
            r.1.busy == self.busy,
            r.1.closest_booking_time == self.closest_booking_time,
            r.1.furthest_booking_time == self.furthest_booking_time,
    {
        let path = service_users_path(&self.service_id);
        let body = AddUserRequestBody {
            user_id: self.user_id,
            availibility: self.availibility,
            buffer: self.buffer,
            busy: self.busy,
            closest_booking_time: self.closest_booking_time,
            furthest_booking_time: self.furthest_booking_time,
        };
        (path, body)
    }
}

} // verus!
