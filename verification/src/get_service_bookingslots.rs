//! The use case behind the booking-slots endpoint of a service: what comes
//! in with a request, what goes out, and the steps between the two that need
//! no store.

use crate::booking_slots::{
    are_steps_of, get_service_bookingslots, get_service_bookingslots_within, has_every_step,
    hosts_are_free, lemma_slots_are_sound, names, query_day_bounds, query_zone, range_end,
    range_start, slot_views, slots_from, valid_slots_interval, validate_bookingslots_query,
    BookingHorizon, BookingQueryError, BookingSlotsOptions, BookingSlotsQuery,
    ServiceBookingSlot, SlotView, UserFreeEvents,
};
use crate::freebusy::{is_service_free_events, service_free_events, ParticipantAnswers};
use crate::service::Service;
use crate::calendar_view::{valid_timespan, CalendarView, InvalidTimespanError};
use crate::timezone::timezone_known;
use vstd::prelude::*;
use vstd::string::StringExecFns;

verus! {

/// The part of the request path that names the service.
#[derive(Debug)]
pub struct PathParams {
    pub service_id: String,
}

/// The query string of a booking-slots request.
#[derive(Debug)]
pub struct QueryParams {
    pub iana_tz: Option<String>,
    pub duration: i64,
    pub interval: i64,
    pub date: String,
}

/// A slot as the endpoint hands it out.
#[derive(Debug)]
pub struct ServiceBookingSlotDTO {
    pub timestamp: i64,
    pub eligible_hosts: Vec<String>,
}

/// The body of the answer of the endpoint.
#[derive(Debug)]
pub struct APIRes {
    pub booking_slots: Vec<ServiceBookingSlotDTO>,
}

impl View for ServiceBookingSlotDTO {
    type V = SlotView;

    open spec fn view(&self) -> SlotView {
        SlotView { timestamp: self.timestamp as int, eligible_hosts: names(self.eligible_hosts@) }
    }
}

fn copy_ids(ids: &Vec<String>) -> (copy: Vec<String>)
    ensures
        names(copy@) == names(ids@),
{
    let mut copy: Vec<String> = Vec::new();
    let mut i: usize = 0;
    while i < ids.len()
        invariant
            i <= ids.len(),
            copy@.len() == i,
            forall|k: int| 0 <= k < i ==> (#[trigger] copy@[k])@ == ids@[k]@,
        decreases ids.len() - i,
    {
        copy.push(ids[i].clone());
        i = i + 1;
    }
    assert(names(copy@) =~= names(ids@));
    copy
}

impl ServiceBookingSlotDTO {
    /// The slot, as it is handed out.
    pub fn new(slot: &ServiceBookingSlot) -> (dto: ServiceBookingSlotDTO)
        ensures
            dto@ == slot@,
    {
        ServiceBookingSlotDTO {
            timestamp: slot.timestamp,
            eligible_hosts: copy_ids(&slot.eligible_hosts),
        }
    }
}

/// The plain values of a list of slots that are handed out.
pub open spec fn dto_views(slots: Seq<ServiceBookingSlotDTO>) -> Seq<SlotView> {
    slots.map_values(|slot: ServiceBookingSlotDTO| slot@)
}

impl APIRes {
    /// The answer that hands out the given slots, in their order.
    pub fn new(booking_slots: &Vec<ServiceBookingSlot>) -> (res: APIRes)
        ensures
            dto_views(res.booking_slots@) == slot_views(booking_slots@),
    {
        let mut out: Vec<ServiceBookingSlotDTO> = Vec::new();
        let mut i: usize = 0;
        while i < booking_slots.len()
            invariant
                i <= booking_slots.len(),
                out@.len() == i,
                forall|k: int| 0 <= k < i ==> (#[trigger] out@[k])@ == booking_slots@[k]@,
            decreases booking_slots.len() - i,
        {
            out.push(ServiceBookingSlotDTO::new(&booking_slots[i]));
            i = i + 1;
        }
        assert(dto_views(out@) =~= slot_views(booking_slots@));
        APIRes { booking_slots: out }
    }
}

/// One request for the booking slots of a service.
#[derive(Debug)]
pub struct GetServiceBookingSlotsUseCase {
    pub service_id: String,
    pub date: String,
    pub iana_tz: Option<String>,
    pub duration: i64,
    pub interval: i64,
}

/// What the use case answers.
#[derive(Debug)]
pub struct UseCaseRes {
    pub booking_slots: Vec<ServiceBookingSlot>,
}

/// Why the use case refuses a request.
#[derive(Debug)]
pub enum UseCaseErrors {
    ServiceNotFoundError,
    InvalidIntervalError,
    InvalidDurationError,
    InvalidDateError(String),
    InvalidTimezoneError(String),
    InvalidTimespanError(InvalidTimespanError),
}

/// What a client is told when a request fails.
#[derive(Debug)]
pub enum NettuError {
    BadClientData(String),
    NotFound(String),
}

fn copy_option(text: &Option<String>) -> (copy: Option<String>)
    ensures
        copy == *text,
{
    match text {
        Some(s) => Some(s.clone()),
        None => None,
    }
}

impl GetServiceBookingSlotsUseCase {
    /// The use case for a request with the given path and query.
    pub fn new(path_params: &PathParams, query_params: &QueryParams) -> (usecase:
        GetServiceBookingSlotsUseCase)
        ensures
            usecase.service_id == path_params.service_id,
            usecase.date == query_params.date,
            usecase.iana_tz == query_params.iana_tz,
            usecase.duration == query_params.duration,
            usecase.interval == query_params.interval,
    {
        GetServiceBookingSlotsUseCase {
            service_id: path_params.service_id.clone(),
            iana_tz: copy_option(&query_params.iana_tz),
            date: query_params.date.clone(),
            duration: query_params.duration,
            interval: query_params.interval,
        }
    }

    /// The query that the request makes.
    pub open spec fn query(&self) -> BookingSlotsQuery {
        BookingSlotsQuery {
            date: self.date,
            iana_tz: self.iana_tz,
            interval: self.interval,
            duration: self.duration,
        }
    }

    /// What the first step answers for the request: the window of its day,
    /// or the error of the first check that fails, the checks being, in this
    /// order, the interval, the time zone, the date, the span of the day and
    /// the duration.
    pub open spec fn is_timespan_outcome(&self, r: Result<CalendarView, UseCaseErrors>) -> bool {
        match r {
            Ok(view) => {
                &&& valid_slots_interval(self.interval as int)
                &&& timezone_known(query_zone(self.query()))
                &&& query_day_bounds(self.query()) == Some((view.start(), view.end()))
                &&& valid_timespan(view.start() as int, view.end() as int)
                &&& self.duration > 0
            },
            Err(UseCaseErrors::InvalidIntervalError) => !valid_slots_interval(self.interval as int),
            Err(UseCaseErrors::InvalidTimezoneError(name)) => {
                &&& valid_slots_interval(self.interval as int)
                &&& !timezone_known(query_zone(self.query()))
                &&& name@ == query_zone(self.query())
            },
            Err(UseCaseErrors::InvalidDateError(text)) => {
                &&& valid_slots_interval(self.interval as int)
                &&& timezone_known(query_zone(self.query()))
                &&& query_day_bounds(self.query()) is None
                &&& text@ == self.date@
            },
            Err(UseCaseErrors::InvalidTimespanError(e)) => {
                &&& valid_slots_interval(self.interval as int)
                &&& timezone_known(query_zone(self.query()))
                &&& query_day_bounds(self.query()) == Some((e.0, e.1))
                &&& !valid_timespan(e.0 as int, e.1 as int)
            },
            Err(UseCaseErrors::InvalidDurationError) => {
                &&& valid_slots_interval(self.interval as int)
                &&& timezone_known(query_zone(self.query()))
                &&& query_day_bounds(self.query()) matches Some((start, end))
                &&& valid_timespan(start as int, end as int)
                &&& self.duration <= 0
            },
            Err(UseCaseErrors::ServiceNotFoundError) => false,
        }
    }

    /// First step: checks the request and resolves the window of its day.
    pub fn booking_timespan(&self) -> (r: Result<CalendarView, UseCaseErrors>)
        ensures
            self.is_timespan_outcome(r),
    {
        let query = BookingSlotsQuery {
            date: self.date.clone(),
            iana_tz: copy_option(&self.iana_tz),
            interval: self.interval,
            duration: self.duration,
        };
        match validate_bookingslots_query(&query) {
            Ok(view) => Ok(view),
            Err(BookingQueryError::InvalidIntervalError) => Err(UseCaseErrors::InvalidIntervalError),
            Err(BookingQueryError::InvalidDurationError) => Err(UseCaseErrors::InvalidDurationError),
            Err(BookingQueryError::InvalidDateError(text)) => Err(
                UseCaseErrors::InvalidDateError(text),
            ),
            Err(BookingQueryError::InvalidTimezoneError(name)) => Err(
                UseCaseErrors::InvalidTimezoneError(name),
            ),
            Err(BookingQueryError::InvalidTimespanError(e)) => Err(
                UseCaseErrors::InvalidTimespanError(e),
            ),
        }
    }

    /// Last step: the slots of the window, from the free time of the users of
    /// the service. A user whose free time could not be had is not in the
    /// list, and so is eligible for no slot.
    pub fn booking_slots(&self, timespan: &CalendarView, users_freebusy: Vec<UserFreeEvents>) -> (res:
        UseCaseRes)
        ensures
            slot_views(res.booking_slots@) == slots_from(
                users_freebusy@,
                timespan.start() as int,
                timespan.end() as int,
                self.interval as int,
                self.duration as int,
            ),
    {
        let booking_slots = get_service_bookingslots(
            users_freebusy,
            &BookingSlotsOptions {
                interval: self.interval,
                duration: self.duration,
                end_ts: timespan.get_end(),
                start_ts: timespan.get_start(),
            },
        );
        UseCaseRes { booking_slots }
    }

    /// The range and the steps of the request in a window.
    pub open spec fn options(&self, timespan: CalendarView) -> BookingSlotsOptions {
        BookingSlotsOptions {
            start_ts: timespan.start(),
            end_ts: timespan.end(),
            duration: self.duration,
            interval: self.interval,
        }
    }

    /// Last step for a service with a booking horizon: the slots of the
    /// window that are neither closer to now than the closest booking time
    /// nor further from it than the furthest. Stepping starts at the later of
    /// the start of the window and the earliest instant that may be booked.
    pub fn booking_slots_within(
        &self,
        timespan: &CalendarView,
        users_freebusy: Vec<UserFreeEvents>,
        horizon: &BookingHorizon,
    ) -> (res: UseCaseRes)
        ensures
            self.is_answer(slot_views(res.booking_slots@), users_freebusy@, *timespan, *horizon),
    {
        proof {
            lemma_slots_are_sound(
                users_freebusy@,
                range_start(self.options(*timespan), *horizon),
                range_end(self.options(*timespan), *horizon),
                self.interval as int,
                self.duration as int,
            );
        }
        let booking_slots = get_service_bookingslots_within(
            users_freebusy,
            &BookingSlotsOptions {
                interval: self.interval,
                duration: self.duration,
                end_ts: timespan.get_end(),
                start_ts: timespan.get_start(),
            },
            horizon,
        );
        UseCaseRes { booking_slots }
    }

    /// The horizon of a service at the instant `now`.
    pub open spec fn horizon_of(service: Service, now: i64) -> BookingHorizon {
        BookingHorizon {
            now,
            closest_booking_time: service.closest_booking_time,
            furthest_booking_time: service.furthest_booking_time,
        }
    }

    /// The slots answer the request for a service in a window, for users
    /// with the given free time: they are the slots of the range that the
    /// horizon of the service leaves of the window. So they stand on the
    /// steps of that range, counted from its start, in chronological order;
    /// every host of a slot is a user who is free for the whole booking; and
    /// no step at which somebody is free is left out.
    pub open spec fn is_answer(
        &self,
        slots: Seq<SlotView>,
        users: Seq<UserFreeEvents>,
        view: CalendarView,
        horizon: BookingHorizon,
    ) -> bool {
        let first = range_start(self.options(view), horizon);
        let last = range_end(self.options(view), horizon);
        &&& slots == slots_from(users, first, last, self.interval as int, self.duration as int)
        &&& are_steps_of(slots, first, last, self.interval as int)
        &&& hosts_are_free(users, slots, self.duration as int)
        &&& has_every_step(users, slots, first, last, self.interval as int, self.duration as int)
    }

    /// The slots that answer the request, for what the stores gave.
    ///
    /// `service` is the service that the store of services found for the id
    /// of the request, `answers` holds what the stores of schedules and
    /// calendars answered for each user of the service in the window of the
    /// request, in the order of the users, and `now` is the current instant.
    /// A request that is not valid is refused before the service is looked
    /// at; a valid request for no service is told that the service was not
    /// found.
    pub fn execute(&self, service: &Option<Service>, answers: &Vec<ParticipantAnswers>, now: i64) -> (r:
        Result<UseCaseRes, UseCaseErrors>)
        ensures
            match r {
                Ok(res) => service matches Some(found) && exists|
                    view: CalendarView,
                    users: Seq<UserFreeEvents>,
                |
                    {
                        &&& #[trigger] self.is_timespan_outcome(Ok(view))
                        &&& #[trigger] is_service_free_events(users, found.users@, view, answers@)
                        &&& self.is_answer(
                            slot_views(res.booking_slots@),
                            users,
                            view,
                            Self::horizon_of(*found, now),
                        )
                    },
                Err(UseCaseErrors::ServiceNotFoundError) => service is None && exists|
                    view: CalendarView,
                | #[trigger] self.is_timespan_outcome(Ok(view)),
                Err(e) => self.is_timespan_outcome(Err(e)),
            },
    {
        let timespan: CalendarView = match self.booking_timespan() {
            Ok(view) => view,
            Err(e) => {
                return Err(e);
            },
        };
        let found: &Service = match service {
            Some(found) => found,
            None => {
                return Err(UseCaseErrors::ServiceNotFoundError);
            },
        };
        let users_freebusy: Vec<UserFreeEvents> = service_free_events(
            &found.users,
            &timespan,
            answers,
        );
        let ghost users = users_freebusy@;
        let horizon: BookingHorizon = found.horizon(now);
        let res = self.booking_slots_within(&timespan, users_freebusy, &horizon);
        proof {
            lemma_slots_are_sound(
                users,
                range_start(self.options(timespan), horizon),
                range_end(self.options(timespan), horizon),
                self.interval as int,
                self.duration as int,
            );
            assert(self.is_timespan_outcome(Ok(timespan)));
            assert(is_service_free_events(users, found.users@, timespan, answers@));
            assert(self.is_answer(
                slot_views(res.booking_slots@),
                users,
                timespan,
                Self::horizon_of(*found, now),
            ));
        }
        Ok(res)
    }
}

/// The text that tells a client what was wrong with a date.
pub open spec fn invalid_date_message(date: Seq<char>) -> Seq<char> {
    "Invalid datetime: "@ + date
        + ". Should be YYYY-MM-DD, e.g. January 1. 2020 => 2020-1-1"@
}

/// The text that tells a client what was wrong with a time zone.
pub open spec fn invalid_timezone_message(name: Seq<char>) -> Seq<char> {
    "Invalid timezone: "@ + name + ". It should be a valid IANA TimeZone."@
}

/// The text that tells a client that a service is unknown.
pub open spec fn service_not_found_message(service_id: Seq<char>) -> Seq<char> {
    "Service with id: "@ + service_id + ", was not found."@
}

/// What a client is told for each error of the use case.
pub fn error_response(e: &UseCaseErrors, service_id: &String) -> (r: NettuError)
    ensures
        match *e {
            UseCaseErrors::InvalidDateError(date) => r matches NettuError::BadClientData(text)
                && text@ == invalid_date_message(date@),
            UseCaseErrors::InvalidTimezoneError(name) => r matches NettuError::BadClientData(text)
                && text@ == invalid_timezone_message(name@),
            UseCaseErrors::InvalidIntervalError => r matches NettuError::BadClientData(text)
                && text@
                == "Invalid interval specified. It should be between 10 - 60 minutes inclusively and be specified as milliseconds."@,
            UseCaseErrors::InvalidDurationError => r matches NettuError::BadClientData(text)
                && text@
                == "Invalid duration specified. It should be positive and be specified as milliseconds."@,
            UseCaseErrors::InvalidTimespanError(e) => r matches NettuError::BadClientData(text)
                && text@ == e.message_text(),
            UseCaseErrors::ServiceNotFoundError => r matches NettuError::NotFound(text) && text@
                == service_not_found_message(service_id@),
        },
{
    match e {
        UseCaseErrors::InvalidDateError(date) => {
            let mut text = String::from_str("Invalid datetime: ");
            text.append(date.as_str());
            text.append(". Should be YYYY-MM-DD, e.g. January 1. 2020 => 2020-1-1");
            NettuError::BadClientData(text)
        },
        UseCaseErrors::InvalidTimezoneError(name) => {
            let mut text = String::from_str("Invalid timezone: ");
            text.append(name.as_str());
            text.append(". It should be a valid IANA TimeZone.");
            NettuError::BadClientData(text)
        },
        UseCaseErrors::InvalidIntervalError => NettuError::BadClientData(
            String::from_str(
                "Invalid interval specified. It should be between 10 - 60 minutes inclusively and be specified as milliseconds.",
            ),
        ),
        UseCaseErrors::InvalidDurationError => NettuError::BadClientData(
            String::from_str(
                "Invalid duration specified. It should be positive and be specified as milliseconds.",
            ),
        ),
        UseCaseErrors::InvalidTimespanError(e) => NettuError::BadClientData(e.message()),
        UseCaseErrors::ServiceNotFoundError => {
            let mut text = String::from_str("Service with id: ");
            text.append(service_id.as_str());
            text.append(", was not found.");
            NettuError::NotFound(text)
        },
    }
}

} // verus!
