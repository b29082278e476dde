//! Booking and availability engine of a calendar scheduler: interval algebra,
//! booking windows, free/busy aggregation, slot generation, round-robin host
//! selection and slot reservations.

pub mod booking;
pub mod booking_slots;
pub mod calendar_view;
pub mod date;
pub mod decimal;
pub mod freebusy;
pub mod get_service_bookingslots;
pub mod interval;
pub mod reminder;
pub mod remove_service_event_intend;
pub mod reservation;
pub mod round_robin;
pub mod sdk_service;
pub mod service;
pub mod slot_dates;
pub mod timezone;
