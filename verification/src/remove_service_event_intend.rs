//! The use case behind the endpoint that gives up a booking intent: a client
//! that left its checkout frees the slot that it held.

use crate::reservation::{
    is_reclaimed, key_of, ReservationBook, ReservationState,
};
use vstd::prelude::*;

verus! {

/// One request to give up the intent of a service at an instant.
#[derive(Debug)]
pub struct RemoveServiceEventIntendUseCase {
    /// The account that asks.
    pub account_id: String,
    pub service_id: String,
    pub timestamp: i64,
}

/// The use case has nothing to hand back.
#[derive(Clone, Copy, Debug, PartialEq, Eq, Structural)]
pub struct UseCaseRes {}

/// Why the use case refuses a request.
#[derive(Clone, Copy, Debug, PartialEq, Eq, Structural)]
pub enum UseCaseErrors {
    /// The service is unknown, or belongs to another account.
    ServiceNotFound,
    /// The store of reservations failed.
    StorageError,
}

/// What a client is told when its request to give up an intent fails.
#[derive(Clone, Copy, Debug, PartialEq, Eq, Structural)]
pub enum ReleaseError {
    /// The requested service was not found.
    NotFound,
    /// The server could not do its part.
    Internal,
}

/// What a client is told for each error of the use case.
pub fn release_error_response(e: &UseCaseErrors) -> (r: ReleaseError)
    ensures
        r == (match *e {
            UseCaseErrors::ServiceNotFound => ReleaseError::NotFound,
            UseCaseErrors::StorageError => ReleaseError::Internal,
        }),
{
    match e {
        UseCaseErrors::ServiceNotFound => ReleaseError::NotFound,
        UseCaseErrors::StorageError => ReleaseError::Internal,
    }
}

impl RemoveServiceEventIntendUseCase {
    /// The service is known and belongs to the account that asks.
    pub open spec fn owns_service(&self, service_account: Option<String>) -> bool {
        service_account matches Some(owner) && owner@ == self.account_id@
    }

    /// First step: checks the service that the store found against the
    /// account that asks. `service_account` is the account of the service,
    /// or nothing where the store knows no such service.
    pub fn check_service(&self, service_account: &Option<String>) -> (r: Result<(), UseCaseErrors>)
        ensures
            r == (if self.owns_service(*service_account) {
                Ok::<(), UseCaseErrors>(())
            } else {
                Err::<(), UseCaseErrors>(UseCaseErrors::ServiceNotFound)
            }),
    {
        match service_account {
            Some(owner) => {
                if *owner == self.account_id {
                    Ok(())
                } else {
                    Err(UseCaseErrors::ServiceNotFound)
                }
            },
            None => Err(UseCaseErrors::ServiceNotFound),
        }
    }

    /// Last step: the answer for what the store of reservations reported,
    /// `true` for a removal that went through.
    pub fn answer(removed: bool) -> (r: Result<UseCaseRes, UseCaseErrors>)
        ensures
            r == (if removed {
                Ok::<UseCaseRes, UseCaseErrors>(UseCaseRes {  })
            } else {
                Err::<UseCaseRes, UseCaseErrors>(UseCaseErrors::StorageError)
            }),
    {
        if removed {
            Ok(UseCaseRes {  })
        } else {
            Err(UseCaseErrors::StorageError)
        }
    }

    /// Runs the use case on a book of reservations: for the owner of the
    /// service, one pending reservation of the service at the instant is
    /// released, if there is one. Anybody else is told that the service was
    /// not found, and the book stays as it was.
    pub fn execute(&self, service_account: &Option<String>, book: &mut ReservationBook) -> (r:
        Result<UseCaseRes, UseCaseErrors>)
        requires
            old(book).wf(),
        ensures
            final(book).wf(),
            r is Ok <==> self.owns_service(*service_account),
            r matches Err(e) ==> e == UseCaseErrors::ServiceNotFound && final(book)@ == old(book)@,
            r is Ok ==> {
                ||| exists|host: Seq<char>|
                    {
                        &&& #[trigger] is_reclaimed(
                            old(book)@,
                            self.timestamp as int,
                            key_of(self.service_id@, self.timestamp as int, host),
                        )
                        &&& final(book)@ == old(book)@.insert(
                            key_of(self.service_id@, self.timestamp as int, host),
                            ReservationState::Released,
                        )
                    }
                ||| {
                    &&& final(book)@ == old(book)@
                    &&& forall|host: Seq<char>|
                        !is_reclaimed(
                            old(book)@,
                            self.timestamp as int,
                            #[trigger] key_of(self.service_id@, self.timestamp as int, host),
                        )
                }
            },
    {
        match self.check_service(service_account) {
            Ok(()) => {},
            Err(e) => {
                return Err(e);
            },
        }
        match book.remove_one(&self.service_id, self.timestamp) {
            Ok(host) => {
                proof {
                    let key = key_of(self.service_id@, self.timestamp as int, host@);
                    assert(is_reclaimed(old(book)@, self.timestamp as int, key));
                }
            },
            Err(_) => {},
        }
        Self::answer(true)
    }
}

} // verus!
