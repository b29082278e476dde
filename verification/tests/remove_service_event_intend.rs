use nettu_scheduler::remove_service_event_intend::{
    release_error_response, ReleaseError, RemoveServiceEventIntendUseCase, UseCaseErrors,
    UseCaseRes,
};
use nettu_scheduler::reservation::{ReservationBook, ReservationState};

fn s(text: &str) -> String {
    text.to_string()
}

fn usecase() -> RemoveServiceEventIntendUseCase {
    RemoveServiceEventIntendUseCase { account_id: s("account"), service_id: s("svc"), timestamp: 10 }
}

#[test]
fn the_owner_of_the_service_frees_the_slot() {
    let mut book = ReservationBook::new();
    book.create_intent(&s("svc"), 10, &s("a")).unwrap();
    assert_eq!(usecase().execute(&Some(s("account")), &mut book), Ok(UseCaseRes {}));
    assert_eq!(book.find(&s("svc"), 10, &s("a")), Some(ReservationState::Released));
    assert_eq!(book.create_intent(&s("svc"), 10, &s("a")), Ok(()));
}

#[test]
fn nothing_to_free_is_no_error() {
    let mut book = ReservationBook::new();
    book.create_intent(&s("svc"), 11, &s("a")).unwrap();
    assert_eq!(usecase().execute(&Some(s("account")), &mut book), Ok(UseCaseRes {}));
    assert_eq!(book.find(&s("svc"), 11, &s("a")), Some(ReservationState::Pending));
}

#[test]
fn an_unknown_or_foreign_service_is_not_found() {
    let mut book = ReservationBook::new();
    book.create_intent(&s("svc"), 10, &s("a")).unwrap();
    assert_eq!(usecase().execute(&None, &mut book), Err(UseCaseErrors::ServiceNotFound));
    assert_eq!(usecase().execute(&Some(s("other")), &mut book), Err(UseCaseErrors::ServiceNotFound));
    assert_eq!(book.find(&s("svc"), 10, &s("a")), Some(ReservationState::Pending));
    assert_eq!(usecase().check_service(&Some(s("account"))), Ok(()));
    assert_eq!(usecase().check_service(&Some(s("Account"))), Err(UseCaseErrors::ServiceNotFound));
}

#[test]
fn a_failing_store_is_a_storage_error() {
    assert_eq!(RemoveServiceEventIntendUseCase::answer(true), Ok(UseCaseRes {}));
    assert_eq!(RemoveServiceEventIntendUseCase::answer(false), Err(UseCaseErrors::StorageError));
}

#[test]
fn errors_become_answers_for_the_client() {
    assert_eq!(release_error_response(&UseCaseErrors::ServiceNotFound), ReleaseError::NotFound);
    assert_eq!(release_error_response(&UseCaseErrors::StorageError), ReleaseError::Internal);
}
