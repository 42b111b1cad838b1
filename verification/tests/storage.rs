use salsa::storage::{
    Action, Coordinate, Event, ExclusiveRequest, Phase, Teardown, TeardownAction,
};

#[test]
fn coordinate_starts_with_one_handle() {
    let coordinate = Coordinate::new();
    assert_eq!(coordinate.clones(), 1);
    assert!(coordinate.is_exclusive());
}

#[test]
fn coordinate_counts_clones_and_drops() {
    let mut coordinate = Coordinate::new();
    coordinate.handle_cloned();
    coordinate.handle_cloned();
    assert_eq!(coordinate.clones(), 3);
    assert!(!coordinate.is_exclusive());
    coordinate.handle_dropped();
    assert_eq!(coordinate.clones(), 2);
    coordinate.handle_dropped();
    assert_eq!(coordinate.clones(), 1);
    assert!(coordinate.is_exclusive());
    coordinate.handle_dropped();
    assert_eq!(coordinate.clones(), 0);
    assert!(!coordinate.is_exclusive());
}

#[test]
fn request_waits_until_it_is_alone() {
    let mut coordinate = Coordinate::new();
    coordinate.handle_cloned();
    coordinate.handle_cloned();
    let mut request = ExclusiveRequest::new();
    assert_eq!(request.phase(), Phase::Shared);
    assert_eq!(request.on_event(Event::Requested), Action::SetCancellationFlag);
    assert_eq!(request.phase(), Phase::Cancelling);
    let seen = Event::Observed { clones: coordinate.clones() };
    assert_eq!(request.on_event(seen), Action::Wait);
    assert_eq!(request.phase(), Phase::Cancelling);
    coordinate.handle_dropped();
    let seen = Event::Observed { clones: coordinate.clones() };
    assert_eq!(request.on_event(seen), Action::Wait);
    assert_eq!(request.phase(), Phase::Cancelling);
    coordinate.handle_dropped();
    let seen = Event::Observed { clones: coordinate.clones() };
    assert_eq!(request.on_event(seen), Action::ResetCancellationFlag);
    assert_eq!(request.phase(), Phase::Exclusive);
    assert_eq!(request.on_event(Event::Released), Action::Nothing);
    assert_eq!(request.phase(), Phase::Shared);
}

#[test]
fn sole_handle_is_granted_at_once() {
    let coordinate = Coordinate::new();
    let mut request = ExclusiveRequest::new();
    assert_eq!(request.on_event(Event::Requested), Action::SetCancellationFlag);
    let seen = Event::Observed { clones: coordinate.clones() };
    assert_eq!(request.on_event(seen), Action::ResetCancellationFlag);
    assert_eq!(request.phase(), Phase::Exclusive);
}

#[test]
fn count_of_zero_grants_nothing() {
    let mut request = ExclusiveRequest::new();
    request.on_event(Event::Requested);
    assert_eq!(request.on_event(Event::Observed { clones: 0 }), Action::Wait);
    assert_eq!(request.phase(), Phase::Cancelling);
}

#[test]
fn events_out_of_turn_change_nothing() {
    let mut request = ExclusiveRequest::new();
    assert_eq!(request.on_event(Event::Observed { clones: 1 }), Action::Nothing);
    assert_eq!(request.on_event(Event::Released), Action::Nothing);
    assert_eq!(request.phase(), Phase::Shared);
    request.on_event(Event::Requested);
    assert_eq!(request.on_event(Event::Requested), Action::Nothing);
    assert_eq!(request.on_event(Event::Released), Action::Nothing);
    assert_eq!(request.phase(), Phase::Cancelling);
    request.on_event(Event::Observed { clones: 1 });
    assert_eq!(request.on_event(Event::Requested), Action::Nothing);
    assert_eq!(request.on_event(Event::Observed { clones: 1 }), Action::Nothing);
    assert_eq!(request.phase(), Phase::Exclusive);
}

#[test]
fn flag_is_up_only_while_waiting() {
    let events = [
        Event::Released,
        Event::Requested,
        Event::Observed { clones: 2 },
        Event::Requested,
        Event::Observed { clones: 3 },
        Event::Observed { clones: 1 },
        Event::Observed { clones: 1 },
        Event::Released,
        Event::Requested,
        Event::Observed { clones: 1 },
    ];
    let mut request = ExclusiveRequest::new();
    let mut flag = false;
    for event in events {
        match request.on_event(event) {
            Action::SetCancellationFlag => flag = true,
            Action::ResetCancellationFlag => flag = false,
            Action::Wait | Action::Nothing => {}
        }
        assert_eq!(flag, request.phase() == Phase::Cancelling);
    }
    assert_eq!(request.phase(), Phase::Exclusive);
}

#[test]
fn storage_gives_up_local_state_first_and_its_count_last() {
    let mut teardown = Teardown::of_storage();
    assert_eq!(teardown.step(), TeardownAction::ReleaseLocalState);
    assert!(teardown.counted && teardown.engine && !teardown.local_state);
    assert_eq!(teardown.step(), TeardownAction::ReleaseEngine);
    assert!(teardown.counted && !teardown.engine);
    assert_eq!(teardown.step(), TeardownAction::CountOut);
    assert!(!teardown.counted && teardown.unannounced);
    assert_eq!(teardown.step(), TeardownAction::WakeWaiters);
    assert_eq!(teardown.step(), TeardownAction::Nothing);
    assert_eq!(teardown.step(), TeardownAction::Nothing);
    let done =
        Teardown { local_state: false, engine: false, counted: false, unannounced: false };
    assert_eq!(teardown, done);
}

#[test]
fn handle_has_no_local_state_to_give_up() {
    let mut teardown = Teardown::of_handle();
    assert_eq!(teardown.step(), TeardownAction::ReleaseEngine);
    assert_eq!(teardown.step(), TeardownAction::CountOut);
    assert_eq!(teardown.step(), TeardownAction::WakeWaiters);
    assert_eq!(teardown.step(), TeardownAction::Nothing);
}

#[test]
fn teardown_moves_the_count_as_a_drop_does() {
    let mut coordinate = Coordinate::new();
    coordinate.handle_cloned();
    let mut teardown = Teardown::of_handle();
    let mut woken = 0;
    loop {
        match teardown.step() {
            TeardownAction::CountOut => coordinate.handle_dropped(),
            TeardownAction::WakeWaiters => {
                woken += 1;
                assert_eq!(coordinate.clones(), 1);
            }
            TeardownAction::Nothing => break,
            TeardownAction::ReleaseLocalState | TeardownAction::ReleaseEngine => {
                assert_eq!(coordinate.clones(), 2);
            }
        }
    }
    assert_eq!(woken, 1);
    assert!(coordinate.is_exclusive());
}
