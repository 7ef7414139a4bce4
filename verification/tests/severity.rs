use log_threshold::severity::Severity;

const ALL: [Severity; 5] =
    [Severity::Trace, Severity::Debug, Severity::Info, Severity::Warn, Severity::Error];

#[test]
fn rank_follows_declaration_order() {
    assert_eq!(Severity::Trace.rank(), 0);
    assert_eq!(Severity::Debug.rank(), 1);
    assert_eq!(Severity::Info.rank(), 2);
    assert_eq!(Severity::Warn.rank(), 3);
    assert_eq!(Severity::Error.rank(), 4);
}

#[test]
fn names_are_readable() {
    assert_eq!(Severity::Trace.as_str(), "Trace");
    assert_eq!(Severity::Debug.as_str(), "Debug");
    assert_eq!(Severity::Info.as_str(), "Info");
    assert_eq!(Severity::Warn.as_str(), "Warn");
    assert_eq!(Severity::Error.as_str(), "Error");
}

#[test]
fn accepted_when_at_least_as_urgent_as_floor() {
    assert!(Severity::Info.accepted_at(Severity::Info));
    assert!(Severity::Error.accepted_at(Severity::Info));
    assert!(Severity::Warn.accepted_at(Severity::Info));
    assert!(!Severity::Debug.accepted_at(Severity::Info));
    assert!(!Severity::Trace.accepted_at(Severity::Info));
    assert!(!Severity::Info.accepted_at(Severity::Warn));
    assert!(!Severity::Warn.accepted_at(Severity::Error));
}

#[test]
fn acceptance_is_monotone_in_urgency() {
    for floor in ALL {
        for less in ALL {
            for more in ALL {
                if more.rank() >= less.rank() && less.accepted_at(floor) {
                    assert!(more.accepted_at(floor));
                }
            }
        }
    }
}

#[test]
fn trace_floor_accepts_everything() {
    for s in ALL {
        assert!(s.accepted_at(Severity::Trace));
    }
}

#[test]
fn error_floor_accepts_only_error() {
    for s in ALL {
        assert_eq!(s.accepted_at(Severity::Error), s == Severity::Error);
    }
}
