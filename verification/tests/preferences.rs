use picoforge::elevation::RestartOutcome;
use picoforge::preferences::Preferences;

fn with(time_zone: &str, legacy: bool) -> Preferences {
    Preferences {
        time_zone: time_zone.into(),
        legacy_utc_time: legacy,
        ..Default::default()
    }
}

#[test]
fn timezone_settings_migrate() {
    for (p, expected) in [
        (with("system", true), "UTC"),
        (with("system", false), "system"),
        (with("Asia/Shanghai", true), "Asia/Shanghai"),
        (with("invalid", false), "system"),
    ] {
        let p = p.normalized();
        assert_eq!(p.time_zone, expected);
        assert!(!p.legacy_utc_time);
        let again = p.clone().normalized();
        assert_eq!(again.time_zone, p.time_zone);
        assert_eq!(again.language, p.language);
        assert_eq!(again.log_level, p.log_level);
    }
}

#[test]
fn partial_settings_keep_defaults_and_validate_values() {
    let p = Preferences {
        language: "zh_CN".into(),
        log_level: "INVALID".into(),
        ..Default::default()
    }
    .normalized();
    assert_eq!(p.log_level, "INFO");
    assert!(p.sync_clock);
    assert_eq!(p.language, "zh_CN");
    let p = Preferences {
        language: "fr_FR".into(),
        log_level: "TRACE".into(),
        ..Default::default()
    }
    .normalized();
    assert_eq!(p.language, "system");
    assert_eq!(p.log_level, "TRACE");
}

#[test]
fn defaults() {
    let p = Preferences::default();
    assert_eq!(p.language, "system");
    assert_eq!(p.time_zone, "system");
    assert!(p.sync_clock);
    assert_eq!(p.log_level, "INFO");
    assert_eq!(with("UTC", false).migrated_zone(), "UTC");
    assert_eq!(with("Asia/Kathmandu", false).normalized_given(false).time_zone, "system");
    assert_eq!(with("Asia/Kathmandu", false).normalized_given(true).time_zone, "Asia/Kathmandu");
    assert_ne!(RestartOutcome::Launched, RestartOutcome::Cancelled);
}
