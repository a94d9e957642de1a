//! Software preferences, separate from device configuration, and the rules that
//! bring stored settings back to values the program knows.
use vstd::prelude::*;
use crate::text::str_eq;

verus! {

/// The software preferences.
#[derive(Clone, Debug)]
pub struct Preferences {
    /// `system`, `en_US` or `zh_CN`.
    pub language: String,
    /// `system` or an IANA time-zone name.
    pub time_zone: String,
    /// The former "show times in UTC" switch, read from old settings only.
    pub legacy_utc_time: bool,
    /// Whether the board clock is set from this computer.
    pub sync_clock: bool,
    /// One of `ERROR`, `WARN`, `INFO`, `DEBUG`, `TRACE`.
    pub log_level: String,
}

/// [`Preferences`] as plain values.
pub struct PreferencesView {
    pub language: Seq<char>,
    pub time_zone: Seq<char>,
    pub legacy_utc_time: bool,
    pub sync_clock: bool,
    pub log_level: Seq<char>,
}

impl View for Preferences {
    type V = PreferencesView;

    open spec fn view(&self) -> PreferencesView {
        PreferencesView {
            language: self.language@,
            time_zone: self.time_zone@,
            legacy_utc_time: self.legacy_utc_time,
            sync_clock: self.sync_clock,
            log_level: self.log_level@,
        }
    }
}

/// The preferences of a fresh installation.
pub open spec fn default_preferences() -> PreferencesView {
    PreferencesView {
        language: "system"@,
        time_zone: "system"@,
        legacy_utc_time: false,
        sync_clock: true,
        log_level: "INFO"@,
    }
}

impl Default for Preferences {
    fn default() -> (p: Self)
        ensures
            p@ == default_preferences(),
    {
        Preferences {
            language: "system".to_owned(),
            time_zone: "system".to_owned(),
            legacy_utc_time: false,
            sync_clock: true,
            log_level: "INFO".to_owned(),
        }
    }
}

/// Whether `name` is a time zone of the IANA database that chrono-tz carries; it
/// depends on the name alone.
pub uninterp spec fn known_zone(name: Seq<char>) -> bool;

/// `name.parse::<chrono_tz::Tz>()` succeeds: the result is named [`known_zone`].
#[verifier::external_body]
fn is_known_zone(name: &str) -> (r: bool)
    ensures
        r == known_zone(name@),
{
    name.parse::<chrono_tz::Tz>().is_ok()
}

/// The languages the program speaks, besides following the system.
pub open spec fn known_language(language: Seq<char>) -> bool {
    language == "system"@ || language == "en_US"@ || language == "zh_CN"@
}

/// The log levels.
pub open spec fn known_log_level(level: Seq<char>) -> bool {
    level == "ERROR"@ || level == "WARN"@ || level == "INFO"@ || level == "DEBUG"@ || level
        == "TRACE"@
}

/// The time zone once the legacy UTC switch is carried over: an old "UTC" setting
/// becomes the `UTC` zone unless a zone was chosen.
pub open spec fn migrated_zone(p: PreferencesView) -> Seq<char> {
    if p.legacy_utc_time && p.time_zone == "system"@ {
        "UTC"@
    } else {
        p.time_zone
    }
}

/// The preferences brought to known values, where `zone_known` says whether the
/// migrated time zone is a known one: the legacy switch carried over and cleared, an
/// unknown zone, language or log level replaced by its default.
pub open spec fn spec_normalized(p: PreferencesView, zone_known: bool) -> PreferencesView {
    let zone = migrated_zone(p);
    PreferencesView {
        language: if known_language(p.language) {
            p.language
        } else {
            "system"@
        },
        time_zone: if zone != "system"@ && !zone_known {
            "system"@
        } else {
            zone
        },
        legacy_utc_time: false,
        sync_clock: p.sync_clock,
        log_level: if known_log_level(p.log_level) {
            p.log_level
        } else {
            "INFO"@
        },
    }
}

impl Preferences {
    /// The time zone once the legacy UTC switch is carried over.
    pub fn migrated_zone(&self) -> (z: String)
        ensures
            z@ == migrated_zone(self@),
    {
        if self.legacy_utc_time && str_eq(self.time_zone.as_str(), "system") {
            "UTC".to_owned()
        } else {
            self.time_zone.clone()
        }
    }

    /// These preferences brought to known values, given whether the migrated time
    /// zone (see [`Preferences::migrated_zone`]) is a known one.
    pub fn normalized_given(self, zone_known: bool) -> (p: Self)
        ensures
            p@ == spec_normalized(self@, zone_known),
    {
        let zone = self.migrated_zone();
        let time_zone = if !str_eq(zone.as_str(), "system") && !zone_known {
            "system".to_owned()
        } else {
            zone
        };
        let l = self.language.as_str();
        let language = if str_eq(l, "system") || str_eq(l, "en_US") || str_eq(l, "zh_CN") {
            self.language.clone()
        } else {
            "system".to_owned()
        };
        let v = self.log_level.as_str();
        let log_level = if str_eq(v, "ERROR") || str_eq(v, "WARN") || str_eq(v, "INFO") || str_eq(
            v,
            "DEBUG",
        ) || str_eq(v, "TRACE") {
            self.log_level.clone()
        } else {
            "INFO".to_owned()
        };
        Preferences {
            language,
            time_zone,
            legacy_utc_time: false,
            sync_clock: self.sync_clock,
            log_level,
        }
    }

    /// These preferences brought to known values: the legacy UTC switch carried over
    /// and cleared, and an unknown time zone, language or log level replaced by its
    /// default.
    pub fn normalized(self) -> (p: Self)
        ensures
            p@ == spec_normalized(self@, known_zone(migrated_zone(self@))),
    {
        let zone = self.migrated_zone();
        let known = is_known_zone(zone.as_str());
        self.normalized_given(known)
    }
}

/// Normalizing twice changes nothing: normalized preferences are kept as they are
/// (a stored time zone that survived normalizing is a known one).
pub proof fn law_normalized_preferences_are_stable(p: PreferencesView)
    ensures
        ({
            let q = spec_normalized(p, known_zone(migrated_zone(p)));
            spec_normalized(q, known_zone(migrated_zone(q))) == q
        }),
{
    reveal_strlit("system");
    reveal_strlit("UTC");
}

/// Normalizing keeps what is known and replaces only what is not: the languages
/// `system`, `en_US` and `zh_CN` and the five log levels are kept as they are and
/// anything else becomes `system` or `INFO`; the time zone is the migrated one when
/// it is known (an old UTC setting without a chosen zone becoming `UTC`) and `system`
/// otherwise; the clock setting is kept and the legacy switch cleared.
pub proof fn law_normalizing_keeps_known_values(p: PreferencesView, zone_known: bool)
    ensures
        ({
            let q = spec_normalized(p, zone_known);
            let lang_known = p.language == "system"@ || p.language == "en_US"@ || p.language
                == "zh_CN"@;
            let level_known = p.log_level == "ERROR"@ || p.log_level == "WARN"@ || p.log_level
                == "INFO"@ || p.log_level == "DEBUG"@ || p.log_level == "TRACE"@;
            let zone = if p.legacy_utc_time && p.time_zone == "system"@ {
                "UTC"@
            } else {
                p.time_zone
            };
            &&& lang_known ==> q.language == p.language
            &&& !lang_known ==> q.language == "system"@
            &&& level_known ==> q.log_level == p.log_level
            &&& !level_known ==> q.log_level == "INFO"@
            &&& zone_known ==> q.time_zone == zone
            &&& !zone_known ==> q.time_zone == "system"@
            &&& q.sync_clock == p.sync_clock
            &&& !q.legacy_utc_time
        }),
{
}

} // verus!
