use rosc::{OscTime, OscTimeError};

use std::time::{Duration, SystemTime, UNIX_EPOCH};

const TOLERANCE_NANOS: u64 = 5;

fn osc_time_from_system(time: SystemTime) -> Result<OscTime, OscTimeError> {
    match time.duration_since(UNIX_EPOCH) {
        Ok(d) => OscTime::try_from_unix(d.as_secs() as i64, d.subsec_nanos()),
        // Times before the Unix epoch are below the supported floor.
        Err(_) => OscTime::try_from_unix(-1, 0),
    }
}

fn system_time_from_osc(time: OscTime) -> SystemTime {
    let (seconds, nanos) = time.to_unix();
    if seconds < 0 {
        panic!("OSC time before the unix epoch cannot become a system time");
    }
    UNIX_EPOCH + Duration::new(seconds as u64, nanos)
}

fn assert_eq_system_times(a: SystemTime, b: SystemTime) {
    let difference = if a < b {
        b.duration_since(a).unwrap()
    } else {
        a.duration_since(b).unwrap()
    };

    let tolerance = Duration::from_nanos(TOLERANCE_NANOS);

    if difference > tolerance {
        panic!(
            "the fractional seconds components of {:?} and {:?} vary more than the required tolerance of {:?}",
            a, b, tolerance,
        );
    }
}

#[test]
fn system_times_can_be_converted_to_and_from_osc() {
    let times = vec![UNIX_EPOCH, SystemTime::now()];
    for time in times {
        for i in 0..1000 {
            let time = time + Duration::from_nanos(1) * i;
            assert_eq_system_times(
                time,
                system_time_from_osc(osc_time_from_system(time).unwrap()),
            );
        }
    }
}

#[test]
fn osc_time_cannot_represent_times_before_1970_01_01() {
    assert!(osc_time_from_system(UNIX_EPOCH - Duration::from_secs(1)).is_err())
}

#[test]
fn osc_times_can_be_converted_to_and_from_system_times() {
    const UNIX_OFFSET: u64 = 2_208_988_800;

    let mut times = vec![];
    // Sweep across a few numbers to check for tolerance
    for seconds in vec![
        // We don't start at zero because times before the UNIX_EPOCH cannot be converted to
        // OscTime.
        UNIX_OFFSET as u32,
        UNIX_OFFSET as u32 + 1,
        UNIX_OFFSET as u32 + 2,
        UNIX_OFFSET as u32 + 3,
        u32::MAX - 1,
        u32::MAX,
    ] {
        let fractional_max = 100;
        for fractional in 0..fractional_max {
            times.push((seconds, fractional));
            times.push((seconds, fractional_max - fractional));
        }
    }

    for osc_time in times.into_iter().map(OscTime::from) {
        assert_eq_osc_times(
            osc_time,
            osc_time_from_system(system_time_from_osc(osc_time)).unwrap(),
        );
    }
}

fn assert_eq_osc_times(a: OscTime, b: OscTime) {
    const TWO_POW_32: f64 = (u32::MAX as f64) + 1.0;
    const NANOS_PER_SECOND: f64 = 1.0e9;

    // Compare each part of the OSC times separately, rather than implementing
    // subtraction with carrying.
    let tolerance_fractional_seconds =
        ((TOLERANCE_NANOS as f64 * TWO_POW_32) / NANOS_PER_SECOND).round() as i64;
    assert_eq!(
        a.seconds, b.seconds,
        "the seconds components of {:?} and {:?} are different",
        a, b
    );
    if (a.fractional as i64 - b.fractional as i64).abs() > tolerance_fractional_seconds {
        panic!(
            "the fractional seconds components of {:?} and {:?} vary more than the required tolerance of {} fractional seconds",
            a, b, tolerance_fractional_seconds,
        );
    }
}

#[test]
fn osc_time_epoch_offsets() {
    // The Unix epoch itself sits at the documented offset from the 1900 epoch.
    assert_eq!(
        OscTime::try_from_unix(0, 0).unwrap(),
        OscTime::from((2_208_988_800, 0))
    );
    assert_eq!(OscTime::from((2_208_988_800, 0)).to_unix(), (0, 0));

    // Half a second becomes half of the 32-bit fraction range, rounded.
    let t = OscTime::try_from_unix(1, 500_000_000).unwrap();
    assert_eq!(t.seconds, 2_208_988_801);
    assert_eq!(t.fractional, 0x8000_0000);

    // Overflow beyond what 32 bits of seconds can store is rejected.
    assert!(OscTime::try_from_unix((u32::MAX as i64) - 2_208_988_800 + 1, 0).is_err());
}

#[test]
fn osc_time_tuple_conversions_are_lossless() {
    let pairs = vec![(0u32, 0u32), (4, 2), (u32::MAX, u32::MAX), (123, 456)];
    for (s, f) in pairs {
        let t = OscTime::from((s, f));
        assert_eq!(t.seconds, s);
        assert_eq!(t.fractional, f);
        let back: (u32, u32) = t.into();
        assert_eq!(back, (s, f));
    }
}
