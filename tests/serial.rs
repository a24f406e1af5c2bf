use esp32_at::{BaudRate, CommandSet, CommandSets};

#[test]
fn baud_rate_from_speed() {
    assert_eq!(BaudRate::Baud9600, BaudRate::from_speed(9600));
    assert_eq!(BaudRate::Baud115200, BaudRate::from_speed(115200));
    assert_eq!(BaudRate::BaudOther(4000000), BaudRate::from_speed(4000000));
    assert_eq!(BaudRate::Baud110, BaudRate::from_speed(110));
}

#[test]
fn baud_rate_speed() {
    assert_eq!(9600, BaudRate::Baud9600.speed());
    assert_eq!(115200, BaudRate::Baud115200.speed());
    assert_eq!(4000000, BaudRate::BaudOther(4000000).speed());
}

#[test]
fn baud_rate_round_trip() {
    let standard = [
        BaudRate::Baud110,
        BaudRate::Baud300,
        BaudRate::Baud600,
        BaudRate::Baud1200,
        BaudRate::Baud2400,
        BaudRate::Baud4800,
        BaudRate::Baud9600,
        BaudRate::Baud19200,
        BaudRate::Baud38400,
        BaudRate::Baud57600,
        BaudRate::Baud115200,
    ];
    for b in standard {
        assert_eq!(BaudRate::from_speed(b.speed()), b);
    }
    for n in [0usize, 1, 111, 250000, 921600] {
        assert_eq!(BaudRate::from_speed(n).speed(), n);
        assert_eq!(BaudRate::from_speed(n), BaudRate::BaudOther(n));
    }
}

#[test]
fn command_sets_hold_what_was_added() {
    let s = CommandSets::empty();
    assert!(!s.contains(CommandSet::Wifi));
    let s = s.with(CommandSet::Ble);
    assert!(s.contains(CommandSet::Ble));
    assert!(!s.contains(CommandSet::Wifi));
    let s = s.with(CommandSet::ParticleArgonExt).with(CommandSet::Ble);
    assert!(s.contains(CommandSet::ParticleArgonExt));
    assert!(!s.contains(CommandSet::TcpIp));
}
