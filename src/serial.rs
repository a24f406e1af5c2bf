//! The vocabulary of serial-port settings: baud rate, character size,
//! parity, stop bits and flow control.
use vstd::prelude::*;

verus! {

/// Serial port baud rates: the standard ones, and any other as a number.
#[derive(Debug, Clone, Copy, PartialEq, Eq, Structural)]
pub enum BaudRate {
    Baud110,
    Baud300,
    Baud600,
    Baud1200,
    Baud2400,
    Baud4800,
    Baud9600,
    Baud19200,
    Baud38400,
    Baud57600,
    Baud115200,
    /// A non-standard rate, in baud.
    BaudOther(usize),
}

/// The rate that a `BaudRate` stands for, in baud.
pub open spec fn speed_of(b: BaudRate) -> usize {
    match b {
        BaudRate::Baud110 => 110,
        BaudRate::Baud300 => 300,
        BaudRate::Baud600 => 600,
        BaudRate::Baud1200 => 1200,
        BaudRate::Baud2400 => 2400,
        BaudRate::Baud4800 => 4800,
        BaudRate::Baud9600 => 9600,
        BaudRate::Baud19200 => 19200,
        BaudRate::Baud38400 => 38400,
        BaudRate::Baud57600 => 57600,
        BaudRate::Baud115200 => 115200,
        BaudRate::BaudOther(n) => n,
    }
}

/// The rate is one of the standard ones.
pub open spec fn is_standard(speed: usize) -> bool {
    exists|b: BaudRate| !(b is BaudOther) && speed_of(b) == speed
}

/// The variant is a standard one, or a number that no standard variant has.
pub open spec fn is_canonical(b: BaudRate) -> bool {
    b matches BaudRate::BaudOther(n) ==> !is_standard(n)
}

impl BaudRate {
    /// The `BaudRate` for a speed: the standard variant where there is one,
    /// `BaudOther` otherwise.
    pub fn from_speed(speed: usize) -> (r: BaudRate)
        ensures
            r == from_speed_spec(speed),
            speed_of(r) == speed,
            is_standard(speed) <==> !(r is BaudOther),
    {
        let r = match speed {
            110 => BaudRate::Baud110,
            300 => BaudRate::Baud300,
            600 => BaudRate::Baud600,
            1200 => BaudRate::Baud1200,
            2400 => BaudRate::Baud2400,
            4800 => BaudRate::Baud4800,
            9600 => BaudRate::Baud9600,
            19200 => BaudRate::Baud19200,
            38400 => BaudRate::Baud38400,
            57600 => BaudRate::Baud57600,
            115200 => BaudRate::Baud115200,
            n => BaudRate::BaudOther(n),
        };
        proof {
            if !(r is BaudOther) {
                assert(speed_of(r) == speed);
            } else {
                assert forall|b: BaudRate| !(b is BaudOther) implies speed_of(b) != speed by {}
            }
            lemma_from_speed_spec(speed);
            lemma_speed_determines_rate(r, from_speed_spec(speed));
        }
        r
    }

    /// The rate as a number, in baud.
    pub fn speed(&self) -> (r: usize)
        ensures
            r == speed_of(*self),
    {
        match *self {
            BaudRate::Baud110 => 110,
            BaudRate::Baud300 => 300,
            BaudRate::Baud600 => 600,
            BaudRate::Baud1200 => 1200,
            BaudRate::Baud2400 => 2400,
            BaudRate::Baud4800 => 4800,
            BaudRate::Baud9600 => 9600,
            BaudRate::Baud19200 => 19200,
            BaudRate::Baud38400 => 38400,
            BaudRate::Baud57600 => 57600,
            BaudRate::Baud115200 => 115200,
            BaudRate::BaudOther(n) => n,
        }
    }
}

/// Two variants that are canonical and stand for the same rate are the same.
pub proof fn lemma_speed_determines_rate(a: BaudRate, b: BaudRate)
    requires
        is_canonical(a),
        is_canonical(b),
        speed_of(a) == speed_of(b),
    ensures
        a == b,
{
    if let BaudRate::BaudOther(n) = a {
        if !(b is BaudOther) {
            assert(is_standard(n));
        }
    } else if let BaudRate::BaudOther(n) = b {
        assert(is_standard(n));
    }
}

/// Converting a speed to a `BaudRate` and back gives the speed; converting a
/// canonical `BaudRate` to its speed and back gives the same variant.
pub proof fn lemma_baud_round_trip(speed: usize, b: BaudRate)
    requires
        is_canonical(b),
    ensures
        speed_of(from_speed_spec(speed)) == speed,
        from_speed_spec(speed_of(b)) == b,
{
    lemma_from_speed_spec(speed);
    lemma_from_speed_spec(speed_of(b));
    lemma_speed_determines_rate(from_speed_spec(speed_of(b)), b);
}

/// What `BaudRate::from_speed` returns.
pub open spec fn from_speed_spec(speed: usize) -> BaudRate {
    if is_standard(speed) {
        choose|b: BaudRate| !(b is BaudOther) && speed_of(b) == speed
    } else {
        BaudRate::BaudOther(speed)
    }
}

/// `from_speed_spec` is canonical and keeps the speed.
pub proof fn lemma_from_speed_spec(speed: usize)
    ensures
        speed_of(from_speed_spec(speed)) == speed,
        is_canonical(from_speed_spec(speed)),
{
}

/// Number of bits per character.
#[derive(Debug, Clone, Copy, PartialEq, Eq, Structural)]
pub enum CharSize {
    Bits5,
    Bits6,
    Bits7,
    Bits8,
}

/// Parity checking modes.
#[derive(Debug, Clone, Copy, PartialEq, Eq, Structural)]
pub enum Parity {
    ParityNone,
    ParityOdd,
    ParityEven,
}

/// Number of stop bits.
#[derive(Debug, Clone, Copy, PartialEq, Eq, Structural)]
pub enum StopBits {
    Stop1,
    Stop2,
}

/// Flow control modes.
#[derive(Debug, Clone, Copy, PartialEq, Eq, Structural)]
pub enum FlowControl {
    FlowNone,
    FlowSoftware,
    FlowHardware,
}

} // verus!
