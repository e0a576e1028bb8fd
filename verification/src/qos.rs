//! Quality of Service (QoS) levels for MQTT, independent of any MQTT client.
use vstd::prelude::*;

verus! {

/// MQTT Quality of Service levels
///
/// Defines delivery guarantees for MQTT messages:
/// - `AtMostOnce` (0): Best effort delivery, no guarantees
/// - `AtLeastOnce` (1): Message delivered at least once, duplicates possible
/// - `ExactlyOnce` (2): Message delivered exactly once, highest guarantee
#[derive(Debug, Clone, Copy, PartialEq, Eq, Structural, PartialOrd, Ord, Hash)]
pub enum QoS {
    /// QoS 0: At most once delivery (fire and forget)
    AtMostOnce,
    /// QoS 1: At least once delivery (acknowledged delivery)
    AtLeastOnce,
    /// QoS 2: Exactly once delivery (assured delivery)
    ExactlyOnce,
}

/// The number of a QoS level: 0, 1 or 2.
pub open spec fn qos_level(q: QoS) -> nat {
    match q {
        QoS::AtMostOnce => 0,
        QoS::AtLeastOnce => 1,
        QoS::ExactlyOnce => 2,
    }
}

impl QoS {
    /// The number of the level: 0, 1 or 2.
    pub fn level(&self) -> (r: u8)
        ensures
            r == qos_level(*self),
    {
        match self {
            QoS::AtMostOnce => 0,
            QoS::AtLeastOnce => 1,
            QoS::ExactlyOnce => 2,
        }
    }

    /// The level with the given number, if there is one.
    pub fn from_level(n: u8) -> (r: Option<QoS>)
        ensures
            match r {
                Some(q) => n <= 2 && qos_level(q) == n,
                None => n > 2,
            },
    {
        if n == 0 {
            Some(QoS::AtMostOnce)
        } else if n == 1 {
            Some(QoS::AtLeastOnce)
        } else if n == 2 {
            Some(QoS::ExactlyOnce)
        } else {
            None
        }
    }

    /// Whether this level guarantees more than `other`.
    pub fn is_higher_than(&self, other: QoS) -> (r: bool)
        ensures
            r == (qos_level(*self) > qos_level(other)),
    {
        self.level() > other.level()
    }

    /// `QoS0`, `QoS1` or `QoS2`, as `Display` shows it.
    pub fn to_display_string(&self) -> (r: &'static str)
        ensures
            r@ == (match *self {
                QoS::AtMostOnce => "QoS0"@,
                QoS::AtLeastOnce => "QoS1"@,
                QoS::ExactlyOnce => "QoS2"@,
            }),
    {
        match self {
            QoS::AtMostOnce => "QoS0",
            QoS::AtLeastOnce => "QoS1",
            QoS::ExactlyOnce => "QoS2",
        }
    }
}

/// Distinct levels have distinct numbers, all of them at most 2: the number
/// of a level tells the level.
pub proof fn law_qos_levels_distinct(a: QoS, b: QoS)
    ensures
        (qos_level(a) == qos_level(b)) == (a == b),
        qos_level(a) <= 2,
{
}

} // verus!
