//! The proxy endpoint record and its mathematical model.
//!
//! Speed is a whole number of milliseconds and the success rate is stored in
//! thousandths (0 ..= 1000), so every quality computation is exact integer
//! arithmetic.  The quality score of the selection engine,
//! `success_rate * 100 - speed / 10`, is modelled scaled by ten:
//! `score_x10 = success_rate_thousandths - speed_ms`.

use vstd::prelude::*;

verus! {

/// The number of probe targets of one regular test round.
pub const TEST_TARGET_COUNT: u8 = 3;

/// Mathematical model of a [`ProxyInfo`]: every text field as a sequence of
/// characters, every metric as an unbounded integer-valued field.
pub ghost struct ProxyInfoV {
    pub ip: Seq<char>,
    pub port: u16,
    pub country: Seq<char>,
    pub protocol: Seq<char>,
    pub speed: u64,
    pub success_rate: u32,
    pub last_tested: u64,
    pub failures: u32,
}

/// One candidate or verified proxy endpoint.
///
/// `speed` is the duration of the record's whole test round in milliseconds
/// and `success_rate` is the fraction of successful probes in thousandths;
/// both stay 0 until the record has been tested.  `last_tested` is a
/// caller-supplied timestamp of the most recent test attempt.  `failures` is
/// part of the record's shape but no operation updates it.
#[derive(Debug)]
pub struct ProxyInfo {
    pub ip: String,
    pub port: u16,
    pub country: String,
    pub protocol: String,
    pub speed: u64,
    pub success_rate: u32,
    pub last_tested: u64,
    pub failures: u32,
}

impl View for ProxyInfo {
    type V = ProxyInfoV;

    open spec fn view(&self) -> ProxyInfoV {
        ProxyInfoV {
            ip: self.ip@,
            port: self.port,
            country: self.country@,
            protocol: self.protocol@,
            speed: self.speed,
            success_rate: self.success_rate,
            last_tested: self.last_tested,
            failures: self.failures,
        }
    }
}

impl ProxyInfo {
    /// An exact copy of the record.
    pub fn duplicate(&self) -> (r: ProxyInfo)
        ensures
            r@ == self@,
    {
        ProxyInfo {
            ip: self.ip.clone(),
            port: self.port,
            country: self.country.clone(),
            protocol: self.protocol.clone(),
            speed: self.speed,
            success_rate: self.success_rate,
            last_tested: self.last_tested,
            failures: self.failures,
        }
    }
}

/// The models of a sequence of records.
pub open spec fn views_of(s: Seq<ProxyInfo>) -> Seq<ProxyInfoV> {
    s.map_values(|p: ProxyInfo| p@)
}

/// The success rate `successes / total` in thousandths, rounded to nearest.
pub open spec fn rate_thousandths(successes: nat, total: nat) -> nat
    recommends
        total >= 1,
{
    (successes * 1000 + total / 2) / total
}

/// A test round passes the retention threshold exactly when the success rate
/// is strictly greater than one half.
pub open spec fn spec_passes_threshold(successes: nat, total: nat) -> bool {
    2 * successes > total
}

/// The success rate in thousandths, as executable code.
pub fn success_rate_thousandths(successes: u8, total: u8) -> (r: u32)
    requires
        total >= 1,
        successes <= total,
    ensures
        r == rate_thousandths(successes as nat, total as nat),
        r <= 1000,
{
    let s = successes as u32;
    let t = total as u32;
    let r = (s * 1000 + t / 2) / t;
    assert(r == rate_thousandths(successes as nat, total as nat));
    assert(r <= 1000) by (nonlinear_arith)
        requires
            r as int == ((s as int) * 1000 + (t as int) / 2) / (t as int),
            1 <= t as int,
            s as int <= t as int,
            t as int <= 255,
    ;
    r
}

/// Whether `successes` out of `total` probes clear the strict majority
/// threshold for retention in the verified map.
pub fn passes_threshold(successes: u8, total: u8) -> (r: bool)
    ensures
        r == spec_passes_threshold(successes as nat, total as nat),
{
    2 * (successes as u32) > (total as u32)
}

/// The selection score of a record, scaled by ten:
/// `score = success_rate * 100 - speed / 10` over real numbers becomes
/// `score_x10 = success_rate_thousandths - speed_ms`.
pub open spec fn score_x10(r: ProxyInfoV) -> int {
    r.success_rate - r.speed
}

/// Whether a response status code counts as a successful probe.
pub fn is_success_status(code: u16) -> (r: bool)
    ensures
        r == (200 <= code && code < 300),
{
    200 <= code && code < 300
}

} // verus!
