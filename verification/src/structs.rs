//! Proxy endpoint records and their mathematical views.

use vstd::prelude::*;

verus! {

/// One upstream proxy endpoint, as held by the registry.
///
/// `url` and `ip` together identify the record. `latency` is the last
/// measured round-trip time in milliseconds; zero or a negative value
/// means "unmeasured" and keeps the record out of selection.
pub struct IpInfo {
    pub url: String,
    pub ip: String,
    pub isp: String,
    pub country: String,
    pub latency: i32,
    pub code: String,
}

/// Minimal projection of a record for the prober's sweep: the probe target.
pub struct IpList {
    pub ip: String,
}

/// The mathematical value of an [`IpInfo`]: every string as a character
/// sequence and the latency as an unbounded integer.
#[verifier::ext_equal]
pub struct RecordV {
    pub url: Seq<char>,
    pub ip: Seq<char>,
    pub isp: Seq<char>,
    pub country: Seq<char>,
    pub latency: int,
    pub code: Seq<char>,
}

impl View for IpInfo {
    type V = RecordV;

    open spec fn view(&self) -> RecordV {
        RecordV {
            url: self.url@,
            ip: self.ip@,
            isp: self.isp@,
            country: self.country@,
            latency: self.latency as int,
            code: self.code@,
        }
    }
}

impl View for IpList {
    type V = Seq<char>;

    open spec fn view(&self) -> Seq<char> {
        self.ip@
    }
}

impl Clone for IpInfo {
    fn clone(&self) -> (res: Self)
        ensures
            res@ == self@,
    {
        IpInfo {
            url: self.url.clone(),
            ip: self.ip.clone(),
            isp: self.isp.clone(),
            country: self.country.clone(),
            latency: self.latency,
            code: self.code.clone(),
        }
    }
}

impl Clone for IpList {
    fn clone(&self) -> (res: Self)
        ensures
            res@ == self@,
    {
        IpList { ip: self.ip.clone() }
    }
}

/// A record may be handed out by a strategy only when its latency is a
/// positive measurement strictly under the ceiling and both identity
/// fields are non-empty.
pub open spec fn selectable(r: RecordV, ceiling: int) -> bool {
    0 < r.latency < ceiling && r.url.len() > 0 && r.ip.len() > 0
}

} // verus!
