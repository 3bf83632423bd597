//! Common in-memory shape of one aircraft report.
//!
//! A record is immutable once published. Geographic coordinates are integer
//! microdegrees; altitudes are feet referenced to 1013 hPa; the callsign is
//! carried as raw bytes (the encoder space-pads it and replaces non-ASCII).

use vstd::prelude::*;

verus! {

/// Address type of a traffic record, as defined by the GDL90 "Address Type" field.
#[derive(Clone, Copy, Debug, PartialEq, Eq, Structural)]
pub enum AddressType {
    AdsbIcao,
    Ogn,
}

impl Default for AddressType {
    fn default() -> (r: Self)
        ensures
            r == AddressType::AdsbIcao,
    {
        AddressType::AdsbIcao
    }
}

/// Information regarding one aircraft.
#[derive(Clone, Debug)]
pub struct TrafficInfos {
    pub addr_type: AddressType,
    /// 24-bit identifier; the upper 8 bits are zero in a valid record.
    pub address: u32,
    /// Callsign bytes, 0 to 8 ASCII characters recommended.
    pub callsign: Vec<u8>,
    /// Altitude in feet with a QNH of 1013 hPa.
    pub altitude: i32,
    /// Latitude in microdegrees, in [-90e6, 90e6] for a valid record.
    pub latitude: i32,
    /// Longitude in microdegrees, in [-180e6, 180e6] for a valid record.
    pub longitude: i32,
    /// Track in degrees, in [0, 360] when present.
    pub track: Option<u32>,
    /// Ground speed in knots.
    pub ground_speed: Option<i32>,
    /// Vertical speed in feet per minute.
    pub vertical_speed: Option<i32>,
}

impl TrafficInfos {
    /// A record as any producer of the bus publishes it: the address fits in
    /// 24 bits, coordinates are in range, a present track is at most 360
    /// degrees, and the callsign fits the bus encoding.
    pub open spec fn valid(&self) -> bool {
        &&& self.address < 0x100_0000
        &&& -90_000_000 <= self.latitude <= 90_000_000
        &&& -180_000_000 <= self.longitude <= 180_000_000
        &&& (self.track matches Some(t) ==> t <= 360)
        &&& self.callsign@.len() <= 255
    }
}

/// The record every parse starts from: the image of the default record.
pub open spec fn default_rec() -> TrafficRec {
    TrafficRec {
        addr_type: AddressType::AdsbIcao,
        address: 0,
        callsign: Seq::empty(),
        altitude: 0,
        latitude: 0,
        longitude: 0,
        track: None,
        ground_speed: None,
        vertical_speed: None,
    }
}

/// Mathematical image of a traffic record.
pub ghost struct TrafficRec {
    pub addr_type: AddressType,
    pub address: int,
    pub callsign: Seq<u8>,
    pub altitude: int,
    pub latitude: int,
    pub longitude: int,
    pub track: Option<int>,
    pub ground_speed: Option<int>,
    pub vertical_speed: Option<int>,
}

impl TrafficRec {
    /// The image of a valid record: every field in its range.
    pub open spec fn valid(&self) -> bool {
        &&& 0 <= self.address < 0x100_0000
        &&& self.callsign.len() <= 255
        &&& -0x8000_0000 <= self.altitude < 0x8000_0000
        &&& -90_000_000 <= self.latitude <= 90_000_000
        &&& -180_000_000 <= self.longitude <= 180_000_000
        &&& (self.track matches Some(t) ==> 0 <= t <= 360)
        &&& (self.ground_speed matches Some(v) ==> -0x8000_0000 <= v < 0x8000_0000)
        &&& (self.vertical_speed matches Some(v) ==> -0x8000_0000 <= v < 0x8000_0000)
    }
}

impl TrafficInfos {
    /// Whether the record is [`TrafficInfos::valid`], as executable code.
    pub fn is_valid(&self) -> (r: bool)
        ensures
            r == self.valid(),
    {
        self.address < 0x100_0000 && -90_000_000 <= self.latitude && self.latitude <= 90_000_000
            && -180_000_000 <= self.longitude && self.longitude <= 180_000_000 && (match self.track {
            Some(t) => t <= 360,
            None => true,
        }) && self.callsign.len() <= 255
    }

    /// A copy of the record.
    #[verifier::loop_isolation(false)]
    pub fn clone_record(&self) -> (r: TrafficInfos)
        ensures
            r@ == self@,
    {
        let mut callsign: Vec<u8> = Vec::new();
        let mut i: usize = 0;
        while i < self.callsign.len()
            invariant
                i <= self.callsign@.len(),
                callsign@ == self.callsign@.take(i as int),
            decreases self.callsign@.len() - i,
        {
            callsign.push(self.callsign[i]);
            proof {
                assert(callsign@ =~= self.callsign@.take(i + 1));
            }
            i = i + 1;
        }
        proof {
            assert(self.callsign@.take(self.callsign@.len() as int) =~= self.callsign@);
        }
        TrafficInfos {
            addr_type: self.addr_type,
            address: self.address,
            callsign,
            altitude: self.altitude,
            latitude: self.latitude,
            longitude: self.longitude,
            track: self.track,
            ground_speed: self.ground_speed,
            vertical_speed: self.vertical_speed,
        }
    }
}

impl View for TrafficInfos {
    type V = TrafficRec;

    open spec fn view(&self) -> TrafficRec {
        TrafficRec {
            addr_type: self.addr_type,
            address: self.address as int,
            callsign: self.callsign@,
            altitude: self.altitude as int,
            latitude: self.latitude as int,
            longitude: self.longitude as int,
            track: match self.track {
                Some(t) => Some(t as int),
                None => None,
            },
            ground_speed: match self.ground_speed {
                Some(v) => Some(v as int),
                None => None,
            },
            vertical_speed: match self.vertical_speed {
                Some(v) => Some(v as int),
                None => None,
            },
        }
    }
}

impl Default for TrafficInfos {
    fn default() -> (r: Self)
        ensures
            r.addr_type == AddressType::AdsbIcao,
            r.address == 0,
            r.callsign@ == Seq::<u8>::empty(),
            r.altitude == 0,
            r.latitude == 0,
            r.longitude == 0,
            r.track is None,
            r.ground_speed is None,
            r.vertical_speed is None,
            r.valid(),
    {
        TrafficInfos {
            addr_type: AddressType::AdsbIcao,
            address: 0,
            callsign: Vec::new(),
            altitude: 0,
            latitude: 0,
            longitude: 0,
            track: None,
            ground_speed: None,
            vertical_speed: None,
        }
    }
}

} // verus!
