//! The federative units of Brazil, by which the points of an instance can
//! be grouped, and the frame of coordinates of each.

use vstd::prelude::*;

use crate::text::{is_same_text, names, to_uppercase};

verus! {

/// A federative unit, or the whole country.
#[derive(Debug, Clone, Copy, PartialEq, Eq, Structural)]
pub enum UFEnum {
    AC,
    AL,
    AP,
    AM,
    BA,
    CE,
    DF,
    ES,
    GO,
    MA,
    MT,
    MS,
    MG,
    PA,
    PB,
    PR,
    PE,
    PI,
    RJ,
    RN,
    RS,
    RO,
    RR,
    SC,
    SP,
    SE,
    TO,
    BRAZIL,
}

/// The numeric code of a unit; 0 for the whole country.
pub open spec fn code_of(uf: UFEnum) -> u8 {
    match uf {
        UFEnum::AC => 12,
        UFEnum::AL => 27,
        UFEnum::AP => 16,
        UFEnum::AM => 13,
        UFEnum::BA => 29,
        UFEnum::CE => 23,
        UFEnum::DF => 53,
        UFEnum::ES => 32,
        UFEnum::GO => 52,
        UFEnum::MA => 21,
        UFEnum::MT => 51,
        UFEnum::MS => 50,
        UFEnum::MG => 31,
        UFEnum::PA => 15,
        UFEnum::PB => 25,
        UFEnum::PR => 41,
        UFEnum::PE => 26,
        UFEnum::PI => 22,
        UFEnum::RJ => 33,
        UFEnum::RN => 24,
        UFEnum::RS => 43,
        UFEnum::RO => 11,
        UFEnum::RR => 14,
        UFEnum::SC => 42,
        UFEnum::SP => 35,
        UFEnum::SE => 28,
        UFEnum::TO => 17,
        UFEnum::BRAZIL => 0,
    }
}

/// The short name of a unit, in capitals.
pub open spec fn name_of(uf: UFEnum) -> Seq<char> {
    match uf {
        UFEnum::AC => "AC"@,
        UFEnum::AL => "AL"@,
        UFEnum::AP => "AP"@,
        UFEnum::AM => "AM"@,
        UFEnum::BA => "BA"@,
        UFEnum::CE => "CE"@,
        UFEnum::DF => "DF"@,
        UFEnum::ES => "ES"@,
        UFEnum::GO => "GO"@,
        UFEnum::MA => "MA"@,
        UFEnum::MT => "MT"@,
        UFEnum::MS => "MS"@,
        UFEnum::MG => "MG"@,
        UFEnum::PA => "PA"@,
        UFEnum::PB => "PB"@,
        UFEnum::PR => "PR"@,
        UFEnum::PE => "PE"@,
        UFEnum::PI => "PI"@,
        UFEnum::RJ => "RJ"@,
        UFEnum::RN => "RN"@,
        UFEnum::RS => "RS"@,
        UFEnum::RO => "RO"@,
        UFEnum::RR => "RR"@,
        UFEnum::SC => "SC"@,
        UFEnum::SP => "SP"@,
        UFEnum::SE => "SE"@,
        UFEnum::TO => "TO"@,
        UFEnum::BRAZIL => "BRAZIL"@,
    }
}

/// The frame that holds the points of a unit: the least and the greatest
/// latitude, then the least and the greatest longitude, in millionths of a
/// degree.
pub open spec fn frame_of(uf: UFEnum) -> ((int, int), (int, int)) {
    match uf {
        UFEnum::AC => ((-11018800, -7616570), (-72899700, -66897200)),
        UFEnum::AL => ((-10406000, -8839510), (-37998800, -35226700)),
        UFEnum::AP => ((-938000, 3840740), (-52453000, -50699600)),
        UFEnum::AM => ((-8742320, -119090), (-72590700, -56711200)),
        UFEnum::BA => ((-18075400, -8720730), (-45786600, -37613100)),
        UFEnum::CE => ((-7821630, -2793310), (-41243500, -37353100)),
        UFEnum::DF => ((-15779500, -15779500), (-47929700, -47929700)),
        UFEnum::ES => ((-21152300, -18096500), (-41840500, -39736200)),
        UFEnum::GO => ((-19183200, -13035000), (-53201200, -46116500)),
        UFEnum::MA => ((-9102730, -1196960), (-48429100, -41905000)),
        UFEnum::MT => ((-17824100, -9461210), (-61469700, -50514000)),
        UFEnum::MS => ((-23970500, -17569800), (-57883600, -51096100)),
        UFEnum::MG => ((-22854000, -14266200), (-50689400, -39939100)),
        UFEnum::PA => ((-9328100, -154874), (-57754400, -46139900)),
        UFEnum::PB => ((-8152890, -6185150), (-38676000, -34815100)),
        UFEnum::PR => ((-26483900, -22552300), (-54582700, -48320400)),
        UFEnum::PE => ((-9388660, -3839600), (-41009500, -32410700)),
        UFEnum::PI => ((-10817000, -2857740), (-45911600, -40608300)),
        UFEnum::RJ => ((-23222100, -20927600), (-44717500, -41044600)),
        UFEnum::RN => ((-6938350, -4837290), (-38494700, -35003300)),
        UFEnum::RS => ((-33686600, -27160700), (-57549700, -49733300)),
        UFEnum::RO => ((-13494500, -8760770), (-65334600, -60148800)),
        UFEnum::RR => ((884203, 4603140), (-61369200, -59620400)),
        UFEnum::SC => ((-29309900, -26029200), (-53716600, -48514600)),
        UFEnum::SP => ((-25014400, -19945300), (-53060300, -44328100)),
        UFEnum::SE => ((-11515700, -9648820), (-38181300, -36461100)),
        UFEnum::TO => ((-13044700, -5261310), (-49952100, -46407600)),
        UFEnum::BRAZIL => ((-33686600, 4603140), (-72899700, -35226700)),
    }
}

/// A unit with the frame that holds its points: the least and the greatest
/// latitude and longitude, in millionths of a degree.
#[derive(Debug, Clone, Copy)]
pub struct UF {
    uf: UFEnum,
    min_max_latitude: (i32, i32),
    min_max_longitude: (i32, i32),
}

impl UF {
    /// Which unit this is.
    pub closed spec fn unit(&self) -> UFEnum {
        self.uf
    }

    /// The least and the greatest latitude.
    pub closed spec fn latitudes(&self) -> (i32, i32) {
        self.min_max_latitude
    }

    /// The least and the greatest longitude.
    pub closed spec fn longitudes(&self) -> (i32, i32) {
        self.min_max_longitude
    }

    /// The frame is that of the unit.
    pub open spec fn has_frame(&self) -> bool {
        &&& self.latitudes().0 == frame_of(self.unit()).0.0
        &&& self.latitudes().1 == frame_of(self.unit()).0.1
        &&& self.longitudes().0 == frame_of(self.unit()).1.0
        &&& self.longitudes().1 == frame_of(self.unit()).1.1
    }

    /// In each direction the least coordinate is not above the greatest.
    pub open spec fn wf(&self) -> bool {
        &&& self.latitudes().0 <= self.latitudes().1
        &&& self.longitudes().0 <= self.longitudes().1
    }

    pub fn get_uf_enum(&self) -> (uf: &UFEnum)
        ensures
            *uf == self.unit(),
    {
        &self.uf
    }

    pub fn get_min_max_latitude(&self) -> (span: &(i32, i32))
        ensures
            *span == self.latitudes(),
    {
        &self.min_max_latitude
    }

    pub fn get_min_max_longitude(&self) -> (span: &(i32, i32))
        ensures
            *span == self.longitudes(),
    {
        &self.min_max_longitude
    }

    /// The unit with the given numeric code, if there is one.
    pub fn get_uf_from_code(code: u8) -> (found: Option<Self>)
        ensures
            match found {
                Some(uf) => code_of(uf.unit()) == code && uf.has_frame() && uf.wf(),
                None => forall|unit: UFEnum| code_of(unit) != code,
            },
    {
        match code {
            0 => Some(Self::brazil()),
            12 => Some(Self::ac()),
            27 => Some(Self::al()),
            16 => Some(Self::ap()),
            13 => Some(Self::am()),
            29 => Some(Self::ba()),
            23 => Some(Self::ce()),
            53 => Some(Self::df()),
            32 => Some(Self::es()),
            52 => Some(Self::go()),
            21 => Some(Self::ma()),
            51 => Some(Self::mt()),
            50 => Some(Self::ms()),
            31 => Some(Self::mg()),
            15 => Some(Self::pa()),
            25 => Some(Self::pb()),
            41 => Some(Self::pr()),
            26 => Some(Self::pe()),
            22 => Some(Self::pi()),
            33 => Some(Self::rj()),
            24 => Some(Self::rn()),
            43 => Some(Self::rs()),
            11 => Some(Self::ro()),
            14 => Some(Self::rr()),
            42 => Some(Self::sc()),
            35 => Some(Self::sp()),
            28 => Some(Self::se()),
            17 => Some(Self::to()),
            _ => None,
        }
    }

    /// The unit with the given short name, in capitals or not, if there is
    /// one.
    pub fn get_uf_from_str(str: &str) -> (found: Option<Self>)
        ensures
            match found {
                Some(uf) => names(str@, name_of(uf.unit())) && uf.has_frame() && uf.wf(),
                None => forall|unit: UFEnum| !names(str@, name_of(unit)),
            },
    {
        let upper = to_uppercase(str);
        Self::from_capitals(upper.as_str())
    }

    /// The unit with the given short name in capitals, if there is one.
    pub fn from_capitals(name: &str) -> (found: Option<Self>)
        ensures
            match found {
                Some(uf) => name@ == name_of(uf.unit()) && uf.has_frame() && uf.wf(),
                None => forall|unit: UFEnum| name@ != name_of(unit),
            },
    {
        if is_same_text(name, "BRAZIL") {
            Some(Self::brazil())
        } else if is_same_text(name, "AC") {
            Some(Self::ac())
        } else if is_same_text(name, "AL") {
            Some(Self::al())
        } else if is_same_text(name, "AP") {
            Some(Self::ap())
        } else if is_same_text(name, "AM") {
            Some(Self::am())
        } else if is_same_text(name, "BA") {
            Some(Self::ba())
        } else if is_same_text(name, "CE") {
            Some(Self::ce())
        } else if is_same_text(name, "DF") {
            Some(Self::df())
        } else if is_same_text(name, "ES") {
            Some(Self::es())
        } else if is_same_text(name, "GO") {
            Some(Self::go())
        } else if is_same_text(name, "MA") {
            Some(Self::ma())
        } else if is_same_text(name, "MT") {
            Some(Self::mt())
        } else if is_same_text(name, "MS") {
            Some(Self::ms())
        } else if is_same_text(name, "MG") {
            Some(Self::mg())
        } else if is_same_text(name, "PA") {
            Some(Self::pa())
        } else if is_same_text(name, "PB") {
            Some(Self::pb())
        } else if is_same_text(name, "PR") {
            Some(Self::pr())
        } else if is_same_text(name, "PE") {
            Some(Self::pe())
        } else if is_same_text(name, "PI") {
            Some(Self::pi())
        } else if is_same_text(name, "RJ") {
            Some(Self::rj())
        } else if is_same_text(name, "RN") {
            Some(Self::rn())
        } else if is_same_text(name, "RS") {
            Some(Self::rs())
        } else if is_same_text(name, "RO") {
            Some(Self::ro())
        } else if is_same_text(name, "RR") {
            Some(Self::rr())
        } else if is_same_text(name, "SC") {
            Some(Self::sc())
        } else if is_same_text(name, "SP") {
            Some(Self::sp())
        } else if is_same_text(name, "SE") {
            Some(Self::se())
        } else if is_same_text(name, "TO") {
            Some(Self::to())
        } else {
            None
        }
    }

    fn brazil() -> (uf: Self)
        ensures
            uf.unit() == UFEnum::BRAZIL,
            uf.has_frame(),
            uf.wf(),
    {
        UF {
            uf: UFEnum::BRAZIL,
            min_max_latitude: (-33686600, 4603140),
            min_max_longitude: (-72899700, -35226700),
        }
    }

    fn ac() -> (uf: Self)
        ensures
            uf.unit() == UFEnum::AC,
            uf.has_frame(),
            uf.wf(),
    {
        UF {
            uf: UFEnum::AC,
            min_max_latitude: (-11018800, -7616570),
            min_max_longitude: (-72899700, -66897200),
        }
    }

    fn al() -> (uf: Self)
        ensures
            uf.unit() == UFEnum::AL,
            uf.has_frame(),
            uf.wf(),
    {
        UF {
            uf: UFEnum::AL,
            min_max_latitude: (-10406000, -8839510),
            min_max_longitude: (-37998800, -35226700),
        }
    }

    fn ap() -> (uf: Self)
        ensures
            uf.unit() == UFEnum::AP,
            uf.has_frame(),
            uf.wf(),
    {
        UF {
            uf: UFEnum::AP,
            min_max_latitude: (-938000, 3840740),
            min_max_longitude: (-52453000, -50699600),
        }
    }

    fn am() -> (uf: Self)
        ensures
            uf.unit() == UFEnum::AM,
            uf.has_frame(),
            uf.wf(),
    {
        UF {
            uf: UFEnum::AM,
            min_max_latitude: (-8742320, -119090),
            min_max_longitude: (-72590700, -56711200),
        }
    }

    fn ba() -> (uf: Self)
        ensures
            uf.unit() == UFEnum::BA,
            uf.has_frame(),
            uf.wf(),
    {
        UF {
            uf: UFEnum::BA,
            min_max_latitude: (-18075400, -8720730),
            min_max_longitude: (-45786600, -37613100),
        }
    }

    fn ce() -> (uf: Self)
        ensures
            uf.unit() == UFEnum::CE,
            uf.has_frame(),
            uf.wf(),
    {
        UF {
            uf: UFEnum::CE,
            min_max_latitude: (-7821630, -2793310),
            min_max_longitude: (-41243500, -37353100),
        }
    }

    fn df() -> (uf: Self)
        ensures
            uf.unit() == UFEnum::DF,
            uf.has_frame(),
            uf.wf(),
    {
        UF {
            uf: UFEnum::DF,
            min_max_latitude: (-15779500, -15779500),
            min_max_longitude: (-47929700, -47929700),
        }
    }

    fn es() -> (uf: Self)
        ensures
            uf.unit() == UFEnum::ES,
            uf.has_frame(),
            uf.wf(),
    {
        UF {
            uf: UFEnum::ES,
            min_max_latitude: (-21152300, -18096500),
            min_max_longitude: (-41840500, -39736200),
        }
    }

    fn go() -> (uf: Self)
        ensures
            uf.unit() == UFEnum::GO,
            uf.has_frame(),
            uf.wf(),
    {
        UF {
            uf: UFEnum::GO,
            min_max_latitude: (-19183200, -13035000),
            min_max_longitude: (-53201200, -46116500),
        }
    }

    fn ma() -> (uf: Self)
        ensures
            uf.unit() == UFEnum::MA,
            uf.has_frame(),
            uf.wf(),
    {
        UF {
            uf: UFEnum::MA,
            min_max_latitude: (-9102730, -1196960),
            min_max_longitude: (-48429100, -41905000),
        }
    }

    fn mt() -> (uf: Self)
        ensures
            uf.unit() == UFEnum::MT,
            uf.has_frame(),
            uf.wf(),
    {
        UF {
            uf: UFEnum::MT,
            min_max_latitude: (-17824100, -9461210),
            min_max_longitude: (-61469700, -50514000),
        }
    }

    fn ms() -> (uf: Self)
        ensures
            uf.unit() == UFEnum::MS,
            uf.has_frame(),
            uf.wf(),
    {
        UF {
            uf: UFEnum::MS,
            min_max_latitude: (-23970500, -17569800),
            min_max_longitude: (-57883600, -51096100),
        }
    }

    fn mg() -> (uf: Self)
        ensures
            uf.unit() == UFEnum::MG,
            uf.has_frame(),
            uf.wf(),
    {
        UF {
            uf: UFEnum::MG,
            min_max_latitude: (-22854000, -14266200),
            min_max_longitude: (-50689400, -39939100),
        }
    }

    fn pa() -> (uf: Self)
        ensures
            uf.unit() == UFEnum::PA,
            uf.has_frame(),
            uf.wf(),
    {
        UF {
            uf: UFEnum::PA,
            min_max_latitude: (-9328100, -154874),
            min_max_longitude: (-57754400, -46139900),
        }
    }

    fn pb() -> (uf: Self)
        ensures
            uf.unit() == UFEnum::PB,
            uf.has_frame(),
            uf.wf(),
    {
        UF {
            uf: UFEnum::PB,
            min_max_latitude: (-8152890, -6185150),
            min_max_longitude: (-38676000, -34815100),
        }
    }

    fn pr() -> (uf: Self)
        ensures
            uf.unit() == UFEnum::PR,
            uf.has_frame(),
            uf.wf(),
    {
        UF {
            uf: UFEnum::PR,
            min_max_latitude: (-26483900, -22552300),
            min_max_longitude: (-54582700, -48320400),
        }
    }

    fn pe() -> (uf: Self)
        ensures
            uf.unit() == UFEnum::PE,
            uf.has_frame(),
            uf.wf(),
    {
        UF {
            uf: UFEnum::PE,
            min_max_latitude: (-9388660, -3839600),
            min_max_longitude: (-41009500, -32410700),
        }
    }

    fn pi() -> (uf: Self)
        ensures
            uf.unit() == UFEnum::PI,
            uf.has_frame(),
            uf.wf(),
    {
        UF {
            uf: UFEnum::PI,
            min_max_latitude: (-10817000, -2857740),
            min_max_longitude: (-45911600, -40608300),
        }
    }

    fn rj() -> (uf: Self)
        ensures
            uf.unit() == UFEnum::RJ,
            uf.has_frame(),
            uf.wf(),
    {
        UF {
            uf: UFEnum::RJ,
            min_max_latitude: (-23222100, -20927600),
            min_max_longitude: (-44717500, -41044600),
        }
    }

    fn rn() -> (uf: Self)
        ensures
            uf.unit() == UFEnum::RN,
            uf.has_frame(),
            uf.wf(),
    {
        UF {
            uf: UFEnum::RN,
            min_max_latitude: (-6938350, -4837290),
            min_max_longitude: (-38494700, -35003300),
        }
    }

    fn rs() -> (uf: Self)
        ensures
            uf.unit() == UFEnum::RS,
            uf.has_frame(),
            uf.wf(),
    {
        UF {
            uf: UFEnum::RS,
            min_max_latitude: (-33686600, -27160700),
            min_max_longitude: (-57549700, -49733300),
        }
    }

    fn ro() -> (uf: Self)
        ensures
            uf.unit() == UFEnum::RO,
            uf.has_frame(),
            uf.wf(),
    {
        UF {
            uf: UFEnum::RO,
            min_max_latitude: (-13494500, -8760770),
            min_max_longitude: (-65334600, -60148800),
        }
    }

    fn rr() -> (uf: Self)
        ensures
            uf.unit() == UFEnum::RR,
            uf.has_frame(),
            uf.wf(),
    {
        UF {
            uf: UFEnum::RR,
            min_max_latitude: (884203, 4603140),
            min_max_longitude: (-61369200, -59620400),
        }
    }

    fn sc() -> (uf: Self)
        ensures
            uf.unit() == UFEnum::SC,
            uf.has_frame(),
            uf.wf(),
    {
        UF {
            uf: UFEnum::SC,
            min_max_latitude: (-29309900, -26029200),
            min_max_longitude: (-53716600, -48514600),
        }
    }

    fn sp() -> (uf: Self)
        ensures
            uf.unit() == UFEnum::SP,
            uf.has_frame(),
            uf.wf(),
    {
        UF {
            uf: UFEnum::SP,
            min_max_latitude: (-25014400, -19945300),
            min_max_longitude: (-53060300, -44328100),
        }
    }

    fn se() -> (uf: Self)
        ensures
            uf.unit() == UFEnum::SE,
            uf.has_frame(),
            uf.wf(),
    {
        UF {
            uf: UFEnum::SE,
            min_max_latitude: (-11515700, -9648820),
            min_max_longitude: (-38181300, -36461100),
        }
    }

    fn to() -> (uf: Self)
        ensures
            uf.unit() == UFEnum::TO,
            uf.has_frame(),
            uf.wf(),
    {
        UF {
            uf: UFEnum::TO,
            min_max_latitude: (-13044700, -5261310),
            min_max_longitude: (-49952100, -46407600),
        }
    }
}

} // verus!
