use vstd::prelude::*;

verus! {

/// The type of a resource record or of a question.
#[derive(Debug, Clone, Copy, PartialEq, Eq, Structural)]
pub enum RecordType {
    A,
    NS,
    CNAME,
    SOA,
    PTR,
    MX,
    TXT,
    AAAA,
    HTTPS,
    UNKNOWN(u16),
}

/// The numeric code of each record type.
pub open spec fn type_code(t: RecordType) -> u16 {
    match t {
        RecordType::A => 1,
        RecordType::NS => 2,
        RecordType::CNAME => 5,
        RecordType::SOA => 6,
        RecordType::PTR => 12,
        RecordType::MX => 15,
        RecordType::TXT => 16,
        RecordType::AAAA => 28,
        RecordType::HTTPS => 65,
        RecordType::UNKNOWN(n) => n,
    }
}

/// The record type that a numeric code names; codes without a name are kept.
pub open spec fn type_of_code(n: u16) -> RecordType {
    if n == 1 {
        RecordType::A
    } else if n == 2 {
        RecordType::NS
    } else if n == 5 {
        RecordType::CNAME
    } else if n == 6 {
        RecordType::SOA
    } else if n == 12 {
        RecordType::PTR
    } else if n == 15 {
        RecordType::MX
    } else if n == 16 {
        RecordType::TXT
    } else if n == 28 {
        RecordType::AAAA
    } else if n == 65 {
        RecordType::HTTPS
    } else {
        RecordType::UNKNOWN(n)
    }
}

/// A record type whose data this codec reads and writes.
pub open spec fn is_supported(t: RecordType) -> bool {
    match t {
        RecordType::HTTPS | RecordType::UNKNOWN(_) => false,
        _ => true,
    }
}

/// A type as the codec hands it out: a code that has a name is always named.
pub open spec fn is_canonical_type(t: RecordType) -> bool {
    type_of_code(type_code(t)) == t
}

impl RecordType {
    /// The type for a numeric code; every code is accepted.
    pub fn try_from(value: u16) -> (r: Result<RecordType, ()>)
        ensures
            r == Ok::<RecordType, ()>(type_of_code(value)),
    {
        let t = match value {
            1 => RecordType::A,
            2 => RecordType::NS,
            5 => RecordType::CNAME,
            6 => RecordType::SOA,
            12 => RecordType::PTR,
            15 => RecordType::MX,
            16 => RecordType::TXT,
            28 => RecordType::AAAA,
            65 => RecordType::HTTPS,
            rt => RecordType::UNKNOWN(rt),
        };
        Ok(t)
    }

    /// The numeric code of this type.
    pub fn code(self) -> (r: u16)
        ensures
            r == type_code(self),
    {
        match self {
            RecordType::A => 1,
            RecordType::NS => 2,
            RecordType::CNAME => 5,
            RecordType::SOA => 6,
            RecordType::PTR => 12,
            RecordType::MX => 15,
            RecordType::TXT => 16,
            RecordType::AAAA => 28,
            RecordType::HTTPS => 65,
            RecordType::UNKNOWN(rt) => rt,
        }
    }

    /// Whether the codec can read and write data of this type.
    pub fn is_supported(self) -> (r: bool)
        ensures
            r == is_supported(self),
    {
        match self {
            RecordType::HTTPS | RecordType::UNKNOWN(_) => false,
            _ => true,
        }
    }
}

/// The class of a record; only the Internet class is supported.
#[derive(Debug, Clone, Copy, PartialEq, Eq, Structural)]
pub enum RecordClass {
    IN,
}

impl RecordClass {
    /// The class for a numeric code: only 1, the Internet class, is accepted.
    pub fn try_from(value: u16) -> (r: Result<RecordClass, ()>)
        ensures
            r is Ok <==> value == 1,
    {
        match value {
            1 => Ok(RecordClass::IN),
            _ => Err(()),
        }
    }

    /// The numeric code of this class.
    pub fn code(self) -> (r: u16)
        ensures
            r == 1,
    {
        match self {
            RecordClass::IN => 1,
        }
    }
}

/// A start-of-authority record.
#[derive(Debug, Clone)]
pub struct Soa {
    pub mname: Vec<u8>,
    pub rname: Vec<u8>,
    pub serial: u32,
    pub refresh: u32,
    pub retry: u32,
    pub expire: u32,
    pub minimum: u32,
}

/// A mail exchange record.
#[derive(Debug, Clone)]
pub struct Mx {
    pub preference: u16,
    pub exchange: Vec<u8>,
}

/// The data of a resource record, by type. Names are in their dotted
/// form with a trailing dot; text is the raw octets.
#[derive(Debug, Clone)]
pub enum ResourceData {
    IPv4([u8; 4]),
    IPv6([u8; 16]),
    Ns(Vec<u8>),
    CName(Vec<u8>),
    Soa(Soa),
    Ptr(Vec<u8>),
    Mx(Mx),
    Txt(Vec<u8>),
    Https(Svcb),
    Unimplemented(u32),
}

/// A resource record.
#[derive(Debug, Clone)]
pub struct ResourceRecord {
    pub name: Vec<u8>,
    pub rtype: RecordType,
    pub class: RecordClass,
    pub ttl: u32,
    pub data: ResourceData,
}

/// The key of a service binding parameter.
#[derive(Debug, Clone, Copy, PartialEq, Eq, Structural)]
pub enum SvcbParamKey {
    ALPN,
    NODEFAULTALPN,
    PORT,
    IPV4HINT,
    ECHCONFIG,
    IPV6HINT,
    KEY(u16),
}

/// The parameter key that a numeric code names; key 0 is reserved.
pub open spec fn param_key_of_code(n: u16) -> SvcbParamKey {
    if n == 1 {
        SvcbParamKey::ALPN
    } else if n == 2 {
        SvcbParamKey::NODEFAULTALPN
    } else if n == 3 {
        SvcbParamKey::PORT
    } else if n == 4 {
        SvcbParamKey::IPV4HINT
    } else if n == 5 {
        SvcbParamKey::ECHCONFIG
    } else if n == 6 {
        SvcbParamKey::IPV6HINT
    } else {
        SvcbParamKey::KEY(n)
    }
}

/// The numeric code of a parameter key.
pub open spec fn param_key_code(k: SvcbParamKey) -> u16 {
    match k {
        SvcbParamKey::ALPN => 1,
        SvcbParamKey::NODEFAULTALPN => 2,
        SvcbParamKey::PORT => 3,
        SvcbParamKey::IPV4HINT => 4,
        SvcbParamKey::ECHCONFIG => 5,
        SvcbParamKey::IPV6HINT => 6,
        SvcbParamKey::KEY(n) => n,
    }
}

impl SvcbParamKey {
    /// The key for a numeric code; the reserved code 0 is refused.
    pub fn try_from(value: u16) -> (r: Result<SvcbParamKey, ()>)
        ensures
            value == 0 ==> r is Err,
            value != 0 ==> r == Ok::<SvcbParamKey, ()>(param_key_of_code(value)),
    {
        match value {
            0 => Err(()),
            1 => Ok(SvcbParamKey::ALPN),
            2 => Ok(SvcbParamKey::NODEFAULTALPN),
            3 => Ok(SvcbParamKey::PORT),
            4 => Ok(SvcbParamKey::IPV4HINT),
            5 => Ok(SvcbParamKey::ECHCONFIG),
            6 => Ok(SvcbParamKey::IPV6HINT),
            n => Ok(SvcbParamKey::KEY(n)),
        }
    }

    /// The numeric code of this key.
    pub fn code(self) -> (r: u16)
        ensures
            r == param_key_code(self),
    {
        match self {
            SvcbParamKey::ALPN => 1,
            SvcbParamKey::NODEFAULTALPN => 2,
            SvcbParamKey::PORT => 3,
            SvcbParamKey::IPV4HINT => 4,
            SvcbParamKey::ECHCONFIG => 5,
            SvcbParamKey::IPV6HINT => 6,
            SvcbParamKey::KEY(n) => n,
        }
    }
}

/// A service binding record.
#[derive(Debug, Clone)]
pub struct Svcb {
    pub domain_name: Vec<u8>,
    pub form: SvcbForm,
}

/// The two forms of a service binding.
#[derive(Debug, Clone)]
pub enum SvcbForm {
    ALIASFORM,
    SERVICEFORM(SvcbServiceForm),
}

/// The service form of a binding: a priority and its parameters.
#[derive(Debug, Clone)]
pub struct SvcbServiceForm {
    pub field_priority: u16,
    pub params: Vec<SvcbParam>,
}

/// One service binding parameter.
#[derive(Debug, Clone)]
pub struct SvcbParam {
    pub key: SvcbParamKey,
    pub value: Vec<u8>,
}

impl From<RecordType> for u16 {
    fn from(rtype: RecordType) -> (r: u16) {
        rtype.code()
    }
}

impl vstd::std_specs::convert::FromSpecImpl<RecordType> for u16 {
    open spec fn obeys_from_spec() -> bool {
        true
    }

    open spec fn from_spec(rtype: RecordType) -> u16 {
        type_code(rtype)
    }
}

impl From<RecordClass> for u16 {
    fn from(class: RecordClass) -> (r: u16) {
        class.code()
    }
}

impl vstd::std_specs::convert::FromSpecImpl<RecordClass> for u16 {
    open spec fn obeys_from_spec() -> bool {
        true
    }

    open spec fn from_spec(class: RecordClass) -> u16 {
        1
    }
}

impl From<SvcbParamKey> for u16 {
    fn from(param: SvcbParamKey) -> (r: u16) {
        param.code()
    }
}

impl vstd::std_specs::convert::FromSpecImpl<SvcbParamKey> for u16 {
    open spec fn obeys_from_spec() -> bool {
        true
    }

    open spec fn from_spec(param: SvcbParamKey) -> u16 {
        param_key_code(param)
    }
}

} // verus!
