use std::collections::VecDeque;
use vstd::prelude::*;

verus! {

/// Smallest well-formed frame: opcode, one payload byte, terminator.
pub const BASIC_PACKAGE_SIZE: usize = 3;

/// Byte that closes every frame on the wire.
pub const TERMINATOR: u8 = 0xff;

/// Protocol opcodes. The values 0x02 and 0x06 are reserved and have no variant.
#[derive(Clone, Copy, Debug, PartialEq, Eq, Structural)]
pub enum PackageType {
    Handshake,
    WaveHand,
    Userdata,
    PeerConnected,
    PeerDisconnected,
    Heartbeat,
    Timeout,
    BadPackage,
    ServiceTemporaryUnavailable,
    Sign,
    JoinNetwork,
    LeaveNetwork,
    PeerUpdate,
}

/// Why a byte sequence is not a frame.
#[derive(Clone, Copy, Debug, PartialEq, Eq, Structural)]
pub enum DecodeError {
    TooShort,
    MissingTerminator,
    UnknownType,
}

impl PackageType {
    /// The opcode byte of this type.
    pub open spec fn spec_code(self) -> u8 {
        match self {
            PackageType::Handshake => 0x0,
            PackageType::WaveHand => 0x1,
            PackageType::Userdata => 0x3,
            PackageType::PeerConnected => 0x4,
            PackageType::PeerDisconnected => 0x5,
            PackageType::Heartbeat => 0x7,
            PackageType::Timeout => 0x8,
            PackageType::BadPackage => 0x9,
            PackageType::ServiceTemporaryUnavailable => 0xa,
            PackageType::Sign => 0xb,
            PackageType::JoinNetwork => 0xc,
            PackageType::LeaveNetwork => 0xd,
            PackageType::PeerUpdate => 0xe,
        }
    }

    /// The type whose opcode is `b`, if `b` is a recognized opcode.
    pub open spec fn spec_from_code(b: u8) -> Option<PackageType> {
        if b == 0x0 {
            Some(PackageType::Handshake)
        } else if b == 0x1 {
            Some(PackageType::WaveHand)
        } else if b == 0x3 {
            Some(PackageType::Userdata)
        } else if b == 0x4 {
            Some(PackageType::PeerConnected)
        } else if b == 0x5 {
            Some(PackageType::PeerDisconnected)
        } else if b == 0x7 {
            Some(PackageType::Heartbeat)
        } else if b == 0x8 {
            Some(PackageType::Timeout)
        } else if b == 0x9 {
            Some(PackageType::BadPackage)
        } else if b == 0xa {
            Some(PackageType::ServiceTemporaryUnavailable)
        } else if b == 0xb {
            Some(PackageType::Sign)
        } else if b == 0xc {
            Some(PackageType::JoinNetwork)
        } else if b == 0xd {
            Some(PackageType::LeaveNetwork)
        } else if b == 0xe {
            Some(PackageType::PeerUpdate)
        } else {
            None
        }
    }

    pub fn code(&self) -> (r: u8)
        ensures
            r == self.spec_code(),
    {
        match self {
            PackageType::Handshake => 0x0,
            PackageType::WaveHand => 0x1,
            PackageType::Userdata => 0x3,
            PackageType::PeerConnected => 0x4,
            PackageType::PeerDisconnected => 0x5,
            PackageType::Heartbeat => 0x7,
            PackageType::Timeout => 0x8,
            PackageType::BadPackage => 0x9,
            PackageType::ServiceTemporaryUnavailable => 0xa,
            PackageType::Sign => 0xb,
            PackageType::JoinNetwork => 0xc,
            PackageType::LeaveNetwork => 0xd,
            PackageType::PeerUpdate => 0xe,
        }
    }

    pub fn from_code(b: u8) -> (r: Option<PackageType>)
        ensures
            r == Self::spec_from_code(b),
    {
        if b == 0x0 {
            Some(PackageType::Handshake)
        } else if b == 0x1 {
            Some(PackageType::WaveHand)
        } else if b == 0x3 {
            Some(PackageType::Userdata)
        } else if b == 0x4 {
            Some(PackageType::PeerConnected)
        } else if b == 0x5 {
            Some(PackageType::PeerDisconnected)
        } else if b == 0x7 {
            Some(PackageType::Heartbeat)
        } else if b == 0x8 {
            Some(PackageType::Timeout)
        } else if b == 0x9 {
            Some(PackageType::BadPackage)
        } else if b == 0xa {
            Some(PackageType::ServiceTemporaryUnavailable)
        } else if b == 0xb {
            Some(PackageType::Sign)
        } else if b == 0xc {
            Some(PackageType::JoinNetwork)
        } else if b == 0xd {
            Some(PackageType::LeaveNetwork)
        } else if b == 0xe {
            Some(PackageType::PeerUpdate)
        } else {
            None
        }
    }
}

/// The mathematical value of a package: its type and its payload.
pub struct PackageView {
    pub pack_type: PackageType,
    pub data: Seq<u8>,
}

/// One protocol unit: an opcode and the payload bytes that follow it.
#[derive(Clone, Debug)]
pub struct Package {
    pack_type: PackageType,
    data: Vec<u8>,
}

impl View for Package {
    type V = PackageView;

    closed spec fn view(&self) -> PackageView {
        PackageView { pack_type: self.pack_type, data: self.data@ }
    }
}

/// The wire form of a package: opcode, payload, terminator.
pub open spec fn spec_encode(p: PackageView) -> Seq<u8> {
    seq![p.pack_type.spec_code()] + p.data + seq![TERMINATOR]
}

/// What decoding the bytes `b` yields.
pub open spec fn spec_decode(b: Seq<u8>) -> Result<PackageView, DecodeError> {
    if b.len() < BASIC_PACKAGE_SIZE {
        Err(DecodeError::TooShort)
    } else if b.last() != TERMINATOR {
        Err(DecodeError::MissingTerminator)
    } else {
        match PackageType::spec_from_code(b[0]) {
            None => Err(DecodeError::UnknownType),
            Some(t) => Ok(PackageView { pack_type: t, data: b.subrange(1, b.len() - 1) }),
        }
    }
}

/// Decoding result of a frame, taken to its mathematical value.
pub open spec fn decoded_view(r: Result<Package, DecodeError>) -> Result<PackageView, DecodeError> {
    match r {
        Ok(p) => Ok(p@),
        Err(e) => Err(e),
    }
}

/// Decodes the bytes of `data` in `lo..hi`.
pub fn decode_range(data: &[u8], lo: usize, hi: usize) -> (r: Result<Package, DecodeError>)
    requires
        lo <= hi <= data@.len(),
    ensures
        decoded_view(r) == spec_decode(data@.subrange(lo as int, hi as int)),
{
    let ghost b = data@.subrange(lo as int, hi as int);
    if hi - lo < BASIC_PACKAGE_SIZE {
        return Err(DecodeError::TooShort);
    }
    if data[hi - 1] != TERMINATOR {
        return Err(DecodeError::MissingTerminator);
    }
    match PackageType::from_code(data[lo]) {
        None => Err(DecodeError::UnknownType),
        Some(t) => {
            let mut payload: Vec<u8> = Vec::with_capacity(hi - lo - 2);
            let mut i: usize = lo + 1;
            while i < hi - 1
                invariant
                    lo + 1 <= i <= hi - 1,
                    hi <= data@.len(),
                    payload@ == data@.subrange(lo + 1, i as int),
                decreases hi - 1 - i,
            {
                payload.push(data[i]);
                i = i + 1;
                proof {
                    assert(payload@ =~= data@.subrange(lo + 1, i as int));
                }
            }
            assert(payload@ =~= b.subrange(1, b.len() - 1));
            Ok(Package { pack_type: t, data: payload })
        },
    }
}

impl Package {
    /// A package of the given type whose payload is `data`, or `S` zero bytes when `data` is `None`.
    pub fn new<const S: usize>(package_type: PackageType, data: Option<[u8; S]>) -> (r: Package)
        ensures
            r@.pack_type == package_type,
            r@.data == match data {
                Some(a) => a@,
                None => Seq::new(S as nat, |i: int| 0u8),
            },
    {
        let mut payload: Vec<u8> = Vec::with_capacity(S);
        let mut i: usize = 0;
        while i < S
            invariant
                i <= S,
                payload@.len() == i,
                forall|k: int|
                    0 <= k < i ==> payload@[k] == match data {
                        Some(a) => a@[k],
                        None => 0u8,
                    },
            decreases S - i,
        {
            match &data {
                Some(a) => payload.push(a[i]),
                None => payload.push(0u8),
            }
            i = i + 1;
        }
        let r = Package { pack_type: package_type, data: payload };
        proof {
            match data {
                Some(a) => {
                    assert(r@.data =~= a@);
                },
                None => {
                    assert(r@.data =~= Seq::new(S as nat, |i: int| 0u8));
                },
            }
        }
        r
    }

    /// A package of the given type carrying a copy of `data` as its payload.
    pub fn from_data(package_type: PackageType, data: &[u8]) -> (r: Package)
        ensures
            r@ == (PackageView { pack_type: package_type, data: data@ }),
    {
        let mut payload: Vec<u8> = Vec::with_capacity(data.len());
        let mut i: usize = 0;
        while i < data.len()
            invariant
                i <= data@.len(),
                payload@ == data@.subrange(0, i as int),
            decreases data@.len() - i,
        {
            payload.push(data[i]);
            i = i + 1;
            proof {
                assert(payload@ =~= data@.subrange(0, i as int));
            }
        }
        assert(payload@ =~= data@);
        Package { pack_type: package_type, data: payload }
    }

    /// Decodes one whole frame.
    pub fn from(data: &[u8]) -> (r: Result<Package, DecodeError>)
        ensures
            decoded_view(r) == spec_decode(data@),
    {
        assert(data@.subrange(0, data@.len() as int) =~= data@);
        decode_range(data, 0, data.len())
    }

    /// The wire form of this package.
    pub fn encode(&self) -> (r: VecDeque<u8>)
        ensures
            r@ == spec_encode(self@),
    {
        let mut out: VecDeque<u8> = VecDeque::with_capacity(self.data.len());
        out.push_back(self.pack_type.code());
        let mut i: usize = 0;
        while i < self.data.len()
            invariant
                i <= self.data@.len(),
                out@ == seq![self.pack_type.spec_code()] + self.data@.subrange(0, i as int),
            decreases self.data@.len() - i,
        {
            out.push_back(self.data[i]);
            i = i + 1;
            proof {
                assert(out@ =~= seq![self.pack_type.spec_code()] + self.data@.subrange(0, i as int));
            }
        }
        out.push_back(TERMINATOR);
        assert(self.data@.subrange(0, self.data@.len() as int) =~= self.data@);
        out
    }

    pub fn pack_type(&self) -> (r: PackageType)
        ensures
            r == self@.pack_type,
    {
        self.pack_type
    }

    pub fn data(&self) -> (r: &Vec<u8>)
        ensures
            r@ == self@.data,
    {
        &self.data
    }
}

/// Decoding the encoding of a package with a non-empty payload gives that package back.
pub proof fn lemma_decode_encode(p: PackageView)
    requires
        p.data.len() >= 1,
    ensures
        spec_decode(spec_encode(p)) == Ok::<PackageView, DecodeError>(p),
{
    let e = spec_encode(p);
    assert(e.len() == p.data.len() + 2);
    assert(e.last() == TERMINATOR);
    assert(e[0] == p.pack_type.spec_code());
    assert(PackageType::spec_from_code(p.pack_type.spec_code()) == Some(p.pack_type));
    assert(e.subrange(1, e.len() - 1) =~= p.data);
}

/// Every buffer shorter than the smallest frame is rejected as too short.
pub proof fn lemma_short_rejected(b: Seq<u8>)
    requires
        b.len() < BASIC_PACKAGE_SIZE,
    ensures
        spec_decode(b) == Err::<PackageView, DecodeError>(DecodeError::TooShort),
{
}

/// A buffer long enough whose last byte is not the terminator is rejected for that.
pub proof fn lemma_unterminated_rejected(b: Seq<u8>)
    requires
        b.len() >= BASIC_PACKAGE_SIZE,
        b.last() != TERMINATOR,
    ensures
        spec_decode(b) == Err::<PackageView, DecodeError>(DecodeError::MissingTerminator),
{
}

/// A terminated buffer whose first byte is no opcode is rejected as of unknown type.
pub proof fn lemma_unknown_opcode_rejected(b: Seq<u8>)
    requires
        b.len() >= BASIC_PACKAGE_SIZE,
        b.last() == TERMINATOR,
        PackageType::spec_from_code(b[0]) is None,
    ensures
        spec_decode(b) == Err::<PackageView, DecodeError>(DecodeError::UnknownType),
{
}

/// The reserved opcodes are no opcodes.
pub proof fn lemma_reserved_opcodes_unknown()
    ensures
        PackageType::spec_from_code(0x2) is None,
        PackageType::spec_from_code(0x6) is None,
        forall|b: u8| b > 0xe ==> (#[trigger] PackageType::spec_from_code(b)) is None,
{
}

} // verus!
