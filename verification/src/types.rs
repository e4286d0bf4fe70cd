use vstd::prelude::*;

verus! {

/// A time tag in an OSC bundle or message: two 32-bit integers, the first the
/// number of seconds since 1900-01-01T00:00:00Z, the second the fraction of a
/// second scaled by 2^32. Every bit pattern is a meaningful absolute time.
#[derive(Debug, Clone, Copy, PartialEq, Eq, Structural, PartialOrd, Ord, Hash)]
pub struct OscTime {
    pub seconds: u32,
    pub fractional: u32,
}

/// Seconds between the OSC epoch (1900-01-01) and the Unix epoch (1970-01-01).
pub const UNIX_OFFSET: u64 = 2_208_988_800;

/// What a civil-time fraction of a second becomes as a 32.32 fixed-point
/// fraction: `nanos * 2^32 / 10^9`, rounded to nearest.
pub open spec fn frac_from_nanos(nanos: int) -> int {
    (nanos * 0x1_0000_0000 + 500_000_000) / 1_000_000_000
}

/// What a 32.32 fixed-point fraction of a second becomes in nanoseconds:
/// `frac * 10^9 / 2^32`, rounded to nearest.
pub open spec fn nanos_from_frac(frac: int) -> int {
    (frac * 1_000_000_000 + 0x8000_0000) / 0x1_0000_0000
}

/// An error returned by conversions involving [`OscTime`].
#[derive(Debug)]
pub struct OscTimeError(pub OscTimeErrorKind);

#[derive(Debug, Clone, Copy, PartialEq, Eq, Structural)]
pub enum OscTimeErrorKind {
    /// The civil time predates the Unix epoch, the floor chosen so that the
    /// conversion arithmetic stays within 32 bits of seconds.
    BeforeEpoch,
    /// The resulting seconds value would not fit in 32 bits.
    Overflow,
}

impl OscTime {
    /// Converts civil time, given as seconds since the Unix epoch (negative
    /// for earlier times) and nanoseconds within the second, to an OSC time.
    ///
    /// Fails with `BeforeEpoch` for times before 1970 and with `Overflow`
    /// when the OSC seconds field would not fit in 32 bits; otherwise the
    /// seconds are shifted onto the 1900 epoch and the nanoseconds are scaled
    /// by 2^32 and rounded to nearest.
    pub fn try_from_unix(seconds: i64, nanos: u32) -> (r: Result<OscTime, OscTimeError>)
        requires
            nanos < 1_000_000_000,
        ensures
            seconds < 0 ==> (r matches Err(e) && e.0 == OscTimeErrorKind::BeforeEpoch),
            seconds >= 0 && seconds + UNIX_OFFSET > u32::MAX ==> (r matches Err(e) && e.0
                == OscTimeErrorKind::Overflow),
            seconds >= 0 && seconds + UNIX_OFFSET <= u32::MAX ==> (r matches Ok(t) && t.seconds
                == seconds + UNIX_OFFSET && t.fractional == frac_from_nanos(nanos as int)),
    {
        if seconds < 0 {
            return Err(OscTimeError(OscTimeErrorKind::BeforeEpoch));
        }
        let shifted: u64 = (seconds as u64) + UNIX_OFFSET;
        if shifted > u32::MAX as u64 {
            return Err(OscTimeError(OscTimeErrorKind::Overflow));
        }
        let scaled: u64 = (nanos as u64) * 0x1_0000_0000u64 + 500_000_000u64;
        let fractional: u64 = scaled / 1_000_000_000u64;
        assert(fractional <= u32::MAX) by (nonlinear_arith)
            requires
                scaled == nanos * 0x1_0000_0000u64 + 500_000_000u64,
                fractional == scaled / 1_000_000_000u64,
                nanos < 1_000_000_000,
        ;
        Ok(OscTime { seconds: shifted as u32, fractional: fractional as u32 })
    }

    /// Converts this OSC time to civil time: seconds since the Unix epoch
    /// (negative for OSC times before 1970) and nanoseconds within the
    /// second, the fraction scaled by 10^9 / 2^32 and rounded to nearest.
    /// A fraction that rounds to a whole second carries into the seconds.
    pub fn to_unix(self) -> (r: (i64, u32))
        ensures
            r.1 < 1_000_000_000,
            ({
                let total = nanos_from_frac(self.fractional as int);
                if total == 1_000_000_000 {
                    r.0 == self.seconds - UNIX_OFFSET + 1 && r.1 == 0
                } else {
                    r.0 == self.seconds - UNIX_OFFSET && r.1 == total
                }
            }),
    {
        let scaled: u64 = (self.fractional as u64) * 1_000_000_000u64 + 0x8000_0000u64;
        let total: u64 = scaled / 0x1_0000_0000u64;
        assert(total <= 1_000_000_000) by (nonlinear_arith)
            requires
                scaled == self.fractional * 1_000_000_000u64 + 0x8000_0000u64,
                total == scaled / 0x1_0000_0000u64,
                self.fractional <= u32::MAX,
        ;
        let seconds: i64 = (self.seconds as i64) - (UNIX_OFFSET as i64);
        if total == 1_000_000_000u64 {
            (seconds + 1, 0)
        } else {
            (seconds, total as u32)
        }
    }
}

/// Represents the parts of a Midi message. Mainly used for
/// tunneling midi over a network using the OSC protocol.
#[derive(Clone, Debug, PartialEq, Eq, Structural)]
pub struct OscMidiMessage {
    pub port: u8,
    pub status: u8,
    pub data1: u8,
    pub data2: u8,
}

/// An RGBA color.
#[derive(Clone, Debug, PartialEq, Eq, Structural)]
pub struct OscColor {
    pub red: u8,
    pub green: u8,
    pub blue: u8,
    pub alpha: u8,
}

/// An OSC argument: one case per wire-level argument kind.
///
/// `Float` and `Double` carry the IEEE 754 bit pattern of the value (what
/// `f32::to_bits` / `f64::to_bits` give), since the wire format transmits
/// exactly those bits and equality on arguments is bit-for-bit.
#[derive(Debug)]
pub enum OscType {
    Int(i32),
    Float(u32),
    String(String),
    Blob(Vec<u8>),
    Time(OscTime),
    Long(i64),
    Double(u64),
    Char(char),
    Color(OscColor),
    Midi(OscMidiMessage),
    Bool(bool),
    Array(OscArray),
    Nil,
    Inf,
}

/// An ordered sequence of arguments transmitted as one `[`...`]` group.
#[derive(Debug)]
pub struct OscArray {
    pub content: Vec<OscType>,
}

/// An OSC message consists of an address and zero or more arguments.
#[derive(Debug)]
pub struct OscMessage {
    pub addr: String,
    pub args: Vec<OscType>,
}

/// An OSC bundle contains zero or more OSC packets and a time tag at which
/// the contained packets should be applied.
#[derive(Debug)]
pub struct OscBundle {
    pub timetag: OscTime,
    pub content: Vec<OscPacket>,
}

/// An *osc packet* can contain an *osc message* or a bundle of nested packets
/// which is called *osc bundle*. This is the root of every encode or decode.
#[derive(Debug)]
pub enum OscPacket {
    Message(OscMessage),
    Bundle(OscBundle),
}

/// The mathematical value of an [`OscType`]: strings as character sequences,
/// blobs as byte sequences, arrays as sequences of values.
#[verifier::ext_equal]
pub enum OscTypeV {
    Int(i32),
    Float(u32),
    String(Seq<char>),
    Blob(Seq<u8>),
    Time(OscTime),
    Long(i64),
    Double(u64),
    Char(char),
    Color(OscColor),
    Midi(OscMidiMessage),
    Bool(bool),
    Array(Seq<OscTypeV>),
    Nil,
    Inf,
}

/// The mathematical value of an [`OscMessage`].
#[verifier::ext_equal]
pub struct OscMessageV {
    pub addr: Seq<char>,
    pub args: Seq<OscTypeV>,
}

/// The mathematical value of an [`OscBundle`].
#[verifier::ext_equal]
pub struct OscBundleV {
    pub timetag: OscTime,
    pub content: Seq<OscPacketV>,
}

/// The mathematical value of an [`OscPacket`].
#[verifier::ext_equal]
pub enum OscPacketV {
    Message(OscMessageV),
    Bundle(OscBundleV),
}

impl OscType {
    /// The mathematical value of this argument.
    pub open spec fn vw(self) -> OscTypeV
        decreases self,
    {
        match self {
            OscType::Int(x) => OscTypeV::Int(x),
            OscType::Float(x) => OscTypeV::Float(x),
            OscType::String(s) => OscTypeV::String(s@),
            OscType::Blob(b) => OscTypeV::Blob(b@),
            OscType::Time(t) => OscTypeV::Time(t),
            OscType::Long(x) => OscTypeV::Long(x),
            OscType::Double(x) => OscTypeV::Double(x),
            OscType::Char(c) => OscTypeV::Char(c),
            OscType::Color(c) => OscTypeV::Color(c),
            OscType::Midi(m) => OscTypeV::Midi(m),
            OscType::Bool(b) => OscTypeV::Bool(b),
            OscType::Array(a) => OscTypeV::Array(vw_args(a.content@)),
            OscType::Nil => OscTypeV::Nil,
            OscType::Inf => OscTypeV::Inf,
        }
    }
}

/// The mathematical value of a sequence of arguments, element by element.
pub open spec fn vw_args(s: Seq<OscType>) -> Seq<OscTypeV>
    decreases s,
{
    if s.len() == 0 {
        Seq::empty()
    } else {
        vw_args(s.drop_last()).push(s.last().vw())
    }
}

impl OscMessage {
    /// The mathematical value of this message.
    pub open spec fn vw(self) -> OscMessageV {
        OscMessageV { addr: self.addr@, args: vw_args(self.args@) }
    }
}

impl OscBundle {
    /// The mathematical value of this bundle.
    pub open spec fn vw(self) -> OscBundleV
        decreases self,
    {
        OscBundleV { timetag: self.timetag, content: vw_packets(self.content@) }
    }
}

/// The mathematical value of a sequence of packets, element by element.
pub open spec fn vw_packets(s: Seq<OscPacket>) -> Seq<OscPacketV>
    decreases s,
{
    if s.len() == 0 {
        Seq::empty()
    } else {
        vw_packets(s.drop_last()).push(s.last().vw())
    }
}

impl OscPacket {
    /// The mathematical value of this packet.
    pub open spec fn vw(self) -> OscPacketV
        decreases self,
    {
        match self {
            OscPacket::Message(m) => OscPacketV::Message(m.vw()),
            OscPacket::Bundle(b) => OscPacketV::Bundle(
                OscBundleV { timetag: b.timetag, content: vw_packets(b.content@) },
            ),
        }
    }
}

impl View for OscType {
    type V = OscTypeV;

    open spec fn view(&self) -> OscTypeV {
        self.vw()
    }
}

impl View for OscArray {
    type V = Seq<OscTypeV>;

    open spec fn view(&self) -> Seq<OscTypeV> {
        vw_args(self.content@)
    }
}

impl View for OscMessage {
    type V = OscMessageV;

    open spec fn view(&self) -> OscMessageV {
        self.vw()
    }
}

impl View for OscBundle {
    type V = OscBundleV;

    open spec fn view(&self) -> OscBundleV {
        self.vw()
    }
}

impl View for OscPacket {
    type V = OscPacketV;

    open spec fn view(&self) -> OscPacketV {
        self.vw()
    }
}

/// The value sequence of a sequence of arguments is its pointwise image.
pub proof fn lemma_vw_args(s: Seq<OscType>)
    ensures
        vw_args(s).len() == s.len(),
        forall|i: int|
            #![trigger vw_args(s)[i]]
            #![trigger s[i].vw()]
            0 <= i < s.len() ==> vw_args(s)[i] == s[i].vw(),
    decreases s,
{
    if s.len() > 0 {
        lemma_vw_args(s.drop_last());
        assert forall|i: int| 0 <= i < s.len() implies vw_args(s)[i] == #[trigger] s[i].vw()
        by {
            if i < s.len() - 1 {
                assert(s.drop_last()[i] == s[i]);
                assert(vw_args(s)[i] == vw_args(s.drop_last())[i]);
            } else {
                assert(s[i] == s.last());
            }
        }
    }
}

/// The value sequence of a sequence of packets is its pointwise image.
pub proof fn lemma_vw_packets(s: Seq<OscPacket>)
    ensures
        vw_packets(s).len() == s.len(),
        forall|i: int|
            #![trigger vw_packets(s)[i]]
            #![trigger s[i].vw()]
            0 <= i < s.len() ==> vw_packets(s)[i] == s[i].vw(),
    decreases s,
{
    if s.len() > 0 {
        lemma_vw_packets(s.drop_last());
        assert forall|i: int| 0 <= i < s.len() implies vw_packets(s)[i] == #[trigger] s[i].vw()
        by {
            if i < s.len() - 1 {
                assert(s.drop_last()[i] == s[i]);
                assert(vw_packets(s)[i] == vw_packets(s.drop_last())[i]);
            } else {
                assert(s[i] == s.last());
            }
        }
    }
}


fn clone_bytes(v: &Vec<u8>) -> (r: Vec<u8>)
    ensures
        r@ == v@,
{
    let mut out: Vec<u8> = Vec::new();
    let n = v.len();
    for i in 0..n
        invariant
            n == v.len(),
            out@ == v@.take(i as int),
        decreases n - i,
    {
        out.push(v[i]);
        proof {
            assert(out@ =~= v@.take(i + 1));
        }
    }
    proof {
        assert(out@ =~= v@);
    }
    out
}

fn clone_type(v: &OscType) -> (r: OscType)
    ensures
        r.vw() == v.vw(),
    decreases v,
{
    match v {
        OscType::Int(x) => OscType::Int(*x),
        OscType::Float(x) => OscType::Float(*x),
        OscType::String(s) => OscType::String(s.clone()),
        OscType::Blob(b) => OscType::Blob(clone_bytes(b)),
        OscType::Time(t) => OscType::Time(*t),
        OscType::Long(x) => OscType::Long(*x),
        OscType::Double(x) => OscType::Double(*x),
        OscType::Char(c) => OscType::Char(*c),
        OscType::Color(c) => OscType::Color(
            OscColor { red: c.red, green: c.green, blue: c.blue, alpha: c.alpha },
        ),
        OscType::Midi(m) => OscType::Midi(
            OscMidiMessage { port: m.port, status: m.status, data1: m.data1, data2: m.data2 },
        ),
        OscType::Bool(b) => OscType::Bool(*b),
        OscType::Array(a) => OscType::Array(OscArray { content: clone_args(&a.content) }),
        OscType::Nil => OscType::Nil,
        OscType::Inf => OscType::Inf,
    }
}

fn clone_args(v: &Vec<OscType>) -> (r: Vec<OscType>)
    ensures
        vw_args(r@) == vw_args(v@),
    decreases v@,
{
    let mut out: Vec<OscType> = Vec::new();
    let n = v.len();
    for i in 0..n
        invariant
            n == v.len(),
            out.len() == i,
            forall|j: int| 0 <= j < i ==> out@[j].vw() == #[trigger] v@[j].vw(),
        decreases n - i,
    {
        let c = clone_type(&v[i]);
        out.push(c);
    }
    proof {
        lemma_vw_args(out@);
        lemma_vw_args(v@);
        assert(vw_args(out@) =~= vw_args(v@));
    }
    out
}

fn clone_packet(v: &OscPacket) -> (r: OscPacket)
    ensures
        r.vw() == v.vw(),
    decreases v,
{
    match v {
        OscPacket::Message(m) => OscPacket::Message(
            OscMessage { addr: m.addr.clone(), args: clone_args(&m.args) },
        ),
        OscPacket::Bundle(b) => OscPacket::Bundle(
            OscBundle { timetag: b.timetag, content: clone_packets(&b.content) },
        ),
    }
}

fn clone_packets(v: &Vec<OscPacket>) -> (r: Vec<OscPacket>)
    ensures
        vw_packets(r@) == vw_packets(v@),
    decreases v@,
{
    let mut out: Vec<OscPacket> = Vec::new();
    let n = v.len();
    for i in 0..n
        invariant
            n == v.len(),
            out.len() == i,
            forall|j: int| 0 <= j < i ==> out@[j].vw() == #[trigger] v@[j].vw(),
        decreases n - i,
    {
        let c = clone_packet(&v[i]);
        out.push(c);
    }
    proof {
        lemma_vw_packets(out@);
        lemma_vw_packets(v@);
        assert(vw_packets(out@) =~= vw_packets(v@));
    }
    out
}

impl Clone for OscType {
    /// A clone denotes the same mathematical value.
    fn clone(&self) -> (r: Self)
        ensures
            r.vw() == self.vw(),
    {
        clone_type(self)
    }
}

impl Clone for OscArray {
    /// A clone denotes the same mathematical value.
    fn clone(&self) -> (r: Self)
        ensures
            r@ == self@,
    {
        OscArray { content: clone_args(&self.content) }
    }
}

impl Clone for OscMessage {
    /// A clone denotes the same mathematical value.
    fn clone(&self) -> (r: Self)
        ensures
            r@ == self@,
    {
        OscMessage { addr: self.addr.clone(), args: clone_args(&self.args) }
    }
}

impl Clone for OscBundle {
    /// A clone denotes the same mathematical value.
    fn clone(&self) -> (r: Self)
        ensures
            r@ == self@,
    {
        OscBundle { timetag: self.timetag, content: clone_packets(&self.content) }
    }
}

impl Clone for OscPacket {
    /// A clone denotes the same mathematical value.
    fn clone(&self) -> (r: Self)
        ensures
            r.vw() == self.vw(),
    {
        clone_packet(self)
    }
}

fn eq_bytes(a: &Vec<u8>, b: &Vec<u8>) -> (r: bool)
    ensures
        r == (a@ == b@),
{
    if a.len() != b.len() {
        return false;
    }
    let n = a.len();
    for i in 0..n
        invariant
            n == a.len() == b.len(),
            forall|j: int| 0 <= j < i ==> a@[j] == b@[j],
        decreases n - i,
    {
        if a[i] != b[i] {
            return false;
        }
    }
    proof {
        assert(a@ =~= b@);
    }
    true
}



proof fn probe_vw2(x: &OscType, y: &OscType)
    requires
        x matches OscType::Int(a) && y matches OscType::Int(b) && a == b,
    ensures
        x.vw() == y.vw(),
{
}

fn probe_vw3(x: &OscType, y: &OscType) -> (r: bool)
    ensures
        r ==> x.vw() == y.vw(),
{
    if let OscType::Int(a) = x {
        if let OscType::Int(b) = y {
            return *a == *b;
        }
    }
    false
}


fn eq_type(x: &OscType, y: &OscType) -> (r: bool)
    ensures
        r == (x.vw() == y.vw()),
    decreases x,
{
    match x {
        OscType::Int(a) => if let OscType::Int(b) = y { *a == *b } else { false },
        OscType::Float(a) => if let OscType::Float(b) = y { *a == *b } else { false },
        OscType::String(a) => if let OscType::String(b) = y { *a == *b } else { false },
        OscType::Blob(a) => if let OscType::Blob(b) = y { eq_bytes(a, b) } else { false },
        OscType::Time(a) => if let OscType::Time(b) = y { *a == *b } else { false },
        OscType::Long(a) => if let OscType::Long(b) = y { *a == *b } else { false },
        OscType::Double(a) => if let OscType::Double(b) = y { *a == *b } else { false },
        OscType::Char(a) => if let OscType::Char(b) = y { *a == *b } else { false },
        OscType::Color(a) => if let OscType::Color(b) = y { a == b } else { false },
        OscType::Midi(a) => if let OscType::Midi(b) = y { a == b } else { false },
        OscType::Bool(a) => if let OscType::Bool(b) = y { *a == *b } else { false },
        OscType::Array(a) => if let OscType::Array(b) = y {
            eq_args(&a.content, &b.content)
        } else {
            false
        },
        OscType::Nil => matches!(y, OscType::Nil),
        OscType::Inf => matches!(y, OscType::Inf),
    }
}

fn eq_args(a: &Vec<OscType>, b: &Vec<OscType>) -> (r: bool)
    ensures
        r == (vw_args(a@) == vw_args(b@)),
    decreases a@,
{
    proof {
        lemma_vw_args(a@);
        lemma_vw_args(b@);
    }
    if a.len() != b.len() {
        return false;
    }
    let n = a.len();
    for i in 0..n
        invariant
            n == a.len() == b.len(),
            forall|j: int| 0 <= j < i ==> #[trigger] vw_args(a@)[j] == vw_args(b@)[j],
            vw_args(a@).len() == n && vw_args(b@).len() == n,
            forall|j: int| 0 <= j < n ==> vw_args(a@)[j] == #[trigger] a@[j].vw(),
            forall|j: int| 0 <= j < n ==> vw_args(b@)[j] == #[trigger] b@[j].vw(),
        decreases n - i,
    {
        if !eq_type(&a[i], &b[i]) {
            return false;
        }
    }
    proof {
        assert(vw_args(a@) =~= vw_args(b@));
    }
    true
}

fn eq_packet(x: &OscPacket, y: &OscPacket) -> (r: bool)
    ensures
        r == (x.vw() == y.vw()),
    decreases x,
{
    match x {
        OscPacket::Message(a) => if let OscPacket::Message(b) = y {
            a.addr == b.addr && eq_args(&a.args, &b.args)
        } else {
            false
        },
        OscPacket::Bundle(a) => if let OscPacket::Bundle(b) = y {
            a.timetag == b.timetag && eq_packets(&a.content, &b.content)
        } else {
            false
        },
    }
}

fn eq_packets(a: &Vec<OscPacket>, b: &Vec<OscPacket>) -> (r: bool)
    ensures
        r == (vw_packets(a@) == vw_packets(b@)),
    decreases a@,
{
    proof {
        lemma_vw_packets(a@);
        lemma_vw_packets(b@);
    }
    if a.len() != b.len() {
        return false;
    }
    let n = a.len();
    for i in 0..n
        invariant
            n == a.len() == b.len(),
            forall|j: int| 0 <= j < i ==> #[trigger] vw_packets(a@)[j] == vw_packets(b@)[j],
            vw_packets(a@).len() == n && vw_packets(b@).len() == n,
            forall|j: int| 0 <= j < n ==> vw_packets(a@)[j] == #[trigger] a@[j].vw(),
            forall|j: int| 0 <= j < n ==> vw_packets(b@)[j] == #[trigger] b@[j].vw(),
        decreases n - i,
    {
        if !eq_packet(&a[i], &b[i]) {
            return false;
        }
    }
    proof {
        assert(vw_packets(a@) =~= vw_packets(b@));
    }
    true
}

impl PartialEq for OscType {
    /// Structural equality: equal exactly when the mathematical values agree,
    /// floats compared bit for bit.
    fn eq(&self, other: &Self) -> (r: bool) {
        eq_type(self, other)
    }
}

impl vstd::std_specs::cmp::PartialEqSpecImpl for OscType {
    open spec fn obeys_eq_spec() -> bool {
        true
    }

    open spec fn eq_spec(&self, other: &Self) -> bool {
        self.vw() == other.vw()
    }
}

impl PartialEq for OscArray {
    /// Structural equality of the content sequences.
    fn eq(&self, other: &Self) -> (r: bool) {
        eq_args(&self.content, &other.content)
    }
}

impl vstd::std_specs::cmp::PartialEqSpecImpl for OscArray {
    open spec fn obeys_eq_spec() -> bool {
        true
    }

    open spec fn eq_spec(&self, other: &Self) -> bool {
        self@ == other@
    }
}

impl PartialEq for OscMessage {
    /// Structural equality: same address and pointwise equal arguments.
    fn eq(&self, other: &Self) -> (r: bool) {
        self.addr == other.addr && eq_args(&self.args, &other.args)
    }
}

impl vstd::std_specs::cmp::PartialEqSpecImpl for OscMessage {
    open spec fn obeys_eq_spec() -> bool {
        true
    }

    open spec fn eq_spec(&self, other: &Self) -> bool {
        self@ == other@
    }
}

impl PartialEq for OscBundle {
    /// Structural equality: same time tag and pointwise equal content.
    fn eq(&self, other: &Self) -> (r: bool) {
        self.timetag == other.timetag && eq_packets(&self.content, &other.content)
    }
}

impl vstd::std_specs::cmp::PartialEqSpecImpl for OscBundle {
    open spec fn obeys_eq_spec() -> bool {
        true
    }

    open spec fn eq_spec(&self, other: &Self) -> bool {
        self@ == other@
    }
}

impl PartialEq for OscPacket {
    /// Structural equality of the packet trees.
    fn eq(&self, other: &Self) -> (r: bool) {
        eq_packet(self, other)
    }
}

impl vstd::std_specs::cmp::PartialEqSpecImpl for OscPacket {
    open spec fn obeys_eq_spec() -> bool {
        true
    }

    open spec fn eq_spec(&self, other: &Self) -> bool {
        self.vw() == other.vw()
    }
}


/// Appending an argument appends its mathematical value.
pub proof fn lemma_vw_args_push(s: Seq<OscType>, x: OscType)
    ensures
        vw_args(s.push(x)) == vw_args(s).push(x.vw()),
{
    assert(s.push(x).drop_last() =~= s);
    assert(s.push(x).last() == x);
}

/// Appending a packet appends its mathematical value.
pub proof fn lemma_vw_packets_push(s: Seq<OscPacket>, x: OscPacket)
    ensures
        vw_packets(s.push(x)) == vw_packets(s).push(x.vw()),
{
    assert(s.push(x).drop_last() =~= s);
    assert(s.push(x).last() == x);
}


/// Time tolerance, civil side: scaling nanoseconds to a 32.32 fraction and
/// back reproduces them exactly, so a civil time survives the round trip
/// through an OSC time with zero nanosecond error.
pub proof fn lemma_unix_time_roundtrip(n: int)
    requires
        0 <= n < 1_000_000_000,
    ensures
        nanos_from_frac(frac_from_nanos(n)) == n,
{
    let f = frac_from_nanos(n);
    vstd::arithmetic::div_mod::lemma_fundamental_div_mod(
        n * 0x1_0000_0000 + 500_000_000,
        1_000_000_000,
    );
    vstd::arithmetic::div_mod::lemma_fundamental_div_mod(
        f * 1_000_000_000 + 0x8000_0000,
        0x1_0000_0000,
    );
}

/// Time tolerance, OSC side: scaling a 32.32 fraction to nanoseconds and
/// back moves it by at most 3 units of the fraction, about 0.7 nanoseconds —
/// well within the documented 5 nanosecond tolerance. Fractions so large
/// that their nanoseconds round up to a whole second carry into the seconds
/// instead and are excluded here.
pub proof fn lemma_osc_time_roundtrip(f: int)
    requires
        0 <= f <= u32::MAX,
        nanos_from_frac(f) < 1_000_000_000,
    ensures
        -3 <= frac_from_nanos(nanos_from_frac(f)) - f <= 3,
{
    let n = nanos_from_frac(f);
    vstd::arithmetic::div_mod::lemma_fundamental_div_mod(
        f * 1_000_000_000 + 0x8000_0000,
        0x1_0000_0000,
    );
    vstd::arithmetic::div_mod::lemma_fundamental_div_mod(
        n * 0x1_0000_0000 + 500_000_000,
        1_000_000_000,
    );
}


impl From<i32> for OscType {
    /// Wraps the value as its argument kind.
    fn from(v: i32) -> (r: OscType) {
        OscType::Int(v)
    }
}

impl vstd::std_specs::convert::FromSpecImpl<i32> for OscType {
    open spec fn obeys_from_spec() -> bool {
        true
    }

    open spec fn from_spec(v: i32) -> OscType {
        OscType::Int(v)
    }
}

impl From<i64> for OscType {
    /// Wraps the value as its argument kind.
    fn from(v: i64) -> (r: OscType) {
        OscType::Long(v)
    }
}

impl vstd::std_specs::convert::FromSpecImpl<i64> for OscType {
    open spec fn obeys_from_spec() -> bool {
        true
    }

    open spec fn from_spec(v: i64) -> OscType {
        OscType::Long(v)
    }
}

impl From<String> for OscType {
    /// Wraps the value as its argument kind.
    fn from(v: String) -> (r: OscType) {
        OscType::String(v)
    }
}

impl vstd::std_specs::convert::FromSpecImpl<String> for OscType {
    open spec fn obeys_from_spec() -> bool {
        true
    }

    open spec fn from_spec(v: String) -> OscType {
        OscType::String(v)
    }
}

impl From<char> for OscType {
    /// Wraps the value as its argument kind.
    fn from(v: char) -> (r: OscType) {
        OscType::Char(v)
    }
}

impl vstd::std_specs::convert::FromSpecImpl<char> for OscType {
    open spec fn obeys_from_spec() -> bool {
        true
    }

    open spec fn from_spec(v: char) -> OscType {
        OscType::Char(v)
    }
}

impl From<OscColor> for OscType {
    /// Wraps the value as its argument kind.
    fn from(v: OscColor) -> (r: OscType) {
        OscType::Color(v)
    }
}

impl vstd::std_specs::convert::FromSpecImpl<OscColor> for OscType {
    open spec fn obeys_from_spec() -> bool {
        true
    }

    open spec fn from_spec(v: OscColor) -> OscType {
        OscType::Color(v)
    }
}

impl From<OscMidiMessage> for OscType {
    /// Wraps the value as its argument kind.
    fn from(v: OscMidiMessage) -> (r: OscType) {
        OscType::Midi(v)
    }
}

impl vstd::std_specs::convert::FromSpecImpl<OscMidiMessage> for OscType {
    open spec fn obeys_from_spec() -> bool {
        true
    }

    open spec fn from_spec(v: OscMidiMessage) -> OscType {
        OscType::Midi(v)
    }
}

impl From<bool> for OscType {
    /// Wraps the value as its argument kind.
    fn from(v: bool) -> (r: OscType) {
        OscType::Bool(v)
    }
}

impl vstd::std_specs::convert::FromSpecImpl<bool> for OscType {
    open spec fn obeys_from_spec() -> bool {
        true
    }

    open spec fn from_spec(v: bool) -> OscType {
        OscType::Bool(v)
    }
}

impl From<Vec<u8>> for OscType {
    /// Wraps the bytes as a blob argument.
    fn from(v: Vec<u8>) -> (r: OscType) {
        OscType::Blob(v)
    }
}

impl vstd::std_specs::convert::FromSpecImpl<Vec<u8>> for OscType {
    open spec fn obeys_from_spec() -> bool {
        true
    }

    open spec fn from_spec(v: Vec<u8>) -> OscType {
        OscType::Blob(v)
    }
}

impl From<OscArray> for OscType {
    /// Wraps the sequence as an array argument.
    fn from(v: OscArray) -> (r: OscType) {
        OscType::Array(v)
    }
}

impl vstd::std_specs::convert::FromSpecImpl<OscArray> for OscType {
    open spec fn obeys_from_spec() -> bool {
        true
    }

    open spec fn from_spec(v: OscArray) -> OscType {
        OscType::Array(v)
    }
}

impl From<(u32, u32)> for OscTime {
    /// Reinterprets the pair as seconds and fractional: lossless, total and
    /// bijective with [`From<OscTime>`] for pairs.
    fn from(time: (u32, u32)) -> (r: OscTime) {
        OscTime { seconds: time.0, fractional: time.1 }
    }
}

impl vstd::std_specs::convert::FromSpecImpl<(u32, u32)> for OscTime {
    open spec fn obeys_from_spec() -> bool {
        true
    }

    open spec fn from_spec(time: (u32, u32)) -> OscTime {
        OscTime { seconds: time.0, fractional: time.1 }
    }
}

impl From<OscTime> for (u32, u32) {
    /// Reinterprets the time as a pair: the inverse of [`From<(u32, u32)>`].
    fn from(time: OscTime) -> (r: (u32, u32)) {
        (time.seconds, time.fractional)
    }
}

impl vstd::std_specs::convert::FromSpecImpl<OscTime> for (u32, u32) {
    open spec fn obeys_from_spec() -> bool {
        true
    }

    open spec fn from_spec(time: OscTime) -> (u32, u32) {
        (time.seconds, time.fractional)
    }
}

impl From<(u32, u32)> for OscType {
    /// Wraps the pair as a time argument.
    fn from(time: (u32, u32)) -> (r: OscType) {
        OscType::Time(OscTime { seconds: time.0, fractional: time.1 })
    }
}

impl vstd::std_specs::convert::FromSpecImpl<(u32, u32)> for OscType {
    open spec fn obeys_from_spec() -> bool {
        true
    }

    open spec fn from_spec(time: (u32, u32)) -> OscType {
        OscType::Time(OscTime { seconds: time.0, fractional: time.1 })
    }
}

impl OscType {
    /// The wrapped float bit pattern, if this argument is a `Float`.
    pub fn float(self) -> (r: Option<u32>)
        ensures
            r == (if self is Float { Some(self->Float_0) } else { None::<u32> }),
    {
        match self {
            OscType::Float(v) => Some(v),
            _ => None,
        }
    }

    /// The wrapped long, if this argument is a `Long`.
    pub fn long(self) -> (r: Option<i64>)
        ensures
            r == (if self is Long { Some(self->Long_0) } else { None::<i64> }),
    {
        match self {
            OscType::Long(v) => Some(v),
            _ => None,
        }
    }

    /// The wrapped double bit pattern, if this argument is a `Double`.
    pub fn double(self) -> (r: Option<u64>)
        ensures
            r == (if self is Double { Some(self->Double_0) } else { None::<u64> }),
    {
        match self {
            OscType::Double(v) => Some(v),
            _ => None,
        }
    }

    /// The wrapped text, if this argument is a `String`.
    pub fn string(self) -> (r: Option<String>)
        ensures
            self is String ==> r == Some(self->String_0),
            !(self is String) ==> r is None,
    {
        match self {
            OscType::String(v) => Some(v),
            _ => None,
        }
    }

    /// The wrapped bytes, if this argument is a `Blob`.
    pub fn blob(self) -> (r: Option<Vec<u8>>)
        ensures
            self is Blob ==> r == Some(self->Blob_0),
            !(self is Blob) ==> r is None,
    {
        match self {
            OscType::Blob(v) => Some(v),
            _ => None,
        }
    }

    /// The wrapped array, if this argument is an `Array`.
    pub fn array(self) -> (r: Option<OscArray>)
        ensures
            self is Array ==> r == Some(self->Array_0),
            !(self is Array) ==> r is None,
    {
        match self {
            OscType::Array(v) => Some(v),
            _ => None,
        }
    }

    /// The wrapped character, if this argument is a `Char`.
    pub fn char(self) -> (r: Option<char>)
        ensures
            r == (if self is Char { Some(self->Char_0) } else { None::<char> }),
    {
        match self {
            OscType::Char(v) => Some(v),
            _ => None,
        }
    }

    /// The wrapped color, if this argument is a `Color`.
    pub fn color(self) -> (r: Option<OscColor>)
        ensures
            self is Color ==> r == Some(self->Color_0),
            !(self is Color) ==> r is None,
    {
        match self {
            OscType::Color(v) => Some(v),
            _ => None,
        }
    }

    /// The wrapped midi message, if this argument is a `Midi`.
    pub fn midi(self) -> (r: Option<OscMidiMessage>)
        ensures
            self is Midi ==> r == Some(self->Midi_0),
            !(self is Midi) ==> r is None,
    {
        match self {
            OscType::Midi(v) => Some(v),
            _ => None,
        }
    }

    /// The wrapped boolean, if this argument is a `Bool`.
    pub fn bool(self) -> (r: Option<bool>)
        ensures
            r == (if self is Bool { Some(self->Bool_0) } else { None::<bool> }),
    {
        match self {
            OscType::Bool(v) => Some(v),
            _ => None,
        }
    }

    /// The wrapped time tag, if this argument is a `Time`.
    pub fn time(self) -> (r: Option<OscTime>)
        ensures
            r == (if self is Time { Some(self->Time_0) } else { None::<OscTime> }),
    {
        match self {
            OscType::Time(time) => Some(time),
            _ => None,
        }
    }
}

} // verus!
