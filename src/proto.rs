//! The fixed-size datagram protocol spoken between a controller and the mixer.
use byteorder::{BigEndian, ByteOrder, LittleEndian};
use vstd::prelude::*;

verus! {

/// Size in bytes of every datagram.
pub const PACKET_SIZE: usize = 36;

/// `ArtParam` voice field value that addresses every voice.
pub const ALL_VOICES: u32 = 0xffff_ffff;

/// A decoded datagram.  Fields that travel as IEEE-754 single floats (`amp`,
/// `value`) are carried as their bit patterns.
#[allow(inconsistent_fields)]
#[derive(Debug, Clone, Copy, PartialEq, Eq)]
pub enum Command {
    KeepAlive,
    Ping { data: [u8; 32] },
    Quit,
    Play { sec: u32, usec: u32, freq: u32, amp: u32, voice: u32 },
    Caps { voices: u32, tp: [u8; 4], ident: [u8; 24] },
    PCM { samples: [i16; 16] },
    PCMSyn { buffered: u32 },
    ArtParam { voice: Option<u32>, index: u32, value: u32 },
    Unknown { data: [u8; 36] },
}

/// Mathematical model of a [`Command`]: arrays become sequences.
#[allow(inconsistent_fields)]
pub enum CommandView {
    KeepAlive,
    Ping { data: Seq<u8> },
    Quit,
    Play { sec: u32, usec: u32, freq: u32, amp: u32, voice: u32 },
    Caps { voices: u32, tp: Seq<u8>, ident: Seq<u8> },
    PCM { samples: Seq<i16> },
    PCMSyn { buffered: u32 },
    ArtParam { voice: Option<u32>, index: u32, value: u32 },
    Unknown { data: Seq<u8> },
}

impl View for Command {
    type V = CommandView;

    open spec fn view(&self) -> CommandView {
        match *self {
            Command::KeepAlive => CommandView::KeepAlive,
            Command::Ping { data } => CommandView::Ping { data: data@ },
            Command::Quit => CommandView::Quit,
            Command::Play { sec, usec, freq, amp, voice } => CommandView::Play {
                sec,
                usec,
                freq,
                amp,
                voice,
            },
            Command::Caps { voices, tp, ident } => CommandView::Caps {
                voices,
                tp: tp@,
                ident: ident@,
            },
            Command::PCM { samples } => CommandView::PCM { samples: samples@ },
            Command::PCMSyn { buffered } => CommandView::PCMSyn { buffered },
            Command::ArtParam { voice, index, value } => CommandView::ArtParam {
                voice,
                index,
                value,
            },
            Command::Unknown { data } => CommandView::Unknown { data: data@ },
        }
    }
}

/// Big-endian `u32` stored at `b[at..at + 4]`.
pub open spec fn be_u32(b: Seq<u8>, at: int) -> u32 {
    ((b[at] as u32) << 24u32) | ((b[at + 1] as u32) << 16u32) | ((b[at + 2] as u32) << 8u32) | (
    b[at + 3] as u32)
}

/// The four big-endian bytes of `n`.
pub open spec fn be_bytes(n: u32) -> Seq<u8> {
    seq![(n >> 24u32) as u8, (n >> 16u32) as u8, (n >> 8u32) as u8, n as u8]
}

/// Little-endian `i16` stored at `b[at..at + 2]`.
pub open spec fn le_i16(b: Seq<u8>, at: int) -> i16 {
    (((b[at + 1] as u16) << 8u16) | (b[at] as u16)) as i16
}

/// The two little-endian bytes of `n`.
pub open spec fn le_bytes(n: i16) -> Seq<u8> {
    seq![(n as u16) as u8, ((n as u16) >> 8u16) as u8]
}

/// The little-endian `i16` samples stored at `b[4..36]`.
pub open spec fn pcm_samples(b: Seq<u8>) -> Seq<i16> {
    Seq::new(16, |i: int| le_i16(b, 4 + 2 * i))
}

/// Concatenated little-endian encodings of `s`.
pub open spec fn pcm_bytes(s: Seq<i16>) -> Seq<u8>
    decreases s.len(),
{
    if s.len() == 0 {
        Seq::empty()
    } else {
        le_bytes(s[0]) + pcm_bytes(s.drop_first())
    }
}

pub open spec fn zeros(n: nat) -> Seq<u8> {
    Seq::new(n, |i: int| 0u8)
}

/// What a datagram of 36 bytes decodes to.
pub open spec fn decode_view(p: Seq<u8>) -> CommandView {
    let op = be_u32(p, 0);
    if op == 0 {
        CommandView::KeepAlive
    } else if op == 1 {
        CommandView::Ping { data: p.subrange(4, 36) }
    } else if op == 2 {
        CommandView::Quit
    } else if op == 3 {
        CommandView::Play {
            sec: be_u32(p, 4),
            usec: be_u32(p, 8),
            freq: be_u32(p, 12),
            amp: be_u32(p, 16),
            voice: be_u32(p, 20),
        }
    } else if op == 4 {
        CommandView::Caps { voices: be_u32(p, 4), tp: p.subrange(8, 12), ident: p.subrange(12, 36) }
    } else if op == 5 {
        CommandView::PCM { samples: pcm_samples(p) }
    } else if op == 6 {
        CommandView::PCMSyn { buffered: be_u32(p, 4) }
    } else if op == 7 {
        let v = be_u32(p, 4);
        CommandView::ArtParam {
            voice: if v == ALL_VOICES {
                None
            } else {
                Some(v)
            },
            index: be_u32(p, 8),
            value: be_u32(p, 12),
        }
    } else {
        CommandView::Unknown { data: p }
    }
}

/// The 36 bytes that encode a command; unused tails are zero.
pub open spec fn encode_view(c: CommandView) -> Seq<u8> {
    match c {
        CommandView::KeepAlive => be_bytes(0) + zeros(32),
        CommandView::Ping { data } => be_bytes(1) + data,
        CommandView::Quit => be_bytes(2) + zeros(32),
        CommandView::Play { sec, usec, freq, amp, voice } => be_bytes(3) + be_bytes(sec) + be_bytes(
            usec,
        ) + be_bytes(freq) + be_bytes(amp) + be_bytes(voice) + zeros(12),
        CommandView::Caps { voices, tp, ident } => be_bytes(4) + be_bytes(voices) + tp + ident,
        CommandView::PCM { samples } => be_bytes(5) + pcm_bytes(samples),
        CommandView::PCMSyn { buffered } => be_bytes(6) + be_bytes(buffered) + zeros(28),
        CommandView::ArtParam { voice, index, value } => be_bytes(7) + be_bytes(
            match voice {
                Some(v) => v,
                None => ALL_VOICES,
            },
        ) + be_bytes(index) + be_bytes(value) + zeros(20),
        CommandView::Unknown { data } => data,
    }
}

/// A command that survives a trip through its encoding: the sizes of its
/// arrays hold, an `ArtParam` names a single voice other than the broadcast
/// value, and unknown data carries an opcode that no other command uses.
pub open spec fn command_well_formed(c: CommandView) -> bool {
    match c {
        CommandView::Ping { data } => data.len() == 32,
        CommandView::Caps { tp, ident, .. } => tp.len() == 4 && ident.len() == 24,
        CommandView::PCM { samples } => samples.len() == 16,
        CommandView::ArtParam { voice, .. } => voice != Some(ALL_VOICES),
        CommandView::Unknown { data } => data.len() == 36 && be_u32(data, 0) > 7,
        _ => true,
    }
}

/// Whether `p[from..36]` is all zero.
pub open spec fn zero_tail(p: Seq<u8>, from: int) -> bool {
    forall|i: int| from <= i < 36 ==> p[i] == 0
}

/// A datagram whose unused tail is zero, as the encoder writes it.
pub open spec fn packet_well_formed(p: Seq<u8>) -> bool {
    let op = be_u32(p, 0);
    &&& p.len() == 36
    &&& (op == 0 || op == 2) ==> zero_tail(p, 4)
    &&& op == 3 ==> zero_tail(p, 24)
    &&& op == 6 ==> zero_tail(p, 8)
    &&& op == 7 ==> zero_tail(p, 16)
}

/// Relies on byteorder's `BigEndian::read_u32`: the first four bytes of the
/// slice, most significant first.
#[verifier::external_body]
fn read_be_u32(buf: &[u8; 36], at: usize) -> (r: u32)
    requires
        at + 4 <= 36,
    ensures
        r == be_u32(buf@, at as int),
{
    BigEndian::read_u32(&buf[at..])
}

/// Relies on byteorder's `BigEndian::write_u32`: writes the four bytes of `n`,
/// most significant first, at the start of the slice and nothing else.
#[verifier::external_body]
fn write_be_u32(buf: &mut [u8; 36], at: usize, n: u32)
    requires
        at + 4 <= 36,
    ensures
        final(buf)@ == old(buf)@.subrange(0, at as int) + be_bytes(n) + old(buf)@.subrange(
            at + 4,
            36,
        ),
{
    BigEndian::write_u32(&mut buf[at..], n)
}

/// Relies on byteorder's `LittleEndian::read_i16`: the first two bytes of the
/// slice, least significant first, as a two's complement value.
#[verifier::external_body]
fn read_le_i16(buf: &[u8; 36], at: usize) -> (r: i16)
    requires
        at + 2 <= 36,
    ensures
        r == le_i16(buf@, at as int),
{
    LittleEndian::read_i16(&buf[at..])
}

/// Relies on byteorder's `LittleEndian::write_i16`: writes the two bytes of
/// `n`, least significant first, at the start of the slice and nothing else.
#[verifier::external_body]
fn write_le_i16(buf: &mut [u8; 36], at: usize, n: i16)
    requires
        at + 2 <= 36,
    ensures
        final(buf)@ == old(buf)@.subrange(0, at as int) + le_bytes(n) + old(buf)@.subrange(
            at + 2,
            36,
        ),
{
    LittleEndian::write_i16(&mut buf[at..], n)
}


/// Copies `packet[at..at + 32]`.
fn bytes_32(packet: &[u8; 36], at: usize) -> (r: [u8; 32])
    requires
        at == 4,
    ensures
        r@ == packet@.subrange(at as int, at + 32),
{
    let mut r = [0u8; 32];
    let mut i: usize = 0;
    while i < 32
        invariant
            at == 4,
            i <= 32,
            r@.len() == 32,
            forall|j: int| 0 <= j < i ==> r@[j] == packet@[at + j],
        decreases 32 - i,
    {
        r[i] = packet[at + i];
        i += 1;
    }
    assert(r@ =~= packet@.subrange(at as int, at + 32));
    r
}

/// Copies `packet[8..12]`.
fn bytes_tag(packet: &[u8; 36]) -> (r: [u8; 4])
    ensures
        r@ == packet@.subrange(8, 12),
{
    let mut r = [0u8; 4];
    let mut i: usize = 0;
    while i < 4
        invariant
            i <= 4,
            r@.len() == 4,
            forall|j: int| 0 <= j < i ==> r@[j] == packet@[8 + j],
        decreases 4 - i,
    {
        r[i] = packet[8 + i];
        i += 1;
    }
    assert(r@ =~= packet@.subrange(8, 12));
    r
}

/// Copies `packet[12..36]`.
fn bytes_ident(packet: &[u8; 36]) -> (r: [u8; 24])
    ensures
        r@ == packet@.subrange(12, 36),
{
    let mut r = [0u8; 24];
    let mut i: usize = 0;
    while i < 24
        invariant
            i <= 24,
            r@.len() == 24,
            forall|j: int| 0 <= j < i ==> r@[j] == packet@[12 + j],
        decreases 24 - i,
    {
        r[i] = packet[12 + i];
        i += 1;
    }
    assert(r@ =~= packet@.subrange(12, 36));
    r
}

/// Reads the sixteen little-endian samples at `packet[4..36]`.
fn read_samples(packet: &[u8; 36]) -> (r: [i16; 16])
    ensures
        r@ == pcm_samples(packet@),
{
    let mut r = [0i16; 16];
    let mut i: usize = 0;
    while i < 16
        invariant
            i <= 16,
            r@.len() == 16,
            forall|j: int| 0 <= j < i ==> r@[j] == le_i16(packet@, 4 + 2 * j),
        decreases 16 - i,
    {
        let v = read_le_i16(packet, 4 + 2 * i);
        r[i] = v;
        i += 1;
    }
    assert(r@ =~= pcm_samples(packet@));
    r
}

impl Command {
    /// Decodes one datagram.  Every 36-byte input decodes; an opcode above 7
    /// gives `Unknown` holding the whole datagram.
    pub fn decode(packet: &[u8; 36]) -> (r: Command)
        ensures
            r@ == decode_view(packet@),
    {
        let op = read_be_u32(packet, 0);
        if op == 0 {
            Command::KeepAlive
        } else if op == 1 {
            Command::Ping { data: bytes_32(packet, 4) }
        } else if op == 2 {
            Command::Quit
        } else if op == 3 {
            Command::Play {
                sec: read_be_u32(packet, 4),
                usec: read_be_u32(packet, 8),
                freq: read_be_u32(packet, 12),
                amp: read_be_u32(packet, 16),
                voice: read_be_u32(packet, 20),
            }
        } else if op == 4 {
            Command::Caps {
                voices: read_be_u32(packet, 4),
                tp: bytes_tag(packet),
                ident: bytes_ident(packet),
            }
        } else if op == 5 {
            Command::PCM { samples: read_samples(packet) }
        } else if op == 6 {
            Command::PCMSyn { buffered: read_be_u32(packet, 4) }
        } else if op == 7 {
            let v = read_be_u32(packet, 4);
            Command::ArtParam {
                voice: if v == ALL_VOICES {
                    None
                } else {
                    Some(v)
                },
                index: read_be_u32(packet, 8),
                value: read_be_u32(packet, 12),
            }
        } else {
            Command::Unknown { data: *packet }
        }
    }
}

/// Writes `data` over `buf[at..at + data.len()]`.
fn put_bytes(buf: &mut [u8; 36], at: usize, data: &[u8])
    requires
        at + data@.len() <= 36,
    ensures
        final(buf)@ == old(buf)@.subrange(0, at as int) + data@ + old(buf)@.subrange(
            at + data@.len(),
            36,
        ),
{
    let ghost start = buf@;
    let mut i: usize = 0;
    while i < data.len()
        invariant
            at + data@.len() <= 36,
            i <= data@.len(),
            buf@.len() == 36,
            forall|j: int| 0 <= j < at ==> buf@[j] == start[j],
            forall|j: int| 0 <= j < i ==> buf@[at + j] == data@[j],
            forall|j: int| at + i <= j < 36 ==> buf@[j] == start[j],
        decreases data@.len() - i,
    {
        buf[at + i] = data[i];
        i += 1;
    }
    assert(buf@ =~= start.subrange(0, at as int) + data@ + start.subrange(at + data@.len(), 36));
}

/// Writes the samples little-endian at `buf[4..36]`.
fn put_samples(buf: &mut [u8; 36], samples: &[i16; 16])
    ensures
        final(buf)@ == old(buf)@.subrange(0, 4) + pcm_bytes(samples@),
{
    let ghost start = buf@;
    let mut i: usize = 0;
    while i < 16
        invariant
            i <= 16,
            buf@.len() == 36,
            start.len() == 36,
            pcm_bytes(samples@.subrange(0, i as int)).len() == 2 * i,
            buf@ == start.subrange(0, 4) + pcm_bytes(samples@.subrange(0, i as int))
                + start.subrange(4 + 2 * i, 36),
        decreases 16 - i,
    {
        let ghost before = buf@;
        let ghost prefix = samples@.subrange(0, i as int);
        let ghost x = samples@[i as int];
        proof {
            lemma_pcm_bytes_push(prefix, x);
            assert(samples@.subrange(0, i + 1) =~= prefix.push(x));
            lemma_pcm_bytes_len(prefix.push(x));
        }
        write_le_i16(buf, 4 + 2 * i, samples[i]);
        proof {
            assert(before.subrange(0, 4 + 2 * i) =~= start.subrange(0, 4) + pcm_bytes(prefix));
            assert(before.subrange(4 + 2 * i + 2, 36) =~= start.subrange(4 + 2 * i + 2, 36));
            assert(buf@ =~= start.subrange(0, 4) + pcm_bytes(prefix.push(x)) + start.subrange(
                4 + 2 * i + 2,
                36,
            ));
        }
        i += 1;
    }
    assert(samples@.subrange(0, 16) =~= samples@);
    assert(buf@ =~= start.subrange(0, 4) + pcm_bytes(samples@));
}

proof fn lemma_pcm_bytes_len(s: Seq<i16>)
    ensures
        pcm_bytes(s).len() == 2 * s.len(),
    decreases s.len(),
{
    if s.len() > 0 {
        lemma_pcm_bytes_len(s.drop_first());
    }
}

proof fn lemma_pcm_bytes_push(s: Seq<i16>, x: i16)
    ensures
        pcm_bytes(s.push(x)) == pcm_bytes(s) + le_bytes(x),
    decreases s.len(),
{
    if s.len() == 0 {
        assert(s.push(x).drop_first() =~= Seq::<i16>::empty());
        assert(pcm_bytes(s) == Seq::<u8>::empty());
        assert(pcm_bytes(s.push(x).drop_first()) == Seq::<u8>::empty());
        assert(pcm_bytes(s.push(x)) == le_bytes(x) + Seq::<u8>::empty());
        assert(pcm_bytes(s.push(x)) =~= pcm_bytes(s) + le_bytes(x));
    } else {
        lemma_pcm_bytes_push(s.drop_first(), x);
        assert(s.push(x).drop_first() =~= s.drop_first().push(x));
        assert(s.push(x)[0] == s[0]);
        assert(pcm_bytes(s.push(x)) == le_bytes(s[0]) + (pcm_bytes(s.drop_first()) + le_bytes(
            x,
        )));
        assert(pcm_bytes(s.push(x)) =~= pcm_bytes(s) + le_bytes(x));
    }
}

impl Command {
    /// Encodes the command into one datagram, zero-filling what it leaves unused.
    pub fn encode(&self) -> (r: [u8; 36])
        ensures
            r@ == encode_view(self@),
    {
        let mut r = [0u8; 36];
        assert(r@ =~= zeros(36));
        match self {
            Command::KeepAlive => {
                write_be_u32(&mut r, 0, 0);
                assert(r@ =~= encode_view(self@));
            },
            Command::Ping { data } => {
                write_be_u32(&mut r, 0, 1);
                put_bytes(&mut r, 4, data.as_slice());
                assert(r@ =~= encode_view(self@));
            },
            Command::Quit => {
                write_be_u32(&mut r, 0, 2);
                assert(r@ =~= encode_view(self@));
            },
            Command::Play { sec, usec, freq, amp, voice } => {
                write_be_u32(&mut r, 0, 3);
                write_be_u32(&mut r, 4, *sec);
                write_be_u32(&mut r, 8, *usec);
                write_be_u32(&mut r, 12, *freq);
                write_be_u32(&mut r, 16, *amp);
                write_be_u32(&mut r, 20, *voice);
                assert(r@ =~= encode_view(self@));
            },
            Command::Caps { voices, tp, ident } => {
                write_be_u32(&mut r, 0, 4);
                write_be_u32(&mut r, 4, *voices);
                put_bytes(&mut r, 8, tp.as_slice());
                put_bytes(&mut r, 12, ident.as_slice());
                assert(r@ =~= encode_view(self@));
            },
            Command::PCM { samples } => {
                write_be_u32(&mut r, 0, 5);
                put_samples(&mut r, samples);
                assert(r@ =~= encode_view(self@));
            },
            Command::PCMSyn { buffered } => {
                write_be_u32(&mut r, 0, 6);
                write_be_u32(&mut r, 4, *buffered);
                assert(r@ =~= encode_view(self@));
            },
            Command::ArtParam { voice, index, value } => {
                write_be_u32(&mut r, 0, 7);
                let v = match voice {
                    Some(v) => *v,
                    None => ALL_VOICES,
                };
                write_be_u32(&mut r, 4, v);
                write_be_u32(&mut r, 8, *index);
                write_be_u32(&mut r, 12, *value);
                assert(r@ =~= encode_view(self@));
            },
            Command::Unknown { data } => {
                r = *data;
            },
        }
        r
    }
}

proof fn lemma_u32_of_bytes(n: u32)
    ensures
        ((((n >> 24u32) as u8) as u32) << 24u32) | ((((n >> 16u32) as u8) as u32) << 16u32) | ((((n
            >> 8u32) as u8) as u32) << 8u32) | ((n as u8) as u32) == n,
{
    assert(((((n >> 24u32) as u8) as u32) << 24u32) | ((((n >> 16u32) as u8) as u32) << 16u32) | ((((n
        >> 8u32) as u8) as u32) << 8u32) | ((n as u8) as u32) == n) by (bit_vector);
}

proof fn lemma_bytes_of_u32(b0: u8, b1: u8, b2: u8, b3: u8)
    ensures
        ((((b0 as u32) << 24u32) | ((b1 as u32) << 16u32) | ((b2 as u32) << 8u32) | (b3 as u32))
            >> 24u32) as u8 == b0,
        ((((b0 as u32) << 24u32) | ((b1 as u32) << 16u32) | ((b2 as u32) << 8u32) | (b3 as u32))
            >> 16u32) as u8 == b1,
        ((((b0 as u32) << 24u32) | ((b1 as u32) << 16u32) | ((b2 as u32) << 8u32) | (b3 as u32))
            >> 8u32) as u8 == b2,
        (((b0 as u32) << 24u32) | ((b1 as u32) << 16u32) | ((b2 as u32) << 8u32) | (
        b3 as u32)) as u8 == b3,
{
    assert(((((b0 as u32) << 24u32) | ((b1 as u32) << 16u32) | ((b2 as u32) << 8u32) | (
    b3 as u32)) >> 24u32) as u8 == b0 && ((((b0 as u32) << 24u32) | ((b1 as u32) << 16u32) | ((
    b2 as u32) << 8u32) | (b3 as u32)) >> 16u32) as u8 == b1 && ((((b0 as u32) << 24u32) | ((
    b1 as u32) << 16u32) | ((b2 as u32) << 8u32) | (b3 as u32)) >> 8u32) as u8 == b2 && (((
    b0 as u32) << 24u32) | ((b1 as u32) << 16u32) | ((b2 as u32) << 8u32) | (b3 as u32)) as u8
        == b3) by (bit_vector);
}

proof fn lemma_i16_of_bytes(x: i16)
    ensures
        ((((((x as u16) >> 8u16) as u8) as u16) << 8u16) | (((x as u16) as u8) as u16)) as i16
            == x,
{
    assert(((((((x as u16) >> 8u16) as u8) as u16) << 8u16) | (((x as u16) as u8) as u16)) as i16
        == x) by (bit_vector);
}

proof fn lemma_bytes_of_i16(b0: u8, b1: u8)
    ensures
        (((((b1 as u16) << 8u16) | (b0 as u16)) as i16) as u16) as u8 == b0,
        ((((((b1 as u16) << 8u16) | (b0 as u16)) as i16) as u16) >> 8u16) as u8 == b1,
{
    assert((((((b1 as u16) << 8u16) | (b0 as u16)) as i16) as u16) as u8 == b0 && ((((((
    b1 as u16) << 8u16) | (b0 as u16)) as i16) as u16) >> 8u16) as u8 == b1) by (bit_vector);
}

/// Four bytes holding `be_bytes(n)` read back as `n`.
proof fn lemma_be_read(p: Seq<u8>, at: int, n: u32)
    requires
        0 <= at,
        at + 4 <= p.len(),
        p.subrange(at, at + 4) == be_bytes(n),
    ensures
        be_u32(p, at) == n,
{
    assert(p[at] == p.subrange(at, at + 4)[0]);
    assert(p[at + 1] == p.subrange(at, at + 4)[1]);
    assert(p[at + 2] == p.subrange(at, at + 4)[2]);
    assert(p[at + 3] == p.subrange(at, at + 4)[3]);
    lemma_u32_of_bytes(n);
}

/// Reading four bytes and writing them back gives the same bytes.
proof fn lemma_be_write(p: Seq<u8>, at: int)
    requires
        0 <= at,
        at + 4 <= p.len(),
    ensures
        be_bytes(be_u32(p, at)) == p.subrange(at, at + 4),
{
    lemma_bytes_of_u32(p[at], p[at + 1], p[at + 2], p[at + 3]);
    assert(be_bytes(be_u32(p, at)) =~= p.subrange(at, at + 4));
}

proof fn lemma_pcm_index(s: Seq<i16>, i: int)
    requires
        0 <= i < s.len(),
    ensures
        pcm_bytes(s).len() == 2 * s.len(),
        pcm_bytes(s)[2 * i] == le_bytes(s[i])[0],
        pcm_bytes(s)[2 * i + 1] == le_bytes(s[i])[1],
    decreases s.len(),
{
    lemma_pcm_bytes_len(s);
    if i > 0 {
        lemma_pcm_index(s.drop_first(), i - 1);
    }
}

/// Decoding the encoding of a well-formed command gives the command back.
pub proof fn lemma_decode_encode(c: CommandView)
    requires
        command_well_formed(c),
    ensures
        encode_view(c).len() == 36,
        decode_view(encode_view(c)) == c,
{
    let p = encode_view(c);
    match c {
        CommandView::KeepAlive => {
            assert(p.subrange(0, 4) =~= be_bytes(0));
            lemma_be_read(p, 0, 0);
        },
        CommandView::Ping { data } => {
            assert(p.subrange(0, 4) =~= be_bytes(1));
            lemma_be_read(p, 0, 1);
            assert(p.subrange(4, 36) =~= data);
        },
        CommandView::Quit => {
            assert(p.subrange(0, 4) =~= be_bytes(2));
            lemma_be_read(p, 0, 2);
        },
        CommandView::Play { sec, usec, freq, amp, voice } => {
            assert(p.subrange(0, 4) =~= be_bytes(3));
            lemma_be_read(p, 0, 3);
            assert(p.subrange(4, 8) =~= be_bytes(sec));
            lemma_be_read(p, 4, sec);
            assert(p.subrange(8, 12) =~= be_bytes(usec));
            lemma_be_read(p, 8, usec);
            assert(p.subrange(12, 16) =~= be_bytes(freq));
            lemma_be_read(p, 12, freq);
            assert(p.subrange(16, 20) =~= be_bytes(amp));
            lemma_be_read(p, 16, amp);
            assert(p.subrange(20, 24) =~= be_bytes(voice));
            lemma_be_read(p, 20, voice);
        },
        CommandView::Caps { voices, tp, ident } => {
            assert(p.subrange(0, 4) =~= be_bytes(4));
            lemma_be_read(p, 0, 4);
            assert(p.subrange(4, 8) =~= be_bytes(voices));
            lemma_be_read(p, 4, voices);
            assert(p.subrange(8, 12) =~= tp);
            assert(p.subrange(12, 36) =~= ident);
        },
        CommandView::PCM { samples } => {
            lemma_pcm_bytes_len(samples);
            assert(p.subrange(0, 4) =~= be_bytes(5));
            lemma_be_read(p, 0, 5);
            assert forall|i: int| 0 <= i < 16 implies #[trigger] le_i16(p, 4 + 2 * i)
                == samples[i] by {
                lemma_pcm_index(samples, i);
                assert(p[4 + 2 * i] == pcm_bytes(samples)[2 * i]);
                assert(p[4 + 2 * i + 1] == pcm_bytes(samples)[2 * i + 1]);
                lemma_i16_of_bytes(samples[i]);
            }
            assert(pcm_samples(p) =~= samples);
        },
        CommandView::PCMSyn { buffered } => {
            assert(p.subrange(0, 4) =~= be_bytes(6));
            lemma_be_read(p, 0, 6);
            assert(p.subrange(4, 8) =~= be_bytes(buffered));
            lemma_be_read(p, 4, buffered);
        },
        CommandView::ArtParam { voice, index, value } => {
            let v = match voice {
                Some(v) => v,
                None => ALL_VOICES,
            };
            assert(p.subrange(0, 4) =~= be_bytes(7));
            lemma_be_read(p, 0, 7);
            assert(p.subrange(4, 8) =~= be_bytes(v));
            lemma_be_read(p, 4, v);
            assert(p.subrange(8, 12) =~= be_bytes(index));
            lemma_be_read(p, 8, index);
            assert(p.subrange(12, 16) =~= be_bytes(value));
            lemma_be_read(p, 12, value);
        },
        CommandView::Unknown { data } => {},
    }
}

/// Encoding what a well-formed datagram decodes to gives the datagram back.
pub proof fn lemma_encode_decode(p: Seq<u8>)
    requires
        packet_well_formed(p),
    ensures
        encode_view(decode_view(p)) == p,
{
    let op = be_u32(p, 0);
    lemma_be_write(p, 0);
    if op == 0 || op == 2 {
        assert(encode_view(decode_view(p)) =~= p);
    } else if op == 1 {
        assert(encode_view(decode_view(p)) =~= p);
    } else if op == 3 {
        lemma_be_write(p, 4);
        lemma_be_write(p, 8);
        lemma_be_write(p, 12);
        lemma_be_write(p, 16);
        lemma_be_write(p, 20);
        assert(encode_view(decode_view(p)) =~= p);
    } else if op == 4 {
        lemma_be_write(p, 4);
        assert(encode_view(decode_view(p)) =~= p);
    } else if op == 5 {
        let s = pcm_samples(p);
        lemma_pcm_bytes_len(s);
        assert forall|j: int| 0 <= j < 32 implies #[trigger] pcm_bytes(s)[j] == p[4 + j] by {
            let i = j / 2;
            lemma_pcm_index(s, i);
            lemma_bytes_of_i16(p[4 + 2 * i], p[4 + 2 * i + 1]);
        }
        assert(pcm_bytes(s) =~= p.subrange(4, 36));
        assert(encode_view(decode_view(p)) =~= p);
    } else if op == 6 {
        lemma_be_write(p, 4);
        assert(encode_view(decode_view(p)) =~= p);
    } else if op == 7 {
        lemma_be_write(p, 4);
        lemma_be_write(p, 8);
        lemma_be_write(p, 12);
        assert(encode_view(decode_view(p)) =~= p);
    } else {
        assert(encode_view(decode_view(p)) =~= p);
    }
}

impl Command {
    /// Length of a `Play` command in microseconds: `sec` seconds plus `usec`
    /// microseconds.  Other commands have no duration.
    pub fn duration(&self) -> (r: Option<u64>)
        ensures
            r == match self@ {
                CommandView::Play { sec, usec, .. } => Some((sec * 1_000_000 + usec) as u64),
                _ => None::<u64>,
            },
    {
        match self {
            Command::Play { sec, usec, .. } => Some(*sec as u64 * 1_000_000 + *usec as u64),
            _ => None,
        }
    }
}

} // verus!
