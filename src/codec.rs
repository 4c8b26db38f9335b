//! The wire codec: input packets sent by the client and state packets sent by
//! the server. Every multi-byte field is big-endian. A 32-bit float travels as
//! its IEEE-754 bit pattern, which the library keeps as a `u32`.
use vstd::prelude::*;

verus! {

/// The word that four bytes starting at `i` spell, most significant first.
pub open spec fn word_at(b: Seq<u8>, i: int) -> u32 {
    ((b[i] as u32) << 24u32) | ((b[i + 1] as u32) << 16u32) | ((b[i + 2] as u32) << 8u32) | (
    b[i + 3] as u32)
}

/// The four bytes of `w`, most significant first.
pub open spec fn word_bytes(w: u32) -> Seq<u8> {
    seq![(w >> 24u32) as u8, (w >> 16u32) as u8, (w >> 8u32) as u8, w as u8]
}

/// Reading back the bytes of a word gives the word.
pub proof fn lemma_word_bytes_read(w: u32)
    ensures
        word_bytes(w).len() == 4,
        word_at(word_bytes(w), 0) == w,
{
    let a = (w >> 24u32) as u8;
    let b = (w >> 16u32) as u8;
    let c = (w >> 8u32) as u8;
    let d = w as u8;
    assert((((a as u32) << 24u32) | ((b as u32) << 16u32) | ((c as u32) << 8u32) | (d as u32))
        == w) by (bit_vector)
        requires
            a == (w >> 24u32) as u8,
            b == (w >> 16u32) as u8,
            c == (w >> 8u32) as u8,
            d == w as u8,
    ;
}

/// Writing out the word that four bytes spell gives those bytes.
pub proof fn lemma_word_at_bytes(s: Seq<u8>, i: int)
    requires
        0 <= i,
        i + 4 <= s.len(),
    ensures
        word_bytes(word_at(s, i)) == s.subrange(i, i + 4),
{
    let a = s[i];
    let b = s[i + 1];
    let c = s[i + 2];
    let d = s[i + 3];
    let w = word_at(s, i);
    assert((w >> 24u32) as u8 == a && (w >> 16u32) as u8 == b && (w >> 8u32) as u8 == c && w as u8
        == d) by (bit_vector)
        requires
            w == ((a as u32) << 24u32) | ((b as u32) << 16u32) | ((c as u32) << 8u32) | (d as u32),
    ;
    assert(word_bytes(w) =~= s.subrange(i, i + 4));
}

/// Reads the big-endian word at `i`.
pub fn read_word(b: &[u8], i: usize) -> (r: u32)
    requires
        i + 4 <= b@.len(),
    ensures
        r == word_at(b@, i as int),
{
    ((b[i] as u32) << 24u32) | ((b[i + 1] as u32) << 16u32) | ((b[i + 2] as u32) << 8u32) | (b[i
        + 3] as u32)
}

/// Appends the big-endian bytes of `w`.
pub fn push_word(out: &mut Vec<u8>, w: u32)
    ensures
        final(out)@ == old(out)@ + word_bytes(w),
{
    out.push((w >> 24u32) as u8);
    out.push((w >> 16u32) as u8);
    out.push((w >> 8u32) as u8);
    out.push(w as u8);
    assert(final(out)@ =~= old(out)@ + word_bytes(w));
}


/// Tag byte of a client input packet, and of a server world-state packet.
pub const TAG_STATE: u8 = 1;

/// Tag byte of a server flag-reveal packet.
pub const TAG_FLAG: u8 = 2;

/// Length of a client input packet.
pub const INPUT_LEN: usize = 10;

/// Bit pattern of the float `1.0`.
pub const ONE_BITS: u32 = 0x3F80_0000;

/// Bit pattern of the float `-1.0`.
pub const MINUS_ONE_BITS: u32 = 0xBF80_0000;

/// Bit pattern of the float `0.0`.
pub const ZERO_BITS: u32 = 0;

/// The five discrete controls, pressed (`true`) or released.
#[derive(Clone, Copy, Debug, PartialEq, Eq, Structural)]
pub struct Controls {
    pub left: bool,
    pub right: bool,
    pub up: bool,
    pub down: bool,
    pub restart: bool,
}

/// What the client reports each input tick: a direction on each axis, one of
/// -1, 0 and 1, and whether restart is held.
#[derive(Clone, Copy, Debug, PartialEq, Eq, Structural)]
pub struct InputPacket {
    pub dx: i8,
    pub dy: i8,
    pub restart: bool,
}

/// A unit direction: -1, 0 or 1.
pub open spec fn is_unit(a: i8) -> bool {
    a == -1 || a == 0 || a == 1
}

impl InputPacket {
    /// Both directions are units.
    pub open spec fn wf(self) -> bool {
        is_unit(self.dx) && is_unit(self.dy)
    }
}

/// The direction that a negative and a positive control give together.
pub open spec fn axis_of(neg: bool, pos: bool) -> i8 {
    if neg == pos {
        0i8
    } else if pos {
        1i8
    } else {
        -1i8
    }
}

/// The packet sampled from `c`: with the death overlay shown no movement is
/// taken; restart is always taken.
pub open spec fn input_of(c: Controls, dead: bool) -> InputPacket {
    InputPacket {
        dx: if dead { 0i8 } else { axis_of(c.left, c.right) },
        dy: if dead { 0i8 } else { axis_of(c.down, c.up) },
        restart: c.restart,
    }
}

/// The float bit pattern of a unit direction.
pub open spec fn unit_bits(a: i8) -> u32 {
    if a == 1 {
        ONE_BITS
    } else if a == -1 {
        MINUS_ONE_BITS
    } else {
        ZERO_BITS
    }
}

/// The unit direction whose float bit pattern is `w`, if any.
pub open spec fn unit_of_bits(w: u32) -> Option<i8> {
    if w == ONE_BITS {
        Some(1i8)
    } else if w == MINUS_ONE_BITS {
        Some(-1i8)
    } else if w == ZERO_BITS {
        Some(0i8)
    } else {
        None
    }
}

/// The ten bytes of an input packet.
pub open spec fn input_bytes(p: InputPacket) -> Seq<u8> {
    seq![TAG_STATE] + word_bytes(unit_bits(p.dx)) + word_bytes(unit_bits(p.dy)) + seq![
        if p.restart {
            1u8
        } else {
            0u8
        },
    ]
}

/// The input packet that `b` holds: ten bytes, the tag, two unit directions
/// and a restart byte of 0 or 1.
pub open spec fn input_from_bytes(b: Seq<u8>) -> Option<InputPacket> {
    if b.len() == INPUT_LEN && b[0] == TAG_STATE && unit_of_bits(word_at(b, 1)) is Some
        && unit_of_bits(word_at(b, 5)) is Some && (b[9] == 0 || b[9] == 1) {
        Some(
            InputPacket {
                dx: unit_of_bits(word_at(b, 1))->0,
                dy: unit_of_bits(word_at(b, 5))->0,
                restart: b[9] == 1,
            },
        )
    } else {
        None
    }
}

/// Samples the controls into an input packet.
pub fn sample_input(c: Controls, dead: bool) -> (r: InputPacket)
    ensures
        r == input_of(c, dead),
        r.wf(),
{
    let mut dx: i8 = 0;
    let mut dy: i8 = 0;
    if !dead {
        if c.left {
            dx = dx - 1;
        }
        if c.right {
            dx = dx + 1;
        }
        if c.up {
            dy = dy + 1;
        }
        if c.down {
            dy = dy - 1;
        }
    }
    InputPacket { dx, dy, restart: c.restart }
}

fn unit_to_bits(a: i8) -> (r: u32)
    ensures
        r == unit_bits(a),
{
    if a == 1 {
        ONE_BITS
    } else if a == -1 {
        MINUS_ONE_BITS
    } else {
        ZERO_BITS
    }
}

fn bits_to_unit(w: u32) -> (r: Option<i8>)
    ensures
        r == unit_of_bits(w),
{
    if w == ONE_BITS {
        Some(1)
    } else if w == MINUS_ONE_BITS {
        Some(-1)
    } else if w == ZERO_BITS {
        Some(0)
    } else {
        None
    }
}

/// Encodes an input packet: the tag, `dx` and `dy` as big-endian floats, and
/// the restart byte.
pub fn encode_input(p: InputPacket) -> (r: Vec<u8>)
    ensures
        r@ == input_bytes(p),
        r@.len() == INPUT_LEN,
{
    let mut out: Vec<u8> = Vec::new();
    out.push(TAG_STATE);
    push_word(&mut out, unit_to_bits(p.dx));
    push_word(&mut out, unit_to_bits(p.dy));
    out.push(if p.restart { 1u8 } else { 0u8 });
    assert(out@ =~= input_bytes(p));
    out
}

/// Decodes an input packet, as the server reads it.
pub fn decode_input(b: &[u8]) -> (r: Option<InputPacket>)
    ensures
        r == input_from_bytes(b@),
        r matches Some(p) ==> p.wf(),
{
    if b.len() != INPUT_LEN || b[0] != TAG_STATE || (b[9] != 0 && b[9] != 1) {
        return None;
    }
    let dx = bits_to_unit(read_word(b, 1));
    let dy = bits_to_unit(read_word(b, 5));
    match (dx, dy) {
        (Some(dx), Some(dy)) => Some(InputPacket { dx, dy, restart: b[9] == 1 }),
        _ => None,
    }
}

/// An input packet decodes to itself once encoded.
pub proof fn lemma_input_round_trip(p: InputPacket)
    requires
        p.wf(),
    ensures
        input_from_bytes(input_bytes(p)) == Some(p),
        input_bytes(p).len() == INPUT_LEN,
{
    let b = input_bytes(p);
    lemma_word_bytes_read(unit_bits(p.dx));
    lemma_word_bytes_read(unit_bits(p.dy));
    let wx = word_bytes(unit_bits(p.dx));
    let wy = word_bytes(unit_bits(p.dy));
    assert(b.subrange(1, 5) =~= wx);
    assert(b.subrange(5, 9) =~= wy);
    assert(word_at(b, 1) == word_at(wx, 0));
    assert(word_at(b, 5) == word_at(wy, 0));
}

/// Whatever controls are held, the encoded packet carries a unit direction
/// on each axis, zero on an axis whose two controls are both held or when
/// the death overlay is shown, and a restart byte equal to the restart
/// control.
pub proof fn lemma_sampled_packet(c: Controls, dead: bool)
    ensures
        input_from_bytes(input_bytes(input_of(c, dead))) == Some(input_of(c, dead)),
        is_unit(input_of(c, dead).dx),
        is_unit(input_of(c, dead).dy),
        c.left && c.right ==> input_of(c, dead).dx == 0,
        c.up && c.down ==> input_of(c, dead).dy == 0,
        dead ==> input_of(c, dead).dx == 0 && input_of(c, dead).dy == 0,
        input_bytes(input_of(c, dead))[9] == (if c.restart {
            1u8
        } else {
            0u8
        }),
{
    lemma_input_round_trip(input_of(c, dead));
}


/// Length of the fixed part of a world-state packet: tag, player, death byte.
pub const STATE_HEADER_LEN: usize = 18;

/// Length of one enemy record in a world-state packet.
pub const RECORD_LEN: usize = 16;

/// Position and velocity of a body, each coordinate a float bit pattern.
#[derive(Clone, Copy, Debug, PartialEq, Eq, Structural)]
pub struct Body {
    pub x: u32,
    pub y: u32,
    pub vx: u32,
    pub vy: u32,
}

/// A decoded world-state packet.
#[derive(Clone, Debug)]
pub struct WorldState {
    pub player: Body,
    /// Nonzero when the player is dead.
    pub death: u8,
    /// One record per enemy ordinal, in packet order.
    pub enemies: Vec<Body>,
}

/// The mathematical value of a world-state packet.
pub struct WorldView {
    pub player: Body,
    pub death: u8,
    pub enemies: Seq<Body>,
}

impl View for WorldState {
    type V = WorldView;

    open spec fn view(&self) -> WorldView {
        WorldView { player: self.player, death: self.death, enemies: self.enemies@ }
    }
}

/// The body whose sixteen bytes start at `i`: x, y, vx, vy.
pub open spec fn body_at(b: Seq<u8>, i: int) -> Body {
    Body { x: word_at(b, i), y: word_at(b, i + 4), vx: word_at(b, i + 8), vy: word_at(b, i + 12) }
}

/// The sixteen bytes of a body.
pub open spec fn body_bytes(d: Body) -> Seq<u8> {
    word_bytes(d.x) + word_bytes(d.y) + word_bytes(d.vx) + word_bytes(d.vy)
}

/// The number of whole enemy records in a world-state packet of `len` bytes.
pub open spec fn record_count(len: int) -> int {
    (len - STATE_HEADER_LEN) / (RECORD_LEN as int)
}

/// The world state that `b` holds, read as a tag-1 packet of at least
/// eighteen bytes; trailing bytes short of a record are left out.
pub open spec fn world_of(b: Seq<u8>) -> WorldView {
    WorldView {
        player: body_at(b, 1),
        death: b[17],
        enemies: Seq::new(
            record_count(b.len() as int) as nat,
            |j: int| body_at(b, STATE_HEADER_LEN + RECORD_LEN * j),
        ),
    }
}

/// The bytes of a sequence of enemy records.
pub open spec fn records_bytes(s: Seq<Body>) -> Seq<u8>
    decreases s.len(),
{
    if s.len() == 0 {
        Seq::empty()
    } else {
        records_bytes(s.drop_last()) + body_bytes(s.last())
    }
}

/// The bytes of a world-state packet.
pub open spec fn world_bytes(w: WorldView) -> Seq<u8> {
    seq![TAG_STATE] + body_bytes(w.player) + seq![w.death] + records_bytes(w.enemies)
}

proof fn lemma_word_within(s: Seq<u8>, i: int, w: u32)
    requires
        0 <= i,
        i + 4 <= s.len(),
        s.subrange(i, i + 4) == word_bytes(w),
    ensures
        word_at(s, i) == w,
{
    lemma_word_bytes_read(w);
    assert(s[i] == word_bytes(w)[0]);
    assert(s[i + 1] == word_bytes(w)[1]);
    assert(s[i + 2] == word_bytes(w)[2]);
    assert(s[i + 3] == word_bytes(w)[3]);
}

/// The body read from the bytes of a body is that body.
proof fn lemma_body_within(s: Seq<u8>, i: int, d: Body)
    requires
        0 <= i,
        i + 16 <= s.len(),
        s.subrange(i, i + 16) == body_bytes(d),
    ensures
        body_at(s, i) == d,
{
    let t = s.subrange(i, i + 16);
    assert(s.subrange(i, i + 4) =~= t.subrange(0, 4));
    assert(s.subrange(i + 4, i + 8) =~= t.subrange(4, 8));
    assert(s.subrange(i + 8, i + 12) =~= t.subrange(8, 12));
    assert(s.subrange(i + 12, i + 16) =~= t.subrange(12, 16));
    assert(t.subrange(0, 4) =~= word_bytes(d.x));
    assert(t.subrange(4, 8) =~= word_bytes(d.y));
    assert(t.subrange(8, 12) =~= word_bytes(d.vx));
    assert(t.subrange(12, 16) =~= word_bytes(d.vy));
    lemma_word_within(s, i, d.x);
    lemma_word_within(s, i + 4, d.y);
    lemma_word_within(s, i + 8, d.vx);
    lemma_word_within(s, i + 12, d.vy);
}

/// The bytes of the body read at `i` are the sixteen bytes there.
proof fn lemma_body_bytes_at(s: Seq<u8>, i: int)
    requires
        0 <= i,
        i + 16 <= s.len(),
    ensures
        body_bytes(body_at(s, i)) == s.subrange(i, i + 16),
{
    lemma_word_at_bytes(s, i);
    lemma_word_at_bytes(s, i + 4);
    lemma_word_at_bytes(s, i + 8);
    lemma_word_at_bytes(s, i + 12);
    assert(body_bytes(body_at(s, i)) =~= s.subrange(i, i + 16));
}

proof fn lemma_records_len(s: Seq<Body>)
    ensures
        records_bytes(s).len() == RECORD_LEN * s.len(),
    decreases s.len(),
{
    if s.len() > 0 {
        lemma_records_len(s.drop_last());
    }
}

/// Record `j` of a sequence occupies bytes `16 j` to `16 j + 16`.
proof fn lemma_records_at(s: Seq<Body>, j: int)
    requires
        0 <= j < s.len(),
    ensures
        records_bytes(s).len() == RECORD_LEN * s.len(),
        records_bytes(s).subrange(RECORD_LEN * j, RECORD_LEN * j + RECORD_LEN) == body_bytes(s[j]),
    decreases s.len(),
{
    lemma_records_len(s);
    lemma_records_len(s.drop_last());
    let pre = records_bytes(s.drop_last());
    if j == s.len() - 1 {
        assert(records_bytes(s).subrange(RECORD_LEN * j, RECORD_LEN * j + RECORD_LEN)
            =~= body_bytes(s[j]));
    } else {
        lemma_records_at(s.drop_last(), j);
        assert(records_bytes(s).subrange(RECORD_LEN * j, RECORD_LEN * j + RECORD_LEN)
            =~= pre.subrange(RECORD_LEN * j, RECORD_LEN * j + RECORD_LEN));
    }
}

/// The records read from `k` whole records' worth of bytes write back to
/// those bytes.
proof fn lemma_records_read(b: Seq<u8>, k: int)
    requires
        0 <= k,
        STATE_HEADER_LEN + RECORD_LEN * k <= b.len(),
    ensures
        records_bytes(Seq::new(k as nat, |j: int| body_at(b, STATE_HEADER_LEN + RECORD_LEN * j)))
            == b.subrange(STATE_HEADER_LEN as int, STATE_HEADER_LEN + RECORD_LEN * k),
    decreases k,
{
    let s = Seq::new(k as nat, |j: int| body_at(b, STATE_HEADER_LEN + RECORD_LEN * j));
    if k == 0 {
        assert(records_bytes(s) =~= b.subrange(
            STATE_HEADER_LEN as int,
            STATE_HEADER_LEN + RECORD_LEN * k,
        ));
    } else {
        let s1 = Seq::new((k - 1) as nat, |j: int| body_at(b, STATE_HEADER_LEN + RECORD_LEN * j));
        assert(s.drop_last() =~= s1);
        lemma_records_read(b, k - 1);
        let last = STATE_HEADER_LEN + RECORD_LEN * (k - 1);
        lemma_body_bytes_at(b, last);
        assert(records_bytes(s) =~= b.subrange(
            STATE_HEADER_LEN as int,
            STATE_HEADER_LEN + RECORD_LEN * k,
        ));
    }
}

/// A world-state packet of `18 + 16 k` bytes holds one player record and `k`
/// enemy records, and encoding what it holds gives back the same bytes.
pub proof fn lemma_world_bytes_round_trip(b: Seq<u8>)
    requires
        b.len() >= STATE_HEADER_LEN,
        b[0] == TAG_STATE,
        (b.len() - STATE_HEADER_LEN) % (RECORD_LEN as int) == 0,
    ensures
        world_of(b).enemies.len() == (b.len() - STATE_HEADER_LEN) / (RECORD_LEN as int),
        world_bytes(world_of(b)) == b,
{
    let k = record_count(b.len() as int);
    let w = world_of(b);
    lemma_records_read(b, k);
    lemma_body_bytes_at(b, 1);
    assert(world_bytes(w) =~= b);
}

/// Decoding the bytes of a world state gives that state back.
pub proof fn lemma_world_view_round_trip(w: WorldView)
    ensures
        world_bytes(w).len() == STATE_HEADER_LEN + RECORD_LEN * w.enemies.len(),
        world_of(world_bytes(w)) == w,
{
    let b = world_bytes(w);
    lemma_records_len(w.enemies);
    assert(b.subrange(1, 17) =~= body_bytes(w.player));
    lemma_body_within(b, 1, w.player);
    let r = world_of(b);
    assert forall|j: int| 0 <= j < w.enemies.len() implies r.enemies[j] == w.enemies[j] by {
        lemma_records_at(w.enemies, j);
        let i = STATE_HEADER_LEN + RECORD_LEN * j;
        assert(b.subrange(i, i + 16) =~= records_bytes(w.enemies).subrange(
            RECORD_LEN * j,
            RECORD_LEN * j + RECORD_LEN,
        ));
        lemma_body_within(b, i, w.enemies[j]);
    }
    assert(r.enemies =~= w.enemies);
}


fn read_body(b: &[u8], i: usize) -> (r: Body)
    requires
        i + 16 <= b.len(),
    ensures
        r == body_at(b@, i as int),
{
    Body {
        x: read_word(b, i),
        y: read_word(b, i + 4),
        vx: read_word(b, i + 8),
        vy: read_word(b, i + 12),
    }
}

fn push_body(out: &mut Vec<u8>, d: Body)
    ensures
        final(out)@ == old(out)@ + body_bytes(d),
{
    let ghost start = out@;
    push_word(out, d.x);
    push_word(out, d.y);
    push_word(out, d.vx);
    push_word(out, d.vy);
    assert(out@ =~= start + body_bytes(d));
}

/// Decodes a world-state packet: the player at byte 1, the death byte at 17,
/// then one enemy for each whole sixteen bytes from byte 18 on.
pub fn decode_world(b: &[u8]) -> (r: WorldState)
    requires
        b@.len() >= STATE_HEADER_LEN,
    ensures
        r@ == world_of(b@),
{
    let player = read_body(b, 1);
    let death = b[17];
    let k: usize = (b.len() - STATE_HEADER_LEN) / RECORD_LEN;
    let mut enemies: Vec<Body> = Vec::new();
    let mut j: usize = 0;
    while j < k
        invariant
            k == record_count(b@.len() as int),
            j <= k,
            enemies@ =~= Seq::new(
                j as nat,
                |m: int| body_at(b@, STATE_HEADER_LEN + RECORD_LEN * m),
            ),
        decreases k - j,
    {
        proof {
            assert(RECORD_LEN * j + RECORD_LEN <= RECORD_LEN * k) by (nonlinear_arith)
                requires
                    j < k,
            ;
            assert(RECORD_LEN * k <= b.len() - STATE_HEADER_LEN) by (nonlinear_arith)
                requires
                    k == (b.len() - STATE_HEADER_LEN) / 16,
                    b.len() >= STATE_HEADER_LEN,
            ;
        }
        let d = read_body(b, STATE_HEADER_LEN + RECORD_LEN * j);
        enemies.push(d);
        j = j + 1;
    }
    let r = WorldState { player, death, enemies };
    assert(r@.enemies =~= world_of(b@).enemies);
    r
}

/// Encodes a world state as the server sends it.
pub fn encode_world(w: &WorldState) -> (r: Vec<u8>)
    ensures
        r@ == world_bytes(w@),
{
    let mut out: Vec<u8> = Vec::new();
    out.push(TAG_STATE);
    push_body(&mut out, w.player);
    out.push(w.death);
    let ghost head = out@;
    let mut j: usize = 0;
    while j < w.enemies.len()
        invariant
            j <= w.enemies@.len(),
            head == seq![TAG_STATE] + body_bytes(w.player) + seq![w.death],
            out@ == head + records_bytes(w.enemies@.subrange(0, j as int)),
        decreases w.enemies@.len() - j,
    {
        push_body(&mut out, w.enemies[j]);
        proof {
            let s = w.enemies@.subrange(0, j + 1);
            assert(s.drop_last() =~= w.enemies@.subrange(0, j as int));
        }
        j = j + 1;
    }
    assert(w.enemies@.subrange(0, j as int) =~= w.enemies@);
    assert(out@ =~= world_bytes(w@));
    out
}


/// The text that bytes spell as UTF-8, or `None` where they are not UTF-8.
pub uninterp spec fn utf8_decoded(b: Seq<u8>) -> Option<Seq<char>>;

/// Relies on `String::from_utf8`: it accepts the bytes exactly when they are
/// valid UTF-8, and the text it returns depends on the bytes alone.
#[verifier::external_body]
fn text_from_utf8(b: Vec<u8>) -> (r: Option<String>)
    ensures
        r is Some <==> utf8_decoded(b@) is Some,
        r matches Some(t) ==> utf8_decoded(b@) == Some(t@),
{
    String::from_utf8(b).ok()
}

/// A packet from the server, told apart by its first byte.
#[derive(Clone, Debug)]
pub enum ServerMsg {
    /// Tag 1: the player, the death byte and the enemies.
    World(WorldState),
    /// Tag 2: the captured flag text.
    Flag(String),
    /// Any other tag: to be logged and ignored.
    Unknown(u8),
}

/// Why a packet from the server could not be decoded.
#[derive(Clone, Copy, Debug, PartialEq, Eq, Structural)]
pub enum DecodeError {
    /// The packet holds no byte at all.
    Empty,
    /// A world-state packet shorter than its eighteen fixed bytes.
    Truncated,
    /// A flag packet whose text is not UTF-8.
    BadText,
}

/// What `decode` returns for the packet `b`.
pub open spec fn decoded(b: Seq<u8>, r: Result<ServerMsg, DecodeError>) -> bool {
    match r {
        Ok(ServerMsg::World(w)) => b.len() >= STATE_HEADER_LEN && b[0] == TAG_STATE && w@
            == world_of(b),
        Ok(ServerMsg::Flag(t)) => b.len() >= 1 && b[0] == TAG_FLAG && utf8_decoded(b.skip(1))
            == Some(t@),
        Ok(ServerMsg::Unknown(tag)) => b.len() >= 1 && tag == b[0] && tag != TAG_STATE && tag
            != TAG_FLAG,
        Err(DecodeError::Empty) => b.len() == 0,
        Err(DecodeError::Truncated) => b.len() >= 1 && b[0] == TAG_STATE && b.len()
            < STATE_HEADER_LEN,
        Err(DecodeError::BadText) => b.len() >= 1 && b[0] == TAG_FLAG && utf8_decoded(b.skip(1))
            is None,
    }
}

/// Decodes one packet from the server.
pub fn decode(b: &[u8]) -> (r: Result<ServerMsg, DecodeError>)
    ensures
        decoded(b@, r),
{
    if b.len() == 0 {
        return Err(DecodeError::Empty);
    }
    let tag = b[0];
    if tag == TAG_STATE {
        if b.len() < STATE_HEADER_LEN {
            Err(DecodeError::Truncated)
        } else {
            Ok(ServerMsg::World(decode_world(b)))
        }
    } else if tag == TAG_FLAG {
        let mut payload: Vec<u8> = Vec::new();
        let mut i: usize = 1;
        while i < b.len()
            invariant
                1 <= i <= b@.len(),
                payload@ =~= b@.subrange(1, i as int),
            decreases b@.len() - i,
        {
            payload.push(b[i]);
            i = i + 1;
        }
        assert(payload@ =~= b@.skip(1));
        match text_from_utf8(payload) {
            Some(t) => Ok(ServerMsg::Flag(t)),
            None => Err(DecodeError::BadText),
        }
    } else {
        Ok(ServerMsg::Unknown(tag))
    }
}

/// Length of the receive buffer; a datagram that fills it may have been cut.
pub const RECV_BUFFER_LEN: usize = 2048;

/// Whether a datagram of `n` bytes filled the receive buffer, so that the
/// bytes captured may be fewer than were sent.
pub fn fills_buffer(n: usize) -> (r: bool)
    ensures
        r == (n >= RECV_BUFFER_LEN),
{
    n >= RECV_BUFFER_LEN
}

} // verus!
