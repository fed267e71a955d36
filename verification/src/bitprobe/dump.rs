//! The dump: a magic number, a header and a frame per tick, packed by gzip.

use std::io::Write;
use vstd::bytes;
use vstd::bytes::{u32_to_le_bytes, u64_to_le_bytes};
use vstd::prelude::*;

verus! {

/// How many seams a tick has.
pub const SEAM_COUNT: usize = 7;

/// What every dump starts with.
pub open spec fn magic() -> Seq<u8> {
    seq![0x4f, 0x4d, 0x42, 0x50, 0x01, 0x0d, 0x0a, 0x00]
}

/// The name of a seam, in the order of the dump.
pub open spec fn seam_named(i: int) -> Seq<char> {
    if i == 0 {
        "contact_input"@
    } else if i == 1 {
        "element_output"@
    } else if i == 2 {
        "belt_reaction"@
    } else if i == 3 {
        "transmission_input"@
    } else if i == 4 {
        "clutch_engine"@
    } else if i == 5 {
        "transmission_state"@
    } else {
        "pose_velocity"@
    }
}

pub fn seam_names() -> (names: Vec<&'static str>)
    ensures
        names@.len() == SEAM_COUNT,
        forall|i: int| 0 <= i < SEAM_COUNT ==> (#[trigger] names@[i])@ == seam_named(i),
{
    vec![
        "contact_input",
        "element_output",
        "belt_reaction",
        "transmission_input",
        "clutch_engine",
        "transmission_state",
        "pose_velocity",
    ]
}

/// The bytes of words, each from its lowest byte up.
pub open spec fn word_bytes(words: Seq<u32>) -> Seq<u8>
    decreases words.len(),
{
    if words.len() == 0 {
        seq![]
    } else {
        word_bytes(words.drop_last()) + bytes::spec_u32_to_le_bytes(words.last())
    }
}

/// One byte of the hash: mixed in, then spread.
pub open spec fn stirred(hash: u64, byte: u8) -> u64 {
    (hash ^ (byte as u64)).wrapping_mul(0x0000_0100_0000_01b3)
}

/// The 64-bit hash of bytes, from the first to the last.
pub open spec fn hashed(content: Seq<u8>) -> u64
    decreases content.len(),
{
    if content.len() == 0 {
        0xcbf2_9ce4_8422_2325
    } else {
        stirred(hashed(content.drop_last()), content.last())
    }
}

/// The hash of words, over their bytes from the lowest up.
pub fn hash_words(words: &Vec<u32>) -> (hash: u64)
    ensures
        hash == hashed(word_bytes(words@)),
{
    let mut hash: u64 = 0xcbf2_9ce4_8422_2325;
    let mut i: usize = 0;
    while i < words.len()
        invariant
            i <= words@.len(),
            hash == hashed(word_bytes(words@.take(i as int))),
        decreases words.len() - i,
    {
        let word: Vec<u8> = u32_to_le_bytes(words[i]);
        let ghost done = word_bytes(words@.take(i as int));
        let mut j: usize = 0;
        assert(done + word@.take(0) =~= done);
        while j < word.len()
            invariant
                j <= word@.len(),
                hash == hashed(done + word@.take(j as int)),
            decreases word.len() - j,
        {
            hash = (hash ^ (word[j] as u64)).wrapping_mul(0x0000_0100_0000_01b3);
            proof {
                let next = done + word@.take(j + 1);
                assert(next.drop_last() =~= done + word@.take(j as int));
                assert(next.last() == word@[j as int]);
            }
            j = j + 1;
        }
        proof {
            assert(word@.take(j as int) =~= word@);
            let next = words@.take(i + 1);
            assert(next.drop_last() =~= words@.take(i as int));
            assert(next.last() == words@[i as int]);
        }
        i = i + 1;
    }
    assert(words@.take(i as int) =~= words@);
    hash
}

/// A seam's frame: the hash of its payload, how many words it has, and the words.
pub open spec fn seam_frame(payload: Seq<u32>) -> Seq<u8> {
    bytes::spec_u64_to_le_bytes(hashed(word_bytes(payload))) + bytes::spec_u32_to_le_bytes(payload.len() as u32)
        + word_bytes(payload)
}

/// The frames of payloads, one after another.
pub open spec fn seam_frames(payloads: Seq<Seq<u32>>) -> Seq<u8>
    decreases payloads.len(),
{
    if payloads.len() == 0 {
        seq![]
    } else {
        seam_frame(payloads.first()) + seam_frames(payloads.drop_first())
    }
}

/// A tick's frame: its number and the frames of its seams.
pub open spec fn tick_frame(tick: u32, payloads: Seq<Seq<u32>>) -> Seq<u8> {
    bytes::spec_u32_to_le_bytes(tick) + seam_frames(payloads)
}

/// What a dump starts with: the magic number, the length of the header, and the header.
pub open spec fn preamble(header: Seq<u8>) -> Seq<u8> {
    magic() + bytes::spec_u32_to_le_bytes(header.len() as u32) + header
}

/// The payloads as sequences.
pub open spec fn payloads_of(seams: Seq<Vec<u32>>) -> Seq<Seq<u32>> {
    Seq::new(seams.len(), |i: int| seams[i]@)
}

/// A payload's length can be written down.
pub open spec fn fits(payload: Seq<u32>) -> bool {
    payload.len() <= u32::MAX
}

/// How many payloads stand before the first that does not fit.
pub open spec fn fitting(payloads: Seq<Seq<u32>>) -> nat
    decreases payloads.len(),
{
    if payloads.len() == 0 || !fits(payloads.first()) {
        0
    } else {
        1 + fitting(payloads.drop_first())
    }
}

/// Why a dump cannot be written.
#[derive(Clone, Copy, Debug, PartialEq, Eq, Structural)]
pub enum DumpError {
    /// The header's length does not fit in a word.
    HeaderTooLong,
    /// A payload of the tick has more words than a word can count.
    PayloadTooLong { tick: u32 },
    /// The packer gave up.
    Unpacked,
}

/// The error of reading and writing.
#[verifier::external_type_specification]
#[verifier::external_body]
pub struct ExIoError(std::io::Error);

/// What gzip makes of bytes in one go, at the default level and with no time stamp; nothing
/// where it cannot pack them.
pub uninterp spec fn gzipped(content: Seq<u8>) -> Option<Seq<u8>>;

/// `flate2::GzBuilder` with the time stamp zero, writing to memory at the default level: the
/// result is that of [`gzipped`], and packed bytes start with the ten bytes of a gzip header
/// that names no file, no time and no system.
#[verifier::external_body]
fn gzip(content: &Vec<u8>) -> (packed: Result<Vec<u8>, std::io::Error>)
    ensures
        match packed {
            Ok(bytes) => gzipped(content@) == Some(bytes@) && gzip_header().is_prefix_of(bytes@),
            Err(_) => gzipped(content@) is None,
        },
{
    let mut output = flate2::GzBuilder::new().mtime(0).write(Vec::new(), flate2::Compression::default());
    output.write_all(content)?;
    output.finish()
}

/// The header of a gzip stream that names no file, no time and no system.
pub open spec fn gzip_header() -> Seq<u8> {
    seq![0x1f, 0x8b, 8, 0, 0, 0, 0, 0, 0, 255]
}

/// A dump in the making.
pub struct DumpWriter {
    content: Vec<u8>,
}

impl View for DumpWriter {
    type V = Seq<u8>;

    /// The bytes so far, before they are packed.
    closed spec fn view(&self) -> Seq<u8> {
        self.content@
    }
}

fn put(content: &mut Vec<u8>, more: &Vec<u8>)
    ensures
        final(content)@ == old(content)@ + more@,
{
    let mut i: usize = 0;
    assert(content@ =~= old(content)@ + more@.take(0));
    while i < more.len()
        invariant
            i <= more@.len(),
            content@ == old(content)@ + more@.take(i as int),
        decreases more.len() - i,
    {
        content.push(more[i]);
        assert(content@ =~= old(content)@ + more@.take(i + 1));
        i = i + 1;
    }
    assert(more@.take(i as int) =~= more@);
}

fn put_words(content: &mut Vec<u8>, words: &Vec<u32>)
    ensures
        final(content)@ == old(content)@ + word_bytes(words@),
{
    let mut i: usize = 0;
    assert(content@ =~= old(content)@ + word_bytes(words@.take(0)));
    while i < words.len()
        invariant
            i <= words@.len(),
            content@ == old(content)@ + word_bytes(words@.take(i as int)),
        decreases words.len() - i,
    {
        put(content, &u32_to_le_bytes(words[i]));
        proof {
            let next = words@.take(i + 1);
            assert(next.drop_last() =~= words@.take(i as int));
            assert(next.last() == words@[i as int]);
            assert(content@ =~= old(content)@ + word_bytes(next));
        }
        i = i + 1;
    }
    assert(words@.take(i as int) =~= words@);
}

impl DumpWriter {
    /// Starts a dump with its header, whose length must fit in a word.
    pub fn create(header: &Vec<u8>) -> (writer: Result<DumpWriter, DumpError>)
        ensures
            match writer {
                Ok(writer) => header@.len() <= u32::MAX && writer@ == preamble(header@),
                Err(error) => error == DumpError::HeaderTooLong && header@.len() > u32::MAX,
            },
    {
        if header.len() as u64 > u32::MAX as u64 {
            return Err(DumpError::HeaderTooLong);
        }
        let mut content: Vec<u8> = vec![0x4f, 0x4d, 0x42, 0x50, 0x01, 0x0d, 0x0a, 0x00];
        assert(content@ =~= magic());
        put(&mut content, &u32_to_le_bytes(header.len() as u32));
        put(&mut content, header);
        Ok(DumpWriter { content })
    }

    /// Appends a tick. Where a payload is too long, the frames before it have been appended.
    pub fn tick(&mut self, tick: u32, seams: &Vec<Vec<u32>>) -> (outcome: Result<(), DumpError>)
        requires
            seams@.len() == SEAM_COUNT,
        ensures
            match outcome {
                Ok(_) => {
                    &&& fitting(payloads_of(seams@)) == SEAM_COUNT
                    &&& final(self)@ == old(self)@ + tick_frame(tick, payloads_of(seams@))
                },
                Err(error) => {
                    let before = fitting(payloads_of(seams@));
                    &&& error == DumpError::PayloadTooLong { tick }
                    &&& before < SEAM_COUNT
                    &&& final(self)@ == old(self)@ + tick_frame(tick, payloads_of(seams@).take(before as int))
                },
            },
    {
        let ghost payloads = payloads_of(seams@);
        put(&mut self.content, &u32_to_le_bytes(tick));
        let ghost start = self.content@;
        let mut i: usize = 0;
        assert(start =~= start + seam_frames(payloads.take(0)));
        assert(payloads.skip(0) =~= payloads);
        while i < seams.len()
            invariant
                seams@.len() == SEAM_COUNT,
                payloads == payloads_of(seams@),
                i <= seams@.len(),
                self.content@ == start + seam_frames(payloads.take(i as int)),
                start == old(self)@ + bytes::spec_u32_to_le_bytes(tick),
                fitting(payloads) == i + fitting(payloads.skip(i as int)),
            decreases seams.len() - i,
        {
            let payload: &Vec<u32> = &seams[i];
            assert(payloads.skip(i as int).first() == payload@);
            let hash: u64 = hash_words(payload);
            if payload.len() as u64 > u32::MAX as u64 {
                assert(self@ =~= old(self)@ + tick_frame(tick, payloads.take(i as int)));
                return Err(DumpError::PayloadTooLong { tick });
            }
            let ghost earlier = self.content@;
            put(&mut self.content, &u64_to_le_bytes(hash));
            put(&mut self.content, &u32_to_le_bytes(payload.len() as u32));
            put_words(&mut self.content, payload);
            proof {
                assert(self.content@ =~= earlier + seam_frame(payload@));
                lemma_frames_push(payloads.take(i as int), payload@);
                assert(payloads.take(i as int).push(payload@) =~= payloads.take(i + 1));
                assert(self.content@ =~= start + seam_frames(payloads.take(i + 1)));
                assert(payloads.skip(i as int).drop_first() =~= payloads.skip(i + 1));
            }
            i = i + 1;
        }
        proof {
            assert(payloads.take(i as int) =~= payloads);
            assert(self@ =~= old(self)@ + tick_frame(tick, payloads));
        }
        Ok(())
    }

    /// The bytes so far.
    pub fn content(&self) -> (content: &Vec<u8>)
        ensures
            content@ == self@,
    {
        &self.content
    }

    /// Packs the dump.
    pub fn finish(self) -> (packed: Result<Vec<u8>, DumpError>)
        ensures
            match packed {
                Ok(packed) => gzipped(self@) == Some(packed@) && gzip_header().is_prefix_of(packed@),
                Err(error) => error == DumpError::Unpacked && gzipped(self@) is None,
            },
    {
        match gzip(&self.content) {
            Ok(packed) => Ok(packed),
            Err(_) => Err(DumpError::Unpacked),
        }
    }
}

proof fn lemma_frames_push(payloads: Seq<Seq<u32>>, next: Seq<u32>)
    ensures
        seam_frames(payloads.push(next)) == seam_frames(payloads) + seam_frame(next),
    decreases payloads.len(),
{
    let longer = payloads.push(next);
    if payloads.len() == 0 {
        assert(longer.drop_first() =~= Seq::<Seq<u32>>::empty());
        assert(seam_frames(longer.drop_first()) =~= seq![]);
        assert(seam_frames(longer) =~= seam_frames(payloads) + seam_frame(next));
    } else {
        lemma_frames_push(payloads.drop_first(), next);
        assert(longer.drop_first() =~= payloads.drop_first().push(next));
        assert(seam_frames(longer) =~= seam_frames(payloads) + seam_frame(next));
    }
}

proof fn lemma_cut(a: Seq<u8>, r: Seq<u8>, b: Seq<u8>, t: Seq<u8>)
    requires
        a.len() == b.len(),
        a + r == b + t,
    ensures
        a == b,
        r == t,
{
    let n = a.len() as int;
    assert(a =~= (a + r).take(n));
    assert(b =~= (b + t).take(n));
    assert(r =~= (a + r).skip(n));
    assert(t =~= (b + t).skip(n));
}

proof fn lemma_words_width(words: Seq<u32>)
    ensures
        word_bytes(words).len() == 4 * words.len(),
    decreases words.len(),
{
    bytes::lemma_auto_spec_u32_to_from_le_bytes();
    if words.len() > 0 {
        lemma_words_width(words.drop_last());
    }
}

proof fn lemma_words_told(a: Seq<u32>, b: Seq<u32>)
    requires
        word_bytes(a) == word_bytes(b),
    ensures
        a == b,
    decreases a.len(),
{
    bytes::lemma_auto_spec_u32_to_from_le_bytes();
    lemma_words_width(a);
    lemma_words_width(b);
    if a.len() == 0 {
        assert(a =~= b);
    } else {
        lemma_words_width(a.drop_last());
        lemma_words_width(b.drop_last());
        lemma_cut(
            word_bytes(a.drop_last()),
            bytes::spec_u32_to_le_bytes(a.last()),
            word_bytes(b.drop_last()),
            bytes::spec_u32_to_le_bytes(b.last()),
        );
        lemma_words_told(a.drop_last(), b.drop_last());
        assert(a.last() == bytes::spec_u32_from_le_bytes(bytes::spec_u32_to_le_bytes(a.last())));
        assert(b.last() == bytes::spec_u32_from_le_bytes(bytes::spec_u32_to_le_bytes(b.last())));
        assert(a =~= a.drop_last().push(a.last()));
        assert(b =~= b.drop_last().push(b.last()));
    }
}

proof fn lemma_seam_told(a: Seq<u32>, r: Seq<u8>, b: Seq<u32>, t: Seq<u8>)
    requires
        fits(a),
        fits(b),
        seam_frame(a) + r == seam_frame(b) + t,
    ensures
        a == b,
        r == t,
{
    bytes::lemma_auto_spec_u32_to_from_le_bytes();
    bytes::lemma_auto_spec_u64_to_from_le_bytes();
    let (ha, hb) = (
        bytes::spec_u64_to_le_bytes(hashed(word_bytes(a))),
        bytes::spec_u64_to_le_bytes(hashed(word_bytes(b))),
    );
    let (na, nb) = (bytes::spec_u32_to_le_bytes(a.len() as u32), bytes::spec_u32_to_le_bytes(b.len() as u32));
    let (wa, wb) = (word_bytes(a), word_bytes(b));
    assert(seam_frame(a) + r =~= ha + (na + (wa + r)));
    assert(seam_frame(b) + t =~= hb + (nb + (wb + t)));
    lemma_cut(ha, na + (wa + r), hb, nb + (wb + t));
    lemma_cut(na, wa + r, nb, wb + t);
    assert(bytes::spec_u32_from_le_bytes(na) == a.len() as u32);
    assert(bytes::spec_u32_from_le_bytes(nb) == b.len() as u32);
    lemma_words_width(a);
    lemma_words_width(b);
    lemma_cut(wa, r, wb, t);
    lemma_words_told(a, b);
}

proof fn lemma_seams_told(a: Seq<Seq<u32>>, r: Seq<u8>, b: Seq<Seq<u32>>, t: Seq<u8>)
    requires
        a.len() == b.len(),
        all_fit(a),
        all_fit(b),
        seam_frames(a) + r == seam_frames(b) + t,
    ensures
        a == b,
        r == t,
    decreases a.len(),
{
    if a.len() == 0 {
        assert(a =~= b);
        assert(seam_frames(a) + r =~= r);
        assert(seam_frames(b) + t =~= t);
    } else {
        let (ra, rb) = (seam_frames(a.drop_first()) + r, seam_frames(b.drop_first()) + t);
        assert(seam_frames(a) + r =~= seam_frame(a.first()) + ra);
        assert(seam_frames(b) + t =~= seam_frame(b.first()) + rb);
        lemma_seam_told(a.first(), ra, b.first(), rb);
        lemma_seams_told(a.drop_first(), r, b.drop_first(), t);
        assert(a =~= seq![a.first()] + a.drop_first());
        assert(b =~= seq![b.first()] + b.drop_first());
    }
}

/// The length of every payload can be written down.
pub open spec fn all_fit(payloads: Seq<Seq<u32>>) -> bool {
    forall|i: int| 0 <= i < payloads.len() ==> fits(#[trigger] payloads[i])
}

/// A tick of a dump: its number and its payloads.
pub type Tick = (u32, Seq<Seq<u32>>);

/// A tick that a dump can hold.
pub open spec fn is_tick(tick: Tick) -> bool {
    tick.1.len() == SEAM_COUNT && all_fit(tick.1)
}

/// The frames of ticks, one after another.
pub open spec fn tick_frames(ticks: Seq<Tick>) -> Seq<u8>
    decreases ticks.len(),
{
    if ticks.len() == 0 {
        seq![]
    } else {
        tick_frame(ticks.first().0, ticks.first().1) + tick_frames(ticks.drop_first())
    }
}

/// A tick's frame says where it ends: of two dumps that go on alike from a tick, the ticks are
/// the same, and so is what follows them.
pub proof fn law_a_tick_reads_back(a: Tick, r: Seq<u8>, b: Tick, t: Seq<u8>)
    requires
        is_tick(a),
        is_tick(b),
        tick_frame(a.0, a.1) + r == tick_frame(b.0, b.1) + t,
    ensures
        a == b,
        r == t,
{
    bytes::lemma_auto_spec_u32_to_from_le_bytes();
    let (na, nb) = (bytes::spec_u32_to_le_bytes(a.0), bytes::spec_u32_to_le_bytes(b.0));
    assert(tick_frame(a.0, a.1) + r =~= na + (seam_frames(a.1) + r));
    assert(tick_frame(b.0, b.1) + t =~= nb + (seam_frames(b.1) + t));
    lemma_cut(na, seam_frames(a.1) + r, nb, seam_frames(b.1) + t);
    assert(bytes::spec_u32_from_le_bytes(na) == a.0);
    assert(bytes::spec_u32_from_le_bytes(nb) == b.0);
    lemma_seams_told(a.1, r, b.1, t);
}

proof fn lemma_ticks_told(a: Seq<Tick>, b: Seq<Tick>)
    requires
        forall|i: int| 0 <= i < a.len() ==> is_tick(#[trigger] a[i]),
        forall|i: int| 0 <= i < b.len() ==> is_tick(#[trigger] b[i]),
        tick_frames(a) == tick_frames(b),
    ensures
        a == b,
    decreases a.len(),
{
    bytes::lemma_auto_spec_u32_to_from_le_bytes();
    if a.len() == 0 || b.len() == 0 {
        if a.len() > 0 {
            assert(tick_frames(a).len() >= 4);
        }
        if b.len() > 0 {
            assert(tick_frames(b).len() >= 4);
        }
        assert(a =~= b);
    } else {
        let (fa, fb) = (a.first(), b.first());
        assert(is_tick(a[0]) && is_tick(b[0]));
        law_a_tick_reads_back(fa, tick_frames(a.drop_first()), fb, tick_frames(b.drop_first()));
        lemma_ticks_told(a.drop_first(), b.drop_first());
        assert(a =~= seq![fa] + a.drop_first());
        assert(b =~= seq![fb] + b.drop_first());
    }
}

/// A dump describes itself: two dumps with the same bytes have the same header and the same
/// ticks.
pub proof fn law_a_dump_reads_back(a: Seq<u8>, x: Seq<Tick>, b: Seq<u8>, y: Seq<Tick>)
    requires
        a.len() <= u32::MAX,
        b.len() <= u32::MAX,
        forall|i: int| 0 <= i < x.len() ==> is_tick(#[trigger] x[i]),
        forall|i: int| 0 <= i < y.len() ==> is_tick(#[trigger] y[i]),
        preamble(a) + tick_frames(x) == preamble(b) + tick_frames(y),
    ensures
        a == b,
        x == y,
{
    bytes::lemma_auto_spec_u32_to_from_le_bytes();
    let (na, nb) = (bytes::spec_u32_to_le_bytes(a.len() as u32), bytes::spec_u32_to_le_bytes(b.len() as u32));
    assert(preamble(a) + tick_frames(x) =~= magic() + (na + (a + tick_frames(x))));
    assert(preamble(b) + tick_frames(y) =~= magic() + (nb + (b + tick_frames(y))));
    lemma_cut(magic(), na + (a + tick_frames(x)), magic(), nb + (b + tick_frames(y)));
    lemma_cut(na, a + tick_frames(x), nb, b + tick_frames(y));
    assert(bytes::spec_u32_from_le_bytes(na) == a.len() as u32);
    assert(bytes::spec_u32_from_le_bytes(nb) == b.len() as u32);
    lemma_cut(a, tick_frames(x), b, tick_frames(y));
    lemma_ticks_told(x, y);
}

} // verus!
