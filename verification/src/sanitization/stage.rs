//! One overwrite pass and the byte stream it produces.

use crate::sanitization::mem::AlignedBuffer;
use rand::RngCore;
use rand::SeedableRng;
use vstd::prelude::*;
use vstd::string::StringExecFns;

verus! {

/// One overwrite pass: a constant byte, or the keystream of a seed.
#[derive(Debug, Clone, Copy)]
pub enum Stage {
    /// Every byte of the device becomes `value`.
    Fill { value: u8 },
    /// The device is filled with the keystream of `seed`. The seed determines
    /// every byte of the pass, whenever and from wherever it is streamed.
    Random { seed: [u8; 32] },
}

/// The byte at `offset` of the keystream that the ChaCha generator with 8
/// rounds produces for `seed` on its stream 0. The generator cycles after
/// 2^70 bytes, so the keystream repeats with that period.
pub uninterp spec fn chacha8_byte(seed: Seq<u8>, offset: int) -> u8;

/// Fills `dest` with the keystream of `seed`, starting at the 32-bit word
/// `word_pos`: a `ChaCha8Rng` is seeded with `from_seed`, positioned with
/// `set_word_pos` and drawn from with `fill_bytes`, which hands out the
/// words of the keystream in order, each as four little-endian bytes.
#[verifier::external_body]
fn keystream(seed: &[u8; 32], word_pos: u128, dest: &mut [u8])
    ensures
        final(dest)@.len() == old(dest)@.len(),
        forall|i: int|
            0 <= i < final(dest)@.len() ==> final(dest)@[i] == chacha8_byte(
                seed@,
                4 * word_pos + i,
            ),
{
    let mut generator = rand_chacha::ChaCha8Rng::from_seed(*seed);
    generator.set_word_pos(word_pos);
    generator.fill_bytes(dest);
}

/// A seed drawn from the thread-local generator of the `rand` crate, which
/// the operating system seeds. Nothing is claimed of its bytes.
#[verifier::external_body]
fn fresh_seed() -> (seed: [u8; 32]) {
    let mut seed = [0u8; 32];
    rand::thread_rng().fill_bytes(&mut seed[..]);
    seed
}

/// The character for a hexadecimal digit, in upper case.
pub open spec fn hex_digit(digit: int) -> char {
    if digit < 10 {
        ('0' as u8 + digit) as char
    } else {
        ('A' as u8 + digit - 10) as char
    }
}

/// A byte as text in hexadecimal notation: `0x` and two digits in upper case.
pub open spec fn hex_text(value: u8) -> Seq<char> {
    seq!['0', 'x', hex_digit(value as int / 16), hex_digit(value as int % 16)]
}

/// A byte as text, by the standard formatting of integers in alternate upper
/// case hexadecimal form, four characters wide and padded with zeros: the
/// prefix `0x` and two digits.
#[verifier::external_body]
fn hex_byte(value: u8) -> (text: String)
    ensures
        text@ == hex_text(value),
{
    format!("{:#04X}", value)
}

/// The number of keystream words that one block consumes: a block that ends
/// inside a word uses up the whole word.
pub open spec fn words_per_block(block_size: int) -> int {
    (block_size + 3) / 4
}

/// The keystream offset of byte `i` of chunk `k` of a stream that began at
/// device offset `start`.
pub open spec fn keystream_offset(start: int, block_size: int, k: int, i: int) -> int {
    4 * (start / 4 + k * words_per_block(block_size)) + i
}

/// The device offset at which chunk `k` of a stream begins; past the last
/// chunk it is the end of the device.
pub open spec fn chunk_offset(total_size: int, block_size: int, start: int, k: int) -> int {
    if start + k * block_size < total_size {
        start + k * block_size
    } else if start < total_size {
        total_size
    } else {
        start
    }
}

/// The length of the chunk that begins at device offset `offset`: a whole
/// block, or what is left of the device.
pub open spec fn chunk_len(total_size: int, block_size: int, offset: int) -> int {
    if offset >= total_size {
        0
    } else if total_size - offset < block_size {
        total_size - offset
    } else {
        block_size
    }
}

impl Stage {
    /// The byte that a pass leaves at device offset `offset` when its stream
    /// is word-aligned to the device.
    pub open spec fn pattern(&self, offset: int) -> u8 {
        match *self {
            Stage::Fill { value } => value,
            Stage::Random { seed } => chacha8_byte(seed@, offset),
        }
    }

    /// Byte `i` of chunk `k` of the stream of this stage that began at device
    /// offset `start`.
    pub open spec fn stream_byte(&self, start: int, block_size: int, k: int, i: int) -> u8 {
        match *self {
            Stage::Fill { value } => value,
            Stage::Random { seed } => chacha8_byte(
                seed@,
                keystream_offset(start, block_size, k, i),
            ),
        }
    }

    /// Chunk `k` of the stream of this stage over `[start, total_size)`.
    pub open spec fn chunk(
        &self,
        total_size: int,
        block_size: int,
        start: int,
        k: int,
    ) -> Seq<u8> {
        Seq::new(
            chunk_len(total_size, block_size, start + k * block_size) as nat,
            |i: int| self.stream_byte(start, block_size, k, i),
        )
    }

    /// A pass that writes `value` everywhere.
    pub fn constant(value: u8) -> (stage: Stage)
        ensures
            stage == (Stage::Fill { value }),
    {
        Stage::Fill { value }
    }

    /// A pass of zero bytes.
    pub fn zero() -> (stage: Stage)
        ensures
            stage == (Stage::Fill { value: 0 }),
    {
        Self::constant(0)
    }

    /// A pass of bytes with every bit set.
    pub fn one() -> (stage: Stage)
        ensures
            stage == (Stage::Fill { value: 0xff }),
    {
        Self::constant(0xff)
    }

    /// A random pass that is fully determined by `seed`.
    pub fn random_with_seed(seed: [u8; 32]) -> (stage: Stage)
        ensures
            stage == (Stage::Random { seed }),
    {
        Stage::Random { seed }
    }

    /// A random pass with a seed of its own.
    pub fn random() -> (stage: Stage)
        ensures
            stage is Random,
    {
        Stage::random_with_seed(fresh_seed())
    }

    /// What the stage does, in words.
    pub open spec fn description(&self) -> Seq<char> {
        match *self {
            Stage::Fill { value } => "fill with "@ + hex_text(value),
            Stage::Random { .. } => "random fill"@,
        }
    }

    /// Says in words what the stage does.
    pub fn describe(&self) -> (text: String)
        ensures
            text@ == self.description(),
    {
        match self {
            Stage::Fill { value } => {
                let number = hex_byte(*value);
                String::from_str("fill with ").concat(number.as_str())
            },
            Stage::Random { .. } => String::from_str("random fill"),
        }
    }

    /// Whether the stage is a random pass.
    pub fn is_random(&self) -> (random: bool)
        ensures
            random == (self is Random),
    {
        match self {
            Stage::Fill { .. } => false,
            Stage::Random { .. } => true,
        }
    }
}

/// The bytes of one pass over the range `[start, total_size)` of a device, in
/// chunks of `block_size` bytes and a shorter last one where the range does
/// not divide evenly. A stream runs forward only.
pub struct SanitizationStream {
    stage: Stage,
    total_size: u64,
    block_size: usize,
    start: u64,
    position: u64,
    word_pos: u128,
    buf: AlignedBuffer,
    current_block_size: usize,
    eof: bool,
    emitted: Ghost<int>,
}

impl SanitizationStream {
    /// The pass whose bytes the stream yields.
    pub closed spec fn stage(&self) -> Stage {
        self.stage
    }

    /// The end of the range.
    pub closed spec fn total_size(&self) -> u64 {
        self.total_size
    }

    /// The length of every chunk but the last.
    pub closed spec fn block_size(&self) -> usize {
        self.block_size
    }

    /// The device offset at which the stream began.
    pub closed spec fn start(&self) -> u64 {
        self.start
    }

    /// The number of chunks yielded so far.
    pub closed spec fn emitted(&self) -> int {
        self.emitted@
    }

    /// Whether the stream has been asked for a chunk after its last one.
    pub closed spec fn exhausted(&self) -> bool {
        self.eof
    }

    /// The device offset at which the next chunk begins.
    pub open spec fn offset(&self) -> int {
        chunk_offset(
            self.total_size() as int,
            self.block_size() as int,
            self.start() as int,
            self.emitted(),
        )
    }

    /// What the fields of a stream have to do with one another.
    pub closed spec fn wf(&self) -> bool {
        &&& self.block_size > 0
        &&& self.buf.wf()
        &&& self.buf@.len() == self.block_size
        &&& 0 <= self.emitted@
        &&& self.emitted@ <= self.position - self.start
        &&& self.position == chunk_offset(
            self.total_size as int,
            self.block_size as int,
            self.start as int,
            self.emitted@,
        )
        &&& self.word_pos == self.start / 4 + self.emitted@ * words_per_block(
            self.block_size as int,
        )
        &&& self.emitted@ == 0 ==> self.current_block_size == 0
        &&& self.emitted@ > 0 ==> {
            &&& self.start + (self.emitted@ - 1) * self.block_size < self.total_size
            &&& self.current_block_size == chunk_len(
                self.total_size as int,
                self.block_size as int,
                self.start + (self.emitted@ - 1) * self.block_size,
            )
        }
        &&& self.eof ==> self.position >= self.total_size
        &&& forall|i: int|
            0 <= i < self.block_size && (self.stage is Fill || self.emitted@ > 0)
                ==> #[trigger] self.buf@[i] == self.stage.stream_byte(
                self.start as int,
                self.block_size as int,
                self.emitted@ - 1,
                i,
            )
    }

    /// Moves on to the next chunk, or notes that there is none.
    pub fn advance(&mut self)
        requires
            old(self).wf(),
        ensures
            final(self).wf(),
            final(self).stage() == old(self).stage(),
            final(self).total_size() == old(self).total_size(),
            final(self).block_size() == old(self).block_size(),
            final(self).start() == old(self).start(),
            !old(self).exhausted() && old(self).offset() < old(self).total_size() ==> {
                &&& final(self).emitted() == old(self).emitted() + 1
                &&& !final(self).exhausted()
            },
            old(self).exhausted() || old(self).offset() >= old(self).total_size() ==> {
                &&& final(self).emitted() == old(self).emitted()
                &&& final(self).exhausted()
            },
    {
        if !self.eof && self.position < self.total_size {
            let left: u64 = self.total_size - self.position;
            let chunk_size: usize = if left < self.block_size as u64 {
                left as usize
            } else {
                self.block_size
            };
            let words: u128 = (self.block_size as u128 + 3) / 4;
            let ghost k = self.emitted@;
            proof {
                assert(k * words_per_block(self.block_size as int) <= 0x1_0000_0000_0000_0000
                    * 0x8000_0000_0000_0000) by (nonlinear_arith)
                    requires
                        0 <= k <= 0x1_0000_0000_0000_0000,
                        0 <= words_per_block(self.block_size as int) <= 0x8000_0000_0000_0000,
                ;
                assert((k + 1) * words_per_block(self.block_size as int) == k * words_per_block(
                    self.block_size as int,
                ) + words_per_block(self.block_size as int)) by (nonlinear_arith);
                assert((k + 1) * self.block_size == k * self.block_size + self.block_size)
                    by (nonlinear_arith);
            }
            match self.stage {
                Stage::Fill { .. } => {},
                Stage::Random { seed } => {
                    let region = self.buf.as_mut_slice();
                    keystream(&seed, self.word_pos, region);
                },
            }
            self.current_block_size = chunk_size;
            self.position = self.position + chunk_size as u64;
            self.word_pos = self.word_pos + words;
            self.emitted = Ghost(k + 1);
        } else {
            self.eof = true;
        }
    }

    /// The current chunk: none once the stream is exhausted, and an empty one
    /// before the first call of `advance`.
    pub fn get(&self) -> (chunk: Option<&[u8]>)
        requires
            self.wf(),
        ensures
            self.exhausted() ==> chunk is None,
            !self.exhausted() ==> chunk is Some,
            !self.exhausted() && self.emitted() == 0 ==> chunk->0@.len() == 0,
            !self.exhausted() && self.emitted() > 0 ==> chunk->0@ == self.stage().chunk(
                self.total_size() as int,
                self.block_size() as int,
                self.start() as int,
                self.emitted() - 1,
            ),
    {
        if !self.eof {
            let region = self.buf.as_slice();
            let chunk = vstd::slice::slice_subrange(region, 0, self.current_block_size);
            proof {
                if self.emitted@ > 0 {
                    assert(chunk@ =~= self.stage.chunk(
                        self.total_size as int,
                        self.block_size as int,
                        self.start as int,
                        self.emitted@ - 1,
                    ));
                }
            }
            Some(chunk)
        } else {
            None
        }
    }

    /// Yields the next chunk, or nothing once the range is covered.
    pub fn next(&mut self) -> (chunk: Option<&[u8]>)
        requires
            old(self).wf(),
        ensures
            final(self).wf(),
            final(self).stage() == old(self).stage(),
            final(self).total_size() == old(self).total_size(),
            final(self).block_size() == old(self).block_size(),
            final(self).start() == old(self).start(),
            !old(self).exhausted() && old(self).offset() < old(self).total_size() ==> {
                &&& chunk is Some
                &&& chunk->0@ == old(self).stage().chunk(
                    old(self).total_size() as int,
                    old(self).block_size() as int,
                    old(self).start() as int,
                    old(self).emitted(),
                )
                &&& final(self).emitted() == old(self).emitted() + 1
                &&& !final(self).exhausted()
            },
            old(self).exhausted() || old(self).offset() >= old(self).total_size() ==> {
                &&& chunk is None
                &&& final(self).emitted() == old(self).emitted()
                &&& final(self).exhausted()
            },
    {
        self.advance();
        self.get()
    }
}

impl Stage {
    /// Starts the stream of this pass over `[start_from, total_size)` in
    /// chunks of `block_size` bytes.
    pub fn stream(&self, total_size: u64, block_size: usize, start_from: u64) -> (stream:
        SanitizationStream)
        requires
            block_size > 0,
            2 * block_size <= usize::MAX,
        ensures
            stream.wf(),
            stream.stage() == *self,
            stream.total_size() == total_size,
            stream.block_size() == block_size,
            stream.start() == start_from,
            stream.emitted() == 0,
            !stream.exhausted(),
    {
        let mut buf = AlignedBuffer::new(block_size, block_size);
        match self {
            Stage::Fill { value } => {
                buf.fill(*value);
            },
            Stage::Random { .. } => {},
        }
        let word_pos: u64 = start_from >> 2;
        proof {
            assert(start_from >> 2 == start_from / 4) by (bit_vector);
            assert(0 * words_per_block(block_size as int) == 0) by (nonlinear_arith);
            assert(0 * block_size == 0) by (nonlinear_arith);
        }
        SanitizationStream {
            stage: *self,
            total_size,
            block_size,
            start: start_from,
            position: start_from,
            word_pos: word_pos as u128,
            buf,
            current_block_size: 0,
            eof: false,
            emitted: Ghost(0),
        }
    }
}

/// The number of chunks in the stream over `[start, total_size)`: as many
/// blocks as it takes to cover the range.
pub open spec fn chunk_count(total_size: int, block_size: int, start: int) -> int {
    if start >= total_size {
        0
    } else {
        (total_size - start + block_size - 1) / block_size
    }
}

/// A stream yields as many chunks as it takes blocks to cover its range. All
/// of them are whole blocks but for the last, which holds what is left of the
/// range: the whole range less the blocks before it.
pub proof fn lemma_chunks_cover_the_range(total_size: int, block_size: int, start: int, k: int)
    requires
        0 < block_size,
        0 <= start,
        0 <= k,
    ensures
        k < chunk_count(total_size, block_size, start) <==> start + k * block_size < total_size,
        k + 1 < chunk_count(total_size, block_size, start) ==> chunk_len(
            total_size,
            block_size,
            start + k * block_size,
        ) == block_size,
        k + 1 == chunk_count(total_size, block_size, start) ==> chunk_len(
            total_size,
            block_size,
            start + k * block_size,
        ) == total_size - start - block_size * k,
        k >= chunk_count(total_size, block_size, start) ==> chunk_len(
            total_size,
            block_size,
            start + k * block_size,
        ) == 0,
{
    let count = chunk_count(total_size, block_size, start);
    if start < total_size {
        let range = total_size - start;
        assert(k < count <==> k * block_size < range) by (nonlinear_arith)
            requires
                0 < block_size,
                0 < range,
                0 <= k,
                count == (range + block_size - 1) / block_size,
        {
            let q = (range + block_size - 1) / block_size;
            assert(q * block_size <= range + block_size - 1);
            assert(range + block_size - 1 < (q + 1) * block_size);
            if k < q {
                assert((k + 1) * block_size <= q * block_size);
            } else {
                assert(q * block_size <= k * block_size);
            }
        }
        assert(k + 1 < count <==> (k + 1) * block_size < range) by (nonlinear_arith)
            requires
                0 < block_size,
                0 < range,
                0 <= k,
                count == (range + block_size - 1) / block_size,
        {
            let q = (range + block_size - 1) / block_size;
            assert(q * block_size <= range + block_size - 1);
            assert(range + block_size - 1 < (q + 1) * block_size);
            if k + 1 < q {
                assert((k + 2) * block_size <= q * block_size);
            } else {
                assert(q * block_size <= (k + 1) * block_size);
            }
        }
        assert((k + 1) * block_size == k * block_size + block_size) by (nonlinear_arith);
        assert(block_size * k == k * block_size) by (nonlinear_arith);
    } else {
        assert(k * block_size >= 0) by (nonlinear_arith)
            requires
                0 < block_size,
                0 <= k,
        ;
    }
}

/// A stream that starts on a keystream word, in blocks made of whole words,
/// yields at every device offset the byte of its pass's pattern. A constant
/// pass does so in any case.
pub proof fn lemma_stream_follows_pattern(
    stage: Stage,
    start: int,
    block_size: int,
    k: int,
    i: int,
)
    requires
        stage is Fill || (start % 4 == 0 && block_size % 4 == 0),
        0 <= start,
        0 < block_size,
        0 <= k,
    ensures
        stage.stream_byte(start, block_size, k, i) == stage.pattern(start + k * block_size + i),
{
    if stage is Random {
        assert(keystream_offset(start, block_size, k, i) == start + k * block_size + i)
            by (nonlinear_arith)
            requires
                start % 4 == 0,
                block_size % 4 == 0,
                0 <= start,
                0 < block_size,
                0 <= k,
                keystream_offset(start, block_size, k, i) == 4 * (start / 4 + k * ((block_size
                    + 3) / 4)) + i,
        {
            assert((block_size + 3) / 4 == block_size / 4);
            assert(4 * (start / 4) == start);
            assert(4 * (block_size / 4) == block_size);
            assert(4 * (k * (block_size / 4)) == k * (4 * (block_size / 4)));
        }
    }
}

/// Random streams are positional: where the offset `later` is a multiple of
/// four and blocks are made of whole keystream words, the stream of a seed
/// that starts at `later` yields at every device offset the byte that the
/// stream of the same seed that starts at offset 0 yields there.
pub proof fn lemma_random_streams_agree(
    seed: [u8; 32],
    block_size: int,
    later: int,
    k: int,
    i: int,
    k_later: int,
    i_later: int,
)
    requires
        0 < block_size,
        block_size % 4 == 0,
        0 <= later,
        later % 4 == 0,
        0 <= k,
        0 <= k_later,
        k * block_size + i == later + k_later * block_size + i_later,
    ensures
        (Stage::Random { seed }).stream_byte(0, block_size, k, i) == (Stage::Random {
            seed,
        }).stream_byte(later, block_size, k_later, i_later),
{
    let stage = Stage::Random { seed };
    lemma_stream_follows_pattern(stage, 0, block_size, k, i);
    lemma_stream_follows_pattern(stage, later, block_size, k_later, i_later);
}

/// Every byte that the stream of a constant pass yields is the pass's value.
pub proof fn lemma_constant_stream_is_constant(
    value: u8,
    total_size: int,
    block_size: int,
    start: int,
    k: int,
    i: int,
)
    requires
        0 <= i < (Stage::Fill { value }).chunk(total_size, block_size, start, k).len(),
    ensures
        (Stage::Fill { value }).chunk(total_size, block_size, start, k)[i] == value,
{
}

} // verus!
