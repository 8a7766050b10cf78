//! Expansion of seeds with the ChaCha20 key stream.
use rand_chacha::rand_core::SeedableRng;
use rand_chacha::ChaCha20Rng;
use vstd::prelude::*;

use crate::backend::parallel;

verus! {

/// Length of a ChaCha20 seed in bytes.
pub const SEED_LEN: usize = 32;

/// Words after which the key stream repeats: 64-bit block counter, 16 words per block.
pub const STREAM_WORDS: u128 = 0x10_0000_0000_0000_0000;

/// Word `pos` of the key stream that `rand_chacha::ChaCha20Rng` gives for `seed`.
pub uninterp spec fn keystream_word(seed: Seq<u8>, pos: nat) -> u32;

/// The words `pos..pos + len` of the key stream of `seed`.
pub open spec fn keystream(seed: Seq<u8>, pos: nat, len: nat) -> Seq<u32> {
    Seq::new(len, |i: int| keystream_word(seed, (pos + i) as nat))
}

/// Calls `rand_chacha::ChaCha20Rng::from_seed`, then `set_word_pos` and `rand::Rng::fill`:
/// the generator, moved to word `word_pos` of its stream, writes the words of the stream
/// from there on into `out`, in order. The stream is [`STREAM_WORDS`] words long.
///
/// What the single words are is not stated, only that a word depends on the seed and on
/// its place in the stream.
#[verifier::external_body]
fn read_keystream(seed: &[u8; SEED_LEN], word_pos: u128, out: &mut [u32])
    requires
        word_pos + old(out)@.len() <= STREAM_WORDS,
    ensures
        final(out)@.len() == old(out)@.len(),
        forall|i: int|
            0 <= i < final(out)@.len() ==> #[trigger] final(out)@[i] == keystream_word(
                seed@,
                (word_pos + i) as nat,
            ),
{
    let mut rng = ChaCha20Rng::from_seed(*seed);
    rng.set_word_pos(word_pos);
    rand::Rng::fill(&mut rng, out);
}

/// Fills `out` with the words of the key stream that start at `word_pos`.
pub fn fill_words_seq(seed: &[u8; SEED_LEN], out: &mut [u32], word_pos: u64)
    ensures
        final(out)@ == keystream(seed@, word_pos as nat, old(out)@.len()),
{
    assert(out.len() == out@.len());
    read_keystream(seed, word_pos as u128, out);
    proof {
        assert(out@ =~= keystream(seed@, word_pos as nat, old(out)@.len()));
    }
}

/// Fills `out` with the first words of the key stream, chunk by chunk; each chunk starts
/// from the seed again and moves to its own place.
pub fn fill_words_chunked(seed: &[u8; SEED_LEN], out: &mut [u32], chunk: usize)
    requires
        chunk > 0,
    ensures
        final(out)@ == keystream(seed@, 0, old(out)@.len()),
{
    let n: usize = out.len();
    let mut at: usize = 0;
    while at < n
        invariant
            at <= n == out@.len() == old(out)@.len(),
            n <= usize::MAX,
            chunk > 0,
            forall|i: int| 0 <= i < at ==> #[trigger] out@[i] == keystream_word(seed@, i as nat),
        decreases n - at,
    {
        let len: usize = if n - at < chunk {
            n - at
        } else {
            chunk
        };
        let ghost before = out@;
        let (_, rest) = out.split_at_mut(at);
        let (part, _) = rest.split_at_mut(len);
        fill_words_seq(seed, part, at as u64);
        proof {
            assert forall|i: int| 0 <= i < at + len implies #[trigger] out@[i] == keystream_word(
                seed@,
                i as nat,
            ) by {
                if i < at {
                    assert(out@[i] == before[i]);
                } else {
                    assert(out@[i] == keystream(seed@, at as nat, len as nat)[i - at]);
                }
            }
        }
        at = at + len;
    }
    proof {
        assert(out@ =~= keystream(seed@, 0, n as nat));
    }
}

/// Fills `out` with the first words of the key stream, split over `tasks` pieces where
/// there is more than one task and the output is long enough.
pub fn chacha20_fill_words(seed: &[u8; SEED_LEN], out: &mut [u32], tasks: usize)
    ensures
        final(out)@ == keystream(seed@, 0, old(out)@.len()),
{
    if tasks > 1 && out.len() >= parallel::PAR_MIN_WORDS && out.len() <= usize::MAX
        - parallel::CHACHA_BUFFER_WORDS {
        proof {
            parallel::lemma_chunk_len_bound(
                out@.len() as int,
                parallel::CHACHA_BUFFER_WORDS as int,
                tasks as int,
            );
        }
        let chunk: usize = parallel::balanced_chunk_len(
            out.len(),
            parallel::CHACHA_BUFFER_WORDS,
            tasks,
        );
        fill_words_chunked(seed, out, chunk);
    } else {
        fill_words_seq(seed, out, 0);
    }
}

// ---------------------------------------------------------------- word sources
/// A source of 32-bit words that are drawn one after another.
pub trait WordSource: Sized {
    /// Whether the source can be drawn from.
    spec fn ready(self) -> bool;

    /// Whether drawing from `self` may give `word` and leave the source as `after`.
    spec fn gives(self, word: u32, after: Self) -> bool;

    /// Draws the next word.
    fn next_u32(&mut self) -> (word: u32)
        requires
            old(self).ready(),
        ensures
            final(self).ready(),
            old(self).gives(word, *final(self)),
    ;
}

/// Whether drawing `words`, one after another, may lead from `before` to `after`.
pub open spec fn draws<R: WordSource>(before: R, words: Seq<u32>, after: R) -> bool
    decreases words.len(),
{
    if words.len() == 0 {
        before == after
    } else {
        exists|mid: R|
            draws(before, words.drop_last(), mid) && #[trigger] mid.gives(words.last(), after)
    }
}

/// One more draw.
pub proof fn lemma_draws_push<R: WordSource>(
    before: R,
    words: Seq<u32>,
    mid: R,
    word: u32,
    after: R,
)
    requires
        draws(before, words, mid),
        mid.gives(word, after),
    ensures
        draws(before, words.push(word), after),
{
    let all = words.push(word);
    assert(all.drop_last() =~= words);
    assert(draws(before, all.drop_last(), mid) && mid.gives(all.last(), after));
}

/// The ChaCha20 key stream of a seed, read word by word.
pub struct Keystream {
    seed: [u8; SEED_LEN],
    pos: u128,
    buffer: Vec<u32>,
    used: usize,
}

impl Keystream {
    /// The seed.
    pub closed spec fn seed(self) -> Seq<u8> {
        self.seed@
    }

    /// Place of the next word in the stream.
    pub closed spec fn pos(self) -> nat {
        self.pos as nat
    }

    /// The stream of `seed`, from its first word on.
    pub fn from_seed(seed: [u8; SEED_LEN]) -> (k: Self)
        ensures
            k.ready(),
            k.seed() == seed@,
            k.pos() == 0,
    {
        Keystream { seed, pos: 0, buffer: Vec::new(), used: 0 }
    }

    /// Reads ahead up to [`parallel::CHACHA_BUFFER_WORDS`] words.
    fn refill(&mut self)
        requires
            old(self).pos < STREAM_WORDS,
        ensures
            final(self).ready(),
            final(self).used == 0 < final(self).buffer@.len(),
            final(self).seed == old(self).seed,
            final(self).pos == old(self).pos,
    {
        let left: u128 = STREAM_WORDS - self.pos;
        let n: usize = if left < parallel::CHACHA_BUFFER_WORDS as u128 {
            left as usize
        } else {
            parallel::CHACHA_BUFFER_WORDS
        };
        let mut buffer: Vec<u32> = vec![0; n];
        read_keystream(&self.seed, self.pos, buffer.as_mut_slice());
        self.buffer = buffer;
        self.used = 0;
    }
}

impl WordSource for Keystream {
    closed spec fn ready(self) -> bool {
        &&& self.pos < STREAM_WORDS
        &&& self.used <= self.buffer@.len()
        &&& self.pos + (self.buffer@.len() - self.used) <= STREAM_WORDS
        &&& forall|i: int|
            self.used <= i < self.buffer@.len() ==> #[trigger] self.buffer@[i] == keystream_word(
                self.seed@,
                (self.pos + (i - self.used)) as nat,
            )
    }

    open spec fn gives(self, word: u32, after: Self) -> bool {
        &&& word == keystream_word(self.seed(), self.pos())
        &&& after.seed() == self.seed()
        &&& after.pos() == (self.pos() + 1) % (STREAM_WORDS as nat)
    }

    fn next_u32(&mut self) -> (word: u32) {
        if self.used == self.buffer.len() {
            self.refill();
        }
        let word: u32 = self.buffer[self.used];
        self.used = self.used + 1;
        self.pos = self.pos + 1;
        if self.pos == STREAM_WORDS {
            self.pos = 0;
        }
        word
    }
}

impl Clone for Keystream {
    fn clone(&self) -> (k: Self)
        ensures
            k.seed() == self.seed(),
            k.pos() == self.pos(),
            self.ready() ==> k.ready(),
    {
        let buffer: Vec<u32> = self.buffer.clone();
        proof {
            assert(buffer@ =~= self.buffer@);
        }
        Keystream { seed: self.seed, pos: self.pos, buffer, used: self.used }
    }
}

/// The random generator of the current thread.
pub struct ThreadWords;

/// Calls `rand::rng` and `next_u32` on the generator; nothing is claimed of the word.
#[verifier::external_body]
fn random_word() -> (word: u32) {
    rand::RngCore::next_u32(&mut rand::rng())
}

impl WordSource for ThreadWords {
    open spec fn ready(self) -> bool {
        true
    }

    open spec fn gives(self, word: u32, after: Self) -> bool {
        true
    }

    fn next_u32(&mut self) -> (word: u32) {
        random_word()
    }
}

/// Drawing from a key stream gives its words in order.
pub proof fn law_draws_are_keystream(before: Keystream, words: Seq<u32>, after: Keystream)
    requires
        draws(before, words, after),
        before.pos() + words.len() < STREAM_WORDS,
    ensures
        words == keystream(before.seed(), before.pos(), words.len()),
        after.seed() == before.seed(),
        after.pos() == before.pos() + words.len(),
    decreases words.len(),
{
    if words.len() > 0 {
        let init = words.drop_last();
        let mid = choose|mid: Keystream|
            draws(before, init, mid) && #[trigger] mid.gives(words.last(), after);
        law_draws_are_keystream(before, init, mid);
        assert(words =~= init.push(words.last()));
        vstd::arithmetic::div_mod::lemma_small_mod(mid.pos() + 1, STREAM_WORDS as nat);
    }
    assert(words =~= keystream(before.seed(), before.pos(), words.len()));
}

/// Splitting the key stream at any place and reading on from there gives the whole.
pub proof fn law_seek_is_skip(seed: Seq<u8>, start: nat, len: nat)
    requires
        start <= len,
    ensures
        keystream(seed, 0, start) + keystream(seed, start, (len - start) as nat) == keystream(
            seed,
            0,
            len,
        ),
{
    assert(keystream(seed, 0, start) + keystream(seed, start, (len - start) as nat)
        =~= keystream(seed, 0, len));
}

} // verus!
