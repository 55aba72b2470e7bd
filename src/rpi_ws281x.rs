//! The channel layout of the PWM/DMA controller backend. That controller
//! makes the waveform itself: it holds one 4-byte colour word per LED, of
//! which it shows the first three bytes.
use vstd::prelude::*;

verus! {

/// Channel values that one LED of the controller shows.
pub const CHANNELS_PER_LED: usize = 3;

/// Bytes in one colour word of the controller.
pub const BYTES_PER_WORD: usize = 4;

/// The number of LEDs that `num_nodes` nodes of `channels` channels each
/// occupy: the channel count divided by three, rounded up.
pub fn led_count(num_nodes: usize, channels: usize) -> (r: usize)
    requires
        num_nodes * channels + 2 <= usize::MAX,
    ensures
        r == (num_nodes * channels + 2) / 3,
{
    (num_nodes * channels + 2) / 3
}

/// Copies channel values into the colour words, three to a word, in order.
/// The fourth byte of each word keeps its value.
pub fn load_channels(words: &mut [[u8; BYTES_PER_WORD]], nodes: &[u8])
    requires
        CHANNELS_PER_LED * old(words)@.len() <= nodes@.len(),
    ensures
        final(words)@.len() == old(words)@.len(),
        forall|i: int|
            0 <= i < old(words)@.len() ==> (#[trigger] final(words)@[i])@ == seq![
                nodes@[3 * i],
                nodes@[3 * i + 1],
                nodes@[3 * i + 2],
                old(words)@[i][3],
            ],
{
    let available: usize = nodes.len();
    let mut i: usize = 0;
    while i < words.len()
        invariant
            i <= words@.len(),
            words@.len() == old(words)@.len(),
            3 * words@.len() <= nodes@.len(),
            available == nodes@.len(),
            forall|k: int|
                0 <= k < words@.len() ==> (#[trigger] words@[k])@ == if k < i {
                    seq![nodes@[3 * k], nodes@[3 * k + 1], nodes@[3 * k + 2], old(words)@[k][3]]
                } else {
                    old(words)@[k]@
                },
        decreases words@.len() - i,
    {
        let base: usize = CHANNELS_PER_LED * i;
        let word: [u8; BYTES_PER_WORD] = [nodes[base], nodes[base + 1], nodes[base + 2], words[i][3]];
        words[i] = word;
        assert(word@ =~= seq![nodes@[3 * i], nodes@[3 * i + 1], nodes@[3 * i + 2], old(words)@[i as int][3]]);
        i = i + 1;
    }
}

/// Copies already laid out colour words, four bytes to a word, in order.
pub fn load_raw_words(words: &mut [[u8; BYTES_PER_WORD]], encoded: &[u8])
    requires
        encoded@.len() == BYTES_PER_WORD * old(words)@.len(),
    ensures
        final(words)@.len() == old(words)@.len(),
        forall|i: int|
            0 <= i < old(words)@.len() ==> (#[trigger] final(words)@[i])@ == encoded@.subrange(
                4 * i,
                4 * i + 4,
            ),
{
    let available: usize = encoded.len();
    let mut i: usize = 0;
    while i < words.len()
        invariant
            i <= words@.len(),
            words@.len() == old(words)@.len(),
            encoded@.len() == 4 * words@.len(),
            available == encoded@.len(),
            forall|k: int|
                0 <= k < i ==> (#[trigger] words@[k])@ == encoded@.subrange(4 * k, 4 * k + 4),
        decreases words@.len() - i,
    {
        let base: usize = BYTES_PER_WORD * i;
        let word: [u8; BYTES_PER_WORD] = [
            encoded[base],
            encoded[base + 1],
            encoded[base + 2],
            encoded[base + 3],
        ];
        words[i] = word;
        assert(word@ =~= encoded@.subrange(4 * i, 4 * i + 4));
        i = i + 1;
    }
}

} // verus!
