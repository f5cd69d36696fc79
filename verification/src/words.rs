//! How shard bytes read as 4-byte tokens. Tokens are reinterpreted in place,
//! so they follow the byte order of the machine (vstd's `endianness()`).

use vstd::prelude::*;
use vstd::endian::{endianness, Endian};

verus! {

/// The unsigned value of four bytes, least significant first.
pub open spec fn le_word(b0: u8, b1: u8, b2: u8, b3: u8) -> u32 {
    (b0 as int + 256 * b1 as int + 65536 * b2 as int + 16777216 * b3 as int) as u32
}

/// Token `k` of `bytes` in the machine's byte order.
pub open spec fn native_word_at(bytes: Seq<u8>, k: int) -> u32 {
    match endianness() {
        Endian::Little => le_word(bytes[4 * k], bytes[4 * k + 1], bytes[4 * k + 2], bytes[4 * k + 3]),
        Endian::Big => le_word(bytes[4 * k + 3], bytes[4 * k + 2], bytes[4 * k + 1], bytes[4 * k]),
    }
}

/// All whole tokens of `bytes` as unsigned words.
pub open spec fn native_u32_words(bytes: Seq<u8>) -> Seq<u32> {
    Seq::new(bytes.len() / 4, |k: int| native_word_at(bytes, k))
}

/// All whole tokens of `bytes` as signed words (two's complement of the same bits).
pub open spec fn native_i32_words(bytes: Seq<u8>) -> Seq<i32> {
    Seq::new(bytes.len() / 4, |k: int| native_word_at(bytes, k) as i32)
}

/// The bytes of `words` in the machine's byte order: the inverse reading.
pub open spec fn native_bytes_of(words: Seq<u32>) -> Seq<u8> {
    Seq::new(4 * words.len(), |j: int| native_byte_of(words[j / 4], j % 4))
}

/// Byte `j` (0..4) of `w` in the machine's byte order.
pub open spec fn native_byte_of(w: u32, j: int) -> u8 {
    let le_pos = match endianness() {
        Endian::Little => j,
        Endian::Big => 3 - j,
    };
    ((w as int / pow256(le_pos)) % 256) as u8
}

pub open spec fn pow256(e: int) -> int {
    if e <= 0 {
        1
    } else if e == 1 {
        256
    } else if e == 2 {
        65536
    } else {
        16777216
    }
}

/// The words of a whole-word window of `bytes` are the matching run of the
/// words of `bytes`.
pub proof fn lemma_words_of_window(bytes: Seq<u8>, a: int, m: int)
    requires
        0 <= a,
        0 <= m,
        4 * (a + m) <= bytes.len(),
    ensures
        native_u32_words(bytes.subrange(4 * a, 4 * (a + m))) == native_u32_words(bytes).subrange(a, a + m),
{
    let sub = bytes.subrange(4 * a, 4 * (a + m));
    assert forall|t: int| 0 <= t < m implies #[trigger] native_word_at(sub, t) == native_word_at(bytes, a + t) by {
        assert(sub[4 * t] == bytes[4 * (a + t)]);
        assert(sub[4 * t + 1] == bytes[4 * (a + t) + 1]);
        assert(sub[4 * t + 2] == bytes[4 * (a + t) + 2]);
        assert(sub[4 * t + 3] == bytes[4 * (a + t) + 3]);
    }
    assert(native_u32_words(sub) =~= native_u32_words(bytes).subrange(a, a + m));
}

/// As [`lemma_words_of_window`], for signed words.
pub proof fn lemma_i32_words_of_window(bytes: Seq<u8>, a: int, m: int)
    requires
        0 <= a,
        0 <= m,
        4 * (a + m) <= bytes.len(),
    ensures
        native_i32_words(bytes.subrange(4 * a, 4 * (a + m))) == native_i32_words(bytes).subrange(a, a + m),
{
    lemma_words_of_window(bytes, a, m);
    let sub = bytes.subrange(4 * a, 4 * (a + m));
    assert forall|t: int| 0 <= t < m implies #[trigger] native_i32_words(sub)[t] == native_i32_words(bytes)[a + t] by {
        assert(native_u32_words(sub)[t] == native_u32_words(bytes).subrange(a, a + m)[t]);
    }
    assert(native_i32_words(sub) =~= native_i32_words(bytes).subrange(a, a + m));
}

/// Signed words carry the same bits as unsigned words.
pub proof fn lemma_i32_words(bytes: Seq<u8>)
    ensures
        native_i32_words(bytes) == native_u32_words(bytes).map_values(|w: u32| w as i32),
{
    assert(native_i32_words(bytes) =~= native_u32_words(bytes).map_values(|w: u32| w as i32));
}

proof fn lemma_word_bytes(b0: u8, b1: u8, b2: u8, b3: u8)
    ensures
        le_word(b0, b1, b2, b3) as int % 256 == b0,
        le_word(b0, b1, b2, b3) as int / 256 % 256 == b1,
        le_word(b0, b1, b2, b3) as int / 65536 % 256 == b2,
        le_word(b0, b1, b2, b3) as int / 16777216 % 256 == b3,
{
    let w = b0 as int + 256 * b1 as int + 65536 * b2 as int + 16777216 * b3 as int;
    assert(0 <= w < 0x1_0000_0000);
    assert(le_word(b0, b1, b2, b3) as int == w);
    assert(w % 256 == b0);
    assert(w / 256 == b1 as int + 256 * b2 as int + 65536 * b3 as int);
    assert(w / 65536 == b2 as int + 256 * b3 as int);
    assert(w / 16777216 == b3 as int);
}

/// Reading bytes as words and laying the words out again gives the bytes back:
/// a window read as words holds exactly the bytes of the raw window.
pub proof fn lemma_bytes_of_words(bytes: Seq<u8>)
    requires
        bytes.len() % 4 == 0,
    ensures
        native_bytes_of(native_u32_words(bytes)) == bytes,
{
    let words = native_u32_words(bytes);
    assert forall|j: int| 0 <= j < bytes.len() implies #[trigger] native_bytes_of(words)[j] == bytes[j] by {
        let k = j / 4;
        let r = j % 4;
        assert(j == 4 * k + r);
        assert(0 <= k < words.len());
        lemma_word_bytes(bytes[4 * k], bytes[4 * k + 1], bytes[4 * k + 2], bytes[4 * k + 3]);
        lemma_word_bytes(bytes[4 * k + 3], bytes[4 * k + 2], bytes[4 * k + 1], bytes[4 * k]);
        assert(pow256(0) == 1);
        assert(pow256(1) == 256);
        assert(pow256(2) == 65536);
        assert(pow256(3) == 16777216);
    }
    assert(native_bytes_of(words) =~= bytes);
}

} // verus!
