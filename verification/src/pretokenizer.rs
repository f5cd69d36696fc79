//! The decisions of pretokenization: how tokenized documents are laid out as
//! bytes, when a shard file is complete and a new one begins, and how shard
//! files are named. Reading documents, tokenizing them and writing files is
//! done by the caller, who performs the steps this planner returns.

use vstd::prelude::*;

use crate::bindings::token_bytes;
use crate::words::{le_word, native_byte_of, native_bytes_of, native_u32_words, native_word_at, pow256};
use vstd::endian::{endianness, Endian};

verus! {

/// The four bytes of `w`, least significant first.
pub open spec fn le_bytes_of(w: u32) -> Seq<u8> {
    seq![(w % 256) as u8, (w / 256 % 256) as u8, (w / 65536 % 256) as u8, (w / 16777216 % 256) as u8]
}

/// The bytes written for one tokenized document: its token ids in the
/// machine's byte order, then the end-of-sequence id, least significant first.
pub open spec fn record_bytes(ids: Seq<u32>, eos_id: u32) -> Seq<u8> {
    native_bytes_of(ids) + le_bytes_of(eos_id)
}

proof fn lemma_word_from_bytes(w: u32)
    ensures
        le_word(
            (w % 256) as u8,
            (w / 256 % 256) as u8,
            (w / 65536 % 256) as u8,
            (w / 16777216 % 256) as u8,
        ) == w,
{
    let b0 = w % 256;
    let b1 = w / 256 % 256;
    let b2 = w / 65536 % 256;
    let b3 = w / 16777216 % 256;
    assert(b0 + 256 * b1 + 65536 * b2 + 16777216 * b3 == w) by (bit_vector)
        requires
            b0 == w % 256,
            b1 == w / 256 % 256,
            b2 == w / 65536 % 256,
            b3 == w / 16777216 % 256,
    ;
}

proof fn lemma_native_byte_positions(w: u32)
    ensures
        native_byte_of(w, 0) == (if endianness() == Endian::Little { (w % 256) as u8 } else { (w / 16777216 % 256) as u8 }),
        native_byte_of(w, 1) == (if endianness() == Endian::Little { (w / 256 % 256) as u8 } else { (w / 65536 % 256) as u8 }),
        native_byte_of(w, 2) == (if endianness() == Endian::Little { (w / 65536 % 256) as u8 } else { (w / 256 % 256) as u8 }),
        native_byte_of(w, 3) == (if endianness() == Endian::Little { (w / 16777216 % 256) as u8 } else { (w % 256) as u8 }),
{
    assert(pow256(0) == 1);
    assert(pow256(1) == 256);
    assert(pow256(2) == 65536);
    assert(pow256(3) == 16777216);
}

/// Reading words back from the bytes they were laid out as gives the words:
/// the machine's byte order is used both ways.
pub proof fn lemma_native_words_roundtrip(ids: Seq<u32>)
    ensures
        native_u32_words(native_bytes_of(ids)) == ids,
{
    let bytes = native_bytes_of(ids);
    assert forall|k: int| 0 <= k < ids.len() implies #[trigger] native_word_at(bytes, k) == ids[k] by {
        let w = ids[k];
        assert((4 * k) / 4 == k && (4 * k) % 4 == 0);
        assert((4 * k + 1) / 4 == k && (4 * k + 1) % 4 == 1);
        assert((4 * k + 2) / 4 == k && (4 * k + 2) % 4 == 2);
        assert((4 * k + 3) / 4 == k && (4 * k + 3) % 4 == 3);
        assert(bytes[4 * k] == native_byte_of(w, 0));
        assert(bytes[4 * k + 1] == native_byte_of(w, 1));
        assert(bytes[4 * k + 2] == native_byte_of(w, 2));
        assert(bytes[4 * k + 3] == native_byte_of(w, 3));
        lemma_native_byte_positions(w);
        lemma_word_from_bytes(w);
    }
    assert(native_u32_words(bytes) =~= ids);
}

/// Words of a concatenation of whole-word byte runs are the words of each run.
pub proof fn lemma_words_concat(a: Seq<u8>, b: Seq<u8>)
    requires
        a.len() % 4 == 0,
    ensures
        native_u32_words(a + b) == native_u32_words(a) + native_u32_words(b),
{
    let ab = a + b;
    let na = a.len() / 4;
    assert forall|k: int| 0 <= k < (ab.len() / 4) implies #[trigger] native_word_at(ab, k) == (native_u32_words(a) + native_u32_words(b))[k] by {
        if k < na {
            assert(ab[4 * k] == a[4 * k]);
            assert(ab[4 * k + 1] == a[4 * k + 1]);
            assert(ab[4 * k + 2] == a[4 * k + 2]);
            assert(ab[4 * k + 3] == a[4 * k + 3]);
        } else {
            let j = k - na;
            assert(ab[4 * k] == b[4 * j]);
            assert(ab[4 * k + 1] == b[4 * j + 1]);
            assert(ab[4 * k + 2] == b[4 * j + 2]);
            assert(ab[4 * k + 3] == b[4 * j + 3]);
        }
    }
    assert(native_u32_words(ab) =~= native_u32_words(a) + native_u32_words(b));
}

/// What pretokenization writes for a document reads back, on a little-endian
/// machine, as its token ids followed by the end-of-sequence id. (The marker is
/// written least significant byte first on every machine, so on a big-endian
/// machine it reads back byte-swapped.)
pub proof fn lemma_record_roundtrip(ids: Seq<u32>, eos_id: u32)
    requires
        endianness() == Endian::Little,
    ensures
        native_u32_words(record_bytes(ids, eos_id)) == ids.push(eos_id),
{
    let body = native_bytes_of(ids);
    let tail = le_bytes_of(eos_id);
    lemma_native_words_roundtrip(ids);
    lemma_words_concat(body, tail);
    lemma_word_from_bytes(eos_id);
    assert(native_word_at(tail, 0) == eos_id);
    assert(native_u32_words(tail) =~= seq![eos_id]);
    assert(native_u32_words(record_bytes(ids, eos_id)) =~= ids.push(eos_id));
}

/// The bytes of a shard holding `docs` in order, each written as a record.
pub open spec fn records_bytes(docs: Seq<Seq<u32>>, eos_id: u32) -> Seq<u8>
    decreases docs.len(),
{
    if docs.len() == 0 {
        Seq::empty()
    } else {
        records_bytes(docs.drop_last(), eos_id) + record_bytes(docs.last(), eos_id)
    }
}

/// The tokens of `docs` in order, each document followed by the
/// end-of-sequence id.
pub open spec fn docs_tokens(docs: Seq<Seq<u32>>, eos_id: u32) -> Seq<u32>
    decreases docs.len(),
{
    if docs.len() == 0 {
        Seq::empty()
    } else {
        docs_tokens(docs.drop_last(), eos_id) + docs.last().push(eos_id)
    }
}

/// Tokens a shard holding `docs` counts: each document's ids and its marker.
pub open spec fn tokens_with_markers(docs: Seq<Seq<u32>>) -> nat
    decreases docs.len(),
{
    if docs.len() == 0 {
        0
    } else {
        tokens_with_markers(docs.drop_last()) + docs.last().len() + 1
    }
}

/// Tokens of a whole dataset, shard `s` holding the documents `shards[s]`.
pub open spec fn dataset_tokens(shards: Seq<Seq<Seq<u32>>>) -> nat
    decreases shards.len(),
{
    if shards.len() == 0 {
        0
    } else {
        dataset_tokens(shards.drop_last()) + tokens_with_markers(shards.last())
    }
}

/// A record takes four bytes per id and four for the marker: the byte count
/// the planner is told for the document.
pub proof fn lemma_record_len(ids: Seq<u32>, eos_id: u32)
    ensures
        record_bytes(ids, eos_id).len() == 4 * ids.len() + 4,
{
}

/// A shard of records takes four bytes per counted token, and holds at least
/// one token per document.
pub proof fn lemma_records_len(docs: Seq<Seq<u32>>, eos_id: u32)
    ensures
        records_bytes(docs, eos_id).len() == 4 * tokens_with_markers(docs),
        docs_tokens(docs, eos_id).len() == tokens_with_markers(docs),
        tokens_with_markers(docs) >= docs.len(),
    decreases docs.len(),
{
    if docs.len() > 0 {
        lemma_records_len(docs.drop_last(), eos_id);
        lemma_record_len(docs.last(), eos_id);
    }
}

/// A shard written as the records of `docs` reads back, on a little-endian
/// machine, as the documents' tokens, each followed by the end-of-sequence id.
pub proof fn lemma_shard_records_roundtrip(docs: Seq<Seq<u32>>, eos_id: u32)
    requires
        endianness() == Endian::Little,
    ensures
        records_bytes(docs, eos_id).len() % 4 == 0,
        native_u32_words(records_bytes(docs, eos_id)) == docs_tokens(docs, eos_id),
    decreases docs.len(),
{
    if docs.len() == 0 {
        assert(native_u32_words(Seq::<u8>::empty()) =~= Seq::<u32>::empty());
    } else {
        lemma_shard_records_roundtrip(docs.drop_last(), eos_id);
        lemma_record_roundtrip(docs.last(), eos_id);
        lemma_words_concat(records_bytes(docs.drop_last(), eos_id), record_bytes(docs.last(), eos_id));
    }
}

/// The little-endian bytes of the end-of-sequence marker (`u32::to_le_bytes`).
pub fn eos_bytes(eos_id: u32) -> (r: [u8; 4])
    ensures
        r@ == le_bytes_of(eos_id),
{
    let r = [
        (eos_id % 256) as u8,
        (eos_id / 256 % 256) as u8,
        (eos_id / 65536 % 256) as u8,
        (eos_id / 16777216 % 256) as u8,
    ];
    assert(r@ =~= le_bytes_of(eos_id));
    r
}

/// The bytes of a document's token ids, as written to a shard: the ids' own
/// memory in the machine's byte order.
pub fn payload_bytes(ids: &[u32]) -> (r: &[u8])
    ensures
        r@ == native_bytes_of(ids@),
{
    token_bytes(ids)
}

/// The character of decimal digit `d`.
pub open spec fn digit_char(d: int) -> char {
    if d <= 0 {
        '0'
    } else if d == 1 {
        '1'
    } else if d == 2 {
        '2'
    } else if d == 3 {
        '3'
    } else if d == 4 {
        '4'
    } else if d == 5 {
        '5'
    } else if d == 6 {
        '6'
    } else if d == 7 {
        '7'
    } else if d == 8 {
        '8'
    } else {
        '9'
    }
}

/// The decimal digits of `n`, most significant first, without leading zeros.
pub open spec fn decimal(n: nat) -> Seq<char>
    decreases n,
{
    if n < 10 {
        seq![digit_char(n as int)]
    } else {
        decimal(n / 10) + seq![digit_char((n % 10) as int)]
    }
}

/// The name of shard file number `index`.
pub open spec fn shard_file_name_spec(index: nat) -> Seq<char> {
    "pretokenized_shard_"@ + decimal(index) + ".bin"@
}

proof fn lemma_decimal_len(n: nat)
    ensures
        decimal(n).len() >= 1,
        n < 10 <==> decimal(n).len() == 1,
    decreases n,
{
    if n >= 10 {
        lemma_decimal_len(n / 10);
    }
}

/// Different numbers have different decimal digits.
pub proof fn lemma_decimal_injective(a: nat, b: nat)
    requires
        decimal(a) == decimal(b),
    ensures
        a == b,
    decreases a,
{
    lemma_decimal_len(a);
    lemma_decimal_len(b);
    if a >= 10 {
        let da = decimal(a);
        let db = decimal(b);
        assert(da.drop_last() =~= decimal(a / 10));
        assert(db.drop_last() =~= decimal(b / 10));
        assert(da.last() == digit_char((a % 10) as int));
        assert(db.last() == digit_char((b % 10) as int));
        lemma_decimal_injective(a / 10, b / 10);
    } else {
        assert(decimal(a)[0] == digit_char(a as int));
        assert(decimal(b)[0] == digit_char(b as int));
    }
}

/// Shards with different numbers get different file names, so no shard file
/// overwrites another.
pub proof fn lemma_shard_file_names_distinct(a: nat, b: nat)
    requires
        a != b,
    ensures
        shard_file_name_spec(a) != shard_file_name_spec(b),
{
    if shard_file_name_spec(a) == shard_file_name_spec(b) {
        let p = "pretokenized_shard_"@;
        let x = shard_file_name_spec(a);
        let y = shard_file_name_spec(b);
        assert(x.len() == y.len());
        assert(decimal(a).len() == decimal(b).len());
        assert(x.subrange(p.len() as int, (p.len() + decimal(a).len()) as int) =~= decimal(a));
        assert(y.subrange(p.len() as int, (p.len() + decimal(b).len()) as int) =~= decimal(b));
        lemma_decimal_injective(a, b);
    }
}

fn digit_str(d: usize) -> (r: &'static str)
    requires
        d < 10,
    ensures
        r@ == seq![digit_char(d as int)],
{
    proof {
        reveal_strlit("0");
        reveal_strlit("1");
        reveal_strlit("2");
        reveal_strlit("3");
        reveal_strlit("4");
        reveal_strlit("5");
        reveal_strlit("6");
        reveal_strlit("7");
        reveal_strlit("8");
        reveal_strlit("9");
    }
    if d == 0 {
        "0"
    } else if d == 1 {
        "1"
    } else if d == 2 {
        "2"
    } else if d == 3 {
        "3"
    } else if d == 4 {
        "4"
    } else if d == 5 {
        "5"
    } else if d == 6 {
        "6"
    } else if d == 7 {
        "7"
    } else if d == 8 {
        "8"
    } else {
        "9"
    }
}

fn push_decimal(s: &mut String, n: usize)
    ensures
        final(s)@ == old(s)@ + decimal(n as nat),
    decreases n,
{
    if n >= 10 {
        push_decimal(s, n / 10);
    }
    s.append(digit_str(n % 10));
    proof {
        if n >= 10 {
            assert(decimal(n as nat) == decimal((n / 10) as nat) + seq![digit_char((n % 10) as int)]);
        }
    }
}

/// The file name of shard number `index`: `pretokenized_shard_{index}.bin`.
pub fn shard_file_name(index: usize) -> (r: String)
    ensures
        r@ == shard_file_name_spec(index as nat),
{
    let mut s = String::from_str("pretokenized_shard_");
    push_decimal(&mut s, index);
    s.append(".bin");
    s
}

/// A shard that has been completely written: its number and token count.
#[derive(Debug, PartialEq, Eq, Structural)]
pub struct FinishedShard {
    pub index: usize,
    pub tokens: usize,
}

/// What to do with one tokenized document.
#[derive(Debug)]
pub struct PayloadStep {
    /// The shard that was being written is complete: flush it first.
    pub finished: Option<FinishedShard>,
    /// A new shard file with this number must be created, and written from now on.
    pub new_shard: Option<usize>,
    /// Tokens the document adds, its end-of-sequence marker included.
    pub token_count: usize,
    /// Bytes the document adds, its end-of-sequence marker included.
    pub byte_count: usize,
}

/// The state of shard layout while documents arrive.
pub struct ShardPlanner {
    shard_size_bytes: usize,
    shard_count: usize,
    current_shard_bytes: usize,
    shard_tokens: usize,
    open: bool,
    /// Documents written to the current shard.
    shard_records: Ghost<nat>,
}

impl ShardPlanner {
    /// The most bytes a shard holds, unless a single document is larger.
    pub closed spec fn shard_size(self) -> usize {
        self.shard_size_bytes
    }

    /// Shard files begun so far.
    pub closed spec fn shard_count(self) -> usize {
        self.shard_count
    }

    /// Bytes written to the current shard.
    pub closed spec fn current_bytes(self) -> usize {
        self.current_shard_bytes
    }

    /// Tokens written to the current shard.
    pub closed spec fn current_tokens(self) -> usize {
        self.shard_tokens
    }

    /// Documents written to the current shard.
    pub closed spec fn current_records(self) -> nat {
        self.shard_records@
    }

    /// Whether a shard file is being written.
    pub closed spec fn is_open(self) -> bool {
        self.open
    }

    /// A shard is open exactly when one has been begun; an open shard holds at
    /// least one document and 4 bytes per token; and it holds at most the shard
    /// size, unless it holds a single document larger than that.
    pub open spec fn wf(self) -> bool {
        &&& self.is_open() <==> self.shard_count() > 0
        &&& !self.is_open() ==> self.current_bytes() == 0 && self.current_tokens() == 0 && self.current_records() == 0
        &&& self.is_open() ==> self.current_records() >= 1
        &&& self.current_bytes() == 4 * self.current_tokens()
        &&& self.current_bytes() > self.shard_size() ==> self.current_records() == 1
    }

    /// Whether a document of `num_ids` tokens must go to a new shard: no shard
    /// is open, or its bytes would pass the shard size.
    pub open spec fn rolls_over(self, num_ids: usize) -> bool {
        !self.is_open() || self.current_bytes() + 4 * num_ids + 4 > self.shard_size()
    }

    /// The counters stay inside `usize` after a document of `num_ids` tokens.
    pub open spec fn payload_fits_spec(self, num_ids: usize) -> bool {
        &&& 4 * num_ids + 4 <= usize::MAX
        &&& !self.is_open() || self.current_bytes() + 4 * num_ids + 4 > self.shard_size() ==> self.shard_count()
            < usize::MAX
    }

    /// Nothing written yet; shards hold at most `shard_size_bytes` bytes.
    pub fn new(shard_size_bytes: usize) -> (r: Self)
        ensures
            r.wf(),
            r.shard_size() == shard_size_bytes,
            r.shard_count() == 0,
            !r.is_open(),
    {
        ShardPlanner {
            shard_size_bytes,
            shard_count: 0,
            current_shard_bytes: 0,
            shard_tokens: 0,
            open: false,
            shard_records: Ghost(0),
        }
    }

    /// Whether [`Self::on_payload`] can take a document of `num_ids` tokens.
    pub fn payload_fits(&self, num_ids: usize) -> (r: bool)
        requires
            self.wf(),
        ensures
            r == self.payload_fits_spec(num_ids),
    {
        if num_ids > (usize::MAX - 4) / 4 {
            return false;
        }
        let byte_count = num_ids * 4 + 4;
        let rolls = !self.open || self.current_shard_bytes > self.shard_size_bytes
            || byte_count > self.shard_size_bytes - self.current_shard_bytes;
        !(rolls && self.shard_count == usize::MAX)
    }

    /// Places a document of `num_ids` token ids. When no shard is open, or the
    /// document's bytes would take the open shard past the shard size, that
    /// shard is finished and shard number `shard_count` begins; the document's
    /// bytes (ids and marker) then go to the current shard.
    pub fn on_payload(&mut self, num_ids: usize) -> (r: PayloadStep)
        requires
            old(self).wf(),
            old(self).payload_fits_spec(num_ids),
        ensures
            final(self).wf(),
            final(self).is_open(),
            final(self).shard_size() == old(self).shard_size(),
            r.token_count == num_ids + 1,
            r.byte_count == 4 * num_ids + 4,
            r.finished == (if old(self).rolls_over(num_ids) && old(self).is_open() {
                Some(FinishedShard { index: (old(self).shard_count() - 1) as usize, tokens: old(self).current_tokens() })
            } else {
                None
            }),
            r.new_shard == (if old(self).rolls_over(num_ids) { Some(old(self).shard_count()) } else { None }),
            final(self).shard_count() == old(self).shard_count() + (if old(self).rolls_over(num_ids) {
                1int
            } else {
                0int
            }),
            final(self).current_bytes() == (if old(self).rolls_over(num_ids) {
                0
            } else {
                old(self).current_bytes() as int
            }) + 4 * num_ids + 4,
            final(self).current_tokens() == (if old(self).rolls_over(num_ids) {
                0
            } else {
                old(self).current_tokens() as int
            }) + num_ids + 1,
            r.finished matches Some(done) ==> 4 * done.tokens <= old(self).shard_size() || old(self).current_records() == 1,
            old(self).is_open() && old(self).current_bytes() + 4 * num_ids + 4 <= old(self).shard_size() ==> {
                &&& r.finished is None
                &&& r.new_shard is None
                &&& final(self).shard_count() == old(self).shard_count()
                &&& final(self).current_bytes() == old(self).current_bytes() + 4 * num_ids + 4
            },
            !old(self).is_open() || old(self).current_bytes() + 4 * num_ids + 4 > old(self).shard_size() ==> {
                &&& r.finished == (if old(self).is_open() {
                    Some(FinishedShard { index: (old(self).shard_count() - 1) as usize, tokens: old(self).current_tokens() })
                } else {
                    None
                })
                &&& r.new_shard == Some(old(self).shard_count())
                &&& final(self).shard_count() == old(self).shard_count() + 1
                &&& final(self).current_bytes() == 4 * num_ids + 4
                &&& final(self).current_tokens() == num_ids + 1
            },
            final(self).current_records() == (if old(self).rolls_over(num_ids) {
                0
            } else {
                old(self).current_records() as int
            }) + 1,
    {
        let token_count = num_ids + 1;
        let byte_count = num_ids * 4 + 4;
        let mut finished = None;
        let mut new_shard = None;
        if !self.open || self.current_shard_bytes > self.shard_size_bytes
            || byte_count > self.shard_size_bytes - self.current_shard_bytes {
            if self.open {
                finished = Some(FinishedShard { index: self.shard_count - 1, tokens: self.shard_tokens });
            }
            self.shard_tokens = 0;
            new_shard = Some(self.shard_count);
            self.current_shard_bytes = 0;
            self.shard_count = self.shard_count + 1;
            self.open = true;
            self.shard_records = Ghost(0);
        }
        self.current_shard_bytes = self.current_shard_bytes + byte_count;
        self.shard_tokens = self.shard_tokens + token_count;
        self.shard_records = Ghost(self.shard_records@ + 1);
        PayloadStep { finished, new_shard, token_count, byte_count }
    }

    /// The shard left open when the documents run out, to be flushed.
    pub fn finish(&self) -> (r: Option<FinishedShard>)
        requires
            self.wf(),
        ensures
            r matches Some(done) ==> 4 * done.tokens <= self.shard_size() || self.current_records() == 1,
            r == (if self.is_open() {
                Some(FinishedShard { index: (self.shard_count() - 1) as usize, tokens: self.current_tokens() })
            } else {
                None
            }),
    {
        if self.open {
            Some(FinishedShard { index: self.shard_count - 1, tokens: self.shard_tokens })
        } else {
            None
        }
    }
}

} // verus!
