//! The index shared by the shard loaders: element counts per shard, the byte
//! offset where each shard starts in the concatenated stream, and the total.
//! Every shard holds 4-byte tokens, so a shard of `b` bytes holds `b / 4` elements.

use vstd::prelude::*;
use crate::bindings::search_sorted;

verus! {

/// The relation the index keeps between element counts `lens`, byte offsets
/// `offs` and the element total: `offs` has one entry more than `lens`, starts
/// at 0 and grows by `4 * lens[i]` across shard `i`; the last offset is `4 * total`.
pub open spec fn index_consistent(lens: Seq<usize>, offs: Seq<usize>, total: usize) -> bool {
    &&& offs.len() == lens.len() + 1
    &&& offs[0] == 0
    &&& forall|i: int| 0 <= i < lens.len() ==> offs[i + 1] == offs[i] + 4 * #[trigger] lens[i]
    &&& 4 * total == offs[lens.len() as int]
}

/// The greatest `j <= k` with `offs[j] <= g` (or 0).
pub open spec fn last_start_at_most(offs: Seq<usize>, g: int, k: int) -> int
    decreases k,
{
    if k <= 0 {
        0
    } else if offs[k] <= g {
        k
    } else {
        last_start_at_most(offs, g, k - 1)
    }
}

/// The shard whose byte range holds global byte `g`: the last shard (or the
/// terminal boundary, index `n`) that starts at or before `g`.
pub open spec fn containing_shard(offs: Seq<usize>, g: int) -> int {
    last_start_at_most(offs, g, offs.len() - 1)
}

/// The teacher-forcing window of `batch_bytes` bytes at global byte `g`, read
/// from shard `k`: its shard and local start, when the window plus the 4-byte
/// shifted target fits inside shard `k`.
pub open spec fn tf_window_at(lens: Seq<usize>, offs: Seq<usize>, k: int, g: int, batch_bytes: int) -> Option<(int, int)> {
    if 0 <= k < lens.len() && g - offs[k] + batch_bytes + 4 <= 4 * lens[k] {
        Some((k, g - offs[k]))
    } else {
        None
    }
}

/// A shard that the offset search may land on for global byte `g`.
pub open spec fn tf_candidate(lens: Seq<usize>, offs: Seq<usize>, k: int, g: int) -> bool {
    &&& 0 <= k < lens.len()
    &&& offs[k] <= g
    &&& (offs[k] == g || k == containing_shard(offs, g))
}

/// The window request `(idx, batch)` stays inside `usize` arithmetic.
pub open spec fn tf_request_fits(lens: Seq<usize>, offs: Seq<usize>, idx: int, batch: int) -> bool {
    &&& batch * 4 <= usize::MAX
    &&& idx * (batch * 4) <= usize::MAX
    &&& forall|k: int| #![trigger offs[k]]
        tf_candidate(lens, offs, k, idx * (batch * 4))
            ==> idx * (batch * 4) - offs[k] + batch * 4 + 4 <= usize::MAX
}

/// Where a window scan starting at shard `f`, element `i`, settles: the first
/// position `(shard, element)` from which `need` elements fit inside one shard,
/// moving to the start of the next shard whenever they do not; `(n, 0)` when no
/// shard is left (or `(f, i)` unchanged when the scan starts past the last shard).
pub open spec fn settle(lens: Seq<usize>, f: int, i: int, need: int) -> (int, int)
    decreases lens.len() - f,
{
    if 0 <= f < lens.len() {
        if i + need <= lens[f] {
            (f, i)
        } else {
            settle(lens, f + 1, 0, need)
        }
    } else {
        (f, i)
    }
}

/// The element counts `lens` describe the shard contents `data`: one count per
/// shard, four bytes per element.
pub open spec fn describes(lens: Seq<usize>, data: Seq<Seq<u8>>) -> bool {
    &&& lens.len() == data.len()
    &&& forall|i: int| 0 <= i < data.len() ==> 4 * #[trigger] lens[i] == data[i].len()
}

/// Every shard holds whole 4-byte tokens.
pub open spec fn all_aligned(data: Seq<Seq<u8>>) -> bool {
    forall|i: int| 0 <= i < data.len() ==> #[trigger] data[i].len() % 4 == 0
}

/// Bytes across all shards.
pub open spec fn bytes_total(data: Seq<Seq<u8>>) -> int
    decreases data.len(),
{
    if data.len() == 0 {
        0
    } else {
        bytes_total(data.drop_last()) + data.last().len()
    }
}

pub proof fn lemma_bytes_total_step(data: Seq<Seq<u8>>, k: int)
    requires
        0 <= k < data.len(),
    ensures
        bytes_total(data.take(k + 1)) == bytes_total(data.take(k)) + data[k].len(),
{
    assert(data.take(k + 1).drop_last() =~= data.take(k));
}

pub proof fn lemma_bytes_total_prefix(data: Seq<Seq<u8>>, k: int)
    requires
        0 <= k <= data.len(),
    ensures
        0 <= bytes_total(data.take(k)) <= bytes_total(data),
    decreases data.len() - k,
{
    if k < data.len() {
        lemma_bytes_total_step(data, k);
        lemma_bytes_total_prefix(data, k + 1);
        lemma_bytes_total_nonneg(data.take(k));
    } else {
        assert(data.take(k) =~= data);
        lemma_bytes_total_nonneg(data);
    }
}

pub proof fn lemma_bytes_total_nonneg(data: Seq<Seq<u8>>)
    ensures
        bytes_total(data) >= 0,
    decreases data.len(),
{
    if data.len() > 0 {
        lemma_bytes_total_nonneg(data.drop_last());
    }
}

/// All shard bytes, concatenated in shard order.
pub open spec fn stream(data: Seq<Seq<u8>>) -> Seq<u8>
    decreases data.len(),
{
    if data.len() == 0 {
        Seq::<u8>::empty()
    } else {
        stream(data.drop_last()) + data.last()
    }
}

pub proof fn lemma_stream_len(data: Seq<Seq<u8>>)
    ensures
        stream(data).len() == bytes_total(data),
    decreases data.len(),
{
    if data.len() > 0 {
        lemma_stream_len(data.drop_last());
    }
}

proof fn lemma_stream_prefix(data: Seq<Seq<u8>>, j: int)
    requires
        0 <= j <= data.len(),
    ensures
        bytes_total(data.take(j)) <= stream(data).len(),
        stream(data).subrange(0, bytes_total(data.take(j))) == stream(data.take(j)),
    decreases data.len() - j,
{
    lemma_stream_len(data);
    lemma_stream_len(data.take(j));
    if j == data.len() {
        assert(data.take(j) =~= data);
        assert(stream(data).subrange(0, bytes_total(data.take(j))) =~= stream(data));
    } else {
        lemma_stream_prefix(data, j + 1);
        assert(data.take(j + 1).drop_last() =~= data.take(j));
        lemma_stream_len(data.take(j + 1));
        let whole = stream(data);
        let longer = stream(data.take(j + 1));
        assert(longer == stream(data.take(j)) + data[j]);
        assert(whole.subrange(0, bytes_total(data.take(j))) =~= longer.subrange(0, bytes_total(data.take(j))));
        assert(longer.subrange(0, bytes_total(data.take(j))) =~= stream(data.take(j)));
    }
}

/// Shard `k` occupies bytes `[T, T + len)` of the stream, `T` being the bytes of
/// all earlier shards.
pub proof fn lemma_stream_shard(data: Seq<Seq<u8>>, k: int)
    requires
        0 <= k < data.len(),
    ensures
        bytes_total(data.take(k)) + data[k].len() <= stream(data).len(),
        stream(data).subrange(bytes_total(data.take(k)), bytes_total(data.take(k)) + data[k].len()) == data[k],
{
    lemma_stream_prefix(data, k + 1);
    lemma_bytes_total_step(data, k);
    assert(data.take(k + 1).drop_last() =~= data.take(k));
    lemma_stream_len(data.take(k));
    let t = bytes_total(data.take(k));
    let longer = stream(data.take(k + 1));
    assert(longer == stream(data.take(k)) + data[k]);
    assert(stream(data).subrange(t, t + data[k].len()) =~= longer.subrange(t, t + data[k].len()));
    assert(longer.subrange(t, t + data[k].len()) =~= data[k]);
}

/// Under an index describing `data`, bytes `[a, b)` of shard `k` are bytes
/// `[offs[k] + a, offs[k] + b)` of the concatenated stream.
pub proof fn lemma_shard_window_in_stream(
    lens: Seq<usize>,
    offs: Seq<usize>,
    total: usize,
    data: Seq<Seq<u8>>,
    k: int,
    a: int,
    b: int,
)
    requires
        index_consistent(lens, offs, total),
        describes(lens, data),
        0 <= k < data.len(),
        0 <= a <= b <= data[k].len(),
    ensures
        offs[k] + b <= stream(data).len(),
        data[k].subrange(a, b) == stream(data).subrange(offs[k] + a, offs[k] + b),
{
    lemma_index_determined(lens, offs, total, data);
    lemma_stream_shard(data, k);
    let t = bytes_total(data.take(k));
    assert(offs[k] == t);
    let whole = stream(data);
    assert(data[k] == whole.subrange(t, t + data[k].len()));
    assert(data[k].subrange(a, b) =~= whole.subrange(t + a, t + b));
}

/// An index that describes shards `data` is determined by them: each count is
/// a quarter of the shard's byte size, each offset is the byte size of all
/// earlier shards, and the total counts every element.
pub proof fn lemma_index_determined(lens: Seq<usize>, offs: Seq<usize>, total: usize, data: Seq<Seq<u8>>)
    requires
        index_consistent(lens, offs, total),
        describes(lens, data),
    ensures
        forall|i: int| 0 <= i < data.len() ==> #[trigger] lens[i] == data[i].len() / 4,
        forall|i: int| 0 <= i <= data.len() ==> #[trigger] offs[i] == bytes_total(data.take(i)),
        4 * total == bytes_total(data),
{
    assert forall|i: int| 0 <= i <= data.len() implies #[trigger] offs[i] == bytes_total(data.take(i)) by {
        lemma_offset_is_prefix_total(lens, offs, total, data, i);
    }
    assert(data.take(data.len() as int) =~= data);
}

proof fn lemma_offset_is_prefix_total(lens: Seq<usize>, offs: Seq<usize>, total: usize, data: Seq<Seq<u8>>, i: int)
    requires
        index_consistent(lens, offs, total),
        describes(lens, data),
        0 <= i <= data.len(),
    ensures
        offs[i] == bytes_total(data.take(i)),
    decreases i,
{
    if i == 0 {
        assert(data.take(0) =~= Seq::<Seq<u8>>::empty());
    } else {
        lemma_offset_is_prefix_total(lens, offs, total, data, i - 1);
        lemma_bytes_total_step(data, i - 1);
        assert(offs[i] == offs[i - 1] + 4 * lens[i - 1]);
    }
}

/// Facts about where a scan settles.
pub proof fn lemma_settle(lens: Seq<usize>, f: int, i: int, need: int)
    requires
        f >= 0,
        i >= 0,
    ensures
        ({
            let (f2, i2) = settle(lens, f, i, need);
            &&& f2 >= f
            &&& i2 >= 0
            &&& f2 < lens.len() ==> i2 + need <= lens[f2]
            &&& f2 == f ==> i2 == i
            &&& f2 != f ==> f2 == lens.len() || i2 == 0
            &&& f2 >= lens.len() ==> (f2 == f || (f2 == lens.len() && i2 == 0))
        }),
    decreases lens.len() - f,
{
    if f < lens.len() && i + need > lens[f] {
        lemma_settle(lens, f + 1, 0, need);
    }
}

/// Offsets never decrease.
pub proof fn lemma_offsets_monotone(lens: Seq<usize>, offs: Seq<usize>, total: usize, i: int, j: int)
    requires
        index_consistent(lens, offs, total),
        0 <= i <= j <= lens.len(),
    ensures
        offs[i] <= offs[j],
    decreases j - i,
{
    if i < j {
        lemma_offsets_monotone(lens, offs, total, i, j - 1);
        assert(offs[j] == offs[j - 1] + 4 * lens[j - 1]);
    }
}

proof fn lemma_offsets_sorted(lens: Seq<usize>, offs: Seq<usize>, total: usize)
    requires
        index_consistent(lens, offs, total),
    ensures
        forall|i: int, j: int| 0 <= i <= j < offs.len() ==> offs[i] <= offs[j],
{
    assert forall|i: int, j: int| 0 <= i <= j < offs.len() implies offs[i] <= offs[j] by {
        lemma_offsets_monotone(lens, offs, total, i, j);
    }
}

pub proof fn lemma_last_start(offs: Seq<usize>, g: int, k: int)
    requires
        0 <= k < offs.len(),
        offs[0] <= g,
    ensures
        0 <= last_start_at_most(offs, g, k) <= k,
        offs[last_start_at_most(offs, g, k)] <= g,
        forall|j: int| last_start_at_most(offs, g, k) < j <= k ==> offs[j] > g,
    decreases k,
{
    if k > 0 && offs[k] > g {
        lemma_last_start(offs, g, k - 1);
    }
}

/// Shard `s` holds the teacher-forcing window at global byte `g`: it starts at
/// or before `g`, the input bytes `g .. g + bb` and the target one token later
/// lie inside it, and no empty shard before it also starts at `g`.
pub open spec fn holds_tf_window(lens: Seq<usize>, offs: Seq<usize>, s: int, g: int, bb: int) -> bool {
    &&& 0 <= s < lens.len()
    &&& offs[s] <= g
    &&& g - offs[s] + bb + 4 <= 4 * lens[s]
    &&& (s == 0 || offs[s - 1] < g || offs[s] < g)
}

/// The offsets locate the shard that holds a window: when shard `k` starts at
/// or before global byte `g`, the input bytes `g .. g + bb` and the target one
/// token later lie inside it, and no empty shard before it also starts at `g`,
/// then the shard located for `g` is `k`, the window is read at local byte
/// `g - offs[k]`, and no earlier shard starts at `g`.
pub proof fn lemma_tf_lookup_finds(lens: Seq<usize>, offs: Seq<usize>, total: usize, g: int, bb: int, k: int)
    requires
        index_consistent(lens, offs, total),
        0 <= k < lens.len(),
        bb >= 0,
        offs[k] <= g,
        g - offs[k] + bb + 4 <= 4 * lens[k],
        k == 0 || offs[k - 1] < g || offs[k] < g,
    ensures
        containing_shard(offs, g) == k,
        tf_window_at(lens, offs, containing_shard(offs, g), g, bb) == Some((k, g - offs[k])),
        forall|j: int| 0 <= j < k ==> offs[j] != g,
{
    let n = lens.len() as int;
    lemma_last_start(offs, g, n);
    let kk = last_start_at_most(offs, g, n);
    assert(offs[k + 1] == offs[k] + 4 * lens[k]);
    if kk > k {
        lemma_offsets_monotone(lens, offs, total, k + 1, kk);
    }
    if kk < k {
        assert(offs[k] > g);
    }
    assert(kk == k);
    assert forall|j: int| 0 <= j < k implies offs[j] != g by {
        if offs[k] < g {
            lemma_offsets_monotone(lens, offs, total, j, k);
        } else {
            lemma_offsets_monotone(lens, offs, total, j, k - 1);
        }
    }
}

/// Element counts, byte offsets and total of a sequence of 4-byte-token shards.
#[derive(Debug)]
pub struct ShardIndex {
    shard_lengths: Vec<usize>,
    shard_offsets: Vec<usize>,
    total_size: usize,
}

impl ShardIndex {
    /// Element count of each shard.
    pub closed spec fn lengths(self) -> Seq<usize> {
        self.shard_lengths@
    }

    /// Start byte of each shard in the concatenated stream, then the end byte.
    pub closed spec fn offsets(self) -> Seq<usize> {
        self.shard_offsets@
    }

    /// Elements across all shards.
    pub closed spec fn total(self) -> usize {
        self.total_size
    }

    pub open spec fn wf(self) -> bool {
        index_consistent(self.lengths(), self.offsets(), self.total())
    }

    /// Byte position just past the last shard.
    pub open spec fn end_offset(self) -> usize {
        self.offsets()[self.lengths().len() as int]
    }

    /// The index of no shard.
    pub fn new() -> (r: Self)
        ensures
            r.wf(),
            r.lengths() == Seq::<usize>::empty(),
            r.offsets() == seq![0usize],
            r.total() == 0,
    {
        let mut shard_offsets = Vec::new();
        shard_offsets.push(0);
        ShardIndex { shard_lengths: Vec::new(), shard_offsets, total_size: 0 }
    }

    /// The index with one more shard of `byte_len` bytes at the end.
    pub fn with_shard(self, byte_len: usize) -> (r: Self)
        requires
            self.wf(),
            byte_len % 4 == 0,
            self.end_offset() + byte_len <= usize::MAX,
        ensures
            r.wf(),
            r.lengths() == self.lengths().push((byte_len / 4) as usize),
            r.offsets() == self.offsets().push((self.end_offset() + byte_len) as usize),
            r.total() == self.total() + byte_len / 4,
    {
        let ShardIndex { mut shard_lengths, mut shard_offsets, total_size } = self;
        let n = shard_lengths.len();
        let current = shard_offsets[n];
        let num_elements = byte_len / 4;
        shard_lengths.push(num_elements);
        shard_offsets.push(current + byte_len);
        let r = ShardIndex { shard_lengths, shard_offsets, total_size: total_size + num_elements };
        proof {
            let lens = r.lengths();
            let offs = r.offsets();
            assert forall|i: int| 0 <= i < lens.len() implies offs[i + 1] == offs[i] + 4 * #[trigger] lens[i] by {
                if i < n {
                    assert(lens[i] == self.lengths()[i]);
                }
            }
        }
        r
    }

    pub fn num_shards(&self) -> (r: usize)
        requires
            self.wf(),
        ensures
            r == self.lengths().len(),
    {
        self.shard_lengths.len()
    }

    pub fn total_size(&self) -> (r: usize)
        ensures
            r == self.total(),
    {
        self.total_size
    }

    pub fn shard_lengths(&self) -> (r: &[usize])
        ensures
            r@ == self.lengths(),
    {
        self.shard_lengths.as_slice()
    }

    pub fn shard_offsets(&self) -> (r: &[usize])
        ensures
            r@ == self.offsets(),
    {
        self.shard_offsets.as_slice()
    }

    /// Locates the teacher-forcing window of `batch_elements` elements at window
    /// number `idx`: the shard and local byte start of input bytes
    /// `g .. g + 4 * batch_elements` (with `g = idx * 4 * batch_elements`), when
    /// they and the target shifted by one element lie inside one shard.
    ///
    /// The shard is found by binary search over the offsets. Empty shards share
    /// their offset with the next shard, so when `g` equals the start of an empty
    /// shard before the containing one, the search may stop at the empty shard,
    /// and then no window is returned.
    pub fn tf_batch_range(&self, idx: usize, batch_elements: usize) -> (r: Option<(usize, usize)>)
        requires
            self.wf(),
            tf_request_fits(self.lengths(), self.offsets(), idx as int, batch_elements as int),
        ensures
            ({
                let lens = self.lengths();
                let offs = self.offsets();
                let g = idx * (batch_elements * 4);
                let k = containing_shard(offs, g);
                match r {
                    Some((s, l)) => tf_window_at(lens, offs, k, g, batch_elements * 4) == Some((s as int, l as int)),
                    None => tf_window_at(lens, offs, k, g, batch_elements * 4) is None
                        || exists|j: int| 0 <= j < k && #[trigger] offs[j] == g,
                }
            }),
            r matches Some((s, l)) ==> {
                &&& s < self.lengths().len()
                &&& self.offsets()[s as int] + l == idx * (batch_elements * 4)
                &&& l + batch_elements * 4 + 4 <= 4 * self.lengths()[s as int]
            },
            forall|s: int|
                #[trigger] holds_tf_window(self.lengths(), self.offsets(), s, idx * (batch_elements * 4), batch_elements * 4)
                    ==> r == Some((s as usize, (idx * (batch_elements * 4) - self.offsets()[s]) as usize)),
    {
        let ghost lens = self.lengths();
        let ghost offs = self.offsets();
        let n = self.shard_lengths.len();
        let batch_byte_len = batch_elements * 4;
        let global = idx * batch_byte_len;
        let ghost g = global as int;
        let ghost k = containing_shard(offs, g);
        proof {
            lemma_offsets_sorted(lens, offs, self.total());
            lemma_last_start(offs, g, n as int);
        }
        let search = search_sorted(self.shard_offsets.as_slice(), global);
        let shard_idx = match search {
            Ok(exact) => {
                proof {
                    if exact < k {
                        assert(offs[exact as int] == g);
                        lemma_offsets_monotone(lens, offs, self.total(), exact as int + 1, k);
                        assert(offs[exact as int + 1] == offs[exact as int] + 4 * lens[exact as int]);
                    }
                }
                exact
            },
            Err(insertion) => {
                if insertion == 0 {
                    assert(offs[0] > g);
                    return None;
                }
                proof {
                    assert(offs[insertion - 1] < g);
                    assert(k == insertion - 1);
                }
                insertion - 1
            },
        };
        if shard_idx >= n {
            return None;
        }
        proof {
            assert(tf_candidate(lens, offs, shard_idx as int, g));
        }
        let local_start = global - self.shard_offsets[shard_idx];
        let shard_byte_len = self.shard_lengths[shard_idx] * 4;
        proof {
            assert forall|s: int| #[trigger] holds_tf_window(lens, offs, s, g, batch_byte_len as int) implies s
                == shard_idx by {
                lemma_tf_lookup_finds(lens, offs, self.total(), g, batch_byte_len as int, s);
            }
        }
        if local_start + batch_byte_len + 4 <= shard_byte_len {
            Some((shard_idx, local_start))
        } else {
            None
        }
    }

    /// Whether a window request `(idx, batch_elements)` stays inside `usize`
    /// arithmetic, as [`Self::tf_batch_range`] requires.
    pub fn tf_request_within_limits(&self, idx: usize, batch_elements: usize) -> (r: bool)
        requires
            self.wf(),
        ensures
            r == tf_request_fits(self.lengths(), self.offsets(), idx as int, batch_elements as int),
    {
        let ghost lens = self.lengths();
        let ghost offs = self.offsets();
        let n = self.shard_lengths.len();
        if batch_elements > usize::MAX / 4 {
            return false;
        }
        let batch_byte_len = batch_elements * 4;
        if batch_byte_len > 0 && idx > usize::MAX / batch_byte_len {
            proof {
                let mx = usize::MAX as int;
                let b = batch_byte_len as int;
                let q = mx / b;
                let rem = mx % b;
                vstd::arithmetic::div_mod::lemma_fundamental_div_mod(mx, b);
                assert(idx * b > mx) by (nonlinear_arith)
                    requires
                        idx > q,
                        b > 0,
                        mx == b * q + rem,
                        rem < b,
                ;
            }
            return false;
        }
        proof {
            if batch_byte_len > 0 {
                let mx = usize::MAX as int;
                let b = batch_byte_len as int;
                let q = mx / b;
                let rem = mx % b;
                vstd::arithmetic::div_mod::lemma_fundamental_div_mod(mx, b);
                assert(idx * b <= mx) by (nonlinear_arith)
                    requires
                        idx <= q,
                        b > 0,
                        mx == b * q + rem,
                        rem >= 0,
                ;
            }
        }
        let global = idx * batch_byte_len;
        let ghost g = global as int;
        proof {
            lemma_offsets_sorted(lens, offs, self.total());
            lemma_last_start(offs, g, n as int);
        }
        let mut k: usize = n;
        while k > 0 && self.shard_offsets[k] > global
            invariant
                k <= n,
                n == lens.len(),
                offs == self.offsets(),
                offs.len() == n + 1,
                self.shard_offsets@.len() == n + 1,
                self.wf(),
                forall|j: int| k < j <= n ==> offs[j] > global,
            decreases k,
        {
            k = k - 1;
        }
        proof {
            let kk = containing_shard(offs, g);
            assert(offs[k as int] <= g);
            if kk < k {
                assert(offs[k as int] > g);
            }
            if kk > k {
                assert(offs[kk] > g);
            }
            assert(kk == k);
        }
        if k < n {
            let local = global - self.shard_offsets[k];
            let r = local <= usize::MAX - 4 && batch_byte_len <= usize::MAX - 4 - local;
            proof {
                if !r {
                    assert(tf_candidate(lens, offs, k as int, g));
                } else {
                    assert forall|j: int| #![trigger offs[j]] tf_candidate(lens, offs, j, g)
                        implies g - offs[j] + batch_byte_len + 4 <= usize::MAX by {
                        if offs[j] == g {
                            assert(offs[k as int] <= g);
                        }
                    }
                }
            }
            r
        } else {
            if n > 0 && self.shard_offsets[n - 1] == global {
                let r = batch_byte_len <= usize::MAX - 4;
                proof {
                    assert(tf_candidate(lens, offs, n - 1, g));
                }
                r
            } else {
                proof {
                    assert forall|j: int| #![trigger offs[j]] tf_candidate(lens, offs, j, g)
                        implies g - offs[j] + batch_byte_len + 4 <= usize::MAX by {
                        if 0 <= j < n {
                            assert(offs[j] <= offs[n - 1]);
                            assert(offs[n - 1] <= offs[n as int]);
                        }
                    }
                }
                true
            }
        }
    }

    /// Settles a window scan (see [`settle`]): from shard `file_idx`, element
    /// `idx`, the first position where `need` elements fit in one shard.
    pub fn settle_window(&self, file_idx: usize, idx: usize, need: usize) -> (r: (usize, usize))
        requires
            self.wf(),
            file_idx < self.lengths().len() ==> idx + need <= usize::MAX,
        ensures
            (r.0 as int, r.1 as int) == settle(self.lengths(), file_idx as int, idx as int, need as int),
    {
        let ghost lens = self.lengths();
        let n = self.shard_lengths.len();
        let mut f = file_idx;
        let mut i = idx;
        while f < n
            invariant
                n == lens.len(),
                lens == self.lengths(),
                f <= n || (f == file_idx && i == idx),
                f < n ==> i + need <= usize::MAX,
                settle(lens, f as int, i as int, need as int) == settle(lens, file_idx as int, idx as int, need as int),
            decreases n - f,
        {
            if i + need <= self.shard_lengths[f] {
                return (f, i);
            }
            f = f + 1;
            i = 0;
        }
        (f, i)
    }
}

} // verus!
