//! The chunk planner: cuts the blocks of an image into chunks and deals the
//! chunks out to the workers.
//!
//! Live metadata tends to sit in a few places of a device. The chunks are
//! therefore shuffled before they are dealt out, so that each worker gets
//! chunks from all over the image.

use crate::block::MAX_BLOCKS;
use rand::seq::SliceRandom;
use vstd::arithmetic::div_mod::{
    lemma_basic_div, lemma_div_pos_is_pos, lemma_fundamental_div_mod,
    lemma_fundamental_div_mod_converse,
};
use vstd::prelude::*;

verus! {

/// A chunk: the blocks from `.0` up to, but not including, `.1`.
pub type Chunk = (u64, u64);

/// The fewest blocks in a chunk.
pub const MIN_CHUNK_SIZE: u64 = 128;

/// The most blocks in a chunk.
pub const MAX_CHUNK_SIZE: u64 = 4096;

/// How many chunks a worker should get where the image is large enough.
pub const CHUNKS_PER_JOB: u64 = 64;

/// `n / d`, rounded up.
pub open spec fn spec_div_up(n: int, d: int) -> int {
    (n + d - 1) / d
}

/// The number of blocks in a chunk: the blocks per worker, divided by 64 and
/// held between 128 and 4096.
pub open spec fn spec_chunk_size(nr_blocks: u64, nr_jobs: u64) -> int {
    let share = nr_blocks as int / (nr_jobs as int * 64);
    if share < 128 {
        128
    } else if share > 4096 {
        4096
    } else {
        share
    }
}

/// The number of chunks of an image.
pub open spec fn spec_nr_chunks(nr_blocks: u64, nr_jobs: u64) -> int {
    spec_div_up(nr_blocks as int, spec_chunk_size(nr_blocks, nr_jobs))
}

/// The `i`-th chunk where each chunk has `size` blocks. A chunk that would
/// end beyond the largest block number ends there.
pub open spec fn spec_chunk(i: int, size: int) -> Chunk {
    (
        (i * size) as u64,
        if (i + 1) * size <= u64::MAX {
            ((i + 1) * size) as u64
        } else {
            u64::MAX
        },
    )
}

/// The chunks of an image, in the order of their blocks. The last one may
/// reach beyond the end of the image.
pub open spec fn spec_chunks(nr_blocks: u64, nr_jobs: u64) -> Seq<Chunk> {
    Seq::new(
        spec_nr_chunks(nr_blocks, nr_jobs) as nat,
        |i: int| spec_chunk(i, spec_chunk_size(nr_blocks, nr_jobs)),
    )
}

/// How many of `len` items go to worker `j` when they are dealt out in turn
/// to `nr_jobs` workers.
pub open spec fn spec_bucket_len(len: int, nr_jobs: int, j: int) -> int {
    if j < len {
        (len - 1 - j) / nr_jobs + 1
    } else {
        0
    }
}

/// The items that go to worker `j` when `items` are dealt out in turn to
/// `nr_jobs` workers: those at `j`, `j + nr_jobs`, `j + 2 * nr_jobs`, ...
pub open spec fn spec_bucket(items: Seq<Chunk>, nr_jobs: int, j: int) -> Seq<Chunk> {
    Seq::new(
        spec_bucket_len(items.len() as int, nr_jobs, j) as nat,
        |k: int| items[j + k * nr_jobs],
    )
}

/// The contents of each bucket of `vs`.
pub open spec fn spec_bucket_views(vs: Seq<Vec<Chunk>>) -> Seq<Seq<Chunk>> {
    Seq::new(vs.len(), |j: int| vs[j]@)
}

/// `buckets` is what dealing `items` out to `nr_jobs` workers gives.
pub open spec fn spec_dealt(buckets: Seq<Seq<Chunk>>, items: Seq<Chunk>, nr_jobs: u64) -> bool {
    &&& buckets.len() == nr_jobs
    &&& forall|j: int|
        0 <= j < nr_jobs ==> #[trigger] buckets[j] == spec_bucket(items, nr_jobs as int, j)
}

/// `buckets` is a plan for an image of `nr_blocks` blocks and `nr_jobs`
/// workers: the chunks of the image in some order, dealt out in turn.
pub open spec fn spec_is_plan(buckets: Seq<Seq<Chunk>>, nr_blocks: u64, nr_jobs: u64) -> bool {
    exists|order: Seq<Chunk>|
        #[trigger] order.to_multiset() == spec_chunks(nr_blocks, nr_jobs).to_multiset()
            && spec_dealt(buckets, order, nr_jobs)
}

/// A chunk cut off at the end of the image.
pub open spec fn spec_clamp(chunk: Chunk, nr_blocks: u64) -> Chunk {
    (
        if chunk.0 < nr_blocks {
            chunk.0
        } else {
            nr_blocks
        },
        if chunk.1 < nr_blocks {
            chunk.1
        } else {
            nr_blocks
        },
    )
}

/// Block `b` lies in the `k`-th chunk of bucket `j`, cut off at the end of
/// the image.
pub open spec fn spec_covers(
    buckets: Seq<Seq<Chunk>>,
    j: int,
    k: int,
    b: int,
    nr_blocks: u64,
) -> bool {
    &&& 0 <= j < buckets.len()
    &&& 0 <= k < buckets[j].len()
    &&& spec_clamp(buckets[j][k], nr_blocks).0 <= b < spec_clamp(buckets[j][k], nr_blocks).1
}

/// Block `b` lies in some chunk of `buckets`.
pub open spec fn spec_covered(buckets: Seq<Seq<Chunk>>, b: int, nr_blocks: u64) -> bool {
    exists|j: int, k: int| #[trigger] spec_covers(buckets, j, k, b, nr_blocks)
}

/// The number of workers that pack an image: one per processor, but no more
/// than one per 128 blocks, and at least one.
pub open spec fn spec_pack_jobs(cpus: u64, nr_blocks: u64) -> u64 {
    let most = nr_blocks / 128;
    let jobs = if cpus < most {
        cpus
    } else {
        most
    };
    if jobs < 1 {
        1
    } else {
        jobs
    }
}

/// Divides and rounds up.
pub fn div_up(n: u64, d: u64) -> (r: u64)
    requires
        d > 0,
    ensures
        r == spec_div_up(n as int, d as int),
{
    let q = n / d;
    let rest = n % d;
    proof {
        lemma_fundamental_div_mod(n as int, d as int);
        assert(d * q == q * d) by (nonlinear_arith);
    }
    if rest == 0 {
        proof {
            lemma_fundamental_div_mod_converse(n + d - 1, d as int, q as int, d - 1);
        }
        q
    } else {
        proof {
            assert((q + 1) * d == q * d + d) by (nonlinear_arith);
            assert(q * d >= q * 2) by (nonlinear_arith)
                requires
                    d >= 2,
                    q >= 0,
            ;
            lemma_fundamental_div_mod_converse(n + d - 1, d as int, q + 1, rest - 1);
        }
        q + 1
    }
}

/// Computes the number of blocks in a chunk.
pub fn chunk_size(nr_blocks: u64, nr_jobs: u64) -> (r: u64)
    requires
        nr_jobs >= 1,
    ensures
        r == spec_chunk_size(nr_blocks, nr_jobs),
        MIN_CHUNK_SIZE <= r <= MAX_CHUNK_SIZE,
{
    let share = match nr_jobs.checked_mul(CHUNKS_PER_JOB) {
        Some(d) => nr_blocks / d,
        None => {
            proof {
                lemma_basic_div(nr_blocks as int, nr_jobs as int * 64);
            }
            0
        },
    };
    if share < MIN_CHUNK_SIZE {
        MIN_CHUNK_SIZE
    } else if share > MAX_CHUNK_SIZE {
        MAX_CHUNK_SIZE
    } else {
        share
    }
}

/// Each chunk of an image starts within the image and ends within one chunk
/// of its end. It holds `size` blocks, unless it would end beyond the
/// largest block number, which no chunk of an image of at most `MAX_BLOCKS`
/// blocks does.
pub proof fn lemma_chunk_bounds(nr_blocks: u64, nr_jobs: u64, i: int)
    requires
        nr_jobs >= 1,
        0 <= i < spec_nr_chunks(nr_blocks, nr_jobs),
    ensures
        ({
            let size = spec_chunk_size(nr_blocks, nr_jobs);
            let chunk = spec_chunks(nr_blocks, nr_jobs)[i];
            &&& 0 <= i * size < nr_blocks
            &&& (i + 1) * size == i * size + size
            &&& (i + 1) * size <= nr_blocks + size - 1
            &&& chunk == spec_chunk(i, size)
            &&& chunk.0 == i * size
            &&& chunk.1 == (if (i + 1) * size <= u64::MAX {
                (i + 1) * size
            } else {
                u64::MAX as int
            })
            &&& chunk.0 < chunk.1
            &&& nr_blocks <= MAX_BLOCKS ==> chunk.1 == (i + 1) * size
        }),
{
    let size = spec_chunk_size(nr_blocks, nr_jobs);
    let n = nr_blocks as int;
    let m = spec_nr_chunks(nr_blocks, nr_jobs);
    lemma_fundamental_div_mod(n + size - 1, size);
    assert(size * m <= n + size - 1);
    assert((i + 1) * size <= m * size) by (nonlinear_arith)
        requires
            i + 1 <= m,
            size > 0,
    ;
    assert(size * m == m * size) by (nonlinear_arith);
    assert((i + 1) * size == i * size + size) by (nonlinear_arith);
    assert(0 <= i * size) by (nonlinear_arith)
        requires
            0 <= i,
            size > 0,
    ;
}

/// Cuts the blocks of an image into chunks of `chunk_size` blocks each. The
/// last chunk may reach beyond the end of the image, but no further than the
/// largest block number.
pub fn mk_chunks(nr_blocks: u64, nr_jobs: u64) -> (chunks: Vec<Chunk>)
    requires
        nr_jobs >= 1,
    ensures
        chunks@ == spec_chunks(nr_blocks, nr_jobs),
{
    let size = chunk_size(nr_blocks, nr_jobs);
    let nr_chunks = div_up(nr_blocks, size);
    let mut chunks: Vec<Chunk> = Vec::new();
    let mut i: u64 = 0;
    while i < nr_chunks
        invariant
            nr_jobs >= 1,
            size == spec_chunk_size(nr_blocks, nr_jobs),
            nr_chunks == spec_nr_chunks(nr_blocks, nr_jobs),
            i <= nr_chunks,
            chunks@.len() == i,
            forall|k: int| 0 <= k < i ==> chunks@[k] == spec_chunk(k, size as int),
        decreases nr_chunks - i,
    {
        proof {
            lemma_chunk_bounds(nr_blocks, nr_jobs, i as int);
        }
        let lo = i * size;
        let hi = match lo.checked_add(size) {
            Some(hi) => hi,
            None => u64::MAX,
        };
        chunks.push((lo, hi));
        i = i + 1;
    }
    assert(chunks@ =~= spec_chunks(nr_blocks, nr_jobs));
    chunks
}

/// `rand::seq::SliceRandom::shuffle`, with the generator that
/// `rand::thread_rng` gives: puts the items of `v` in a random order. The
/// shuffle only swaps items, so the same items are there afterwards, each as
/// often as before; nothing is said of their order.
#[verifier::external_body]
pub(crate) fn shuffle<T>(v: &mut Vec<T>)
    ensures
        final(v)@.to_multiset() == old(v)@.to_multiset(),
{
    let mut rng = rand::thread_rng();
    v.shuffle(&mut rng);
}

/// `num_cpus::get`: the number of processors that this process may use.
/// It depends on the machine, so nothing is said of it.
#[verifier::external_body]
fn cpu_count() -> usize {
    num_cpus::get()
}

/// How many items worker `j` has after one more item was dealt out.
proof fn lemma_bucket_len_step(c: int, n: int, j: int)
    requires
        0 <= c,
        0 < n,
        0 <= j < n,
    ensures
        j == c % n ==> spec_bucket_len(c + 1, n, j) == spec_bucket_len(c, n, j) + 1 && j
            + spec_bucket_len(c, n, j) * n == c,
        j != c % n ==> spec_bucket_len(c + 1, n, j) == spec_bucket_len(c, n, j),
{
    let q = c / n;
    let r = c % n;
    lemma_fundamental_div_mod(c, n);
    assert(n * q == q * n) by (nonlinear_arith);
    if j == r {
        // c - j is q * n
        lemma_fundamental_div_mod_converse(c - j, n, q, 0);
        if j < c {
            assert(q >= 1) by (nonlinear_arith)
                requires
                    q * n == c - j,
                    c - j > 0,
                    n > 0,
            ;
            assert((q - 1) * n == q * n - n) by (nonlinear_arith);
            lemma_fundamental_div_mod_converse(c - 1 - j, n, q - 1, n - 1);
        } else {
            assert(q == 0) by (nonlinear_arith)
                requires
                    q * n == c - j,
                    c - j == 0,
                    n > 0,
            ;
        }
    } else if j < c {
        // c - j is not a multiple of n, so c - 1 - j and c - j have the same quotient
        let d = c - j;
        let dq = d / n;
        let dr = d % n;
        lemma_fundamental_div_mod(d, n);
        assert(n * dq == dq * n) by (nonlinear_arith);
        if dr == 0 {
            // then c = j + dq * n, so c % n == j
            lemma_fundamental_div_mod_converse(c, n, dq, j);
            assert(false);
        }
        lemma_fundamental_div_mod_converse(d - 1, n, dq, dr - 1);
    } else if j == c {
        lemma_fundamental_div_mod_converse(c, n, 0, c);
        assert(false);
    }
}

/// The item that worker `j` gets as its `k`-th is one of the items.
proof fn lemma_bucket_index(len: int, n: int, j: int, k: int)
    requires
        0 < n,
        0 <= j < n,
        0 <= k < spec_bucket_len(len, n, j),
    ensures
        0 <= j + k * n < len,
        (j + k * n) % n == j,
        (j + k * n) / n == k,
{
    let top = (len - 1 - j) / n;
    lemma_fundamental_div_mod(len - 1 - j, n);
    assert(n * top == top * n) by (nonlinear_arith);
    assert(k * n <= top * n) by (nonlinear_arith)
        requires
            k <= top,
            n > 0,
    ;
    assert(0 <= k * n) by (nonlinear_arith)
        requires
            0 <= k,
            n > 0,
    ;
    lemma_fundamental_div_mod_converse(j + k * n, n, k, j);
}

/// Each item goes to one worker: the item at `p` is the `p / n`-th of
/// worker `p % n`.
proof fn lemma_bucket_of_index(len: int, n: int, p: int)
    requires
        0 < n,
        0 <= p < len,
    ensures
        0 <= p % n < n,
        0 <= p / n < spec_bucket_len(len, n, p % n),
        p % n + (p / n) * n == p,
{
    let j = p % n;
    let k = p / n;
    lemma_fundamental_div_mod(p, n);
    assert(n * k == k * n) by (nonlinear_arith);
    assert(0 <= k) by (nonlinear_arith)
        requires
            k * n + j == p,
            0 <= p,
            0 <= j < n,
            n > 0,
    ;
    // len - 1 - j >= k * n, so its quotient is at least k
    let d = len - 1 - j;
    lemma_fundamental_div_mod(d, n);
    let dq = d / n;
    assert(n * dq == dq * n) by (nonlinear_arith);
    assert(dq >= k) by (nonlinear_arith)
        requires
            dq * n + d % n == d,
            0 <= d % n < n,
            d >= k * n,
            n > 0,
    ;
}

/// Deals the items out in turn to `nr_jobs` workers.
pub fn distribute(chunks: &Vec<Chunk>, nr_jobs: u64) -> (vs: Vec<Vec<Chunk>>)
    requires
        nr_jobs >= 1,
    ensures
        spec_dealt(spec_bucket_views(vs@), chunks@, nr_jobs),
{
    let mut vs: Vec<Vec<Chunk>> = Vec::new();
    let mut j: u64 = 0;
    while j < nr_jobs
        invariant
            j <= nr_jobs,
            vs@.len() == j,
            forall|t: int| 0 <= t < j ==> (#[trigger] vs@[t])@.len() == 0,
        decreases nr_jobs - j,
    {
        vs.push(Vec::new());
        j = j + 1;
    }
    let mut c: usize = 0;
    assert forall|t: int| 0 <= t < nr_jobs implies (#[trigger] vs@[t])@ == spec_bucket(
        chunks@.take(0),
        nr_jobs as int,
        t,
    ) by {
        assert(vs@[t]@ =~= spec_bucket(chunks@.take(0), nr_jobs as int, t));
    }
    while c < chunks.len()
        invariant
            nr_jobs >= 1,
            c <= chunks@.len(),
            vs@.len() == nr_jobs,
            forall|t: int|
                0 <= t < nr_jobs ==> (#[trigger] vs@[t])@ == spec_bucket(
                    chunks@.take(c as int),
                    nr_jobs as int,
                    t,
                ),
        decreases chunks@.len() - c,
    {
        let nr_buckets = vs.len();
        assert(c as u64 % nr_jobs < nr_buckets);
        let turn = (c as u64 % nr_jobs) as usize;
        let ghost before = vs@;
        vs[turn].push(chunks[c]);
        proof {
            let n = nr_jobs as int;
            let dealt = chunks@.take(c as int);
            let more = chunks@.take(c + 1);
            assert forall|t: int| 0 <= t < nr_jobs implies (#[trigger] vs@[t])@ == spec_bucket(
                more,
                n,
                t,
            ) by {
                lemma_bucket_len_step(c as int, n, t);
                let was = spec_bucket(dealt, n, t);
                let now = spec_bucket(more, n, t);
                assert(before[t]@ == was);
                assert forall|k: int| 0 <= k < was.len() implies was[k] == now[k] by {
                    lemma_bucket_index(c as int, n, t, k);
                }
                if t == turn {
                    assert(vs@[t]@ == was.push(chunks@[c as int]));
                    assert(now[was.len() as int] == chunks@[c as int]);
                    assert(vs@[t]@ =~= now);
                } else {
                    assert(vs@[t] == before[t]);
                    assert(vs@[t]@ =~= now);
                }
            }
        }
        c = c + 1;
    }
    proof {
        assert(chunks@.take(c as int) =~= chunks@);
        let buckets = spec_bucket_views(vs@);
        assert forall|t: int| 0 <= t < nr_jobs implies #[trigger] buckets[t] == spec_bucket(
            chunks@,
            nr_jobs as int,
            t,
        ) by {
            assert(buckets[t] == vs@[t]@);
        }
    }
    vs
}

/// Plans the packing of an image: cuts it into chunks, shuffles them, and
/// deals them out to `nr_jobs` workers. Each call may put the chunks in
/// another order.
pub fn mk_chunk_vecs(nr_blocks: u64, nr_jobs: u64) -> (vs: Vec<Vec<Chunk>>)
    requires
        nr_jobs >= 1,
    ensures
        spec_is_plan(spec_bucket_views(vs@), nr_blocks, nr_jobs),
{
    let mut chunks = mk_chunks(nr_blocks, nr_jobs);
    shuffle(&mut chunks);
    let vs = distribute(&chunks, nr_jobs);
    assert(chunks@.to_multiset() == spec_chunks(nr_blocks, nr_jobs).to_multiset());
    vs
}

/// The chunk that holds a block is the one numbered by the block's number
/// divided by the chunk size.
proof fn lemma_chunk_of_block(nr_blocks: u64, nr_jobs: u64, b: int)
    requires
        nr_jobs >= 1,
        0 <= b < nr_blocks,
    ensures
        ({
            let size = spec_chunk_size(nr_blocks, nr_jobs);
            let i = b / size;
            &&& 0 <= i < spec_nr_chunks(nr_blocks, nr_jobs)
            &&& i * size <= b < (i + 1) * size
        }),
{
    let size = spec_chunk_size(nr_blocks, nr_jobs);
    let m = spec_nr_chunks(nr_blocks, nr_jobs);
    let i = b / size;
    lemma_fundamental_div_mod(b, size);
    lemma_div_pos_is_pos(b, size);
    assert(size * i == i * size) by (nonlinear_arith);
    assert((i + 1) * size == i * size + size) by (nonlinear_arith);
    let top = nr_blocks + size - 1;
    lemma_fundamental_div_mod(top, size);
    assert(size * m == m * size) by (nonlinear_arith);
    assert(i < m) by (nonlinear_arith)
        requires
            i * size <= b,
            b < nr_blocks,
            m * size + top % size == top,
            0 <= top % size < size,
            top == nr_blocks + size - 1,
            size > 0,
    ;
}

/// A block lies in one chunk only.
proof fn lemma_chunk_unique(size: int, i: int, b: int)
    requires
        size > 0,
        i * size <= b < (i + 1) * size,
    ensures
        i == b / size,
{
    assert((i + 1) * size == i * size + size) by (nonlinear_arith);
    lemma_fundamental_div_mod_converse(b, size, i, b - i * size);
}

/// Sequences that hold the same items, each as often, hold the same items.
proof fn lemma_same_items(a: Seq<Chunk>, b: Seq<Chunk>, x: Chunk)
    requires
        a.to_multiset() == b.to_multiset(),
        a.contains(x),
    ensures
        b.contains(x),
{
    a.to_multiset_ensures();
    b.to_multiset_ensures();
    assert(a.to_multiset().count(x) > 0);
    assert(b.to_multiset().count(x) > 0);
}

/// A plan covers the image: each block of the image lies in a chunk of the
/// plan, in one only, and the chunks, cut off at the end of the image, hold
/// nothing but blocks of the image. Where there are at least as many chunks
/// as workers, each worker gets a chunk. No chunk is empty.
pub proof fn lemma_chunk_coverage(buckets: Seq<Seq<Chunk>>, nr_blocks: u64, nr_jobs: u64)
    requires
        nr_jobs >= 1,
        spec_is_plan(buckets, nr_blocks, nr_jobs),
    ensures
        forall|b: int| 0 <= b < nr_blocks ==> #[trigger] spec_covered(buckets, b, nr_blocks),
        forall|b: int, j1: int, k1: int, j2: int, k2: int|
            #[trigger] spec_covers(buckets, j1, k1, b, nr_blocks) && #[trigger] spec_covers(
                buckets,
                j2,
                k2,
                b,
                nr_blocks,
            ) ==> j1 == j2 && k1 == k2,
        forall|b: int, j: int, k: int| #[trigger]
            spec_covers(buckets, j, k, b, nr_blocks) ==> 0 <= b < nr_blocks,
        spec_nr_chunks(nr_blocks, nr_jobs) >= nr_jobs ==> forall|j: int|
            0 <= j < nr_jobs ==> (#[trigger] buckets[j]).len() >= 1,
        forall|j: int, k: int|
            0 <= j < buckets.len() && 0 <= k < buckets[j].len() ==> (#[trigger] buckets[j][k]).0
                < buckets[j][k].1,
{
    let chunks = spec_chunks(nr_blocks, nr_jobs);
    let size = spec_chunk_size(nr_blocks, nr_jobs);
    let m = spec_nr_chunks(nr_blocks, nr_jobs);
    let n = nr_jobs as int;
    let order = choose|order: Seq<Chunk>|
        #[trigger] order.to_multiset() == spec_chunks(nr_blocks, nr_jobs).to_multiset()
            && spec_dealt(buckets, order, nr_jobs);
    lemma_div_pos_is_pos(nr_blocks + size - 1, size);
    assert(chunks.len() == m);
    // No chunk occurs twice, before the shuffle or after it.
    assert forall|a: int, c: int| 0 <= a < m && 0 <= c < m && a != c implies chunks[a]
        != chunks[c] by {
        lemma_chunk_bounds(nr_blocks, nr_jobs, a);
        lemma_chunk_bounds(nr_blocks, nr_jobs, c);
        assert(a * size != c * size) by (nonlinear_arith)
            requires
                a != c,
                size > 0,
        ;
    }
    assert(chunks.no_duplicates());
    chunks.lemma_multiset_has_no_duplicates();
    order.lemma_multiset_has_no_duplicates_conv();
    chunks.to_multiset_ensures();
    order.to_multiset_ensures();
    assert(order.len() == m);
    assert forall|j: int| 0 <= j < n implies #[trigger] buckets[j].len() == spec_bucket_len(
        m,
        n,
        j,
    ) by {
        assert(buckets[j] == spec_bucket(order, n, j));
    }
    // The chunk at each place of a bucket is one of the chunks of the image.
    assert forall|j: int, k: int| 0 <= j < buckets.len() && 0 <= k < buckets[j].len() implies {
        let p = j + k * n;
        &&& 0 <= p < m
        &&& p % n == j
        &&& p / n == k
        &&& #[trigger] buckets[j][k] == order[p]
        &&& chunks.contains(order[p])
    } by {
        assert(buckets[j] == spec_bucket(order, n, j));
        lemma_bucket_index(m, n, j, k);
        assert(order.contains(order[j + k * n]));
        lemma_same_items(order, chunks, order[j + k * n]);
    }
    assert forall|b: int| 0 <= b < nr_blocks implies #[trigger] spec_covered(
        buckets,
        b,
        nr_blocks,
    ) by {
        lemma_chunk_of_block(nr_blocks, nr_jobs, b);
        let i = b / size;
        lemma_chunk_bounds(nr_blocks, nr_jobs, i);
        assert(chunks.contains(chunks[i]));
        lemma_same_items(chunks, order, chunks[i]);
        let p = choose|p: int| 0 <= p < order.len() && order[p] == chunks[i];
        lemma_bucket_of_index(m, n, p);
        let j = p % n;
        let k = p / n;
        assert(buckets[j] == spec_bucket(order, n, j));
        assert(buckets[j][k] == order[p]);
        assert(spec_covers(buckets, j, k, b, nr_blocks));
    }
    assert forall|b: int, j1: int, k1: int, j2: int, k2: int|
        #[trigger] spec_covers(buckets, j1, k1, b, nr_blocks) && #[trigger] spec_covers(
            buckets,
            j2,
            k2,
            b,
            nr_blocks,
        ) implies j1 == j2 && k1 == k2 by {
        let first_place = j1 + k1 * n;
        let second_place = j2 + k2 * n;
        let x1 = buckets[j1][k1];
        let x2 = buckets[j2][k2];
        assert(x1 == order[first_place] && chunks.contains(order[first_place]));
        assert(x2 == order[second_place] && chunks.contains(order[second_place]));
        let i1 = choose|i: int| 0 <= i < chunks.len() && chunks[i] == x1;
        let i2 = choose|i: int| 0 <= i < chunks.len() && chunks[i] == x2;
        lemma_chunk_bounds(nr_blocks, nr_jobs, i1);
        lemma_chunk_bounds(nr_blocks, nr_jobs, i2);
        lemma_chunk_unique(size, i1, b);
        lemma_chunk_unique(size, i2, b);
        assert(order[first_place] == order[second_place]);
        assert(first_place == second_place);
    }
    if m >= n {
        assert forall|j: int| 0 <= j < n implies (#[trigger] buckets[j]).len() >= 1 by {
            lemma_div_pos_is_pos(m - 1 - j, n);
        }
    }
    assert forall|j: int, k: int| 0 <= j < buckets.len() && 0 <= k < buckets[j].len() implies (
    #[trigger] buckets[j][k]).0 < buckets[j][k].1 by {
        let x = buckets[j][k];
        assert(chunks.contains(x));
        let i = choose|i: int| 0 <= i < chunks.len() && chunks[i] == x;
        lemma_chunk_bounds(nr_blocks, nr_jobs, i);
    }
}

/// Cuts a chunk off at the end of the image.
pub fn clamp_chunk(chunk: Chunk, nr_blocks: u64) -> (r: Chunk)
    ensures
        r == spec_clamp(chunk, nr_blocks),
{
    let lo = if chunk.0 < nr_blocks {
        chunk.0
    } else {
        nr_blocks
    };
    let hi = if chunk.1 < nr_blocks {
        chunk.1
    } else {
        nr_blocks
    };
    (lo, hi)
}

/// The number of workers for packing on a machine with `cpus` processors.
pub fn pack_jobs(cpus: u64, nr_blocks: u64) -> (r: u64)
    ensures
        r == spec_pack_jobs(cpus, nr_blocks),
        r >= 1,
{
    let most = nr_blocks / 128;
    let jobs = if cpus < most {
        cpus
    } else {
        most
    };
    if jobs < 1 {
        1
    } else {
        jobs
    }
}

/// The number of workers for packing on this machine.
pub fn nr_pack_jobs(nr_blocks: u64) -> (r: u64)
    ensures
        exists|cpus: u64| r == #[trigger] spec_pack_jobs(cpus, nr_blocks),
        r >= 1,
{
    pack_jobs(cpu_count() as u64, nr_blocks)
}

/// The number of workers for unpacking on a machine with `cpus` processors:
/// one per processor, and at least one.
pub fn unpack_jobs(cpus: usize) -> (r: usize)
    ensures
        r == (if cpus < 1 {
            1
        } else {
            cpus as int
        }),
{
    if cpus < 1 {
        1
    } else {
        cpus
    }
}

/// The number of workers for unpacking on this machine.
pub fn nr_unpack_jobs() -> (r: usize)
    ensures
        r >= 1,
{
    unpack_jobs(cpu_count())
}

} // verus!
