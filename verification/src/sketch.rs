//! The frequency estimator: a count-min sketch over a fixed table of
//! saturating 8-bit counters, `SKETCH_DEPTH` hashed rows wide. `increment`
//! bumps one counter per row; `estimate` reads the minimum of those counters,
//! so it may overestimate on hash collisions but never underestimates the
//! increments applied since the last halving. Once the running total of
//! increments reaches a limit proportional to the table width, every counter
//! is halved (integer division) and the total starts over, which keeps the
//! popularity signal adaptive to a changing working set.

use vstd::prelude::*;

verus! {

/// Number of hashed counter rows.
pub const SKETCH_DEPTH: usize = 4;

/// Increments tolerated per unit of table width before the counters are
/// halved.
pub const RESET_FACTOR: u64 = 10;

pub const FNV_OFFSET: u64 = 0xcbf2_9ce4_8422_2325;

pub const FNV_PRIME: u64 = 0x0000_0100_0000_01b3;

pub const SEED_0: u64 = 0x9e37_79b9_7f4a_7c15;

pub const SEED_1: u64 = 0xc2b2_ae3d_27d4_eb4f;

pub const SEED_2: u64 = 0x1656_67b1_9e37_79f9;

pub const SEED_3: u64 = 0x27d4_eb2f_1656_67c5;

/// The key as the sketch hashes it: the UTF-8 bytes of its characters.
pub open spec fn key_bytes(k: Seq<char>) -> Seq<u8> {
    vstd::utf8::encode_utf8(k)
}

pub open spec fn row_seed(r: int) -> u64 {
    if r == 0 {
        SEED_0
    } else if r == 1 {
        SEED_1
    } else if r == 2 {
        SEED_2
    } else {
        SEED_3
    }
}

pub open spec fn hash_step(h: u64, b: u8) -> u64 {
    (h ^ (b as u64)).wrapping_mul(FNV_PRIME)
}

pub open spec fn hash_rec(bs: Seq<u8>, h: u64) -> u64
    decreases bs.len(),
{
    if bs.len() == 0 {
        h
    } else {
        hash_rec(bs.drop_first(), hash_step(h, bs[0]))
    }
}

/// FNV-1a over the bytes, seeded per row.
pub open spec fn hash_of(bs: Seq<u8>, seed: u64) -> u64 {
    hash_rec(bs, seed ^ FNV_OFFSET)
}

/// The mathematical value of a sketch: its table, split conceptually into
/// `SKETCH_DEPTH` rows of `width` cells, with the running increment total and
/// the halving limit.
#[verifier::ext_equal]
pub struct SketchModel {
    pub width: nat,
    pub cells: Seq<u8>,
    pub total: nat,
    pub limit: nat,
}

pub open spec fn sm_wf(m: SketchModel) -> bool {
    &&& m.width >= 1
    &&& m.cells.len() == SKETCH_DEPTH * m.width
    &&& m.total < m.limit
}

/// The cell that row `r` attributes to a key.
pub open spec fn cell_index(width: nat, bs: Seq<u8>, r: int) -> int {
    r * width + hash_of(bs, row_seed(r)) as int % width as int
}

pub open spec fn sat_inc(c: u8) -> u8 {
    if c < 255 {
        (c + 1) as u8
    } else {
        c
    }
}

/// The table after the rows before `rows` have bumped their cell for `bs`.
spec fn bump_prefix(width: nat, cells: Seq<u8>, bs: Seq<u8>, rows: int) -> Seq<u8> {
    Seq::new(
        cells.len(),
        |p: int|
            {
                let r = p / width as int;
                if p == cell_index(width, bs, r) && r < rows {
                    sat_inc(cells[p])
                } else {
                    cells[p]
                }
            },
    )
}

/// The table after the cells before `upto` have been halved.
spec fn halve_prefix(cells: Seq<u8>, upto: int) -> Seq<u8> {
    Seq::new(
        cells.len(),
        |p: int|
            if p < upto {
                cells[p] / 2
            } else {
                cells[p]
            },
    )
}

/// All cells attributed to `bs` bumped by one (saturating), all others kept.
pub open spec fn bump_cells(width: nat, cells: Seq<u8>, bs: Seq<u8>) -> Seq<u8> {
    Seq::new(
        cells.len(),
        |p: int|
            if p == cell_index(width, bs, p / width as int) {
                sat_inc(cells[p])
            } else {
                cells[p]
            },
    )
}

pub open spec fn halve_cells(cells: Seq<u8>) -> Seq<u8> {
    cells.map_values(|c: u8| c / 2)
}

/// One recorded read of a key: bump its cells, and halve everything once the
/// running total reaches the limit.
pub open spec fn sm_increment(m: SketchModel, bs: Seq<u8>) -> SketchModel {
    let bumped = bump_cells(m.width, m.cells, bs);
    if m.total + 1 >= m.limit {
        SketchModel { width: m.width, cells: halve_cells(bumped), total: 0, limit: m.limit }
    } else {
        SketchModel { width: m.width, cells: bumped, total: m.total + 1, limit: m.limit }
    }
}

pub open spec fn min2(a: nat, b: nat) -> nat {
    if a <= b {
        a
    } else {
        b
    }
}

/// The estimated frequency of a key: the least of its row counters.
pub open spec fn est(m: SketchModel, bs: Seq<u8>) -> nat {
    min2(
        min2(m.cells[cell_index(m.width, bs, 0)] as nat, m.cells[cell_index(m.width, bs, 1)] as nat),
        min2(m.cells[cell_index(m.width, bs, 2)] as nat, m.cells[cell_index(m.width, bs, 3)] as nat),
    )
}

/// A key's cell in row `r` lies inside row `r`.
pub proof fn lemma_cell_index_bounds(width: nat, bs: Seq<u8>, r: int)
    requires
        width >= 1,
        0 <= r < SKETCH_DEPTH,
    ensures
        r * width <= cell_index(width, bs, r) < (r + 1) * width,
        cell_index(width, bs, r) / width as int == r,
{
    let hm = hash_of(bs, row_seed(r)) as int % width as int;
    assert(0 <= hm < width as int) by (nonlinear_arith)
        requires width >= 1, hm == hash_of(bs, row_seed(r)) as int % width as int,
    ;
    assert(r * width <= r * width + hm < (r + 1) * width) by (nonlinear_arith)
        requires 0 <= hm < width as int,
    ;
    assert((r * width + hm) / width as int == r) by (nonlinear_arith)
        requires width >= 1, 0 <= hm < width as int,
    ;
}

/// Frequency monotonicity: as long as no halving happens, recording a read
/// never decreases any key's estimate, and it raises the read key's own
/// estimate unless a counter has saturated.
pub proof fn lemma_increment_monotone(m: SketchModel, k: Seq<u8>, q: Seq<u8>)
    requires
        sm_wf(m),
        m.total + 1 < m.limit,
    ensures
        est(sm_increment(m, k), q) >= est(m, q),
        est(sm_increment(m, k), k) >= min2(est(m, k) + 1, 255),
{
    let m2 = sm_increment(m, k);
    assert forall|r: int| 0 <= r < SKETCH_DEPTH implies {
        &&& 0 <= cell_index(m.width, q, r) < m.cells.len()
        &&& m2.cells[cell_index(m.width, q, r)] >= m.cells[cell_index(m.width, q, r)]
    } by {
        lemma_cell_index_bounds(m.width, q, r);
        assert(SKETCH_DEPTH * m.width == 4 * m.width);
        assert((r + 1) * m.width <= 4 * m.width) by (nonlinear_arith)
            requires 0 <= r < 4,
        ;
    }
    assert forall|r: int| 0 <= r < SKETCH_DEPTH implies {
        &&& 0 <= cell_index(m.width, k, r) < m.cells.len()
        &&& m2.cells[cell_index(m.width, k, r)] == sat_inc(m.cells[cell_index(m.width, k, r)])
    } by {
        lemma_cell_index_bounds(m.width, k, r);
        assert(SKETCH_DEPTH * m.width == 4 * m.width);
        assert((r + 1) * m.width <= 4 * m.width) by (nonlinear_arith)
            requires 0 <= r < 4,
        ;
    }
}

/// The concurrent engine's frequency sketch. The table is stored row-major in
/// one vector.
pub struct FrequencySketch {
    width: usize,
    counters: Vec<u8>,
    total: u64,
    limit: u64,
}

impl FrequencySketch {
    pub closed spec fn model(&self) -> SketchModel {
        SketchModel {
            width: self.width as nat,
            cells: self.counters@,
            total: self.total as nat,
            limit: self.limit as nat,
        }
    }

    pub open spec fn wf(&self) -> bool {
        sm_wf(self.model())
    }

    /// Builds a sketch sized for the given capacity, with at least 100 cells
    /// per row so that small caches still get a usable signal. Rejecting a
    /// zero capacity is the caller's duty; the upper bound keeps the table
    /// allocatable.
    pub fn new(capacity: usize) -> (s: Self)
        requires
            1 <= capacity <= usize::MAX / 4,
        ensures
            s.wf(),
            s.model().width >= 1,
            s.model().total == 0,
            s.model().cells == Seq::new(s.model().cells.len(), |p: int| 0u8),
            forall|q: Seq<u8>| #[trigger] est(s.model(), q) == 0,
    {
        let width = if capacity < 100 {
            100
        } else {
            capacity
        };
        let limit = if width as u64 > u64::MAX / RESET_FACTOR {
            u64::MAX
        } else {
            width as u64 * RESET_FACTOR
        };
        let counters = vec![0u8; 4 * width];
        let s = FrequencySketch { width, counters, total: 0, limit };
        proof {
            assert(s.model().cells =~= Seq::new(s.model().cells.len(), |p: int| 0u8));
            assert forall|q: Seq<u8>| #[trigger] est(s.model(), q) == 0 by {
                lemma_cell_index_bounds(s.model().width, q, 0);
                lemma_cell_index_bounds(s.model().width, q, 1);
                lemma_cell_index_bounds(s.model().width, q, 2);
                lemma_cell_index_bounds(s.model().width, q, 3);
                assert(SKETCH_DEPTH * s.model().width == 4 * s.model().width);
                assert((0 + 1) * s.model().width <= 4 * s.model().width) by (nonlinear_arith);
                assert((1 + 1) * s.model().width <= 4 * s.model().width) by (nonlinear_arith);
                assert((2 + 1) * s.model().width <= 4 * s.model().width) by (nonlinear_arith);
                assert((3 + 1) * s.model().width <= 4 * s.model().width) by (nonlinear_arith);
            }
        }
        s
    }

    fn hash_row(bs: &[u8], seed: u64) -> (h: u64)
        ensures
            h == hash_of(bs@, seed),
    {
        let mut h = seed ^ FNV_OFFSET;
        proof {
            assert(bs@.skip(0) =~= bs@);
        }
        let mut i: usize = 0;
        while i < bs.len()
            invariant
                0 <= i <= bs@.len(),
                hash_rec(bs@.skip(i as int), h) == hash_of(bs@, seed),
            decreases bs@.len() - i,
        {
            proof {
                let tail = bs@.skip(i as int);
                assert(tail[0] == bs@[i as int]);
                assert(tail.drop_first() =~= bs@.skip(i as int + 1));
            }
            h = (h ^ (bs[i] as u64)).wrapping_mul(FNV_PRIME);
            i = i + 1;
        }
        proof {
            assert(bs@.skip(bs@.len() as int) =~= Seq::<u8>::empty());
        }
        h
    }

    fn row_seed_at(r: usize) -> (s: u64)
        ensures
            s == row_seed(r as int),
    {
        if r == 0 {
            SEED_0
        } else if r == 1 {
            SEED_1
        } else if r == 2 {
            SEED_2
        } else {
            SEED_3
        }
    }

    /// Records one read of the key.
    pub fn increment(&mut self, key: &str)
        requires
            old(self).wf(),
        ensures
            final(self).wf(),
            final(self).model() == sm_increment(old(self).model(), key_bytes(key@)),
    {
        let ghost m = self.model();
        let ghost kb = key_bytes(key@);
        let bs = key.as_bytes();
        proof {
            assert(self.counters@ =~= bump_prefix(m.width, m.cells, kb, 0));
        }
        let mut r: usize = 0;
        while r < 4
            invariant
                0 <= r <= 4,
                self.width as nat == m.width,
                self.total as nat == m.total,
                self.limit as nat == m.limit,
                sm_wf(m),
                bs@ == kb,
                self.counters@ == bump_prefix(m.width, m.cells, kb, r as int),
            decreases 4 - r,
        {
            let seed = Self::row_seed_at(r);
            let h = Self::hash_row(bs, seed);
            let idx = (h % self.width as u64) as usize;
            let clen = self.counters.len();
            proof {
                lemma_cell_index_bounds(m.width, kb, r as int);
                assert(idx as int == hash_of(kb, row_seed(r as int)) as int % m.width as int);
                assert(SKETCH_DEPTH * m.width == 4 * m.width);
                assert((r as int + 1) * m.width <= 4 * m.width) by (nonlinear_arith)
                    requires 0 <= r < 4,
                ;
                assert((r as int) * (m.width as int) + (idx as int) < clen as int);
            }
            let p = r * self.width + idx;
            proof {
                assert(p as int == cell_index(m.width, kb, r as int));
                assert(bump_prefix(m.width, m.cells, kb, r as int)[p as int] == m.cells[p as int]);
            }
            let c = self.counters[p];
            if c < 255 {
                self.counters[p] = c + 1;
            }
            proof {
                let w = m.width as int;
                assert(self.counters@ =~= bump_prefix(m.width, m.cells, kb, r as int + 1)) by {
                    assert forall|q: int| 0 <= q < m.cells.len() implies self.counters@[q]
                        == bump_prefix(m.width, m.cells, kb, r as int + 1)[q] by {
                        assert(0 <= q / w < 4) by (nonlinear_arith)
                            requires m.width >= 1, 0 <= q < 4 * m.width, w == m.width as int,
                        ;
                        if q != p as int && q / w == r as int {
                            assert(cell_index(m.width, kb, q / w) == p as int);
                        }
                    }
                }
            }
            r = r + 1;
        }
        proof {
            assert(self.counters@ =~= bump_cells(m.width, m.cells, kb)) by {
                assert forall|p: int| 0 <= p < m.cells.len() implies self.counters@[p]
                    == bump_cells(m.width, m.cells, kb)[p] by {
                    assert(0 <= p / (m.width as int) < 4) by (nonlinear_arith)
                        requires m.width >= 1, 0 <= p < 4 * m.width,
                    ;
                }
            }
        }
        self.total = self.total + 1;
        if self.total >= self.limit {
            let ghost bumped = self.counters@;
            let n = self.counters.len();
            proof {
                assert(self.counters@ =~= halve_prefix(bumped, 0));
            }
            let mut p: usize = 0;
            while p < n
                invariant
                    0 <= p <= n,
                    n == bumped.len(),
                    self.width as nat == m.width,
                    self.limit as nat == m.limit,
                    self.counters@ == halve_prefix(bumped, p as int),
                decreases n - p,
            {
                let c = self.counters[p];
                self.counters[p] = c / 2;
                proof {
                    assert(self.counters@ =~= halve_prefix(bumped, p as int + 1));
                }
                p = p + 1;
            }
            self.total = 0;
            proof {
                assert(self.counters@ =~= halve_cells(bumped));
            }
        }
        proof {
            assert(self.model() =~= sm_increment(m, kb));
        }
    }

    /// The key's estimated frequency, capped at the counter width.
    pub fn estimate(&self, key: &str) -> (e: u8)
        requires
            self.wf(),
        ensures
            e as nat == est(self.model(), key_bytes(key@)),
    {
        let bs = key.as_bytes();
        let c0 = self.row_cell(bs, 0);
        let c1 = self.row_cell(bs, 1);
        let c2 = self.row_cell(bs, 2);
        let c3 = self.row_cell(bs, 3);
        let m01 = if c0 <= c1 {
            c0
        } else {
            c1
        };
        let m23 = if c2 <= c3 {
            c2
        } else {
            c3
        };
        if m01 <= m23 {
            m01
        } else {
            m23
        }
    }

    fn row_cell(&self, bs: &[u8], r: usize) -> (c: u8)
        requires
            self.wf(),
            r < 4,
        ensures
            c == self.model().cells[cell_index(self.model().width, bs@, r as int)],
    {
        let seed = Self::row_seed_at(r);
        let h = Self::hash_row(bs, seed);
        let idx = (h % self.width as u64) as usize;
        let clen = self.counters.len();
        proof {
            lemma_cell_index_bounds(self.model().width, bs@, r as int);
            assert(idx as int == hash_of(bs@, row_seed(r as int)) as int
                % self.model().width as int);
            assert(SKETCH_DEPTH * self.model().width == 4 * self.model().width);
            assert((r as int + 1) * self.model().width <= 4 * self.model().width)
                by (nonlinear_arith)
                requires 0 <= r < 4,
            ;
            assert((r as int) * (self.model().width as int) + (idx as int) < clen as int);
        }
        let p = r * self.width + idx;
        proof {
            assert(p as int == cell_index(self.model().width, bs@, r as int));
        }
        self.counters[p]
    }
}

} // verus!
