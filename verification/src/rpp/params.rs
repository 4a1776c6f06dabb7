//! Description of the cache that is profiled.
use vstd::prelude::*;

verus! {

/// Size of a memory page in bytes.
pub const PAGE_SIZE: usize = 4096;

/// The numbers that describe a cache, as mathematical integers.
pub ghost struct CacheGeometry {
    /// Size of one cache line in bytes.
    pub bytes_per_line: int,
    /// Associativity: the number of lines in one set.
    pub lines_per_set: int,
    /// Lines of one set that the connection can occupy.
    pub reachable_lines: int,
    /// Size of the cache in bytes.
    pub cache_size: int,
    /// Number of pages in the pool of addresses to work with.
    pub addr_num: int,
}

impl CacheGeometry {
    /// The geometry describes a cache whose derived quantities exist and fit
    /// the machine: line size and associativity are positive, a line is no
    /// longer than a page, one set and the work buffer have representable
    /// sizes.
    pub open spec fn valid(self) -> bool {
        &&& 0 < self.bytes_per_line <= PAGE_SIZE
        &&& 0 < self.lines_per_set <= usize::MAX
        &&& 0 <= self.reachable_lines <= usize::MAX
        &&& 0 <= self.cache_size <= usize::MAX
        &&& 0 <= self.addr_num
        &&& self.lines_per_set * self.bytes_per_line <= usize::MAX
        &&& self.addr_num * PAGE_SIZE <= usize::MAX
    }

    /// Total number of sets in the cache.
    pub open spec fn n_sets(self) -> int {
        self.cache_size / (self.lines_per_set * self.bytes_per_line)
    }

    /// Number of sets that one memory page covers.
    pub open spec fn n_sets_per_page(self) -> int {
        PAGE_SIZE as int / self.bytes_per_line
    }

    /// Number of page colors: pages of different colors share no set.
    pub open spec fn n_colors(self) -> int {
        self.n_sets() / self.n_sets_per_page()
    }

    /// Size in bytes of the buffer that the address pool spans.
    pub open spec fn v_buf(self) -> int {
        self.addr_num * PAGE_SIZE
    }
}

/// Parameters of the last level cache of the targeted processor.
#[derive(Clone, Copy, Debug)]
pub struct CacheParams {
    bytes_per_line: usize,
    lines_per_set: usize,
    reachable_lines: usize,
    cache_size: usize,
    addr_num: usize,
}

impl View for CacheParams {
    type V = CacheGeometry;

    closed spec fn view(&self) -> CacheGeometry {
        CacheGeometry {
            bytes_per_line: self.bytes_per_line as int,
            lines_per_set: self.lines_per_set as int,
            reachable_lines: self.reachable_lines as int,
            cache_size: self.cache_size as int,
            addr_num: self.addr_num as int,
        }
    }
}

impl CacheParams {
    #[verifier::type_invariant]
    spec fn well_formed(self) -> bool {
        self@.valid()
    }

    /// The geometry that the five numbers make up.
    pub open spec fn geometry(
        bytes_per_line: usize,
        lines_per_set: usize,
        reachable_lines: usize,
        cache_size: usize,
        addr_num: usize,
    ) -> CacheGeometry {
        CacheGeometry {
            bytes_per_line: bytes_per_line as int,
            lines_per_set: lines_per_set as int,
            reachable_lines: reachable_lines as int,
            cache_size: cache_size as int,
            addr_num: addr_num as int,
        }
    }

    /// Describes a cache. `addr_num` is the number of page-aligned addresses
    /// to build eviction sets from.
    pub fn new(
        bytes_per_line: usize,
        lines_per_set: usize,
        reachable_lines: usize,
        cache_size: usize,
        addr_num: usize,
    ) -> (p: CacheParams)
        requires
            Self::geometry(
                bytes_per_line,
                lines_per_set,
                reachable_lines,
                cache_size,
                addr_num,
            ).valid(),
        ensures
            p@ == Self::geometry(
                bytes_per_line,
                lines_per_set,
                reachable_lines,
                cache_size,
                addr_num,
            ),
    {
        CacheParams { bytes_per_line, lines_per_set, reachable_lines, cache_size, addr_num }
    }

    /// Describes a cache if the five numbers make up a valid geometry.
    pub fn try_new(
        bytes_per_line: usize,
        lines_per_set: usize,
        reachable_lines: usize,
        cache_size: usize,
        addr_num: usize,
    ) -> (r: Option<CacheParams>)
        ensures
            r is Some <==> Self::geometry(
                bytes_per_line,
                lines_per_set,
                reachable_lines,
                cache_size,
                addr_num,
            ).valid(),
            r matches Some(p) ==> p@ == Self::geometry(
                bytes_per_line,
                lines_per_set,
                reachable_lines,
                cache_size,
                addr_num,
            ),
    {
        if bytes_per_line == 0 || bytes_per_line > PAGE_SIZE || lines_per_set == 0 {
            return None;
        }
        if lines_per_set.checked_mul(bytes_per_line).is_none() {
            return None;
        }
        if addr_num.checked_mul(PAGE_SIZE).is_none() {
            return None;
        }
        Some(CacheParams::new(bytes_per_line, lines_per_set, reachable_lines, cache_size, addr_num))
    }
}

/// Xeon E5, 20 MiB, all twenty ways reachable.
pub fn xeon_e5() -> (p: CacheParams)
    ensures
        p@ == CacheParams::geometry(64, 20, 20, 20_971_520, 5000),
        RppParams::of(p@) == (RppParams {
            n_lines: 20,
            n_sets: 16384,
            n_sets_per_page: 64,
            n_colors: 256,
            v_buf: 20_480_000,
        }),
{
    assert(20int * 64int == 1280int);
    assert(20_971_520int / 1280int == 16384int);
    assert(4096int / 64int == 64int);
    assert(16384int / 64int == 256int);
    CacheParams::new(64, 20, 20, 20_971_520, 5000)
}

/// Xeon E5, 20 MiB, two ways reachable through direct cache access.
pub fn xeon_e5_ddio() -> (p: CacheParams)
    ensures
        p@ == CacheParams::geometry(64, 20, 2, 20_971_520, 5000),
        RppParams::of(p@) == (RppParams {
            n_lines: 2,
            n_sets: 16384,
            n_sets_per_page: 64,
            n_colors: 256,
            v_buf: 20_480_000,
        }),
{
    assert(20int * 64int == 1280int);
    assert(20_971_520int / 1280int == 16384int);
    assert(4096int / 64int == 64int);
    assert(16384int / 64int == 256int);
    CacheParams::new(64, 20, 2, 20_971_520, 5000)
}

/// Core i7, 6 MiB, all twelve ways reachable.
pub fn core_i7() -> (p: CacheParams)
    ensures
        p@ == CacheParams::geometry(64, 12, 12, 6_291_456, 5000),
        RppParams::of(p@) == (RppParams {
            n_lines: 12,
            n_sets: 8192,
            n_sets_per_page: 64,
            n_colors: 128,
            v_buf: 20_480_000,
        }),
{
    assert(12int * 64int == 768int);
    assert(6_291_456int / 768int == 8192int);
    assert(4096int / 64int == 64int);
    assert(8192int / 64int == 128int);
    CacheParams::new(64, 12, 12, 6_291_456, 5000)
}

/// Core i7, 6 MiB, with two reachable ways, for trials.
pub fn core_i7_ddio() -> (p: CacheParams)
    ensures
        p@ == CacheParams::geometry(64, 12, 2, 6_291_456, 5000),
        RppParams::of(p@) == (RppParams {
            n_lines: 2,
            n_sets: 8192,
            n_sets_per_page: 64,
            n_colors: 128,
            v_buf: 20_480_000,
        }),
{
    assert(12int * 64int == 768int);
    assert(6_291_456int / 768int == 8192int);
    assert(4096int / 64int == 64int);
    assert(8192int / 64int == 128int);
    CacheParams::new(64, 12, 2, 6_291_456, 5000)
}

/// Xeon Platinum, 33 MiB, all eleven ways reachable.
pub fn xeon_platinum() -> (p: CacheParams)
    ensures
        p@ == CacheParams::geometry(64, 11, 11, 34_603_008, 5000),
        RppParams::of(p@) == (RppParams {
            n_lines: 11,
            n_sets: 49152,
            n_sets_per_page: 64,
            n_colors: 768,
            v_buf: 20_480_000,
        }),
{
    assert(11int * 64int == 704int);
    assert(34_603_008int / 704int == 49152int);
    assert(4096int / 64int == 64int);
    assert(49152int / 64int == 768int);
    CacheParams::new(64, 11, 11, 34_603_008, 5000)
}

/// Xeon Platinum, 33 MiB, two ways reachable through direct cache access.
pub fn xeon_platinum_ddio() -> (p: CacheParams)
    ensures
        p@ == CacheParams::geometry(64, 11, 2, 34_603_008, 5000),
        RppParams::of(p@) == (RppParams {
            n_lines: 2,
            n_sets: 49152,
            n_sets_per_page: 64,
            n_colors: 768,
            v_buf: 20_480_000,
        }),
{
    assert(11int * 64int == 704int);
    assert(34_603_008int / 704int == 49152int);
    assert(4096int / 64int == 64int);
    assert(49152int / 64int == 768int);
    CacheParams::new(64, 11, 2, 34_603_008, 5000)
}

impl CacheParams {
    /// The work buffer is made of whole pages: its size is the multiple of
    /// the page size that the number of addresses says.
    pub proof fn lemma_whole_pages(g: CacheGeometry)
        requires
            g.valid(),
        ensures
            RppParams::of(g).v_buf == g.addr_num * PAGE_SIZE,
            RppParams::of(g).v_buf as int % PAGE_SIZE as int == 0,
            RppParams::of(g).v_buf as int / PAGE_SIZE as int == g.addr_num,
    {
    }
}

impl Default for CacheParams {
    /// The description of the Core i7: see [`core_i7`].
    fn default() -> (p: CacheParams)
        ensures
            p@ == CacheParams::geometry(64, 12, 12, 6_291_456, 5000),
    {
        core_i7()
    }
}

/// The quantities that the engine works with, derived from the description
/// of the cache.
#[derive(Clone, Copy, Debug)]
pub struct RppParams {
    /// Number of lines in one eviction set.
    pub n_lines: usize,
    /// Total number of sets in the cache.
    pub n_sets: usize,
    /// Number of sets that one memory page covers.
    pub n_sets_per_page: usize,
    /// Number of different page colors of the cache.
    pub n_colors: usize,
    /// Size of the buffer to work in.
    pub v_buf: usize,
}

impl RppParams {
    /// The quantities that belong to a geometry.
    pub open spec fn of(g: CacheGeometry) -> RppParams {
        RppParams {
            n_lines: g.reachable_lines as usize,
            n_sets: g.n_sets() as usize,
            n_sets_per_page: g.n_sets_per_page() as usize,
            n_colors: g.n_colors() as usize,
            v_buf: g.v_buf() as usize,
        }
    }
}

impl CacheParams {
    /// Derives the quantities that the engine works with. The description
    /// is a valid one, as every description is.
    pub fn quantities(&self) -> (p: RppParams)
        ensures
            p == RppParams::of(self@),
            self@.valid(),
    {
        proof {
            use_type_invariant(self);
            assert(self.lines_per_set * self.bytes_per_line > 0) by (nonlinear_arith)
                requires
                    self.lines_per_set > 0,
                    self.bytes_per_line > 0,
            ;
            assert(PAGE_SIZE as int / self.bytes_per_line as int > 0) by (nonlinear_arith)
                requires
                    0 < self.bytes_per_line <= PAGE_SIZE,
            ;
        }
        let n_sets = self.cache_size / (self.lines_per_set * self.bytes_per_line);
        let n_sets_per_page = PAGE_SIZE / self.bytes_per_line;
        let n_colors = n_sets / n_sets_per_page;
        RppParams {
            n_lines: self.reachable_lines,
            n_sets,
            n_sets_per_page,
            n_colors,
            v_buf: self.addr_num * PAGE_SIZE,
        }
    }
}

impl From<CacheParams> for RppParams {
    fn from(cp: CacheParams) -> (p: RppParams) {
        cp.quantities()
    }
}

impl vstd::std_specs::convert::FromSpecImpl<CacheParams> for RppParams {
    open spec fn obeys_from_spec() -> bool {
        true
    }

    open spec fn from_spec(cp: CacheParams) -> RppParams {
        RppParams::of(cp@)
    }
}

} // verus!
