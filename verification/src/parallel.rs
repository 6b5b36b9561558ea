//! How many radars may be computed at once.
use vstd::prelude::*;

verus! {

#[derive(Clone, Copy, Debug)]
pub struct ParallelConfig {
    pub max_threads: usize,
    pub memory_budget_bytes: usize,
    pub bytes_per_cell: usize,
}

pub open spec fn at_least_one(n: int) -> int {
    if n < 1 {
        1
    } else {
        n
    }
}

pub open spec fn lesser(a: int, b: int) -> int {
    if a < b {
        a
    } else {
        b
    }
}

fn saturating_product(a: usize, b: usize) -> (product: usize)
    ensures
        product == lesser(a * b, usize::MAX as int),
{
    match a.checked_mul(b) {
        Some(product) => product,
        None => usize::MAX,
    }
}

impl ParallelConfig {
    /// Two gibibytes for results of three bytes per cell.
    pub fn with_threads(max_threads: usize) -> (config: Self)
        ensures
            config == (ParallelConfig {
                max_threads,
                memory_budget_bytes: 2147483648,
                bytes_per_cell: 3,
            }),
    {
        ParallelConfig { max_threads, memory_budget_bytes: 2147483648, bytes_per_cell: 3 }
    }

    /// The bytes of one result, at least one.
    pub open spec fn result_bytes(&self, cells: int) -> int {
        at_least_one(lesser(cells * self.bytes_per_cell, usize::MAX as int))
    }

    /// How many of some radars run together: no more than there are threads for,
    /// or than the memory holds, and at least one.
    pub open spec fn spec_concurrent(&self, cells: int, radars: int) -> int {
        at_least_one(
            lesser(
                lesser(radars, at_least_one(self.max_threads as int)),
                at_least_one(self.memory_budget_bytes as int / self.result_bytes(cells)),
            ),
        )
    }

    /// How many radars of a grid may run together: as many as there are, within
    /// the threads and the memory, but always one.
    pub fn concurrent_radars(&self, cells: usize, radars: usize) -> (n: usize)
        ensures
            n == self.spec_concurrent(cells as int, radars as int),
            n == at_least_one(
                lesser(
                    lesser(radars as int, at_least_one(self.max_threads as int)),
                    at_least_one(self.memory_budget_bytes as int / self.result_bytes(cells as int)),
                ),
            ),
    {
        let product: usize = saturating_product(cells, self.bytes_per_cell);
        let per_result: usize = if product < 1 {
            1
        } else {
            product
        };
        let fitting: usize = self.memory_budget_bytes / per_result;
        let by_memory: usize = if fitting < 1 {
            1
        } else {
            fitting
        };
        let threads: usize = if self.max_threads < 1 {
            1
        } else {
            self.max_threads
        };
        let mut n: usize = radars;
        if threads < n {
            n = threads;
        }
        if by_memory < n {
            n = by_memory;
        }
        if n < 1 {
            n = 1;
        }
        n
    }

    /// The workers for one grid: its cell count saturates.
    pub fn workers(&self, width: usize, height: usize, radars: usize) -> (n: usize)
        ensures
            n == self.spec_concurrent(lesser(width * height, usize::MAX as int), radars as int),
            n == at_least_one(
                lesser(
                    lesser(radars as int, at_least_one(self.max_threads as int)),
                    at_least_one(
                        self.memory_budget_bytes as int / self.result_bytes(
                            lesser(width * height, usize::MAX as int),
                        ),
                    ),
                ),
            ),
    {
        self.concurrent_radars(saturating_product(width, height), radars)
    }
}

/// The results that run together fit into the memory budget, unless a single
/// one does not.
pub proof fn law_concurrent_results_fit_memory(config: ParallelConfig, cells: int, n: int)
    requires
        cells >= 0,
        1 < n <= at_least_one(config.memory_budget_bytes as int / config.result_bytes(cells)),
    ensures
        n * config.result_bytes(cells) <= config.memory_budget_bytes,
{
    let bytes = config.result_bytes(cells);
    let budget = config.memory_budget_bytes as int;
    assert(n * bytes <= budget) by (nonlinear_arith)
        requires
            bytes >= 1,
            budget >= 0,
            n <= budget / bytes,
    ;
}

/// As many radars run together as there are, as there are threads for, and as fit
/// into memory, but at least one. One more would be one too many for one of these.
pub proof fn law_as_many_radars_as_fit(config: ParallelConfig, cells: int, radars: int)
    requires
        0 <= cells,
        0 <= radars,
    ensures
        ({
            let n = config.spec_concurrent(cells, radars);
            let bytes = if cells * config.bytes_per_cell > usize::MAX {
                usize::MAX as int
            } else if cells * config.bytes_per_cell == 0 {
                1
            } else {
                cells * config.bytes_per_cell
            };
            &&& 1 <= n
            &&& n == 1 || (n <= radars && n <= config.max_threads && n * bytes
                <= config.memory_budget_bytes)
            &&& n >= radars || n >= config.max_threads || (n + 1) * bytes
                > config.memory_budget_bytes
        }),
{
    let n = config.spec_concurrent(cells, radars);
    assert(0 <= cells * config.bytes_per_cell) by (nonlinear_arith)
        requires
            0 <= cells,
            0 <= config.bytes_per_cell,
    ;
    let bytes = config.result_bytes(cells);
    let budget = config.memory_budget_bytes as int;
    let fit = budget / bytes;
    assert(fit * bytes <= budget < (fit + 1) * bytes && fit >= 0) by (nonlinear_arith)
        requires
            bytes >= 1,
            budget >= 0,
            fit == budget / bytes,
    ;
    if n > 1 {
        assert(n * bytes <= fit * bytes) by (nonlinear_arith)
            requires
                n <= fit,
                bytes >= 1,
        ;
    }
    if n >= fit {
        assert((n + 1) * bytes >= (fit + 1) * bytes) by (nonlinear_arith)
            requires
                n >= fit,
                bytes >= 1,
        ;
    }
}

} // verus!
