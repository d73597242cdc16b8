use vstd::prelude::*;

verus! {

/// The run configuration: worker count, target image path, palette directory
/// path, palette tile size, target size, and whether to prompt interactively.
pub struct Args {
    pub threads: usize,
    pub fpath: String,
    pub ppath: String,
    pub psize: u32,
    pub fsize: u32,
    pub ask: bool,
}

/// The default worker count: the ceiling of three tenths of the logical CPU
/// count.
pub fn default_threads(ncpus: usize) -> (r: usize)
    requires
        1 <= ncpus <= 0x1_0000,
    ensures
        r == (3 * ncpus + 9) / 10,
        r >= 1,
{
    (3 * ncpus + 9) / 10
}

/// Whether a pair of sizes is admissible: the palette tile size within its
/// conventional bounds, and the target size at least the tile size and small
/// enough that scaling by the tile size cannot leave the index range.
pub fn sizes_valid(psize: u32, fsize: u32) -> (r: bool)
    ensures
        r <==> 4 <= psize < 128 && psize <= fsize && fsize < u32::MAX as int / psize as int,
{
    4 <= psize && psize < 128 && psize <= fsize && fsize < u32::MAX / psize
}

/// What one round of numeric prompting decides: a parsed value inside the
/// bounds is accepted; a line that does not parse as a number falls back to
/// the default when one is given; anything else asks again.
pub fn prompt_decision(start: u32, end: u32, parsed: Option<u32>, def: i32) -> (r: Option<u32>)
    ensures
        match parsed {
            Some(v) => if start <= v < end { r == Some(v) } else { r is None },
            None => if def >= 0 { r == Some(def as u32) } else { r is None },
        },
{
    match parsed {
        Some(v) => {
            if start <= v && v < end {
                Some(v)
            } else {
                None
            }
        }
        None => {
            if def >= 0 {
                Some(def as u32)
            } else {
                None
            }
        }
    }
}

impl Args {
    /// Fill the unset numeric options as a non-interactive run does: a zero
    /// worker count becomes the default worker count, a zero palette size
    /// becomes 16, and a target size that is zero or outside its bounds
    /// becomes 8192 over the palette size.
    pub fn with_defaults(self, ncpus: usize) -> (r: Args)
        requires
            1 <= ncpus <= 0x1_0000,
        ensures
            r.threads == if self.threads == 0 { (3 * ncpus + 9) / 10 } else { self.threads as int },
            r.psize == if self.psize == 0 { 16 } else { self.psize as int },
            ({
                let ps: int = if self.psize == 0 { 16 } else { self.psize as int };
                r.fsize == if self.fsize == 0 || self.fsize < ps || self.fsize > u32::MAX as int / ps {
                    8192int / ps
                } else {
                    self.fsize as int
                }
            }),
            r.fpath == self.fpath,
            r.ppath == self.ppath,
            r.ask == self.ask,
    {
        let threads = if self.threads == 0 {
            default_threads(ncpus)
        } else {
            self.threads
        };
        let psize = if self.psize == 0 { 16 } else { self.psize };
        let fmax = u32::MAX / psize;
        let fsize = if self.fsize == 0 || self.fsize < psize || self.fsize > fmax {
            8192 / psize
        } else {
            self.fsize
        };
        Args { threads, psize, fsize, ..self }
    }
}

} // verus!
