//! Block storage: the trait through which the filesystem reaches a device,
//! and an in-memory device.

use vstd::prelude::*;
use crate::error::Error;

verus! {

/// The errors a device reports: input/output failures and corrupt
/// (bad) blocks.
pub open spec fn device_error(e: Error) -> bool {
    e == Error::Io || e == Error::Corrupt
}

/// A block device: `read`, `write` (program) and `erase` of whole blocks
/// or parts of them. Its contents are seen as one byte sequence per block.
pub trait Storage {
    /// The contents of the device, block by block.
    spec fn blocks(&self) -> Seq<Seq<u8>>;

    /// Reads `buf.len()` bytes of `block` from offset `off`.
    fn read(&mut self, block: u32, off: u32, buf: &mut [u8]) -> (r: Result<(), Error>)
        requires
            block < old(self).blocks().len(),
            off + old(buf)@.len() <= old(self).blocks()[block as int].len(),
        ensures
            final(self).blocks() == old(self).blocks(),
            final(buf)@.len() == old(buf)@.len(),
            r matches Err(e) ==> device_error(e),
            r is Ok ==> final(buf)@ == old(self).blocks()[block as int].subrange(
                off as int,
                off + old(buf)@.len(),
            ),
    ;

    /// Programs `data` into `block` at offset `off`. Whether or not it
    /// succeeds, the bytes of the block outside the programmed range keep
    /// their values.
    fn write(&mut self, block: u32, off: u32, data: &[u8]) -> (r: Result<(), Error>)
        requires
            block < old(self).blocks().len(),
            off + data@.len() <= old(self).blocks()[block as int].len(),
        ensures
            r matches Err(e) ==> device_error(e),
            final(self).blocks().len() == old(self).blocks().len(),
            forall|b: int|
                0 <= b < old(self).blocks().len() ==> #[trigger] final(self).blocks()[b].len()
                    == old(self).blocks()[b].len(),
            forall|b: int|
                0 <= b < old(self).blocks().len() && b != block ==> #[trigger] final(self).blocks()[b]
                    == old(self).blocks()[b],
            forall|i: int|
                0 <= i < old(self).blocks()[block as int].len() && !(off <= i < off + data@.len())
                    ==> #[trigger] final(self).blocks()[block as int][i] == old(self).blocks()[block as int][i],
            r is Ok ==> final(self).blocks()[block as int] == old(self).blocks()[block as int].subrange(
                0,
                off as int,
            ) + data@ + old(self).blocks()[block as int].subrange(
                off + data@.len(),
                old(self).blocks()[block as int].len() as int,
            ),
    ;

    /// Erases `block`. The erased value is the device's own; the other
    /// blocks are left alone.
    fn erase(&mut self, block: u32) -> (r: Result<(), Error>)
        requires
            block < old(self).blocks().len(),
        ensures
            r matches Err(e) ==> device_error(e),
            final(self).blocks().len() == old(self).blocks().len(),
            forall|b: int|
                0 <= b < old(self).blocks().len() ==> #[trigger] final(self).blocks()[b].len()
                    == old(self).blocks()[b].len(),
            forall|b: int|
                0 <= b < old(self).blocks().len() && b != block ==> #[trigger] final(self).blocks()[b]
                    == old(self).blocks()[b],
    ;

    /// Flushes what the device buffers.
    fn sync(&mut self) -> (r: Result<(), Error>)
        ensures
            r matches Err(e) ==> device_error(e),
            final(self).blocks() == old(self).blocks(),
    ;
}

/// Filesystem geometry for an in-memory device.
pub struct TestGeometry {
    pub block_size: u32,
    pub block_count: u32,
    pub read_size: u32,
    pub prog_size: u32,
    pub cache_size: u32,
    pub lookahead_size: u32,
}

impl TestGeometry {
    /// The default geometry: 128 blocks of 512 bytes, 16-byte reads and
    /// programs, a 512-byte cache and lookahead.
    pub fn default_geometry() -> (g: TestGeometry)
        ensures
            g.block_size == 512 && g.block_count == 128 && g.read_size == 16 && g.prog_size == 16
                && g.cache_size == 512 && g.lookahead_size == 512,
    {
        TestGeometry {
            block_size: 512,
            block_count: 128,
            read_size: 16,
            prog_size: 16,
            cache_size: 512,
            lookahead_size: 512,
        }
    }
}

/// An in-memory device: `block_count` blocks of `block_size` bytes, all
/// zero when made. Erase fills a block with `0xff`.
pub struct SharedStorage {
    data: Vec<Vec<u8>>,
    pub geo: TestGeometry,
}

/// A block of `n` copies of `x`.
fn filled_block(n: u32, x: u8) -> (v: Vec<u8>)
    ensures
        v@ == Seq::new(n as nat, |_i: int| x),
{
    let mut v: Vec<u8> = Vec::new();
    let mut i: u32 = 0;
    while i < n
        invariant
            i <= n,
            v@ == Seq::new(i as nat, |_i: int| x),
        decreases n - i,
    {
        v.push(x);
        i = i + 1;
        proof {
            assert(v@ =~= Seq::new(i as nat, |_i: int| x));
        }
    }
    v
}

impl SharedStorage {
    /// The geometry's contents, block by block.
    pub closed spec fn view_blocks(&self) -> Seq<Seq<u8>> {
        self.data@.map_values(|v: Vec<u8>| v@)
    }

    /// The device's geometry.
    pub closed spec fn geometry(&self) -> TestGeometry {
        self.geo
    }

    /// A zeroed device of the given geometry.
    pub fn new(geo: TestGeometry) -> (s: SharedStorage)
        ensures
            s.view_blocks() == Seq::new(geo.block_count as nat, |_b: int| Seq::new(geo.block_size as nat, |_i: int| 0u8)),
            s.geometry() == geo,
    {
        let mut data: Vec<Vec<u8>> = Vec::new();
        let mut b: u32 = 0;
        while b < geo.block_count
            invariant
                b <= geo.block_count,
                data@.len() == b,
                forall|k: int| 0 <= k < b ==> #[trigger] data@[k]@ == Seq::new(geo.block_size as nat, |_i: int| 0u8),
            decreases geo.block_count - b,
        {
            data.push(filled_block(geo.block_size, 0));
            b = b + 1;
        }
        let s = SharedStorage { data, geo };
        proof {
            assert(s.view_blocks() =~= Seq::new(geo.block_count as nat, |_b: int| Seq::new(geo.block_size as nat, |_i: int| 0u8)));
        }
        s
    }

    /// A zeroed device of the default geometry.
    pub fn with_defaults() -> (s: SharedStorage)
        ensures
            s.view_blocks() == Seq::new(128, |_b: int| Seq::new(512, |_i: int| 0u8)),
            s.geometry() == (TestGeometry {
                block_size: 512,
                block_count: 128,
                read_size: 16,
                prog_size: 16,
                cache_size: 512,
                lookahead_size: 512,
            }),
    {
        SharedStorage::new(TestGeometry::default_geometry())
    }

    /// Number of blocks.
    pub fn block_count(&self) -> (n: usize)
        ensures
            n == self.view_blocks().len(),
    {
        self.data.len()
    }
}

impl Storage for SharedStorage {
    open spec fn blocks(&self) -> Seq<Seq<u8>> {
        self.view_blocks()
    }

    fn read(&mut self, block: u32, off: u32, buf: &mut [u8]) -> (r: Result<(), Error>) {
        let b = block as usize;
        let o = off as usize;
        let n = buf.len();
        let ghost src = self.data@[block as int]@;
        let blen = self.data[b].len();
        let mut i: usize = 0;
        while i < n
            invariant
                i <= n,
                blen == src.len(),
                n == buf@.len(),
                n == old(buf)@.len(),
                b == block,
                o == off,
                b < self.data@.len(),
                src == self.data@[b as int]@,
                o + n <= src.len(),
                forall|k: int| 0 <= k < i ==> buf@[k] == src[o + k],
            decreases n - i,
        {
            let x = self.data[b][o + i];
            buf[i] = x;
            i = i + 1;
        }
        proof {
            assert(buf@ =~= src.subrange(off as int, off + n));
        }
        Ok(())
    }

    fn write(&mut self, block: u32, off: u32, data: &[u8]) -> (r: Result<(), Error>) {
        let b = block as usize;
        let o = off as usize;
        let ghost old_blocks = self.view_blocks();
        let ghost src = self.data@[block as int]@;
        let blen = self.data[b].len();
        let mut nb: Vec<u8> = Vec::new();
        let mut i: usize = 0;
        while i < blen
            invariant
                i <= blen,
                blen == src.len(),
                b == block,
                o == off,
                b < self.data@.len(),
                src == self.data@[b as int]@,
                o + data@.len() <= src.len(),
                nb@.len() == i,
                forall|k: int| 0 <= k < i ==> nb@[k] == (if o <= k < o + data@.len() { data@[k - o] } else { src[k] }),
            decreases blen - i,
        {
            let x = if o <= i && i < o + data.len() { data[i - o] } else { self.data[b][i] };
            nb.push(x);
            i = i + 1;
        }
        self.data.set(b, nb);
        proof {
            let newb = src.subrange(0, off as int) + data@ + src.subrange(off + data@.len(), src.len() as int);
            assert(nb@ =~= newb);
            assert(self.view_blocks() =~= old_blocks.update(block as int, newb));
        }
        Ok(())
    }

    fn erase(&mut self, block: u32) -> (r: Result<(), Error>)
        ensures
            r is Ok,
            final(self).blocks()[block as int] == Seq::new(old(self).blocks()[block as int].len(), |_i: int| 0xffu8),
    {
        let b = block as usize;
        let ghost old_blocks = self.view_blocks();
        let blen = self.data[b].len();
        let fresh = filled_block_usize(blen, 0xff);
        self.data.set(b, fresh);
        proof {
            assert(self.view_blocks() =~= old_blocks.update(block as int, Seq::new(blen as nat, |_i: int| 0xffu8)));
        }
        Ok(())
    }

    fn sync(&mut self) -> (r: Result<(), Error>) {
        Ok(())
    }
}

/// A configuration over an in-memory device, with the device's geometry,
/// no wear leveling, and the default limits.
pub struct RustEnv {
    pub config: crate::bd::LfsConfig<SharedStorage>,
}

impl SharedStorage {
    /// Builds a configuration that owns this device, with its geometry,
    /// `block_cycles` -1, no compaction threshold, and the default name,
    /// file and attribute limits.
    pub fn build_rust_env(self) -> (env: RustEnv)
        ensures
            env.config.context == self,
            env.config.read_size == self.geometry().read_size,
            env.config.prog_size == self.geometry().prog_size,
            env.config.block_size == self.geometry().block_size,
            env.config.block_count == self.geometry().block_count,
            env.config.block_cycles == -1,
            env.config.cache_size == self.geometry().cache_size,
            env.config.lookahead_size == self.geometry().lookahead_size,
            env.config.compact_thresh == u32::MAX,
            env.config.name_max == 255,
            env.config.file_max == 2_147_483_647,
            env.config.attr_max == 1022,
            env.config.metadata_max == 0,
            env.config.inline_max == 0,
    {
        let read_size = self.geo.read_size;
        let prog_size = self.geo.prog_size;
        let block_size = self.geo.block_size;
        let block_count = self.geo.block_count;
        let cache_size = self.geo.cache_size;
        let lookahead_size = self.geo.lookahead_size;
        RustEnv {
            config: crate::bd::LfsConfig {
                context: self,
                read_size,
                prog_size,
                block_size,
                block_count,
                block_cycles: -1,
                cache_size,
                lookahead_size,
                compact_thresh: u32::MAX,
                name_max: 255,
                file_max: 2_147_483_647,
                attr_max: 1022,
                metadata_max: 0,
                inline_max: 0,
            },
        }
    }

    /// The device buffers nothing, so syncing it does nothing.
    pub fn rust_sync(&self) -> (r: Result<(), Error>)
        ensures
            r is Ok,
    {
        Ok(())
    }
}

/// A block of `n` copies of `x`.
fn filled_block_usize(n: usize, x: u8) -> (v: Vec<u8>)
    ensures
        v@ == Seq::new(n as nat, |_i: int| x),
{
    let mut v: Vec<u8> = Vec::new();
    let mut i: usize = 0;
    while i < n
        invariant
            i <= n,
            v@ == Seq::new(i as nat, |_i: int| x),
        decreases n - i,
    {
        v.push(x);
        i = i + 1;
        proof {
            assert(v@ =~= Seq::new(i as nat, |_i: int| x));
        }
    }
    v
}

/// The xorshift32 generator: one step from `state`.
pub open spec fn spec_prng_step(x: u32) -> u32 {
    let a = x ^ ((x << 13u32) as u32);
    let b = a ^ (a >> 17u32);
    b ^ ((b << 5u32) as u32)
}

/// One xorshift32 step: advances `state` and returns its new value.
pub fn test_prng(state: &mut u32) -> (r: u32)
    ensures
        r == spec_prng_step(*old(state)),
        *final(state) == r,
{
    let mut x = *state;
    x = x ^ (x << 13);
    x = x ^ (x >> 17);
    x = x ^ (x << 5);
    *state = x;
    x
}

/// The generator's state after `n` steps from `seed`.
pub open spec fn spec_prng_state(seed: u32, n: nat) -> u32
    decreases n,
{
    if n == 0 {
        seed
    } else {
        spec_prng_step(spec_prng_state(seed, (n - 1) as nat))
    }
}

/// Every byte of `buf` is the low byte of the generator's output at its
/// position, the generator started from `seed`.
pub open spec fn prng_stream(buf: Seq<u8>, seed: u32) -> bool {
    forall|i: int| 0 <= i < buf.len() ==> buf[i] as u32 == spec_prng_state(seed, (i + 1) as nat) & 0xffu32
}

/// Checks that `buf` holds the generator's stream from `seed`; a buffer
/// that does not is outside what the check accepts.
pub fn prng_verify(buf: &[u8], seed: u32)
    requires
        prng_stream(buf@, seed),
{
    let ok = prng_matches(buf, seed);
    assert(ok);
}

/// Whether `buf` holds the generator's stream from `seed`: every byte is
/// the low byte of the generator's output at its position.
pub fn prng_matches(buf: &[u8], seed: u32) -> (ok: bool)
    ensures
        ok <==> prng_stream(buf@, seed),
{
    let mut prng = seed;
    let mut i: usize = 0;
    while i < buf.len()
        invariant
            i <= buf@.len(),
            prng == spec_prng_state(seed, i as nat),
            forall|k: int| 0 <= k < i ==> buf@[k] as u32 == spec_prng_state(seed, (k + 1) as nat) & 0xffu32,
        decreases buf@.len() - i,
    {
        let v = test_prng(&mut prng);
        let expected = (v & 0xff) as u8;
        proof {
            assert(((v & 0xffu32) as u8) as u32 == v & 0xffu32) by (bit_vector);
        }
        if buf[i] != expected {
            return false;
        }
        i = i + 1;
    }
    true
}

/// Turns a C-style status code into a result: zero is success.
pub fn check(err: i32) -> (r: Result<(), i32>)
    ensures
        err == 0 ==> r is Ok,
        err != 0 ==> r == Err::<(), i32>(err),
{
    if err != 0 {
        Err(err)
    } else {
        Ok(())
    }
}

} // verus!
