//! A block device backed by memory.  It is the reference implementation of
//! [`BlockDevice`]: reads and writes succeed whenever they are in bounds, and
//! flushing is a no-op.

use vstd::prelude::*;

use crate::block_device::BlockDevice;
use crate::bytes::seq_write;
use crate::Error;
use vstd::arithmetic::div_mod::lemma_fundamental_div_mod;
use vstd::arithmetic::mul::lemma_mul_inequality;

verus! {

/// An in-memory block device holding whole sectors of `sector_size` bytes.
pub struct RamDevice {
    data: Vec<u8>,
    sector_size: usize,
}

impl RamDevice {
    /// A zero-filled device of the given shape.
    pub fn new(sector_size: usize, sectors: u32) -> (r: RamDevice)
        requires
            1 <= sector_size <= u32::MAX,
            sector_size * sectors <= usize::MAX,
        ensures
            r.inv(),
            r.spec_sector_size() == sector_size,
            r.bytes() == crate::bytes::zeros((sector_size * sectors) as nat),
    {
        let len: usize = sector_size * (sectors as usize);
        let mut data: Vec<u8> = Vec::new();
        while data.len() < len
            invariant
                data@.len() <= len,
                data@ == crate::bytes::zeros(data@.len()),
            decreases len - data@.len(),
        {
            data.push(0u8);
            proof {
                assert(data@ =~= crate::bytes::zeros(data@.len()));
            }
        }
        proof {
            assert(len % sector_size == 0 && len / sector_size == sectors as int)
                by (nonlinear_arith)
                requires
                    sector_size >= 1,
                    len == sector_size * (sectors as int),
            ;
        }
        RamDevice { data, sector_size }
    }

    /// The byte address of `(lba, offset)` when it starts a window of `len`
    /// bytes that lies inside the device; an out-of-bounds window is refused.
    fn window(&self, lba: u32, offset: usize, len: usize) -> (r: Result<usize, Error>)
        requires
            self.inv(),
        ensures
            (match r {
                Ok(addr) => {
                    &&& addr == lba * self.spec_sector_size() + offset
                    &&& addr + len <= self.bytes().len()
                },
                Err(e) => e == Error::DeviceIO,
            }),
    {
        let ss: u64 = self.sector_size as u64;
        let total: u64 = self.data.len() as u64;
        if lba as u64 > total / ss {
            return Err(Error::DeviceIO);
        }
        proof {
            lemma_mul_inequality(lba as int, (total / ss) as int, ss as int);
            lemma_fundamental_div_mod(total as int, ss as int);
        }
        let base: u64 = (lba as u64) * ss;
        if offset as u64 > total - base {
            return Err(Error::DeviceIO);
        }
        let addr: u64 = base + offset as u64;
        if len as u64 > total - addr {
            return Err(Error::DeviceIO);
        }
        Ok(addr as usize)
    }
}

impl BlockDevice for RamDevice {
    closed spec fn bytes(&self) -> Seq<u8> {
        self.data@
    }

    closed spec fn spec_sector_size(&self) -> nat {
        self.sector_size as nat
    }

    closed spec fn inv(&self) -> bool {
        &&& 1 <= self.sector_size <= u32::MAX
        &&& self.data@.len() % self.sector_size as nat == 0
        &&& self.data@.len() / self.sector_size as nat <= u32::MAX
    }

    proof fn lemma_inv(&self) {
    }

    /// Succeeds exactly when the window lies inside the device.
    fn read(&self, lba: u32, offset: usize, len: usize) -> (r: Result<Vec<u8>, Error>) {
        let addr = match self.window(lba, offset, len) {
            Ok(a) => a,
            Err(e) => {
                return Err(e);
            },
        };
        let dlen: usize = self.data.len();
        let mut v: Vec<u8> = Vec::new();
        let mut i: usize = 0;
        while i < len
            invariant
                i <= len,
                self.data@.len() == dlen,
                addr + len <= dlen,
                v@ == self.data@.subrange(addr as int, addr + i),
            decreases len - i,
        {
            v.push(self.data[addr + i]);
            i = i + 1;
            proof {
                assert(v@ =~= self.data@.subrange(addr as int, addr + i));
            }
        }
        Ok(v)
    }

    /// Succeeds exactly when the window lies inside the device.
    fn write(&mut self, lba: u32, offset: usize, buf: &[u8]) -> (r: Result<(), Error>) {
        let addr = match self.window(lba, offset, buf.len()) {
            Ok(a) => a,
            Err(e) => {
                return Err(e);
            },
        };
        let dlen: usize = self.data.len();
        let mut i: usize = 0;
        while i < buf.len()
            invariant
                i <= buf@.len(),
                self.data@.len() == dlen,
                addr + buf@.len() <= dlen,
                self.data@.len() == old(self).data@.len(),
                self.sector_size == old(self).sector_size,
                self.data@ == seq_write(old(self).data@, addr as int, buf@.take(i as int)),
            decreases buf@.len() - i,
        {
            self.data[addr + i] = buf[i];
            i = i + 1;
            proof {
                assert(self.data@ =~= seq_write(old(self).data@, addr as int, buf@.take(i as int)));
            }
        }
        proof {
            assert(buf@.take(buf@.len() as int) =~= buf@);
        }
        Ok(())
    }

    fn flush(&mut self) -> (r: Result<(), Error>) {
        Ok(())
    }

    fn count(&self) -> (r: Result<u32, Error>) {
        Ok((self.data.len() / self.sector_size) as u32)
    }

    fn lba_size(&self) -> (r: Result<usize, Error>) {
        Ok(self.sector_size)
    }
}

} // verus!
