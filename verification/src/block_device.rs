//! The sector-addressed device under the filesystem.
//!
//! The device is modelled as one flat byte sequence: the byte at address
//! `lba * sector_size + offset` is byte `offset` of sector `lba`.  An access
//! may cross a sector boundary; the two-byte windows of the FAT12 codec rely
//! on that.  A call either performs the whole transfer or fails without
//! touching the device, and any failure surfaces as an error value.  A
//! device that can only transfer pieces at a time does not fit this contract
//! directly; its embedder loops below this interface, so that the table
//! codec may rely on whole windows.

use vstd::prelude::*;

use crate::bytes::seq_write;
use crate::Error;

verus! {

/// A block device, implemented by the embedder and consumed by [`crate::fs::Fs`].
///
/// An implementation chooses its byte content `bytes()` and sector size
/// `spec_sector_size()` as its abstraction; `inv()` is whatever internal
/// well-formedness it needs, and every contract below is conditional on it.
pub trait BlockDevice: Sized {
    /// The current content of the device as one flat byte sequence.
    spec fn bytes(&self) -> Seq<u8>;

    /// The sector size in bytes.
    spec fn spec_sector_size(&self) -> nat;

    /// Internal well-formedness of the device value.
    spec fn inv(&self) -> bool;

    /// A well-formed device has a positive sector size, holds whole sectors,
    /// and has a sector count that fits the address arithmetic of the driver.
    proof fn lemma_inv(&self)
        requires
            self.inv(),
        ensures
            self.spec_sector_size() >= 1,
            self.bytes().len() % self.spec_sector_size() == 0,
            self.bytes().len() / self.spec_sector_size() <= u32::MAX,
    ;

    /// Reads `len` bytes starting at byte `offset` of sector `lba`.
    fn read(&self, lba: u32, offset: usize, len: usize) -> (r: Result<Vec<u8>, Error>)
        requires
            self.inv(),
        ensures
            (match r {
                Ok(v) => {
                    let addr = lba * self.spec_sector_size() + offset;
                    &&& v@.len() == len
                    &&& addr + len <= self.bytes().len()
                    &&& v@ == self.bytes().subrange(addr as int, addr + len)
                },
                Err(e) => e == Error::DeviceIO,
            }),
    ;

    /// Writes `buf` starting at byte `offset` of sector `lba`.  On success the
    /// whole buffer is applied; on failure the device content is unchanged.
    fn write(&mut self, lba: u32, offset: usize, buf: &[u8]) -> (r: Result<(), Error>)
        requires
            old(self).inv(),
        ensures
            final(self).inv(),
            final(self).spec_sector_size() == old(self).spec_sector_size(),
            final(self).bytes().len() == old(self).bytes().len(),
            (match r {
                Ok(()) => {
                    let addr = lba * old(self).spec_sector_size() + offset;
                    &&& addr + buf@.len() <= old(self).bytes().len()
                    &&& final(self).bytes() == seq_write(old(self).bytes(), addr as int, buf@)
                },
                Err(e) => e == Error::DeviceIO && final(self).bytes() == old(self).bytes(),
            }),
    ;

    /// Makes every completed write durable.  The byte content is unchanged.
    fn flush(&mut self) -> (r: Result<(), Error>)
        requires
            old(self).inv(),
        ensures
            final(self).inv(),
            final(self).spec_sector_size() == old(self).spec_sector_size(),
            final(self).bytes() == old(self).bytes(),
            (match r {
                Ok(()) => true,
                Err(e) => e == Error::DeviceIO,
            }),
    ;

    /// The number of sectors.
    fn count(&self) -> (r: Result<u32, Error>)
        requires
            self.inv(),
        ensures
            (match r {
                Ok(n) => n == self.bytes().len() / self.spec_sector_size(),
                Err(e) => e == Error::DeviceIO,
            }),
    ;

    /// The sector size in bytes.
    fn lba_size(&self) -> (r: Result<usize, Error>)
        requires
            self.inv(),
        ensures
            (match r {
                Ok(n) => n == self.spec_sector_size(),
                Err(e) => e == Error::DeviceIO,
            }),
    ;
}

} // verus!
