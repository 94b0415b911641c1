use vstd::prelude::*;

use crate::codec::{be_uint, get_u64_from_size_n};
use crate::error::DbError;

verus! {

/// A database file held in memory, cut into pages of `page_size` bytes that
/// are numbered from 1.
pub struct Pager {
    pub bytes: Vec<u8>,
    pub page_size: usize,
}

/// The page sizes the file format allows.
pub open spec fn valid_page_size(n: nat) -> bool {
    n == 256 || n == 512 || n == 1024 || n == 2048 || n == 4096 || n == 8192 || n == 16384
        || n == 32768 || n == 65536
}

/// The page size that the two header bytes at offset 16 declare (1 stands for 65536).
pub open spec fn declared_page_size(s: Seq<u8>) -> nat {
    let v = be_uint(s.subrange(16, 18));
    if v == 1 {
        65536
    } else {
        v
    }
}

/// Page `n` of the file `s`: an error for page 0 or for a page that runs past
/// the end of the file.
pub open spec fn page_at(s: Seq<u8>, ps: nat, n: int) -> Result<Seq<u8>, DbError> {
    if n < 1 {
        Err(DbError::CorruptPage)
    } else if n * ps > s.len() {
        Err(DbError::Io)
    } else {
        Ok(s.subrange((n - 1) * ps, n * ps))
    }
}

/// Where the B-tree header of page `n` starts: after the file header on page 1.
pub open spec fn header_offset(n: int) -> int {
    if n == 1 {
        100
    } else {
        0
    }
}

impl Pager {
    /// The file as a sequence of bytes.
    pub open spec fn file(&self) -> Seq<u8> {
        self.bytes@
    }

    pub open spec fn wf(&self) -> bool {
        valid_page_size(self.page_size as nat) && self.bytes@.len() >= 100
    }

    /// Takes a whole database file; fails with `Io` when it is shorter than the
    /// 100-byte file header and with `CorruptPage` when the page size it
    /// declares is not a power of two from 256 to 65536.
    pub fn new(bytes: Vec<u8>) -> (r: Result<Pager, DbError>)
        ensures
            bytes@.len() < 100 ==> r == Err::<Pager, DbError>(DbError::Io),
            bytes@.len() >= 100 && !valid_page_size(declared_page_size(bytes@)) ==> r == Err::<
                Pager,
                DbError,
            >(DbError::CorruptPage),
            bytes@.len() >= 100 && valid_page_size(declared_page_size(bytes@)) ==> r is Ok
                && r->Ok_0.bytes@ == bytes@ && r->Ok_0.page_size as nat == declared_page_size(
                bytes@,
            ),
            r is Ok ==> r->Ok_0.wf(),
    {
        if bytes.len() < 100 {
            return Err(DbError::Io);
        }
        let head = vstd::slice::slice_subrange(bytes.as_slice(), 16, 18);
        let v = get_u64_from_size_n(head, 2);
        assert(head@.subrange(0, 2) == bytes@.subrange(16, 18));
        let ps: u64 = if v == 1 {
            65536
        } else {
            v
        };
        if ps == 256 || ps == 512 || ps == 1024 || ps == 2048 || ps == 4096 || ps == 8192 || ps
            == 16384 || ps == 32768 || ps == 65536 {
            Ok(Pager { bytes, page_size: ps as usize })
        } else {
            Err(DbError::CorruptPage)
        }
    }

    /// The bytes of page `n`.
    pub fn page(&self, n: u32) -> (r: Result<&[u8], DbError>)
        requires
            self.wf(),
        ensures
            match page_at(self.file(), self.page_size as nat, n as int) {
                Ok(p) => r is Ok && r->Ok_0@ == p,
                Err(e) => r == Err::<&[u8], DbError>(e),
            },
    {
        if n == 0 {
            return Err(DbError::CorruptPage);
        }
        let ps = self.page_size;
        let len = self.bytes.len();
        let nn = n as usize;
        if nn > len / ps {
            assert((nn as int) * (ps as int) > len) by (nonlinear_arith)
                requires
                    nn as int > len as int / ps as int,
                    ps > 0,
            ;
            return Err(DbError::Io);
        }
        assert((nn as int) * (ps as int) <= len && (nn as int) * (ps as int) >= ps) by (nonlinear_arith)
            requires
                nn as int <= len as int / ps as int,
                nn >= 1,
                ps > 0,
        ;
        let end = nn * ps;
        let start = end - ps;
        assert(start as int == (n - 1) * ps) by (nonlinear_arith)
            requires
                start as int == nn as int * ps as int - ps as int,
                nn == n,
        ;
        Ok(vstd::slice::slice_subrange(self.bytes.as_slice(), start, end))
    }
}

} // verus!
