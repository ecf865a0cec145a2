use crate::error::Error;
use crate::error::IoErrorKind;
use vstd::prelude::*;

verus! {

/// A growable byte buffer that encoders append to.
pub struct Output {
    buf: Vec<u8>,
}

/// The eight little-endian bytes of a 64-bit word: byte `i` holds bits
/// `8*i .. 8*i + 8`.
pub open spec fn le8(bits: u64) -> Seq<u8> {
    seq![
        (bits % 0x100) as u8,
        ((bits / 0x100) % 0x100) as u8,
        ((bits / 0x10000) % 0x100) as u8,
        ((bits / 0x1000000) % 0x100) as u8,
        ((bits / 0x100000000) % 0x100) as u8,
        ((bits / 0x10000000000) % 0x100) as u8,
        ((bits / 0x1000000000000) % 0x100) as u8,
        ((bits / 0x100000000000000) % 0x100) as u8,
    ]
}

/// The 64-bit word with little-endian bytes `b0 ..= b7`.
pub open spec fn le8_value(
    b0: u8,
    b1: u8,
    b2: u8,
    b3: u8,
    b4: u8,
    b5: u8,
    b6: u8,
    b7: u8,
) -> u64 {
    (b0 as u64 + b1 as u64 * 0x100 + b2 as u64 * 0x10000 + b3 as u64 * 0x1000000
        + b4 as u64 * 0x100000000 + b5 as u64 * 0x10000000000 + b6 as u64 * 0x1000000000000
        + b7 as u64 * 0x100000000000000) as u64
}

impl View for Output {
    type V = Seq<u8>;

    closed spec fn view(&self) -> Seq<u8> {
        self.buf@
    }
}

impl Output {
    pub fn new() -> (r: Output)
        ensures
            r@ == Seq::<u8>::empty(),
    {
        Output { buf: Vec::new() }
    }

    pub fn write_byte(&mut self, b: u8)
        ensures
            final(self)@ == old(self)@.push(b),
    {
        self.buf.push(b);
    }

    /// Writes the eight little-endian bytes of `bits`, the raw encoding of
    /// a 64-bit double.
    pub fn write_double_le_bits(&mut self, bits: u64)
        ensures
            final(self)@ == old(self)@ + le8(bits),
    {
        let b0: u8 = (bits % 0x100) as u8;
        let b1: u8 = ((bits / 0x100) % 0x100) as u8;
        let b2: u8 = ((bits / 0x10000) % 0x100) as u8;
        let b3: u8 = ((bits / 0x1000000) % 0x100) as u8;
        let b4: u8 = ((bits / 0x100000000) % 0x100) as u8;
        let b5: u8 = ((bits / 0x10000000000) % 0x100) as u8;
        let b6: u8 = ((bits / 0x1000000000000) % 0x100) as u8;
        let b7: u8 = ((bits / 0x100000000000000) % 0x100) as u8;
        self.buf.push(b0);
        self.buf.push(b1);
        self.buf.push(b2);
        self.buf.push(b3);
        self.buf.push(b4);
        self.buf.push(b5);
        self.buf.push(b6);
        self.buf.push(b7);
        proof {
            assert(self.buf@ =~= old(self).buf@ + le8(bits));
        }
    }

    pub fn len(&self) -> (r: usize)
        ensures
            r == self@.len(),
    {
        self.buf.len()
    }

    /// Moves another buffer's bytes onto the end of this one.
    pub fn append(&mut self, other: Output)
        ensures
            final(self)@ == old(self)@ + other@,
    {
        let mut o = other;
        self.buf.append(&mut o.buf);
    }

    /// Hands the accumulated bytes out.
    pub fn into_vec(self) -> (r: Vec<u8>)
        ensures
            r@ == self@,
    {
        self.buf
    }
}

/// A byte-stream reader: a buffer together with the position of the next
/// unread byte.
pub struct Input {
    buf: Vec<u8>,
    pos: usize,
}

impl Input {
    /// The bytes the reader walks over.
    pub closed spec fn bytes(&self) -> Seq<u8> {
        self.buf@
    }

    /// The position of the next unread byte.
    pub closed spec fn pos(&self) -> nat {
        self.pos as nat
    }

    pub open spec fn wf(&self) -> bool {
        self.pos() <= self.bytes().len()
    }

    pub fn new(bytes: &Vec<u8>) -> (r: Input)
        ensures
            r.bytes() == bytes@,
            r.pos() == 0,
            r.wf(),
    {
        let mut copy: Vec<u8> = Vec::new();
        let n = bytes.len();
        let mut i: usize = 0;
        while i < n
            invariant
                i <= n,
                n == bytes@.len(),
                copy@ == bytes@.subrange(0, i as int),
            decreases n - i,
        {
            copy.push(bytes[i]);
            i = i + 1;
            proof {
                assert(copy@ =~= bytes@.subrange(0, i as int));
            }
        }
        proof {
            assert(copy@ =~= bytes@);
        }
        Input { buf: copy, pos: 0 }
    }

    pub fn has_remaining(&self) -> (r: bool)
        requires
            self.wf(),
        ensures
            r == (self.pos() < self.bytes().len()),
    {
        self.pos < self.buf.len()
    }

    /// Reads one byte and advances; fails exactly when the input is
    /// exhausted.
    pub fn read_byte(&mut self) -> (r: Result<u8, Error>)
        requires
            old(self).wf(),
        ensures
            final(self).wf(),
            final(self).bytes() == old(self).bytes(),
            match r {
                Ok(b) => old(self).pos() < old(self).bytes().len() && b == old(self).bytes()[old(
                    self,
                ).pos() as int] && final(self).pos() == old(self).pos() + 1,
                Err(e) => old(self).pos() == old(self).bytes().len() && final(self).pos() == old(
                    self,
                ).pos() && e matches Error::IoError(IoErrorKind::UnexpectedEof),
            },
    {
        if self.pos < self.buf.len() {
            let b = self.buf[self.pos];
            self.pos = self.pos + 1;
            Ok(b)
        } else {
            Err(Error::IoError(IoErrorKind::UnexpectedEof))
        }
    }

    /// Reads the eight little-endian bytes of a 64-bit double and returns
    /// its raw bits; fails exactly when fewer than eight bytes remain.
    pub fn read_double_le_bits(&mut self) -> (r: Result<u64, Error>)
        requires
            old(self).wf(),
        ensures
            final(self).wf(),
            final(self).bytes() == old(self).bytes(),
            final(self).pos() >= old(self).pos(),
            match r {
                Ok(bits) => old(self).pos() + 8 <= old(self).bytes().len() && final(self).pos()
                    == old(self).pos() + 8 && le8(bits) == old(self).bytes().subrange(
                    old(self).pos() as int,
                    old(self).pos() as int + 8,
                ),
                Err(e) => old(self).bytes().len() < old(self).pos() + 8 && e matches Error::IoError(
                    IoErrorKind::UnexpectedEof,
                ),
            },
    {
        if self.buf.len() - self.pos < 8 {
            // Keep the position where the shortage was found.
            if self.pos < self.buf.len() {
                self.pos = self.buf.len();
            }
            return Err(Error::IoError(IoErrorKind::UnexpectedEof));
        }
        let b0 = self.buf[self.pos];
        let b1 = self.buf[self.pos + 1];
        let b2 = self.buf[self.pos + 2];
        let b3 = self.buf[self.pos + 3];
        let b4 = self.buf[self.pos + 4];
        let b5 = self.buf[self.pos + 5];
        let b6 = self.buf[self.pos + 6];
        let b7 = self.buf[self.pos + 7];
        self.pos = self.pos + 8;
        let bits: u64 = b0 as u64 + b1 as u64 * 0x100 + b2 as u64 * 0x10000 + b3 as u64 * 0x1000000
            + b4 as u64 * 0x100000000 + b5 as u64 * 0x10000000000 + b6 as u64 * 0x1000000000000
            + b7 as u64 * 0x100000000000000;
        proof {
            lemma_le8_value(b0, b1, b2, b3, b4, b5, b6, b7);
            assert(le8(bits) =~= old(self).bytes().subrange(
                old(self).pos() as int,
                old(self).pos() as int + 8,
            ));
        }
        Ok(bits)
    }
}

/// The word whose eight little-endian bytes sit at `pos`.
pub open spec fn le8_at(bytes: Seq<u8>, pos: int) -> u64 {
    le8_value(
        bytes[pos],
        bytes[pos + 1],
        bytes[pos + 2],
        bytes[pos + 3],
        bytes[pos + 4],
        bytes[pos + 5],
        bytes[pos + 6],
        bytes[pos + 7],
    )
}

/// Reading back the little-endian bytes of a word gives the word.
pub proof fn lemma_le8_inverse(x: u64)
    ensures
        le8_value(
            (x % 0x100) as u8,
            ((x / 0x100) % 0x100) as u8,
            ((x / 0x10000) % 0x100) as u8,
            ((x / 0x1000000) % 0x100) as u8,
            ((x / 0x100000000) % 0x100) as u8,
            ((x / 0x10000000000) % 0x100) as u8,
            ((x / 0x1000000000000) % 0x100) as u8,
            ((x / 0x100000000000000) % 0x100) as u8,
        ) == x,
{
    assert(le8_value(
        (x % 0x100) as u8,
        ((x / 0x100) % 0x100) as u8,
        ((x / 0x10000) % 0x100) as u8,
        ((x / 0x1000000) % 0x100) as u8,
        ((x / 0x100000000) % 0x100) as u8,
        ((x / 0x10000000000) % 0x100) as u8,
        ((x / 0x1000000000000) % 0x100) as u8,
        ((x / 0x100000000000000) % 0x100) as u8,
    ) == x) by (bit_vector);
}

/// Reassembling a word from its little-endian bytes gives those bytes back.
proof fn lemma_le8_value(b0: u8, b1: u8, b2: u8, b3: u8, b4: u8, b5: u8, b6: u8, b7: u8)
    by (bit_vector)
    ensures
        le8_value(b0, b1, b2, b3, b4, b5, b6, b7) % 0x100 == b0,
        (le8_value(b0, b1, b2, b3, b4, b5, b6, b7) / 0x100) % 0x100 == b1,
        (le8_value(b0, b1, b2, b3, b4, b5, b6, b7) / 0x10000) % 0x100 == b2,
        (le8_value(b0, b1, b2, b3, b4, b5, b6, b7) / 0x1000000) % 0x100 == b3,
        (le8_value(b0, b1, b2, b3, b4, b5, b6, b7) / 0x100000000) % 0x100 == b4,
        (le8_value(b0, b1, b2, b3, b4, b5, b6, b7) / 0x10000000000) % 0x100 == b5,
        (le8_value(b0, b1, b2, b3, b4, b5, b6, b7) / 0x1000000000000) % 0x100 == b6,
        (le8_value(b0, b1, b2, b3, b4, b5, b6, b7) / 0x100000000000000) % 0x100 == b7,
        le8_value(b0, b1, b2, b3, b4, b5, b6, b7) as nat == b0 as nat + b1 as nat * 0x100 + b2
            as nat * 0x10000 + b3 as nat * 0x1000000 + b4 as nat * 0x100000000 + b5 as nat
            * 0x10000000000 + b6 as nat * 0x1000000000000 + b7 as nat * 0x100000000000000,
{
}

} // verus!
