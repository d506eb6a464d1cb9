//! The bit stream of the entropy-coded segment.
//!
//! Bytes enter a 32-bit register from the right, eight bits at a time, and
//! bits leave it from the left of its valid window. On the way in the stream
//! undoes byte stuffing (`FF 00` stands for a data byte `FF`) and notices
//! markers (`FF xx`): a marker is remembered, and from then on the register
//! is fed with `FF` bytes so that the symbol in progress can finish.

use crate::types::Error;
use vstd::prelude::*;

verus! {

/// The word whose low `n` bits are set.
pub open spec fn low_mask(n: u32) -> u32 {
    if n >= 32 {
        0xFFFF_FFFF
    } else {
        ((1u32 << n) - 1) as u32
    }
}

/// What a bit stream is made of, as plain values.
pub struct BitState {
    /// The bytes of the entropy-coded segment.
    pub data: Seq<u8>,
    /// Index of the next byte to read.
    pub pos: nat,
    /// The register. Only its low `count` bits are valid.
    pub register: u32,
    /// Number of valid bits in the register.
    pub count: nat,
    /// The marker byte that the stream ran into, if any.
    pub marker: Option<u8>,
    /// For reading bit by bit: the place in the current byte of the next
    /// bit, or 0 where a new byte has to be loaded.
    pub mask: u8,
}

impl BitState {
    /// The read position lies inside the data and the count inside the
    /// register.
    pub open spec fn wf(self) -> bool {
        &&& self.pos <= self.data.len()
        &&& self.count <= 32
    }

    /// A stream at the start of `data`, with an empty register.
    pub open spec fn start(data: Seq<u8>) -> BitState {
        BitState { data, pos: 0, register: 0, count: 0, marker: None, mask: 0 }
    }

    /// The valid bits of the register.
    pub open spec fn window(self) -> u32 {
        self.register & low_mask(self.count as u32)
    }

    /// The stream after `byte` has entered the register from the right.
    pub open spec fn push(self, byte: u8, pos: nat, marker: Option<u8>) -> BitState {
        BitState {
            register: (self.window() << 8) | (byte as u32),
            count: self.count + 8,
            pos,
            marker,
            ..self
        }
    }

    /// The next byte for the register, with the read position and the marker
    /// after it. After a marker that is an `FF` and nothing is read. Else it
    /// is the next data byte, where `FF 00` counts as `FF` and `FF xx` as
    /// `FF` with the marker `xx` remembered. Data that ends before that is an
    /// input error.
    pub open spec fn next_byte(self) -> Result<(u8, nat, Option<u8>), Error> {
        if self.marker is Some {
            Ok((0xFFu8, self.pos, self.marker))
        } else if self.pos >= self.data.len() {
            Err(Error::Input)
        } else if self.data[self.pos as int] != 0xFF {
            Ok((self.data[self.pos as int], self.pos + 1, None))
        } else if self.pos + 1 >= self.data.len() {
            Err(Error::Input)
        } else if self.data[self.pos as int + 1] == 0 {
            Ok((0xFFu8, self.pos + 2, None))
        } else {
            Ok((0xFFu8, self.pos + 2, Some(self.data[self.pos as int + 1])))
        }
    }

    /// The stream after one more byte has entered the register.
    pub open spec fn refill(self) -> Result<BitState, Error> {
        match self.next_byte() {
            Ok((byte, pos, marker)) => Ok(self.push(byte, pos, marker)),
            Err(e) => Err(e),
        }
    }

    /// The stream refilled until the register holds at least `n` bits.
    pub open spec fn fill(self, n: nat) -> Result<BitState, Error>
        decreases n + 8 - self.count,
    {
        if self.count >= n {
            Ok(self)
        } else {
            match self.next_byte() {
                Ok((byte, pos, marker)) => self.push(byte, pos, marker).fill(n),
                Err(e) => Err(e),
            }
        }
    }

    /// What [`BitState::fill`] leaves: at least `n` bits in the register,
    /// and no more than 32 where at most 25 were asked for.
    pub proof fn lemma_fill(self, n: nat)
        requires
            self.wf(),
            n <= 25,
        ensures
            self.fill(n) matches Ok(s) ==> {
                &&& s.wf()
                &&& s.count >= n
                &&& s.data == self.data
                &&& s.mask == self.mask
                &&& (self.count >= n ==> s == self)
                &&& (self.count < n ==> s.count < n + 8)
            },
        decreases n + 8 - self.count,
    {
        if self.count < n {
            match self.next_byte() {
                Ok((byte, pos, marker)) => {
                    self.push(byte, pos, marker).lemma_fill(n);
                },
                Err(e) => {},
            }
        }
    }

    /// The first `n` bits of the window, as a number.
    pub open spec fn top(self, n: nat) -> u32 {
        if n == 0 {
            0
        } else {
            (self.window() >> ((self.count - n) as u32)) & low_mask(n as u32)
        }
    }

    /// The stream after the first `n` bits of the window have left.
    pub open spec fn drop_bits(self, n: nat) -> BitState {
        BitState { count: (self.count - n) as nat, ..self }
    }

    /// Reading `n` bits, `1 <= n <= 16`: the bits as a number and the stream
    /// after them.
    pub open spec fn read(self, n: nat) -> Result<(u16, BitState), Error> {
        match self.fill(n) {
            Ok(s) => Ok((s.top(n) as u16, s.drop_bits(n))),
            Err(e) => Err(e),
        }
    }

    /// Skipping `n > 0` bits from an empty register: whole bytes are read
    /// and dropped, and the last one stays in the register with what is left
    /// of it.
    pub open spec fn skip_empty(self, n: nat) -> Result<BitState, Error>
        decreases n,
    {
        match (BitState { count: 0, ..self }).refill() {
            Err(e) => Err(e),
            Ok(s) => if n <= 8 {
                Ok(s.drop_bits(n))
            } else {
                s.skip_empty((n - 8) as nat)
            },
        }
    }

    /// Skipping `n` bits.
    pub open spec fn skip(self, n: nat) -> Result<BitState, Error> {
        if n <= self.count {
            Ok(self.drop_bits(n))
        } else {
            self.skip_empty((n - self.count) as nat)
        }
    }

    /// The stream with `byte` loaded as the current byte for reading bit by
    /// bit, and its first bit.
    pub open spec fn load(self, byte: u8, pos: nat, marker: Option<u8>) -> (u8, BitState) {
        (byte / 128, BitState { register: byte as u32, mask: 0x40, pos, marker, ..self })
    }

    /// Reading one bit, bit by bit. A new byte is loaded where the current
    /// one is used up; after a marker one byte of the data is passed over and
    /// an `FF` is loaded in its place.
    pub open spec fn bit(self) -> Result<(u8, BitState), Error> {
        if self.mask != 0 {
            Ok(
                (
                    if self.register & (self.mask as u32) != 0 {
                        1u8
                    } else {
                        0u8
                    },
                    BitState { mask: self.mask / 2, ..self },
                ),
            )
        } else if self.pos >= self.data.len() {
            Err(Error::Input)
        } else if self.marker is Some {
            Ok(self.load(0xFF, self.pos + 1, self.marker))
        } else if self.data[self.pos as int] != 0xFF {
            Ok(self.load(self.data[self.pos as int], self.pos + 1, None))
        } else if self.pos + 1 >= self.data.len() {
            Err(Error::Input)
        } else if self.data[self.pos as int + 1] == 0 {
            Ok(self.load(0xFF, self.pos + 2, None))
        } else {
            Ok(self.load(0xFF, self.pos + 2, Some(self.data[self.pos as int + 1])))
        }
    }

    /// Reading `n` bits, bit by bit, behind the bits `acc` read so far: the
    /// low 16 bits of all of them and the stream after them.
    pub open spec fn bits(self, n: nat, acc: u16) -> Result<(u16, BitState), Error>
        decreases n,
    {
        if n == 0 {
            Ok((acc, self))
        } else {
            match self.bit() {
                Err(e) => Err(e),
                Ok((b, s)) => s.bits((n - 1) as nat, ((acc * 2) % 65536 + b) as u16),
            }
        }
    }

    /// The stream after a restart marker: register, marker and bit position
    /// cleared.
    pub open spec fn restart(self) -> BitState {
        BitState { register: 0, count: 0, marker: None, mask: 0, ..self }
    }
}

/// Reads bits from the entropy-coded segment of a stream.
pub struct BitStream<'a> {
    /// The bytes of the entropy-coded segment.
    pub data: &'a [u8],
    /// Index of the next byte to read.
    pub pos: usize,
    /// The register. Only its low `bits_in_buffer` bits are valid.
    pub bit_buffer: u32,
    /// Number of valid bits in the register.
    pub bits_in_buffer: usize,
    /// The marker byte that the stream ran into, if any.
    pub marker_found: Option<u8>,
    /// For reading bit by bit: the place in the current byte of the next
    /// bit, or 0 where a new byte has to be loaded.
    pub bit_mask: u8,
}

impl<'a> View for BitStream<'a> {
    type V = BitState;

    open spec fn view(&self) -> BitState {
        BitState {
            data: self.data@,
            pos: self.pos as nat,
            register: self.bit_buffer,
            count: self.bits_in_buffer as nat,
            marker: self.marker_found,
            mask: self.bit_mask,
        }
    }
}

/// The word whose low `n` bits are set.
pub fn mask_of(n: usize) -> (m: u32)
    requires
        n <= 32,
    ensures
        m == low_mask(n as u32),
{
    if n >= 32 {
        0xFFFF_FFFF
    } else {
        let one: u32 = 1;
        let bit: u32 = one << (n as u32);
        assert(1u32 << (n as u32) >= 1) by (bit_vector)
            requires
                n < 32,
        ;
        bit - 1
    }
}

/// The first `n` bits of a window of `count` bits fit in 16 bits.
pub proof fn lemma_top_fits(window: u32, count: u32, n: u32)
    requires
        1 <= n <= 16,
        n <= count <= 32,
    ensures
        (window >> ((count - n) as u32)) & low_mask(n) <= 0xFFFF,
{
    let shifted = window >> ((count - n) as u32);
    assert(shifted & low_mask(n) <= 0xFFFF) by (bit_vector)
        requires
            1 <= n <= 16,
    ;
}

impl<'a> BitStream<'a> {
    /// A stream at the start of `data`.
    pub fn new(data: &'a [u8]) -> (s: Self)
        ensures
            s@ == BitState::start(data@),
            s@.wf(),
    {
        BitStream { data, pos: 0, bit_buffer: 0, bits_in_buffer: 0, marker_found: None, bit_mask: 0 }
    }

    /// Reads one bit, bit by bit.
    pub fn read_bit_level0(&mut self) -> (r: Result<u8, Error>)
        requires
            old(self)@.wf(),
        ensures
            final(self)@.wf(),
            final(self)@.data == old(self)@.data,
            match old(self)@.bit() {
                Ok((b, s)) => r == Ok::<u8, Error>(b) && final(self)@ == s,
                Err(e) => r == Err::<u8, Error>(e),
            },
    {
        if self.bit_mask == 0 {
            if self.pos >= self.data.len() {
                return Err(Error::Input);
            }
            let byte: u8 = self.data[self.pos];
            if self.marker_found.is_some() {
                self.pos += 1;
                self.bit_buffer = 0xFF;
            } else if byte == 0xFF {
                if self.pos + 1 >= self.data.len() {
                    return Err(Error::Input);
                }
                let next: u8 = self.data[self.pos + 1];
                self.pos += 2;
                if next != 0 {
                    self.marker_found = Some(next);
                }
                self.bit_buffer = 0xFF;
            } else {
                self.pos += 1;
                self.bit_buffer = byte as u32;
            }
            self.bit_mask = 0x40;
            let first: u8 = (self.bit_buffer / 128) as u8;
            Ok(first)
        } else {
            let bit: u8 = if self.bit_buffer & (self.bit_mask as u32) != 0 {
                1
            } else {
                0
            };
            self.bit_mask = self.bit_mask / 2;
            Ok(bit)
        }
    }

    /// Reads one bit through the register.
    pub fn read_bit(&mut self) -> (r: Result<u8, Error>)
        requires
            old(self)@.wf(),
        ensures
            final(self)@.wf(),
            final(self)@.data == old(self)@.data,
            match old(self)@.read(1) {
                Ok((b, s)) => r == Ok::<u8, Error>(b as u8) && b <= 1 && final(self)@ == s,
                Err(e) => r == Err::<u8, Error>(e),
            },
    {
        proof {
            reveal_with_fuel(BitState::fill, 3);
        }
        if self.bits_in_buffer == 0 {
            match self.refill() {
                Ok(()) => {},
                Err(e) => {
                    return Err(e);
                },
            }
        }
        let window: u32 = self.bit_buffer & mask_of(self.bits_in_buffer);
        self.bits_in_buffer -= 1;
        let shifted: u32 = window >> (self.bits_in_buffer as u32);
        let bit: u32 = shifted & 1;
        assert(shifted & 1 <= 1) by (bit_vector);
        assert(low_mask(1) == 1) by (bit_vector);
        Ok(bit as u8)
    }

    /// Reads `nbit` bits, bit by bit, and returns the low 16 bits of them.
    pub fn read_bits_level0(&mut self, nbit: usize) -> (r: Result<u16, Error>)
        requires
            old(self)@.wf(),
        ensures
            final(self)@.wf(),
            final(self)@.data == old(self)@.data,
            match old(self)@.bits(nbit as nat, 0) {
                Ok((v, s)) => r == Ok::<u16, Error>(v) && final(self)@ == s,
                Err(e) => r == Err::<u16, Error>(e),
            },
    {
        let mut d: u16 = 0;
        let mut i: usize = 0;
        while i < nbit
            invariant
                i <= nbit,
                self@.wf(),
                self@.data == old(self)@.data,
                old(self)@.bits(nbit as nat, 0) == self@.bits((nbit - i) as nat, d),
            decreases nbit - i,
        {
            match self.read_bit_level0() {
                Err(e) => {
                    return Err(e);
                },
                Ok(bit) => {
                    assert(bit <= 1);
                    assert((d << 1) | (bit as u16) == ((d * 2) % 65536 + bit) as u16) by (bit_vector)
                        requires
                            bit <= 1,
                    ;
                    d = (d << 1) | (bit as u16);
                },
            }
            i += 1;
        }
        Ok(d)
    }

    /// Reads `nbit` bits through the register and returns them as a number.
    /// No bits give 0, and nothing is read; more than 16 are refused.
    pub fn read_bits(&mut self, nbit: usize) -> (r: Result<u16, Error>)
        requires
            old(self)@.wf(),
        ensures
            final(self)@.wf(),
            final(self)@.data == old(self)@.data,
            nbit == 0 ==> r == Ok::<u16, Error>(0) && final(self)@ == old(self)@,
            nbit > 16 ==> r == Err::<u16, Error>(Error::Parameter) && final(self)@ == old(self)@,
            1 <= nbit <= 16 ==> match old(self)@.read(nbit as nat) {
                Ok((v, s)) => r == Ok::<u16, Error>(v) && final(self)@ == s,
                Err(e) => r == Err::<u16, Error>(e),
            },
    {
        if nbit == 0 {
            return Ok(0);
        }
        if nbit > 16 {
            return Err(Error::Parameter);
        }
        match self.ensure_bits(nbit) {
            Ok(()) => {},
            Err(e) => {
                return Err(e);
            },
        }
        let window: u32 = self.bit_buffer & mask_of(self.bits_in_buffer);
        let rest: usize = self.bits_in_buffer - nbit;
        let value: u32 = (window >> (rest as u32)) & mask_of(nbit);
        proof {
            lemma_top_fits(window, self.bits_in_buffer as u32, nbit as u32);
        }
        self.bits_in_buffer = rest;
        Ok(value as u16)
    }

    /// Returns the next `count` bits without taking them out of the
    /// register. More than 16 are refused.
    pub fn peek(&mut self, count: usize) -> (r: Result<u16, Error>)
        requires
            old(self)@.wf(),
        ensures
            final(self)@.wf(),
            final(self)@.data == old(self)@.data,
            count > 16 ==> r == Err::<u16, Error>(Error::Parameter) && final(self)@ == old(self)@,
            count <= 16 ==> match old(self)@.fill(count as nat) {
                Ok(s) => r == Ok::<u16, Error>(s.top(count as nat) as u16) && final(self)@ == s,
                Err(e) => r == Err::<u16, Error>(e),
            },
    {
        if count > 16 {
            return Err(Error::Parameter);
        }
        match self.ensure_bits(count) {
            Ok(()) => {},
            Err(e) => {
                return Err(e);
            },
        }
        if count == 0 {
            return Ok(0);
        }
        let window: u32 = self.bit_buffer & mask_of(self.bits_in_buffer);
        let rest: usize = self.bits_in_buffer - count;
        let value: u32 = (window >> (rest as u32)) & mask_of(count);
        proof {
            lemma_top_fits(window, self.bits_in_buffer as u32, count as u32);
        }
        Ok(value as u16)
    }

    /// Passes over the next `count` bits.
    pub fn skip(&mut self, count: usize) -> (r: Result<(), Error>)
        requires
            old(self)@.wf(),
        ensures
            final(self)@.wf(),
            final(self)@.data == old(self)@.data,
            match old(self)@.skip(count as nat) {
                Ok(s) => r is Ok && final(self)@ == s,
                Err(e) => r == Err::<(), Error>(e),
            },
    {
        if count <= self.bits_in_buffer {
            self.bits_in_buffer -= count;
            return Ok(());
        }
        let mut remaining: usize = count - self.bits_in_buffer;
        self.bits_in_buffer = 0;
        loop
            invariant
                remaining > 0,
                self@.wf(),
                self@.data == old(self)@.data,
                old(self)@.skip(count as nat) == self@.skip_empty(remaining as nat),
            decreases remaining,
        {
            self.bits_in_buffer = 0;
            match self.refill() {
                Ok(()) => {},
                Err(e) => {
                    return Err(e);
                },
            }
            if remaining <= 8 {
                self.bits_in_buffer -= remaining;
                return Ok(());
            }
            remaining -= 8;
        }
    }

    /// Refills the register until it holds at least `count` bits. A register
    /// of 32 bits that is fed a byte at a time can promise 25 bits at most:
    /// more are refused.
    pub fn ensure_bits(&mut self, count: usize) -> (r: Result<(), Error>)
        requires
            old(self)@.wf(),
        ensures
            final(self)@.wf(),
            final(self)@.data == old(self)@.data,
            count > 25 ==> r == Err::<(), Error>(Error::Parameter) && final(self)@ == old(self)@,
            count <= 25 ==> match old(self)@.fill(count as nat) {
                Ok(s) => r is Ok && final(self)@ == s && s.count >= count,
                Err(e) => r == Err::<(), Error>(e),
            },
    {
        if count > 25 {
            return Err(Error::Parameter);
        }
        proof {
            old(self)@.lemma_fill(count as nat);
        }
        while self.bits_in_buffer < count
            invariant
                count <= 25,
                self@.wf(),
                self@.data == old(self)@.data,
                old(self)@.fill(count as nat) == self@.fill(count as nat),
            decreases count + 8 - self.bits_in_buffer,
        {
            match self.refill() {
                Ok(()) => {},
                Err(e) => {
                    return Err(e);
                },
            }
        }
        Ok(())
    }

    /// Lets one more byte into the register. The register must have room for
    /// it.
    pub fn refill(&mut self) -> (r: Result<(), Error>)
        requires
            old(self)@.wf(),
            old(self)@.count <= 24,
        ensures
            final(self)@.wf(),
            final(self)@.data == old(self)@.data,
            match old(self)@.refill() {
                Ok(s) => r is Ok && final(self)@ == s && s.count == old(self)@.count + 8,
                Err(e) => r == Err::<(), Error>(e) && final(self)@ == old(self)@,
            },
    {
        let window: u32 = self.bit_buffer & mask_of(self.bits_in_buffer);
        if self.marker_found.is_some() {
            self.bit_buffer = (window << 8) | 0xFF;
            self.bits_in_buffer += 8;
            return Ok(());
        }
        if self.pos >= self.data.len() {
            return Err(Error::Input);
        }
        let byte: u8 = self.data[self.pos];
        if byte != 0xFF {
            self.pos += 1;
            self.bit_buffer = (window << 8) | (byte as u32);
            self.bits_in_buffer += 8;
            return Ok(());
        }
        if self.pos + 1 >= self.data.len() {
            return Err(Error::Input);
        }
        let next: u8 = self.data[self.pos + 1];
        self.pos += 2;
        if next != 0 {
            self.marker_found = Some(next);
        }
        self.bit_buffer = (window << 8) | 0xFF;
        self.bits_in_buffer += 8;
        Ok(())
    }

    /// Clears the register, the marker and the bit position, as a restart
    /// marker asks.
    pub fn reset_for_restart(&mut self)
        ensures
            final(self)@ == old(self)@.restart(),
    {
        self.bit_buffer = 0;
        self.bits_in_buffer = 0;
        self.marker_found = None;
        self.bit_mask = 0;
    }

    /// Returns the marker that the stream ran into, if any, and forgets it.
    pub fn get_marker(&mut self) -> (m: Option<u8>)
        ensures
            m == old(self)@.marker,
            final(self)@ == (BitState { marker: None, ..old(self)@ }),
    {
        let m: Option<u8> = self.marker_found;
        self.marker_found = None;
        m
    }
}

} // verus!
