//! A stream of bits packed into bytes: written bit by bit, most significant
//! first, then switched once to reading and read back in the same order.

use crate::bits::{
    bits_of, last_byte_count, lemma_bits_of_len, lemma_bits_of_mod, lemma_bits_of_skip_first,
    lemma_bits_of_take, lemma_pack_packed, lemma_pack_packed_last, lemma_pack_partial,
    lemma_packed_bits_len, lemma_packed_bits_push, lemma_unpack_pack, lemma_value_of_bound, pack,
    packed_bits, top_bits_only, value_of,
};
use crate::error::CodingError;
use vstd::arithmetic::power2::*;
use vstd::prelude::*;

verus! {

/// What a stream currently accepts.
#[derive(Clone, Copy, Debug, PartialEq, Eq, Structural)]
pub enum BitstreamMode {
    Write,
    Read,
}

/// How far reading has come.
#[derive(Clone, Copy, Debug, PartialEq, Eq, Structural)]
pub enum BitstreamReadingStatus {
    NotStarted,
    Reading,
    Finished,
}

/// The most bits a stream can hold.
pub const MAX_BITS: u64 = 0xFFFF_FFFF_FFFF_FF00;

/// The persisted form of a run of bits: a header byte whose high nibble is
/// `0xE` and whose low nibble says how many bits of the last byte are
/// meaningful, from 1 to 8, then the bits packed into bytes.
pub open spec fn frame(bits: Seq<bool>) -> Seq<u8> {
    seq![(0xE0 + last_byte_count(bits.len())) as u8] + pack(bits)
}

/// The run of bits that a persisted form holds, or why it holds none.
pub open spec fn unframe(bytes: Seq<u8>) -> Result<Seq<bool>, CodingError> {
    if bytes.len() == 0 {
        Err(CodingError::MissingHeader)
    } else if bytes[0] / 16 != 0xE {
        Err(CodingError::HeaderMismatch)
    } else if bytes.len() == 1 {
        Err(CodingError::HeaderOnly)
    } else if !(1 <= bytes[0] % 16 <= 8) {
        Err(CodingError::InvalidBitCount)
    } else {
        Ok(packed_bits(bytes.skip(1), 0, (bytes[0] % 16) as nat))
    }
}

/// Reading the persisted form of a run of bits gives the run again,
/// whatever its length, as long as it holds a bit at all. The form of the
/// empty run is the header byte alone, which reading refuses.
pub proof fn lemma_frame_round_trip(bits: Seq<bool>)
    ensures
        bits.len() > 0 ==> unframe(frame(bits)) == Ok::<Seq<bool>, CodingError>(bits),
        bits.len() == 0 ==> unframe(frame(bits)) == Err::<Seq<bool>, CodingError>(
            CodingError::HeaderOnly,
        ),
{
    let bytes = frame(bits);
    let count = last_byte_count(bits.len());
    assert(bytes[0] == 0xE0 + count);
    if bits.len() > 0 {
        lemma_unpack_pack(bits);
        assert(bytes.skip(1) =~= pack(bits));
    } else {
        assert(pack(bits) =~= Seq::<u8>::empty());
    }
}

/// A growable run of bits.
///
/// While writing, `data` holds the completed bytes and `buf8` the
/// `num_buf8` bits written since, in its low bits. While reading, `data`
/// holds every byte, the last of them with
/// `reading_num_valid_bits_last_byte` meaningful bits, `buf8` holds the
/// byte being read with its `num_buf8` unread bits on top, and
/// `bitstream_pointer` is the index of the byte that is loaded next.
#[derive(Debug)]
pub struct Bitstream {
    pub data: Vec<u8>,
    pub num_buf8: u8,
    pub buf8: u8,
    pub bitstream_pointer: u64,
    pub bitstream_mode: BitstreamMode,
    pub reading_status: BitstreamReadingStatus,
    pub reading_num_valid_bits_last_byte: u8,
}

impl Bitstream {
    /// The invariant that every operation expects and keeps.
    pub open spec fn wf(&self) -> bool {
        &&& self.bitstream_pointer <= self.data@.len()
        &&& match self.bitstream_mode {
            BitstreamMode::Write => {
                &&& self.reading_status is NotStarted
                &&& self.reading_num_valid_bits_last_byte == 0
                &&& self.num_buf8 < 8
                &&& self.buf8 < pow2(self.num_buf8 as nat)
                &&& 8 * self.data@.len() + self.num_buf8 <= MAX_BITS
            },
            BitstreamMode::Read => {
                &&& 8 * self.data@.len() <= MAX_BITS + 8
                &&& match self.reading_status {
                    BitstreamReadingStatus::NotStarted => false,
                    BitstreamReadingStatus::Reading => 1 <= self.num_buf8 <= 8,
                    BitstreamReadingStatus::Finished => true,
                }
                &&& if self.data@.len() == 0 {
                    &&& self.reading_num_valid_bits_last_byte == 0
                    &&& self.reading_status is Finished
                } else {
                    1 <= self.reading_num_valid_bits_last_byte <= 8
                }
            },
        }
    }

    /// The bits written since the last completed byte. A stream that is
    /// being read has none: its last byte was completed by the switch.
    pub open spec fn pending(&self) -> Seq<bool> {
        match self.bitstream_mode {
            BitstreamMode::Write => bits_of(self.buf8 as nat, self.num_buf8 as nat),
            BitstreamMode::Read => Seq::empty(),
        }
    }

    /// Every bit that the stream holds, in the order written.
    pub open spec fn bits(&self) -> Seq<bool> {
        match self.bitstream_mode {
            BitstreamMode::Write => packed_bits(self.data@, 0, 8) + self.pending(),
            BitstreamMode::Read => packed_bits(
                self.data@,
                0,
                self.reading_num_valid_bits_last_byte as nat,
            ),
        }
    }

    /// The bits that reading will still deliver, in order.
    pub open spec fn unread(&self) -> Seq<bool> {
        if self.reading_status is Reading {
            bits_of(self.buf8 as nat, 8).take(self.num_buf8 as int) + packed_bits(
                self.data@,
                self.bitstream_pointer as int,
                self.reading_num_valid_bits_last_byte as nat,
            )
        } else {
            Seq::empty()
        }
    }

    /// Whether the fields satisfy the invariant: the test to make on a
    /// stream that was put together field by field.
    pub fn is_well_formed(&self) -> (r: bool)
        ensures
            r == self.wf(),
    {
        let len: u64 = self.data.len() as u64;
        if self.bitstream_pointer > len {
            return false;
        }
        match self.bitstream_mode {
            BitstreamMode::Write => {
                if self.num_buf8 >= 8 {
                    return false;
                }
                let acc: u8 = self.buf8;
                let count: u8 = self.num_buf8;
                proof {
                    let weight = pow2(count as nat) as int;
                    let whole = acc as int / weight;
                    let part = acc as int % weight;
                    lemma_pow2_pos(count as nat);
                    vstd::bits::lemma_u8_shr_is_div(acc, count);
                    vstd::arithmetic::div_mod::lemma_fundamental_div_mod(acc as int, weight);
                    vstd::arithmetic::div_mod::lemma_mod_bound(acc as int, weight);
                    assert((whole == 0) <==> (acc < weight)) by (nonlinear_arith)
                        requires
                            acc == weight * whole + part,
                            0 <= part,
                            part < weight,
                            0 <= acc,
                    ;
                }
                let status_fits: bool = matches!(
                    self.reading_status,
                    BitstreamReadingStatus::NotStarted
                );
                let room: u64 = (MAX_BITS - count as u64) / 8;
                status_fits && self.reading_num_valid_bits_last_byte == 0 && (acc >> count) == 0
                    && len <= room
            },
            BitstreamMode::Read => {
                let valid: u8 = self.reading_num_valid_bits_last_byte;
                let status_fits: bool = match self.reading_status {
                    BitstreamReadingStatus::NotStarted => false,
                    BitstreamReadingStatus::Reading => 1 <= self.num_buf8 && self.num_buf8 <= 8,
                    BitstreamReadingStatus::Finished => true,
                };
                let count_fits: bool = if len == 0 {
                    valid == 0 && matches!(self.reading_status, BitstreamReadingStatus::Finished)
                } else {
                    1 <= valid && valid <= 8
                };
                len <= (MAX_BITS + 8) / 8 && status_fits && count_fits
            },
        }
    }

    /// An empty stream, ready for writing.
    pub fn new() -> (r: Self)
        ensures
            r.wf(),
            r.bitstream_mode is Write,
            r.bits() == Seq::<bool>::empty(),
            r.data@ == Seq::<u8>::empty(),
            r.num_buf8 == 0,
            r.buf8 == 0,
            r.bitstream_pointer == 0,
            r.reading_num_valid_bits_last_byte == 0,
    {
        let r = Self {
            data: Vec::new(),
            num_buf8: 0,
            buf8: 0,
            bitstream_pointer: 0,
            reading_num_valid_bits_last_byte: 0,
            bitstream_mode: BitstreamMode::Write,
            reading_status: BitstreamReadingStatus::NotStarted,
        };
        proof {
            lemma2_to64();
            assert(r.bits() =~= Seq::<bool>::empty());
        }
        r
    }

    /// Appends one bit. A stream that has been switched to reading refuses.
    pub fn write_bit(&mut self, bit: bool) -> (r: Result<(), CodingError>)
        requires
            old(self).wf(),
            old(self).bitstream_mode is Write ==> old(self).bits().len() < MAX_BITS,
        ensures
            final(self).wf(),
            match r {
                Ok(_) => {
                    &&& old(self).bitstream_mode is Write
                    &&& final(self).bitstream_mode is Write
                    &&& final(self).bits() == old(self).bits().push(bit)
                    &&& final(self).num_buf8 == (old(self).num_buf8 + 1) % 8
                    &&& final(self).bitstream_pointer == old(self).bitstream_pointer + (if old(
                        self,
                    ).num_buf8 == 7 {
                        1int
                    } else {
                        0int
                    })
                },
                Err(e) => {
                    &&& old(self).bitstream_mode is Read
                    &&& e == CodingError::ReadOnly
                    &&& *final(self) == *old(self)
                },
            },
    {
        match self.bitstream_mode {
            BitstreamMode::Read => {
                return Err(CodingError::ReadOnly);
            },
            BitstreamMode::Write => {},
        }
        let ghost before = *self;
        let low: u8 = if bit { 1 } else { 0 };
        proof {
            lemma2_to64();
            lemma_pow2_unfold((self.num_buf8 + 1) as nat);
            if self.num_buf8 < 7 {
                lemma_pow2_strictly_increases(self.num_buf8 as nat, 7);
            }
            lemma_packed_bits_len(self.data@, 0, 8);
            lemma_bits_of_len(self.buf8 as nat, self.num_buf8 as nat);
        }
        let acc: u8 = self.buf8;
        assert((acc << 1) | low == 2 * acc + low) by (bit_vector)
            requires
                acc < 128,
                low <= 1,
        ;
        self.buf8 = (acc << 1) | low;
        self.num_buf8 += 1;
        assert(bits_of(self.buf8 as nat, self.num_buf8 as nat) == before.pending().push(bit));
        if self.num_buf8 == 8 {
            self.data.push(self.buf8);
            proof {
                lemma_packed_bits_push(before.data@, 0, self.buf8, 8);
                lemma_bits_of_len(self.buf8 as nat, 8);
                assert(bits_of(self.buf8 as nat, 8).take(8) =~= bits_of(self.buf8 as nat, 8));
            }
            self.buf8 = 0;
            self.num_buf8 = 0;
            self.bitstream_pointer += 1;
            assert(self.bits() =~= before.bits().push(bit));
        } else {
            assert(self.bits() =~= before.bits().push(bit));
        }
        Ok(())
    }

    /// Switches the stream from writing to reading, once and for good. Bits
    /// that do not fill a byte are moved to the top of a last byte, whose
    /// low bits are zero. Reading then starts at the first bit written. A
    /// stream that has already been switched refuses.
    pub fn change_mode_to_read(&mut self) -> (r: Result<(), CodingError>)
        requires
            old(self).wf(),
        ensures
            final(self).wf(),
            match r {
                Ok(_) => {
                    &&& old(self).bitstream_mode is Write
                    &&& final(self).bitstream_mode is Read
                    &&& final(self).bits() == old(self).bits()
                    &&& final(self).unread() == old(self).bits()
                    &&& final(self).reading_status is Finished <==> old(self).bits().len() == 0
                    &&& final(self).data@ == if old(self).num_buf8 == 0 {
                        old(self).data@
                    } else {
                        old(self).data@.push(
                            (old(self).buf8 * pow2((8 - old(self).num_buf8) as nat)) as u8,
                        )
                    }
                    &&& final(self).reading_num_valid_bits_last_byte == if old(self).bits().len()
                        == 0 {
                        0int
                    } else if old(self).num_buf8 == 0 {
                        8int
                    } else {
                        old(self).num_buf8 as int
                    }
                },
                Err(e) => {
                    &&& old(self).bitstream_mode is Read
                    &&& e == CodingError::ReadOnly
                    &&& *final(self) == *old(self)
                },
            },
    {
        match self.bitstream_mode {
            BitstreamMode::Read => {
                return Err(CodingError::ReadOnly);
            },
            BitstreamMode::Write => {},
        }
        let ghost before = *self;
        let pending: u8 = self.num_buf8;
        proof {
            lemma_packed_bits_len(self.data@, 0, 8);
            lemma_bits_of_len(self.buf8 as nat, pending as nat);
        }
        if pending != 0 {
            let acc: u8 = self.buf8;
            let shift: u8 = 8 - pending;
            proof {
                lemma_top_aligned(acc, pending);
            }
            let top: u8 = acc << shift;
            self.data.push(top);
            proof {
                lemma_packed_bits_push(before.data@, 0, top, pending as nat);
            }
        }
        if self.data.len() == 0 {
            self.reading_num_valid_bits_last_byte = 0;
            self.buf8 = 0;
            self.num_buf8 = 0;
            self.bitstream_pointer = 0;
            self.reading_status = BitstreamReadingStatus::Finished;
            self.bitstream_mode = BitstreamMode::Read;
            assert(self.bits() =~= before.bits());
        } else {
            let valid: u8 = if pending == 0 { 8 } else { pending };
            self.reading_num_valid_bits_last_byte = valid;
            self.buf8 = self.data[0];
            self.num_buf8 = if self.data.len() == 1 { valid } else { 8 };
            self.bitstream_pointer = 1;
            self.reading_status = BitstreamReadingStatus::Reading;
            self.bitstream_mode = BitstreamMode::Read;
            proof {
                lemma_bits_of_len(self.buf8 as nat, 8);
                assert(bits_of(self.buf8 as nat, 8).take(8) =~= bits_of(self.buf8 as nat, 8));
                assert(self.bits() =~= before.bits());
                assert(self.unread() =~= self.bits());
            }
        }
        Ok(())
    }

    /// Takes the next unread bit. A stream that was never switched to
    /// reading, or whose last bit has been taken, refuses.
    pub fn read_bit(&mut self) -> (r: Result<bool, CodingError>)
        requires
            old(self).wf(),
        ensures
            final(self).wf(),
            match r {
                Ok(bit) => {
                    &&& old(self).reading_status is Reading
                    &&& old(self).unread().len() > 0
                    &&& bit == old(self).unread()[0]
                    &&& final(self).unread() == old(self).unread().skip(1)
                    &&& final(self).bits() == old(self).bits()
                    &&& final(self).bitstream_mode is Read
                    &&& final(self).reading_status is Finished <==> old(self).unread().len() == 1
                },
                Err(e) => {
                    &&& *final(self) == *old(self)
                    &&& match old(self).reading_status {
                        BitstreamReadingStatus::NotStarted => e == CodingError::NotStarted,
                        BitstreamReadingStatus::Reading => false,
                        BitstreamReadingStatus::Finished => e == CodingError::Finished,
                    }
                },
            },
    {
        match self.reading_status {
            BitstreamReadingStatus::NotStarted => {
                return Err(CodingError::NotStarted);
            },
            BitstreamReadingStatus::Finished => {
                return Err(CodingError::Finished);
            },
            BitstreamReadingStatus::Reading => {},
        }
        let ghost before = *self;
        let acc: u8 = self.buf8;
        let bit: bool = (acc & 0x80) == 0x80;
        let rest: u8 = acc << 1;
        proof {
            lemma_shift_out(acc, self.num_buf8);
            lemma_packed_bits_len(
                self.data@,
                self.bitstream_pointer as int,
                self.reading_num_valid_bits_last_byte as nat,
            );
            lemma_bits_of_len(acc as nat, 8);
            lemma_bits_of_len(rest as nat, 8);
        }
        self.buf8 = rest;
        self.num_buf8 -= 1;
        if self.num_buf8 == 0 {
            let len: usize = self.data.len();
            let at: usize = self.bitstream_pointer as usize;
            if at < len {
                self.buf8 = self.data[at];
                self.num_buf8 = if at < len - 1 {
                    8
                } else {
                    self.reading_num_valid_bits_last_byte
                };
                self.bitstream_pointer += 1;
                proof {
                    lemma_bits_of_len(self.buf8 as nat, 8);
                    assert(bits_of(self.buf8 as nat, 8).take(8) =~= bits_of(self.buf8 as nat, 8));
                    assert(self.unread() =~= before.unread().skip(1));
                }
            } else {
                self.reading_status = BitstreamReadingStatus::Finished;
                assert(self.unread() =~= before.unread().skip(1));
            }
        } else {
            assert(self.unread() =~= before.unread().skip(1));
        }
        Ok(bit)
    }

    /// How many bits the stream holds.
    pub fn total_size(&self) -> (r: u64)
        requires
            self.wf(),
        ensures
            r == self.bits().len(),
    {
        proof {
            lemma_packed_bits_len(self.data@, 0, 8);
            lemma_packed_bits_len(self.data@, 0, self.reading_num_valid_bits_last_byte as nat);
            lemma_bits_of_len(self.buf8 as nat, self.num_buf8 as nat);
        }
        let len: u64 = self.data.len() as u64;
        match self.bitstream_mode {
            BitstreamMode::Write => 8 * len + self.num_buf8 as u64,
            BitstreamMode::Read => {
                if len == 0 {
                    0
                } else {
                    8 * (len - 1) + self.reading_num_valid_bits_last_byte as u64
                }
            },
        }
    }

    /// How many bits reading will still deliver: none while the stream is
    /// being written.
    pub fn number_of_remaining_bits(&self) -> (r: u64)
        requires
            self.wf(),
        ensures
            r == self.unread().len(),
            self.bitstream_mode is Write ==> r == 0,
    {
        match self.reading_status {
            BitstreamReadingStatus::Reading => {
                proof {
                    lemma_packed_bits_len(
                        self.data@,
                        self.bitstream_pointer as int,
                        self.reading_num_valid_bits_last_byte as nat,
                    );
                    lemma_bits_of_len(self.buf8 as nat, 8);
                }
                let len: u64 = self.data.len() as u64;
                let loaded: u64 = self.num_buf8 as u64;
                if self.bitstream_pointer < len {
                    loaded + 8 * (len - 1 - self.bitstream_pointer)
                        + self.reading_num_valid_bits_last_byte as u64
                } else {
                    loaded
                }
            },
            _ => 0,
        }
    }

    /// Sets the byte cursor back to the first byte and leaves everything
    /// else as it is. A stream that is being read first delivers what is
    /// left of the byte it has loaded, then every bit it holds from the
    /// first on; one whose reading has finished stays finished.
    pub fn rewind(&mut self)
        requires
            old(self).wf(),
        ensures
            final(self).wf(),
            *final(self) == (Bitstream { bitstream_pointer: 0, ..*old(self) }),
            final(self).bits() == old(self).bits(),
            final(self).unread() == if old(self).reading_status is Reading {
                bits_of(old(self).buf8 as nat, 8).take(old(self).num_buf8 as int) + old(
                    self,
                ).bits()
            } else {
                Seq::<bool>::empty()
            },
    {
        self.bitstream_pointer = 0;
    }

    /// Appends the `n_bits` low bits of `num`, most significant first. A
    /// stream that has been switched to reading refuses.
    pub fn write_number(&mut self, num: u64, n_bits: u64) -> (r: Result<(), CodingError>)
        requires
            old(self).wf(),
            n_bits <= 64,
            old(self).bitstream_mode is Write ==> old(self).bits().len() + n_bits <= MAX_BITS,
        ensures
            final(self).wf(),
            match r {
                Ok(_) => {
                    &&& old(self).bitstream_mode is Write
                    &&& final(self).bitstream_mode is Write
                    &&& final(self).bits() == old(self).bits() + bits_of(num as nat, n_bits as nat)
                },
                Err(e) => {
                    &&& old(self).bitstream_mode is Read
                    &&& e == CodingError::ReadOnly
                    &&& *final(self) == *old(self)
                },
            },
    {
        match self.bitstream_mode {
            BitstreamMode::Read => {
                return Err(CodingError::ReadOnly);
            },
            BitstreamMode::Write => {},
        }
        let ghost before = *self;
        let mut left: u64 = n_bits;
        proof {
            lemma_pow2_pos(n_bits as nat);
            assert(self.bits() =~= before.bits() + bits_of(
                num as nat / pow2(left as nat),
                (n_bits - left) as nat,
            ));
        }
        while left > 0
            invariant
                self.wf(),
                self.bitstream_mode is Write,
                left <= n_bits <= 64,
                before.bits().len() + n_bits <= MAX_BITS,
                self.bits() == before.bits() + bits_of(
                    num as nat / pow2(left as nat),
                    (n_bits - left) as nat,
                ),
            decreases left,
        {
            let ghost so_far = bits_of(num as nat / pow2(left as nat), (n_bits - left) as nat);
            proof {
                lemma_bits_of_len(num as nat / pow2(left as nat), (n_bits - left) as nat);
                lemma_next_lower_bit(num, left);
            }
            left -= 1;
            let bit: bool = (num >> left) & 1 == 1;
            match self.write_bit(bit) {
                Ok(_) => {},
                Err(e) => {
                    return Err(e);
                },
            }
            proof {
                lemma_pow2_pos(left as nat);
                assert(bits_of(num as nat / pow2(left as nat), (n_bits - left) as nat)
                    == so_far.push(bit));
                assert(self.bits() =~= before.bits() + so_far.push(bit));
            }
        }
        proof {
            lemma2_to64();
            assert(num as nat / pow2(0) == num as nat);
        }
        Ok(())
    }

    /// Takes the next `n_bits` unread bits and returns the number they
    /// spell, most significant bit first. Where fewer are left, the stream
    /// refuses and keeps them.
    pub fn read_number(&mut self, n_bits: u64) -> (r: Result<u64, CodingError>)
        requires
            old(self).wf(),
            n_bits <= 64,
        ensures
            final(self).wf(),
            match r {
                Ok(num) => {
                    &&& n_bits <= old(self).unread().len()
                    &&& num == value_of(old(self).unread().take(n_bits as int))
                    &&& num < pow2(n_bits as nat)
                    &&& final(self).unread() == old(self).unread().skip(n_bits as int)
                    &&& final(self).bits() == old(self).bits()
                    &&& final(self).bitstream_mode == old(self).bitstream_mode
                },
                Err(e) => {
                    &&& n_bits > old(self).unread().len()
                    &&& *final(self) == *old(self)
                    &&& e == match old(self).reading_status {
                        BitstreamReadingStatus::NotStarted => CodingError::NotStarted,
                        BitstreamReadingStatus::Reading => CodingError::InsufficientBits,
                        BitstreamReadingStatus::Finished => CodingError::Finished,
                    }
                },
            },
    {
        if n_bits > self.number_of_remaining_bits() {
            return Err(
                match self.reading_status {
                    BitstreamReadingStatus::NotStarted => CodingError::NotStarted,
                    BitstreamReadingStatus::Reading => CodingError::InsufficientBits,
                    BitstreamReadingStatus::Finished => CodingError::Finished,
                },
            );
        }
        let ghost before = *self;
        let mut num: u64 = 0;
        let mut taken: u64 = 0;
        proof {
            assert(before.unread().skip(0) =~= before.unread());
            assert(before.unread().take(0) =~= Seq::<bool>::empty());
        }
        while taken < n_bits
            invariant
                self.wf(),
                taken <= n_bits <= 64,
                n_bits <= before.unread().len(),
                self.unread() == before.unread().skip(taken as int),
                self.bits() == before.bits(),
                self.bitstream_mode == before.bitstream_mode,
                num == value_of(before.unread().take(taken as int)),
            decreases n_bits - taken,
        {
            let ghost seen = before.unread().take(taken as int);
            proof {
                lemma_value_of_bound(seen);
                lemma2_to64_rest();
                if taken < 63 {
                    lemma_pow2_strictly_increases(taken as nat, 63);
                }
            }
            match self.read_bit() {
                Ok(bit) => {
                    let low: u64 = if bit { 1 } else { 0 };
                    num = 2 * num + low;
                    proof {
                        let longer = before.unread().take(taken + 1);
                        assert(longer.drop_last() =~= seen);
                        assert(longer.last() == bit);
                        assert(self.unread() =~= before.unread().skip(taken + 1));
                    }
                },
                Err(e) => {
                    return Err(e);
                },
            }
            taken += 1;
        }
        proof {
            lemma_value_of_bound(before.unread().take(n_bits as int));
        }
        Ok(num)
    }

    /// Appends the bits that `bs` has written since its last completed
    /// byte. What `self` holds stays as it is, in front of them; the
    /// completed bytes of `bs` are not taken over. A stream that has been
    /// switched to reading refuses.
    pub fn merge(&mut self, bs: Bitstream) -> (r: Result<(), CodingError>)
        requires
            old(self).wf(),
            bs.wf(),
            old(self).bitstream_mode is Write ==> old(self).bits().len() + bs.pending().len()
                <= MAX_BITS,
        ensures
            final(self).wf(),
            match r {
                Ok(_) => {
                    &&& old(self).bitstream_mode is Write
                    &&& final(self).bitstream_mode is Write
                    &&& final(self).bits() == old(self).bits() + bs.pending()
                },
                Err(e) => {
                    &&& old(self).bitstream_mode is Read
                    &&& e == CodingError::ReadOnly
                    &&& *final(self) == *old(self)
                },
            },
    {
        let count: u8 = match bs.bitstream_mode {
            BitstreamMode::Write => bs.num_buf8,
            BitstreamMode::Read => 0,
        };
        proof {
            lemma_bits_of_len(bs.buf8 as nat, bs.num_buf8 as nat);
            assert(bits_of(bs.buf8 as nat, count as nat) =~= bs.pending());
        }
        self.write_number(bs.buf8 as u64, count as u64)
    }

    /// Makes `self` a stream of the next `nbits` unread bits of `bs2`,
    /// switched to reading; what `self` held before is dropped. Where `bs2`
    /// has fewer bits left, nothing happens but the refusal.
    pub fn new_from_bitstream(&mut self, bs2: Bitstream, nbits: u64) -> (r: Result<
        (),
        CodingError,
    >)
        requires
            bs2.wf(),
            nbits <= MAX_BITS,
        ensures
            match r {
                Ok(_) => {
                    &&& nbits <= bs2.unread().len()
                    &&& final(self).wf()
                    &&& final(self).bitstream_mode is Read
                    &&& final(self).bits() == bs2.unread().take(nbits as int)
                    &&& final(self).unread() == bs2.unread().take(nbits as int)
                },
                Err(e) => {
                    &&& nbits > bs2.unread().len()
                    &&& e == CodingError::InsufficientBits
                    &&& *final(self) == *old(self)
                },
            },
    {
        if nbits > bs2.number_of_remaining_bits() {
            return Err(CodingError::InsufficientBits);
        }
        let mut source = bs2;
        let mut cut = Bitstream::new();
        let mut moved: u64 = 0;
        proof {
            assert(bs2.unread().skip(0) =~= bs2.unread());
            assert(bs2.unread().take(0) =~= cut.bits());
        }
        while moved < nbits
            invariant
                source.wf(),
                cut.wf(),
                cut.bitstream_mode is Write,
                moved <= nbits <= MAX_BITS,
                nbits <= bs2.unread().len(),
                source.unread() == bs2.unread().skip(moved as int),
                cut.bits() == bs2.unread().take(moved as int),
            decreases nbits - moved,
        {
            let bit: bool = match source.read_bit() {
                Ok(bit) => bit,
                Err(e) => {
                    return Err(e);
                },
            };
            match cut.write_bit(bit) {
                Ok(_) => {},
                Err(e) => {
                    return Err(e);
                },
            }
            proof {
                assert(source.unread() =~= bs2.unread().skip(moved + 1));
                assert(cut.bits() =~= bs2.unread().take(moved + 1));
            }
            moved += 1;
        }
        match cut.change_mode_to_read() {
            Ok(_) => {},
            Err(e) => {
                return Err(e);
            },
        }
        *self = cut;
        Ok(())
    }

    /// The persisted form of the stream: the header byte, then every bit it
    /// holds, packed into bytes. The stream stays as it is.
    pub fn flush_to_bytes(&self) -> (r: Vec<u8>)
        requires
            self.wf(),
        ensures
            r@ == frame(self.bits()),
    {
        let len: usize = self.data.len();
        let whole: usize = match self.bitstream_mode {
            BitstreamMode::Write => len,
            BitstreamMode::Read => if len == 0 { 0 } else { len - 1 },
        };
        let count: u8 = match self.bitstream_mode {
            BitstreamMode::Write => if self.num_buf8 == 0 { 8 } else { self.num_buf8 },
            BitstreamMode::Read => if len == 0 { 8 } else { self.reading_num_valid_bits_last_byte },
        };
        proof {
            lemma_packed_bits_len(self.data@, 0, 8);
            lemma_packed_bits_len(self.data@, 0, self.reading_num_valid_bits_last_byte as nat);
            lemma_bits_of_len(self.buf8 as nat, self.num_buf8 as nat);
            assert(count == last_byte_count(self.bits().len()));
            assert(0xE0u8 | count == 0xE0 + count) by (bit_vector)
                requires
                    count <= 8,
            ;
        }
        let mut out: Vec<u8> = Vec::new();
        out.push(0xE0u8 | count);
        let mut at: usize = 0;
        while at < whole
            invariant
                at <= whole <= self.data@.len(),
                out@ == seq![(0xE0 + count) as u8] + self.data@.take(at as int),
            decreases whole - at,
        {
            out.push(self.data[at]);
            at += 1;
            assert(out@ =~= seq![(0xE0 + count) as u8] + self.data@.take(at as int));
        }
        match self.bitstream_mode {
            BitstreamMode::Write => {
                proof {
                    lemma_pack_packed(self.data@, 0, self.pending());
                    assert(self.data@.take(whole as int) =~= self.data@.skip(0));
                }
                if self.num_buf8 > 0 {
                    let acc: u8 = self.buf8;
                    let shift: u8 = 8 - self.num_buf8;
                    proof {
                        lemma_top_aligned(acc, self.num_buf8);
                        lemma_pack_partial(acc as nat, self.num_buf8 as nat);
                    }
                    out.push(acc << shift);
                    assert(out@ =~= frame(self.bits()));
                } else {
                    assert(pack(self.pending()) =~= Seq::<u8>::empty());
                    assert(out@ =~= frame(self.bits()));
                }
            },
            BitstreamMode::Read => {
                if len > 0 {
                    let last: u8 = self.data[len - 1];
                    let shift: u8 = 8 - self.reading_num_valid_bits_last_byte;
                    proof {
                        lemma_pack_packed_last(
                            self.data@,
                            0,
                            self.reading_num_valid_bits_last_byte as nat,
                        );
                        lemma_clear_low(last, self.reading_num_valid_bits_last_byte);
                        assert(self.data@.take(whole as int) =~= self.data@.subrange(
                            0,
                            len - 1,
                        ));
                    }
                    out.push((last >> shift) << shift);
                    assert(out@ =~= frame(self.bits()));
                } else {
                    assert(pack(self.bits()) =~= Seq::<u8>::empty());
                    assert(out@ =~= frame(self.bits()));
                }
            },
        }
        out
    }

    /// Makes `self` the stream that the persisted form `content` holds,
    /// switched to reading and at its first bit; what `self` held before is
    /// dropped. The data bytes are taken as they are: bits of the last
    /// byte beyond the header's count stay in `data` and are never read.
    /// Refuses, and changes nothing, where `content` is empty, its header's
    /// high nibble is not `0xE`, it holds the header alone, or the header's
    /// count is not in `1..=8`.
    pub fn read_from_bytes(&mut self, content: Vec<u8>) -> (r: Result<(), CodingError>)
        requires
            8 * content@.len() <= MAX_BITS,
        ensures
            match unframe(content@) {
                Ok(bits) => {
                    &&& r is Ok
                    &&& final(self).wf()
                    &&& final(self).bitstream_mode is Read
                    &&& final(self).reading_status is Reading
                    &&& final(self).bits() == bits
                    &&& final(self).unread() == bits
                    &&& final(self).data@ == content@.skip(1)
                    &&& final(self).reading_num_valid_bits_last_byte == content@[0] % 16
                },
                Err(e) => r == Err::<(), CodingError>(e) && *final(self) == *old(self),
            },
    {
        if content.len() == 0 {
            return Err(CodingError::MissingHeader);
        }
        let header: u8 = content[0];
        proof {
            assert(((header & 0xF0) == 0xE0) == (header / 16 == 0xE) && (header & 0x0F) == header
                % 16) by (bit_vector);
        }
        if header & 0xF0 != 0xE0 {
            return Err(CodingError::HeaderMismatch);
        }
        if content.len() == 1 {
            return Err(CodingError::HeaderOnly);
        }
        let valid: u8 = header & 0x0F;
        if valid == 0 || valid > 8 {
            return Err(CodingError::InvalidBitCount);
        }
        let mut head = content;
        let data: Vec<u8> = head.split_off(1);
        assert(data@ =~= content@.skip(1));
        let first: u8 = data[0];
        let loaded: u8 = if data.len() == 1 { valid } else { 8 };
        *self = Bitstream {
            data,
            num_buf8: loaded,
            buf8: first,
            bitstream_pointer: 1,
            bitstream_mode: BitstreamMode::Read,
            reading_status: BitstreamReadingStatus::Reading,
            reading_num_valid_bits_last_byte: valid,
        };
        proof {
            lemma_bits_of_len(first as nat, 8);
            assert(bits_of(first as nat, 8).take(8) =~= bits_of(first as nat, 8));
            assert(self.unread() =~= self.bits());
        }
        Ok(())
    }
}

/// Bits that sit in the low end of a byte, moved to its top, are the first
/// bits of that byte.
proof fn lemma_top_aligned(acc: u8, count: u8)
    requires
        1 <= count <= 7,
        acc < pow2(count as nat),
    ensures
        acc * pow2((8 - count) as nat) <= u8::MAX,
        (acc << ((8 - count) as u8)) == acc * pow2((8 - count) as nat),
        bits_of((acc << ((8 - count) as u8)) as nat, 8).take(count as int) == bits_of(
            acc as nat,
            count as nat,
        ),
{
    let shift = (8 - count) as nat;
    let weight = pow2(shift);
    lemma2_to64();
    lemma_pow2_adds(count as nat, shift);
    lemma_pow2_pos(shift);
    assert(acc * weight <= (pow2(count as nat) - 1) * weight) by (nonlinear_arith)
        requires
            acc <= pow2(count as nat) - 1,
            weight > 0,
    ;
    assert((pow2(count as nat) - 1) * weight == pow2(count as nat) * weight - weight)
        by (nonlinear_arith);
    vstd::bits::lemma_u8_shl_is_mul(acc, (8 - count) as u8);
    let top = (acc << ((8 - count) as u8)) as nat;
    lemma_bits_of_take(top, 8, count as nat);
    vstd::arithmetic::div_mod::lemma_div_by_multiple(acc as int, weight as int);
    assert(top / weight == acc as nat);
}

/// Shifting the top bit out of a byte leaves the bits that followed it.
proof fn lemma_shift_out(acc: u8, count: u8)
    requires
        1 <= count <= 8,
    ensures
        bits_of(acc as nat, 8).take(count as int).len() == count,
        bits_of(acc as nat, 8).take(count as int)[0] == ((acc & 0x80) == 0x80),
        bits_of((acc << 1u8) as nat, 8).take(count - 1) == bits_of(acc as nat, 8).take(
            count as int,
        ).skip(1),
{
    let rest: u8 = acc << 1u8;
    lemma2_to64();
    lemma_bits_of_len(acc as nat, 8);
    lemma_bits_of_len(rest as nat, 8);
    lemma_bits_of_take(acc as nat, 8, 1);
    assert(((acc & 0x80) == 0x80) == ((acc / 128) % 2 == 1)) by (bit_vector);
    assert(bits_of(acc as nat / 128, 1) =~= seq![(acc as nat / 128) % 2 == 1]) by {
        reveal_with_fuel(bits_of, 2);
    }
    assert(bits_of(acc as nat, 8).take(1)[0] == bits_of(acc as nat, 8)[0]);
    assert(rest == (2 * acc) % 256) by (bit_vector)
        requires
            rest == acc << 1u8,
    ;
    lemma_bits_of_mod(2 * acc as nat, 8);
    lemma_bits_of_skip_first(acc as nat, 7);
    lemma_bits_of_len(acc as nat, 7);
    assert(bits_of(2 * acc as nat, 8) == bits_of(acc as nat, 7).push(false));
    assert(bits_of(rest as nat, 8).take(count - 1) =~= bits_of(acc as nat, 8).take(
        count as int,
    ).skip(1));
}

/// The bit of `num` with weight `2^(left - 1)` is the last of the bits above
/// weight `2^(left - 1)`, and the shift-and-mask test reads it.
proof fn lemma_next_lower_bit(num: u64, left: u64)
    requires
        1 <= left <= 64,
    ensures
        (num as nat / pow2((left - 1) as nat)) / 2 == num as nat / pow2(left as nat),
        (((num >> ((left - 1) as u64)) & 1) == 1) == ((num as nat / pow2((left - 1) as nat)) % 2
            == 1),
{
    let lower = (left - 1) as nat;
    let shifted: u64 = num >> ((left - 1) as u64);
    lemma_pow2_unfold(left as nat);
    lemma_pow2_pos(lower);
    vstd::arithmetic::div_mod::lemma_div_denominator(num as int, pow2(lower) as int, 2);
    vstd::bits::lemma_u64_shr_is_div(num, (left - 1) as u64);
    assert(((shifted & 1) == 1) == (shifted % 2 == 1)) by (bit_vector);
}

/// Shifting a byte right and left again by the same count sets its low
/// bits to zero.
proof fn lemma_clear_low(byte: u8, valid: u8)
    requires
        1 <= valid <= 8,
    ensures
        ((byte >> ((8 - valid) as u8)) << ((8 - valid) as u8)) == top_bits_only(byte, valid as nat),
{
    let shift: u8 = (8 - valid) as u8;
    let high: u8 = byte >> shift;
    let weight = pow2(shift as nat);
    lemma2_to64();
    lemma_pow2_pos(shift as nat);
    vstd::bits::lemma_u8_shr_is_div(byte, shift);
    vstd::arithmetic::div_mod::lemma_fundamental_div_mod(byte as int, weight as int);
    vstd::arithmetic::div_mod::lemma_mod_bound(byte as int, weight as int);
    assert(high * weight <= byte) by (nonlinear_arith)
        requires
            byte == weight * high + (byte as int % weight as int),
            0 <= byte as int % weight as int,
    ;
    vstd::bits::lemma_u8_shl_is_mul(high, shift);
}

} // verus!
