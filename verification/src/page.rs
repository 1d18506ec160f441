use crate::error::Error;
use crate::table::{Record, RecordModel, Row, Table};
use vstd::arithmetic::mul::lemma_mul_inequality;
use vstd::arithmetic::power2::{lemma2_to64, lemma2_to64_rest, lemma_pow2_adds, pow2};
use crate::varint::{high_bit, low_bits, varint_end, varint_end_from, varint_fold, varint_value};
use vstd::prelude::*;
use vstd::slice::{slice_subrange, slice_to_vec};
use vstd::utf8::valid_utf8;

verus! {

/// A read head over one page-sized byte buffer.
pub struct Page<'t> {
    pub buffer: &'t Vec<u8>,
    pub cursor: usize,
}

/// The big-endian value of the `n` bytes at `p`.
pub open spec fn be_int(s: Seq<u8>, p: int, n: int) -> nat
    decreases n,
{
    if n <= 0 {
        0
    } else {
        be_int(s, p, n - 1) * 0x100 + (s[p + n - 1] as nat)
    }
}

/// The value of `n` bytes stays under `2^(8n)`.
proof fn lemma_be_int_bound(s: Seq<u8>, p: int, n: int)
    requires
        0 <= n,
    ensures
        be_int(s, p, n) < pow2((8 * n) as nat),
    decreases n,
{
    if n == 0 {
        lemma2_to64();
    } else {
        lemma_be_int_bound(s, p, n - 1);
        lemma_pow2_adds((8 * (n - 1)) as nat, 8);
        lemma2_to64();
        lemma_mul_inequality(
            be_int(s, p, n - 1) as int + 1,
            pow2((8 * (n - 1)) as nat) as int,
            0x100,
        );
    }
}

/// The two's-complement reading of the `n` bytes at `p`: the unsigned
/// big-endian value, less `2^(8n)` when its sign bit is set. The widths are
/// those of the integer serial types: one to four, six or eight bytes.
pub open spec fn spec_signed_be(s: Seq<u8>, p: int, n: int) -> int {
    let v = be_int(s, p, n) as int;
    let half: int = if n == 1 {
        0x80
    } else if n == 2 {
        0x8000
    } else if n == 3 {
        0x800000
    } else if n == 4 {
        0x80000000
    } else if n == 6 {
        0x800000000000
    } else {
        0x8000000000000000
    };
    if v >= half {
        v - 2 * half
    } else {
        v
    }
}

impl<'t> Page<'t> {
    /// One byte, big-endian, advancing the cursor past it.
    pub fn read_u8(&mut self) -> (r: u8)
        requires
            old(self).cursor + 1 <= old(self).buffer.len(),
        ensures
            final(self).buffer == old(self).buffer,
            final(self).cursor == old(self).cursor + 1,
            r as nat == be_int(old(self).buffer@, old(self).cursor as int, 1),
    {
        proof {
            reveal_with_fuel(be_int, 2);
        }
        let r = self.buffer[self.cursor];
        self.cursor = self.cursor + 1;
        r
    }

    /// Two bytes, big-endian.
    pub fn read_u16(&mut self) -> (r: u16)
        requires
            old(self).cursor + 2 <= old(self).buffer.len(),
        ensures
            final(self).buffer == old(self).buffer,
            final(self).cursor == old(self).cursor + 2,
            r as nat == be_int(old(self).buffer@, old(self).cursor as int, 2),
    {
        proof {
            reveal_with_fuel(be_int, 3);
        }
        let b0 = self.buffer[self.cursor];
        let b1 = self.buffer[self.cursor + 1];
        self.cursor = self.cursor + 2;
        (b0 as u16) * 0x100 + (b1 as u16)
    }

    /// Three bytes, big-endian, widened into a `u32`.
    pub fn read_u24(&mut self) -> (r: u32)
        requires
            old(self).cursor + 3 <= old(self).buffer.len(),
        ensures
            final(self).buffer == old(self).buffer,
            final(self).cursor == old(self).cursor + 3,
            r as nat == be_int(old(self).buffer@, old(self).cursor as int, 3),
    {
        proof {
            reveal_with_fuel(be_int, 4);
        }
        let b0 = self.buffer[self.cursor];
        let b1 = self.buffer[self.cursor + 1];
        let b2 = self.buffer[self.cursor + 2];
        self.cursor = self.cursor + 3;
        (b0 as u32) * 0x10000 + (b1 as u32) * 0x100 + (b2 as u32)
    }

    /// Four bytes, big-endian.
    pub fn read_u32(&mut self) -> (r: u32)
        requires
            old(self).cursor + 4 <= old(self).buffer.len(),
        ensures
            final(self).buffer == old(self).buffer,
            final(self).cursor == old(self).cursor + 4,
            r as nat == be_int(old(self).buffer@, old(self).cursor as int, 4),
    {
        proof {
            reveal_with_fuel(be_int, 5);
        }
        let b0 = self.buffer[self.cursor];
        let b1 = self.buffer[self.cursor + 1];
        let b2 = self.buffer[self.cursor + 2];
        let b3 = self.buffer[self.cursor + 3];
        self.cursor = self.cursor + 4;
        (b0 as u32) * 0x1000000 + (b1 as u32) * 0x10000 + (b2 as u32) * 0x100 + (b3 as u32)
    }

    /// Six bytes, big-endian, widened into a `u64`.
    pub fn read_u48(&mut self) -> (r: u64)
        requires
            old(self).cursor + 6 <= old(self).buffer.len(),
        ensures
            final(self).buffer == old(self).buffer,
            final(self).cursor == old(self).cursor + 6,
            r as nat == be_int(old(self).buffer@, old(self).cursor as int, 6),
    {
        proof {
            reveal_with_fuel(be_int, 7);
        }
        let b0 = self.buffer[self.cursor];
        let b1 = self.buffer[self.cursor + 1];
        let b2 = self.buffer[self.cursor + 2];
        let b3 = self.buffer[self.cursor + 3];
        let b4 = self.buffer[self.cursor + 4];
        let b5 = self.buffer[self.cursor + 5];
        self.cursor = self.cursor + 6;
        (b0 as u64) * 0x10000000000 + (b1 as u64) * 0x100000000 + (b2 as u64) * 0x1000000 + (b3
            as u64) * 0x10000 + (b4 as u64) * 0x100 + (b5 as u64)
    }

    /// Eight bytes, big-endian.
    pub fn read_u64(&mut self) -> (r: u64)
        requires
            old(self).cursor + 8 <= old(self).buffer.len(),
        ensures
            final(self).buffer == old(self).buffer,
            final(self).cursor == old(self).cursor + 8,
            r as nat == be_int(old(self).buffer@, old(self).cursor as int, 8),
    {
        proof {
            reveal_with_fuel(be_int, 9);
        }
        let b0 = self.buffer[self.cursor];
        let b1 = self.buffer[self.cursor + 1];
        let b2 = self.buffer[self.cursor + 2];
        let b3 = self.buffer[self.cursor + 3];
        let b4 = self.buffer[self.cursor + 4];
        let b5 = self.buffer[self.cursor + 5];
        let b6 = self.buffer[self.cursor + 6];
        let b7 = self.buffer[self.cursor + 7];
        self.cursor = self.cursor + 8;
        (b0 as u64) * 0x100000000000000 + (b1 as u64) * 0x1000000000000 + (b2 as u64)
            * 0x10000000000 + (b3 as u64) * 0x100000000 + (b4 as u64) * 0x1000000 + (b5 as u64)
            * 0x10000 + (b6 as u64) * 0x100 + (b7 as u64)
    }

    /// The next `length` bytes, without moving the cursor.
    pub fn read_bits(&self, length: usize) -> (r: &[u8])
        requires
            self.cursor + length <= self.buffer.len(),
        ensures
            r@ == self.buffer@.subrange(self.cursor as int, self.cursor + length),
    {
        slice_subrange(self.buffer.as_slice(), self.cursor, self.cursor + length)
    }

    /// The next `length` bytes as a fresh vector, advancing the cursor.
    pub fn read_bytes(&mut self, length: usize) -> (r: Vec<u8>)
        requires
            old(self).cursor + length <= old(self).buffer.len(),
        ensures
            final(self).buffer == old(self).buffer,
            final(self).cursor == old(self).cursor + length,
            r@ == old(self).buffer@.subrange(
                old(self).cursor as int,
                old(self).cursor + length,
            ),
    {
        let r = slice_to_vec(self.read_bits(length));
        self.cursor = self.cursor + length;
        r
    }

    /// The next `length` bytes as text, advancing the cursor; rejected when
    /// they are not UTF-8.
    pub fn read_utf8(&mut self, length: usize) -> (r: Result<Vec<u8>, Error>)
        requires
            old(self).cursor + length <= old(self).buffer.len(),
        ensures
            final(self).buffer == old(self).buffer,
            ({
                let taken = old(self).buffer@.subrange(
                    old(self).cursor as int,
                    old(self).cursor + length,
                );
                match r {
                    Ok(v) => {
                        &&& valid_utf8(taken)
                        &&& v@ == taken
                        &&& final(self).cursor == old(self).cursor + length
                    },
                    Err(e) => {
                        &&& e == Error::MalformedPage
                        &&& !valid_utf8(taken)
                        &&& final(self).cursor == old(self).cursor
                    },
                }
            }),
    {
        let bytes = slice_to_vec(self.read_bits(length));
        if crate::table::utf8_valid(&bytes) {
            self.cursor = self.cursor + length;
            Ok(bytes)
        } else {
            Err(Error::MalformedPage)
        }
    }
}

/// Bytes consumed by a value of the given serial type.
pub open spec fn width_of(st: u64) -> int {
    if st == 0 {
        0
    } else if st == 1 {
        1
    } else if st == 2 {
        2
    } else if st == 3 {
        3
    } else if st == 4 {
        4
    } else if st == 5 {
        6
    } else if st == 6 {
        8
    } else if st == 7 {
        8
    } else if st <= 11 {
        0
    } else if st % 2 == 0 {
        (st - 12) / 2
    } else {
        (st - 13) / 2
    }
}

/// The value a serial type denotes at position `p`, and the position just
/// after it: an integral payload read as big-endian two's-complement and
/// sign-extended, a floating payload as its raw bits, the constants zero
/// and one, or a blob or text payload of the width the serial type encodes.
/// Reads past the buffer, and text that is not UTF-8, decode to nothing.
pub open spec fn spec_read_record(s: Seq<u8>, p: int, st: u64) -> Option<(RecordModel, int)> {
    let w = width_of(st);
    if p < 0 || p + w > s.len() {
        None
    } else {
        let q = p + w;
        if st == 0 {
            Some((RecordModel::Null, q))
        } else if 1 <= st <= 6 {
            Some((RecordModel::Int(spec_signed_be(s, p, w) as i64), q))
        } else if st == 7 {
            Some((RecordModel::Float(be_int(s, p, 8) as u64), q))
        } else if st == 8 {
            Some((RecordModel::Int(0), q))
        } else if st == 9 {
            Some((RecordModel::Int(1), q))
        } else if st <= 11 {
            Some((RecordModel::Reserved, q))
        } else if st % 2 == 0 {
            Some((RecordModel::Blob(s.subrange(p, q)), q))
        } else if valid_utf8(s.subrange(p, q)) {
            Some((RecordModel::Text(s.subrange(p, q)), q))
        } else {
            None
        }
    }
}

/// Every serial type consumes exactly the bytes its table row gives.
pub proof fn lemma_record_width(s: Seq<u8>, p: int, st: u64)
    ensures
        spec_read_record(s, p, st) matches Some(pair) ==> pair.1 == p + width_of(st),
{
}

/// One value at the cursor, decoded as the serial type directs.
pub fn read_record(serial_type: u64, page: &mut Page) -> (r: Result<Record, Error>)
    ensures
        final(page).buffer == old(page).buffer,
        r is Ok ==> final(page).cursor as int == old(page).cursor + width_of(serial_type),
        ({
            let res = spec_read_record(old(page).buffer@, old(page).cursor as int, serial_type);
            match r {
                Ok(rec) => {
                    &&& res matches Some(pair)
                    &&& rec@ == pair.0
                    &&& final(page).cursor as int == pair.1
                },
                Err(e) => {
                    &&& e == Error::MalformedPage
                    &&& res is None
                    &&& final(page).cursor == old(page).cursor
                },
            }
        }),
{
    let ghost s0 = page.buffer@;
    let ghost c0 = page.cursor as int;
    let len = page.buffer.len();
    if page.cursor > len {
        return Err(Error::MalformedPage);
    }
    let avail = (len - page.cursor) as u64;
    let result: Record;
    match serial_type {
        0 => {
            result = Record::NULL;
        },
        1 => {
            if avail < 1 {
                return Err(Error::MalformedPage);
            }
            let v = page.read_u8();
            proof {
                lemma_be_int_bound(s0, c0, 1);
            }
            let signed: i64 = if v >= 0x80 {
                (v as i64) - 0x100
            } else {
                v as i64
            };
            proof {
                assert(signed == spec_signed_be(s0, c0, 1) as i64);
            }
            result = Record::INT(signed);
        },
        2 => {
            if avail < 2 {
                return Err(Error::MalformedPage);
            }
            let v = page.read_u16();
            proof {
                lemma_be_int_bound(s0, c0, 2);
            }
            let signed: i64 = if v >= 0x8000 {
                (v as i64) - 0x10000
            } else {
                v as i64
            };
            proof {
                assert(signed == spec_signed_be(s0, c0, 2) as i64);
            }
            result = Record::INT(signed);
        },
        3 => {
            if avail < 3 {
                return Err(Error::MalformedPage);
            }
            let v = page.read_u24();
            proof {
                lemma_be_int_bound(s0, c0, 3);
            }
            let signed: i64 = if v >= 0x800000 {
                (v as i64) - 0x1000000
            } else {
                v as i64
            };
            proof {
                assert(signed == spec_signed_be(s0, c0, 3) as i64);
            }
            result = Record::INT(signed);
        },
        4 => {
            if avail < 4 {
                return Err(Error::MalformedPage);
            }
            let v = page.read_u32();
            proof {
                lemma_be_int_bound(s0, c0, 4);
            }
            let signed: i64 = if v >= 0x80000000 {
                (v as i64) - 0x100000000
            } else {
                v as i64
            };
            proof {
                assert(signed == spec_signed_be(s0, c0, 4) as i64);
            }
            result = Record::INT(signed);
        },
        5 => {
            if avail < 6 {
                return Err(Error::MalformedPage);
            }
            let v = page.read_u48();
            proof {
                lemma_be_int_bound(s0, c0, 6);
                lemma2_to64_rest();
            }
            let signed: i64 = if v >= 0x800000000000 {
                (v as i64) - 0x1000000000000
            } else {
                v as i64
            };
            proof {
                assert(signed == spec_signed_be(s0, c0, 6) as i64);
            }
            result = Record::INT(signed);
        },
        6 => {
            if avail < 8 {
                return Err(Error::MalformedPage);
            }
            let v = page.read_u64();
            proof {
                lemma_be_int_bound(s0, c0, 8);
                lemma2_to64_rest();
            }
            let signed: i64 = if v >= 0x8000000000000000 {
                // wrap into the negative range by hand: the value is v - 2^64
                let magnitude: u64 = (0xffffffffffffffff - v) + 1;
                -((magnitude - 1) as i64) - 1
            } else {
                v as i64
            };
            proof {
                assert(signed == spec_signed_be(s0, c0, 8) as i64);
            }
            result = Record::INT(signed);
        },
        7 => {
            if avail < 8 {
                return Err(Error::MalformedPage);
            }
            result = Record::FLOAT(page.read_u64());
        },
        8 => {
            result = Record::INT(0);
        },
        9 => {
            result = Record::INT(1);
        },
        10 | 11 => {
            result = Record::RESERVED;
        },
        _ => {
            if serial_type % 2 == 0 {
                let data_size = (serial_type - 12) / 2;
                if avail < data_size {
                    return Err(Error::MalformedPage);
                }
                result = Record::BLOB(page.read_bytes(data_size as usize));
            } else {
                let data_size = (serial_type - 13) / 2;
                if avail < data_size {
                    return Err(Error::MalformedPage);
                }
                match page.read_utf8(data_size as usize) {
                    Ok(v) => {
                        result = Record::STRING(v);
                    },
                    Err(e) => {
                        return Err(e);
                    },
                }
            }
        },
    }
    Ok(result)
}

/// The serial types of a record header: varints read one after another
/// until exactly `remaining` bytes are consumed. A truncated varint, or one
/// that runs past the header, decodes to nothing.
pub open spec fn spec_serial_types(s: Seq<u8>, p: int, remaining: int) -> Option<(Seq<u64>, int)>
    decreases remaining,
    via spec_serial_types_decreases
{
    if remaining <= 0 {
        if remaining == 0 {
            Some((Seq::empty(), p))
        } else {
            None
        }
    } else {
        match varint_end(s, p) {
            None => None,
            Some(e) => {
                if remaining - (e - p) < 0 {
                    None
                } else {
                    let v = varint_fold(s, p, e) as u64;
                    match spec_serial_types(s, e, remaining - (e - p)) {
                        None => None,
                        Some(pair) => Some((seq![v] + pair.0, pair.1)),
                    }
                }
            },
        }
    }
}

#[via_fn]
proof fn spec_serial_types_decreases(s: Seq<u8>, p: int, remaining: int) {
    if remaining > 0 {
        if varint_end(s, p) is Some {
            crate::varint::lemma_varint_end_shape(s, p, varint_end(s, p)->Some_0);
        }
    }
}

/// The values of one record body, read in serial-type order.
pub open spec fn spec_read_records(s: Seq<u8>, p: int, types: Seq<u64>) -> Option<
    (Seq<RecordModel>, int),
>
    decreases types.len(),
{
    if types.len() == 0 {
        Some((Seq::empty(), p))
    } else {
        match spec_read_record(s, p, types[0]) {
            None => None,
            Some(pair) => {
                match spec_read_records(s, pair.1, types.drop_first()) {
                    None => None,
                    Some(rest) => Some((seq![pair.0] + rest.0, rest.1)),
                }
            },
        }
    }
}

/// One leaf-table cell at `p`: a payload-size varint, the rowid, then a
/// record header whose size field counts its own bytes, and one value per
/// serial type. Gives the decoded row - the rowid first - and the serial
/// types the header carried.
pub open spec fn spec_read_cell(s: Seq<u8>, p: int) -> Option<(Seq<RecordModel>, Seq<u64>)> {
    match varint_end(s, p) {
        None => None,
        Some(p1) => match varint_end(s, p1) {
            None => None,
            Some(p2) => {
                let rowid = varint_fold(s, p1, p2) as i64;
                match varint_end(s, p2) {
                    None => None,
                    Some(p3) => {
                        let header_size = varint_fold(s, p2, p3);
                        match spec_serial_types(s, p3, header_size - (p3 - p2)) {
                            None => None,
                            Some(sts) => match spec_read_records(s, sts.1, sts.0) {
                                None => None,
                                Some(vals) => Some(
                                    (seq![RecordModel::Int(rowid)] + vals.0, sts.0),
                                ),
                            },
                        }
                    },
                }
            },
        },
    }
}

proof fn lemma_records_len(s: Seq<u8>, p: int, types: Seq<u64>)
    ensures
        spec_read_records(s, p, types) matches Some(pair) ==> pair.0.len() == types.len(),
    decreases types.len(),
{
    if types.len() > 0 {
        if spec_read_record(s, p, types[0]) is Some {
            lemma_records_len(
                s,
                spec_read_record(s, p, types[0])->Some_0.1,
                types.drop_first(),
            );
        }
    }
}

/// Each decoded row holds the rowid and then one value per serial type of
/// the record header.
pub proof fn lemma_row_length(s: Seq<u8>, p: int)
    ensures
        spec_read_cell(s, p) matches Some(pair) ==> pair.0.len() == 1 + pair.1.len(),
{
    if spec_read_cell(s, p) is Some {
        let p1 = varint_end(s, p)->Some_0;
        let p2 = varint_end(s, p1)->Some_0;
        let p3 = varint_end(s, p2)->Some_0;
        let header_size = varint_fold(s, p2, p3);
        let sts = spec_serial_types(s, p3, header_size - (p3 - p2))->Some_0;
        lemma_records_len(s, sts.1, sts.0);
    }
}

/// One leaf-table cell at the cursor, decoded as one row.
#[verifier::loop_isolation(false)]
#[verifier::rlimit(80)]
pub fn read_cell(page: &mut Page) -> (r: Result<Row, Error>)
    ensures
        final(page).buffer == old(page).buffer,
        ({
            let res = spec_read_cell(old(page).buffer@, old(page).cursor as int);
            match r {
                Ok(row) => {
                    &&& res matches Some(pair)
                    &&& row.deep_view() == pair.0
                },
                Err(e) => {
                    &&& e == Error::MalformedPage
                    &&& res is None
                },
            }
        }),
{
    let ghost s = page.buffer@;
    let ghost p0 = page.cursor as int;
    let _payload_size = match read_varint(page) {
        Ok(v) => v,
        Err(e) => {
            return Err(e);
        },
    };
    let ghost p1 = page.cursor as int;
    let row_id = match read_varint(page) {
        Ok(v) => v,
        Err(e) => {
            return Err(e);
        },
    };
    proof {
        // a varint value fits in 63 bits, so the rowid is never negative
        crate::varint::lemma_varint_value_fits(s, p1);
    }
    let mut row: Row = Vec::new();
    row.push(Record::INT(row_id as i64));
    assert(row.deep_view() =~= seq![RecordModel::Int(row_id as i64)]);

    let header_start = page.cursor;
    let ghost p2 = page.cursor as int;
    let header_size = match read_varint(page) {
        Ok(v) => v,
        Err(e) => {
            return Err(e);
        },
    };
    let ghost p3 = page.cursor as int;
    proof {
        crate::varint::lemma_varint_end_shape(s, p2, p3);
    }
    let size_field_len = page.cursor - header_start;
    if (size_field_len as u64) > header_size {
        return Err(Error::MalformedPage);
    }
    let mut remaining = header_size - (size_field_len as u64);
    let ghost r0 = remaining as int;

    let mut types: Vec<u64> = Vec::new();
    while remaining > 0
        invariant
            page.buffer == old(page).buffer,
            s == page.buffer@,
            ({
                let full = spec_serial_types(s, p3, r0);
                match spec_serial_types(s, page.cursor as int, remaining as int) {
                    None => full is None,
                    Some(pair) => full == Some((types@ + pair.0, pair.1)),
                }
            }),
        decreases remaining,
    {
        let before = page.cursor;
        let v = match read_varint(page) {
            Ok(v) => v,
            Err(e) => {
                return Err(e);
            },
        };
        proof {
            crate::varint::lemma_varint_end_shape(s, before as int, page.cursor as int);
        }
        let consumed = page.cursor - before;
        if (consumed as u64) > remaining {
            return Err(Error::MalformedPage);
        }
        let ghost old_types = types@;
        let ghost rest_opt = spec_serial_types(s, page.cursor as int, remaining - consumed);
        remaining = remaining - (consumed as u64);
        types.push(v);
        proof {
            if rest_opt is Some {
                let pair = rest_opt->Some_0;
                assert(old_types + (seq![v] + pair.0) =~= types@ + pair.0);
            }
        }
    }
    let ghost p4 = page.cursor as int;
    // the header is fully consumed: the collected types are the header's
    assert(types@ + Seq::<u64>::empty() =~= types@);
    assert(spec_serial_types(s, p3, r0) == Some((types@, p4)));
    proof {
        assert(types@.skip(0) =~= types@);
        let full = spec_read_records(s, p4, types@);
        if full is Some {
            let pair = full->Some_0;
            assert(row.deep_view().skip(1) + pair.0 =~= pair.0);
        }
    }

    let mut i: usize = 0;
    while i < types.len()
        invariant
            page.buffer == old(page).buffer,
            s == page.buffer@,
            i <= types@.len(),
            row.deep_view().len() == 1 + i,
            row.deep_view()[0] == RecordModel::Int(row_id as i64),
            ({
                let full = spec_read_records(s, p4, types@);
                match spec_read_records(s, page.cursor as int, types@.skip(i as int)) {
                    None => full is None,
                    Some(pair) => full == Some((row.deep_view().skip(1) + pair.0, pair.1)),
                }
            }),
        decreases types@.len() - i,
    {
        proof {
            assert(types@.skip(i as int)[0] == types@[i as int]);
            assert(types@.skip(i as int).drop_first() =~= types@.skip(i as int + 1));
        }
        let st = types[i];
        let rec = match read_record(st, page) {
            Ok(rec) => rec,
            Err(e) => {
                return Err(e);
            },
        };
        let ghost prev_dv = row.deep_view();
        let ghost rest_opt = spec_read_records(s, page.cursor as int, types@.skip(i as int + 1));
        row.push(rec);
        i = i + 1;
        proof {
            assert(row.deep_view() =~= prev_dv.push(rec@));
            if rest_opt is Some {
                let pair = rest_opt->Some_0;
                assert(prev_dv.skip(1) + (seq![rec@] + pair.0) =~= row.deep_view().skip(1)
                    + pair.0);
            }
        }
    }
    proof {
        assert(types@.skip(types@.len() as int) =~= Seq::<u64>::empty());
        assert(row.deep_view().skip(1) + Seq::<RecordModel>::empty() =~= row.deep_view().skip(1));
        assert(seq![RecordModel::Int(row_id as i64)] + row.deep_view().skip(1)
            =~= row.deep_view());
    }
    Ok(row)
}

/// The name of SQLite's internal sequence table, "sqlite_sequence", whose
/// row every decoded page drops.
pub open spec fn spec_sequence_name() -> Seq<u8> {
    seq![115u8, 113, 108, 105, 116, 101, 95, 115, 101, 113, 117, 101, 110, 99, 101]
}

/// A row the page decoder drops: its third column holds the name of the
/// internal sequence table.
pub open spec fn spec_row_filtered(row: Seq<RecordModel>) -> bool {
    row.len() > 2 && match row[2] {
        RecordModel::Text(b) => b == spec_sequence_name(),
        RecordModel::Blob(b) => b == spec_sequence_name(),
        _ => false,
    }
}

/// The four B-tree page kinds, by their first body byte.
pub open spec fn spec_kind_ok(b: u8) -> bool {
    b == 0x02 || b == 0x05 || b == 0x0a || b == 0x0d
}

pub open spec fn spec_is_leaf(b: u8) -> bool {
    b == 0x0a || b == 0x0d
}

/// A leaf page header spans eight bytes, an interior one twelve.
pub open spec fn spec_header_len(kind: u8) -> int {
    if spec_is_leaf(kind) {
        8
    } else {
        12
    }
}

/// The rows of cells `i..count`, each cell located by the 16-bit offset at
/// its slot of the cell-pointer array at `arr`, with the sequence row
/// dropped.
pub open spec fn spec_page_rows(s: Seq<u8>, arr: int, i: int, count: int) -> Option<
    Seq<Seq<RecordModel>>,
>
    decreases count - i,
{
    if i >= count {
        Some(Seq::empty())
    } else {
        let off = be_int(s, arr + 2 * i, 2) as int;
        match spec_read_cell(s, off) {
            None => None,
            Some(pair) => match spec_page_rows(s, arr, i + 1, count) {
                None => None,
                Some(rest) => if spec_row_filtered(pair.0) {
                    Some(rest)
                } else {
                    Some(seq![pair.0] + rest)
                },
            },
        }
    }
}

/// One page decoded from `start`: when the page is the first of the file its
/// body begins after the hundred-byte database header. The body starts with
/// the kind byte; the cell count sits at body offset three; the cell-pointer
/// array follows the page header.
pub open spec fn spec_read_page(s: Seq<u8>, start: int, first: bool) -> Option<
    Seq<Seq<RecordModel>>,
> {
    let base = start + if first {
        100int
    } else {
        0int
    };
    if base < 0 || base + 5 > s.len() {
        None
    } else {
        let kind = s[base];
        if !spec_kind_ok(kind) {
            None
        } else {
            let count = be_int(s, base + 3, 2) as int;
            let arr = base + spec_header_len(kind);
            if arr + 2 * count > s.len() {
                None
            } else {
                spec_page_rows(s, arr, 0, count)
            }
        }
    }
}

/// Decoding succeeds only when the first page-body byte is one of the four
/// B-tree page kinds.
pub proof fn lemma_page_kind(s: Seq<u8>, start: int, first: bool)
    ensures
        spec_read_page(s, start, first) is Some ==> ({
            let base = start + if first {
                100int
            } else {
                0int
            };
            &&& base + 5 <= s.len()
            &&& spec_kind_ok(s[base])
        }),
{
}

proof fn lemma_page_rows_filtered(s: Seq<u8>, arr: int, i: int, count: int)
    ensures
        spec_page_rows(s, arr, i, count) matches Some(rows) ==> forall|k: int|
            0 <= k < rows.len() ==> !spec_row_filtered(#[trigger] rows[k]),
    decreases count - i,
{
    if i < count {
        let off = be_int(s, arr + 2 * i, 2) as int;
        if spec_read_cell(s, off) is Some && spec_page_rows(s, arr, i + 1, count) is Some {
            lemma_page_rows_filtered(s, arr, i + 1, count);
            let row = spec_read_cell(s, off)->Some_0.0;
            let rest = spec_page_rows(s, arr, i + 1, count)->Some_0;
            let rows = spec_page_rows(s, arr, i, count)->Some_0;
            if !spec_row_filtered(row) {
                assert forall|k: int| 0 <= k < rows.len() implies !spec_row_filtered(
                    #[trigger] rows[k],
                ) by {
                    if k > 0 {
                        assert(rows[k] == rest[k - 1]);
                    }
                }
            }
        }
    }
}

/// No decoded table carries the sequence row: any cell whose third column
/// names the internal sequence table is dropped.
pub proof fn lemma_schema_filter(s: Seq<u8>, start: int, first: bool)
    ensures
        spec_read_page(s, start, first) matches Some(rows) ==> forall|k: int|
            0 <= k < rows.len() ==> !spec_row_filtered(#[trigger] rows[k]),
{
    let base = start + if first {
        100int
    } else {
        0int
    };
    if spec_read_page(s, start, first) is Some {
        let kind = s[base];
        let count = be_int(s, base + 3, 2) as int;
        let arr = base + spec_header_len(kind);
        lemma_page_rows_filtered(s, arr, 0, count);
    }
}

/// The bytes "sqlite_sequence" as a vector.
fn sequence_name() -> (r: Vec<u8>)
    ensures
        r@ == spec_sequence_name(),
{
    let mut v: Vec<u8> = Vec::new();
    v.push(115);
    v.push(113);
    v.push(108);
    v.push(105);
    v.push(116);
    v.push(101);
    v.push(95);
    v.push(115);
    v.push(101);
    v.push(113);
    v.push(117);
    v.push(101);
    v.push(110);
    v.push(99);
    v.push(101);
    assert(v@ =~= spec_sequence_name());
    v
}

/// Whether this row is the sequence row that decoded pages drop.
fn row_is_sequence(row: &Row) -> (r: bool)
    ensures
        r == spec_row_filtered(row.deep_view()),
{
    if row.len() <= 2 {
        return false;
    }
    assert(row.deep_view()[2] == row@[2]@);
    let name = sequence_name();
    match &row[2] {
        Record::STRING(v) => crate::table::bytes_eq(v, &name),
        Record::BLOB(v) => crate::table::bytes_eq(v, &name),
        _ => false,
    }
}

/// The rows of the page at the cursor, in cell-pointer-array order, with the
/// sequence row dropped. Only this page's rows are returned: an interior
/// page is recognised but not descended.
#[verifier::loop_isolation(false)]
#[verifier::rlimit(60)]
pub fn read_page(page: &mut Page, first: bool) -> (r: Result<Table, Error>)
    ensures
        final(page).buffer == old(page).buffer,
        ({
            let res = spec_read_page(old(page).buffer@, old(page).cursor as int, first);
            match r {
                Ok(table) => {
                    &&& res matches Some(rows)
                    &&& table.deep_view() == rows
                },
                Err(e) => {
                    &&& e == Error::MalformedPage
                    &&& res is None
                },
            }
        }),
{
    let ghost s = page.buffer@;
    let len = page.buffer.len();
    if first {
        if len < 105 || page.cursor > len - 105 {
            return Err(Error::MalformedPage);
        }
        page.cursor = page.cursor + 100;
    } else {
        if page.cursor > len || len - page.cursor < 5 {
            return Err(Error::MalformedPage);
        }
    }
    let base_x = page.cursor;
    proof {
        reveal_with_fuel(be_int, 3);
    }
    let kind = page.read_u8();
    if !(kind == 0x02 || kind == 0x05 || kind == 0x0a || kind == 0x0d) {
        return Err(Error::MalformedPage);
    }
    // skip the first-freeblock offset
    page.cursor = page.cursor + 2;
    let cell_count = page.read_u16();
    let is_leaf = kind == 0x0a || kind == 0x0d;
    let header_len: usize = if is_leaf {
        8
    } else {
        12
    };
    let avail = (len - base_x) as u64;
    if avail < (header_len as u64) + 2 * (cell_count as u64) {
        return Err(Error::MalformedPage);
    }
    let arr = base_x + header_len;
    let ghost count = cell_count as int;

    let mut table: Table = Vec::new();
    let mut i: usize = 0;
    proof {
        let full = spec_page_rows(s, arr as int, 0, count);
        if full is Some {
            assert(table.deep_view() + full->Some_0 =~= full->Some_0);
        }
    }
    while i < cell_count as usize
        invariant
            page.buffer == old(page).buffer,
            i <= count,
            ({
                let full = spec_page_rows(s, arr as int, 0, count);
                match spec_page_rows(s, arr as int, i as int, count) {
                    None => full is None,
                    Some(rest) => full == Some(table.deep_view() + rest),
                }
            }),
        decreases count - i,
    {
        page.cursor = arr + 2 * i;
        let cell_location = page.read_u16();
        page.cursor = cell_location as usize;
        let row = match read_cell(page) {
            Ok(row) => row,
            Err(e) => {
                return Err(e);
            },
        };
        let ghost rest_opt = spec_page_rows(s, arr as int, i as int + 1, count);
        if !row_is_sequence(&row) {
            let ghost tdv = table.deep_view();
            let ghost rdv = row.deep_view();
            table.push(row);
            proof {
                assert(table.deep_view() =~= tdv.push(rdv));
                if rest_opt is Some {
                    assert(tdv + (seq![rdv] + rest_opt->Some_0) =~= table.deep_view()
                        + rest_opt->Some_0);
                }
            }
        }
        i = i + 1;
    }
    proof {
        assert(table.deep_view() + Seq::<Seq<RecordModel>>::empty() =~= table.deep_view());
    }
    Ok(table)
}

/// One varint at the cursor: one to nine bytes, each contributing its low
/// seven bits, ending at the first byte whose high bit is clear. A missing
/// terminator is a decode error.
pub fn read_varint(page: &mut Page) -> (r: Result<u64, Error>)
    ensures
        final(page).buffer == old(page).buffer,
        match r {
            Ok(v) => {
                &&& varint_end(old(page).buffer@, old(page).cursor as int) == Some(
                    final(page).cursor as int,
                )
                &&& v as nat == varint_value(old(page).buffer@, old(page).cursor as int)
            },
            Err(e) => {
                &&& e == Error::MalformedPage
                &&& varint_end(old(page).buffer@, old(page).cursor as int) is None
                &&& final(page).cursor == old(page).cursor
            },
        },
{
    let ghost s = page.buffer@;
    let ghost p0 = page.cursor as int;
    let start = page.cursor;
    let mut pos = page.cursor;
    let mut result: u64 = 0;
    let mut steps: usize = 0;
    loop
        invariant
            page.buffer == old(page).buffer,
            page.cursor == old(page).cursor,
            s == page.buffer@,
            p0 == start as int,
            start == old(page).cursor,
            pos == start + steps,
            steps <= 8,
            varint_end_from(s, p0, 8) == varint_end_from(s, pos as int, (8 - steps) as nat),
            result as nat == varint_fold(s, p0, pos as int),
            result < 0x100000000000000,
            forall|k: int| p0 <= k < pos ==> high_bit(#[trigger] s[k]),
        decreases 9 - steps,
    {
        if pos >= page.buffer.len() {
            return Err(Error::MalformedPage);
        }
        let b = page.buffer[pos];
        proof {
            assert(varint_fold(s, p0, pos + 1) == varint_fold(s, p0, pos as int) * 0x80 + (
            low_bits(s[pos as int]) as nat));
        }
        if b < 0x80 {
            result = result * 0x80 + (b as u64);
            pos = pos + 1;
            page.cursor = pos;
            proof {
                crate::varint::lemma_varint_end_shape(s, p0, pos as int);
            }
            return Ok(result);
        }
        if steps == 8 {
            return Err(Error::MalformedPage);
        }
        result = result * 0x80 + ((b % 0x80) as u64);
        pos = pos + 1;
        steps = steps + 1;
        proof {
            crate::varint::lemma_fold_fits_56(s, p0, pos as int);
        }
    }
}

} // verus!
