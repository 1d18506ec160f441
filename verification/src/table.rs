use crate::error::Error;
use vstd::prelude::*;
use vstd::utf8::valid_utf8;

verus! {

/// The mathematical shape of one decoded cell value.
pub ghost enum RecordModel {
    Null,
    Int(i64),
    Float(u64),
    Reserved,
    Blob(Seq<u8>),
    Text(Seq<u8>),
}

/// One decoded cell value. Integral payloads are read as big-endian
/// two's-complement and sign-extended into an `i64`; an eight-byte floating
/// value is carried as its raw big-endian bits, since rendering it is left
/// to the caller.
#[derive(Debug, PartialEq, Eq)]
pub enum Record {
    NULL,
    INT(i64),
    FLOAT(u64),
    RESERVED,
    BLOB(Vec<u8>),
    STRING(Vec<u8>),
}

impl View for Record {
    type V = RecordModel;

    open spec fn view(&self) -> RecordModel {
        match self {
            Record::NULL => RecordModel::Null,
            Record::INT(v) => RecordModel::Int(*v),
            Record::FLOAT(b) => RecordModel::Float(*b),
            Record::RESERVED => RecordModel::Reserved,
            Record::BLOB(v) => RecordModel::Blob(v@),
            Record::STRING(v) => RecordModel::Text(v@),
        }
    }
}

impl DeepView for Record {
    type V = RecordModel;

    open spec fn deep_view(&self) -> RecordModel {
        self.view()
    }
}

/// One decoded row: a rowid followed by one value per serial type.
pub type Row = Vec<Record>;

/// The rows of one decoded page, in cell-pointer-array order.
pub type Table = Vec<Row>;

pub open spec fn spec_to_int(r: RecordModel) -> Option<i64> {
    match r {
        RecordModel::Int(v) => Some(v),
        _ => None,
    }
}

pub open spec fn spec_to_str(r: RecordModel) -> Option<Seq<u8>> {
    match r {
        RecordModel::Blob(b) => Some(b),
        RecordModel::Text(b) => Some(b),
        _ => None,
    }
}

impl Record {
    /// The integral payload, if this value carries one.
    pub fn to_int(&self) -> (r: Option<i64>)
        ensures
            r == spec_to_int(self@),
    {
        match self {
            Record::INT(val) => Some(*val),
            _ => None,
        }
    }

    /// The byte payload of a text or blob value.
    pub fn to_str(&self) -> (r: Option<&Vec<u8>>)
        ensures
            match r {
                Some(v) => spec_to_str(self@) == Some(v@),
                None => spec_to_str(self@) is None,
            },
    {
        match self {
            Record::STRING(val) => Some(val),
            Record::BLOB(val) => Some(val),
            _ => None,
        }
    }

    /// A value equal to this one.
    pub fn duplicate(&self) -> (r: Record)
        ensures
            r@ == self@,
    {
        match self {
            Record::NULL => Record::NULL,
            Record::INT(v) => Record::INT(*v),
            Record::FLOAT(b) => Record::FLOAT(*b),
            Record::RESERVED => Record::RESERVED,
            Record::BLOB(v) => Record::BLOB(copy_bytes(v)),
            Record::STRING(v) => Record::STRING(copy_bytes(v)),
        }
    }
}

/// The decimal digits of `n`, most significant first.
pub open spec fn spec_decimal(n: nat) -> Seq<u8>
    decreases n,
{
    if n < 10 {
        seq![(48 + n) as u8]
    } else {
        spec_decimal(n / 10) + seq![(48 + n % 10) as u8]
    }
}

/// Writes `n` in decimal.
pub fn decimal(n: u64) -> (r: Vec<u8>)
    ensures
        r@ == spec_decimal(n as nat),
    decreases n,
{
    if n < 10 {
        let mut v: Vec<u8> = Vec::new();
        v.push(48 + (n as u8));
        assert(v@ =~= spec_decimal(n as nat));
        v
    } else {
        proof {
            vstd::arithmetic::div_mod::lemma_div_decreases(n as int, 10);
        }
        let mut v = decimal(n / 10);
        v.push(48 + ((n % 10) as u8));
        assert(v@ =~= spec_decimal(n as nat));
        v
    }
}

/// The decimal digits of `v`, with a leading minus sign when it is
/// negative.
pub open spec fn spec_signed_decimal(v: int) -> Seq<u8> {
    if v < 0 {
        seq![45u8] + spec_decimal((-v) as nat)
    } else {
        spec_decimal(v as nat)
    }
}

/// Writes `n` in decimal, with a minus sign when it is negative.
pub fn decimal_signed(n: i64) -> (r: Vec<u8>)
    ensures
        r@ == spec_signed_decimal(n as int),
{
    if n >= 0 {
        decimal(n as u64)
    } else {
        let magnitude: u64 = ((-(n + 1)) as u64) + 1;
        let mut v: Vec<u8> = Vec::new();
        v.push(45);
        let digits = decimal(magnitude);
        extend_bytes(&mut v, &digits);
        assert(v@ =~= spec_signed_decimal(n as int));
        v
    }
}

/// The display form of one value: decimal digits for an integer, the raw
/// bytes for text or blob, nothing at all for null and reserved. A floating
/// value has no display form here; rendering one is left to the caller.
pub open spec fn spec_display(r: RecordModel) -> Option<Seq<u8>> {
    match r {
        RecordModel::Null => Some(Seq::empty()),
        RecordModel::Reserved => Some(Seq::empty()),
        RecordModel::Int(v) => Some(spec_signed_decimal(v as int)),
        RecordModel::Float(_) => None,
        RecordModel::Blob(b) => Some(b),
        RecordModel::Text(b) => Some(b),
    }
}

impl Record {
    /// The display form of this value, absent when the value is a floating
    /// number.
    pub fn display(&self) -> (r: Option<Vec<u8>>)
        ensures
            match r {
                Some(v) => spec_display(self@) == Some(v@),
                None => spec_display(self@) is None,
            },
    {
        match self {
            Record::NULL => Some(Vec::new()),
            Record::RESERVED => Some(Vec::new()),
            Record::INT(v) => Some(decimal_signed(*v)),
            Record::FLOAT(_) => None,
            Record::BLOB(b) => Some(copy_bytes(b)),
            Record::STRING(b) => Some(copy_bytes(b)),
        }
    }
}

/// Appends the bytes of `src` to `dst`.
pub fn extend_bytes(dst: &mut Vec<u8>, src: &Vec<u8>)
    ensures
        final(dst)@ == old(dst)@ + src@,
{
    let mut i: usize = 0;
    while i < src.len()
        invariant
            i <= src@.len(),
            dst@ == old(dst)@ + src@.subrange(0, i as int),
        decreases src@.len() - i,
    {
        dst.push(src[i]);
        i = i + 1;
        assert(dst@ =~= old(dst)@ + src@.subrange(0, i as int));
    }
    assert(dst@ =~= old(dst)@ + src@);
}

/// A fresh vector holding the same bytes.
pub fn copy_bytes(v: &Vec<u8>) -> (r: Vec<u8>)
    ensures
        r@ == v@,
{
    let mut out: Vec<u8> = Vec::new();
    let mut i: usize = 0;
    while i < v.len()
        invariant
            i <= v@.len(),
            out@ == v@.subrange(0, i as int),
        decreases v@.len() - i,
    {
        out.push(v[i]);
        i = i + 1;
        assert(out@ =~= v@.subrange(0, i as int));
    }
    assert(out@ =~= v@);
    out
}

/// Whether two byte vectors hold the same bytes.
pub fn bytes_eq(a: &Vec<u8>, b: &Vec<u8>) -> (r: bool)
    ensures
        r == (a@ == b@),
{
    if a.len() != b.len() {
        assert(a@ != b@);
        return false;
    }
    let mut i: usize = 0;
    while i < a.len()
        invariant
            i <= a@.len(),
            a@.len() == b@.len(),
            forall|k: int| 0 <= k < i ==> a@[k] == b@[k],
        decreases a@.len() - i,
    {
        if a[i] != b[i] {
            return false;
        }
        i = i + 1;
    }
    assert(a@ =~= b@);
    true
}

/// Relies on std's `str::from_utf8`, which returns `Ok` exactly on byte
/// strings that are valid UTF-8 in the sense of `vstd::utf8::valid_utf8`.
#[verifier::external_body]
pub(crate) fn utf8_valid(bytes: &Vec<u8>) -> (r: bool)
    ensures
        r == valid_utf8(bytes@),
{
    std::str::from_utf8(bytes.as_slice()).is_ok()
}

} // verus!
