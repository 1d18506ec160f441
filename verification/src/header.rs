use crate::error::Error;
use crate::page::{be_int, spec_read_page, Page};
use crate::table::Table;
use vstd::prelude::*;

verus! {

/// The size of the database header at the start of the file.
pub const SIZE: usize = 100;

/// The fields of the database header that the engine reads.
#[derive(Debug, Clone, Copy, PartialEq, Eq, Structural)]
pub struct DbHeader {
    pub page_size: u16,
    pub encoding: Encoding,
}

/// The text encoding the header declares. Any value other than the three
/// known codes counts as UTF-8.
#[derive(Debug, Clone, Copy, PartialEq, Eq, Structural)]
pub enum Encoding {
    UTF8,
    UTF16LE,
    UTF16BE,
}

/// The page size: the big-endian sixteen-bit field at offset sixteen.
pub open spec fn spec_page_size(s: Seq<u8>) -> u16 {
    be_int(s, 16, 2) as u16
}

/// The text encoding: the big-endian thirty-two-bit field at offset
/// fifty-six; two means UTF-16 little-endian, three UTF-16 big-endian, and
/// anything else UTF-8.
pub open spec fn spec_encoding(s: Seq<u8>) -> Encoding {
    let v = be_int(s, 56, 4);
    if v == 2 {
        Encoding::UTF16LE
    } else if v == 3 {
        Encoding::UTF16BE
    } else {
        Encoding::UTF8
    }
}

impl DbHeader {
    /// Decodes the database header fields from its hundred bytes.
    pub fn build(header: &[u8; SIZE]) -> (r: DbHeader)
        ensures
            r.page_size == spec_page_size(header@),
            r.encoding == spec_encoding(header@),
    {
        proof {
            reveal_with_fuel(be_int, 6);
        }
        let page_size = (header[16] as u16) * 0x100 + (header[17] as u16);
        let v = (header[56] as u32) * 0x1000000 + (header[57] as u32) * 0x10000 + (header[58]
            as u32) * 0x100 + (header[59] as u32);
        let encoding = if v == 2 {
            Encoding::UTF16LE
        } else if v == 3 {
            Encoding::UTF16BE
        } else {
            Encoding::UTF8
        };
        DbHeader { page_size, encoding }
    }
}

/// Reads the first page of the file as the schema table: the header fields,
/// then the page decoded with its body displaced by the database header.
pub fn read_schema(page: &Vec<u8>) -> (r: Result<(Table, DbHeader), Error>)
    ensures
        match r {
            Ok(pair) => {
                &&& page@.len() >= 100
                &&& pair.1.page_size == spec_page_size(page@)
                &&& pair.1.encoding == spec_encoding(page@)
                &&& spec_read_page(page@, 0, true) matches Some(rows) && pair.0.deep_view()
                    == rows
            },
            Err(e) => {
                &&& e == Error::MalformedPage
                &&& page@.len() < 100 || spec_read_page(page@, 0, true) is None
            },
        },
{
    if page.len() < SIZE {
        return Err(Error::MalformedPage);
    }
    proof {
        reveal_with_fuel(be_int, 6);
    }
    let mut p = Page { buffer: page, cursor: 16 };
    let page_size = p.read_u16();
    p.cursor = 56;
    let v = p.read_u32();
    let encoding = if v == 2 {
        Encoding::UTF16LE
    } else if v == 3 {
        Encoding::UTF16BE
    } else {
        Encoding::UTF8
    };
    let db_header = DbHeader { page_size, encoding };
    p.cursor = 0;
    match crate::page::read_page(&mut p, true) {
        Ok(table) => Ok((table, db_header)),
        Err(e) => Err(e),
    }
}

} // verus!
