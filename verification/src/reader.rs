use crate::error::Error;
use crate::page::{spec_read_cell, spec_read_page, spec_read_record, Page};
use crate::table::{Record, Row, Table};
use crate::varint::{varint_end, varint_value};
use vstd::prelude::*;

verus! {

/// The varint at `*pointer`, advancing the pointer past its terminator; a
/// missing terminator is a decode error and leaves the pointer alone.
pub fn read_varint(page: &Vec<u8>, pointer: &mut usize) -> (r: Result<u64, Error>)
    ensures
        match r {
            Ok(v) => {
                &&& varint_end(page@, *old(pointer) as int) == Some(*final(pointer) as int)
                &&& v as nat == varint_value(page@, *old(pointer) as int)
            },
            Err(e) => {
                &&& e == Error::MalformedPage
                &&& varint_end(page@, *old(pointer) as int) is None
                &&& *final(pointer) == *old(pointer)
            },
        },
{
    let mut p = Page { buffer: page, cursor: *pointer };
    let r = crate::page::read_varint(&mut p);
    *pointer = p.cursor;
    r
}

/// One value of the given serial type at `*pointer`.
pub fn read_elem(serial_type: u64, page: &Vec<u8>, pointer: &mut usize) -> (r: Result<
    Record,
    Error,
>)
    ensures
        r is Ok ==> *final(pointer) as int == *old(pointer) + crate::page::width_of(serial_type),
        ({
            let res = spec_read_record(page@, *old(pointer) as int, serial_type);
            match r {
                Ok(rec) => {
                    &&& res matches Some(pair)
                    &&& rec@ == pair.0
                    &&& *final(pointer) as int == pair.1
                },
                Err(e) => {
                    &&& e == Error::MalformedPage
                    &&& res is None
                    &&& *final(pointer) == *old(pointer)
                },
            }
        }),
{
    let mut p = Page { buffer: page, cursor: *pointer };
    let r = crate::page::read_record(serial_type, &mut p);
    *pointer = p.cursor;
    r
}

/// One leaf-table cell at `pointer`, decoded as one row.
pub fn read_cell(page: &Vec<u8>, pointer: usize) -> (r: Result<Row, Error>)
    ensures
        ({
            let res = spec_read_cell(page@, pointer as int);
            match r {
                Ok(row) => {
                    &&& res matches Some(pair)
                    &&& row.deep_view() == pair.0
                },
                Err(e) => {
                    &&& e == Error::MalformedPage
                    &&& res is None
                },
            }
        }),
{
    let mut p = Page { buffer: page, cursor: pointer };
    crate::page::read_cell(&mut p)
}

/// The rows of the page held in `page`, whose body starts at offset zero, or
/// after the database header when `first` is set.
pub fn read_page(page: &Vec<u8>, first: bool) -> (r: Result<Table, Error>)
    ensures
        ({
            let res = spec_read_page(page@, 0, first);
            match r {
                Ok(table) => {
                    &&& res matches Some(rows)
                    &&& table.deep_view() == rows
                },
                Err(e) => {
                    &&& e == Error::MalformedPage
                    &&& res is None
                },
            }
        }),
{
    let mut p = Page { buffer: page, cursor: 0 };
    crate::page::read_page(&mut p, first)
}

} // verus!
