use crate::error::Error;
use crate::sql_parser::{
    CreateModel, CreateTableArg, CreateTableStatement, SelectArg, SelectArgModel, SelectModel,
    SelectStatement,
};
use vstd::prelude::*;

verus! {

/// Whitespace, as the grammar knows it: space, newline or tab.
pub open spec fn is_ws(b: u8) -> bool {
    b == 32 || b == 10 || b == 9
}

/// An identifier letter: ASCII alphabetic.
pub open spec fn is_alpha(b: u8) -> bool {
    (65 <= b && b <= 90) || (97 <= b && b <= 122)
}

/// ASCII lower-casing, for the case-insensitive keywords.
pub open spec fn lower(b: u8) -> u8 {
    if 65 <= b && b <= 90 {
        (b + 32) as u8
    } else {
        b
    }
}

/// The position after the run of whitespace starting at `p`.
pub open spec fn spec_skip_ws(s: Seq<u8>, p: int) -> int
    decreases s.len() - p,
{
    if 0 <= p && p < s.len() && is_ws(s[p]) {
        spec_skip_ws(s, p + 1)
    } else {
        p
    }
}

proof fn lemma_skip_ws_bounds(s: Seq<u8>, p: int)
    ensures
        p <= spec_skip_ws(s, p),
        p <= s.len() ==> spec_skip_ws(s, p) <= s.len(),
    decreases s.len() - p,
{
    if 0 <= p && p < s.len() && is_ws(s[p]) {
        lemma_skip_ws_bounds(s, p + 1);
    }
}

/// The position after the run of identifier letters starting at `p`.
pub open spec fn spec_ident_end(s: Seq<u8>, p: int) -> int
    decreases s.len() - p,
{
    if 0 <= p && p < s.len() && is_alpha(s[p]) {
        spec_ident_end(s, p + 1)
    } else {
        p
    }
}

proof fn lemma_ident_end_bounds(s: Seq<u8>, p: int)
    ensures
        p <= spec_ident_end(s, p),
        p <= s.len() ==> spec_ident_end(s, p) <= s.len(),
    decreases s.len() - p,
{
    if 0 <= p && p < s.len() && is_alpha(s[p]) {
        lemma_ident_end_bounds(s, p + 1);
    }
}

/// An identifier at `p`: a maximal, non-empty run of letters, with the
/// position just after it.
pub open spec fn spec_ident(s: Seq<u8>, p: int) -> Option<(Seq<u8>, int)> {
    let e = spec_ident_end(s, p);
    if e > p {
        Some((s.subrange(p, e), e))
    } else {
        None
    }
}

proof fn lemma_ident_bounds(s: Seq<u8>, p: int)
    ensures
        spec_ident(s, p) matches Some(pair) ==> p < pair.1 <= s.len() && 0 <= p,
{
    if spec_ident(s, p) is Some {
        assert(0 <= p && p < s.len() && is_alpha(s[p]));
        lemma_ident_end_bounds(s, p);
    }
}

/// `kw.len()` bytes at `p` equal to `kw`, letter case set aside.
pub open spec fn spec_match_ci(s: Seq<u8>, p: int, kw: Seq<u8>) -> bool
    decreases kw.len(),
{
    kw.len() == 0 || (lower(s[p]) == lower(kw[0]) && spec_match_ci(s, p + 1, kw.drop_first()))
}

/// A case-insensitive keyword at `p`: the next `kw.len()` bytes match it.
pub open spec fn spec_keyword(s: Seq<u8>, p: int, kw: Seq<u8>) -> Option<int> {
    if 0 <= p && p + kw.len() <= s.len() && spec_match_ci(s, p, kw) {
        Some(p + kw.len())
    } else {
        None
    }
}

pub open spec fn spec_kw_select() -> Seq<u8> {
    seq![115u8, 101, 108, 101, 99, 116]
}

pub open spec fn spec_kw_from() -> Seq<u8> {
    seq![102u8, 114, 111, 109]
}

pub open spec fn spec_kw_count() -> Seq<u8> {
    seq![99u8, 111, 117, 110, 116]
}

pub open spec fn spec_kw_create() -> Seq<u8> {
    seq![99u8, 114, 101, 97, 116, 101]
}

pub open spec fn spec_kw_table() -> Seq<u8> {
    seq![116u8, 97, 98, 108, 101]
}

/// An identifier or a star at `p`.
pub open spec fn spec_name_or_star(s: Seq<u8>, p: int) -> Option<(Seq<u8>, int)> {
    match spec_ident(s, p) {
        Some(pair) => Some(pair),
        None => if 0 <= p && p < s.len() && s[p] == 42 {
            Some((seq![42u8], p + 1))
        } else {
            None
        },
    }
}

proof fn lemma_name_or_star_bounds(s: Seq<u8>, p: int)
    ensures
        spec_name_or_star(s, p) matches Some(pair) ==> p < pair.1 <= s.len(),
{
    lemma_ident_bounds(s, p);
}

/// A COUNT projection at `p`: the keyword, optional whitespace, then a
/// parenthesised identifier or star, with nothing between the parentheses
/// and their content.
pub open spec fn spec_count_arg(s: Seq<u8>, p: int) -> Option<(SelectArgModel, int)> {
    match spec_keyword(s, p, spec_kw_count()) {
        None => None,
        Some(p1) => {
            let p2 = spec_skip_ws(s, p1);
            if p2 < s.len() && s[p2] == 40 {
                match spec_name_or_star(s, p2 + 1) {
                    None => None,
                    Some(pair) => if pair.1 < s.len() && s[pair.1] == 41 {
                        Some((SelectArgModel::Count(pair.0), pair.1 + 1))
                    } else {
                        None
                    },
                }
            } else {
                None
            }
        },
    }
}

/// One SELECT projection at `p`: a COUNT where one parses, a bare
/// identifier or star otherwise.
pub open spec fn spec_select_arg(s: Seq<u8>, p: int) -> Option<(SelectArgModel, int)> {
    match spec_count_arg(s, p) {
        Some(pair) => Some(pair),
        None => match spec_name_or_star(s, p) {
            None => None,
            Some(pair) => Some((SelectArgModel::Literal(pair.0), pair.1)),
        },
    }
}

proof fn lemma_select_arg_bounds(s: Seq<u8>, p: int)
    ensures
        spec_select_arg(s, p) matches Some(pair) ==> p < pair.1 <= s.len(),
{
    if spec_count_arg(s, p) is Some {
        let p1 = spec_keyword(s, p, spec_kw_count())->Some_0;
        lemma_skip_ws_bounds(s, p1);
        let p2 = spec_skip_ws(s, p1);
        lemma_name_or_star_bounds(s, p2 + 1);
    } else {
        lemma_name_or_star_bounds(s, p);
    }
}

/// The projections that follow the first one: each preceded by a comma with
/// optional whitespace around it. The scan stops, consuming nothing, where
/// no further `", projection"` parses.
pub open spec fn spec_select_args_rest(s: Seq<u8>, p: int) -> (Seq<SelectArgModel>, int)
    decreases s.len() - p,
    via spec_select_args_rest_decreases
{
    let q = spec_skip_ws(s, p);
    if 0 <= p && q < s.len() && s[q] == 44 {
        let r = spec_skip_ws(s, q + 1);
        match spec_select_arg(s, r) {
            None => (Seq::empty(), p),
            Some(pair) => {
                let rest = spec_select_args_rest(s, pair.1);
                (seq![pair.0] + rest.0, rest.1)
            },
        }
    } else {
        (Seq::empty(), p)
    }
}

#[via_fn]
proof fn spec_select_args_rest_decreases(s: Seq<u8>, p: int) {
    let q = spec_skip_ws(s, p);
    lemma_skip_ws_bounds(s, p);
    if 0 <= p && q < s.len() && s[q] == 44 {
        lemma_skip_ws_bounds(s, q + 1);
        let r = spec_skip_ws(s, q + 1);
        lemma_select_arg_bounds(s, r);
    }
}

/// A whole SELECT: the keyword, whitespace, one or more projections
/// separated by commas, an optional trailing comma, whitespace, FROM,
/// whitespace, the table name, optional whitespace, and a final semicolon
/// ending the input.
pub open spec fn spec_select_statement(s: Seq<u8>) -> Option<SelectModel> {
    match spec_keyword(s, 0, spec_kw_select()) {
        None => None,
        Some(p1) => {
            let p2 = spec_skip_ws(s, p1);
            if p2 == p1 {
                None
            } else {
                match spec_select_arg(s, p2) {
                    None => None,
                    Some(first) => {
                        let rest = spec_select_args_rest(s, first.1);
                        let args = seq![first.0] + rest.0;
                        let p4 = rest.1;
                        let p5 = if p4 < s.len() && s[p4] == 44 {
                            p4 + 1
                        } else {
                            p4
                        };
                        let p6 = spec_skip_ws(s, p5);
                        if p6 == p5 {
                            None
                        } else {
                            match spec_keyword(s, p6, spec_kw_from()) {
                                None => None,
                                Some(p7) => {
                                    let p8 = spec_skip_ws(s, p7);
                                    if p8 == p7 {
                                        None
                                    } else {
                                        match spec_ident(s, p8) {
                                            None => None,
                                            Some(tbl) => {
                                                let p10 = spec_skip_ws(s, tbl.1);
                                                if p10 < s.len() && s[p10] == 59 && p10 + 1
                                                    == s.len() {
                                                    Some(
                                                        SelectModel {
                                                            args,
                                                            table: tbl.0,
                                                        },
                                                    )
                                                } else {
                                                    None
                                                }
                                            },
                                        }
                                    }
                                },
                            }
                        }
                    },
                }
            }
        },
    }
}

/// The trailing type words of a column declaration: identifiers separated by
/// whitespace, ending before whatever follows the last one.
pub open spec fn spec_type_words_rest(s: Seq<u8>, p: int) -> int
    decreases s.len() - p,
    via spec_type_words_rest_decreases
{
    let q = spec_skip_ws(s, p);
    if 0 <= p && q > p {
        match spec_ident(s, q) {
            Some(pair) => spec_type_words_rest(s, pair.1),
            None => p,
        }
    } else {
        p
    }
}

#[via_fn]
proof fn spec_type_words_rest_decreases(s: Seq<u8>, p: int) {
    lemma_skip_ws_bounds(s, p);
    let q = spec_skip_ws(s, p);
    if 0 <= p && q > p {
        lemma_ident_bounds(s, q);
    }
}

proof fn lemma_type_words_rest_bounds(s: Seq<u8>, p: int)
    ensures
        p <= spec_type_words_rest(s, p),
        p <= s.len() ==> spec_type_words_rest(s, p) <= s.len(),
    decreases s.len() - p,
{
    lemma_skip_ws_bounds(s, p);
    let q = spec_skip_ws(s, p);
    if 0 <= p && q > p {
        lemma_ident_bounds(s, q);
        if spec_ident(s, q) is Some {
            let pair = spec_ident(s, q)->Some_0;
            lemma_type_words_rest_bounds(s, pair.1);
        }
    }
}

/// Zero or more type words at `p`.
pub open spec fn spec_type_words(s: Seq<u8>, p: int) -> int {
    match spec_ident(s, p) {
        None => p,
        Some(pair) => spec_type_words_rest(s, pair.1),
    }
}

/// One column declaration: its name, whitespace, then its type words; only
/// the name is kept.
pub open spec fn spec_create_arg(s: Seq<u8>, p: int) -> Option<(Seq<u8>, int)> {
    match spec_ident(s, p) {
        None => None,
        Some(col) => {
            let p2 = spec_skip_ws(s, col.1);
            if p2 == col.1 {
                None
            } else {
                Some((col.0, spec_type_words(s, p2)))
            }
        },
    }
}

proof fn lemma_create_arg_bounds(s: Seq<u8>, p: int)
    ensures
        spec_create_arg(s, p) matches Some(pair) ==> p < pair.1 <= s.len(),
{
    lemma_ident_bounds(s, p);
    if spec_ident(s, p) is Some {
        let col = spec_ident(s, p)->Some_0;
        lemma_skip_ws_bounds(s, col.1);
        let p2 = spec_skip_ws(s, col.1);
        if p2 != col.1 {
            lemma_ident_bounds(s, p2);
            match spec_ident(s, p2) {
                None => {
                },
                Some(pair) => {
                    lemma_type_words_rest_bounds(s, pair.1);
                },
            }
        }
    }
}

/// The column declarations that follow the first one, each preceded by a
/// comma with optional whitespace around it.
pub open spec fn spec_create_args_rest(s: Seq<u8>, p: int) -> (Seq<Seq<u8>>, int)
    decreases s.len() - p,
    via spec_create_args_rest_decreases
{
    let q = spec_skip_ws(s, p);
    if 0 <= p && q < s.len() && s[q] == 44 {
        let r = spec_skip_ws(s, q + 1);
        match spec_create_arg(s, r) {
            None => (Seq::empty(), p),
            Some(pair) => {
                let rest = spec_create_args_rest(s, pair.1);
                (seq![pair.0] + rest.0, rest.1)
            },
        }
    } else {
        (Seq::empty(), p)
    }
}

#[via_fn]
proof fn spec_create_args_rest_decreases(s: Seq<u8>, p: int) {
    let q = spec_skip_ws(s, p);
    lemma_skip_ws_bounds(s, p);
    if 0 <= p && q < s.len() && s[q] == 44 {
        lemma_skip_ws_bounds(s, q + 1);
        let r = spec_skip_ws(s, q + 1);
        lemma_create_arg_bounds(s, r);
    }
}

/// A whole CREATE TABLE: the two keywords, the table name, a parenthesised
/// comma-separated column list, then an optional semicolon ending the input.
pub open spec fn spec_create_table_statement(s: Seq<u8>) -> Option<CreateModel> {
    match spec_keyword(s, 0, spec_kw_create()) {
        None => None,
        Some(p1) => {
            let p2 = spec_skip_ws(s, p1);
            if p2 == p1 {
                None
            } else {
                match spec_keyword(s, p2, spec_kw_table()) {
                    None => None,
                    Some(p3) => {
                        let p4 = spec_skip_ws(s, p3);
                        if p4 == p3 {
                            None
                        } else {
                            match spec_ident(s, p4) {
                                None => None,
                                Some(tbl) => {
                                    let p6 = spec_skip_ws(s, tbl.1);
                                    if p6 == tbl.1 || !(p6 < s.len() && s[p6] == 40) {
                                        None
                                    } else {
                                        let p7 = spec_skip_ws(s, p6 + 1);
                                        match spec_create_arg(s, p7) {
                                            None => None,
                                            Some(first) => {
                                                let rest = spec_create_args_rest(s, first.1);
                                                let cols = seq![first.0] + rest.0;
                                                let p9 = rest.1;
                                                let p10 = if p9 < s.len() && s[p9] == 44 {
                                                    p9 + 1
                                                } else {
                                                    p9
                                                };
                                                let p11 = spec_skip_ws(s, p10);
                                                if p11 < s.len() && s[p11] == 41 {
                                                    let p12 = spec_skip_ws(s, p11 + 1);
                                                    let p13 = if p12 < s.len() && s[p12] == 59 {
                                                        p12 + 1
                                                    } else {
                                                        p12
                                                    };
                                                    if p13 == s.len() {
                                                        Some(
                                                            CreateModel {
                                                                args: cols,
                                                                table: tbl.0,
                                                            },
                                                        )
                                                    } else {
                                                        None
                                                    }
                                                } else {
                                                    None
                                                }
                                            },
                                        }
                                    }
                                },
                            }
                        }
                    },
                }
            }
        },
    }
}

fn lower_byte(b: u8) -> (r: u8)
    ensures
        r == lower(b),
{
    if 65 <= b && b <= 90 {
        b + 32
    } else {
        b
    }
}

/// The bytes `from..to` of `s` as a fresh vector.
fn sub_bytes(s: &Vec<u8>, from: usize, to: usize) -> (r: Vec<u8>)
    requires
        from <= to <= s.len(),
    ensures
        r@ == s@.subrange(from as int, to as int),
{
    let mut out: Vec<u8> = Vec::new();
    let mut i: usize = from;
    while i < to
        invariant
            from <= i <= to <= s@.len(),
            out@ == s@.subrange(from as int, i as int),
        decreases to - i,
    {
        out.push(s[i]);
        i = i + 1;
        assert(out@ =~= s@.subrange(from as int, i as int));
    }
    out
}

fn skip_ws(s: &Vec<u8>, p: usize) -> (r: usize)
    ensures
        r as int == spec_skip_ws(s@, p as int),
    decreases s@.len() - p,
{
    if p < s.len() {
        let b = s[p];
        if b == 32 || b == 10 || b == 9 {
            return skip_ws(s, p + 1);
        }
    }
    p
}

fn ident_end(s: &Vec<u8>, p: usize) -> (r: usize)
    ensures
        r as int == spec_ident_end(s@, p as int),
    decreases s@.len() - p,
{
    if p < s.len() {
        let b = s[p];
        if (65 <= b && b <= 90) || (97 <= b && b <= 122) {
            return ident_end(s, p + 1);
        }
    }
    p
}

fn ident(s: &Vec<u8>, p: usize) -> (r: Option<(Vec<u8>, usize)>)
    ensures
        match r {
            Some(pair) => spec_ident(s@, p as int) == Some((pair.0@, pair.1 as int)),
            None => spec_ident(s@, p as int) is None,
        },
{
    let e = ident_end(s, p);
    if e > p {
        proof {
            lemma_ident_end_bounds(s@, p as int);
        }
        Some((sub_bytes(s, p, e), e))
    } else {
        None
    }
}

fn name_or_star(s: &Vec<u8>, p: usize) -> (r: Option<(Vec<u8>, usize)>)
    ensures
        match r {
            Some(pair) => spec_name_or_star(s@, p as int) == Some((pair.0@, pair.1 as int)),
            None => spec_name_or_star(s@, p as int) is None,
        },
{
    match ident(s, p) {
        Some(pair) => Some(pair),
        None => {
            if p < s.len() && s[p] == 42 {
                let mut v: Vec<u8> = Vec::new();
                v.push(42);
                assert(v@ =~= seq![42u8]);
                Some((v, p + 1))
            } else {
                None
            }
        },
    }
}

#[verifier::loop_isolation(false)]
fn keyword(s: &Vec<u8>, p: usize, kw: &Vec<u8>) -> (r: Option<usize>)
    ensures
        match r {
            Some(q) => spec_keyword(s@, p as int, kw@) == Some(q as int),
            None => spec_keyword(s@, p as int, kw@) is None,
        },
{
    if kw.len() > s.len() || p > s.len() - kw.len() {
        return None;
    }
    let mut i: usize = 0;
    assert(kw@.skip(0) =~= kw@);
    while i < kw.len()
        invariant
            i <= kw@.len(),
            spec_match_ci(s@, p as int, kw@) == spec_match_ci(
                s@,
                p + i,
                kw@.skip(i as int),
            ),
        decreases kw@.len() - i,
    {
        proof {
            assert(kw@.skip(i as int)[0] == kw@[i as int]);
            assert(kw@.skip(i as int).drop_first() =~= kw@.skip(i as int + 1));
        }
        if lower_byte(s[p + i]) != lower_byte(kw[i]) {
            return None;
        }
        i = i + 1;
    }
    assert(kw@.skip(kw@.len() as int) =~= Seq::<u8>::empty());
    Some(p + kw.len())
}

fn kw_select() -> (r: Vec<u8>)
    ensures
        r@ == spec_kw_select(),
{
    let mut v: Vec<u8> = Vec::new();
    v.push(115);
    v.push(101);
    v.push(108);
    v.push(101);
    v.push(99);
    v.push(116);
    assert(v@ =~= spec_kw_select());
    v
}

fn kw_from() -> (r: Vec<u8>)
    ensures
        r@ == spec_kw_from(),
{
    let mut v: Vec<u8> = Vec::new();
    v.push(102);
    v.push(114);
    v.push(111);
    v.push(109);
    assert(v@ =~= spec_kw_from());
    v
}

fn kw_count() -> (r: Vec<u8>)
    ensures
        r@ == spec_kw_count(),
{
    let mut v: Vec<u8> = Vec::new();
    v.push(99);
    v.push(111);
    v.push(117);
    v.push(110);
    v.push(116);
    assert(v@ =~= spec_kw_count());
    v
}

fn kw_create() -> (r: Vec<u8>)
    ensures
        r@ == spec_kw_create(),
{
    let mut v: Vec<u8> = Vec::new();
    v.push(99);
    v.push(114);
    v.push(101);
    v.push(97);
    v.push(116);
    v.push(101);
    assert(v@ =~= spec_kw_create());
    v
}

fn kw_table() -> (r: Vec<u8>)
    ensures
        r@ == spec_kw_table(),
{
    let mut v: Vec<u8> = Vec::new();
    v.push(116);
    v.push(97);
    v.push(98);
    v.push(108);
    v.push(101);
    assert(v@ =~= spec_kw_table());
    v
}

fn count_arg(s: &Vec<u8>, p: usize) -> (r: Option<(SelectArg, usize)>)
    ensures
        match r {
            Some(pair) => spec_count_arg(s@, p as int) == Some((pair.0@, pair.1 as int)),
            None => spec_count_arg(s@, p as int) is None,
        },
{
    let kw = kw_count();
    let p1 = match keyword(s, p, &kw) {
        Some(q) => q,
        None => {
            return None;
        },
    };
    let p2 = skip_ws(s, p1);
    if p2 < s.len() && s[p2] == 40 {
        match name_or_star(s, p2 + 1) {
            Some(pair) => {
                if pair.1 < s.len() && s[pair.1] == 41 {
                    Some((SelectArg::COUNT(pair.0), pair.1 + 1))
                } else {
                    None
                }
            },
            None => None,
        }
    } else {
        None
    }
}

fn select_arg(s: &Vec<u8>, p: usize) -> (r: Option<(SelectArg, usize)>)
    ensures
        match r {
            Some(pair) => spec_select_arg(s@, p as int) == Some((pair.0@, pair.1 as int)),
            None => spec_select_arg(s@, p as int) is None,
        },
{
    match count_arg(s, p) {
        Some(pair) => Some(pair),
        None => match name_or_star(s, p) {
            None => None,
            Some(pair) => Some((SelectArg::LITERAL(pair.0), pair.1)),
        },
    }
}

#[verifier::loop_isolation(false)]
fn select_args_rest(s: &Vec<u8>, p: usize, args: &mut Vec<SelectArg>) -> (r: usize)
    ensures
        final(args).deep_view() == old(args).deep_view() + spec_select_args_rest(
            s@,
            p as int,
        ).0,
        r as int == spec_select_args_rest(s@, p as int).1,
{
    let mut pos = p;
    loop
        invariant
            old(args).deep_view() + spec_select_args_rest(s@, p as int).0 == args.deep_view()
                + spec_select_args_rest(s@, pos as int).0,
            spec_select_args_rest(s@, p as int).1 == spec_select_args_rest(s@, pos as int).1,
            pos <= s@.len() || pos == p,
        decreases s@.len() - pos,
    {
        let q = skip_ws(s, pos);
        if !(q < s.len() && s[q] == 44) {
            assert(args.deep_view() + Seq::<SelectArgModel>::empty() =~= args.deep_view());
            assert(old(args).deep_view() + spec_select_args_rest(s@, p as int).0
                =~= args.deep_view());
            return pos;
        }
        let r2 = skip_ws(s, q + 1);
        match select_arg(s, r2) {
            None => {
                assert(args.deep_view() + Seq::<SelectArgModel>::empty() =~= args.deep_view());
                assert(old(args).deep_view() + spec_select_args_rest(s@, p as int).0
                    =~= args.deep_view());
                return pos;
            },
            Some(pair) => {
                proof {
                    lemma_skip_ws_bounds(s@, pos as int);
                    lemma_skip_ws_bounds(s@, q as int + 1);
                    lemma_select_arg_bounds(s@, r2 as int);
                }
                let ghost pre = args.deep_view();
                let ghost rest_next = spec_select_args_rest(s@, pair.1 as int);
                args.push(pair.0);
                pos = pair.1;
                proof {
                    assert(args.deep_view() =~= pre.push(pair.0@));
                    assert(pre + (seq![pair.0@] + rest_next.0) =~= args.deep_view()
                        + rest_next.0);
                }
            },
        }
    }
}

/// Parses one SELECT statement; the whole input must match the grammar.
pub fn select_statement(input: &Vec<u8>) -> (r: Result<SelectStatement, Error>)
    ensures
        match r {
            Ok(st) => spec_select_statement(input@) == Some(st@),
            Err(e) => {
                &&& e == Error::ParseError
                &&& spec_select_statement(input@) is None
            },
        },
{
    let kw_sel = kw_select();
    let p1 = match keyword(input, 0, &kw_sel) {
        Some(q) => q,
        None => {
            return Err(Error::ParseError);
        },
    };
    let p2 = skip_ws(input, p1);
    if p2 == p1 {
        return Err(Error::ParseError);
    }
    let first = match select_arg(input, p2) {
        Some(pair) => pair,
        None => {
            return Err(Error::ParseError);
        },
    };
    let mut args: Vec<SelectArg> = Vec::new();
    let ghost first_model = first.0@;
    args.push(first.0);
    assert(args.deep_view() =~= seq![first_model]);
    let p4 = select_args_rest(input, first.1, &mut args);
    proof {
        let rest = spec_select_args_rest(input@, first.1 as int);
        assert(seq![first_model] + rest.0 =~= args.deep_view());
    }
    let p5 = if p4 < input.len() && input[p4] == 44 {
        p4 + 1
    } else {
        p4
    };
    let p6 = skip_ws(input, p5);
    if p6 == p5 {
        return Err(Error::ParseError);
    }
    let kw_f = kw_from();
    let p7 = match keyword(input, p6, &kw_f) {
        Some(q) => q,
        None => {
            return Err(Error::ParseError);
        },
    };
    let p8 = skip_ws(input, p7);
    if p8 == p7 {
        return Err(Error::ParseError);
    }
    let tbl = match ident(input, p8) {
        Some(pair) => pair,
        None => {
            return Err(Error::ParseError);
        },
    };
    let p10 = skip_ws(input, tbl.1);
    if p10 < input.len() && input[p10] == 59 && p10 + 1 == input.len() {
        Ok(SelectStatement { args, table: tbl.0 })
    } else {
        Err(Error::ParseError)
    }
}

fn type_words_rest(s: &Vec<u8>, p: usize) -> (r: usize)
    ensures
        r as int == spec_type_words_rest(s@, p as int),
    decreases s@.len() - p,
{
    let q = skip_ws(s, p);
    if q > p {
        match ident(s, q) {
            Some(pair) => {
                proof {
                    lemma_skip_ws_bounds(s@, p as int);
                    lemma_ident_bounds(s@, q as int);
                }
                type_words_rest(s, pair.1)
            },
            None => p,
        }
    } else {
        p
    }
}

fn type_words(s: &Vec<u8>, p: usize) -> (r: usize)
    ensures
        r as int == spec_type_words(s@, p as int),
{
    match ident(s, p) {
        None => p,
        Some(pair) => type_words_rest(s, pair.1),
    }
}

fn create_arg(s: &Vec<u8>, p: usize) -> (r: Option<(CreateTableArg, usize)>)
    ensures
        match r {
            Some(pair) => spec_create_arg(s@, p as int) == Some((pair.0@, pair.1 as int)),
            None => spec_create_arg(s@, p as int) is None,
        },
{
    let col = match ident(s, p) {
        Some(pair) => pair,
        None => {
            return None;
        },
    };
    let p2 = skip_ws(s, col.1);
    if p2 == col.1 {
        return None;
    }
    let e = type_words(s, p2);
    Some((CreateTableArg { column: col.0 }, e))
}

#[verifier::loop_isolation(false)]
fn create_args_rest(s: &Vec<u8>, p: usize, args: &mut Vec<CreateTableArg>) -> (r: usize)
    ensures
        final(args).deep_view() == old(args).deep_view() + spec_create_args_rest(
            s@,
            p as int,
        ).0,
        r as int == spec_create_args_rest(s@, p as int).1,
{
    let mut pos = p;
    loop
        invariant
            old(args).deep_view() + spec_create_args_rest(s@, p as int).0 == args.deep_view()
                + spec_create_args_rest(s@, pos as int).0,
            spec_create_args_rest(s@, p as int).1 == spec_create_args_rest(s@, pos as int).1,
            pos <= s@.len() || pos == p,
        decreases s@.len() - pos,
    {
        let q = skip_ws(s, pos);
        if !(q < s.len() && s[q] == 44) {
            assert(args.deep_view() + Seq::<Seq<u8>>::empty() =~= args.deep_view());
            assert(old(args).deep_view() + spec_create_args_rest(s@, p as int).0
                =~= args.deep_view());
            return pos;
        }
        let r2 = skip_ws(s, q + 1);
        match create_arg(s, r2) {
            None => {
                assert(args.deep_view() + Seq::<Seq<u8>>::empty() =~= args.deep_view());
                assert(old(args).deep_view() + spec_create_args_rest(s@, p as int).0
                    =~= args.deep_view());
                return pos;
            },
            Some(pair) => {
                proof {
                    lemma_skip_ws_bounds(s@, pos as int);
                    lemma_skip_ws_bounds(s@, q as int + 1);
                    lemma_create_arg_bounds(s@, r2 as int);
                }
                let ghost pre = args.deep_view();
                let ghost rest_next = spec_create_args_rest(s@, pair.1 as int);
                args.push(pair.0);
                pos = pair.1;
                proof {
                    assert(args.deep_view() =~= pre.push(pair.0@));
                    assert(pre + (seq![pair.0@] + rest_next.0) =~= args.deep_view()
                        + rest_next.0);
                }
            },
        }
    }
}

/// Parses one CREATE TABLE statement; the whole input must match the
/// grammar.
pub fn create_table_statement(input: &Vec<u8>) -> (r: Result<CreateTableStatement, Error>)
    ensures
        match r {
            Ok(st) => spec_create_table_statement(input@) == Some(st@),
            Err(e) => {
                &&& e == Error::ParseError
                &&& spec_create_table_statement(input@) is None
            },
        },
{
    let kw_cr = kw_create();
    let p1 = match keyword(input, 0, &kw_cr) {
        Some(q) => q,
        None => {
            return Err(Error::ParseError);
        },
    };
    let p2 = skip_ws(input, p1);
    if p2 == p1 {
        return Err(Error::ParseError);
    }
    let kw_t = kw_table();
    let p3 = match keyword(input, p2, &kw_t) {
        Some(q) => q,
        None => {
            return Err(Error::ParseError);
        },
    };
    let p4 = skip_ws(input, p3);
    if p4 == p3 {
        return Err(Error::ParseError);
    }
    let tbl = match ident(input, p4) {
        Some(pair) => pair,
        None => {
            return Err(Error::ParseError);
        },
    };
    let p6 = skip_ws(input, tbl.1);
    if p6 == tbl.1 || !(p6 < input.len() && input[p6] == 40) {
        return Err(Error::ParseError);
    }
    let p7 = skip_ws(input, p6 + 1);
    let first = match create_arg(input, p7) {
        Some(pair) => pair,
        None => {
            return Err(Error::ParseError);
        },
    };
    let mut args: Vec<CreateTableArg> = Vec::new();
    let ghost first_model = first.0@;
    args.push(first.0);
    assert(args.deep_view() =~= seq![first_model]);
    let p9 = create_args_rest(input, first.1, &mut args);
    proof {
        let rest = spec_create_args_rest(input@, first.1 as int);
        assert(seq![first_model] + rest.0 =~= args.deep_view());
    }
    let p10 = if p9 < input.len() && input[p9] == 44 {
        p9 + 1
    } else {
        p9
    };
    let p11 = skip_ws(input, p10);
    if p11 < input.len() && input[p11] == 41 {
        let p12 = skip_ws(input, p11 + 1);
        let p13 = if p12 < input.len() && input[p12] == 59 {
            p12 + 1
        } else {
            p12
        };
        if p13 == input.len() {
            Ok(CreateTableStatement { args, table: tbl.0 })
        } else {
            Err(Error::ParseError)
        }
    } else {
        Err(Error::ParseError)
    }
}

} // verus!
