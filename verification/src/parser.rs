//! Records and reading them from comma-separated text.

use vstd::prelude::*;

use crate::error::{AppError, BoolError, FloatError, IntError};
use crate::text::{same_text, split_commas, split_fields, trim, trimmed};
use crate::values::{bool_from_text, check_float, float_check, parse_bool, parse_u32, u32_from_text};

verus! {

/// Expected CSV header. The first line of every input file must match it
/// exactly so that a missing header (or a wrong file) fails loudly instead
/// of silently dropping the first data row.
pub const EXPECTED_HEADER: &'static str = "id,name,region,amount,active";

/// A single row of the dataset.
///
/// The amount is a type parameter: the parser yields it as the literal text
/// it read (a valid floating-point literal), sorting takes it as the IEEE 754
/// encoding of the number, and callers that compute with it use the number
/// itself.
#[derive(Debug)]
pub struct Sale<A> {
    pub id: u32,
    pub name: String,
    pub region: String,
    pub amount: A,
    pub active: bool,
}

impl<A> Sale<A> {
    pub fn new(id: u32, name: String, region: String, amount: A, active: bool) -> (s: Sale<A>)
        ensures
            s == (Sale { id, name, region, amount, active }),
    {
        Sale { id, name, region, amount, active }
    }
}

/// The name of the `i`-th field of a record, in the order of the header.
pub open spec fn field_name(i: int) -> Seq<char> {
    if i == 0 {
        "id"@
    } else if i == 1 {
        "name"@
    } else if i == 2 {
        "region"@
    } else if i == 3 {
        "amount"@
    } else {
        "active"@
    }
}

/// What reading `line` as a record gives: the first missing field, an extra
/// field, then the first field (in the order id, amount, active) that does not
/// hold a value of its type; otherwise the record of the trimmed fields.
pub open spec fn line_outcome(line: Seq<char>, r: Result<Sale<String>, AppError>) -> bool {
    let f = split_fields(line);
    if f.len() < 5 {
        r matches Err(AppError::MissingField(n)) && n@ == field_name(f.len() as int)
    } else if f.len() > 5 {
        r matches Err(AppError::UnexpectedField(l)) && l@ == line
    } else {
        let id = u32_from_text(trim(f[0]));
        let amount = trim(f[3]);
        let active = bool_from_text(trim(f[4]));
        if id is Err {
            r == Err::<Sale<String>, AppError>(AppError::InvalidId(IntError { kind: id->Err_0 }))
        } else if float_check(amount) is Err {
            r == Err::<Sale<String>, AppError>(
                AppError::InvalidAmount(FloatError { kind: float_check(amount)->Err_0 }),
            )
        } else if active is None {
            r == Err::<Sale<String>, AppError>(AppError::InvalidActive(BoolError))
        } else {
            &&& r matches Ok(sale)
            &&& sale.id == id->Ok_0
            &&& sale.name@ == trim(f[1])
            &&& sale.region@ == trim(f[2])
            &&& sale.amount@ == amount
            &&& sale.active == active->Some_0
        }
    }
}

fn field_name_text(i: usize) -> (r: String)
    ensures
        r@ == field_name(i as int),
{
    if i == 0 {
        String::from_str("id")
    } else if i == 1 {
        String::from_str("name")
    } else if i == 2 {
        String::from_str("region")
    } else if i == 3 {
        String::from_str("amount")
    } else {
        String::from_str("active")
    }
}

/// Parses a single comma-separated line into a record whose amount is the
/// floating-point literal it holds.
///
/// Fails if a field is missing, an extra field is present, or a field does
/// not hold a value of its type.
pub fn parse_line(line: &str) -> (r: Result<Sale<String>, AppError>)
    ensures
        line_outcome(line@, r),
{
    let fields = split_commas(line);
    let ghost f = split_fields(line@);
    assert(fields@.len() == f.len());
    if fields.len() < 5 {
        return Err(AppError::MissingField(field_name_text(fields.len())));
    }
    if fields.len() > 5 {
        return Err(AppError::UnexpectedField(String::from_str(line)));
    }
    assert(fields@[0]@ == f[0] && fields@[1]@ == f[1] && fields@[2]@ == f[2] && fields@[3]@ == f[3]
        && fields@[4]@ == f[4]);
    let id_text = trimmed(fields[0].as_str());
    let id = match parse_u32(id_text.as_str()) {
        Ok(v) => v,
        Err(e) => {
            return Err(AppError::from(e));
        },
    };
    let name = trimmed(fields[1].as_str());
    let region = trimmed(fields[2].as_str());
    let amount = trimmed(fields[3].as_str());
    match check_float(amount.as_str()) {
        Ok(_) => {},
        Err(e) => {
            return Err(AppError::from(e));
        },
    }
    let active_text = trimmed(fields[4].as_str());
    let active = match parse_bool(active_text.as_str()) {
        Ok(b) => b,
        Err(e) => {
            return Err(AppError::from(e));
        },
    };
    Ok(Sale::new(id, name, region, amount, active))
}

/// What checking the first line of a file gives: a missing line or one that
/// is not exactly the expected header is an invalid header.
pub open spec fn header_outcome(first: Option<Seq<char>>, r: Result<(), AppError>) -> bool {
    match first {
        None => r matches Err(AppError::InvalidHeader(h)) && h@ == "<empty file>"@,
        Some(line) => if line == EXPECTED_HEADER@ {
            r is Ok
        } else {
            r matches Err(AppError::InvalidHeader(h)) && h@ == line
        },
    }
}

/// Checks the first line of a file (`None` for an empty file) against the
/// expected header.
pub fn check_header(first: Option<&str>) -> (r: Result<(), AppError>)
    ensures
        header_outcome(
            match first {
                Some(l) => Some(l@),
                None => None,
            },
            r,
        ),
{
    match first {
        None => Err(AppError::InvalidHeader(String::from_str("<empty file>"))),
        Some(line) => {
            if same_text(line, EXPECTED_HEADER) {
                Ok(())
            } else {
                Err(AppError::InvalidHeader(String::from_str(line)))
            }
        },
    }
}

} // verus!
