//! Writing records as comma-separated text.

use vstd::prelude::*;

use crate::error::AppError;
use crate::parser::{header_outcome, line_outcome, Sale, EXPECTED_HEADER};
use crate::text::{
    decimal, has_no_comma, is_whitespace, lacks, lemma_decimal_digits,
    lemma_split_after_separator, lemma_split_join, lemma_split_single, lemma_trim_unchanged,
    push_decimal, split_fields, split_on, trim,
};
use crate::values::{bool_from_text, float_check, lemma_decimal_reads_back, lemma_float_literal_chars};

verus! {

/// How a boolean is written: `true` or `false`.
pub open spec fn bool_text(b: bool) -> Seq<char> {
    if b {
        "true"@
    } else {
        "false"@
    }
}

/// The line (without its end) that a record is written as: its fields in
/// header order, separated by commas, the amount as the text it holds.
pub open spec fn record_line(r: Sale<String>) -> Seq<char> {
    decimal(r.id as nat) + seq![','] + r.name@ + seq![','] + r.region@ + seq![','] + r.amount@
        + seq![','] + bool_text(r.active)
}

/// The text that a list of records is written as: the header line, then one
/// line per record, each line ended by a newline.
pub open spec fn rendered(rs: Seq<Sale<String>>) -> Seq<char>
    decreases rs.len(),
{
    if rs.len() == 0 {
        EXPECTED_HEADER@ + seq!['\n']
    } else {
        rendered(rs.drop_last()) + record_line(rs.last()) + seq!['\n']
    }
}

/// The line a record is written as, without its end.
pub fn render_record(r: &Sale<String>) -> (line: String)
    ensures
        line@ == record_line(*r),
{
    proof {
        reveal_strlit(",");
    }
    let mut out = String::new();
    push_decimal(&mut out, r.id);
    out.append(",");
    out.append(r.name.as_str());
    out.append(",");
    out.append(r.region.as_str());
    out.append(",");
    out.append(r.amount.as_str());
    out.append(",");
    if r.active {
        out.append("true");
    } else {
        out.append("false");
    }
    assert(out@ =~= record_line(*r));
    out
}

/// The whole text a list of records is written as: the header, then every
/// record on a line of its own.
pub fn render_records(records: &[Sale<String>]) -> (text: String)
    ensures
        text@ == rendered(records@),
{
    proof {
        reveal_strlit("\n");
    }
    let mut out = String::from_str(EXPECTED_HEADER);
    out.append("\n");
    let n = records.len();
    let mut i: usize = 0;
    assert(records@.take(0) =~= Seq::<Sale<String>>::empty());
    while i < n
        invariant
            n == records@.len(),
            i <= n,
            out@ == rendered(records@.take(i as int)),
        decreases n - i,
    {
        let ghost before = out@;
        let line = render_record(&records[i]);
        out.append(line.as_str());
        out.append("\n");
        proof {
            reveal_strlit("\n");
            assert(out@ =~= before + line@ + seq!['\n']);
            let t = records@.take(i + 1);
            assert(t.drop_last() =~= records@.take(i as int));
            assert(t.last() == records@[i as int]);
        }
        i = i + 1;
    }
    assert(records@.take(n as int) =~= records@);
    out
}

/// `res` is a record with the same fields as `r`.
pub open spec fn reads_as(res: Result<Sale<String>, AppError>, r: Sale<String>) -> bool {
    &&& res matches Ok(s)
    &&& s.id == r.id
    &&& s.name@ == r.name@
    &&& s.region@ == r.region@
    &&& s.amount@ == r.amount@
    &&& s.active == r.active
}

/// Reading back the line written for a record gives that record, when the
/// record can be written and read back (see `record_is_writable`).
pub proof fn law_written_record_reads_back(r: Sale<String>, read: Result<Sale<String>, AppError>)
    requires
        record_is_writable(r),
        line_outcome(record_line(r), read),
    ensures
        reads_as(read, r),
{
    reveal_strlit("true");
    reveal_strlit("false");
    let d = decimal(r.id as nat);
    let name = r.name@;
    let region = r.region@;
    let amount = r.amount@;
    let b = bool_text(r.active);
    lemma_decimal_digits(r.id as nat);
    lemma_float_literal_chars(amount);
    assert(has_no_comma(d));
    assert(has_no_comma(amount));
    assert(has_no_comma(b));
    lemma_split_single(d, ',');
    lemma_split_single(name, ',');
    lemma_split_single(region, ',');
    lemma_split_single(amount, ',');
    lemma_split_single(b, ',');
    let x1 = d + seq![','] + name;
    let x2 = x1 + seq![','] + region;
    let x3 = x2 + seq![','] + amount;
    lemma_split_join(d, name, ',');
    lemma_split_join(x1, region, ',');
    lemma_split_join(x2, amount, ',');
    lemma_split_join(x3, b, ',');
    assert(record_line(r) =~= x3 + seq![','] + b);
    let f = split_fields(record_line(r));
    assert(f =~= seq![d, name, region, amount, b]);
    lemma_trim_unchanged(d);
    lemma_trim_unchanged(amount);
    lemma_trim_unchanged(b);
    lemma_decimal_reads_back(r.id);
    assert(bool_from_text(b) == Some(r.active));
}

/// The lines of a text as `BufRead::lines` yields them: the pieces between
/// newlines, without the empty piece after a final newline, each without one
/// trailing carriage return.
pub open spec fn text_lines(s: Seq<char>) -> Seq<Seq<char>> {
    let pieces = split_on(s, '\n');
    let kept = if pieces.last().len() == 0 {
        pieces.drop_last()
    } else {
        pieces
    };
    kept.map_values(
        |l: Seq<char>|
            if l.len() > 0 && l.last() == '\r' {
                l.drop_last()
            } else {
                l
            },
    )
}

/// A record that can be written and read back unchanged: name and region
/// hold no comma, no newline and no surrounding whitespace, and the amount is
/// a floating-point literal (as every amount the parser yields is).
pub open spec fn record_is_writable(r: Sale<String>) -> bool {
    &&& has_no_comma(r.name@)
    &&& has_no_comma(r.region@)
    &&& lacks(r.name@, '\n')
    &&& lacks(r.region@, '\n')
    &&& trim(r.name@) == r.name@
    &&& trim(r.region@) == r.region@
    &&& float_check(r.amount@) is Ok
}

proof fn lemma_lacks_concat(a: Seq<char>, b: Seq<char>, c: char)
    requires
        lacks(a, c),
        lacks(b, c),
    ensures
        lacks(a + b, c),
{
    assert forall|i: int| 0 <= i < (a + b).len() implies #[trigger] (a + b)[i] != c by {
        if i < a.len() {
            assert((a + b)[i] == a[i]);
        } else {
            assert((a + b)[i] == b[i - a.len()]);
        }
    }
}

/// The line written for a writable record holds no newline and ends in
/// the last letter of `true` or `false`.
proof fn lemma_record_line_shape(r: Sale<String>)
    requires
        record_is_writable(r),
    ensures
        lacks(record_line(r), '\n'),
        record_line(r).len() > 0,
        record_line(r).last() == 'e',
{
    reveal_strlit("true");
    reveal_strlit("false");
    let d = decimal(r.id as nat);
    let b = bool_text(r.active);
    lemma_decimal_digits(r.id as nat);
    lemma_float_literal_chars(r.amount@);
    let nl = '\n';
    let comma = seq![','];
    assert(lacks(d, nl));
    assert(lacks(comma, nl));
    assert(lacks(r.amount@, nl)) by {
        assert forall|i: int| 0 <= i < r.amount@.len() implies #[trigger] r.amount@[i] != nl by {
            assert(!is_whitespace(r.amount@[i]));
        }
    }
    assert(lacks(b, nl));
    lemma_lacks_concat(d, comma, nl);
    lemma_lacks_concat(d + comma, r.name@, nl);
    lemma_lacks_concat(d + comma + r.name@, comma, nl);
    lemma_lacks_concat(d + comma + r.name@ + comma, r.region@, nl);
    lemma_lacks_concat(d + comma + r.name@ + comma + r.region@, comma, nl);
    lemma_lacks_concat(d + comma + r.name@ + comma + r.region@ + comma, r.amount@, nl);
    lemma_lacks_concat(d + comma + r.name@ + comma + r.region@ + comma + r.amount@, comma, nl);
    lemma_lacks_concat(
        d + comma + r.name@ + comma + r.region@ + comma + r.amount@ + comma,
        b,
        nl,
    );
    let x = d + comma + r.name@ + comma + r.region@ + comma + r.amount@ + comma;
    assert(record_line(r) =~= x + b);
    assert((x + b).last() == b.last());
}

/// The pieces between newlines of a written text: the header, one line per
/// record, and the empty piece after the final newline.
proof fn lemma_rendered_pieces(rs: Seq<Sale<String>>)
    requires
        forall|i: int| 0 <= i < rs.len() ==> record_is_writable(#[trigger] rs[i]),
    ensures
        split_on(rendered(rs), '\n') == seq![EXPECTED_HEADER@] + rs.map_values(
            |r: Sale<String>| record_line(r),
        ) + seq![Seq::<char>::empty()],
        rendered(rs).len() > 0,
        rendered(rs).last() == '\n',
    decreases rs.len(),
{
    let h = EXPECTED_HEADER@;
    let empty = Seq::<char>::empty();
    if rs.len() == 0 {
        reveal_strlit("id,name,region,amount,active");
        assert(lacks(h, '\n'));
        lemma_split_single(h, '\n');
        lemma_split_join(h, empty, '\n');
        assert(h + seq!['\n'] + empty =~= rendered(rs));
        assert(split_on(empty, '\n') =~= seq![empty]);
        assert(rs.map_values(|r: Sale<String>| record_line(r)) =~= Seq::<Seq<char>>::empty());
        assert(split_on(rendered(rs), '\n') =~= seq![h] + rs.map_values(
            |r: Sale<String>| record_line(r),
        ) + seq![empty]);
    } else {
        let rs0 = rs.drop_last();
        let r = rs.last();
        assert forall|i: int| 0 <= i < rs0.len() implies record_is_writable(#[trigger] rs0[i]) by {
            assert(rs0[i] == rs[i]);
        }
        lemma_rendered_pieces(rs0);
        lemma_record_line_shape(r);
        let before = rendered(rs0);
        let line = record_line(r);
        assert(rendered(rs) =~= before + (line + seq!['\n']));
        lemma_split_after_separator(before, line + seq!['\n'], '\n');
        lemma_split_single(line, '\n');
        lemma_split_join(line, empty, '\n');
        assert(line + seq!['\n'] =~= line + seq!['\n'] + empty);
        assert(split_on(empty, '\n') =~= seq![empty]);
        let m0 = rs0.map_values(|r: Sale<String>| record_line(r));
        let m = rs.map_values(|r: Sale<String>| record_line(r));
        assert(m =~= m0.push(line));
        assert((seq![h] + m0 + seq![empty]).drop_last() =~= seq![h] + m0);
        assert(split_on(rendered(rs), '\n') =~= seq![h] + m + seq![empty]);
    }
}

/// Reading a written text back line by line gives what was written: the
/// lines are the header, then one line per record in order; the header line
/// is accepted; and every record line reads back as its record. This holds
/// when every record can be written and read back unchanged.
pub proof fn law_written_text_reads_back(rs: Seq<Sale<String>>)
    requires
        forall|i: int| 0 <= i < rs.len() ==> record_is_writable(#[trigger] rs[i]),
    ensures
        text_lines(rendered(rs)) == seq![EXPECTED_HEADER@] + rs.map_values(
            |r: Sale<String>| record_line(r),
        ),
        forall|res: Result<(), AppError>|
            #[trigger] header_outcome(Some(text_lines(rendered(rs))[0]), res) ==> res is Ok,
        forall|i: int, res: Result<Sale<String>, AppError>|
            0 <= i < rs.len() && #[trigger] line_outcome(text_lines(rendered(rs))[i + 1], res)
                        ==> reads_as(res, rs[i]),
{
    reveal_strlit("id,name,region,amount,active");
    lemma_rendered_pieces(rs);
    let h = EXPECTED_HEADER@;
    let m = rs.map_values(|r: Sale<String>| record_line(r));
    let pieces = split_on(rendered(rs), '\n');
    let kept = seq![h] + m;
    assert(pieces.drop_last() =~= kept);
    assert forall|i: int| 0 <= i < kept.len() implies #[trigger] kept[i].len() > 0 && kept[i].last()
        != '\r' by {
        if i > 0 {
            assert(kept[i] == m[i - 1]);
            lemma_record_line_shape(rs[i - 1]);
        }
    }
    assert(text_lines(rendered(rs)) =~= kept);
    assert forall|i: int, res: Result<Sale<String>, AppError>|
        0 <= i < rs.len() && #[trigger] line_outcome(text_lines(rendered(rs))[i + 1], res) implies reads_as(res, rs[i]) by {
        assert(text_lines(rendered(rs))[i + 1] == record_line(rs[i]));
        law_written_record_reads_back(rs[i], res);
    }
}

} // verus!
