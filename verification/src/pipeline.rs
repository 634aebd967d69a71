use vstd::prelude::*;

use crate::csv_core::{create_csv_data, enc_table, spec_ingest, to_text, CsvError};
use crate::functions::{
    cell_matches, fill_row, opt_string_view, source_value, FunctionSpec,
};
use crate::phone::{format_destination, spec_format_destination};
use crate::strutil::{chars_to_string, find_first, first_index, push_string, seg, to_chars};
use vstd::string::StringExecFns;

verus! {

/// The first line of raw text: everything before the first newline.
pub open spec fn first_line(s: Seq<char>) -> Seq<char> {
    s.subrange(0, find_first(s, '\n'))
}

/// The generated output columns' names, in the specs' order.
pub open spec fn spec_names(fs: Seq<FunctionSpec>) -> Seq<Seq<char>> {
    fs.map_values(|f: FunctionSpec| f.output_name@)
}

/// The input columns the function specs consume as sources.
pub open spec fn spec_sources(fs: Seq<FunctionSpec>) -> Seq<Seq<char>>
    decreases fs.len(),
{
    if fs.len() == 0 {
        Seq::empty()
    } else {
        (match fs[0].source {
            None => Seq::<Seq<char>>::empty(),
            Some(src) => seq![src@],
        }) + spec_sources(fs.skip(1))
    }
}

proof fn lemma_spec_sources_snoc(fs: Seq<FunctionSpec>, f: FunctionSpec)
    ensures
        spec_sources(fs.push(f)) == spec_sources(fs) + (match f.source {
            None => Seq::<Seq<char>>::empty(),
            Some(src) => seq![src@],
        }),
    decreases fs.len(),
{
    let tail = match f.source {
        None => Seq::<Seq<char>>::empty(),
        Some(src) => seq![src@],
    };
    if fs.len() == 0 {
        assert(fs.push(f)[0] == f);
        assert(fs.push(f).skip(1) =~= Seq::<FunctionSpec>::empty());
        assert(spec_sources(Seq::<FunctionSpec>::empty()) =~= Seq::<Seq<char>>::empty());
        assert(spec_sources(fs.push(f)) =~= spec_sources(fs) + tail);
    } else {
        assert(fs.push(f)[0] == fs[0]);
        assert(fs.push(f).skip(1) =~= fs.skip(1).push(f));
        lemma_spec_sources_snoc(fs.skip(1), f);
        let head = match fs[0].source {
            None => Seq::<Seq<char>>::empty(),
            Some(src) => seq![src@],
        };
        assert(head + (spec_sources(fs.skip(1)) + tail) =~= (head + spec_sources(fs.skip(1)))
            + tail);
    }
}

/// The input columns no function spec consumed, in their original order.
pub open spec fn leftover_of(old: Seq<Seq<char>>, names: Seq<Seq<char>>) -> Seq<Seq<char>> {
    old.filter(|h: Seq<char>| !names.contains(h))
}

/// The output header: `destination` first; with function specs, their
/// output names and then the leftover input columns; without, every
/// non-phone input column unchanged.
pub open spec fn spec_out_header(in_headers: Seq<Seq<char>>, fs: Seq<FunctionSpec>) -> Seq<
    Seq<char>,
> {
    let old = in_headers.skip(1);
    if fs.len() == 0 {
        seq!["destination"@] + old
    } else {
        seq!["destination"@] + spec_names(fs) + leftover_of(old, spec_sources(fs))
    }
}

/// A row's values under the leftover columns, in input order.
pub open spec fn leftover_vals(
    old: Seq<Seq<char>>,
    rest: Seq<Seq<char>>,
    names: Seq<Seq<char>>,
) -> Seq<Seq<char>>
    decreases old.len(),
{
    if old.len() == 0 || rest.len() == 0 {
        Seq::empty()
    } else {
        (if !names.contains(old[0]) {
            seq![rest[0]]
        } else {
            Seq::<Seq<char>>::empty()
        }) + leftover_vals(old.skip(1), rest.skip(1), names)
    }
}

proof fn lemma_leftover_snoc(
    old: Seq<Seq<char>>,
    rest: Seq<Seq<char>>,
    names: Seq<Seq<char>>,
    h: Seq<char>,
    v: Seq<char>,
)
    requires
        old.len() == rest.len(),
    ensures
        leftover_vals(old.push(h), rest.push(v), names) == leftover_vals(old, rest, names) + (
        if !names.contains(h) {
            seq![v]
        } else {
            Seq::<Seq<char>>::empty()
        }),
    decreases old.len(),
{
    if old.len() == 0 {
        assert(old.push(h)[0] == h);
        assert(rest.push(v)[0] == v);
        assert(old.push(h).skip(1) =~= Seq::<Seq<char>>::empty());
        assert(rest.push(v).skip(1) =~= Seq::<Seq<char>>::empty());
        assert(leftover_vals(
            Seq::<Seq<char>>::empty(),
            Seq::<Seq<char>>::empty(),
            names,
        ) =~= Seq::<Seq<char>>::empty());
        assert(leftover_vals(old, rest, names) =~= Seq::<Seq<char>>::empty());
        assert(leftover_vals(old.push(h), rest.push(v), names) =~= leftover_vals(old, rest, names)
            + (if !names.contains(h) {
            seq![v]
        } else {
            Seq::<Seq<char>>::empty()
        }));
    } else {
        assert(old.push(h)[0] == old[0]);
        assert(rest.push(v)[0] == rest[0]);
        assert(old.push(h).skip(1) =~= old.skip(1).push(h));
        assert(rest.push(v).skip(1) =~= rest.skip(1).push(v));
        lemma_leftover_snoc(old.skip(1), rest.skip(1), names, h, v);
        let head = if !names.contains(old[0]) {
            seq![rest[0]]
        } else {
            Seq::<Seq<char>>::empty()
        };
        let tailv = if !names.contains(h) {
            seq![v]
        } else {
            Seq::<Seq<char>>::empty()
        };
        assert(head + (leftover_vals(old.skip(1), rest.skip(1), names) + tailv) =~= (head
            + leftover_vals(old.skip(1), rest.skip(1), names)) + tailv);
    }
}

/// What one output row owes its input row: the normalized phone first;
/// with function specs, one generated cell per spec and then the leftover
/// values; without, the rest of the input row unchanged.
pub open spec fn row_matches(
    in_row: Seq<Seq<char>>,
    old_headers: Seq<Seq<char>>,
    fs: Seq<FunctionSpec>,
    code: Seq<char>,
    out_row: Seq<Seq<char>>,
) -> bool {
    let rest = in_row.skip(1);
    if fs.len() == 0 {
        out_row == seq![spec_format_destination(in_row[0], code)] + rest
    } else {
        let left = leftover_vals(old_headers, rest, spec_sources(fs));
        &&& out_row.len() == 1 + fs.len() + left.len()
        &&& out_row[0] == spec_format_destination(in_row[0], code)
        &&& (forall|k: int|
            0 <= k < fs.len() ==> cell_matches(
                fs[k].kind,
                source_value(opt_string_view(fs[k].source), old_headers, rest),
                opt_string_view(fs[k].target),
                #[trigger] out_row[1 + k],
            ))
        &&& out_row.skip(1 + fs.len() as int) == left
    }
}

/// Pushes one finished row, tracking the table model.
fn push_row(v: &mut Vec<Vec<String>>, r: Vec<String>)
    ensures
        final(v).deep_view() == old(v).deep_view().push(r.deep_view()),
        final(v)@.len() == old(v)@.len() + 1,
{
    let ghost pv = v@;
    let ghost pdv = v.deep_view();
    let ghost rdv = r.deep_view();
    v.push(r);
    proof {
        assert forall|k: int| 0 <= k < v@.len() implies v.deep_view()[k] == pdv.push(rdv)[k] by {
            if k < pv.len() {
                assert(v@[k] == pv[k]);
                assert(pdv[k] == pv[k].deep_view());
            } else {
                assert(v@[k].deep_view() == rdv);
            }
        }
        assert(v.deep_view() =~= pdv.push(rdv));
    }
}

/// A copy of a row without its first cell.
fn tail_of(row: &Vec<String>) -> (r: Vec<String>)
    requires
        row@.len() >= 1,
    ensures
        r.deep_view() == row.deep_view().skip(1),
        r@.len() == row@.len() - 1,
{
    let n = row.len();
    let mut out: Vec<String> = Vec::new();
    let mut i: usize = 1;
    while i < n
        invariant
            1 <= i <= n,
            n == row@.len(),
            out@.len() == i - 1,
            out.deep_view() == row.deep_view().subrange(1, i as int),
        decreases n - i,
    {
        push_string(&mut out, &row[i]);
        proof {
            assert(row.deep_view().subrange(1, i + 1) =~= row.deep_view().subrange(
                1,
                i as int,
            ).push(row.deep_view()[i as int]));
            assert(row.deep_view()[i as int] == row@[i as int]@);
        }
        i = i + 1;
    }
    proof {
        assert(row.deep_view().subrange(1, n as int) =~= row.deep_view().skip(1));
    }
    out
}

/// Whether any of the given names equals `h`.
fn names_contain(names: &Vec<String>, h: &String) -> (r: bool)
    ensures
        r == names.deep_view().contains(h@),
{
    let n = names.len();
    let mut i: usize = 0;
    while i < n
        invariant
            i <= n,
            n == names@.len(),
            forall|k: int| 0 <= k < i ==> #[trigger] names.deep_view()[k] != h@,
        decreases n - i,
    {
        proof {
            assert(names.deep_view()[i as int] == names@[i as int]@);
        }
        if names[i] == *h {
            proof {
                assert(names.deep_view()[i as int] == h@);
            }
            return true;
        }
        i = i + 1;
    }
    proof {
        if names.deep_view().contains(h@) {
            let k = choose|k: int|
                0 <= k < names.deep_view().len() && names.deep_view()[k] == h@;
            assert(names.deep_view()[k] != h@);
        }
    }
    false
}

/// Runs the whole transformation on raw delimited text: sniff the
/// delimiter from the first line, ingest and validate the table, put the
/// normalized phone number first in every row, generate the function
/// columns, carry the leftover columns through, and serialize with the
/// fixed `;` delimiter. Fails exactly where ingestion fails, and on empty
/// input, from which no first line can be read.
#[verifier::loop_isolation(false)]
#[verifier::rlimit(30)]
pub fn process_csv(content: &str, country_code: &str, functions: &Vec<FunctionSpec>) -> (r: Result<
    String,
    CsvError,
>)
    ensures
        ({
            let sep = crate::spec_sep_char(crate::spec_separator(first_line(content@)));
            if content@.len() == 0 {
                r == Err::<String, CsvError>(CsvError::SeparatorError)
            } else {
                match spec_ingest(content@, sep) {
                    Err(e) => r == Err::<String, CsvError>(e),
                    Ok(hr) => r matches Ok(out) && (exists|rows_out: Seq<Seq<Seq<char>>>|
                        rows_out.len() == hr.1.len() && (forall|k: int|
                            0 <= k < rows_out.len() ==> row_matches(
                                hr.1[k],
                                hr.0.skip(1),
                                functions@,
                                country_code@,
                                #[trigger] rows_out[k],
                            )) && out@ == enc_table(
                            seq![spec_out_header(hr.0, functions@)] + rows_out,
                            ';',
                        )),
                }
            }
        }),
{
    let chars = to_chars(content);
    if chars.len() == 0 {
        return Err(CsvError::SeparatorError);
    }
    let p = first_index(&chars, '\n');
    let fl_chars = seg(&chars, 0, p);
    let fl = chars_to_string(&fl_chars);
    let sep = crate::get_separator(fl.as_str());
    let ghost sd = crate::spec_sep_char(sep);
    let csv = match create_csv_data(content, sep) {
        Err(e) => {
            return Err(e);
        },
        Ok(c) => c,
    };
    let ghost hdr = csv.placeholders.deep_view();
    let ghost rows = csv.data.deep_view();
    proof {
        assert(spec_ingest(content@, sd) == Ok::<(Seq<Seq<char>>, Seq<Seq<Seq<char>>>), CsvError>(
            (hdr, rows),
        ));
        crate::csv_core::lemma_p_record_len(crate::csv_core::skip_blank_lines(content@), sd);
        assert(hdr.len() >= 1);
        assert(crate::csv_core::rows_ok(rows, hdr.len() as int));
    }
    let ghost old_dv = hdr.skip(1);

    let mut old_headers: Vec<String> = Vec::new();
    let mut i: usize = 1;
    while i < csv.placeholders.len()
        invariant
            1 <= i <= csv.placeholders@.len(),
            old_headers@.len() == i - 1,
            old_headers.deep_view() == hdr.subrange(1, i as int),
        decreases csv.placeholders@.len() - i,
    {
        push_string(&mut old_headers, &csv.placeholders[i]);
        proof {
            assert(hdr.subrange(1, i + 1) =~= hdr.subrange(1, i as int).push(hdr[i as int]));
            assert(hdr[i as int] == csv.placeholders@[i as int]@);
        }
        i = i + 1;
    }
    proof {
        assert(hdr.subrange(1, hdr.len() as int) =~= old_dv);
    }
    let with_functions = functions.len() > 0;

    let mut names: Vec<String> = Vec::new();
    let mut i: usize = 0;
    while i < functions.len()
        invariant
            i <= functions@.len(),
            names@.len() == i,
            names.deep_view() == spec_names(functions@).subrange(0, i as int),
        decreases functions@.len() - i,
    {
        push_string(&mut names, &functions[i].output_name);
        proof {
            let sn = spec_names(functions@);
            assert(sn.subrange(0, i + 1) =~= sn.subrange(0, i as int).push(sn[i as int]));
            assert(sn[i as int] == functions@[i as int].output_name@);
        }
        i = i + 1;
    }
    proof {
        assert(spec_names(functions@).subrange(0, functions@.len() as int) =~= spec_names(
            functions@,
        ));
    }
    let ghost names_dv = names.deep_view();

    let mut sources: Vec<String> = Vec::new();
    let mut i: usize = 0;
    while i < functions.len()
        invariant
            i <= functions@.len(),
            sources.deep_view() == spec_sources(functions@.subrange(0, i as int)),
        decreases functions@.len() - i,
    {
        let ghost pre = functions@.subrange(0, i as int);
        proof {
            assert(functions@.subrange(0, i + 1) =~= pre.push(functions@[i as int]));
            lemma_spec_sources_snoc(pre, functions@[i as int]);
        }
        match functions[i].source.as_ref() {
            Some(srco) => {
                push_string(&mut sources, srco);
            },
            None => {},
        }
        i = i + 1;
    }
    proof {
        assert(functions@.subrange(0, functions@.len() as int) =~= functions@);
    }
    let ghost sources_dv = sources.deep_view();

    let mut keep: Vec<bool> = Vec::new();
    let mut i: usize = 0;
    while i < old_headers.len()
        invariant
            i <= old_headers@.len(),
            keep@.len() == i,
            forall|k: int|
                0 <= k < i ==> keep@[k] == !sources_dv.contains(#[trigger] old_dv[k]),
        decreases old_headers@.len() - i,
    {
        let c = names_contain(&sources, &old_headers[i]);
        keep.push(!c);
        proof {
            assert(old_headers@[i as int]@ == old_dv[i as int]);
        }
        i = i + 1;
    }

    let mut header: Vec<String> = Vec::new();
    let dest = String::from_str("destination");
    push_string(&mut header, &dest);
    proof {
        assert(header.deep_view() =~= seq!["destination"@]);
    }
    if with_functions {
        let mut i: usize = 0;
        while i < names.len()
            invariant
                i <= names@.len(),
                header.deep_view() == seq!["destination"@] + names_dv.subrange(0, i as int),
            decreases names@.len() - i,
        {
            push_string(&mut header, &names[i]);
            proof {
                assert(names_dv.subrange(0, i + 1) =~= names_dv.subrange(0, i as int).push(
                    names_dv[i as int],
                ));
                assert(names@[i as int]@ == names_dv[i as int]);
                assert(header.deep_view() =~= seq!["destination"@] + names_dv.subrange(0, i + 1));
            }
            i = i + 1;
        }
        proof {
            assert(names_dv.subrange(0, names_dv.len() as int) =~= names_dv);
            reveal(Seq::filter);
        }
        let ghost pred = |h: Seq<char>| !sources_dv.contains(h);
        let mut i: usize = 0;
        while i < old_headers.len()
            invariant
                i <= old_headers@.len(),
                header.deep_view() == seq!["destination"@] + names_dv + old_dv.subrange(
                    0,
                    i as int,
                ).filter(pred),
            decreases old_headers@.len() - i,
        {
            proof {
                reveal(Seq::filter);
                let pre = old_dv.subrange(0, i as int);
                assert(old_dv.subrange(0, i + 1) =~= pre.push(old_dv[i as int]));
                assert(pre.push(old_dv[i as int]).drop_last() =~= pre);
            }
            if keep[i] {
                push_string(&mut header, &old_headers[i]);
                proof {
                    assert(old_headers@[i as int]@ == old_dv[i as int]);
                    assert(header.deep_view() =~= seq!["destination"@] + names_dv
                        + old_dv.subrange(0, i + 1).filter(pred));
                }
            } else {
                proof {
                    assert(old_dv.subrange(0, i + 1).filter(pred) =~= old_dv.subrange(
                        0,
                        i as int,
                    ).filter(pred));
                }
            }
            i = i + 1;
        }
        proof {
            assert(old_dv.subrange(0, old_dv.len() as int) =~= old_dv);
            assert(header.deep_view() =~= spec_out_header(hdr, functions@));
        }
    } else {
        let mut i: usize = 0;
        while i < old_headers.len()
            invariant
                i <= old_headers@.len(),
                header.deep_view() == seq!["destination"@] + old_dv.subrange(0, i as int),
            decreases old_headers@.len() - i,
        {
            push_string(&mut header, &old_headers[i]);
            proof {
                assert(old_dv.subrange(0, i + 1) =~= old_dv.subrange(0, i as int).push(
                    old_dv[i as int],
                ));
                assert(old_headers@[i as int]@ == old_dv[i as int]);
                assert(header.deep_view() =~= seq!["destination"@] + old_dv.subrange(0, i + 1));
            }
            i = i + 1;
        }
        proof {
            assert(old_dv.subrange(0, old_dv.len() as int) =~= old_dv);
            assert(header.deep_view() =~= spec_out_header(hdr, functions@));
        }
    }

    let mut body: Vec<Vec<String>> = Vec::new();
    let ghost header_dv = header.deep_view();
    push_row(&mut body, header);
    let mut rix: usize = 0;
    while rix < csv.data.len()
        invariant
            rix <= csv.data@.len(),
            body@.len() == rix + 1,
            body.deep_view()[0] == header_dv,
            header_dv == spec_out_header(hdr, functions@),
            forall|k: int|
                0 <= k < rix ==> row_matches(
                    rows[k],
                    old_dv,
                    functions@,
                    country_code@,
                    #[trigger] body.deep_view()[k + 1],
                ),
        decreases csv.data@.len() - rix,
    {
        let row = &csv.data[rix];
        proof {
            assert(row.deep_view() == rows[rix as int]);
            assert(rows[rix as int].len() == hdr.len());
        }
        let mut new_row: Vec<String> = Vec::new();
        let dst = format_destination(row[0].as_str(), country_code);
        push_string(&mut new_row, &dst);
        let rest = tail_of(row);
        proof {
            assert(row@[0]@ == rows[rix as int][0]);
            assert(rest.deep_view() == rows[rix as int].skip(1));
            assert(new_row.deep_view() =~= seq![
                spec_format_destination(rows[rix as int][0], country_code@),
            ]);
        }
        if with_functions {
            let ghost base = new_row@;
            let ghost predv = new_row.deep_view();
            fill_row(&mut new_row, functions, &rest, &old_headers);
            let ghost base_dv = new_row.deep_view();
            let ghost fl = functions@.len() as int;
            proof {
                assert(base_dv.len() == 1 + fl);
                assert(new_row@[0] == base[0]);
                assert(base_dv[0] == new_row@[0]@);
                assert(predv[0] == base[0]@);
                assert(base_dv[0] == spec_format_destination(rows[rix as int][0], country_code@));
            }
            let mut li: usize = 0;
            while li < old_headers.len()
                invariant
                    li <= old_headers@.len(),
                    new_row.deep_view() == base_dv + leftover_vals(
                        old_dv.subrange(0, li as int),
                        rest.deep_view().subrange(0, li as int),
                        sources_dv,
                    ),
                decreases old_headers@.len() - li,
            {
                proof {
                    let po = old_dv.subrange(0, li as int);
                    let pr = rest.deep_view().subrange(0, li as int);
                    assert(old_dv.subrange(0, li + 1) =~= po.push(old_dv[li as int]));
                    assert(rest.deep_view().subrange(0, li + 1) =~= pr.push(
                        rest.deep_view()[li as int],
                    ));
                    lemma_leftover_snoc(po, pr, sources_dv, old_dv[li as int], rest.deep_view()[
                        li as int],
                    );
                }
                if keep[li] {
                    push_string(&mut new_row, &rest[li]);
                    proof {
                        assert(rest@[li as int]@ == rest.deep_view()[li as int]);
                        assert(new_row.deep_view() =~= base_dv + leftover_vals(
                            old_dv.subrange(0, li + 1),
                            rest.deep_view().subrange(0, li + 1),
                            sources_dv,
                        ));
                    }
                } else {
                    proof {
                        assert(new_row.deep_view() =~= base_dv + leftover_vals(
                            old_dv.subrange(0, li + 1),
                            rest.deep_view().subrange(0, li + 1),
                            sources_dv,
                        ));
                    }
                }
                li = li + 1;
            }
            proof {
                assert(old_dv.subrange(0, old_dv.len() as int) =~= old_dv);
                assert(rest.deep_view().subrange(0, rest.deep_view().len() as int) =~= (
                rest.deep_view()));
                let left = leftover_vals(old_dv, rest.deep_view(), sources_dv);
                assert(new_row.deep_view().skip(1 + fl) =~= left);
                assert(row_matches(
                    rows[rix as int],
                    old_dv,
                    functions@,
                    country_code@,
                    new_row.deep_view(),
                ));
            }
        } else {
            let mut li: usize = 0;
            while li < rest.len()
                invariant
                    li <= rest@.len(),
                    new_row.deep_view() == seq![
                        spec_format_destination(rows[rix as int][0], country_code@),
                    ] + rest.deep_view().subrange(0, li as int),
                decreases rest@.len() - li,
            {
                push_string(&mut new_row, &rest[li]);
                proof {
                    let pr = rest.deep_view().subrange(0, li as int);
                    assert(rest.deep_view().subrange(0, li + 1) =~= pr.push(
                        rest.deep_view()[li as int],
                    ));
                    assert(rest@[li as int]@ == rest.deep_view()[li as int]);
                    assert(new_row.deep_view() =~= seq![
                        spec_format_destination(rows[rix as int][0], country_code@),
                    ] + rest.deep_view().subrange(0, li + 1));
                }
                li = li + 1;
            }
            proof {
                assert(rest.deep_view().subrange(0, rest.deep_view().len() as int) =~= (
                rest.deep_view()));
                assert(row_matches(
                    rows[rix as int],
                    old_dv,
                    functions@,
                    country_code@,
                    new_row.deep_view(),
                ));
            }
        }
        push_row(&mut body, new_row);
        rix = rix + 1;
    }
    let ghost body_dv = body.deep_view();
    match to_text(body) {
        Ok(s) => {
            proof {
                assert(body_dv.skip(1).len() == rows.len());
                assert(seq![spec_out_header(hdr, functions@)] + body_dv.skip(1) =~= body_dv);
                assert forall|k: int| 0 <= k < body_dv.skip(1).len() implies row_matches(
                    rows[k],
                    old_dv,
                    functions@,
                    country_code@,
                    #[trigger] body_dv.skip(1)[k],
                ) by {
                    assert(body_dv.skip(1)[k] == body_dv[k + 1]);
                }
            }
            Ok(s)
        },
        Err(_) => {
            proof {
                assert(false);
            }
            Err(CsvError::RowFormatError)
        },
    }
}

} // verus!
