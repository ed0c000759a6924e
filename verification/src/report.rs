//! The reports this client writes, field for field as the suite's report
//! step reads them, and the block each benchmark prints as it finishes.

use vstd::prelude::*;
use vstd::string::*;

use crate::stats::{mem_string, mem_text, time_string, time_text};
use crate::text::push_char;

verus! {

/// The client the reports name.
pub fn bench_client() -> (r: &'static str)
    ensures
        r@ == "benchcli-rust"@,
{
    "benchcli-rust"
}

/// The Connections benchmark's report.
pub struct ConnectionsReport {
    pub framework: String,
    pub lang: String,
    pub bench_client: String,
    pub tps: i64,
    pub min: i64,
    pub avg: i64,
    pub max: i64,
    pub tp50: i64,
    pub tp75: i64,
    pub tp90: i64,
    pub tp95: i64,
    pub tp99: i64,
    pub used: i64,
    pub total: usize,
    pub success: i64,
    pub failed: i64,
    pub concurrency: usize,
}

/// Where a report file goes.
pub fn filename(base: &str, preffix: &str, suffix: &str) -> (r: String)
    ensures
        r@ == "./output/report/"@ + preffix@ + base@ + suffix@,
{
    let mut out = String::new();
    out.append("./output/report/");
    out.append(preffix);
    out.append(base);
    out.append(suffix);
    out
}

/// How the Summary shows this client.
pub fn client_name() -> (r: String)
    ensures
        r@ == "rust-tokio"@,
{
    String::from_str("rust-tokio")
}

/// A duration column.
pub fn dur(v: i64) -> (r: String)
    ensures
        r@ == time_text(v as int),
{
    time_string(v)
}

/// A memory column.
pub fn mem(v: u64) -> (r: String)
    ensures
        r@ == mem_text(v as int),
{
    mem_string(v)
}

/// The rows shown: all of them under `-tpn`, and otherwise those that are
/// not percentiles.
pub open spec fn shown(rows: Seq<(&str, String, bool)>, enable_tpn: bool) -> Seq<
    (&str, String, bool),
>
    decreases rows.len(),
{
    if rows.len() == 0 {
        rows
    } else {
        let rest = shown(rows.drop_last(), enable_tpn);
        let (_h, _v, tpn) = rows.last();
        if enable_tpn || !tpn {
            rest.push(rows.last())
        } else {
            rest
        }
    }
}

/// The widest header, in bytes as `str::len` counts them, and at least the
/// width of `BenchType`. The headers are padded to it in characters, as
/// `format!` pads; the two counts agree on the ASCII headers a report has.
pub open spec fn header_width(rows: Seq<(&str, String, bool)>) -> int
    decreases rows.len(),
{
    if rows.len() == 0 {
        9
    } else {
        let w = header_width(rows.drop_last());
        let (name, _v, _t) = rows.last();
        let h = name.len() as int;
        if h > w {
            h
        } else {
            w
        }
    }
}

/// `h` padded with spaces to `width` characters.
pub open spec fn padded(h: Seq<char>, width: int) -> Seq<char> {
    if h.len() < width {
        h + Seq::new((width - h.len()) as nat, |i: int| ' ')
    } else {
        h
    }
}

/// One `Header: value` line a row.
pub open spec fn row_lines(rows: Seq<(&str, String, bool)>, width: int) -> Seq<char>
    decreases rows.len(),
{
    if rows.len() == 0 {
        Seq::<char>::empty()
    } else {
        let (name, value, _t) = rows.last();
        let line = padded(name@, width) + ": "@ + value@;
        if rows.len() == 1 {
            line
        } else {
            row_lines(rows.drop_last(), width) + "\n"@ + line
        }
    }
}

/// The block a benchmark prints as it finishes.
pub open spec fn console_text(kind: Seq<char>, rows: Seq<(&str, String, bool)>, enable_tpn: bool) -> Seq<
    char,
> {
    let kept = shown(rows, enable_tpn);
    let width = header_width(kept);
    padded("BenchType"@, width) + ": "@ + kind + "\n"@ + row_lines(kept, width)
}

fn push_padded(out: &mut String, h: &str, width: usize)
    ensures
        final(out)@ == old(out)@ + padded(h@, width as int),
{
    out.append(h);
    let n = h.unicode_len();
    let mut k: usize = n;
    while k < width
        invariant
            n == h@.len(),
            n <= k,
            k == n || k <= width,
            out@ == old(out)@ + h@ + Seq::new((k - n) as nat, |i: int| ' '),
        decreases width - k,
    {
        push_char(out, ' ');
        k = k + 1;
        assert(out@ =~= old(out)@ + h@ + Seq::new((k - n) as nat, |i: int| ' '));
    }
    proof {
        if n >= width {
            assert(Seq::new((k - n) as nat, |i: int| ' ') =~= Seq::<char>::empty());
            assert(out@ =~= old(out)@ + h@);
        } else {
            assert(out@ =~= old(out)@ + padded(h@, width as int));
        }
    }
}

/// The block a benchmark prints: one `Header: value` line for each row shown, headers
/// padded to the widest, after a `BenchType` line.
pub fn console(kind: &str, rows: &[(&str, String, bool)], enable_tpn: bool) -> (r: String)
    ensures
        r@ == console_text(kind@, rows@, enable_tpn),
{
    let mut kept: Vec<(&str, String, bool)> = Vec::new();
    let mut width: usize = 9;
    let mut i: usize = 0;
    while i < rows.len()
        invariant
            i <= rows@.len(),
            kept@ == shown(rows@.subrange(0, i as int), enable_tpn),
            width == header_width(kept@),
        decreases rows@.len() - i,
    {
        proof {
            assert(rows@.subrange(0, i + 1).drop_last() =~= rows@.subrange(0, i as int));
        }
        let (name, value, tpn) = &rows[i];
        if enable_tpn || !*tpn {
            let ghost before = kept@;
            let copy = value.clone();
            kept.push((*name, copy, *tpn));
            proof {
                assert(kept@.drop_last() =~= before);
            }
            let h = name.len();
            if h > width {
                width = h;
            }
        }
        i = i + 1;
    }
    proof {
        assert(rows@.subrange(0, rows@.len() as int) =~= rows@);
    }
    let mut out = String::new();
    push_padded(&mut out, "BenchType", width);
    out.append(": ");
    out.append(kind);
    out.append("\n");
    let ghost head = out@;
    let mut j: usize = 0;
    while j < kept.len()
        invariant
            j <= kept@.len(),
            out@ == head + row_lines(kept@.subrange(0, j as int), width as int),
        decreases kept@.len() - j,
    {
        proof {
            assert(kept@.subrange(0, j + 1).drop_last() =~= kept@.subrange(0, j as int));
        }
        if j > 0 {
            out.append("\n");
        }
        let (name, value, _t) = &kept[j];
        push_padded(&mut out, *name, width);
        out.append(": ");
        out.append(value.as_str());
        j = j + 1;
        proof {
            assert(out@ =~= head + row_lines(kept@.subrange(0, j as int), width as int));
        }
    }
    proof {
        assert(kept@.subrange(0, kept@.len() as int) =~= kept@);
    }
    out
}

} // verus!
