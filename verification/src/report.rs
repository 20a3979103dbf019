//! Report rendering: serializing the ordered file records into the final
//! plain-text artifact.
//!
//! Each record is a header line `Path: <display path>`, an underline of `=`
//! exactly as long as the display path, the content followed by a newline if
//! it was read (nothing otherwise), a fixed-width separator line of `-`, and
//! a blank line.  The report is the concatenation of the records in order.

use vstd::prelude::*;

verus! {

/// Newline byte.
pub const NL: u8 = 10;

/// The `=` byte of the underline.
pub const EQUALS: u8 = 61;

/// The `-` byte of the separator line.
pub const DASH: u8 = 45;

/// Width of the separator line.
pub const SEPARATOR_LEN: usize = 51;

/// One file's contribution to the report: its display path and its content,
/// absent where the read failed.
#[derive(Debug, PartialEq, Eq)]
pub struct FileRecord {
    pub display_path: Vec<u8>,
    pub content: Option<Vec<u8>>,
}

/// The bytes of `Path: `, the header-line prefix.
pub open spec fn header_prefix() -> Seq<u8> {
    seq![80u8, 97u8, 116u8, 104u8, 58u8, 32u8]
}

/// `n` copies of byte `b`.
pub open spec fn repeat_byte(b: u8, n: nat) -> Seq<u8> {
    Seq::new(n, |i: int| b)
}

/// The rendering of one record with display path `p` and content `c`.
pub open spec fn record_spec(p: Seq<u8>, c: Option<Seq<u8>>) -> Seq<u8> {
    header_prefix() + p + seq![NL] + repeat_byte(EQUALS, p.len()) + seq![NL] + (match c {
        Some(body) => body + seq![NL],
        None => Seq::<u8>::empty(),
    }) + repeat_byte(DASH, SEPARATOR_LEN as nat) + seq![NL] + seq![NL]
}

/// The rendering of one record value.
pub open spec fn record_view(r: FileRecord) -> Seq<u8> {
    record_spec(r.display_path@, r.content.deep_view())
}

/// The rendering of a whole report: the records' renderings concatenated in
/// order.
pub open spec fn report_spec(rs: Seq<FileRecord>) -> Seq<u8>
    decreases rs.len(),
{
    if rs.len() == 0 {
        Seq::<u8>::empty()
    } else {
        report_spec(rs.drop_last()) + record_view(rs.last())
    }
}

/// The rendered report depends only on each record's display path and content
/// bytes, in order: two record lists that agree on those render identically.
/// Together with the fan-in guarantee this makes the report independent of
/// the order in which parallel reads completed.
pub proof fn lemma_report_determined(rs1: Seq<FileRecord>, rs2: Seq<FileRecord>)
    requires
        rs1.len() == rs2.len(),
        forall|k: int|
            0 <= k < rs1.len() ==> (#[trigger] rs1[k]).display_path@ == rs2[k].display_path@
                && rs1[k].content.deep_view() == rs2[k].content.deep_view(),
    ensures
        report_spec(rs1) == report_spec(rs2),
    decreases rs1.len(),
{
    if rs1.len() > 0 {
        assert(forall|k: int|
            0 <= k < rs1.drop_last().len() ==> (#[trigger] rs1.drop_last()[k]) == rs1[k]
                && rs2.drop_last()[k] == rs2[k]);
        lemma_report_determined(rs1.drop_last(), rs2.drop_last());
        assert(record_view(rs1.last()) == record_view(rs2.last()));
    }
}

/// Offset at which a record's body (the file content) starts: past the
/// header line and the underline.
pub open spec fn body_start(p: Seq<u8>) -> int {
    8 + 2 * (p.len() as int)
}

/// The report's record body is the file content unchanged: between its
/// framing lines, a rendered record with content `c` carries exactly the
/// bytes of `c`.
pub proof fn lemma_record_round_trip(p: Seq<u8>, c: Seq<u8>)
    ensures
        record_spec(p, Some(c)).subrange(body_start(p), body_start(p) + c.len()) == c,
{
    assert(record_spec(p, Some(c)).subrange(body_start(p), body_start(p) + c.len()) =~= c);
}

/// Appends one byte.
fn push_byte(out: &mut Vec<u8>, b: u8)
    ensures
        final(out)@ == old(out)@ + seq![b],
{
    out.push(b);
    proof {
        assert(out@ =~= old(out)@ + seq![b]);
    }
}

/// Appends a byte string.
fn append_bytes(out: &mut Vec<u8>, s: &Vec<u8>)
    ensures
        final(out)@ == old(out)@ + s@,
{
    let n = s.len();
    let mut i: usize = 0;
    proof {
        assert(out@ =~= old(out)@ + s@.take(0));
    }
    while i < n
        invariant
            n == s@.len(),
            i <= n,
            out@ == old(out)@ + s@.take(i as int),
        decreases n - i,
    {
        out.push(s[i]);
        proof {
            assert((old(out)@ + s@.take(i as int)).push(s@[i as int]) =~= old(out)@ + s@.take(
                i + 1,
            ));
        }
        i += 1;
    }
    proof {
        assert(s@.take(n as int) =~= s@);
    }
}

/// Appends `n` copies of byte `b`.
fn push_repeat(out: &mut Vec<u8>, b: u8, n: usize)
    ensures
        final(out)@ == old(out)@ + repeat_byte(b, n as nat),
{
    let mut i: usize = 0;
    proof {
        assert(out@ =~= old(out)@ + repeat_byte(b, 0));
    }
    while i < n
        invariant
            i <= n,
            out@ == old(out)@ + repeat_byte(b, i as nat),
        decreases n - i,
    {
        out.push(b);
        proof {
            assert((old(out)@ + repeat_byte(b, i as nat)).push(b) =~= old(out)@ + repeat_byte(
                b,
                (i + 1) as nat,
            ));
        }
        i += 1;
    }
}

/// Renders one record.
pub fn render_record(rec: &FileRecord) -> (out: Vec<u8>)
    ensures
        out@ == record_view(*rec),
{
    let mut out: Vec<u8> = Vec::new();
    push_byte(&mut out, 80);
    push_byte(&mut out, 97);
    push_byte(&mut out, 116);
    push_byte(&mut out, 104);
    push_byte(&mut out, 58);
    push_byte(&mut out, 32);
    proof {
        assert(out@ =~= header_prefix());
    }
    append_bytes(&mut out, &rec.display_path);
    push_byte(&mut out, NL);
    push_repeat(&mut out, EQUALS, rec.display_path.len());
    push_byte(&mut out, NL);
    match &rec.content {
        Some(c) => {
            append_bytes(&mut out, c);
            push_byte(&mut out, NL);
        },
        None => {},
    }
    push_repeat(&mut out, DASH, SEPARATOR_LEN);
    push_byte(&mut out, NL);
    push_byte(&mut out, NL);
    proof {
        assert(out@ =~= record_view(*rec));
    }
    out
}

/// Renders the whole report: the records' renderings concatenated in order.
pub fn render_report(records: &Vec<FileRecord>) -> (out: Vec<u8>)
    ensures
        out@ == report_spec(records@),
{
    let n = records.len();
    let mut out: Vec<u8> = Vec::new();
    let mut i: usize = 0;
    proof {
        assert(records@.take(0) =~= Seq::<FileRecord>::empty());
        assert(out@ =~= report_spec(records@.take(0)));
    }
    while i < n
        invariant
            n == records@.len(),
            i <= n,
            out@ == report_spec(records@.take(i as int)),
        decreases n - i,
    {
        let piece = render_record(&records[i]);
        append_bytes(&mut out, &piece);
        proof {
            assert(records@.take(i + 1).drop_last() =~= records@.take(i as int));
            assert(records@.take(i + 1).last() == records@[i as int]);
        }
        i += 1;
    }
    proof {
        assert(records@.take(n as int) =~= records@);
    }
    out
}

} // verus!
