//! Checking that what the tables hold is sound.

use crate::bytes;
use crate::history;
use crate::history::{ChunkModel, ChunkRow, VersionModel, VersionRow};
use crate::queries;
use crate::reading;
use crate::text;
use vstd::prelude::*;

verus! {

/// An integrity report over the tables.
#[derive(Debug, Clone, PartialEq, Eq)]
pub struct CheckReport {
    /// Number of present version rows examined.
    pub versions_checked: u64,
    /// Number of chunk rows examined.
    pub chunks_checked: u64,
    /// Whether no issue was found.
    pub ok: bool,
    /// A description of every problem found. Empty exactly when `ok`.
    pub issues: Vec<String>,
}

/// A report as a mathematical value.
#[verifier::ext_equal]
pub ghost struct ReportModel {
    /// Number of present version rows examined.
    pub versions_checked: nat,
    /// Number of chunk rows examined.
    pub chunks_checked: nat,
    /// Whether no issue was found.
    pub ok: bool,
    /// A description of every problem found.
    pub issues: Seq<Seq<char>>,
}

impl View for CheckReport {
    type V = ReportModel;

    open spec fn view(&self) -> ReportModel {
        ReportModel {
            versions_checked: self.versions_checked as nat,
            chunks_checked: self.chunks_checked as nat,
            ok: self.ok,
            issues: text::strings(self.issues@),
        }
    }
}

/// The sum, or the largest number where it is above that.
pub open spec fn saturated(a: u64, b: u64) -> u64 {
    if a + b > u64::MAX {
        u64::MAX
    } else {
        (a + b) as u64
    }
}

/// What begins every issue with a version.
pub open spec fn about(id: i64) -> Seq<char> {
    "version "@ + text::integer(id as int) + ": "@
}

/// One issue for each listed chunk that is not there.
pub open spec fn missing_chunks(id: i64, ks: Seq<Seq<u8>>, chunks: Seq<ChunkModel>) -> Seq<Seq<char>>
    decreases ks.len(),
{
    if ks.len() == 0 {
        seq![]
    } else {
        let before = missing_chunks(id, ks.drop_last(), chunks);
        if reading::chunk_at(chunks, ks.last()) is None {
            before.push(about(id) + "missing chunk "@ + bytes::hex_text(ks.last()))
        } else {
            before
        }
    }
}

/// The recorded sizes of the listed chunks that are there, added up.
pub open spec fn summed(ks: Seq<Seq<u8>>, chunks: Seq<ChunkModel>) -> u64
    decreases ks.len(),
{
    if ks.len() == 0 {
        0
    } else {
        match reading::chunk_at(chunks, ks.last()) {
            None => summed(ks.drop_last(), chunks),
            Some(c) => saturated(summed(ks.drop_last(), chunks), history::from_sql(c.size)),
        }
    }
}

/// The issue with a recorded size that is not the sum of the chunks' sizes.
pub open spec fn size_issue(v: VersionModel, sum: u64) -> Seq<Seq<char>> {
    match v.size {
        Some(n) => if history::from_sql(n) != sum {
            seq![
                about(v.id) + "recorded size "@ + text::integer(n as int)
                    + " != sum of chunk sizes "@ + text::decimal(sum as nat),
            ]
        } else {
            seq![]
        },
        None => seq![],
    }
}

/// The issues with a present version: no manifest, a manifest of a wrong length,
/// or chunks that are missing or do not sum to its size.
pub open spec fn version_issues(v: VersionModel, chunks: Seq<ChunkModel>) -> Seq<Seq<char>> {
    match v.manifest {
        None => seq![about(v.id) + "present but has no manifest"@],
        Some(m) => if m.len() % 32 != 0 {
            seq![
                about(v.id) + "manifest length "@ + text::decimal(m.len())
                    + " not a multiple of 32"@,
            ]
        } else {
            missing_chunks(v.id, reading::keys(m), chunks) + size_issue(
                v,
                summed(reading::keys(m), chunks),
            )
        },
    }
}

/// The issues with the versions whose state is 1, in order.
pub open spec fn versions_issues(vs: Seq<VersionModel>, chunks: Seq<ChunkModel>) -> Seq<Seq<char>>
    decreases vs.len(),
{
    if vs.len() == 0 {
        seq![]
    } else if vs.last().state == 1 {
        versions_issues(vs.drop_last(), chunks) + version_issues(vs.last(), chunks)
    } else {
        versions_issues(vs.drop_last(), chunks)
    }
}

/// How many versions have state 1.
pub open spec fn present_count(vs: Seq<VersionModel>) -> nat
    decreases vs.len(),
{
    if vs.len() == 0 {
        0
    } else {
        present_count(vs.drop_last()) + (if vs.last().state == 1 {
            1nat
        } else {
            0nat
        })
    }
}

/// The issues with the chunks, in order.
pub open spec fn chunks_issues(cs: Seq<ChunkModel>) -> Seq<Seq<char>>
    decreases cs.len(),
{
    if cs.len() == 0 {
        seq![]
    } else {
        let c = cs.last();
        match reading::unpacked(c.hash, history::from_sql(c.size), c.zdata) {
            Ok(_) => chunks_issues(cs.drop_last()),
            Err(e) => chunks_issues(cs.drop_last()).push(e.text()),
        }
    }
}

/// The issue with the database file itself, unless its own check says `ok`.
pub open spec fn file_issue(quick: Seq<char>) -> Seq<Seq<char>> {
    if quick == "ok"@ {
        seq![]
    } else {
        seq!["sqlite quick_check: "@ + quick]
    }
}

/// The report on the tables, given what the database's own check says.
pub open spec fn report_of(
    quick: Seq<char>,
    vs: Seq<VersionModel>,
    cs: Seq<ChunkModel>,
) -> ReportModel {
    let issues = file_issue(quick) + versions_issues(vs, cs) + chunks_issues(cs);
    ReportModel {
        versions_checked: present_count(vs),
        chunks_checked: cs.len(),
        ok: issues.len() == 0,
        issues,
    }
}

// ---- checking --------------------------------------------------------------
fn saturating(a: u64, b: u64) -> (s: u64)
    ensures
        s == saturated(a, b),
{
    if a > u64::MAX - b {
        u64::MAX
    } else {
        a + b
    }
}

fn start_issue(id: i64) -> (v: Vec<char>)
    ensures
        v@ == about(id),
{
    let mut v: Vec<char> = Vec::new();
    text::push_text(&mut v, "version ");
    history::push_integer(&mut v, id);
    text::push_text(&mut v, ": ");
    assert(v@ =~= about(id));
    v
}

fn add_issue(issues: &mut Vec<String>, issue: &Vec<char>)
    ensures
        text::strings(final(issues)@) == text::strings(old(issues)@).push(issue@),
{
    let s = text::string_of(issue.as_slice());
    issues.push(s);
    assert(text::strings(issues@) =~= text::strings(old(issues)@).push(issue@));
}

fn check_chunks_of(
    id: i64,
    manifest: &[u8],
    chunks: &Vec<ChunkRow>,
    issues: &mut Vec<String>,
) -> (sum: u64)
    requires
        manifest@.len() % 32 == 0,
    ensures
        sum == summed(reading::keys(manifest@), reading::chunk_models(chunks@)),
        text::strings(final(issues)@) == text::strings(old(issues)@) + missing_chunks(
            id,
            reading::keys(manifest@),
            reading::chunk_models(chunks@),
        ),
{
    let ghost ks = reading::keys(manifest@);
    let ghost cs = reading::chunk_models(chunks@);
    let ghost start = text::strings(issues@);
    let total: usize = manifest.len();
    let n: usize = total / 32;
    let mut sum: u64 = 0;
    let mut i: usize = 0;
    assert(ks.take(0) =~= Seq::<Seq<u8>>::empty());
    assert(start =~= start + missing_chunks(id, ks.take(0), cs));
    while i < n
        invariant
            i <= n,
            n == total / 32,
            total == manifest@.len(),
            ks == reading::keys(manifest@),
            cs == reading::chunk_models(chunks@),
            sum == summed(ks.take(i as int), cs),
            text::strings(issues@) == start + missing_chunks(id, ks.take(i as int), cs),
        decreases n - i,
    {
        let hash = bytes::copy_bytes(manifest, 32 * i, 32 * i + 32);
        proof {
            assert(hash@ == ks[i as int]);
            assert(ks.take(i + 1).drop_last() =~= ks.take(i as int));
            assert(ks.take(i + 1).last() == hash@);
        }
        match reading::position_of_chunk(chunks, hash.as_slice()) {
            None => {
                let mut v = start_issue(id);
                text::push_text(&mut v, "missing chunk ");
                let key = bytes::hex_of(hash.as_slice());
                text::push_text(&mut v, key.as_str());
                add_issue(issues, &v);
                assert(text::strings(issues@) =~= start + missing_chunks(id, ks.take(i + 1), cs));
            },
            Some(k) => {
                assert(cs[k as int] == chunks@[k as int]@);
                sum = saturating(sum, history::from_sql_int(chunks[k].size));
            },
        }
        i = i + 1;
    }
    assert(ks.take(n as int) =~= ks);
    sum
}

fn check_version(row: &VersionRow, chunks: &Vec<ChunkRow>, issues: &mut Vec<String>)
    ensures
        text::strings(final(issues)@) == text::strings(old(issues)@) + version_issues(
            row@,
            reading::chunk_models(chunks@),
        ),
{
    let ghost start = text::strings(issues@);
    let manifest = match &row.manifest {
        Some(m) => m,
        None => {
            let mut v = start_issue(row.id);
            text::push_text(&mut v, "present but has no manifest");
            add_issue(issues, &v);
            assert(text::strings(issues@) =~= start + version_issues(
                row@,
                reading::chunk_models(chunks@),
            ));
            return ;
        },
    };
    if manifest.len() % 32 != 0 {
        let mut v = start_issue(row.id);
        text::push_text(&mut v, "manifest length ");
        history::push_number(&mut v, manifest.len() as u64);
        text::push_text(&mut v, " not a multiple of 32");
        add_issue(issues, &v);
        assert(text::strings(issues@) =~= start + version_issues(
            row@,
            reading::chunk_models(chunks@),
        ));
        return ;
    }
    let sum: u64 = check_chunks_of(row.id, manifest.as_slice(), chunks, issues);
    match row.size {
        Some(n) => {
            if history::from_sql_int(n) != sum {
                let mut v = start_issue(row.id);
                text::push_text(&mut v, "recorded size ");
                history::push_integer(&mut v, n);
                text::push_text(&mut v, " != sum of chunk sizes ");
                history::push_number(&mut v, sum);
                add_issue(issues, &v);
            }
        },
        None => {},
    }
    assert(text::strings(issues@) =~= start + version_issues(row@, reading::chunk_models(chunks@)));
}

/// Examine the tables. `quick` is what the database says of its own file.
///
/// Problems are collected rather than ending the examination, so one bad chunk
/// does not hide others.
pub fn check(quick: &str, versions: &Vec<VersionRow>, chunks: &Vec<ChunkRow>) -> (r: CheckReport)
    ensures
        r@ == report_of(
            quick@,
            queries::version_models(versions@),
            reading::chunk_models(chunks@),
        ),
{
    let ghost vs = queries::version_models(versions@);
    let ghost cs = reading::chunk_models(chunks@);
    let mut issues: Vec<String> = Vec::new();
    assert(text::strings(issues@) =~= Seq::<Seq<char>>::empty());
    if !text::same_text(quick, "ok") {
        let mut v: Vec<char> = Vec::new();
        text::push_text(&mut v, "sqlite quick_check: ");
        text::push_text(&mut v, quick);
        assert(v@ =~= "sqlite quick_check: "@ + quick@);
        add_issue(&mut issues, &v);
    }
    let ghost start = text::strings(issues@);
    assert(start =~= file_issue(quick@));
    let mut versions_checked: u64 = 0;
    let mut i: usize = 0;
    assert(vs.take(0) =~= Seq::<VersionModel>::empty());
    assert(start =~= start + versions_issues(vs.take(0), cs));
    while i < versions.len()
        invariant
            i <= versions@.len(),
            versions_checked <= i,
            vs == queries::version_models(versions@),
            cs == reading::chunk_models(chunks@),
            versions_checked == present_count(vs.take(i as int)),
            text::strings(issues@) == start + versions_issues(vs.take(i as int), cs),
        decreases versions@.len() - i,
    {
        let ghost before = text::strings(issues@);
        proof {
            assert(vs.take(i + 1).drop_last() =~= vs.take(i as int));
            assert(vs.take(i + 1).last() == versions@[i as int]@);
        }
        if versions[i].state == 1 {
            versions_checked = versions_checked + 1;
            check_version(&versions[i], chunks, &mut issues);
            assert(before + version_issues(versions@[i as int]@, cs) =~= start + versions_issues(
                vs.take(i + 1),
                cs,
            ));
        }
        i = i + 1;
    }
    assert(vs.take(i as int) =~= vs);
    let ghost middle = text::strings(issues@);
    let mut chunks_checked: u64 = 0;
    let mut k: usize = 0;
    assert(cs.take(0) =~= Seq::<ChunkModel>::empty());
    assert(middle =~= middle + chunks_issues(cs.take(0)));
    while k < chunks.len()
        invariant
            k <= chunks@.len(),
            chunks_checked == k,
            cs == reading::chunk_models(chunks@),
            text::strings(issues@) == middle + chunks_issues(cs.take(k as int)),
        decreases chunks@.len() - k,
    {
        let ghost before = text::strings(issues@);
        proof {
            assert(cs.take(k + 1).drop_last() =~= cs.take(k as int));
            assert(cs.take(k + 1).last() == chunks@[k as int]@);
        }
        chunks_checked = chunks_checked + 1;
        let row = &chunks[k];
        match reading::decompress_and_verify(
            row.hash.as_slice(),
            history::from_sql_int(row.size),
            row.zdata.as_slice(),
        ) {
            Ok(_) => {},
            Err(e) => {
                let s = e.message();
                issues.push(s);
                assert(text::strings(issues@) =~= before.push(e@.text()));
                assert(text::strings(issues@) =~= middle + chunks_issues(cs.take(k + 1)));
            },
        }
        k = k + 1;
    }
    assert(cs.take(k as int) =~= cs);
    let ok = issues.len() == 0;
    CheckReport { versions_checked, chunks_checked, ok, issues }
}

} // verus!
