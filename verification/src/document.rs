//! Document assembly, and the single-flight permit for generation.
//!
//! A document is a fixed banner block around the source label, followed by
//! one block per selected file: a path marker, a name marker, then the file's
//! text, or a bracketed note when the file could not be read. The document is
//! a function of the label and the per-file outcomes alone; everything here
//! works on plain bytes and strings, and writing the result out is the
//! caller's concern.

use vstd::prelude::*;

use vstd::string::StrSliceExecFns;
use vstd::string::StringExecFns;
use vstd::string::StringSliceAdditionalSpecFns;
use vstd::utf8::encode_utf8;

use crate::text::spec_base_name;
use crate::text::spec_parent_dir;
use crate::text::base_name;
use crate::text::parent_dir;

verus! {

/// One selected file as it enters the document: its path, and either its
/// normalized content bytes or the reason it could not be read.
pub struct DocEntry {
    pub path: String,
    pub content: Result<Vec<u8>, String>,
}

/// Mathematical shape of a `DocEntry`.
pub ghost struct DocEntryModel {
    pub path: Seq<char>,
    pub content: Result<Seq<u8>, Seq<char>>,
}

pub open spec fn doc_entry_model(e: DocEntry) -> DocEntryModel {
    DocEntryModel {
        path: e.path@,
        content: match e.content {
            Ok(c) => Ok(c@),
            Err(m) => Err(m@),
        },
    }
}

pub open spec fn doc_entries_model(s: Seq<DocEntry>) -> Seq<DocEntryModel> {
    s.map_values(|e: DocEntry| doc_entry_model(e))
}

/// The banner line of a document header.
pub open spec fn spec_banner() -> Seq<u8> {
    encode_utf8("========================================"@)
}

pub open spec fn nl() -> Seq<u8> {
    encode_utf8("\n"@)
}

/// The document header: a banner line, the source label, a banner line, and
/// a blank line.
pub open spec fn spec_header(label: Seq<char>) -> Seq<u8> {
    spec_banner() + nl() + encode_utf8(label) + nl() + spec_banner() + nl() + nl()
}

/// The block one selected file contributes: its path and base name between
/// markers, then its text and a blank line, or a bracketed note when the
/// file could not be read.
pub open spec fn spec_entry(e: DocEntryModel) -> Seq<u8> {
    encode_utf8("=== PATH: "@) + encode_utf8(e.path) + encode_utf8(" ===\n"@) + encode_utf8(
        "=== NAME: "@,
    ) + encode_utf8(spec_base_name(e.path)) + encode_utf8(" ===\n"@) + match e.content {
        Ok(c) => c + nl() + nl(),
        Err(m) => encode_utf8("[Error: unable to read file - "@) + encode_utf8(m) + encode_utf8(
            "]\n"@,
        ) + nl(),
    }
}

pub open spec fn spec_entries(es: Seq<DocEntryModel>) -> Seq<u8>
    decreases es.len(),
{
    if es.len() == 0 {
        Seq::empty()
    } else {
        spec_entries(es.drop_last()) + spec_entry(es.last())
    }
}

/// The whole document for a label and a sequence of per-file outcomes.
pub open spec fn spec_document(label: Seq<char>, es: Seq<DocEntryModel>) -> Seq<u8> {
    spec_header(label) + spec_entries(es)
}

fn push_str_bytes(out: &mut Vec<u8>, s: &str)
    ensures
        final(out)@ == old(out)@ + encode_utf8(s@),
{
    let mut b = s.as_bytes_vec();
    out.append(&mut b);
}

fn push_bytes(out: &mut Vec<u8>, src: &Vec<u8>)
    ensures
        final(out)@ == old(out)@ + src@,
{
    let mut i: usize = 0;
    while i < src.len()
        invariant
            i <= src.len(),
            out@ == old(out)@ + src@.take(i as int),
        decreases src.len() - i,
    {
        out.push(src[i]);
        proof {
            assert(old(out)@ + src@.take(i + 1) =~= (old(out)@ + src@.take(i as int)).push(
                src@[i as int],
            ));
        }
        i = i + 1;
    }
    proof {
        assert(src@.take(src@.len() as int) =~= src@);
    }
}

/// The header block for a source label.
pub fn render_header(label: &str) -> (r: Vec<u8>)
    ensures
        r@ == spec_header(label@),
{
    let mut out: Vec<u8> = Vec::new();
    push_str_bytes(&mut out, "========================================");
    push_str_bytes(&mut out, "\n");
    push_str_bytes(&mut out, label);
    push_str_bytes(&mut out, "\n");
    push_str_bytes(&mut out, "========================================");
    push_str_bytes(&mut out, "\n");
    push_str_bytes(&mut out, "\n");
    proof {
        assert(out@ =~= spec_header(label@));
    }
    out
}

/// The block one selected file contributes to the document.
pub fn render_entry(e: &DocEntry) -> (r: Vec<u8>)
    ensures
        r@ == spec_entry(doc_entry_model(*e)),
{
    let mut out: Vec<u8> = Vec::new();
    push_str_bytes(&mut out, "=== PATH: ");
    push_str_bytes(&mut out, e.path.as_str());
    push_str_bytes(&mut out, " ===\n");
    push_str_bytes(&mut out, "=== NAME: ");
    let name = base_name(e.path.as_str());
    push_str_bytes(&mut out, name.as_str());
    push_str_bytes(&mut out, " ===\n");
    match &e.content {
        Ok(c) => {
            push_bytes(&mut out, c);
            push_str_bytes(&mut out, "\n");
            push_str_bytes(&mut out, "\n");
        },
        Err(m) => {
            push_str_bytes(&mut out, "[Error: unable to read file - ");
            push_str_bytes(&mut out, m.as_str());
            push_str_bytes(&mut out, "]\n");
            push_str_bytes(&mut out, "\n");
        },
    }
    proof {
        assert(out@ =~= spec_entry(doc_entry_model(*e)));
    }
    out
}

/// The whole document for a source label and the selected files' outcomes,
/// in their given order. The result depends on the label and the outcomes
/// alone.
pub fn render_document(label: &str, entries: &Vec<DocEntry>) -> (r: Vec<u8>)
    ensures
        r@ == spec_document(label@, doc_entries_model(entries@)),
{
    let mut out = render_header(label);
    let mut i: usize = 0;
    while i < entries.len()
        invariant
            i <= entries.len(),
            out@ == spec_header(label@) + spec_entries(doc_entries_model(entries@.take(i as int))),
        decreases entries.len() - i,
    {
        let ghost prev = doc_entries_model(entries@.take(i as int));
        let b = render_entry(&entries[i]);
        push_bytes(&mut out, &b);
        proof {
            assert(doc_entries_model(entries@.take(i + 1)) =~= prev.push(
                doc_entry_model(entries@[i as int]),
            ));
            assert(prev.push(doc_entry_model(entries@[i as int])).drop_last() =~= prev);
            assert(out@ =~= spec_header(label@) + spec_entries(
                doc_entries_model(entries@.take(i + 1)),
            ));
        }
        i = i + 1;
    }
    proof {
        assert(entries@.take(entries@.len() as int) =~= entries@);
    }
    out
}

/// The message reported after a successful run, naming the output file and
/// its directory.
pub open spec fn spec_success_message(output_path: Seq<char>) -> Seq<char> {
    "File generated successfully!\n\n\u{1f4c4} "@ + spec_base_name(output_path)
        + "\n\u{1f4c1} "@ + spec_parent_dir(output_path)
}

/// Builds the success message for a finished run over `output_path`.
pub fn success_message(output_path: &str) -> (r: String)
    ensures
        r@ == spec_success_message(output_path@),
{
    let mut r = String::from_str("File generated successfully!\n\n\u{1f4c4} ");
    let name = base_name(output_path);
    r.append(name.as_str());
    r.append("\n\u{1f4c1} ");
    let dir = parent_dir(output_path);
    r.append(dir.as_str());
    proof {
        assert(r@ =~= spec_success_message(output_path@));
    }
    r
}

/// The single-instance permit for generation runs: at most one holder at a
/// time, acquired before a run touches the filesystem and released on every
/// exit path.
pub struct RunGate {
    busy: bool,
}

impl RunGate {
    /// Whether a run currently holds the permit.
    pub closed spec fn in_progress(&self) -> bool {
        self.busy
    }

    /// A fresh gate; no run is in progress.
    pub fn new() -> (g: RunGate)
        ensures
            !g.in_progress(),
    {
        RunGate { busy: false }
    }

    /// Takes the permit when it is free. The attempt succeeds exactly when
    /// no run was in progress, and afterwards one is.
    pub fn try_acquire(&mut self) -> (r: bool)
        ensures
            r == !old(self).in_progress(),
            final(self).in_progress(),
    {
        if self.busy {
            false
        } else {
            self.busy = true;
            true
        }
    }

    /// Returns the permit; afterwards no run is in progress, on success and
    /// on failure alike.
    pub fn release(&mut self)
        ensures
            !final(self).in_progress(),
    {
        self.busy = false;
    }
}

/// Generation is deterministic in its inputs: any two documents rendered
/// from the same label and the same per-file outcomes are byte-identical,
/// whatever output paths they are destined for.
pub proof fn lemma_document_deterministic(
    label: Seq<char>,
    es: Seq<DocEntryModel>,
    d1: Seq<u8>,
    d2: Seq<u8>,
)
    requires
        d1 == spec_document(label, es),
        d2 == spec_document(label, es),
    ensures
        d1 == d2,
{
}

proof fn lemma_entries_concat(a: Seq<DocEntryModel>, b: Seq<DocEntryModel>)
    ensures
        spec_entries(a + b) == spec_entries(a) + spec_entries(b),
    decreases b.len(),
{
    if b.len() == 0 {
        assert(a + b =~= a);
        assert(spec_entries(a) + spec_entries(b) =~= spec_entries(a));
    } else {
        assert((a + b).drop_last() =~= a + b.drop_last());
        assert((a + b).last() == b.last());
        lemma_entries_concat(a, b.drop_last());
        assert(spec_entries(a) + spec_entries(b) =~= spec_entries(a) + spec_entries(b.drop_last())
            + spec_entry(b.last()));
    }
}

/// A file that could not be read never aborts the document: its block is the
/// bracketed note, and every entry before and after it still contributes its
/// own block, unchanged.
pub proof fn lemma_failed_entry_isolated(es: Seq<DocEntryModel>, i: int)
    requires
        0 <= i < es.len(),
    ensures
        spec_entries(es) == spec_entries(es.take(i)) + spec_entry(es[i]) + spec_entries(
            es.skip(i + 1),
        ),
{
    let mid = seq![es[i]];
    assert(es =~= es.take(i) + mid + es.skip(i + 1));
    lemma_entries_concat(es.take(i) + mid, es.skip(i + 1));
    lemma_entries_concat(es.take(i), mid);
    assert(spec_entries(mid) =~= spec_entry(es[i])) by {
        assert(mid.drop_last() =~= Seq::<DocEntryModel>::empty());
        assert(spec_entries(Seq::<DocEntryModel>::empty()) =~= Seq::<u8>::empty());
    }
}

} // verus!
