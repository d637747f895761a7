//! A single hash over input attributes is recorded and used to determine when
//! those inputs change.
//!
//! A build's manifest lists what its result depends on: the names and mtimes
//! of its inputs, discovered inputs and outputs, its command line and its
//! response file.  The hash of the manifest is stored after each run; a
//! changed hash means the build must run again.
use vstd::prelude::*;
use vstd::string::StringSliceAdditionalSpecFns;
use std::collections::hash_map::DefaultHasher;
use std::hash::Hasher;
use vstd::std_specs::hash::DefaultHasherAdditionalSpecFns;
use crate::graph::{Build, FileId, FileState, Graph, MTime, ids_below};
use crate::text::{le_bytes, push_bytes, push_decimal_u64, push_hex, push_le, push_slice, spec_decimal, spec_hex};

verus! {

/// Hash value used to identify a given instance of a Build's execution;
/// compared to verify whether a Build is up to date.
#[derive(Debug, Clone, Copy, PartialEq, Eq, Structural)]
pub struct BuildHash(pub u64);

pub const UNIT_SEPARATOR: u8 = 0x1F;

/// The modification time recorded for file `i`, if it is present.
pub open spec fn stamp_of(fs: &FileState, i: int) -> nat {
    match fs.spec_get(i) {
        Some(MTime::Stamp(t)) => t as nat,
        _ => 0,
    }
}

/// Each of `ids` names a file of `g` that is present on disk according to `fs`.
pub open spec fn all_stamped(g: &Graph, fs: &FileState, ids: Seq<FileId>) -> bool {
    &&& ids_below(ids, g.file_count())
    &&& forall|k: int| 0 <= k < ids.len() ==> (#[trigger] fs.spec_get(ids[k].0 as int)) matches Some(MTime::Stamp(_))
}

/// The manifest entries for `ids`: each file's name, then its mtime.
pub open spec fn file_entries(g: &Graph, fs: &FileState, ids: Seq<FileId>) -> Seq<Seq<u8>>
    decreases ids.len(),
{
    if ids.len() == 0 {
        Seq::empty()
    } else {
        file_entries(g, fs, ids.drop_last()) + seq![
            g.name_of(ids.last().0 as int),
            le_bytes(stamp_of(fs, ids.last().0 as int), 8),
        ]
    }
}

/// A list of files in the manifest: their entries, then a separator.
pub open spec fn file_section(g: &Graph, fs: &FileState, ids: Seq<FileId>) -> Seq<Seq<u8>> {
    file_entries(g, fs, ids) + seq![seq![UNIT_SEPARATOR]]
}

/// The dirtying inputs of `b`.
pub open spec fn dirtying(b: &Build) -> Seq<FileId> {
    b.ins.ids@.subrange(0, b.ins.explicit + b.ins.implicit)
}

/// The manifest of build `b`: what its hash is computed from.
pub open spec fn manifest(g: &Graph, fs: &FileState, b: &Build) -> Seq<Seq<u8>> {
    file_section(g, fs, dirtying(b)) + file_section(g, fs, b.discovered_ins@) + seq![
        match b.cmdline {
            Some(c) => c@,
            None => Seq::empty(),
        },
        seq![UNIT_SEPARATOR],
    ] + match b.rspfile {
        Some(r) => seq![r.path@, r.content@],
        None => Seq::empty(),
    } + file_section(g, fs, b.outs.ids@)
}

/// Everything `hash_build` reads of `b` is present: the counts fit and all
/// the files it lists are known and present on disk.
pub open spec fn hashable(g: &Graph, fs: &FileState, b: &Build) -> bool {
    &&& b.ins.explicit + b.ins.implicit <= b.ins.ids@.len()
    &&& all_stamped(g, fs, dirtying(b))
    &&& all_stamped(g, fs, b.discovered_ins@)
    &&& all_stamped(g, fs, b.outs.ids@)
}

fn write_files(h: &mut DefaultHasher, g: &Graph, fs: &FileState, ids: &[FileId])
    requires
        all_stamped(g, fs, ids@),
    ensures
        final(h)@ == old(h)@ + file_section(g, fs, ids@),
{
    let ghost h0 = h@;
    let mut i: usize = 0;
    assert(ids@.take(0) =~= Seq::<FileId>::empty());
    while i < ids.len()
        invariant
            i <= ids@.len(),
            all_stamped(g, fs, ids@),
            h@ == h0 + file_entries(g, fs, ids@.take(i as int)),
        decreases ids@.len() - i,
    {
        let id = ids[i];
        let ghost t = ids@.take(i + 1);
        assert(t.drop_last() =~= ids@.take(i as int));
        assert(fs.spec_get(ids@[i as int].0 as int) matches Some(MTime::Stamp(_)));
        let stamp: u64 = match fs.get(id) {
            Some(MTime::Stamp(s)) => s,
            _ => 0,
        };
        h.write(g.file(id).name.as_slice());
        let mut le: Vec<u8> = Vec::new();
        push_le(&mut le, stamp, 8);
        h.write(le.as_slice());
        i = i + 1;
        assert(h@ =~= h0 + file_entries(g, fs, t));
    }
    assert(ids@.take(i as int) =~= ids@);
    let sep = vec![UNIT_SEPARATOR];
    assert(sep@ =~= seq![UNIT_SEPARATOR]);
    h.write(sep.as_slice());
    assert(h@ =~= h0 + file_section(g, fs, ids@));
}

/// Hashes the inputs of a build to compute a signature.
/// Prerequisite: all referenced files have already been stat()ed and are present.
/// (It doesn't make sense to hash a build with missing files, because it's out
/// of date regardless of the state of the other files.)
pub fn hash_build(g: &Graph, fs: &FileState, build: &Build) -> (r: BuildHash)
    requires
        hashable(g, fs, build),
    ensures
        r.0 == DefaultHasher::spec_finish(manifest(g, fs, build)),
{
    let mut h = DefaultHasher::new();
    write_files(&mut h, g, fs, build.dirtying_ins());
    write_files(&mut h, g, fs, build.discovered_ins());
    let ghost h1 = h@;
    match &build.cmdline {
        Some(c) => h.write(c.as_slice()),
        None => {
            let empty: Vec<u8> = Vec::new();
            assert(empty@ =~= Seq::<u8>::empty());
            h.write(empty.as_slice());
        },
    }
    let sep = vec![UNIT_SEPARATOR];
    assert(sep@ =~= seq![UNIT_SEPARATOR]);
    h.write(sep.as_slice());
    match &build.rspfile {
        Some(r) => {
            h.write(r.path.as_slice());
            h.write(r.content.as_slice());
        },
        None => {},
    }
    write_files(&mut h, g, fs, build.outs());
    assert(h@ =~= manifest(g, fs, build));
    BuildHash(h.finish())
}

/// The explanation lines for `ids`: each file's mtime in milliseconds and
/// its name.
pub open spec fn explain_entries(g: &Graph, fs: &FileState, ids: Seq<FileId>) -> Seq<u8>
    decreases ids.len(),
{
    if ids.len() == 0 {
        Seq::empty()
    } else {
        explain_entries(g, fs, ids.drop_last()) + "  ".spec_bytes() + spec_decimal(
            stamp_of(fs, ids.last().0 as int) / 1000000,
        ) + " ".spec_bytes() + g.name_of(ids.last().0 as int) + seq![0x0au8]
    }
}

/// An explained list of files: a heading, then one line per file.
pub open spec fn explain_section(g: &Graph, fs: &FileState, desc: Seq<u8>, ids: Seq<FileId>) -> Seq<u8> {
    desc + ":\n".spec_bytes() + explain_entries(g, fs, ids)
}

/// The text `explain_hash_build` gives for `b`.
pub open spec fn explain_text(g: &Graph, fs: &FileState, b: &Build) -> Seq<u8> {
    explain_section(g, fs, "in".spec_bytes(), dirtying(b)) + explain_section(
        g,
        fs,
        "discovered".spec_bytes(),
        b.discovered_ins@,
    ) + "cmdline: ".spec_bytes() + match b.cmdline {
        Some(c) => c@,
        None => Seq::empty(),
    } + seq![0x0au8] + match b.rspfile {
        Some(r) => "rspfile path: ".spec_bytes() + r.path@ + seq![0x0au8] + "rspfile hash: ".spec_bytes()
            + spec_hex(DefaultHasher::spec_finish(seq![r.content@]) as nat) + seq![0x0au8],
        None => Seq::empty(),
    } + explain_section(g, fs, "out".spec_bytes(), b.outs.ids@)
}

fn explain_files(out: &mut Vec<u8>, desc: &str, g: &Graph, fs: &FileState, ids: &[FileId])
    requires
        all_stamped(g, fs, ids@),
    ensures
        final(out)@ == old(out)@ + explain_section(g, fs, desc.spec_bytes(), ids@),
{
    let ghost o = out@;
    push_bytes(out, desc);
    push_bytes(out, ":\n");
    let ghost o2 = out@;
    let mut i: usize = 0;
    assert(ids@.take(0) =~= Seq::<FileId>::empty());
    while i < ids.len()
        invariant
            i <= ids@.len(),
            all_stamped(g, fs, ids@),
            out@ == o2 + explain_entries(g, fs, ids@.take(i as int)),
        decreases ids@.len() - i,
    {
        let id = ids[i];
        let ghost t = ids@.take(i + 1);
        assert(t.drop_last() =~= ids@.take(i as int));
        let stamp: u64 = match fs.get(id) {
            Some(MTime::Stamp(s)) => s,
            _ => 0,
        };
        push_bytes(out, "  ");
        push_decimal_u64(out, stamp / 1000000);
        push_bytes(out, " ");
        push_slice(out, g.file(id).name.as_slice());
        out.push(0x0au8);
        i = i + 1;
        assert(t.last() == id);
        assert(out@ =~= o2 + explain_entries(g, fs, t));
    }
    assert(ids@.take(i as int) =~= ids@);
    assert(out@ =~= o + explain_section(g, fs, desc.spec_bytes(), ids@));
}

/// Describes the state of all the inputs used for hashing a given build,
/// for "-d explain" debugging output.
pub fn explain_hash_build(g: &Graph, fs: &FileState, build: &Build) -> (r: Vec<u8>)
    requires
        hashable(g, fs, build),
    ensures
        r@ == explain_text(g, fs, build),
{
    let mut text: Vec<u8> = Vec::new();
    explain_files(&mut text, "in", g, fs, build.dirtying_ins());
    explain_files(&mut text, "discovered", g, fs, build.discovered_ins());
    push_bytes(&mut text, "cmdline: ");
    match &build.cmdline {
        Some(c) => push_slice(&mut text, c.as_slice()),
        None => {},
    }
    text.push(0x0au8);
    match &build.rspfile {
        Some(r) => {
            push_bytes(&mut text, "rspfile path: ");
            push_slice(&mut text, r.path.as_slice());
            text.push(0x0au8);
            let mut h = DefaultHasher::new();
            h.write(r.content.as_slice());
            assert(h@ =~= seq![r.content@]);
            push_bytes(&mut text, "rspfile hash: ");
            push_hex(&mut text, h.finish());
            text.push(0x0au8);
        },
        None => {},
    }
    explain_files(&mut text, "out", g, fs, build.outs());
    assert(text@ =~= explain_text(g, fs, build));
    text
}

/// The name and mtime of each file of `ids`, in order.
pub open spec fn file_facts(g: &Graph, fs: &FileState, ids: Seq<FileId>) -> Seq<(Seq<u8>, nat)> {
    ids.map_values(|f: FileId| (g.name_of(f.0 as int), stamp_of(fs, f.0 as int)))
}

/// The command line of `b`, empty where it has none.
pub open spec fn cmdline_text(b: &Build) -> Seq<u8> {
    match b.cmdline {
        Some(c) => c@,
        None => Seq::empty(),
    }
}

/// The path and content of the response file of `b`, if it has one.
pub open spec fn rspfile_text(b: &Build) -> Option<(Seq<u8>, Seq<u8>)> {
    match b.rspfile {
        Some(r) => Some((r.path@, r.content@)),
        None => None,
    }
}

proof fn lemma_file_entries_by_facts(g1: &Graph, fs1: &FileState, ids1: Seq<FileId>, g2: &Graph, fs2: &FileState, ids2: Seq<FileId>)
    requires
        file_facts(g1, fs1, ids1) == file_facts(g2, fs2, ids2),
    ensures
        file_entries(g1, fs1, ids1) == file_entries(g2, fs2, ids2),
    decreases ids1.len(),
{
    assert(ids1.len() == file_facts(g1, fs1, ids1).len());
    assert(ids2.len() == file_facts(g2, fs2, ids2).len());
    if ids1.len() > 0 {
        let n = ids1.len() - 1;
        assert(file_facts(g1, fs1, ids1.drop_last()) =~= file_facts(g1, fs1, ids1).drop_last());
        assert(file_facts(g2, fs2, ids2.drop_last()) =~= file_facts(g2, fs2, ids2).drop_last());
        lemma_file_entries_by_facts(g1, fs1, ids1.drop_last(), g2, fs2, ids2.drop_last());
        assert(file_facts(g1, fs1, ids1)[n] == file_facts(g2, fs2, ids2)[n]);
    }
}

/// The hash of a build depends on nothing but the names and mtimes of its
/// dirtying inputs, discovered inputs and outputs (each list in order), its
/// command line (empty where it has none) and its response file: two builds
/// that agree on these, whatever graphs and file states they come from,
/// have the same manifest and so the same hash.
pub proof fn law_hash_depends_on_listed(
    g1: &Graph,
    fs1: &FileState,
    b1: &Build,
    g2: &Graph,
    fs2: &FileState,
    b2: &Build,
)
    requires
        file_facts(g1, fs1, dirtying(b1)) == file_facts(g2, fs2, dirtying(b2)),
        file_facts(g1, fs1, b1.discovered_ins@) == file_facts(g2, fs2, b2.discovered_ins@),
        file_facts(g1, fs1, b1.outs.ids@) == file_facts(g2, fs2, b2.outs.ids@),
        cmdline_text(b1) == cmdline_text(b2),
        rspfile_text(b1) == rspfile_text(b2),
    ensures
        manifest(g1, fs1, b1) == manifest(g2, fs2, b2),
        DefaultHasher::spec_finish(manifest(g1, fs1, b1)) == DefaultHasher::spec_finish(manifest(g2, fs2, b2)),
{
    lemma_file_entries_by_facts(g1, fs1, dirtying(b1), g2, fs2, dirtying(b2));
    lemma_file_entries_by_facts(g1, fs1, b1.discovered_ins@, g2, fs2, b2.discovered_ins@);
    lemma_file_entries_by_facts(g1, fs1, b1.outs.ids@, g2, fs2, b2.outs.ids@);
    let r1 = match b1.rspfile {
        Some(r) => seq![r.path@, r.content@],
        None => Seq::<Seq<u8>>::empty(),
    };
    let r2 = match b2.rspfile {
        Some(r) => seq![r.path@, r.content@],
        None => Seq::<Seq<u8>>::empty(),
    };
    assert(r1 == r2);
    assert(manifest(g1, fs1, b1) =~= manifest(g2, fs2, b2));
}

/// The command line of a build is hashed: it stands in the manifest right
/// after the dirtying and discovered inputs (each file taking a name and an
/// mtime, each list closed by a separator).
pub proof fn law_manifest_holds_cmdline(g: &Graph, fs: &FileState, b: &Build)
    ensures
        manifest(g, fs, b)[(2 * dirtying(b).len() + 2 * b.discovered_ins@.len() + 2) as int] == cmdline_text(b),
{
    lemma_file_entries_len(g, fs, dirtying(b));
    lemma_file_entries_len(g, fs, b.discovered_ins@);
    let k1 = file_section(g, fs, dirtying(b)).len();
    let k2 = file_section(g, fs, b.discovered_ins@).len();
    let m = manifest(g, fs, b);
    let head = file_section(g, fs, dirtying(b)) + file_section(g, fs, b.discovered_ins@);
    assert(m[(k1 + k2) as int] == cmdline_text(b));
}

proof fn lemma_file_entries_len(g: &Graph, fs: &FileState, ids: Seq<FileId>)
    ensures
        file_entries(g, fs, ids).len() == 2 * ids.len(),
    decreases ids.len(),
{
    if ids.len() > 0 {
        lemma_file_entries_len(g, fs, ids.drop_last());
    }
}

/// Editing a build's command line changes its manifest: two builds with the
/// same dirtying and discovered inputs whose command lines differ have
/// different manifests, whatever else they hold.
pub proof fn law_cmdline_changes_manifest(g: &Graph, fs: &FileState, b1: &Build, b2: &Build)
    requires
        dirtying(b1).len() == dirtying(b2).len(),
        b1.discovered_ins@.len() == b2.discovered_ins@.len(),
        cmdline_text(b1) != cmdline_text(b2),
    ensures
        manifest(g, fs, b1) != manifest(g, fs, b2),
{
    law_manifest_holds_cmdline(g, fs, b1);
    law_manifest_holds_cmdline(g, fs, b2);
}

/// Each file of `ids` takes two entries, in order: its name, then its mtime.
proof fn lemma_file_entries_at(g: &Graph, fs: &FileState, ids: Seq<FileId>, k: int)
    requires
        0 <= k < ids.len(),
    ensures
        file_entries(g, fs, ids)[2 * k] == g.name_of(ids[k].0 as int),
        file_entries(g, fs, ids)[2 * k + 1] == le_bytes(stamp_of(fs, ids[k].0 as int), 8),
    decreases ids.len(),
{
    lemma_file_entries_len(g, fs, ids.drop_last());
    if k < ids.len() - 1 {
        lemma_file_entries_at(g, fs, ids.drop_last(), k);
    }
}

/// What is hashed for a build, and where: the name and mtime of each
/// dirtying input, a separator, the same for each discovered input, a
/// separator, the command line, a separator, the response file's path and
/// content where it has one, then the name and mtime of each output and a
/// last separator.
pub proof fn law_manifest_layout(g: &Graph, fs: &FileState, b: &Build)
    ensures
        ({
            let m = manifest(g, fs, b);
            let ins = dirtying(b);
            let disc = b.discovered_ins@;
            let outs = b.outs.ids@;
            let d = ins.len() as int;
            let q = disc.len() as int;
            let r: int = if b.rspfile is Some { 2 } else { 0 };
            let o0 = 2 * d + 2 * q + 4 + r;
            &&& m.len() == o0 + 2 * outs.len() + 1
            &&& forall|k: int| 0 <= k < d ==> m[2 * k] == g.name_of(#[trigger] ins[k].0 as int) && m[2 * k + 1]
                == le_bytes(stamp_of(fs, ins[k].0 as int), 8)
            &&& m[2 * d] == seq![UNIT_SEPARATOR]
            &&& forall|k: int| 0 <= k < q ==> m[2 * d + 1 + 2 * k] == g.name_of(#[trigger] disc[k].0 as int) && m[2 * d
                + 2 + 2 * k] == le_bytes(stamp_of(fs, disc[k].0 as int), 8)
            &&& m[2 * d + 2 * q + 1] == seq![UNIT_SEPARATOR]
            &&& m[2 * d + 2 * q + 2] == cmdline_text(b)
            &&& m[2 * d + 2 * q + 3] == seq![UNIT_SEPARATOR]
            &&& (rspfile_text(b) matches Some((path, content)) ==> m[2 * d + 2 * q + 4] == path && m[2 * d + 2 * q
                + 5] == content)
            &&& forall|k: int| 0 <= k < outs.len() ==> m[o0 + 2 * k] == g.name_of(#[trigger] outs[k].0 as int) && m[o0
                + 2 * k + 1] == le_bytes(stamp_of(fs, outs[k].0 as int), 8)
            &&& m[o0 + 2 * outs.len()] == seq![UNIT_SEPARATOR]
        }),
{
    let ins = dirtying(b);
    let disc = b.discovered_ins@;
    let outs = b.outs.ids@;
    lemma_file_entries_len(g, fs, ins);
    lemma_file_entries_len(g, fs, disc);
    lemma_file_entries_len(g, fs, outs);
    let s1 = file_section(g, fs, ins);
    let s2 = file_section(g, fs, disc);
    let mid = seq![cmdline_text(b), seq![UNIT_SEPARATOR]];
    let rs = match b.rspfile {
        Some(r) => seq![r.path@, r.content@],
        None => Seq::<Seq<u8>>::empty(),
    };
    let s3 = file_section(g, fs, outs);
    let m = manifest(g, fs, b);
    assert(m =~= s1 + s2 + mid + rs + s3);
    let d = ins.len() as int;
    let q = disc.len() as int;
    assert forall|k: int| 0 <= k < d implies m[2 * k] == g.name_of(#[trigger] ins[k].0 as int) && m[2 * k + 1]
        == le_bytes(stamp_of(fs, ins[k].0 as int), 8) by {
        lemma_file_entries_at(g, fs, ins, k);
    }
    assert forall|k: int| 0 <= k < q implies m[2 * d + 1 + 2 * k] == g.name_of(#[trigger] disc[k].0 as int) && m[2
        * d + 2 + 2 * k] == le_bytes(stamp_of(fs, disc[k].0 as int), 8) by {
        lemma_file_entries_at(g, fs, disc, k);
    }
    let o0 = s1.len() + s2.len() + mid.len() + rs.len();
    assert forall|k: int| 0 <= k < outs.len() implies m[o0 + 2 * k] == g.name_of(#[trigger] outs[k].0 as int)
        && m[o0 + 2 * k + 1] == le_bytes(stamp_of(fs, outs[k].0 as int), 8) by {
        lemma_file_entries_at(g, fs, outs, k);
    }
}

} // verus!
