//! Copying sealed blocks to a store before retention unlinks them, and back.
//!
//! A block directory's name carries its own time range, replica and sequence,
//! so a flat namespace of those names is the catalog: nothing writes an index,
//! a manifest or a marker beside the blocks. A block is deleted locally only
//! after its copy is visible in the store under its final name, so a crash
//! leaves two copies and never none.

use crate::block::{
    begins, law_own_staging_is_swept, name_covering_no_log, no_log_text, scan, staging_prefix,
    staging_prefix_text, starts_with, BlockRef, COLD_MARKER, Listed,
};
use crate::error::Error;
use crate::order::{compare_text, lemma_rank_bytes, rank_bytes, same_text, utf8, Rank};
use crate::path::{join, joined, piece, place_of, split, text_of};
use crate::sort::{ranked, sort_ranked, Ranked};
use crate::text::{chars_of, decimal, push_decimal, push_str};
use vstd::prelude::*;

verus! {

/// Where offloaded blocks go.
#[derive(Debug, Clone)]
pub struct Target {
    pub root: String,
}

// ---------------------------------------------------------------------------
// Places.

/// Where one copy of a block goes: the partition directory, the directory of
/// the block in it, and what the copy is staged under.
pub struct Place {
    pub dest_dir: String,
    pub dest: String,
    pub staging: String,
}

/// The place of a block below a root.
pub open spec fn is_place(
    p: Place,
    root: Seq<char>,
    signal: Seq<char>,
    partition: Seq<char>,
    name: Seq<char>,
) -> bool {
    &&& p.dest_dir@ == joined(joined(root, signal), partition)
    &&& p.dest@ == joined(p.dest_dir@, name)
}

/// What a copy of a block into the store is staged under.
pub open spec fn push_staging(signal: Seq<char>, name: Seq<char>) -> Seq<char> {
    signal + seq!['-'] + name
}

/// What a copy of a block out of the store is staged under.
pub open spec fn pull_staging(signal: Seq<char>, node: u32, name: Seq<char>) -> Seq<char> {
    staging_prefix_text(signal, node) + "restore-"@ + name
}

/// The directory a copy is made in, before it is renamed into place. The
/// process tells two copiers of the same bytes apart.
pub fn staging_dir(root: &str, staging: &str, process: u32) -> (s: String)
    ensures
        s@ == joined(
            joined(root@, ".tmp"@),
            staging@ + seq!['-'] + decimal(process as nat),
        ),
{
    let mut name: String = staging.to_owned();
    name.push('-');
    push_decimal(&mut name, process as u64);
    assert(name@ =~= staging@ + seq!['-'] + decimal(process as nat));
    let base = join(root, ".tmp");
    join(base.as_str(), name.as_str())
}

impl Target {
    /// Parse an offload target. Everything after `file://` is the path; there
    /// is no host. No other scheme is implemented, and an empty path is no
    /// target.
    pub fn parse(uri: &str) -> (r: Result<Target, Error>)
        ensures
            r is Ok <==> begins(uri@, "file://"@) && uri@.len() > "file://"@.len(),
            r matches Ok(t) ==> t.root@ == uri@.skip("file://"@.len() as int),
            r matches Err(e) ==> (e matches Error::OffloadScheme { uri: u } && u@ == uri@),
    {
        proof {
            reveal_strlit("file://");
        }
        if starts_with(uri, "file://") {
            let c = chars_of(uri);
            if c.len() > 7 {
                let root = piece(&c, 7, c.len());
                assert(root@ =~= uri@.skip(7));
                return Ok(Target { root });
            }
        }
        Err(Error::OffloadScheme { uri: uri.to_owned() })
    }

    /// Every block the store holds, oldest first, out of a listing of its
    /// directories: the same catalog as that of a data directory, because the
    /// two namespaces are the same.
    pub fn list(&self, found: &Vec<Listed>) -> (r: Vec<BlockRef>)
        ensures
            exists|v: Seq<BlockRef>| #[trigger]
                crate::block::catalogued(found@, found@.len(), v) && r@ == ranked(v),
    {
        scan(found)
    }

    /// Where in the store a local block goes. A block without a partition above
    /// it has no address in the store.
    pub fn push(&self, signal: &str, dir: &str) -> (r: Option<Place>)
        ensures
            r is Some <==> place_of(dir@) is Some,
            r matches Some(p) ==> (place_of(dir@) matches Some((partition, name)) && is_place(
                p,
                self.root@,
                signal@,
                partition,
                name,
            ) && p.staging@ == push_staging(signal@, name)),
    {
        let (partition, name) = match split(dir) {
            Some(p) => p,
            None => {
                return None;
            },
        };
        let base = join(self.root.as_str(), signal);
        let dest_dir = join(base.as_str(), partition.as_str());
        let dest = join(dest_dir.as_str(), name.as_str());
        let mut staging: String = signal.to_owned();
        staging.push('-');
        push_str(&mut staging, name.as_str());
        assert(staging@ =~= push_staging(signal@, name@));
        Some(Place { dest_dir, dest, staging })
    }

    /// Where in a data directory an offloaded block goes. It lands under a name
    /// that claims no progress in the log, and is staged under one that the
    /// replica's own sweep clears.
    pub fn pull(&self, signal: &str, dir: &str, data_dir: &str, node: u32) -> (r: Option<Place>)
        ensures
            r is Some <==> place_of(dir@) is Some,
            r matches Some(p) ==> (place_of(dir@) matches Some((partition, name)) && is_place(
                p,
                data_dir@,
                signal@,
                partition,
                no_log_text(name),
            ) && p.staging@ == pull_staging(signal@, node, no_log_text(name))),
    {
        let (partition, stored) = match split(dir) {
            Some(p) => p,
            None => {
                return None;
            },
        };
        let name = name_covering_no_log(stored.as_str());
        let base = join(data_dir, signal);
        let dest_dir = join(base.as_str(), partition.as_str());
        let dest = join(dest_dir.as_str(), name.as_str());
        let mut staging: String = staging_prefix(signal, node);
        push_str(&mut staging, "restore-");
        push_str(&mut staging, name.as_str());
        Some(Place { dest_dir, dest, staging })
    }
}

// ---------------------------------------------------------------------------
// Whether two copies are the same block.

/// Something found in a block directory.
pub struct Found {
    pub name: String,
    pub len: u64,
    pub is_file: bool,
}

impl Ranked for Found {
    /// By name, then by length.
    open spec fn ahead(self, other: Found) -> bool {
        let r = rank_bytes(utf8(self.name@), utf8(other.name@));
        r == Rank::Less || (r == Rank::Equal && self.len < other.len)
    }

    proof fn lemma_order(a: Found, b: Found, c: Found) {
        let (x, y, z) = (utf8(a.name@), utf8(b.name@), utf8(c.name@));
        lemma_rank_bytes(x, y, z);
        lemma_rank_bytes(y, x, z);
        lemma_rank_bytes(y, z, x);
        lemma_rank_bytes(z, y, x);
        lemma_rank_bytes(z, x, y);
        lemma_rank_bytes(x, z, y);
    }

    fn is_ahead(&self, other: &Found) -> (r: bool) {
        match compare_text(self.name.as_str(), other.name.as_str()) {
            Rank::Less => true,
            Rank::Equal => self.len < other.len,
            Rank::Greater => false,
        }
    }
}

/// Those of a listing that are regular files. A block directory is flat:
/// anything with children in it belongs to something else.
pub open spec fn files(v: Seq<Found>) -> Seq<Found>
    decreases v.len(),
{
    if v.len() == 0 {
        v
    } else if v.last().is_file {
        files(v.drop_last()).push(v.last())
    } else {
        files(v.drop_last())
    }
}

/// The regular files of a block directory, by name.
pub fn sizes(v: Vec<Found>) -> (r: Vec<Found>)
    ensures
        r@ == ranked(files(v@)),
{
    let ghost s = v@;
    let mut rest = v;
    let mut back: Vec<Found> = Vec::new();
    while rest.len() > 0
        invariant
            rest@.len() + back@.len() == s.len(),
            rest@ == s.take(rest@.len() as int),
            forall|i: int| 0 <= i < back@.len() ==> back@[i] == s[s.len() - 1 - i],
        decreases rest@.len(),
    {
        match rest.pop() {
            Some(x) => back.push(x),
            None => {},
        }
        assert(rest@ =~= s.take(rest@.len() as int));
    }
    let mut out: Vec<Found> = Vec::new();
    assert(files(s.take(0)) =~= Seq::<Found>::empty());
    while back.len() > 0
        invariant
            back@.len() <= s.len(),
            forall|i: int| 0 <= i < back@.len() ==> back@[i] == s[s.len() - 1 - i],
            out@ == files(s.take(s.len() - back@.len())),
        decreases back@.len(),
    {
        let ghost k = s.len() - back@.len();
        match back.pop() {
            Some(x) => {
                assert(s.take(k + 1).drop_last() =~= s.take(k));
                if x.is_file {
                    out.push(x);
                }
            },
            None => {},
        }
    }
    assert(s.take(s.len() as int) =~= s);
    sort_ranked(out)
}

/// The first entry of a name.
pub open spec fn len_of(v: Seq<Found>, name: Seq<char>) -> Option<u64>
    decreases v.len(),
{
    if v.len() == 0 {
        None
    } else if v[0].name@ == name {
        Some(v[0].len)
    } else {
        len_of(v.skip(1), name)
    }
}

/// Whether a copy has gone cold: its tables are encoded anew, and a marker is
/// beside them.
pub open spec fn is_cold(v: Seq<Found>) -> bool {
    len_of(v, COLD_MARKER@) is Some
}

/// Whether one copy has gone cold and the other has not. No length on either
/// side is then a length on the other, and only names can be compared.
pub open spec fn is_across(ours: Seq<Found>, theirs: Seq<Found>) -> bool {
    is_cold(ours) != is_cold(theirs)
}

/// Whether a file counts in a comparison: the marker does not, across.
pub open spec fn counts(f: Found, across: bool) -> bool {
    !(across && f.name@ == COLD_MARKER@)
}

/// What is wrong with one file of ours.
pub open spec fn complaint(f: Found, theirs: Seq<Found>, across: bool) -> Option<Seq<char>> {
    if !counts(f, across) {
        None
    } else {
        match len_of(theirs, f.name@) {
            None => Some(f.name@ + " is missing from it"@),
            Some(there) => if !across && there != f.len {
                Some(
                    f.name@ + " is "@ + decimal(there as nat) + " bytes there, "@ + decimal(
                        f.len as nat,
                    ) + " here"@,
                )
            } else {
                None
            },
        }
    }
}

/// The first thing wrong with one of our files.
pub open spec fn first_complaint(ours: Seq<Found>, theirs: Seq<Found>, across: bool) -> Option<Seq<char>>
    decreases ours.len(),
{
    if ours.len() == 0 {
        None
    } else if complaint(ours[0], theirs, across) is Some {
        complaint(ours[0], theirs, across)
    } else {
        first_complaint(ours.skip(1), theirs, across)
    }
}

/// The first file of theirs that is not ours.
pub open spec fn first_extra(ours: Seq<Found>, theirs: Seq<Found>, across: bool) -> Option<Seq<char>>
    decreases theirs.len(),
{
    if theirs.len() == 0 {
        None
    } else if counts(theirs[0], across) && len_of(ours, theirs[0].name@) is None {
        Some("it holds "@ + theirs[0].name@ + ", which this block does not"@)
    } else {
        first_extra(ours, theirs.skip(1), across)
    }
}

/// Why two copies of one block name are not the same block: by names and
/// lengths, not content. A block is sealed and its files are written once.
pub open spec fn difference(ours: Seq<Found>, theirs: Seq<Found>) -> Option<Seq<char>> {
    let across = is_across(ours, theirs);
    match first_complaint(ours, theirs, across) {
        Some(why) => Some(why),
        None => first_extra(ours, theirs, across),
    }
}

fn find_len(v: &Vec<Found>, name: &str) -> (r: Option<u64>)
    ensures
        r == len_of(v@, name@),
{
    let mut i: usize = 0;
    assert(v@.skip(0) =~= v@);
    while i < v.len()
        invariant
            i <= v@.len(),
            len_of(v@, name@) == len_of(v@.skip(i as int), name@),
        decreases v@.len() - i,
    {
        assert(v@.skip(i as int)[0] == v@[i as int]);
        assert(v@.skip(i as int).skip(1) =~= v@.skip(i + 1));
        if same_text(v[i].name.as_str(), name) {
            return Some(v[i].len);
        }
        i = i + 1;
    }
    None
}

fn complain(f: &Found, theirs: &Vec<Found>, across: bool) -> (r: Option<String>)
    ensures
        text_of(r) == complaint(*f, theirs@, across),
{
    if across && same_text(f.name.as_str(), COLD_MARKER) {
        return None;
    }
    match find_len(theirs, f.name.as_str()) {
        None => {
            let mut s: String = f.name.as_str().to_owned();
            push_str(&mut s, " is missing from it");
            Some(s)
        },
        Some(there) => if !across && there != f.len {
            let mut s: String = f.name.as_str().to_owned();
            push_str(&mut s, " is ");
            push_decimal(&mut s, there);
            push_str(&mut s, " bytes there, ");
            push_decimal(&mut s, f.len);
            push_str(&mut s, " here");
            Some(s)
        } else {
            None
        },
    }
}

fn find_extra(ours: &Vec<Found>, theirs: &Vec<Found>, across: bool) -> (r: Option<String>)
    ensures
        text_of(r) == first_extra(ours@, theirs@, across),
{
    let mut i: usize = 0;
    assert(theirs@.skip(0) =~= theirs@);
    while i < theirs.len()
        invariant
            i <= theirs@.len(),
            first_extra(ours@, theirs@, across) == first_extra(
                ours@,
                theirs@.skip(i as int),
                across,
            ),
        decreases theirs@.len() - i,
    {
        assert(theirs@.skip(i as int)[0] == theirs@[i as int]);
        assert(theirs@.skip(i as int).skip(1) =~= theirs@.skip(i + 1));
        let name = theirs[i].name.as_str();
        let marker = across && same_text(name, COLD_MARKER);
        if !marker && find_len(ours, name).is_none() {
            let mut s: String = "it holds ".to_owned();
            push_str(&mut s, name);
            push_str(&mut s, ", which this block does not");
            return Some(s);
        }
        i = i + 1;
    }
    None
}

/// Why two copies of one block name are not the same block, or `None`.
pub fn differs(ours: &Vec<Found>, theirs: &Vec<Found>) -> (r: Option<String>)
    ensures
        r is Some <==> difference(ours@, theirs@) is Some,
        r matches Some(s) ==> difference(ours@, theirs@) == Some(s@),
{
    let across = find_len(ours, COLD_MARKER).is_some() != find_len(theirs, COLD_MARKER).is_some();
    let mut i: usize = 0;
    assert(ours@.skip(0) =~= ours@);
    while i < ours.len()
        invariant
            i <= ours@.len(),
            across == is_across(ours@, theirs@),
            first_complaint(ours@, theirs@, across) == first_complaint(
                ours@.skip(i as int),
                theirs@,
                across,
            ),
        decreases ours@.len() - i,
    {
        assert(ours@.skip(i as int)[0] == ours@[i as int]);
        assert(ours@.skip(i as int).skip(1) =~= ours@.skip(i + 1));
        if let Some(s) = complain(&ours[i], theirs, across) {
            return Some(s);
        }
        i = i + 1;
    }
    find_extra(ours, theirs, across)
}

/// Whether a block whose name is taken in the store is there already. The
/// answer licenses the caller to unlink the local copy, so a name taken by
/// other bytes is an error.
pub fn is_there(dest: &str, ours: &Vec<Found>, theirs: &Vec<Found>) -> (r: Result<(), Error>)
    ensures
        r is Ok <==> difference(ours@, theirs@) is None,
        r matches Err(e) ==> (e matches Error::OffloadCollision { dest: d, why } && d@ == dest@
            && difference(ours@, theirs@) == Some(why@)),
{
    match differs(ours, theirs) {
        None => Ok(()),
        Some(why) => Err(Error::OffloadCollision { dest: dest.to_owned(), why }),
    }
}

/// How a staged copy landed.
#[derive(Debug, Clone, Copy, PartialEq, Eq, Structural)]
pub enum Landing {
    /// It was renamed into place.
    Copied,
    /// Another replica put the same bytes there first.
    Present,
    Failed,
}

/// How a staged copy landed, from whether the rename worked and whether the
/// destination is there.
pub fn landing(renamed: bool, there: bool) -> (r: Landing)
    ensures
        r == if renamed {
            Landing::Copied
        } else if there {
            Landing::Present
        } else {
            Landing::Failed
        },
{
    if renamed {
        Landing::Copied
    } else if there {
        Landing::Present
    } else {
        Landing::Failed
    }
}

// ---------------------------------------------------------------------------
// What holds of copies.

proof fn lemma_len_of(v: Seq<Found>, i: int)
    requires
        0 <= i < v.len(),
    ensures
        len_of(v, v[i].name@) is Some,
    decreases v.len(),
{
    if v[0].name@ != v[i].name@ {
        assert(v.skip(1)[i - 1] == v[i]);
        lemma_len_of(v.skip(1), i - 1);
    }
}

proof fn lemma_no_complaint(ours: Seq<Found>, theirs: Seq<Found>, across: bool, i: int)
    requires
        first_complaint(ours, theirs, across) is None,
        0 <= i < ours.len(),
    ensures
        complaint(ours[i], theirs, across) is None,
    decreases ours.len(),
{
    if i > 0 {
        assert(ours.skip(1)[i - 1] == ours[i]);
        lemma_no_complaint(ours.skip(1), theirs, across, i - 1);
    }
}

proof fn lemma_no_extra(ours: Seq<Found>, theirs: Seq<Found>, across: bool, i: int)
    requires
        first_extra(ours, theirs, across) is None,
        0 <= i < theirs.len(),
    ensures
        !(counts(theirs[i], across) && len_of(ours, theirs[i].name@) is None),
    decreases theirs.len(),
{
    if i > 0 {
        assert(theirs.skip(1)[i - 1] == theirs[i]);
        lemma_no_extra(ours, theirs.skip(1), across, i - 1);
    }
}

/// A block that is said to be in the store is there: every file of it, under
/// its name and with its length, and no other. Across the cold boundary the
/// names agree, but for the marker.
pub proof fn law_there_means_there(ours: Seq<Found>, theirs: Seq<Found>, i: int, k: int)
    requires
        difference(ours, theirs) is None,
        0 <= i < ours.len(),
        0 <= k < theirs.len(),
    ensures
        !is_across(ours, theirs) ==> len_of(theirs, ours[i].name@) == Some(ours[i].len),
        is_across(ours, theirs) && ours[i].name@ != COLD_MARKER@ ==> len_of(
            theirs,
            ours[i].name@,
        ) is Some,
        !is_across(ours, theirs) || theirs[k].name@ != COLD_MARKER@ ==> len_of(
            ours,
            theirs[k].name@,
        ) is Some,
{
    lemma_no_complaint(ours, theirs, is_across(ours, theirs), i);
    lemma_no_extra(ours, theirs, is_across(ours, theirs), k);
}

/// A faithful copy never differs, so that pushing a block again changes
/// nothing. (The names within one directory are distinct.)
pub proof fn law_a_copy_does_not_differ(v: Seq<Found>)
    requires
        forall|i: int, j: int|
            0 <= i < j < v.len() ==> (#[trigger] v[i]).name@ != (#[trigger] v[j]).name@,
    ensures
        difference(v, v) is None,
{
    assert(v.skip(0) =~= v);
    lemma_copy_complaint(v, v, 0);
    lemma_copy_extra(v, v, 0);
}

proof fn lemma_len_is(v: Seq<Found>, i: int)
    requires
        forall|i: int, j: int|
            0 <= i < j < v.len() ==> (#[trigger] v[i]).name@ != (#[trigger] v[j]).name@,
        0 <= i < v.len(),
    ensures
        len_of(v, v[i].name@) == Some(v[i].len),
    decreases v.len(),
{
    if i > 0 {
        let t = v.skip(1);
        assert(v[0].name@ != v[i].name@);
        assert forall|a: int, b: int| 0 <= a < b < t.len() implies (#[trigger] t[a]).name@ != (
        #[trigger] t[b]).name@ by {
            assert(t[a] == v[a + 1] && t[b] == v[b + 1]);
        }
        assert(t[i - 1] == v[i]);
        lemma_len_is(t, i - 1);
    }
}

proof fn lemma_copy_complaint(v: Seq<Found>, all: Seq<Found>, at: int)
    requires
        forall|i: int, j: int|
            0 <= i < j < all.len() ==> (#[trigger] all[i]).name@ != (#[trigger] all[j]).name@,
        0 <= at <= all.len(),
        v == all.skip(at),
    ensures
        first_complaint(v, all, false) is None,
    decreases v.len(),
{
    if v.len() > 0 {
        assert(v[0] == all[at]);
        lemma_len_is(all, at);
        assert(v.skip(1) =~= all.skip(at + 1));
        lemma_copy_complaint(v.skip(1), all, at + 1);
    }
}

proof fn lemma_copy_extra(v: Seq<Found>, all: Seq<Found>, at: int)
    requires
        0 <= at <= all.len(),
        v == all.skip(at),
    ensures
        first_extra(all, v, false) is None,
    decreases v.len(),
{
    if v.len() > 0 {
        assert(v[0] == all[at]);
        lemma_len_of(all, at);
        assert(v.skip(1) =~= all.skip(at + 1));
        lemma_copy_extra(v.skip(1), all, at + 1);
    }
}

/// A restore killed half-way leaves a directory that the replica's own sweep
/// clears.
pub proof fn law_a_killed_restore_is_swept(signal: Seq<char>, node: u32, name: Seq<char>)
    ensures
        begins(pull_staging(signal, node, name), staging_prefix_text(signal, node)),
{
    law_own_staging_is_swept(signal, node, "restore-"@ + name);
    assert(pull_staging(signal, node, name) =~= staging_prefix_text(signal, node) + ("restore-"@
        + name));
}

} // verus!
