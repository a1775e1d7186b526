use crate::tree::{
    lemma_sum_data_nonneg, lemma_sum_data_take_step, lemma_views_of,
    sum_data, views_of, Tree, TreeV,
};
use vstd::arithmetic::mul::lemma_mul_upper_bound;
use vstd::prelude::*;
use vstd::string::StringExecFns;

verus! {

/// The filesystem operation during which an error was encountered.
#[derive(Debug, Clone, Copy, PartialEq, Eq, Structural)]
pub enum Operation {
    /// Querying the symlink-aware metadata of the visited path.
    SymlinkMetadata,
    /// Listing the entries of the visited directory.
    ReadDirectory,
    /// Reading one entry while listing a directory.
    AccessEntry,
}

/// One scan lifecycle event, handed to an external reporter.
#[derive(Debug, Clone, Copy, PartialEq, Eq, Structural)]
pub enum Event {
    /// Scanning of a path begins.
    BeginScanning,
    /// The entries of a path are fully enumerated.
    FinishScanning,
    /// A filesystem operation failed; the scan goes on.
    EncounterError(Operation),
    /// The measured weight of the visited path.
    ReceiveData(u64),
}

/// What probing one path with the filesystem yielded; the probing itself
/// is the caller's, the decisions drawn from it are made here.
pub enum PathReading {
    /// The symlink-aware metadata query failed.
    MetadataFailure,
    /// The path is not a directory; `size` is its measured weight.
    File {
        /// Measured weight of the file.
        size: u64,
    },
    /// The path is a directory whose entries could not be listed.
    DirectoryUnreadable,
    /// The path is a directory; `entries` holds one name per entry, in
    /// reading order, with `None` for an entry that could not be read.
    Directory {
        /// Measured weight of the directory's own inode.
        size: u64,
        /// The entry names, `None` where access to one failed.
        entries: Vec<Option<String>>,
    },
}

/// What one visit decides: the path's own weight and the names of the
/// children still to be visited.
pub struct Info {
    /// Own weight of the visited path; zero after a failure.
    pub data: u64,
    /// Names of the children to visit, in reading order.
    pub children: Vec<String>,
}

/// The error events that listing these entries produces, one per entry
/// that could not be accessed, in entry order.
pub open spec fn entry_errors(s: Seq<Option<String>>) -> Seq<Event>
    decreases s.len(),
{
    if s.len() == 0 {
        Seq::empty()
    } else {
        entry_errors(s.drop_last()) + (if s.last() is None {
            seq![Event::EncounterError(Operation::AccessEntry)]
        } else {
            Seq::empty()
        })
    }
}

/// The names of the entries that could be accessed, in entry order.
pub open spec fn entry_names(s: Seq<Option<String>>) -> Seq<String>
    decreases s.len(),
{
    if s.len() == 0 {
        Seq::empty()
    } else {
        entry_names(s.drop_last()) + (if s.last() is Some {
            seq![s.last()->0]
        } else {
            Seq::empty()
        })
    }
}

/// The exact event sequence that one visit reports: scanning always
/// begins; a failed metadata query or directory listing is reported and
/// ends the visit with nothing else; otherwise every unreadable entry is
/// reported, scanning finishes, and the measured weight is reported.
pub open spec fn scan_events_spec(r: PathReading) -> Seq<Event> {
    match r {
        PathReading::MetadataFailure => seq![
            Event::BeginScanning,
            Event::EncounterError(Operation::SymlinkMetadata),
        ],
        PathReading::DirectoryUnreadable => seq![
            Event::BeginScanning,
            Event::EncounterError(Operation::ReadDirectory),
        ],
        PathReading::File { size } => seq![
            Event::BeginScanning,
            Event::FinishScanning,
            Event::ReceiveData(size),
        ],
        PathReading::Directory { size, entries } => seq![Event::BeginScanning] + entry_errors(
            entries@,
        ) + seq![Event::FinishScanning, Event::ReceiveData(size)],
    }
}

/// The weight that one visit yields: zero after a failure, the measured
/// weight otherwise.
pub open spec fn scan_data_spec(r: PathReading) -> u64 {
    match r {
        PathReading::MetadataFailure => 0,
        PathReading::DirectoryUnreadable => 0,
        PathReading::File { size } => size,
        PathReading::Directory { size, entries } => size,
    }
}

/// The children that one visit yields: the readable entry names of a
/// listed directory, nothing otherwise.
pub open spec fn scan_children_spec(r: PathReading) -> Seq<String> {
    match r {
        PathReading::Directory { size, entries } => entry_names(entries@),
        _ => Seq::empty(),
    }
}

/// Decide one visit of the scan: from what the filesystem yielded for a
/// path, produce the events to report, in order, and the path's own
/// weight and children names. Errors never abort the scan: a failure
/// yields a zero weight and no children.
pub fn scan_step(reading: PathReading) -> (r: (Vec<Event>, Info))
    ensures
        r.0@ == scan_events_spec(reading),
        r.1.data == scan_data_spec(reading),
        r.1.children@ == scan_children_spec(reading),
{
    let ghost reading0 = reading;
    match reading {
        PathReading::MetadataFailure => {
            let mut events: Vec<Event> = Vec::new();
            events.push(Event::BeginScanning);
            events.push(Event::EncounterError(Operation::SymlinkMetadata));
            proof {
                assert(events@ =~= scan_events_spec(reading0));
            }
            (events, Info { data: 0, children: Vec::new() })
        },
        PathReading::DirectoryUnreadable => {
            let mut events: Vec<Event> = Vec::new();
            events.push(Event::BeginScanning);
            events.push(Event::EncounterError(Operation::ReadDirectory));
            proof {
                assert(events@ =~= scan_events_spec(reading0));
            }
            (events, Info { data: 0, children: Vec::new() })
        },
        PathReading::File { size } => {
            let mut events: Vec<Event> = Vec::new();
            events.push(Event::BeginScanning);
            events.push(Event::FinishScanning);
            events.push(Event::ReceiveData(size));
            proof {
                assert(events@ =~= scan_events_spec(reading0));
            }
            (events, Info { data: size, children: Vec::new() })
        },
        PathReading::Directory { size, entries } => {
            let ghost entries0 = entries@;
            let mut events: Vec<Event> = Vec::new();
            let mut names: Vec<String> = Vec::new();
            events.push(Event::BeginScanning);
            let mut entries = entries;
            let mut j: usize = 0;
            let n = entries.len();
            while j < n
                invariant
                    0 <= j <= n,
                    n == entries0.len(),
                    entries@ =~= entries0.skip(j as int),
                    events@ =~= seq![Event::BeginScanning] + entry_errors(
                        entries0.take(j as int),
                    ),
                    names@ =~= entry_names(entries0.take(j as int)),
                decreases n - j,
            {
                proof {
                    assert(entries0.take(j + 1).drop_last() =~= entries0.take(j as int));
                    assert(entries0.take(j + 1).last() == entries0[j as int]);
                }
                let ghost before = entries@;
                let entry = entries.remove(0);
                proof {
                    assert(entry == entries0[j as int]) by {
                        assert(before[0] == entries0.skip(j as int)[0]);
                    }
                    assert(entries@ =~= entries0.skip(j + 1)) by {
                        assert(forall|m: int|
                            0 <= m < entries@.len() ==> entries@[m] == before[m + 1]);
                    }
                }
                match entry {
                    None => {
                        events.push(Event::EncounterError(Operation::AccessEntry));
                        proof {
                            assert(events@ =~= seq![Event::BeginScanning] + entry_errors(
                                entries0.take(j + 1),
                            ));
                        }
                    },
                    Some(name) => {
                        names.push(name);
                        proof {
                            assert(events@ =~= seq![Event::BeginScanning] + entry_errors(
                                entries0.take(j + 1),
                            ));
                            assert(names@ =~= entry_names(entries0.take(j + 1)));
                        }
                    },
                }
                j = j + 1;
            }
            events.push(Event::FinishScanning);
            events.push(Event::ReceiveData(size));
            proof {
                assert(entries0.take(n as int) =~= entries0);
                assert(events@ =~= scan_events_spec(reading0));
                assert(names@ =~= scan_children_spec(reading0));
            }
            (events, Info { data: size, children: names })
        },
    }
}

/// Build the node for one visited path from its own weight and its fully
/// built children. Should the total weight not fit the weight type — a
/// sum no real filesystem reaches — the subtree is zeroed out like a
/// failed one, so aggregation stays well-defined.
pub fn assemble<Name>(name: Name, inode_data: u64, children: Vec<Tree<Name>>) -> (r: Tree<Name>)
    ensures
        inode_data + sum_data(views_of(children@)) <= u64::MAX ==> r@ == (TreeV::<Name> {
            name: name,
            data: (inode_data + sum_data(views_of(children@))) as u64,
            children: views_of(children@),
        }),
        inode_data + sum_data(views_of(children@)) > u64::MAX ==> r@ == (TreeV::<Name> {
            name: name,
            data: 0,
            children: Seq::empty(),
        }),
        (forall|i: int|
            0 <= i < views_of(children@).len() ==> (#[trigger] views_of(children@)[i]).wf())
            ==> r@.wf(),
{
    proof {
        lemma_views_of(children@);
        lemma_sum_data_nonneg(views_of(children@));
    }
    let ghost vs = views_of(children@);
    let mut sum: u128 = inode_data as u128;
    let mut i: usize = 0;
    while i < children.len()
        invariant
            0 <= i <= children@.len(),
            vs == views_of(children@),
            vs.len() == children@.len(),
            forall|j: int| 0 <= j < children@.len() ==> vs[j] == (#[trigger] children@[j])@,
            sum == inode_data + sum_data(vs.take(i as int)),
            sum <= inode_data + (i as int) * (u64::MAX as int),
        decreases children@.len() - i,
    {
        proof {
            lemma_sum_data_take_step(vs, i as int);
            lemma_mul_upper_bound(i as int, u64::MAX as int, u64::MAX as int, u64::MAX as int);
            assert((i + 1) * (u64::MAX as int) == i as int * (u64::MAX as int) + u64::MAX as int)
                by (nonlinear_arith);
        }
        sum = sum + (children[i].data as u128);
        i = i + 1;
    }
    proof {
        assert(vs.take(children@.len() as int) =~= vs);
    }
    if sum <= u64::MAX as u128 {
        Tree::dir(name, inode_data, children)
    } else {
        Tree::file(name, 0)
    }
}

/// Collapse the built root trees into the one tree to visualize: a single
/// root stands for itself; several roots are wrapped under a synthetic
/// total node of zero own weight, named `(total)`.
pub fn merge_roots(roots: Vec<Tree<String>>) -> (r: Tree<String>)
    requires
        roots@.len() >= 1,
    ensures
        roots@.len() == 1 ==> r@ == roots@[0]@,
        roots@.len() > 1 ==> r@.name@ == "(total)"@,
        roots@.len() > 1 && sum_data(views_of(roots@)) <= u64::MAX ==> r@.data == sum_data(
            views_of(roots@),
        ) && r@.children == views_of(roots@),
        roots@.len() > 1 && sum_data(views_of(roots@)) > u64::MAX ==> r@.data == 0
            && r@.children == Seq::<TreeV<String>>::empty(),
        (forall|i: int| 0 <= i < roots@.len() ==> (#[trigger] roots@[i])@.wf()) ==> r@.wf(),
{
    proof {
        lemma_views_of(roots@);
    }
    let mut roots = roots;
    if roots.len() == 1 {
        let r = roots.remove(0);
        r
    } else {
        let name = String::from_str("(total)");
        let r = assemble(name, 0, roots);
        proof {
            let vs = views_of(roots@);
            assert((forall|i: int| 0 <= i < roots@.len() ==> (#[trigger] roots@[i])@.wf()) ==> (
            forall|i: int| 0 <= i < vs.len() ==> (#[trigger] vs[i]).wf())) by {
                if forall|i: int| 0 <= i < roots@.len() ==> (#[trigger] roots@[i])@.wf() {
                    assert forall|i: int| 0 <= i < vs.len() implies (#[trigger] vs[i]).wf() by {
                        assert(vs[i] == (roots@[i])@);
                    }
                }
            }
            lemma_sum_data_nonneg(vs);
            if sum_data(vs) <= u64::MAX {
                assert(r@.children == vs);
                assert(r@.data == sum_data(vs));
            }
        }
        r
    }
}

} // verus!
