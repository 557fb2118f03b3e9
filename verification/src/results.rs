//! The text of a report: the names of submissions, and the sections that a match lists.

use crate::cli::SubFileMode;
use crate::order::{lemma_one_order, sort, sorted, Ranked};
use crate::paths::{file_name, file_name_of};
use crate::phase_iii::{entries_within, Entry};
use crate::text::{decimal, push_decimal, push_text};
use crate::{Doc, Sub};
use vstd::prelude::*;

verus! {

/// Sections stand in the order of their documents, within a document in the order of their
/// first lines, and with the same first line in the order of their last lines.
impl Ranked for Entry {
    open spec fn before(&self, other: &Self) -> bool {
        self.doc_idx < other.doc_idx || (self.doc_idx == other.doc_idx && (self.lines.0
            < other.lines.0 || (self.lines.0 == other.lines.0 && self.lines.1 <= other.lines.1)))
    }

    fn goes_before(&self, other: &Self) -> (b: bool) {
        self.doc_idx < other.doc_idx || (self.doc_idx == other.doc_idx && (self.lines.0
            < other.lines.0 || (self.lines.0 == other.lines.0 && self.lines.1 <= other.lines.1)))
    }

    proof fn lemma_total(a: &Self, b: &Self) {
    }

    proof fn lemma_transitive(a: &Self, b: &Self, c: &Self) {
    }
}

/// The sections of a match have one order only: whatever sorted sequence holds them, it is
/// the same, and so is the text that lists them.
pub proof fn lemma_entries_have_one_order(first: Seq<Entry>, second: Seq<Entry>)
    requires
        sorted(first),
        sorted(second),
        first.to_multiset() == second.to_multiset(),
    ensures
        first == second,
{
    assert forall|a: Entry, b: Entry| #[trigger] a.before(&b) && b.before(&a) implies a == b by {
        assert(a.lines == b.lines);
    }
    lemma_one_order(first, second);
}

/// The sections of `entries` in their order: see `lemma_entries_have_one_order`.
pub open spec fn in_order(entries: Seq<Entry>) -> Seq<Entry> {
    choose|order: Seq<Entry>| sorted(order) && order.to_multiset() == entries.to_multiset()
}

/// The name of a submission in a report: of a submission of several files the name of its
/// directory with a separator behind it, of a single file the name of the file.
pub open spec fn name_of(sub: Sub, mode: SubFileMode) -> Seq<char> {
    match mode {
        SubFileMode::Multi => file_name_of(sub.dir_name->0@) + "/"@,
        SubFileMode::Single => file_name_of(sub.documents@[0].path()),
    }
}

/// The name of a submission in a report.
pub fn sub_name(sub: &Sub, mode: &SubFileMode) -> (name: String)
    requires
        *mode is Multi ==> sub.dir_name is Some,
        *mode is Single ==> sub.documents@.len() > 0,
    ensures
        name@ == name_of(*sub, *mode),
{
    match mode {
        SubFileMode::Multi => {
            let mut name: String = match &sub.dir_name {
                Some(dir) => file_name(dir.as_str()),
                None => String::new(),
            };
            push_text(&mut name, "/");
            name
        },
        SubFileMode::Single => {
            match &sub.documents[0] {
                Doc::Processed(path, _) => file_name(path.as_str()),
                Doc::Unprocessed(path) => file_name(path.as_str()),
            }
        },
    }
}

/// The lines of a section as text: `line N` for one line, `lines A-B` for more.
pub open spec fn lines_text(lines: (i32, i32)) -> Seq<char> {
    if lines.1 > lines.0 {
        "lines "@ + decimal(lines.0 as int) + "-"@ + decimal(lines.1 as int)
    } else {
        "line "@ + decimal(lines.0 as int)
    }
}

/// A section as text: its lines, and before them, for a submission of several files, the
/// name of its document.
pub open spec fn entry_text(entry: Entry, sub: Sub, mode: SubFileMode) -> Seq<char> {
    match mode {
        SubFileMode::Multi => file_name_of(sub.documents@[entry.doc_idx as int].path()) + " "@
            + lines_text(entry.lines),
        SubFileMode::Single => lines_text(entry.lines),
    }
}

/// The sections of `entries` as text, each on a line of its own.
pub open spec fn entries_text(entries: Seq<Entry>, sub: Sub, mode: SubFileMode) -> Seq<char>
    decreases entries.len(),
{
    if entries.len() == 0 {
        Seq::empty()
    } else if entries.len() == 1 {
        entry_text(entries[0], sub, mode)
    } else {
        entries_text(entries.drop_last(), sub, mode) + "\n"@ + entry_text(entries.last(), sub, mode)
    }
}

/// Appends the text of one section.
fn push_entry(text: &mut String, entry: &Entry, sub: &Sub, mode: &SubFileMode)
    requires
        *mode is Multi ==> entry.doc_idx < sub.documents@.len(),
    ensures
        final(text)@ == old(text)@ + entry_text(*entry, *sub, *mode),
{
    let ghost start = text@;
    if let SubFileMode::Multi = mode {
        let name: String = match &sub.documents[entry.doc_idx] {
            Doc::Processed(path, _) => file_name(path.as_str()),
            Doc::Unprocessed(path) => file_name(path.as_str()),
        };
        push_text(text, name.as_str());
        push_text(text, " ");
    }
    let ghost prefixed = text@;
    let (first, last) = entry.lines;
    if last > first {
        push_text(text, "lines ");
        push_decimal(text, first as i64);
        push_text(text, "-");
        push_decimal(text, last as i64);
    } else {
        push_text(text, "line ");
        push_decimal(text, first as i64);
    }
    proof {
        assert(text@ =~= prefixed + lines_text(entry.lines));
        assert(text@ =~= start + entry_text(*entry, *sub, *mode));
    }
}

/// The text that lists the sections of a match in a submission: the sections in their
/// order, each on a line of its own.
pub fn format_entries(entries: &Vec<Entry>, sub: &Sub, mode: &SubFileMode) -> (text: String)
    requires
        *mode is Multi ==> entries_within(entries@, sub.documents@.len()),
    ensures
        sorted(in_order(entries@)),
        in_order(entries@).to_multiset() == entries@.to_multiset(),
        text@ == entries_text(in_order(entries@), *sub, *mode),
{
    broadcast use vstd::seq_lib::group_to_multiset_ensures;

    let mut copy: Vec<Entry> = Vec::new();
    let mut i: usize = 0;
    while i < entries.len()
        invariant
            i <= entries@.len(),
            copy@ == entries@.take(i as int),
        decreases entries.len() - i,
    {
        copy.push(entries[i]);
        i += 1;
        assert(copy@ =~= entries@.take(i as int));
    }
    assert(entries@.take(entries@.len() as int) =~= entries@);
    let order: Vec<Entry> = sort(copy);
    proof {
        lemma_entries_have_one_order(order@, in_order(entries@));
        if *mode is Multi {
            assert forall|j: int| 0 <= j < order@.len() implies (#[trigger] order@[j]).doc_idx
                < sub.documents@.len() by {
                assert(order@.contains(order@[j]));
                assert(entries@.to_multiset().count(order@[j]) > 0);
                assert(entries@.contains(order@[j]));
            }
        }
    }
    let mut text: String = String::new();
    let mut k: usize = 0;
    assert(order@.take(0) =~= Seq::<Entry>::empty());
    while k < order.len()
        invariant
            k <= order@.len(),
            *mode is Multi ==> forall|j: int|
                0 <= j < order@.len() ==> (#[trigger] order@[j]).doc_idx < sub.documents@.len(),
            text@ == entries_text(order@.take(k as int), *sub, *mode),
        decreases order.len() - k,
    {
        let ghost before = text@;
        if k > 0 {
            push_text(&mut text, "\n");
        }
        push_entry(&mut text, &order[k], sub, mode);
        k += 1;
        proof {
            let now = order@.take(k as int);
            assert(now.drop_last() =~= order@.take(k - 1));
            assert(now.last() == order@[k - 1]);
            if k == 1 {
                assert(before =~= Seq::<char>::empty());
                assert(text@ =~= entry_text(order@[0], *sub, *mode));
            }
        }
    }
    assert(order@.take(order@.len() as int) =~= order@);
    text
}

} // verus!
