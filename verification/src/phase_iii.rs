//! Common substrings of fingerprints in a pair of submissions.

use crate::fingerprint::Fingerprint;
use crate::order::{
    lemma_lex_transitive, lemma_lex_trichotomy, lex_before, lex_place, sort, sorted, Place, Ranked,
};
use crate::phase_i::sub_has_hash;
use crate::phase_ii::SubPair;
use crate::{Doc, Sub};
use std::collections::HashSet;
use vstd::prelude::*;

verus! {

/// A section of a document of a submission: the index of the document, and the lines, first
/// and last.
#[derive(Debug, PartialEq, Eq, PartialOrd, Ord, Hash, Clone, Copy)]
pub struct Entry {
    pub doc_idx: usize,
    pub lines: (i32, i32),
}

/// A string of fingerprint hashes that the two submissions share, with all the sections of
/// the one and all the sections of the other in which it stands. No section is listed twice.
#[derive(Debug, PartialEq, Eq, Clone)]
pub struct Match {
    pub size: usize,
    pub hashes: Vec<i64>,
    pub a_entries: Vec<Entry>,
    pub b_entries: Vec<Entry>,
}

/// A string of fingerprint hashes that the two submissions share, with the section of each
/// in which it stands.
#[derive(Debug, PartialEq, Eq, Hash, Clone)]
pub struct SubString {
    pub size: usize,
    pub hashes: Vec<i64>,
    pub a_entry: Entry,
    pub b_entry: Entry,
}

/// A common substring in specifications.
pub ghost struct SubStringView {
    pub size: nat,
    pub hashes: Seq<i64>,
    pub a_entry: Entry,
    pub b_entry: Entry,
}

impl View for SubString {
    type V = SubStringView;

    open spec fn view(&self) -> SubStringView {
        SubStringView {
            size: self.size as nat,
            hashes: self.hashes@,
            a_entry: self.a_entry,
            b_entry: self.b_entry,
        }
    }
}

/// The substrings of `subs` as they are in specifications.
pub open spec fn views(subs: Seq<SubString>) -> Seq<SubStringView> {
    Seq::new(subs.len(), |i: int| subs[i]@)
}

/// The fingerprints of a submission in one row: `None` stands before each document.
pub type FpVec = Vec<Option<Fingerprint>>;

/// The table of common substrings: a row for every slot of the one submission, a column for
/// every slot of the other.
pub type SubStrTable = Vec<Vec<usize>>;

// ---------------------------------------------------------------------------------------------
// Flattening

/// The slots of `docs`: before the fingerprints of each document stands a `None`.
pub open spec fn flattened(docs: Seq<Doc>) -> Seq<Option<Fingerprint>>
    decreases docs.len(),
{
    if docs.len() == 0 {
        Seq::empty()
    } else {
        flattened(docs.drop_last()) + seq![None::<Fingerprint>] + docs.last().fingerprints().map_values(
            |fp: Fingerprint| Some(fp),
        )
    }
}

/// All fingerprints of a submission in one vector, in the order of its documents, with a
/// `None` before each document.
pub fn flatten_docs(sub: &Sub) -> (flat: FpVec)
    requires
        sub.processed(),
    ensures
        flat@ == flattened(sub.documents@),
{
    let mut flat: Vec<Option<Fingerprint>> = Vec::new();
    let mut d: usize = 0;
    assert(sub.documents@.take(0) =~= Seq::<Doc>::empty());
    while d < sub.documents.len()
        invariant
            sub.processed(),
            d <= sub.documents.len(),
            flat@ == flattened(sub.documents@.take(d as int)),
        decreases sub.documents.len() - d,
    {
        let ghost before = flat@;
        flat.push(None);
        match &sub.documents[d] {
            Doc::Processed(_, fps) => {
                let mut i: usize = 0;
                while i < fps.len()
                    invariant
                        i <= fps.len(),
                        flat@ == before + seq![None::<Fingerprint>] + fps@.take(i as int).map_values(
                            |fp: Fingerprint| Some(fp),
                        ),
                    decreases fps.len() - i,
                {
                    flat.push(Some(fps[i]));
                    i += 1;
                    assert(fps@.take(i as int) =~= fps@.take(i - 1).push(fps@[i - 1]));
                    assert(flat@ =~= before + seq![None::<Fingerprint>] + fps@.take(
                        i as int,
                    ).map_values(|fp: Fingerprint| Some(fp)));
                }
                assert(fps@.take(fps@.len() as int) =~= fps@);
            },
            Doc::Unprocessed(_) => {},
        }
        d += 1;
        proof {
            let docs = sub.documents@.take(d as int);
            assert(docs.drop_last() =~= sub.documents@.take(d - 1));
            assert(docs.last() == sub.documents@[d - 1]);
        }
    }
    assert(sub.documents@.take(sub.documents@.len() as int) =~= sub.documents@);
    flat
}

// ---------------------------------------------------------------------------------------------
// The table

/// Whether the slots at `r` and `c` are fingerprints with the same hash.
pub open spec fn same_hash(
    rows: Seq<Option<Fingerprint>>,
    cols: Seq<Option<Fingerprint>>,
    r: int,
    c: int,
) -> bool {
    &&& 0 <= r < rows.len()
    &&& 0 <= c < cols.len()
    &&& rows[r] is Some
    &&& cols[c] is Some
    &&& rows[r]->0.hash == cols[c]->0.hash
}

/// The length of the longest common substring of fingerprints that ends at slot `r` of the
/// rows and slot `c` of the columns. A `None` ends every substring.
pub open spec fn common_len(
    rows: Seq<Option<Fingerprint>>,
    cols: Seq<Option<Fingerprint>>,
    r: int,
    c: int,
) -> nat
    decreases r + 1,
{
    if r >= 0 && same_hash(rows, cols, r, c) {
        common_len(rows, cols, r - 1, c - 1) + 1
    } else {
        0
    }
}

/// A common substring that ends at row `r` has `r + 1` fingerprints at most, and as many as
/// `c + 1` at most.
pub proof fn lemma_common_len_bound(
    rows: Seq<Option<Fingerprint>>,
    cols: Seq<Option<Fingerprint>>,
    r: int,
    c: int,
)
    ensures
        r >= 0 && c >= 0 ==> common_len(rows, cols, r, c) <= r + 1 && common_len(rows, cols, r, c)
            <= c + 1,
        r < 0 || c < 0 ==> common_len(rows, cols, r, c) == 0,
    decreases r + 1,
{
    if r >= 0 && same_hash(rows, cols, r, c) {
        lemma_common_len_bound(rows, cols, r - 1, c - 1);
    }
}

/// Whether `table` is the table of common substrings of `rows` and `cols`.
pub open spec fn is_table_of(
    table: Seq<Vec<usize>>,
    rows: Seq<Option<Fingerprint>>,
    cols: Seq<Option<Fingerprint>>,
) -> bool {
    &&& table.len() == rows.len()
    &&& forall|r: int| 0 <= r < table.len() ==> (#[trigger] table[r])@.len() == cols.len()
    &&& forall|r: int, c: int|
        0 <= r < rows.len() && 0 <= c < cols.len() ==> (#[trigger] table[r]@[c]) == common_len(
            rows,
            cols,
            r,
            c,
        )
}

/// The table of the longest common substrings of `rows` and `cols`: the cell at row `r` and
/// column `c` holds the length of the longest that ends there.
pub fn substr_table(rows: &FpVec, cols: &FpVec) -> (table: SubStrTable)
    ensures
        is_table_of(table@, rows@, cols@),
{
    let mut table: Vec<Vec<usize>> = Vec::new();
    let mut r: usize = 0;
    while r < rows.len()
        invariant
            r <= rows.len(),
            table@.len() == r,
            forall|i: int| 0 <= i < r ==> (#[trigger] table@[i])@.len() == cols@.len(),
            forall|i: int, c: int|
                0 <= i < r && 0 <= c < cols@.len() ==> (#[trigger] table@[i]@[c]) == common_len(
                    rows@,
                    cols@,
                    i,
                    c,
                ),
        decreases rows.len() - r,
    {
        let mut row: Vec<usize> = Vec::new();
        let mut c: usize = 0;
        while c < cols.len()
            invariant
                r < rows.len(),
                c <= cols.len(),
                table@.len() == r,
                row@.len() == c,
                forall|i: int| 0 <= i < r ==> (#[trigger] table@[i])@.len() == cols@.len(),
                forall|i: int, j: int|
                    0 <= i < r && 0 <= j < cols@.len() ==> (#[trigger] table@[i]@[j])
                        == common_len(rows@, cols@, i, j),
                forall|j: int| 0 <= j < c ==> #[trigger] row@[j] == common_len(rows@, cols@, r as int, j),
            decreases cols.len() - c,
        {
            let mut cell: usize = 0;
            if let (Some(row_fp), Some(col_fp)) = (&rows[r], &cols[c]) {
                if row_fp.hash == col_fp.hash {
                    let diag: usize = if r > 0 && c > 0 {
                        table[r - 1][c - 1]
                    } else {
                        0
                    };
                    proof {
                        lemma_common_len_bound(rows@, cols@, r - 1, c - 1);
                    }
                    cell = diag + 1;
                }
            }
            row.push(cell);
            c += 1;
        }
        table.push(row);
        r += 1;
    }
    table
}

// ---------------------------------------------------------------------------------------------
// Diagonals

/// Whether `table` has a row for every slot of `rows` and a column for every slot of `cols`,
/// and holds 0 wherever a slot is no fingerprint.
pub open spec fn fits(
    table: Seq<Vec<usize>>,
    rows: Seq<Option<Fingerprint>>,
    cols: Seq<Option<Fingerprint>>,
) -> bool {
    &&& table.len() == rows.len()
    &&& forall|r: int| 0 <= r < table.len() ==> (#[trigger] table[r])@.len() == cols.len()
    &&& forall|r: int, c: int|
        0 <= r < rows.len() && 0 <= c < cols.len() && (#[trigger] table[r]@[c]) != 0 ==> rows[r] is Some
            && cols[c] is Some
}

/// The table of two rows of slots fits them.
pub proof fn lemma_table_fits(
    table: Seq<Vec<usize>>,
    rows: Seq<Option<Fingerprint>>,
    cols: Seq<Option<Fingerprint>>,
)
    requires
        is_table_of(table, rows, cols),
    ensures
        fits(table, rows, cols),
{
}

/// The number of cells that are not 0 on the diagonal that goes down and right from row `r`
/// and column `c`, up to the first that is 0 or the edge of the table.
pub open spec fn diag_len(table: Seq<Vec<usize>>, r: int, c: int) -> nat
    decreases table.len() - r,
{
    if 0 <= r < table.len() && 0 <= c < table[r]@.len() && table[r]@[c] != 0 {
        1 + diag_len(table, r + 1, c + 1)
    } else {
        0
    }
}

/// The hashes of the `n` fingerprints from slot `from` on.
pub open spec fn hashes_from(slots: Seq<Option<Fingerprint>>, from: int, n: nat) -> Seq<i64> {
    Seq::new(n, |i: int| slots[from + i]->0.hash)
}

/// The least first line of the `n` fingerprints from slot `from` on.
pub open spec fn min_start(slots: Seq<Option<Fingerprint>>, from: int, n: nat) -> i32
    decreases n,
{
    if n <= 1 {
        slots[from]->0.lines.0
    } else {
        let before = min_start(slots, from, (n - 1) as nat);
        let here = slots[from + n - 1]->0.lines.0;
        if here < before {
            here
        } else {
            before
        }
    }
}

/// The greatest last line of the `n` fingerprints from slot `from` on.
pub open spec fn max_end(slots: Seq<Option<Fingerprint>>, from: int, n: nat) -> i32
    decreases n,
{
    if n <= 1 {
        slots[from]->0.lines.1
    } else {
        let before = max_end(slots, from, (n - 1) as nat);
        let here = slots[from + n - 1]->0.lines.1;
        if here > before {
            here
        } else {
            before
        }
    }
}

/// The section that the `n` fingerprints from slot `from` on cover, in document `doc_idx`:
/// from the least first line to the greatest last line.
pub open spec fn entry_of(slots: Seq<Option<Fingerprint>>, from: int, n: nat, doc_idx: usize) -> Entry {
    Entry { doc_idx, lines: (min_start(slots, from, n), max_end(slots, from, n)) }
}

/// The common substring on the diagonal that starts at row `r` and column `c`, in document
/// `docs.0` of the rows and document `docs.1` of the columns: the hashes of its fingerprints,
/// and the sections that they cover.
pub open spec fn diagonal_at(
    table: Seq<Vec<usize>>,
    rows: Seq<Option<Fingerprint>>,
    cols: Seq<Option<Fingerprint>>,
    r: int,
    c: int,
    docs: (usize, usize),
) -> SubStringView {
    let n = diag_len(table, r, c);
    SubStringView {
        size: n,
        hashes: hashes_from(rows, r, n),
        a_entry: entry_of(rows, r, n, docs.0),
        b_entry: entry_of(cols, c, n, docs.1),
    }
}

/// A diagonal stays inside the table.
pub proof fn lemma_diag_len(table: Seq<Vec<usize>>, r: int, c: int)
    requires
        0 <= r <= table.len(),
    ensures
        r + diag_len(table, r, c) <= table.len(),
    decreases table.len() - r,
{
    if 0 <= r < table.len() && 0 <= c < table[r]@.len() && table[r]@[c] != 0 {
        lemma_diag_len(table, r + 1, c + 1);
    }
}

/// Every cell of a diagonal, up to its length, lies in the table and is not 0.
pub proof fn lemma_diag_cells(table: Seq<Vec<usize>>, r: int, c: int, i: int)
    requires
        0 <= r,
        0 <= i < diag_len(table, r, c),
    ensures
        r + i < table.len(),
        0 <= c + i < table[r + i]@.len(),
        table[r + i]@[c + i] != 0,
        diag_len(table, r, c) == i + diag_len(table, r + i, c + i),
    decreases i,
{
    if i > 0 {
        lemma_diag_cells(table, r + 1, c + 1, i - 1);
    }
}

/// The common substring on the diagonal that starts at `coord`, a cell that holds 1: the
/// hashes of its fingerprints, and the sections of the two documents `docs` that they cover.
pub fn trace_diagonal(
    table: &SubStrTable,
    dims: (&FpVec, &FpVec),
    coord: (usize, usize),
    docs: (usize, usize),
) -> (sub: SubString)
    requires
        fits(table@, dims.0@, dims.1@),
        coord.0 < dims.0@.len(),
        coord.1 < dims.1@.len(),
        table@[coord.0 as int]@[coord.1 as int] == 1,
    ensures
        sub@ == diagonal_at(table@, dims.0@, dims.1@, coord.0 as int, coord.1 as int, docs),
        sub.size >= 1,
{
    let (rows, cols) = dims;
    let (r0, c0) = coord;
    let mut r: usize = r0;
    let mut c: usize = c0;
    let mut hashes: Vec<i64> = Vec::new();
    let first_a: Fingerprint = rows[r0].unwrap();
    let first_b: Fingerprint = cols[c0].unwrap();
    let mut a_lines: (i32, i32) = first_a.lines;
    let mut b_lines: (i32, i32) = first_b.lines;
    while r < rows.len() && c < cols.len() && table[r][c] != 0
        invariant
            fits(table@, rows@, cols@),
            r0 < rows@.len(),
            c0 < cols@.len(),
            table@[r0 as int]@[c0 as int] == 1,
            r0 <= r <= rows@.len(),
            c0 <= c <= cols@.len(),
            r - r0 == c - c0,
            hashes@.len() == r - r0,
            hashes@ == hashes_from(rows@, r0 as int, (r - r0) as nat),
            diag_len(table@, r0 as int, c0 as int) == (r - r0) + diag_len(table@, r as int, c as int),
            a_lines.0 == min_start(rows@, r0 as int, (r - r0) as nat),
            a_lines.1 == max_end(rows@, r0 as int, (r - r0) as nat),
            b_lines.0 == min_start(cols@, c0 as int, (r - r0) as nat),
            b_lines.1 == max_end(cols@, c0 as int, (r - r0) as nat),
        decreases rows@.len() - r,
    {
        let a_elt: Fingerprint = rows[r].unwrap();
        let b_elt: Fingerprint = cols[c].unwrap();
        let ghost before = hashes@;
        hashes.push(a_elt.hash);
        if r > r0 {
            a_lines = (
                if a_elt.lines.0 < a_lines.0 {
                    a_elt.lines.0
                } else {
                    a_lines.0
                },
                if a_elt.lines.1 > a_lines.1 {
                    a_elt.lines.1
                } else {
                    a_lines.1
                },
            );
            b_lines = (
                if b_elt.lines.0 < b_lines.0 {
                    b_elt.lines.0
                } else {
                    b_lines.0
                },
                if b_elt.lines.1 > b_lines.1 {
                    b_elt.lines.1
                } else {
                    b_lines.1
                },
            );
        }
        r += 1;
        c += 1;
        assert(hashes@ =~= hashes_from(rows@, r0 as int, (r - r0) as nat));
    }
    SubString {
        size: hashes.len(),
        hashes: hashes,
        a_entry: Entry { doc_idx: docs.0, lines: a_lines },
        b_entry: Entry { doc_idx: docs.1, lines: b_lines },
    }
}

// ---------------------------------------------------------------------------------------------
// Choosing among the substrings of one dimension

/// How much a substring counts in the choice for a fingerprint: a longer one counts more, and
/// of two of one length the one that has been chosen before.
pub open spec fn rank(sizes: Seq<usize>, seen: Set<usize>, idx: usize) -> int {
    2 * sizes[idx as int] + if seen.contains(idx) {
        1int
    } else {
        0int
    }
}

/// The place, among the first `n` of `list`, of the first substring that counts most.
pub open spec fn best_pos(list: Seq<usize>, sizes: Seq<usize>, seen: Set<usize>, n: nat) -> int
    decreases n,
{
    if n <= 1 {
        0
    } else {
        let p = best_pos(list, sizes, seen, (n - 1) as nat);
        if rank(sizes, seen, list[n - 1]) > rank(sizes, seen, list[p]) {
            n - 1
        } else {
            p
        }
    }
}

/// What the first `n` fingerprints of a dimension add to `chosen`. For each fingerprint in
/// turn, the substring that counts most among those that hold it is taken, the first of them
/// in its list; it is added unless it has been chosen already.
pub open spec fn chosen_upto(
    lists: Seq<Seq<usize>>,
    sizes: Seq<usize>,
    chosen: Set<usize>,
    n: nat,
) -> Set<usize>
    decreases n,
{
    if n == 0 {
        Set::empty()
    } else {
        let before = chosen_upto(lists, sizes, chosen, (n - 1) as nat);
        let list = lists[n - 1];
        let seen = chosen + before;
        if list.len() == 0 {
            before
        } else {
            let idx = list[best_pos(list, sizes, seen, list.len())];
            if seen.contains(idx) {
                before
            } else {
                before.insert(idx)
            }
        }
    }
}

/// The first substring that counts most stands in the list, none of the list counts more,
/// and none before it counts as much.
pub proof fn lemma_best_pos(list: Seq<usize>, sizes: Seq<usize>, seen: Set<usize>, n: nat)
    requires
        1 <= n <= list.len(),
    ensures
        0 <= best_pos(list, sizes, seen, n) < n,
        forall|j: int|
            0 <= j < n ==> rank(sizes, seen, #[trigger] list[j]) <= rank(
                sizes,
                seen,
                list[best_pos(list, sizes, seen, n)],
            ),
        forall|j: int|
            0 <= j < best_pos(list, sizes, seen, n) ==> rank(sizes, seen, #[trigger] list[j]) < rank(
                sizes,
                seen,
                list[best_pos(list, sizes, seen, n)],
            ),
    decreases n,
{
    if n > 1 {
        lemma_best_pos(list, sizes, seen, (n - 1) as nat);
    }
}

/// Whether every entry of `lists` is an index into a vector of `len` substrings.
pub open spec fn lists_within(lists: Seq<Vec<usize>>, len: nat) -> bool {
    forall|d: int, i: int|
        0 <= d < lists.len() && 0 <= i < lists[d]@.len() ==> (#[trigger] lists[d]@[i]) < len
}

/// For every fingerprint of a dimension that some substring holds, one of the substrings
/// that hold it has been chosen, before or now.
pub proof fn lemma_chosen_covers(
    lists: Seq<Seq<usize>>,
    sizes: Seq<usize>,
    chosen: Set<usize>,
    n: nat,
    d: int,
)
    requires
        0 <= d < n <= lists.len(),
        lists[d].len() > 0,
    ensures
        exists|i: int|
            0 <= i < lists[d].len() && (chosen + chosen_upto(lists, sizes, chosen, n)).contains(
                #[trigger] lists[d][i],
            ),
    decreases n,
{
    let before = chosen_upto(lists, sizes, chosen, (n - 1) as nat);
    if d == n - 1 {
        let list = lists[d];
        let seen = chosen + before;
        lemma_best_pos(list, sizes, seen, list.len());
        let p = best_pos(list, sizes, seen, list.len());
        assert((chosen + chosen_upto(lists, sizes, chosen, n)).contains(list[p]));
    } else {
        lemma_chosen_covers(lists, sizes, chosen, (n - 1) as nat, d);
        let i = choose|i: int|
            0 <= i < lists[d].len() && (chosen + before).contains(#[trigger] lists[d][i]);
        assert((chosen + chosen_upto(lists, sizes, chosen, n)).contains(lists[d][i]));
    }
}

/// The lists of a vector of vectors.
pub open spec fn lists_of(lists: Seq<Vec<usize>>) -> Seq<Seq<usize>> {
    Seq::new(lists.len(), |d: int| lists[d]@)
}

/// The sizes of the substrings of `all`.
pub open spec fn sizes_of(all: Seq<SubString>) -> Seq<usize> {
    Seq::new(all.len(), |i: int| all[i].size)
}

/// The substrings to add to `chosen` for the fingerprints of one dimension, so that of every
/// fingerprint that some substring holds a longest such substring is chosen: see
/// `chosen_upto`. `dim_to_substrs[d]` lists the substrings that hold fingerprint `d`, as
/// indices into `all_substrs`.
pub fn choose_for_dim(
    dim_to_substrs: &Vec<Vec<usize>>,
    all_substrs: &Vec<SubString>,
    chosen: &HashSet<usize>,
) -> (chosen_this_dim: HashSet<usize>)
    requires
        lists_within(dim_to_substrs@, all_substrs@.len()),
    ensures
        chosen_this_dim@ == chosen_upto(
            lists_of(dim_to_substrs@),
            sizes_of(all_substrs@),
            chosen@,
            dim_to_substrs@.len(),
        ),
{
    broadcast use vstd::std_specs::hash::group_hash_axioms;

    let mut chosen_this_dim: HashSet<usize> = HashSet::new();
    let mut d: usize = 0;
    while d < dim_to_substrs.len()
        invariant
            lists_within(dim_to_substrs@, all_substrs@.len()),
            d <= dim_to_substrs.len(),
            chosen_this_dim@ == chosen_upto(
                lists_of(dim_to_substrs@),
                sizes_of(all_substrs@),
                chosen@,
                d as nat,
            ),
        decreases dim_to_substrs.len() - d,
    {
        let list: &Vec<usize> = &dim_to_substrs[d];
        let ghost seen = chosen@ + chosen_this_dim@;
        if list.len() > 0 {
            let mut best: usize = 0;
            let mut best_chosen: bool = chosen.contains(&list[0]) || chosen_this_dim.contains(
                &list[0],
            );
            let mut i: usize = 1;
            while i < list.len()
                invariant
                    lists_within(dim_to_substrs@, all_substrs@.len()),
                    d < dim_to_substrs.len(),
                    list@ == dim_to_substrs@[d as int]@,
                    seen == chosen@ + chosen_this_dim@,
                    1 <= i <= list.len(),
                    best == best_pos(list@, sizes_of(all_substrs@), seen, i as nat),
                    0 <= best < i,
                    best_chosen == seen.contains(list@[best as int]),
                decreases list.len() - i,
            {
                let idx: usize = list[i];
                let this_chosen: bool = chosen.contains(&idx) || chosen_this_dim.contains(&idx);
                assert(idx < all_substrs@.len()) by {
                    assert(dim_to_substrs@[d as int]@[i as int] < all_substrs@.len());
                }
                assert(list@[best as int] < all_substrs@.len()) by {
                    assert(dim_to_substrs@[d as int]@[best as int] < all_substrs@.len());
                }
                let max_size: usize = all_substrs[list[best]].size;
                let this_size: usize = all_substrs[idx].size;
                if this_size > max_size || (!best_chosen && this_size == max_size && this_chosen) {
                    best = i;
                    best_chosen = this_chosen;
                }
                i += 1;
            }
            if !best_chosen {
                chosen_this_dim.insert(list[best]);
            }
        }
        d += 1;
    }
    chosen_this_dim
}

// ---------------------------------------------------------------------------------------------
// The substrings of a table, in the order of preference

/// The document that slot `i` belongs to: the number of `None` after the first slot, up to
/// `i`.
pub open spec fn doc_of(slots: Seq<Option<Fingerprint>>, i: int) -> nat
    decreases i,
{
    if i <= 0 {
        0
    } else {
        doc_of(slots, i - 1) + if slots[i] is None {
            1nat
        } else {
            0nat
        }
    }
}

/// A slot belongs to a document whose number is no greater than the place of the slot.
pub proof fn lemma_doc_of_bound(slots: Seq<Option<Fingerprint>>, i: int)
    ensures
        doc_of(slots, i) <= i || i < 0,
    decreases i,
{
    if i > 0 {
        lemma_doc_of_bound(slots, i - 1);
    }
}

/// The document of every slot.
fn doc_indices(slots: &FpVec) -> (docs: Vec<usize>)
    ensures
        docs@.len() == slots@.len(),
        forall|i: int| 0 <= i < docs@.len() ==> #[trigger] docs@[i] == doc_of(slots@, i),
{
    let mut docs: Vec<usize> = Vec::new();
    let mut doc: usize = 0;
    let mut i: usize = 0;
    while i < slots.len()
        invariant
            i <= slots.len(),
            docs@.len() == i,
            forall|j: int| 0 <= j < i ==> #[trigger] docs@[j] == doc_of(slots@, j),
            i > 0 ==> doc == doc_of(slots@, i - 1),
            i == 0 ==> doc == 0,
        decreases slots.len() - i,
    {
        proof {
            lemma_doc_of_bound(slots@, i - 1);
        }
        if i > 0 && slots[i].is_none() {
            doc += 1;
        }
        docs.push(doc);
        i += 1;
    }
    docs
}

/// Whether the cell at row `r` and column `c` starts a diagonal: it holds 1.
pub open spec fn is_start(table: Seq<Vec<usize>>, r: int, c: int) -> bool {
    0 <= r < table.len() && 0 <= c < table[r]@.len() && table[r]@[c] == 1
}

/// The substring of the diagonal that starts at row `r` and column `c`.
pub open spec fn substring_at(
    table: Seq<Vec<usize>>,
    rows: Seq<Option<Fingerprint>>,
    cols: Seq<Option<Fingerprint>>,
    r: int,
    c: int,
) -> SubStringView {
    diagonal_at(table, rows, cols, r, c, (doc_of(rows, r) as usize, doc_of(cols, c) as usize))
}

/// Whether the diagonal that starts at `x` is preferred to the one that starts at `y`, where
/// both are as long and as much chosen: the one that starts further right is, then the one
/// whose hashes come first in the order of the dictionary, then the one that starts higher.
pub open spec fn prefers(
    table: Seq<Vec<usize>>,
    rows: Seq<Option<Fingerprint>>,
    x: (int, int),
    y: (int, int),
) -> bool {
    let hx = hashes_from(rows, x.0, diag_len(table, x.0, x.1));
    let hy = hashes_from(rows, y.0, diag_len(table, y.0, y.1));
    x.1 > y.1 || (x.1 == y.1 && (lex_before(hx, hy) || (hx == hy && x.0 <= y.0)))
}

/// Whether `order` holds the start of every diagonal of `table` once, each before all that
/// it is preferred to.
pub open spec fn is_start_order(
    order: Seq<(int, int)>,
    table: Seq<Vec<usize>>,
    rows: Seq<Option<Fingerprint>>,
) -> bool {
    &&& order.len() <= usize::MAX
    &&& forall|i: int| 0 <= i < order.len() ==> is_start(table, (#[trigger] order[i]).0, order[i].1)
    &&& forall|r: int, c: int| #[trigger] is_start(table, r, c) ==> order.contains((r, c))
    &&& forall|i: int, j: int|
        0 <= i < j < order.len() ==> (#[trigger] order[i]) != (#[trigger] order[j]) && prefers(
            table,
            rows,
            order[i],
            order[j],
        )
}

/// There is one order of preference only: two sequences that hold the start of every
/// diagonal once, each before all that it is preferred to, are the same sequence.
pub proof fn lemma_one_start_order(
    first: Seq<(int, int)>,
    second: Seq<(int, int)>,
    table: Seq<Vec<usize>>,
    rows: Seq<Option<Fingerprint>>,
)
    requires
        is_start_order(first, table, rows),
        is_start_order(second, table, rows),
    ensures
        first == second,
{
    broadcast use vstd::seq_lib::group_to_multiset_ensures;

    let leq = |x: (int, int), y: (int, int)| prefers(table, rows, x, y);
    assert(vstd::relations::total_ordering(leq)) by {
        assert forall|x: (int, int)| #[trigger] leq(x, x) by {}
        assert forall|x: (int, int), y: (int, int)| #[trigger] leq(x, y) || #[trigger] leq(y, x) by {
            lemma_lex_trichotomy(
                hashes_from(rows, x.0, diag_len(table, x.0, x.1)),
                hashes_from(rows, y.0, diag_len(table, y.0, y.1)),
            );
        }
        assert forall|x: (int, int), y: (int, int)| #[trigger] leq(x, y) && #[trigger] leq(
            y,
            x,
        ) implies x == y by {
            lemma_lex_trichotomy(
                hashes_from(rows, x.0, diag_len(table, x.0, x.1)),
                hashes_from(rows, y.0, diag_len(table, y.0, y.1)),
            );
        }
        assert forall|x: (int, int), y: (int, int), z: (int, int)| #[trigger] leq(x, y)
            && #[trigger] leq(y, z) implies leq(x, z) by {
            let hx = hashes_from(rows, x.0, diag_len(table, x.0, x.1));
            let hy = hashes_from(rows, y.0, diag_len(table, y.0, y.1));
            let hz = hashes_from(rows, z.0, diag_len(table, z.0, z.1));
            lemma_lex_trichotomy(hx, hy);
            lemma_lex_trichotomy(hy, hz);
            lemma_lex_trichotomy(hx, hz);
            if lex_before(hx, hy) && lex_before(hy, hz) {
                lemma_lex_transitive(hx, hy, hz);
            }
        }
    }
    assert(vstd::relations::sorted_by(first, leq)) by {
        assert forall|i: int, j: int| 0 <= i < j < first.len() implies #[trigger] leq(
            first[i],
            first[j],
        ) by {
            assert(prefers(table, rows, first[i], first[j]));
        }
    }
    assert(vstd::relations::sorted_by(second, leq)) by {
        assert forall|i: int, j: int| 0 <= i < j < second.len() implies #[trigger] leq(
            second[i],
            second[j],
        ) by {
            assert(prefers(table, rows, second[i], second[j]));
        }
    }
    assert(first.no_duplicates()) by {
        assert forall|i: int, j: int| 0 <= i < first.len() && 0 <= j < first.len() && i != j implies first[i]
            != first[j] by {
            if i < j {
                assert(first[i] != first[j]);
            } else {
                assert(first[j] != first[i]);
            }
        }
    }
    assert(second.no_duplicates()) by {
        assert forall|i: int, j: int|
            0 <= i < second.len() && 0 <= j < second.len() && i != j implies second[i]
            != second[j] by {
            if i < j {
                assert(second[i] != second[j]);
            } else {
                assert(second[j] != second[i]);
            }
        }
    }
    first.lemma_multiset_has_no_duplicates();
    second.lemma_multiset_has_no_duplicates();
    assert(first.to_multiset() =~= second.to_multiset()) by {
        assert forall|cell: (int, int)| first.to_multiset().count(cell) == second.to_multiset().count(
            cell,
        ) by {
            if first.contains(cell) {
                let i = choose|i: int| 0 <= i < first.len() && first[i] == cell;
                assert(is_start(table, first[i].0, first[i].1));
                assert(second.contains((cell.0, cell.1)));
            }
            if second.contains(cell) {
                let i = choose|i: int| 0 <= i < second.len() && second[i] == cell;
                assert(is_start(table, second[i].0, second[i].1));
                assert(first.contains((cell.0, cell.1)));
            }
        }
    }
    vstd::seq_lib::lemma_sorted_unique(first, second, leq);
}

/// The starts of the diagonals of `table` in the order of preference: see `is_start_order`,
/// which one sequence only meets.
pub open spec fn start_order(table: Seq<Vec<usize>>, rows: Seq<Option<Fingerprint>>) -> Seq<
    (int, int),
> {
    choose|order: Seq<(int, int)>| is_start_order(order, table, rows)
}

/// A diagonal of the table, with where it starts.
pub struct Candidate {
    pub sub: SubString,
    pub row: usize,
    pub col: usize,
}

impl Ranked for Candidate {
    open spec fn before(&self, other: &Self) -> bool {
        self.col > other.col || (self.col == other.col && (lex_before(
            self.sub.hashes@,
            other.sub.hashes@,
        ) || (self.sub.hashes@ == other.sub.hashes@ && self.row <= other.row)))
    }

    fn goes_before(&self, other: &Self) -> (b: bool) {
        if self.col != other.col {
            self.col > other.col
        } else {
            match lex_place(&self.sub.hashes, &other.sub.hashes) {
                Place::Before => true,
                Place::Same => self.row <= other.row,
                Place::After => false,
            }
        }
    }

    proof fn lemma_total(a: &Self, b: &Self) {
        lemma_lex_trichotomy(a.sub.hashes@, b.sub.hashes@);
    }

    proof fn lemma_transitive(a: &Self, b: &Self, c: &Self) {
        lemma_lex_trichotomy(a.sub.hashes@, b.sub.hashes@);
        lemma_lex_trichotomy(b.sub.hashes@, c.sub.hashes@);
        lemma_lex_trichotomy(a.sub.hashes@, c.sub.hashes@);
        if lex_before(a.sub.hashes@, b.sub.hashes@) && lex_before(b.sub.hashes@, c.sub.hashes@) {
            lemma_lex_transitive(a.sub.hashes@, b.sub.hashes@, c.sub.hashes@);
        }
    }
}

/// Whether `cand` is the diagonal that starts at its cell.
pub open spec fn valid_candidate(
    cand: Candidate,
    table: Seq<Vec<usize>>,
    rows: Seq<Option<Fingerprint>>,
    cols: Seq<Option<Fingerprint>>,
) -> bool {
    &&& is_start(table, cand.row as int, cand.col as int)
    &&& cand.sub@ == substring_at(table, rows, cols, cand.row as int, cand.col as int)
}

/// Whether one of `cands` starts at row `r` and column `c`.
pub open spec fn holds_cell(cands: Seq<Candidate>, r: int, c: int) -> bool {
    exists|i: int| 0 <= i < cands.len() && (#[trigger] cands[i]).row == r && cands[i].col == c
}

/// Whether `cands` are the diagonals of `table`, each once.
pub open spec fn all_diagonals(
    cands: Seq<Candidate>,
    table: Seq<Vec<usize>>,
    rows: Seq<Option<Fingerprint>>,
    cols: Seq<Option<Fingerprint>>,
) -> bool {
    &&& forall|i: int| 0 <= i < cands.len() ==> valid_candidate(#[trigger] cands[i], table, rows, cols)
    &&& forall|r: int, c: int| #[trigger] is_start(table, r, c) ==> holds_cell(cands, r, c)
    &&& forall|i: int, j: int|
        0 <= i < cands.len() && 0 <= j < cands.len() && i != j ==> !((#[trigger] cands[i]).row == (
        #[trigger] cands[j]).row && cands[i].col == cands[j].col)
}

/// The diagonals of `table`, in the order of rows and columns.
#[verifier::rlimit(40)]
fn find_candidates(rows: &FpVec, cols: &FpVec, table: &SubStrTable) -> (cands: Vec<Candidate>)
    requires
        fits(table@, rows@, cols@),
    ensures
        all_diagonals(cands@, table@, rows@, cols@),
{
    let a_docs: Vec<usize> = doc_indices(rows);
    let b_docs: Vec<usize> = doc_indices(cols);
    let mut cands: Vec<Candidate> = Vec::new();
    let mut r: usize = 0;
    while r < rows.len()
        invariant
            fits(table@, rows@, cols@),
            r <= rows@.len(),
            a_docs@.len() == rows@.len(),
            b_docs@.len() == cols@.len(),
            forall|i: int| 0 <= i < a_docs@.len() ==> #[trigger] a_docs@[i] == doc_of(rows@, i),
            forall|i: int| 0 <= i < b_docs@.len() ==> #[trigger] b_docs@[i] == doc_of(cols@, i),
            forall|i: int|
                0 <= i < cands@.len() ==> valid_candidate(#[trigger] cands@[i], table@, rows@, cols@)
                    && cands@[i].row < r,
            forall|x: int, y: int| x < r && #[trigger] is_start(table@, x, y) ==> holds_cell(cands@, x, y),
            forall|i: int, j: int|
                0 <= i < cands@.len() && 0 <= j < cands@.len() && i != j ==> !((
                #[trigger] cands@[i]).row == (#[trigger] cands@[j]).row && cands@[i].col
                    == cands@[j].col),
        decreases rows.len() - r,
    {
        let mut c: usize = 0;
        while c < cols.len()
            invariant
                fits(table@, rows@, cols@),
                r < rows@.len(),
                c <= cols@.len(),
                a_docs@.len() == rows@.len(),
                b_docs@.len() == cols@.len(),
                forall|i: int| 0 <= i < a_docs@.len() ==> #[trigger] a_docs@[i] == doc_of(rows@, i),
                forall|i: int| 0 <= i < b_docs@.len() ==> #[trigger] b_docs@[i] == doc_of(cols@, i),
                forall|i: int|
                    0 <= i < cands@.len() ==> valid_candidate(
                        #[trigger] cands@[i],
                        table@,
                        rows@,
                        cols@,
                    ) && (cands@[i].row < r || (cands@[i].row == r && cands@[i].col < c)),
                forall|x: int, y: int|
                    (x < r || (x == r && y < c)) && #[trigger] is_start(table@, x, y) ==> holds_cell(
                        cands@,
                        x,
                        y,
                    ),
                forall|i: int, j: int|
                    0 <= i < cands@.len() && 0 <= j < cands@.len() && i != j ==> !((
                    #[trigger] cands@[i]).row == (#[trigger] cands@[j]).row && cands@[i].col
                        == cands@[j].col),
            decreases cols.len() - c,
        {
            let ghost before = cands@;
            if table[r][c] == 1 {
                let sub: SubString = trace_diagonal(table, (rows, cols), (r, c), (a_docs[r], b_docs[c]));
                cands.push(Candidate { sub: sub, row: r, col: c });
                assert(holds_cell(cands@, r as int, c as int)) by {
                    assert(cands@[before.len() as int].row == r);
                }
            }
            proof {
                assert forall|x: int, y: int|
                    (x < r || (x == r && y < c + 1)) && #[trigger] is_start(
                        table@,
                        x,
                        y,
                    ) implies holds_cell(cands@, x, y) by {
                    if x < r || (x == r && y < c) {
                        assert(holds_cell(before, x, y));
                        let i = choose|i: int|
                            0 <= i < before.len() && (#[trigger] before[i]).row == x && before[i].col
                                == y;
                        assert(cands@[i] == before[i]);
                    }
                }
            }
            c += 1;
        }
        r += 1;
    }
    proof {
        assert forall|x: int, y: int| #[trigger] is_start(table@, x, y) implies holds_cell(
            cands@,
            x,
            y,
        ) by {}
    }
    cands
}

/// What holds the same values as the diagonals of a table, each as often, holds the
/// diagonals of the table, each once.
proof fn lemma_same_candidates(
    scan: Seq<Candidate>,
    out: Seq<Candidate>,
    table: Seq<Vec<usize>>,
    rows: Seq<Option<Fingerprint>>,
    cols: Seq<Option<Fingerprint>>,
)
    requires
        all_diagonals(scan, table, rows, cols),
        out.to_multiset() == scan.to_multiset(),
    ensures
        all_diagonals(out, table, rows, cols),
{
    broadcast use vstd::seq_lib::group_to_multiset_ensures;

    assert forall|i: int| 0 <= i < out.len() implies valid_candidate(
        #[trigger] out[i],
        table,
        rows,
        cols,
    ) by {
        assert(out.contains(out[i]));
        assert(scan.to_multiset().count(out[i]) > 0);
        assert(scan.contains(out[i]));
        let k = choose|k: int| 0 <= k < scan.len() && scan[k] == out[i];
        assert(valid_candidate(scan[k], table, rows, cols));
    }
    assert forall|r: int, c: int| #[trigger] is_start(table, r, c) implies holds_cell(out, r, c) by {
        assert(holds_cell(scan, r, c));
        let k = choose|k: int| 0 <= k < scan.len() && (#[trigger] scan[k]).row == r && scan[k].col == c;
        assert(scan.contains(scan[k]));
        assert(out.to_multiset().count(scan[k]) > 0);
        assert(out.contains(scan[k]));
        let i = choose|i: int| 0 <= i < out.len() && out[i] == scan[k];
        assert(out[i].row == r && out[i].col == c);
    }
    assert(scan.no_duplicates()) by {
        assert forall|i: int, j: int| 0 <= i < scan.len() && 0 <= j < scan.len() && i != j implies scan[i]
            != scan[j] by {
            assert(!(scan[i].row == scan[j].row && scan[i].col == scan[j].col));
        }
    }
    scan.lemma_multiset_has_no_duplicates();
    out.lemma_multiset_has_no_duplicates_conv();
    assert forall|i: int, j: int| 0 <= i < out.len() && 0 <= j < out.len() && i != j implies !((
    #[trigger] out[i]).row == (#[trigger] out[j]).row && out[i].col == out[j].col) by {
        assert(out[i] != out[j]);
        assert(out.contains(out[i]));
        assert(out.contains(out[j]));
        assert(scan.to_multiset().count(out[i]) > 0);
        assert(scan.to_multiset().count(out[j]) > 0);
        assert(scan.contains(out[i]));
        assert(scan.contains(out[j]));
        let k1 = choose|k: int| 0 <= k < scan.len() && scan[k] == out[i];
        let k2 = choose|k: int| 0 <= k < scan.len() && scan[k] == out[j];
        assert(k1 != k2);
        assert(!(scan[k1].row == scan[k2].row && scan[k1].col == scan[k2].col));
    }
}

/// The cells at which `cands` start.
pub open spec fn cells_of(cands: Seq<Candidate>) -> Seq<(int, int)> {
    Seq::new(cands.len(), |i: int| (cands[i].row as int, cands[i].col as int))
}

/// The diagonals of a table, sorted, start in the order of preference.
proof fn lemma_sorted_is_start_order(
    cands: Seq<Candidate>,
    table: Seq<Vec<usize>>,
    rows: Seq<Option<Fingerprint>>,
    cols: Seq<Option<Fingerprint>>,
)
    requires
        all_diagonals(cands, table, rows, cols),
        sorted(cands),
        cands.len() <= usize::MAX,
    ensures
        is_start_order(cells_of(cands), table, rows),
{
    let order = cells_of(cands);
    assert forall|i: int| 0 <= i < order.len() implies is_start(
        table,
        (#[trigger] order[i]).0,
        order[i].1,
    ) by {
        assert(valid_candidate(cands[i], table, rows, cols));
    }
    assert forall|r: int, c: int| #[trigger] is_start(table, r, c) implies order.contains((r, c)) by {
        assert(holds_cell(cands, r, c));
        let i = choose|i: int| 0 <= i < cands.len() && (#[trigger] cands[i]).row == r && cands[i].col == c;
        assert(order[i] == (r, c));
    }
    assert forall|i: int, j: int| 0 <= i < j < order.len() implies (#[trigger] order[i]) != (
    #[trigger] order[j]) && prefers(table, rows, order[i], order[j]) by {
        assert(valid_candidate(cands[i], table, rows, cols));
        assert(valid_candidate(cands[j], table, rows, cols));
        assert(cands[i].before(&cands[j]));
        assert(!(cands[i].row == cands[j].row && cands[i].col == cands[j].col));
    }
}

// ---------------------------------------------------------------------------------------------
// Choosing the substrings of a pair

/// The substrings, among the first `n`, that hold the fingerprint at `line` of a dimension,
/// as indices, in their order. `firsts` says where each substring starts in the dimension.
pub open spec fn through(firsts: Seq<usize>, sizes: Seq<usize>, line: int, n: nat) -> Seq<usize>
    decreases n,
{
    if n == 0 {
        Seq::empty()
    } else {
        let before = through(firsts, sizes, line, (n - 1) as nat);
        if firsts[n - 1] <= line < firsts[n - 1] + sizes[n - 1] {
            before.push((n - 1) as usize)
        } else {
            before
        }
    }
}

/// For each of the `lines` fingerprints of a dimension, the substrings that hold it.
pub open spec fn lists_through(firsts: Seq<usize>, sizes: Seq<usize>, lines: nat) -> Seq<Seq<usize>> {
    Seq::new(lines, |line: int| through(firsts, sizes, line, firsts.len()))
}

/// A list holds indices below `n` only, and the index of a substring that holds the
/// fingerprint is in it.
pub proof fn lemma_through(firsts: Seq<usize>, sizes: Seq<usize>, line: int, n: nat)
    requires
        n <= usize::MAX,
    ensures
        forall|i: int|
            0 <= i < through(firsts, sizes, line, n).len() ==> (#[trigger] through(
                firsts,
                sizes,
                line,
                n,
            )[i]) < n,
        forall|k: usize|
            k < n && firsts[k as int] <= line < firsts[k as int] + sizes[k as int] ==> #[trigger] through(
                firsts,
                sizes,
                line,
                n,
            ).contains(k),
        forall|i: int|
            0 <= i < through(firsts, sizes, line, n).len() ==> firsts[(#[trigger] through(
                firsts,
                sizes,
                line,
                n,
            )[i]) as int] <= line < firsts[through(firsts, sizes, line, n)[i] as int] + sizes[through(
                firsts,
                sizes,
                line,
                n,
            )[i] as int],
    decreases n,
{
    if n > 0 {
        lemma_through(firsts, sizes, line, (n - 1) as nat);
        let before = through(firsts, sizes, line, (n - 1) as nat);
        let now = through(firsts, sizes, line, n);
        assert forall|k: usize|
            k < n && firsts[k as int] <= line < firsts[k as int] + sizes[k as int] implies #[trigger] now.contains(
            k,
        ) by {
            if k == n - 1 {
                assert(now[now.len() - 1] == k);
            } else {
                assert(before.contains(k));
                let i = choose|i: int| 0 <= i < before.len() && before[i] == k;
                assert(now[i] == k);
            }
        }
    }
}

/// For each of the `lines` fingerprints of a dimension, the substrings of `all` that hold it.
fn lists_for(firsts: &Vec<usize>, all: &Vec<SubString>, lines: usize) -> (lists: Vec<Vec<usize>>)
    requires
        firsts@.len() == all@.len(),
        forall|i: int| 0 <= i < all@.len() ==> #[trigger] firsts@[i] + all@[i].size <= lines,
    ensures
        lists@.len() == lines,
        lists_of(lists@) == lists_through(firsts@, sizes_of(all@), lines as nat),
        lists_within(lists@, all@.len()),
{
    let ghost sizes = sizes_of(all@);
    let mut lists: Vec<Vec<usize>> = Vec::new();
    let mut l: usize = 0;
    while l < lines
        invariant
            l <= lines,
            lists@.len() == l,
            forall|j: int| 0 <= j < l ==> (#[trigger] lists@[j])@ == Seq::<usize>::empty(),
        decreases lines - l,
    {
        lists.push(Vec::new());
        l += 1;
    }
    let mut idx: usize = 0;
    while idx < all.len()
        invariant
            sizes == sizes_of(all@),
            firsts@.len() == all@.len(),
            forall|i: int| 0 <= i < all@.len() ==> #[trigger] firsts@[i] + all@[i].size <= lines,
            idx <= all@.len(),
            lists@.len() == lines,
            forall|j: int|
                0 <= j < lines ==> (#[trigger] lists@[j])@ == through(firsts@, sizes, j, idx as nat),
        decreases all.len() - idx,
    {
        let first: usize = firsts[idx];
        let size: usize = all[idx].size;
        assert(firsts@[idx as int] + all@[idx as int].size <= lines);
        let mut i: usize = 0;
        while i < size
            invariant
                sizes == sizes_of(all@),
                idx < all@.len(),
                first == firsts@[idx as int],
                size == sizes[idx as int],
                first + size <= lines,
                i <= size,
                lists@.len() == lines,
                forall|j: int|
                    0 <= j < lines ==> (#[trigger] lists@[j])@ == if first <= j < first + i {
                        through(firsts@, sizes, j, (idx + 1) as nat)
                    } else {
                        through(firsts@, sizes, j, idx as nat)
                    },
            decreases size - i,
        {
            lists[first + i].push(idx);
            i += 1;
        }
        idx += 1;
    }
    proof {
        assert(lists_of(lists@) =~= lists_through(firsts@, sizes, lines as nat));
        assert forall|d: int, i: int|
            0 <= d < lists@.len() && 0 <= i < lists@[d]@.len() implies (#[trigger] lists@[d]@[i])
            < all@.len() by {
            lemma_through(firsts@, sizes, d, all@.len());
        }
    }
    lists
}

/// The lengths of the diagonals that start at the cells of `order`.
pub open spec fn order_sizes(order: Seq<(int, int)>, table: Seq<Vec<usize>>) -> Seq<usize> {
    Seq::new(order.len(), |i: int| diag_len(table, order[i].0, order[i].1) as usize)
}

/// The rows of the cells of `order`.
pub open spec fn order_rows(order: Seq<(int, int)>) -> Seq<usize> {
    Seq::new(order.len(), |i: int| order[i].0 as usize)
}

/// The columns of the cells of `order`.
pub open spec fn order_cols(order: Seq<(int, int)>) -> Seq<usize> {
    Seq::new(order.len(), |i: int| order[i].1 as usize)
}

/// The substrings of the diagonals that start at the cells of `order`.
pub open spec fn order_substrings(
    order: Seq<(int, int)>,
    table: Seq<Vec<usize>>,
    rows: Seq<Option<Fingerprint>>,
    cols: Seq<Option<Fingerprint>>,
) -> Seq<SubStringView> {
    Seq::new(order.len(), |i: int| substring_at(table, rows, cols, order[i].0, order[i].1))
}

/// What is chosen for the fingerprints of the rows.
pub open spec fn chosen_for_rows(order: Seq<(int, int)>, table: Seq<Vec<usize>>, nrows: nat) -> Set<
    usize,
> {
    let sizes = order_sizes(order, table);
    chosen_upto(lists_through(order_rows(order), sizes, nrows), sizes, Set::empty(), nrows)
}

/// What is chosen for the fingerprints of the columns, after the rows, and was not
/// chosen for a row.
pub open spec fn chosen_for_cols(
    order: Seq<(int, int)>,
    table: Seq<Vec<usize>>,
    nrows: nat,
    ncols: nat,
) -> Set<usize> {
    let sizes = order_sizes(order, table);
    chosen_upto(
        lists_through(order_cols(order), sizes, ncols),
        sizes,
        chosen_for_rows(order, table, nrows),
        ncols,
    )
}

/// The diagonals that are chosen, as indices into `order`: first for the fingerprints of
/// the rows, from the first to the last, then for those of the columns. For each fingerprint
/// a longest of the diagonals that hold it is taken; of several, one that is chosen already,
/// else the first in `order`.
pub open spec fn chosen_of(order: Seq<(int, int)>, table: Seq<Vec<usize>>, nrows: nat, ncols: nat) -> Set<
    usize,
> {
    chosen_for_rows(order, table, nrows) + chosen_for_cols(order, table, nrows, ncols)
}

/// The substrings, among the first `n` of `subs`, that are chosen, each once.
pub open spec fn picked(subs: Seq<SubStringView>, chosen: Set<usize>, n: nat) -> Seq<SubStringView>
    decreases n,
{
    if n == 0 {
        Seq::empty()
    } else {
        let before = picked(subs, chosen, (n - 1) as nat);
        if chosen.contains((n - 1) as usize) && !before.contains(subs[n - 1]) {
            before.push(subs[n - 1])
        } else {
            before
        }
    }
}

/// The substrings that are chosen where the diagonals are taken in `order`.
pub open spec fn chosen_substrings(
    order: Seq<(int, int)>,
    table: Seq<Vec<usize>>,
    rows: Seq<Option<Fingerprint>>,
    cols: Seq<Option<Fingerprint>>,
) -> Seq<SubStringView> {
    picked(
        order_substrings(order, table, rows, cols),
        chosen_of(order, table, rows.len(), cols.len()),
        order.len(),
    )
}

/// A copy of `sub`.
pub fn copy_substring(sub: &SubString) -> (copy: SubString)
    ensures
        copy@ == sub@,
{
    let mut hashes: Vec<i64> = Vec::new();
    let mut i: usize = 0;
    while i < sub.hashes.len()
        invariant
            i <= sub.hashes@.len(),
            hashes@ == sub.hashes@.take(i as int),
        decreases sub.hashes.len() - i,
    {
        hashes.push(sub.hashes[i]);
        i += 1;
        assert(hashes@ =~= sub.hashes@.take(i as int));
    }
    assert(sub.hashes@.take(sub.hashes@.len() as int) =~= sub.hashes@);
    SubString { size: sub.size, hashes: hashes, a_entry: sub.a_entry, b_entry: sub.b_entry }
}

/// Whether two sections are the same.
pub fn same_entry(a: &Entry, b: &Entry) -> (same: bool)
    ensures
        same == (*a == *b),
{
    a.doc_idx == b.doc_idx && a.lines.0 == b.lines.0 && a.lines.1 == b.lines.1
}

/// Whether two substrings are the same.
pub fn same_substring(a: &SubString, b: &SubString) -> (same: bool)
    ensures
        same == (a@ == b@),
{
    if a.size != b.size || !same_entry(&a.a_entry, &b.a_entry) || !same_entry(&a.b_entry, &b.b_entry) {
        return false;
    }
    match lex_place(&a.hashes, &b.hashes) {
        Place::Same => true,
        _ => false,
    }
}

/// Whether `subs` holds a substring that is the same as `sub`.
fn holds_substring(subs: &Vec<SubString>, sub: &SubString) -> (held: bool)
    ensures
        held == views(subs@).contains(sub@),
{
    let mut i: usize = 0;
    while i < subs.len()
        invariant
            i <= subs@.len(),
            forall|j: int| 0 <= j < i ==> views(subs@)[j] != sub@,
        decreases subs.len() - i,
    {
        if same_substring(&subs[i], sub) {
            assert(views(subs@)[i as int] == sub@);
            return true;
        }
        i += 1;
    }
    false
}

/// A diagonal lies inside the table.
pub proof fn lemma_diagonal_inside(
    table: Seq<Vec<usize>>,
    rows: Seq<Option<Fingerprint>>,
    cols: Seq<Option<Fingerprint>>,
    r: int,
    c: int,
)
    requires
        fits(table, rows, cols),
        0 <= r < rows.len(),
        0 <= c,
    ensures
        r + diag_len(table, r, c) <= rows.len(),
        c + diag_len(table, r, c) <= cols.len() || diag_len(table, r, c) == 0,
{
    lemma_diag_len(table, r, c);
    let n = diag_len(table, r, c);
    if n > 0 {
        lemma_diag_cells(table, r, c, n - 1);
    }
}

/// The common substrings that are reported for two rows of slots and their table, so that of
/// every fingerprint that stands in a common substring a longest such substring is
/// reported.
///
/// Every cell that holds 1 starts a diagonal, and every diagonal is a common substring. For
/// each fingerprint of the rows in turn, and then for each of the columns, a longest of the
/// diagonals that hold it is chosen: of several, one that is chosen already; else the one
/// that starts in the rightmost column; then the one whose hashes come first in the order
/// of the dictionary; then the one that starts highest. The chosen substrings are given
/// each once.
#[verifier::rlimit(40)]
pub fn choose_substrs(rows: &FpVec, cols: &FpVec, table: &SubStrTable) -> (chosen: Vec<SubString>)
    requires
        fits(table@, rows@, cols@),
    ensures
        is_start_order(start_order(table@, rows@), table@, rows@),
        views(chosen@) == chosen_substrings(start_order(table@, rows@), table@, rows@, cols@),
{
    broadcast use vstd::std_specs::hash::group_hash_axioms;

    let scan: Vec<Candidate> = find_candidates(rows, cols, table);
    let cands: Vec<Candidate> = sort(scan);
    let count: usize = cands.len();
    let ghost order = cells_of(cands@);
    proof {
        assert(cands@.len() == count);
        lemma_same_candidates(scan@, cands@, table@, rows@, cols@);
        lemma_sorted_is_start_order(cands@, table@, rows@, cols@);
        lemma_one_start_order(order, start_order(table@, rows@), table@, rows@);
    }
    let mut all_substrs: Vec<SubString> = Vec::new();
    let mut row_of: Vec<usize> = Vec::new();
    let mut col_of: Vec<usize> = Vec::new();
    let mut i: usize = 0;
    while i < count
        invariant
            fits(table@, rows@, cols@),
            all_diagonals(cands@, table@, rows@, cols@),
            count == cands@.len(),
            i <= cands@.len(),
            all_substrs@.len() == i,
            row_of@.len() == i,
            col_of@.len() == i,
            forall|j: int|
                0 <= j < i ==> (#[trigger] all_substrs@[j])@ == cands@[j].sub@ && row_of@[j]
                    == cands@[j].row && col_of@[j] == cands@[j].col,
        decreases count - i,
    {
        let ghost subs_before = all_substrs@;
        let ghost rows_before = row_of@;
        let ghost cols_before = col_of@;
        let copy: SubString = copy_substring(&cands[i].sub);
        all_substrs.push(copy);
        row_of.push(cands[i].row);
        col_of.push(cands[i].col);
        proof {
            assert forall|j: int| 0 <= j < i + 1 implies (#[trigger] all_substrs@[j])@ == cands@[j].sub@
                && row_of@[j] == cands@[j].row && col_of@[j] == cands@[j].col by {
                if j < i {
                    assert(all_substrs@[j] == subs_before[j]);
                    assert(row_of@[j] == rows_before[j]);
                    assert(col_of@[j] == cols_before[j]);
                }
            }
        }
        i += 1;
    }
    proof {
        assert forall|j: int| 0 <= j < all_substrs@.len() implies #[trigger] row_of@[j]
            + all_substrs@[j].size <= rows@.len() && col_of@[j] + all_substrs@[j].size
            <= cols@.len() by {
            assert(valid_candidate(cands@[j], table@, rows@, cols@));
            assert(all_substrs@[j]@ == cands@[j].sub@);
            lemma_diagonal_inside(table@, rows@, cols@, row_of@[j] as int, col_of@[j] as int);
        }
        assert(sizes_of(all_substrs@) =~= order_sizes(order, table@)) by {
            assert forall|j: int| 0 <= j < all_substrs@.len() implies sizes_of(all_substrs@)[j]
                == order_sizes(order, table@)[j] by {
                assert(valid_candidate(cands@[j], table@, rows@, cols@));
                assert(all_substrs@[j]@ == cands@[j].sub@);
            }
        }
        assert(row_of@ =~= order_rows(order)) by {
            assert forall|j: int| 0 <= j < row_of@.len() implies row_of@[j] == order_rows(order)[j] by {
                assert(all_substrs@[j]@ == cands@[j].sub@);
            }
        }
        assert(col_of@ =~= order_cols(order)) by {
            assert forall|j: int| 0 <= j < col_of@.len() implies col_of@[j] == order_cols(order)[j] by {
                assert(all_substrs@[j]@ == cands@[j].sub@);
            }
        }
        assert(views(all_substrs@) =~= order_substrings(order, table@, rows@, cols@)) by {
            assert forall|j: int| 0 <= j < all_substrs@.len() implies views(all_substrs@)[j]
                == order_substrings(order, table@, rows@, cols@)[j] by {
                assert(valid_candidate(cands@[j], table@, rows@, cols@));
                assert(all_substrs@[j]@ == cands@[j].sub@);
            }
        }
    }
    let row_to_substrs: Vec<Vec<usize>> = lists_for(&row_of, &all_substrs, rows.len());
    let col_to_substrs: Vec<Vec<usize>> = lists_for(&col_of, &all_substrs, cols.len());
    let none_chosen: HashSet<usize> = HashSet::new();
    let for_rows: HashSet<usize> = choose_for_dim(&row_to_substrs, &all_substrs, &none_chosen);
    let for_cols: HashSet<usize> = choose_for_dim(&col_to_substrs, &all_substrs, &for_rows);
    let ghost chosen_set = chosen_of(order, table@, rows@.len(), cols@.len());
    proof {
        assert(none_chosen@ =~= Set::<usize>::empty());
        assert(for_rows@ == chosen_for_rows(order, table@, rows@.len()));
        assert(for_cols@ == chosen_for_cols(order, table@, rows@.len(), cols@.len()));
    }
    let mut chosen: Vec<SubString> = Vec::new();
    let mut idx: usize = 0;
    assert(views(chosen@) =~= picked(views(all_substrs@), chosen_set, 0));
    while idx < all_substrs.len()
        invariant
            idx <= all_substrs@.len(),
            chosen_set == for_rows@ + for_cols@,
            views(chosen@) == picked(views(all_substrs@), chosen_set, idx as nat),
        decreases all_substrs.len() - idx,
    {
        let ghost before = views(chosen@);
        if (for_rows.contains(&idx) || for_cols.contains(&idx)) && !holds_substring(
            &chosen,
            &all_substrs[idx],
        ) {
            assert(views(all_substrs@)[idx as int] == all_substrs@[idx as int]@);
            chosen.push(copy_substring(&all_substrs[idx]));
            assert(views(chosen@) =~= before.push(all_substrs@[idx as int]@));
        } else {
            assert(views(all_substrs@)[idx as int] == all_substrs@[idx as int]@);
        }
        idx += 1;
    }
    proof {
        assert(views(chosen@) == chosen_substrings(order, table@, rows@, cols@));
    }
    chosen
}

// ---------------------------------------------------------------------------------------------
// Matches

/// Matches stand in the order of their size, the longest first; of one size, those with more
/// sections first; and with as many sections, in the order of the dictionary of their hashes.
impl Ranked for Match {
    open spec fn before(&self, other: &Self) -> bool {
        let mine = self.a_entries@.len() + self.b_entries@.len();
        let others = other.a_entries@.len() + other.b_entries@.len();
        self.size > other.size || (self.size == other.size && (mine > others || (mine == others
            && !lex_before(other.hashes@, self.hashes@))))
    }

    fn goes_before(&self, other: &Self) -> (b: bool) {
        if self.size != other.size {
            return self.size > other.size;
        }
        let mine: u128 = self.a_entries.len() as u128 + self.b_entries.len() as u128;
        let others: u128 = other.a_entries.len() as u128 + other.b_entries.len() as u128;
        if mine != others {
            return mine > others;
        }
        match lex_place(&self.hashes, &other.hashes) {
            Place::After => false,
            _ => true,
        }
    }

    proof fn lemma_total(a: &Self, b: &Self) {
        lemma_lex_trichotomy(a.hashes@, b.hashes@);
    }

    proof fn lemma_transitive(a: &Self, b: &Self, c: &Self) {
        lemma_lex_trichotomy(a.hashes@, b.hashes@);
        lemma_lex_trichotomy(b.hashes@, c.hashes@);
        lemma_lex_trichotomy(a.hashes@, c.hashes@);
        if lex_before(c.hashes@, a.hashes@) && lex_before(a.hashes@, b.hashes@) {
            lemma_lex_transitive(c.hashes@, a.hashes@, b.hashes@);
        }
    }
}

/// Whether one of `subs` has the hashes `hashes` and stands, in the submission `in_a` says,
/// in the section `entry`.
pub open spec fn stands_in(subs: Seq<SubStringView>, hashes: Seq<i64>, entry: Entry, in_a: bool) -> bool {
    exists|i: int|
        0 <= i < subs.len() && (#[trigger] subs[i]).hashes == hashes && (if in_a {
            subs[i].a_entry
        } else {
            subs[i].b_entry
        }) == entry
}

/// Whether one of `subs` has the hashes `hashes`.
pub open spec fn has_hashes(subs: Seq<SubStringView>, hashes: Seq<i64>) -> bool {
    exists|i: int| 0 <= i < subs.len() && (#[trigger] subs[i]).hashes == hashes
}

/// Whether one of `matches` has the hashes `hashes`.
pub open spec fn has_match(matches: Seq<Match>, hashes: Seq<i64>) -> bool {
    exists|i: int| 0 <= i < matches.len() && (#[trigger] matches[i]).hashes@ == hashes
}

/// Whether `m` is the match of its hashes among `subs`: it lists each section in which a
/// substring with these hashes stands, once, and no other.
pub open spec fn is_match_of(m: Match, subs: Seq<SubStringView>) -> bool {
    &&& m.size == m.hashes@.len()
    &&& has_hashes(subs, m.hashes@)
    &&& m.a_entries@.no_duplicates()
    &&& m.b_entries@.no_duplicates()
    &&& forall|e: Entry| m.a_entries@.contains(e) <==> stands_in(subs, m.hashes@, e, true)
    &&& forall|e: Entry| m.b_entries@.contains(e) <==> stands_in(subs, m.hashes@, e, false)
}

/// Whether `matches` are the matches of `subs`: one for each vector of hashes that a
/// substring has.
pub open spec fn are_matches_of(matches: Seq<Match>, subs: Seq<SubStringView>) -> bool {
    &&& forall|i: int| 0 <= i < matches.len() ==> is_match_of(#[trigger] matches[i], subs)
    &&& forall|i: int| 0 <= i < subs.len() ==> has_match(matches, (#[trigger] subs[i]).hashes)
    &&& forall|i: int, j: int|
        0 <= i < matches.len() && 0 <= j < matches.len() && i != j ==> (#[trigger] matches[i]).hashes@
            != (#[trigger] matches[j]).hashes@
}

/// Whether `entries` holds `entry`.
fn holds_entry(entries: &Vec<Entry>, entry: &Entry) -> (held: bool)
    ensures
        held == entries@.contains(*entry),
{
    let mut i: usize = 0;
    while i < entries.len()
        invariant
            i <= entries@.len(),
            forall|j: int| 0 <= j < i ==> entries@[j] != *entry,
        decreases entries.len() - i,
    {
        if same_entry(&entries[i], entry) {
            return true;
        }
        i += 1;
    }
    false
}

/// The place of the match with the hashes `hashes`; the number of matches if there is none.
fn find_match(matches: &Vec<Match>, hashes: &Vec<i64>) -> (at: usize)
    ensures
        at <= matches@.len(),
        at < matches@.len() ==> matches@[at as int].hashes@ == hashes@,
        forall|j: int| 0 <= j < at ==> (#[trigger] matches@[j]).hashes@ != hashes@,
{
    let mut at: usize = 0;
    while at < matches.len()
        invariant
            at <= matches@.len(),
            forall|j: int| 0 <= j < at ==> (#[trigger] matches@[j]).hashes@ != hashes@,
        decreases matches.len() - at,
    {
        match lex_place(&matches[at].hashes, hashes) {
            Place::Same => {
                return at;
            },
            _ => {},
        }
        at += 1;
    }
    at
}

/// Adds what `sub` says to the matches of the substrings before it.
#[verifier::rlimit(40)]
fn add_to_matches(matches: &mut Vec<Match>, sub: &SubString, Ghost(before): Ghost<Seq<SubStringView>>)
    requires
        are_matches_of(old(matches)@, before),
        sub.size == sub.hashes@.len(),
    ensures
        are_matches_of(final(matches)@, before.push(sub@)),
{
    let ghost now = before.push(sub@);
    let ghost old_matches = matches@;
    let at: usize = find_match(matches, &sub.hashes);
    proof {
        assert forall|h: Seq<i64>, e: Entry, in_a: bool| stands_in(before, h, e, in_a) implies stands_in(
            now,
            h,
            e,
            in_a,
        ) by {
            let i = choose|i: int|
                0 <= i < before.len() && (#[trigger] before[i]).hashes == h && (if in_a {
                    before[i].a_entry
                } else {
                    before[i].b_entry
                }) == e;
            assert(now[i] == before[i]);
        }
        assert forall|h: Seq<i64>| has_hashes(before, h) implies has_hashes(now, h) by {
            let i = choose|i: int| 0 <= i < before.len() && (#[trigger] before[i]).hashes == h;
            assert(now[i] == before[i]);
        }
        assert(now[before.len() as int] == sub@);
        assert(has_hashes(now, sub.hashes@));
        assert(stands_in(now, sub.hashes@, sub.a_entry, true));
        assert(stands_in(now, sub.hashes@, sub.b_entry, false));
        assert forall|h: Seq<i64>, e: Entry, in_a: bool| stands_in(now, h, e, in_a) implies stands_in(
            before,
            h,
            e,
            in_a,
        ) || (h == sub.hashes@ && e == if in_a {
            sub.a_entry
        } else {
            sub.b_entry
        }) by {
            let i = choose|i: int|
                0 <= i < now.len() && (#[trigger] now[i]).hashes == h && (if in_a {
                    now[i].a_entry
                } else {
                    now[i].b_entry
                }) == e;
            if i < before.len() {
                assert(before[i] == now[i]);
            }
        }
    }
    if at < matches.len() {
        let has_a: bool = holds_entry(&matches[at].a_entries, &sub.a_entry);
        let has_b: bool = holds_entry(&matches[at].b_entries, &sub.b_entry);
        if !has_a {
            matches[at].a_entries.push(sub.a_entry);
        }
        if !has_b {
            matches[at].b_entries.push(sub.b_entry);
        }
        proof {
            let m = matches@[at as int];
            let o = old_matches[at as int];
            assert(is_match_of(o, before));
            assert(m.hashes@ == sub.hashes@);
            assert forall|e: Entry| m.a_entries@.contains(e) <==> stands_in(now, m.hashes@, e, true) by {
                if has_a {
                    assert(m.a_entries@ == o.a_entries@);
                } else {
                    assert(m.a_entries@ =~= o.a_entries@.push(sub.a_entry));
                    assert(m.a_entries@[o.a_entries@.len() as int] == sub.a_entry);
                    if o.a_entries@.contains(e) {
                        let i = choose|i: int| 0 <= i < o.a_entries@.len() && o.a_entries@[i] == e;
                        assert(m.a_entries@[i] == e);
                    }
                    if m.a_entries@.contains(e) {
                        let i = choose|i: int| 0 <= i < m.a_entries@.len() && m.a_entries@[i] == e;
                        if i < o.a_entries@.len() {
                            assert(o.a_entries@[i] == e);
                        }
                    }
                }
            }
            assert forall|e: Entry| m.b_entries@.contains(e) <==> stands_in(now, m.hashes@, e, false) by {
                if has_b {
                    assert(m.b_entries@ == o.b_entries@);
                } else {
                    assert(m.b_entries@ =~= o.b_entries@.push(sub.b_entry));
                    assert(m.b_entries@[o.b_entries@.len() as int] == sub.b_entry);
                    if o.b_entries@.contains(e) {
                        let i = choose|i: int| 0 <= i < o.b_entries@.len() && o.b_entries@[i] == e;
                        assert(m.b_entries@[i] == e);
                    }
                    if m.b_entries@.contains(e) {
                        let i = choose|i: int| 0 <= i < m.b_entries@.len() && m.b_entries@[i] == e;
                        if i < o.b_entries@.len() {
                            assert(o.b_entries@[i] == e);
                        }
                    }
                }
            }
            assert(is_match_of(m, now));
            assert forall|i: int| 0 <= i < matches@.len() implies is_match_of(
                #[trigger] matches@[i],
                now,
            ) by {
                if i != at {
                    assert(matches@[i] == old_matches[i]);
                    assert(is_match_of(old_matches[i], before));
                    assert(old_matches[i].hashes@ != sub.hashes@);
                }
            }
            assert forall|i: int| 0 <= i < now.len() implies has_match(
                matches@,
                (#[trigger] now[i]).hashes,
            ) by {
                if i < before.len() {
                    assert(now[i] == before[i]);
                    assert(has_match(old_matches, before[i].hashes));
                    let j = choose|j: int|
                        0 <= j < old_matches.len() && (#[trigger] old_matches[j]).hashes@
                            == before[i].hashes;
                    assert(matches@[j].hashes@ == before[i].hashes);
                } else {
                    assert(matches@[at as int].hashes@ == now[i].hashes);
                }
            }
            assert forall|i: int, j: int|
                0 <= i < matches@.len() && 0 <= j < matches@.len() && i != j implies (
            #[trigger] matches@[i]).hashes@ != (#[trigger] matches@[j]).hashes@ by {
                assert(matches@[i].hashes@ == old_matches[i].hashes@);
                assert(matches@[j].hashes@ == old_matches[j].hashes@);
            }
        }
    } else {
        let copy: SubString = copy_substring(sub);
        let mut a_entries: Vec<Entry> = Vec::new();
        a_entries.push(sub.a_entry);
        let mut b_entries: Vec<Entry> = Vec::new();
        b_entries.push(sub.b_entry);
        matches.push(
            Match { size: sub.size, hashes: copy.hashes, a_entries: a_entries, b_entries: b_entries },
        );
        proof {
            let m = matches@[old_matches.len() as int];
            assert(!has_hashes(before, sub.hashes@)) by {
                if has_hashes(before, sub.hashes@) {
                    let i = choose|i: int|
                        0 <= i < before.len() && (#[trigger] before[i]).hashes == sub.hashes@;
                    assert(has_match(old_matches, before[i].hashes));
                    let j = choose|j: int|
                        0 <= j < old_matches.len() && (#[trigger] old_matches[j]).hashes@
                            == before[i].hashes;
                    assert(old_matches[j].hashes@ != sub.hashes@);
                }
            }
            assert forall|e: Entry, in_a: bool| !stands_in(before, sub.hashes@, e, in_a) by {
                if stands_in(before, sub.hashes@, e, in_a) {
                    let i = choose|i: int|
                        0 <= i < before.len() && (#[trigger] before[i]).hashes == sub.hashes@ && (
                        if in_a {
                            before[i].a_entry
                        } else {
                            before[i].b_entry
                        }) == e;
                    assert(has_hashes(before, sub.hashes@));
                }
            }
            assert forall|e: Entry| m.a_entries@.contains(e) <==> stands_in(now, m.hashes@, e, true) by {
                assert(m.a_entries@[0] == sub.a_entry);
                if m.a_entries@.contains(e) {
                    let i = choose|i: int| 0 <= i < m.a_entries@.len() && m.a_entries@[i] == e;
                    assert(e == sub.a_entry);
                }
            }
            assert forall|e: Entry| m.b_entries@.contains(e) <==> stands_in(now, m.hashes@, e, false) by {
                assert(m.b_entries@[0] == sub.b_entry);
                if m.b_entries@.contains(e) {
                    let i = choose|i: int| 0 <= i < m.b_entries@.len() && m.b_entries@[i] == e;
                    assert(e == sub.b_entry);
                }
            }
            assert(is_match_of(m, now));
            assert forall|i: int| 0 <= i < matches@.len() implies is_match_of(
                #[trigger] matches@[i],
                now,
            ) by {
                if i < old_matches.len() {
                    assert(matches@[i] == old_matches[i]);
                    assert(is_match_of(old_matches[i], before));
                    assert(old_matches[i].hashes@ != sub.hashes@);
                }
            }
            assert forall|i: int| 0 <= i < now.len() implies has_match(
                matches@,
                (#[trigger] now[i]).hashes,
            ) by {
                if i < before.len() {
                    assert(now[i] == before[i]);
                    assert(has_match(old_matches, before[i].hashes));
                    let j = choose|j: int|
                        0 <= j < old_matches.len() && (#[trigger] old_matches[j]).hashes@
                            == before[i].hashes;
                    assert(matches@[j] == old_matches[j]);
                } else {
                    assert(matches@[old_matches.len() as int].hashes@ == now[i].hashes);
                }
            }
            assert forall|i: int, j: int|
                0 <= i < matches@.len() && 0 <= j < matches@.len() && i != j implies (
            #[trigger] matches@[i]).hashes@ != (#[trigger] matches@[j]).hashes@ by {
                if i < old_matches.len() {
                    assert(matches@[i] == old_matches[i]);
                }
                if j < old_matches.len() {
                    assert(matches@[j] == old_matches[j]);
                }
            }
        }
    }
}

/// What holds the same matches, each as often, and in order, are the matches still.
proof fn lemma_same_matches(kept: Seq<Match>, out: Seq<Match>, subs: Seq<SubStringView>)
    requires
        out.to_multiset() == kept.to_multiset(),
        are_matches_of(kept, subs),
    ensures
        are_matches_of(out, subs),
{
    broadcast use vstd::seq_lib::group_to_multiset_ensures;

    assert forall|i: int| 0 <= i < out.len() implies kept.contains(#[trigger] out[i]) by {
        assert(out.contains(out[i]));
        assert(kept.to_multiset().count(out[i]) > 0);
    }
    assert forall|i: int| 0 <= i < out.len() implies is_match_of(#[trigger] out[i], subs) by {
        let k = choose|k: int| 0 <= k < kept.len() && kept[k] == out[i];
        assert(is_match_of(kept[k], subs));
    }
    assert forall|i: int| 0 <= i < subs.len() implies has_match(out, (#[trigger] subs[i]).hashes) by {
        assert(has_match(kept, subs[i].hashes));
        let k = choose|k: int| 0 <= k < kept.len() && (#[trigger] kept[k]).hashes@ == subs[i].hashes;
        assert(kept.contains(kept[k]));
        assert(out.to_multiset().count(kept[k]) > 0);
        assert(out.contains(kept[k]));
        let j = choose|j: int| 0 <= j < out.len() && out[j] == kept[k];
        assert(out[j].hashes@ == subs[i].hashes);
    }
    assert(kept.no_duplicates()) by {
        assert forall|i: int, j: int| 0 <= i < kept.len() && 0 <= j < kept.len() && i != j implies kept[i]
            != kept[j] by {
            assert(kept[i].hashes@ != kept[j].hashes@);
        }
    }
    kept.lemma_multiset_has_no_duplicates();
    out.lemma_multiset_has_no_duplicates_conv();
    assert forall|i: int, j: int| 0 <= i < out.len() && 0 <= j < out.len() && i != j implies (
    #[trigger] out[i]).hashes@ != (#[trigger] out[j]).hashes@ by {
        assert(out[i] != out[j]);
        let k1 = choose|k: int| 0 <= k < kept.len() && kept[k] == out[i];
        let k2 = choose|k: int| 0 <= k < kept.len() && kept[k] == out[j];
        assert(k1 != k2);
        assert(kept[k1].hashes@ != kept[k2].hashes@);
    }
}

/// The matches of the chosen substrings: one for each vector of hashes, with the sections of
/// all substrings that have it; the longest first.
pub fn assemble(chosen: &Vec<SubString>) -> (matches: Vec<Match>)
    requires
        forall|i: int| 0 <= i < chosen@.len() ==> (#[trigger] chosen@[i]).size == chosen@[i].hashes@.len(),
    ensures
        are_matches_of(matches@, views(chosen@)),
        sorted(matches@),
{
    let mut gathered: Vec<Match> = Vec::new();
    let mut i: usize = 0;
    assert(views(chosen@).take(0) =~= Seq::<SubStringView>::empty());
    while i < chosen.len()
        invariant
            i <= chosen@.len(),
            forall|j: int|
                0 <= j < chosen@.len() ==> (#[trigger] chosen@[j]).size == chosen@[j].hashes@.len(),
            are_matches_of(gathered@, views(chosen@).take(i as int)),
        decreases chosen.len() - i,
    {
        add_to_matches(&mut gathered, &chosen[i], Ghost(views(chosen@).take(i as int)));
        i += 1;
        assert(views(chosen@).take(i as int) =~= views(chosen@).take(i - 1).push(chosen@[i - 1]@));
    }
    assert(views(chosen@).take(chosen@.len() as int) =~= views(chosen@));
    let matches: Vec<Match> = sort(gathered);
    proof {
        lemma_same_matches(gathered@, matches@, views(chosen@));
    }
    matches
}

// ---------------------------------------------------------------------------------------------
// Every shared fingerprint stands in a match

/// A fingerprint of a document stands among the slots.
pub proof fn lemma_flattened_has(docs: Seq<Doc>, d: int, i: int)
    requires
        0 <= d < docs.len(),
        0 <= i < docs[d].fingerprints().len(),
    ensures
        exists|r: int|
            0 <= r < flattened(docs).len() && #[trigger] flattened(docs)[r] == Some(
                docs[d].fingerprints()[i],
            ),
    decreases docs.len(),
{
    let front = flattened(docs.drop_last());
    let fps = docs.last().fingerprints().map_values(|fp: Fingerprint| Some(fp));
    assert(flattened(docs) == front + seq![None::<Fingerprint>] + fps);
    if d == docs.len() - 1 {
        assert(flattened(docs)[front.len() + 1 + i] == Some(docs[d].fingerprints()[i]));
    } else {
        lemma_flattened_has(docs.drop_last(), d, i);
        let r = choose|r: int|
            0 <= r < front.len() && #[trigger] front[r] == Some(docs.drop_last()[d].fingerprints()[i]);
        assert(flattened(docs)[r] == front[r]);
    }
}

/// Going up a diagonal from a cell that is not 0, the cells count down to 1.
pub proof fn lemma_common_run(
    rows: Seq<Option<Fingerprint>>,
    cols: Seq<Option<Fingerprint>>,
    r: int,
    c: int,
    i: int,
)
    requires
        0 <= i < common_len(rows, cols, r, c),
    ensures
        common_len(rows, cols, r - i, c - i) == common_len(rows, cols, r, c) - i,
        0 <= r - i < rows.len(),
        0 <= c - i < cols.len(),
    decreases i,
{
    if i > 0 {
        lemma_common_run(rows, cols, r - 1, c - 1, i - 1);
    }
}

/// Whether the cell `i` places down the diagonal from row `r` and column `c` lies in the
/// table and is not 0.
pub open spec fn on_diagonal(table: Seq<Vec<usize>>, r: int, c: int, i: int) -> bool {
    0 <= r + i < table.len() && 0 <= c + i < table[r + i]@.len() && table[r + i]@[c + i] != 0
}

/// A diagonal whose first `k` cells are not 0 is `k` cells long at least.
pub proof fn lemma_diag_reaches(table: Seq<Vec<usize>>, r: int, c: int, k: int)
    requires
        0 <= r,
        0 <= c,
        forall|i: int| 0 <= i < k ==> #[trigger] on_diagonal(table, r, c, i),
    ensures
        diag_len(table, r, c) >= k,
    decreases k,
{
    if k > 0 {
        assert(on_diagonal(table, r, c, 0));
        assert forall|i: int| 0 <= i < k - 1 implies #[trigger] on_diagonal(table, r + 1, c + 1, i) by {
            assert(on_diagonal(table, r, c, i + 1));
        }
        lemma_diag_reaches(table, r + 1, c + 1, k - 1);
    }
}

/// Every cell that is not 0 lies on the diagonal of a cell that holds 1.
pub proof fn lemma_start_of(
    table: Seq<Vec<usize>>,
    rows: Seq<Option<Fingerprint>>,
    cols: Seq<Option<Fingerprint>>,
    r: int,
    c: int,
)
    requires
        is_table_of(table, rows, cols),
        same_hash(rows, cols, r, c),
    ensures
        ({
            let v = common_len(rows, cols, r, c);
            &&& v >= 1
            &&& is_start(table, r - v + 1, c - v + 1)
            &&& diag_len(table, r - v + 1, c - v + 1) >= v
        }),
{
    let v = common_len(rows, cols, r, c) as int;
    let r0 = r - v + 1;
    let c0 = c - v + 1;
    lemma_common_run(rows, cols, r, c, v - 1);
    assert(table[r0]@[c0] == common_len(rows, cols, r0, c0));
    assert forall|i: int| 0 <= i < v implies #[trigger] on_diagonal(table, r0, c0, i) by {
        lemma_common_run(rows, cols, r, c, v - 1 - i);
        assert(table[r0 + i]@[c0 + i] == common_len(rows, cols, r0 + i, c0 + i));
    }
    lemma_diag_reaches(table, r0, c0, v);
}

/// Every chosen index below `n` has its substring among those that are picked.
pub proof fn lemma_picked(subs: Seq<SubStringView>, chosen: Set<usize>, n: nat, idx: usize)
    requires
        idx < n <= usize::MAX,
        chosen.contains(idx),
    ensures
        picked(subs, chosen, n).contains(subs[idx as int]),
    decreases n,
{
    let before = picked(subs, chosen, (n - 1) as nat);
    let now = picked(subs, chosen, n);
    if idx == n - 1 {
        if before.contains(subs[n - 1]) {
        } else {
            assert(now[now.len() - 1] == subs[n - 1]);
        }
    } else {
        lemma_picked(subs, chosen, (n - 1) as nat, idx);
        let k = choose|k: int| 0 <= k < before.len() && before[k] == subs[idx as int];
        assert(now[k] == before[k]);
    }
}

/// What is picked is one of the substrings.
pub proof fn lemma_picked_from(subs: Seq<SubStringView>, chosen: Set<usize>, n: nat, k: int)
    requires
        n <= subs.len(),
        0 <= k < picked(subs, chosen, n).len(),
    ensures
        exists|i: int| 0 <= i < n && #[trigger] subs[i] == picked(subs, chosen, n)[k],
    decreases n,
{
    if n > 0 {
        let before = picked(subs, chosen, (n - 1) as nat);
        if k < before.len() {
            lemma_picked_from(subs, chosen, (n - 1) as nat, k);
            let i = choose|i: int| 0 <= i < n - 1 && #[trigger] subs[i] == before[k];
            assert(subs[i] == picked(subs, chosen, n)[k]);
        } else {
            assert(subs[n - 1] == picked(subs, chosen, n)[k]);
        }
    }
}

/// Coverage: the hash of every fingerprint of the rows that stands in the columns too is
/// among the hashes of a chosen substring.
pub proof fn lemma_row_covered(
    order: Seq<(int, int)>,
    table: Seq<Vec<usize>>,
    rows: Seq<Option<Fingerprint>>,
    cols: Seq<Option<Fingerprint>>,
    r: int,
    c: int,
)
    requires
        is_table_of(table, rows, cols),
        is_start_order(order, table, rows),
        rows.len() <= usize::MAX,
        cols.len() <= usize::MAX,
        same_hash(rows, cols, r, c),
    ensures
        exists|k: int|
            0 <= k < chosen_substrings(order, table, rows, cols).len() && (
            #[trigger] chosen_substrings(order, table, rows, cols)[k]).hashes.contains(
                rows[r]->0.hash,
            ),
{
    let n = order.len();
    let sizes = order_sizes(order, table);
    let firsts = order_rows(order);
    lemma_start_of(table, rows, cols, r, c);
    let v = common_len(rows, cols, r, c) as int;
    let start = (r - v + 1, c - v + 1);
    assert(order.contains(start));
    let idx = choose|idx: int| 0 <= idx < order.len() && order[idx] == start;
    lemma_diag_len(table, start.0, start.1);
    assert(firsts[idx] == start.0);
    assert(sizes[idx] == diag_len(table, start.0, start.1));
    lemma_through(firsts, sizes, r, n);
    let lists = lists_through(firsts, sizes, rows.len());
    assert(lists[r] == through(firsts, sizes, r, n));
    assert(lists[r].contains(idx as usize));
    lemma_chosen_covers(lists, sizes, Set::empty(), rows.len(), r);
    let i = choose|i: int|
        0 <= i < lists[r].len() && (Set::<usize>::empty() + chosen_upto(
            lists,
            sizes,
            Set::empty(),
            rows.len(),
        )).contains(#[trigger] lists[r][i]);
    let took = lists[r][i];
    assert(chosen_for_rows(order, table, rows.len()).contains(took));
    assert(chosen_of(order, table, rows.len(), cols.len()).contains(took));
    assert(took < n);
    let cell = order[took as int];
    assert(is_start(table, cell.0, cell.1));
    lemma_diag_len(table, cell.0, cell.1);
    assert(firsts[took as int] == cell.0);
    assert(sizes[took as int] == diag_len(table, cell.0, cell.1));
    assert(cell.0 <= r < cell.0 + diag_len(table, cell.0, cell.1));
    let subs = order_substrings(order, table, rows, cols);
    lemma_picked(subs, chosen_of(order, table, rows.len(), cols.len()), n, took);
    let all = chosen_substrings(order, table, rows, cols);
    let k = choose|k: int| 0 <= k < all.len() && all[k] == subs[took as int];
    assert(subs[took as int].hashes[r - cell.0] == rows[r]->0.hash);
    assert(all[k].hashes.contains(rows[r]->0.hash));
}

/// The number of `None` among the first `n` slots.
pub open spec fn nones(slots: Seq<Option<Fingerprint>>, n: int) -> nat
    decreases n,
{
    if n <= 0 {
        0
    } else {
        nones(slots, n - 1) + if slots[n - 1] is None {
            1nat
        } else {
            0nat
        }
    }
}

/// The slot before which a `None` stands belongs to the document that the `None` starts.
pub proof fn lemma_doc_of_nones(slots: Seq<Option<Fingerprint>>, i: int)
    requires
        0 <= i < slots.len(),
        slots[0] is None,
    ensures
        doc_of(slots, i) + 1 == nones(slots, i + 1),
    decreases i,
{
    if i > 0 {
        lemma_doc_of_nones(slots, i - 1);
    } else {
        assert(nones(slots, 0) == 0);
    }
}

/// Among more slots there are no fewer `None`.
pub proof fn lemma_nones_grow(slots: Seq<Option<Fingerprint>>, i: int, j: int)
    requires
        i <= j,
    ensures
        nones(slots, i) <= nones(slots, j),
    decreases j - i,
{
    if i < j {
        lemma_nones_grow(slots, i, j - 1);
    }
}

/// The `None` among the first slots do not depend on the slots behind them.
pub proof fn lemma_nones_front(a: Seq<Option<Fingerprint>>, b: Seq<Option<Fingerprint>>, n: int)
    requires
        n <= a.len(),
    ensures
        nones(a + b, n) == nones(a, n),
    decreases n,
{
    if n > 0 {
        lemma_nones_front(a, b, n - 1);
        assert((a + b)[n - 1] == a[n - 1]);
    }
}

/// Behind slots that are all fingerprints, there are as many `None` as before them.
pub proof fn lemma_nones_of_fingerprints(
    a: Seq<Option<Fingerprint>>,
    fps: Seq<Fingerprint>,
    n: int,
)
    requires
        0 <= n <= fps.len(),
    ensures
        nones(a + fps.map_values(|fp: Fingerprint| Some(fp)), a.len() + n) == nones(a, a.len() as int),
    decreases n,
{
    let b = fps.map_values(|fp: Fingerprint| Some(fp));
    if n > 0 {
        lemma_nones_of_fingerprints(a, fps, n - 1);
        assert((a + b)[a.len() + n - 1] == b[n - 1]);
    } else {
        lemma_nones_front(a, b, a.len() as int);
    }
}

/// The slots of documents hold one `None` for each document, the first at the start.
pub proof fn lemma_nones_flattened(docs: Seq<Doc>)
    ensures
        nones(flattened(docs), flattened(docs).len() as int) == docs.len(),
        docs.len() > 0 ==> flattened(docs).len() > 0 && flattened(docs)[0] is None,
        docs.len() == 0 ==> flattened(docs).len() == 0,
    decreases docs.len(),
{
    if docs.len() > 0 {
        let front = flattened(docs.drop_last());
        let fps = docs.last().fingerprints();
        let started = front + seq![None::<Fingerprint>];
        lemma_nones_flattened(docs.drop_last());
        assert(flattened(docs) == started + fps.map_values(|fp: Fingerprint| Some(fp)));
        lemma_nones_of_fingerprints(started, fps, fps.len() as int);
        lemma_nones_front(front, seq![None::<Fingerprint>], front.len() as int);
        assert(started[front.len() as int] is None);
        assert(nones(started, started.len() as int) == nones(started, front.len() as int) + 1);
        if docs.len() > 1 {
            assert(flattened(docs)[0] == front[0]);
        } else {
            assert(flattened(docs)[0] == started[0]);
        }
    }
}

/// Every slot of a submission belongs to one of its documents.
pub proof fn lemma_doc_of_flattened(docs: Seq<Doc>, r: int)
    requires
        0 <= r < flattened(docs).len(),
    ensures
        doc_of(flattened(docs), r) < docs.len(),
{
    let slots = flattened(docs);
    lemma_nones_flattened(docs);
    lemma_doc_of_nones(slots, r);
    lemma_nones_grow(slots, r + 1, slots.len() as int);
}

/// Whether every section lies in one of `docs` documents.
pub open spec fn entries_within(entries: Seq<Entry>, docs: nat) -> bool {
    forall|i: int| 0 <= i < entries.len() ==> (#[trigger] entries[i]).doc_idx < docs
}

/// Whether the hash `h` is among the hashes of one of `matches`.
pub open spec fn in_a_match(matches: Seq<Match>, h: i64) -> bool {
    exists|i: int| 0 <= i < matches.len() && (#[trigger] matches[i]).hashes@.contains(h)
}

/// The matches of a pair of submissions: what the two share, as common substrings of their
/// fingerprints, with the sections of each in which they stand.
///
/// The matches are those of the substrings that `choose_substrs` chooses for the slots of
/// the two submissions and their table. They are chosen so that every hash that both
/// submissions hold is among the hashes of a match.
#[verifier::rlimit(40)]
pub fn analyze_pair(pair: &SubPair, subs: &Vec<Sub>) -> (matches: Vec<Match>)
    requires
        pair.a < subs@.len(),
        pair.b < subs@.len(),
        subs@[pair.a as int].processed(),
        subs@[pair.b as int].processed(),
    ensures
        sorted(matches@),
        exists|table: Seq<Vec<usize>>|
            is_table_of(
                table,
                flattened(subs@[pair.a as int].documents@),
                flattened(subs@[pair.b as int].documents@),
            ) && #[trigger] are_matches_of(
                matches@,
                chosen_substrings(
                    start_order(table, flattened(subs@[pair.a as int].documents@)),
                    table,
                    flattened(subs@[pair.a as int].documents@),
                    flattened(subs@[pair.b as int].documents@),
                ),
            ),
        forall|h: i64|
            sub_has_hash(subs@[pair.a as int], h) && sub_has_hash(subs@[pair.b as int], h)
                ==> #[trigger] in_a_match(matches@, h),
        forall|i: int|
            0 <= i < matches@.len() ==> entries_within(
                (#[trigger] matches@[i]).a_entries@,
                subs@[pair.a as int].documents@.len(),
            ) && entries_within(matches@[i].b_entries@, subs@[pair.b as int].documents@.len()),
{
    let rows: FpVec = flatten_docs(&subs[pair.a]);
    let cols: FpVec = flatten_docs(&subs[pair.b]);
    let slots: (usize, usize) = (rows.len(), cols.len());
    let table: SubStrTable = substr_table(&rows, &cols);
    proof {
        lemma_table_fits(table@, rows@, cols@);
    }
    let chosen: Vec<SubString> = choose_substrs(&rows, &cols, &table);
    let ghost order = start_order(table@, rows@);
    proof {
        let subs_at = order_substrings(order, table@, rows@, cols@);
        let chosen_set = chosen_of(order, table@, rows@.len(), cols@.len());
        assert forall|i: int| 0 <= i < chosen@.len() implies (#[trigger] chosen@[i]).size
            == chosen@[i].hashes@.len() by {
            assert(views(chosen@)[i] == chosen@[i]@);
            lemma_picked_from(subs_at, chosen_set, order.len(), i);
        }
    }
    let matches: Vec<Match> = assemble(&chosen);
    proof {
        let a_docs = subs@[pair.a as int].documents@;
        let b_docs = subs@[pair.b as int].documents@;
        assert forall|h: i64|
            sub_has_hash(subs@[pair.a as int], h) && sub_has_hash(
                subs@[pair.b as int],
                h,
            ) implies #[trigger] in_a_match(matches@, h) by {
            let (da, ia) = choose|d: int, i: int|
                0 <= d < a_docs.len() && 0 <= i < a_docs[d].fingerprints().len() && (
                #[trigger] a_docs[d].fingerprints()[i]).hash == h;
            let (db, ib) = choose|d: int, i: int|
                0 <= d < b_docs.len() && 0 <= i < b_docs[d].fingerprints().len() && (
                #[trigger] b_docs[d].fingerprints()[i]).hash == h;
            lemma_flattened_has(a_docs, da, ia);
            lemma_flattened_has(b_docs, db, ib);
            let r = choose|r: int|
                0 <= r < rows@.len() && #[trigger] rows@[r] == Some(a_docs[da].fingerprints()[ia]);
            let c = choose|c: int|
                0 <= c < cols@.len() && #[trigger] cols@[c] == Some(b_docs[db].fingerprints()[ib]);
            assert(rows@.len() == slots.0 && cols@.len() == slots.1);
            lemma_row_covered(order, table@, rows@, cols@, r, c);
            let all = chosen_substrings(order, table@, rows@, cols@);
            let k = choose|k: int| 0 <= k < all.len() && (#[trigger] all[k]).hashes.contains(h);
            assert(has_match(matches@, all[k].hashes));
            let m = choose|m: int| 0 <= m < matches@.len() && (#[trigger] matches@[m]).hashes@ == all[k].hashes;
            assert(matches@[m].hashes@.contains(h));
        }
        assert(are_matches_of(matches@, chosen_substrings(order, table@, rows@, cols@)));
        let subs_at = order_substrings(order, table@, rows@, cols@);
        let chosen_set = chosen_of(order, table@, rows@.len(), cols@.len());
        assert forall|i: int| 0 <= i < matches@.len() implies entries_within(
            (#[trigger] matches@[i]).a_entries@,
            a_docs.len(),
        ) && entries_within(matches@[i].b_entries@, b_docs.len()) by {
            let m = matches@[i];
            assert(is_match_of(m, views(chosen@)));
            assert forall|j: int| 0 <= j < m.a_entries@.len() implies (#[trigger] m.a_entries@[j]).doc_idx
                < a_docs.len() by {
                let e = m.a_entries@[j];
                assert(m.a_entries@.contains(e));
                assert(stands_in(views(chosen@), m.hashes@, e, true));
                let k = choose|k: int|
                    0 <= k < views(chosen@).len() && (#[trigger] views(chosen@)[k]).hashes
                        == m.hashes@ && views(chosen@)[k].a_entry == e;
                lemma_picked_from(subs_at, chosen_set, order.len(), k);
                let x = choose|x: int| 0 <= x < order.len() && #[trigger] subs_at[x] == views(chosen@)[k];
                assert(is_start(table@, order[x].0, order[x].1));
                lemma_doc_of_flattened(a_docs, order[x].0);
            }
            assert forall|j: int| 0 <= j < m.b_entries@.len() implies (#[trigger] m.b_entries@[j]).doc_idx
                < b_docs.len() by {
                let e = m.b_entries@[j];
                assert(m.b_entries@.contains(e));
                assert(stands_in(views(chosen@), m.hashes@, e, false));
                let k = choose|k: int|
                    0 <= k < views(chosen@).len() && (#[trigger] views(chosen@)[k]).hashes
                        == m.hashes@ && views(chosen@)[k].b_entry == e;
                lemma_picked_from(subs_at, chosen_set, order.len(), k);
                let x = choose|x: int| 0 <= x < order.len() && #[trigger] subs_at[x] == views(chosen@)[k];
                assert(is_start(table@, order[x].0, order[x].1));
                lemma_doc_of_flattened(b_docs, order[x].1);
            }
        }
    }
    matches
}

} // verus!
