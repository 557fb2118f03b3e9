//! Phase I: every document of every submission is normalised and fingerprinted, and the
//! index from hashes to submissions is built.

use crate::error::Error;
use crate::fingerprint::{fingerprint, fingerprints_of, Fingerprint};
use crate::index::{index_add, new_index};
use crate::normalize::{ints, norm_ends, norm_text, normalize, NormText};
use crate::{Doc, Sub};
use fnv::FnvHashMap;
use std::collections::HashSet;
use vstd::prelude::*;

verus! {

/// The line ends of the normalised form of `text`.
pub open spec fn ends_of(text: Seq<char>) -> Seq<i32> {
    Seq::new(norm_ends(text, 0, 0).len(), |i: int| norm_ends(text, 0, 0)[i] as i32)
}

/// The fingerprints of a document with the text `text`: those of its normalised form.
pub open spec fn document_fingerprints(text: Seq<char>, k: int, t: int) -> Seq<Fingerprint> {
    fingerprints_of(norm_text(text, 0), ends_of(text), k, t)
}

/// The fingerprints of a document with the given contents, for the noise threshold `k` and
/// the guarantee threshold `t`.
pub fn analyze_file(contents: &str, k: i32, t: i32) -> (fps: Vec<Fingerprint>)
    requires
        contents@.len() < i32::MAX,
        0 < k <= t,
    ensures
        fps@ == document_fingerprints(contents@, k as int, t as int),
{
    let norm: NormText = normalize(contents);
    proof {
        assert(norm.line_ends@ =~= ends_of(contents@)) by {
            assert forall|i: int| 0 <= i < norm.line_ends@.len() implies norm.line_ends@[i]
                == ends_of(contents@)[i] by {
                assert(ints(norm.line_ends@)[i] == norm.line_ends@[i] as int);
            }
        }
    }
    fingerprint(norm, k, t)
}

/// The hashes of `fps`.
pub open spec fn hashes_of(fps: Seq<Fingerprint>) -> Set<i64> {
    Set::new(|h: i64| exists|i: int| 0 <= i < fps.len() && (#[trigger] fps[i]).hash == h)
}

/// The texts of `contents`.
pub open spec fn texts_of(contents: Seq<String>) -> Seq<Seq<char>> {
    Seq::new(contents.len(), |i: int| contents[i]@)
}

/// The hashes of the fingerprints of the first `n` of `texts`.
pub open spec fn hashes_upto(texts: Seq<Seq<char>>, k: int, t: int, n: int) -> Set<i64>
    decreases n,
{
    if n <= 0 {
        Set::empty()
    } else {
        hashes_upto(texts, k, t, n - 1) + hashes_of(document_fingerprints(texts[n - 1], k, t))
    }
}

/// Whether every text is short enough for its line ends to be counted.
pub open spec fn texts_fit(texts: Seq<Seq<char>>) -> bool {
    forall|i: int| 0 <= i < texts.len() ==> (#[trigger] texts[i]).len() < i32::MAX
}

/// Adds the hashes of `fps` to `set`.
pub fn insert_hashes(set: &mut HashSet<i64>, fps: &Vec<Fingerprint>)
    ensures
        final(set)@ == old(set)@ + hashes_of(fps@),
{
    broadcast use vstd::std_specs::hash::group_hash_axioms;

    let mut i: usize = 0;
    assert(set@ =~= old(set)@ + hashes_of(fps@.take(0)));
    while i < fps.len()
        invariant
            i <= fps@.len(),
            set@ == old(set)@ + hashes_of(fps@.take(i as int)),
        decreases fps.len() - i,
    {
        set.insert(fps[i].hash);
        i += 1;
        proof {
            let now = fps@.take(i as int);
            let before = fps@.take(i - 1);
            assert forall|h: i64| hashes_of(now).contains(h) <==> (hashes_of(before).contains(h) || h
                == fps@[i - 1].hash) by {
                if hashes_of(now).contains(h) {
                    let j = choose|j: int| 0 <= j < now.len() && (#[trigger] now[j]).hash == h;
                    if j < i - 1 {
                        assert(before[j].hash == h);
                    }
                }
                if hashes_of(before).contains(h) {
                    let j = choose|j: int| 0 <= j < before.len() && (#[trigger] before[j]).hash == h;
                    assert(now[j].hash == h);
                }
                if h == fps@[i - 1].hash {
                    assert(now[i - 1].hash == h);
                }
            }
            assert(set@ =~= old(set)@ + hashes_of(now));
        }
    }
    assert(fps@.take(fps@.len() as int) =~= fps@);
}

/// The hashes to ignore: those of the fingerprints of files whose contents are expected in
/// every submission. `contents` holds the text of each such file. Without any file there is
/// nothing to ignore, and that is refused.
pub fn make_ignore_set(contents: &Vec<String>, k: i32, t: i32) -> (ignore: Result<
    HashSet<i64>,
    Error,
>)
    requires
        texts_fit(texts_of(contents@)),
        0 < k <= t,
    ensures
        contents@.len() == 0 ==> ignore == Err::<HashSet<i64>, Error>(Error::NoIgnoreFiles),
        contents@.len() > 0 ==> ignore is Ok && ignore->Ok_0@ == hashes_upto(
            texts_of(contents@),
            k as int,
            t as int,
            contents@.len() as int,
        ),
{
    if contents.len() == 0 {
        return Err(Error::NoIgnoreFiles);
    }
    let ghost texts = texts_of(contents@);
    let mut ignore_set: HashSet<i64> = HashSet::new();
    let mut i: usize = 0;
    while i < contents.len()
        invariant
            texts == texts_of(contents@),
            texts_fit(texts),
            0 < k <= t,
            i <= contents@.len(),
            ignore_set@ == hashes_upto(texts, k as int, t as int, i as int),
        decreases contents.len() - i,
    {
        assert(texts[i as int] == contents@[i as int]@);
        let fps: Vec<Fingerprint> = analyze_file(contents[i].as_str(), k, t);
        insert_hashes(&mut ignore_set, &fps);
        i += 1;
    }
    Ok(ignore_set)
}

// ---------------------------------------------------------------------------------------------
// The index

/// The fingerprints of `fps` whose hash is not among `ignored`, in their order.
pub open spec fn kept(fps: Seq<Fingerprint>, ignored: Set<i64>) -> Seq<Fingerprint>
    decreases fps.len(),
{
    if fps.len() == 0 {
        Seq::empty()
    } else if ignored.contains(fps.last().hash) {
        kept(fps.drop_last(), ignored)
    } else {
        kept(fps.drop_last(), ignored).push(fps.last())
    }
}

/// The hashes that are ignored: none where no set is given.
pub open spec fn ignored_of(ignore: Option<HashSet<i64>>) -> Set<i64> {
    match ignore {
        Some(set) => set@,
        None => Set::empty(),
    }
}

/// Whether a fingerprint of a document of `sub` has the hash `h`.
pub open spec fn sub_has_hash(sub: Sub, h: i64) -> bool {
    exists|d: int, i: int|
        0 <= d < sub.documents@.len() && 0 <= i < sub.documents@[d].fingerprints().len() && (
        #[trigger] sub.documents@[d].fingerprints()[i]).hash == h
}

/// Whether the index lists submission `s` for the hash `h`.
pub open spec fn holds(index: Map<i64, Vec<usize>>, h: i64, s: usize) -> bool {
    index.contains_key(h) && index[h]@.contains(s)
}

/// Whether each value of `list` is less than all that follow it.
pub open spec fn increasing(list: Seq<usize>) -> bool {
    forall|i: int, j: int| 0 <= i < j < list.len() ==> list[i] < list[j]
}

/// Whether every list of the index holds something, in increasing order.
pub open spec fn lists_in_order(index: Map<i64, Vec<usize>>) -> bool {
    forall|h: i64| #[trigger]
        index.contains_key(h) ==> index[h]@.len() > 0 && increasing(index[h]@)
}

/// Whether `index` is the index of `subs`: for every hash it lists the submissions, by
/// their place in `subs`, that hold a fingerprint with that hash, each once and in
/// increasing order; and it has no entry for a hash that no submission holds.
pub open spec fn is_index_of(index: Map<i64, Vec<usize>>, subs: Seq<Sub>) -> bool {
    &&& lists_in_order(index)
    &&& forall|h: i64, s: usize| #[trigger]
        holds(index, h, s) <==> s < subs.len() && sub_has_hash(subs[s as int], h)
}

/// Whether `index` is the index of the first `cur` of `subs`, and lists `cur` for the hashes
/// of `cur_hashes`.
pub open spec fn is_index_upto(
    index: Map<i64, Vec<usize>>,
    subs: Seq<Sub>,
    cur: usize,
    cur_hashes: Set<i64>,
) -> bool {
    &&& lists_in_order(index)
    &&& forall|h: i64, s: usize| #[trigger]
        holds(index, h, s) <==> (s < cur && sub_has_hash(subs[s as int], h)) || (s == cur
            && cur_hashes.contains(h))
}

/// Whether `doc` is what processing makes of `before`, a document with the text `text`.
pub open spec fn is_processed_doc(
    doc: Doc,
    before: Doc,
    text: Seq<char>,
    ignored: Set<i64>,
    k: int,
    t: int,
) -> bool {
    &&& doc is Processed
    &&& doc.path() == before.path()
    &&& doc.fingerprints() == kept(document_fingerprints(text, k, t), ignored)
}

/// Whether `sub` is what processing makes of `before`, whose documents have the texts
/// `texts`.
pub open spec fn is_processed_sub(
    sub: Sub,
    before: Sub,
    texts: Seq<String>,
    ignored: Set<i64>,
    k: int,
    t: int,
) -> bool {
    &&& sub.dir_name == before.dir_name
    &&& sub.documents@.len() == before.documents@.len()
    &&& forall|d: int|
        0 <= d < sub.documents@.len() ==> is_processed_doc(
            #[trigger] sub.documents@[d],
            before.documents@[d],
            texts[d]@,
            ignored,
            k,
            t,
        )
}

/// Whether `contents` holds a text for every document of `subs`, each short enough for its
/// line ends to be counted.
pub open spec fn contents_fit(subs: Seq<Sub>, contents: Seq<Vec<String>>) -> bool {
    &&& contents.len() == subs.len()
    &&& forall|s: int|
        0 <= s < subs.len() ==> (#[trigger] contents[s])@.len() == subs[s].documents@.len()
    &&& forall|s: int, d: int|
        0 <= s < subs.len() && 0 <= d < contents[s]@.len() ==> (#[trigger] contents[s]@[d])@.len()
            < i32::MAX
}

/// The fingerprints of `fps` whose hash is not ignored.
pub fn keep_fingerprints(fps: Vec<Fingerprint>, ignore: &Option<HashSet<i64>>) -> (keep: Vec<
    Fingerprint,
>)
    ensures
        keep@ == kept(fps@, ignored_of(*ignore)),
{
    broadcast use vstd::std_specs::hash::group_hash_axioms;

    match ignore {
        None => {
            proof {
                lemma_kept_all(fps@);
            }
            fps
        },
        Some(set) => {
            let mut keep: Vec<Fingerprint> = Vec::new();
            let mut i: usize = 0;
            assert(fps@.take(0) =~= Seq::<Fingerprint>::empty());
            while i < fps.len()
                invariant
                    i <= fps@.len(),
                    keep@ == kept(fps@.take(i as int), set@),
                decreases fps.len() - i,
            {
                if !set.contains(&fps[i].hash) {
                    keep.push(fps[i]);
                }
                i += 1;
                assert(fps@.take(i as int).drop_last() =~= fps@.take(i - 1));
            }
            assert(fps@.take(fps@.len() as int) =~= fps@);
            keep
        },
    }
}

/// Where nothing is ignored, every fingerprint is kept.
pub proof fn lemma_kept_all(fps: Seq<Fingerprint>)
    ensures
        kept(fps, Set::empty()) == fps,
    decreases fps.len(),
{
    if fps.len() > 0 {
        lemma_kept_all(fps.drop_last());
        assert(fps =~= fps.drop_last().push(fps.last()));
    } else {
        assert(fps =~= Seq::<Fingerprint>::empty());
    }
}

/// The hashes of the fingerprints of the first `n` of `docs`.
pub open spec fn docs_hashes(docs: Seq<Doc>, n: int) -> Set<i64>
    decreases n,
{
    if n <= 0 {
        Set::empty()
    } else {
        docs_hashes(docs, n - 1) + hashes_of(docs[n - 1].fingerprints())
    }
}

/// The hashes of the first `n` documents are the hashes that a fingerprint of one of them
/// has.
pub proof fn lemma_docs_hashes(docs: Seq<Doc>, n: int, h: i64)
    requires
        0 <= n <= docs.len(),
    ensures
        docs_hashes(docs, n).contains(h) <==> exists|d: int, i: int|
            0 <= d < n && 0 <= i < docs[d].fingerprints().len() && (
            #[trigger] docs[d].fingerprints()[i]).hash == h,
    decreases n,
{
    if n > 0 {
        lemma_docs_hashes(docs, n - 1, h);
        let fps = docs[n - 1].fingerprints();
        if hashes_of(fps).contains(h) {
            let i = choose|i: int| 0 <= i < fps.len() && (#[trigger] fps[i]).hash == h;
            assert(docs[n - 1].fingerprints()[i].hash == h);
        }
    }
}

/// Records in the index that submission `cur` holds the hashes of `fps`, but for those that
/// it is listed with already.
#[verifier::rlimit(40)]
fn index_fingerprints(
    index: &mut FnvHashMap<i64, Vec<usize>>,
    seen: &mut HashSet<i64>,
    fps: &Vec<Fingerprint>,
    cur: usize,
    Ghost(subs): Ghost<Seq<Sub>>,
)
    requires
        is_index_upto(old(index)@, subs, cur, old(seen)@),
    ensures
        final(seen)@ == old(seen)@ + hashes_of(fps@),
        is_index_upto(final(index)@, subs, cur, final(seen)@),
{
    broadcast use vstd::std_specs::hash::group_hash_axioms;

    let mut i: usize = 0;
    assert(seen@ =~= old(seen)@ + hashes_of(fps@.take(0)));
    while i < fps.len()
        invariant
            i <= fps@.len(),
            seen@ == old(seen)@ + hashes_of(fps@.take(i as int)),
            is_index_upto(index@, subs, cur, seen@),
        decreases fps.len() - i,
    {
        let hash: i64 = fps[i].hash;
        let ghost seen_before = seen@;
        let ghost index_before = index@;
        if !seen.contains(&hash) {
            seen.insert(hash);
            index_add(index, hash, cur);
            proof {
                assert forall|h: i64, s: usize| #[trigger]
                    holds(index@, h, s) <==> (s < cur && sub_has_hash(subs[s as int], h)) || (s
                        == cur && seen@.contains(h)) by {
                    assert(holds(index_before, h, s) <==> (s < cur && sub_has_hash(subs[s as int], h))
                        || (s == cur && seen_before.contains(h)));
                    if h == hash {
                        let now = index@[hash]@;
                        if index_before.contains_key(hash) {
                            let list = index_before[hash]@;
                            assert(now =~= list.push(cur));
                            assert(now[list.len() as int] == cur);
                            assert(now.contains(cur));
                            if list.contains(s) {
                                let j = choose|j: int| 0 <= j < list.len() && list[j] == s;
                                assert(now[j] == s);
                                assert(now.contains(s));
                            }
                            if now.contains(s) && s != cur {
                                let j = choose|j: int| 0 <= j < now.len() && now[j] == s;
                                assert(list[j] == s);
                                assert(list.contains(s));
                            }
                        } else {
                            assert(now =~= seq![cur]);
                            assert(now[0] == cur);
                            assert(now.contains(cur));
                            if now.contains(s) {
                                let j = choose|j: int| 0 <= j < now.len() && now[j] == s;
                                assert(s == cur);
                            }
                        }
                    } else {
                        assert(index@.contains_key(h) <==> index_before.contains_key(h));
                        if index_before.contains_key(h) {
                            assert(index@[h] == index_before[h]);
                        }
                        assert(holds(index@, h, s) <==> holds(index_before, h, s));
                    }
                }
                assert forall|h: i64| #[trigger] index@.contains_key(h) implies index@[h]@.len() > 0
                    && increasing(index@[h]@) by {
                    if h == hash {
                        if index_before.contains_key(hash) {
                            let list = index_before[hash]@;
                            assert(index@[hash]@ =~= list.push(cur));
                            assert forall|a: int, b: int|
                                0 <= a < b < index@[hash]@.len() implies index@[hash]@[a]
                                < index@[hash]@[b] by {
                                if b == list.len() {
                                    assert(list.contains(list[a]));
                                    assert(holds(index_before, hash, list[a]));
                                }
                            }
                        }
                    } else {
                        assert(index_before.contains_key(h));
                    }
                }
            }
        }
        i += 1;
        proof {
            let now = fps@.take(i as int);
            let before = fps@.take(i - 1);
            assert forall|h: i64| hashes_of(now).contains(h) <==> (hashes_of(before).contains(h) || h
                == hash) by {
                if hashes_of(now).contains(h) {
                    let j = choose|j: int| 0 <= j < now.len() && (#[trigger] now[j]).hash == h;
                    if j < i - 1 {
                        assert(before[j].hash == h);
                    }
                }
                if hashes_of(before).contains(h) {
                    let j = choose|j: int| 0 <= j < before.len() && (#[trigger] before[j]).hash == h;
                    assert(now[j].hash == h);
                }
                if h == hash {
                    assert(now[i - 1].hash == h);
                }
            }
            assert(seen@ =~= old(seen)@ + hashes_of(now));
        }
    }
    assert(fps@.take(fps@.len() as int) =~= fps@);
}

/// Whether no document of `subs` has been processed.
pub open spec fn unprocessed(subs: Seq<Sub>) -> bool {
    forall|s: int, d: int|
        0 <= s < subs.len() && 0 <= d < subs[s].documents@.len() ==> (
        #[trigger] subs[s].documents@[d]) is Unprocessed
}

/// Processes every document of every submission, and builds the index from the hashes of
/// fingerprints to the submissions that hold them.
///
/// `contents[s][d]` is the text of document `d` of submission `s`. Each document gets its
/// fingerprints but for those whose hash is in `ignore`. The index lists a submission once
/// for a hash, however many of its documents hold it.
#[verifier::rlimit(40)]
pub fn analyze_subs(
    subs: &mut Vec<Sub>,
    contents: &Vec<Vec<String>>,
    ignore: &Option<HashSet<i64>>,
    k: i32,
    t: i32,
) -> (hash_to_subs: FnvHashMap<i64, Vec<usize>>)
    requires
        contents_fit(old(subs)@, contents@),
        unprocessed(old(subs)@),
        0 < k <= t,
    ensures
        final(subs)@.len() == old(subs)@.len(),
        forall|s: int|
            0 <= s < final(subs)@.len() ==> is_processed_sub(
                #[trigger] final(subs)@[s],
                old(subs)@[s],
                contents@[s]@,
                ignored_of(*ignore),
                k as int,
                t as int,
            ),
        is_index_of(hash_to_subs@, final(subs)@),
{
    let ghost ignored = ignored_of(*ignore);
    let mut done: Vec<Sub> = Vec::new();
    let mut s: usize = 0;
    while s < subs.len()
        invariant
            subs@ == old(subs)@,
            contents_fit(subs@, contents@),
            0 < k <= t,
            ignored == ignored_of(*ignore),
            s <= subs@.len(),
            done@.len() == s,
            forall|j: int|
                0 <= j < s ==> is_processed_sub(
                    #[trigger] done@[j],
                    subs@[j],
                    contents@[j]@,
                    ignored,
                    k as int,
                    t as int,
                ),
        decreases subs.len() - s,
    {
        let sub: &Sub = &subs[s];
        let texts: &Vec<String> = &contents[s];
        let mut docs: Vec<Doc> = Vec::new();
        let mut d: usize = 0;
        while d < sub.documents.len()
            invariant
                contents_fit(subs@, contents@),
                0 < k <= t,
                ignored == ignored_of(*ignore),
                s < subs@.len(),
                *sub == subs@[s as int],
                *texts == contents@[s as int],
                texts@.len() == sub.documents@.len(),
                d <= sub.documents@.len(),
                docs@.len() == d,
                forall|j: int|
                    0 <= j < d ==> is_processed_doc(
                        #[trigger] docs@[j],
                        sub.documents@[j],
                        texts@[j]@,
                        ignored,
                        k as int,
                        t as int,
                    ),
            decreases sub.documents.len() - d,
        {
            assert(contents@[s as int]@[d as int]@.len() < i32::MAX);
            let fps: Vec<Fingerprint> = keep_fingerprints(
                analyze_file(texts[d].as_str(), k, t),
                ignore,
            );
            let path: String = match &sub.documents[d] {
                Doc::Unprocessed(p) => p.clone(),
                Doc::Processed(p, _) => p.clone(),
            };
            docs.push(Doc::Processed(path, fps));
            d += 1;
        }
        let dir_name: Option<String> = match &sub.dir_name {
            Some(dir) => Some(dir.clone()),
            None => None,
        };
        done.push(Sub { dir_name: dir_name, documents: docs });
        s += 1;
    }
    let index: FnvHashMap<i64, Vec<usize>> = invert(&done);
    *subs = done;
    index
}

/// The index of `subs`: for every hash of a fingerprint, the submissions that hold it.
pub fn invert(subs: &Vec<Sub>) -> (hash_to_subs: FnvHashMap<i64, Vec<usize>>)
    ensures
        is_index_of(hash_to_subs@, subs@),
{
    let mut index: FnvHashMap<i64, Vec<usize>> = new_index();
    let mut s: usize = 0;
    while s < subs.len()
        invariant
            s <= subs@.len(),
            is_index_upto(index@, subs@, s, Set::empty()),
        decreases subs.len() - s,
    {
        let sub: &Sub = &subs[s];
        let mut seen: HashSet<i64> = HashSet::new();
        let mut d: usize = 0;
        assert(seen@ =~= Set::<i64>::empty());
        while d < sub.documents.len()
            invariant
                s < subs@.len(),
                *sub == subs@[s as int],
                d <= sub.documents@.len(),
                seen@ == docs_hashes(sub.documents@, d as int),
                is_index_upto(index@, subs@, s, seen@),
            decreases sub.documents.len() - d,
        {
            match &sub.documents[d] {
                Doc::Processed(_, fps) => {
                    index_fingerprints(&mut index, &mut seen, fps, s, Ghost(subs@));
                },
                Doc::Unprocessed(_) => {
                    assert(hashes_of(sub.documents@[d as int].fingerprints()) =~= Set::<i64>::empty());
                    assert(seen@ + hashes_of(sub.documents@[d as int].fingerprints()) =~= seen@);
                },
            }
            d += 1;
        }
        proof {
            assert forall|h: i64, x: usize| #[trigger]
                holds(index@, h, x) <==> (x < s + 1 && sub_has_hash(subs@[x as int], h)) || (x == s
                    + 1 && Set::<i64>::empty().contains(h)) by {
                assert(holds(index@, h, x) <==> (x < s && sub_has_hash(subs@[x as int], h)) || (x == s
                    && seen@.contains(h)));
                lemma_docs_hashes(sub.documents@, sub.documents@.len() as int, h);
            }
        }
        s += 1;
    }
    index
}

} // verus!
