//! Commit metrics aggregation: ranked "recent authors" and "recent files"
//! frequency tables over an ordered commit list.
//!
//! The model of both tables is a sequence of contribution pairs
//! `(subject, commit id)`: one pair per commit for the author table, one
//! pair per touched file path occurrence for the file table. A table is
//! correct for a pair sequence when its entries carry distinct subject
//! names, each entry counts and lists exactly the pairs of its subject,
//! and every subject that occurs in the pairs has an entry.

use vstd::prelude::*;
use crate::model::RemoteCommit;

verus! {

/// A named counter: subject name (author name or file path), occurrence
/// count, and the contributing commit identifiers in encounter order.
#[derive(Debug, Clone, PartialEq)]
pub struct CommitMetrics {
    pub name: String,
    pub value: u64,
    pub commit_ids: Vec<String>,
}

/// The views of a sequence of identifier strings.
pub open spec fn ids_view(v: Seq<String>) -> Seq<Seq<char>> {
    v.map_values(|s: String| s@)
}

/// One contribution per commit: its author's name and its id.
pub open spec fn author_pairs(cs: Seq<RemoteCommit>) -> Seq<(Seq<char>, Seq<char>)> {
    cs.map_values(|c: RemoteCommit| (c.author.name@, c.id@))
}

/// One contribution per file path a commit touches, repeated if the
/// commit lists a path twice.
pub open spec fn commit_file_pairs(c: RemoteCommit) -> Seq<(Seq<char>, Seq<char>)> {
    Seq::new(c.file_paths@.len(), |i: int| (c.file_paths@[i]@, c.id@))
}

/// All file contributions of a commit list, in order.
pub open spec fn file_pairs(cs: Seq<RemoteCommit>) -> Seq<(Seq<char>, Seq<char>)>
    decreases cs.len(),
{
    if cs.len() == 0 {
        Seq::empty()
    } else {
        file_pairs(cs.drop_last()) + commit_file_pairs(cs.last())
    }
}

/// How many pairs carry subject `n`.
pub open spec fn pair_count(ps: Seq<(Seq<char>, Seq<char>)>, n: Seq<char>) -> int
    decreases ps.len(),
{
    if ps.len() == 0 {
        0
    } else {
        pair_count(ps.drop_last(), n) + if ps.last().0 == n {
            1int
        } else {
            0int
        }
    }
}

/// The commit ids of the pairs that carry subject `n`, in order.
pub open spec fn pair_ids(ps: Seq<(Seq<char>, Seq<char>)>, n: Seq<char>) -> Seq<Seq<char>>
    decreases ps.len(),
{
    if ps.len() == 0 {
        Seq::empty()
    } else {
        pair_ids(ps.drop_last(), n) + if ps.last().0 == n {
            seq![ps.last().1]
        } else {
            Seq::empty()
        }
    }
}

/// An entry counts and lists exactly the contributions of its subject.
pub open spec fn entry_correct(ps: Seq<(Seq<char>, Seq<char>)>, e: CommitMetrics) -> bool {
    &&& e.value == pair_count(ps, e.name@)
    &&& ids_view(e.commit_ids@) == pair_ids(ps, e.name@)
}

/// No two entries share a subject name.
pub open spec fn names_distinct(t: Seq<CommitMetrics>) -> bool {
    forall|i: int, j: int| 0 <= i < j < t.len() ==> t[i].name@ != t[j].name@
}

/// Some entry carries subject `n`.
pub open spec fn contains_name(t: Seq<CommitMetrics>, n: Seq<char>) -> bool {
    exists|i: int| 0 <= i < t.len() && t[i].name@ == n
}

/// The table is exactly the aggregation of the pair sequence, up to
/// entry order.
pub open spec fn table_correct(ps: Seq<(Seq<char>, Seq<char>)>, t: Seq<CommitMetrics>) -> bool {
    &&& names_distinct(t)
    &&& forall|i: int| 0 <= i < t.len() ==> entry_correct(ps, #[trigger] t[i])
    &&& forall|k: int| 0 <= k < ps.len() ==> contains_name(t, (#[trigger] ps[k]).0)
}

/// The sum of the counters of a table.
pub open spec fn sum_values(t: Seq<CommitMetrics>) -> int
    decreases t.len(),
{
    if t.len() == 0 {
        0
    } else {
        sum_values(t.drop_last()) + t.last().value
    }
}

/// Counters never increase along the table.
pub open spec fn sorted_desc(t: Seq<CommitMetrics>) -> bool {
    forall|i: int, j: int| 0 <= i < j < t.len() ==> t[i].value >= t[j].value
}

proof fn lemma_count_bounds(ps: Seq<(Seq<char>, Seq<char>)>, n: Seq<char>)
    ensures
        0 <= pair_count(ps, n) <= ps.len(),
        pair_ids(ps, n).len() == pair_count(ps, n),
    decreases ps.len(),
{
    if ps.len() > 0 {
        lemma_count_bounds(ps.drop_last(), n);
    }
}

proof fn lemma_count_pos(ps: Seq<(Seq<char>, Seq<char>)>, n: Seq<char>)
    requires
        pair_count(ps, n) > 0,
    ensures
        exists|k: int| 0 <= k < ps.len() && (#[trigger] ps[k]).0 == n,
    decreases ps.len(),
{
    if ps.last().0 == n {
        assert(0 <= ps.len() - 1 < ps.len() && ps[ps.len() - 1].0 == n);
    } else {
        lemma_count_pos(ps.drop_last(), n);
        let k = choose|k: int| 0 <= k < ps.drop_last().len() && ps.drop_last()[k].0 == n;
        assert(0 <= k < ps.len() && ps[k].0 == n);
    }
}

proof fn lemma_pair_push(ps: Seq<(Seq<char>, Seq<char>)>, p: (Seq<char>, Seq<char>), n: Seq<char>)
    ensures
        p.0 == n ==> pair_count(ps.push(p), n) == pair_count(ps, n) + 1,
        p.0 == n ==> pair_ids(ps.push(p), n) == pair_ids(ps, n).push(p.1),
        p.0 != n ==> pair_count(ps.push(p), n) == pair_count(ps, n),
        p.0 != n ==> pair_ids(ps.push(p), n) == pair_ids(ps, n),
{
    assert(ps.push(p).drop_last() =~= ps);
    assert(ps.push(p).last() == p);
    if p.0 == n {
        assert(pair_ids(ps, n) + seq![p.1] =~= pair_ids(ps, n).push(p.1));
    } else {
        assert(pair_ids(ps, n) + Seq::<Seq<char>>::empty() =~= pair_ids(ps, n));
    }
}

proof fn lemma_sum_push(t: Seq<CommitMetrics>, e: CommitMetrics)
    ensures
        sum_values(t.push(e)) == sum_values(t) + e.value,
{
    assert(t.push(e).drop_last() =~= t);
}

proof fn lemma_sum_remove(t: Seq<CommitMetrics>, b: int)
    requires
        0 <= b < t.len(),
    ensures
        sum_values(t.remove(b)) == sum_values(t) - t[b].value,
    decreases t.len(),
{
    if b == t.len() - 1 {
        assert(t.remove(b) =~= t.drop_last());
    } else {
        lemma_sum_remove(t.drop_last(), b);
        assert(t.remove(b).drop_last() =~= t.drop_last().remove(b));
        assert(t.remove(b).last() == t.last());
    }
}

proof fn lemma_contains_after_remove(t: Seq<CommitMetrics>, b: int, n: Seq<char>)
    requires
        0 <= b < t.len(),
        contains_name(t, n),
    ensures
        t[b].name@ == n || contains_name(t.remove(b), n),
{
    let w = choose|w: int| 0 <= w < t.len() && t[w].name@ == n;
    if w < b {
        assert(t.remove(b)[w] == t[w]);
    } else if w > b {
        assert(t.remove(b)[w - 1] == t[w]);
    }
}

/// Record one contribution pair `(name, id)` in the table: bump the
/// subject's entry, or open a new one at the end.
fn add_pair(
    table: &mut Vec<CommitMetrics>,
    Ghost(ps): Ghost<Seq<(Seq<char>, Seq<char>)>>,
    name: &String,
    id: &String,
)
    requires
        table_correct(ps, old(table)@),
        sum_values(old(table)@) == ps.len(),
        ps.len() < u64::MAX,
    ensures
        table_correct(ps.push((name@, id@)), final(table)@),
        sum_values(final(table)@) == ps.len() + 1,
{
    let ghost p = (name@, id@);
    let ghost t0 = table@;
    let found = find_name(table, name);
    match found {
        Some(i) => {
            let e = table.remove(i);
            proof {
                lemma_count_bounds(ps, e.name@);
            }
            let mut commit_ids = e.commit_ids;
            commit_ids.push(id.clone());
            let e2 = CommitMetrics { name: e.name, value: e.value + 1, commit_ids };
            table.insert(i, e2);
            proof {
                let t1 = table@;
                assert(t1 =~= t0.update(i as int, e2));
                assert forall|j: int| 0 <= j < t1.len() implies entry_correct(
                    ps.push(p),
                    #[trigger] t1[j],
                ) by {
                    lemma_pair_push(ps, p, t1[j].name@);
                    if j == i {
                        assert(ids_view(e2.commit_ids@) =~= ids_view(e.commit_ids@).push(id@));
                    } else {
                        // distinct names: this entry's subject is not `name`
                        assert(t0[j].name@ != t0[i as int].name@);
                        assert(ids_view(t1[j].commit_ids@) == pair_ids(ps, t1[j].name@));
                    }
                }
                assert forall|k: int| 0 <= k < ps.push(p).len() implies contains_name(
                    t1,
                    (#[trigger] ps.push(p)[k]).0,
                ) by {
                    if k < ps.len() {
                        let w = choose|w: int| 0 <= w < t0.len() && t0[w].name@ == ps[k].0;
                        assert(t1[w].name@ == t0[w].name@);
                    } else {
                        assert(t1[i as int].name@ == name@);
                    }
                }
                lemma_sum_remove(t0, i as int);
                // reinsertion at the same index restores the sum with the bumped value
                lemma_sum_remove(t1, i as int);
                assert(t1.remove(i as int) =~= t0.remove(i as int));
            }
        },
        None => {
            proof {
                if pair_count(ps, name@) > 0 {
                    lemma_count_pos(ps, name@);
                }
                lemma_count_bounds(ps, name@);
            }
            let mut commit_ids: Vec<String> = Vec::new();
            commit_ids.push(id.clone());
            let e2 = CommitMetrics { name: name.clone(), value: 1, commit_ids };
            table.push(e2);
            proof {
                let t1 = table@;
                assert(t1 =~= t0.push(e2));
                assert forall|j: int| 0 <= j < t1.len() implies entry_correct(
                    ps.push(p),
                    #[trigger] t1[j],
                ) by {
                    lemma_pair_push(ps, p, t1[j].name@);
                    if j < t1.len() - 1 {
                        // `name` has no entry yet, so the old entries keep
                        // their counts under the pushed pair
                        assert(t0[j].name@ != name@);
                    }
                    if j == t1.len() - 1 {
                        assert(pair_ids(ps, name@).len() == 0) by {
                            lemma_count_bounds(ps, name@);
                        }
                        assert(pair_ids(ps, name@) =~= Seq::<Seq<char>>::empty());
                        assert(ids_view(e2.commit_ids@) =~= seq![id@]);
                        assert(pair_ids(ps.push(p), name@) =~= seq![id@]);
                    }
                }
                assert forall|k: int| 0 <= k < ps.push(p).len() implies contains_name(
                    t1,
                    (#[trigger] ps.push(p)[k]).0,
                ) by {
                    if k < ps.len() {
                        let w = choose|w: int| 0 <= w < t0.len() && t0[w].name@ == ps[k].0;
                        assert(t1[w].name@ == ps[k].0);
                    } else {
                        assert(t1[t1.len() - 1].name@ == name@);
                    }
                }
                lemma_sum_push(t0, e2);
            }
        },
    }
}

/// Index of the entry carrying `name`, if any.
fn find_name(table: &Vec<CommitMetrics>, name: &String) -> (r: Option<usize>)
    ensures
        match r {
            Some(i) => i < table@.len() && table@[i as int].name@ == name@,
            None => !contains_name(table@, name@),
        },
{
    let mut i: usize = 0;
    while i < table.len()
        invariant
            i <= table@.len(),
            forall|j: int| 0 <= j < i ==> (#[trigger] table@[j]).name@ != name@,
        decreases table@.len() - i,
    {
        if table[i].name == *name {
            return Some(i);
        }
        i += 1;
    }
    None
}

/// Stable selection sort by descending counter: repeatedly moves the
/// first entry holding the maximum remaining counter to the output.
fn sort_by_value_desc(
    table: Vec<CommitMetrics>,
    Ghost(ps): Ghost<Seq<(Seq<char>, Seq<char>)>>,
) -> (r: Vec<CommitMetrics>)
    requires
        table_correct(ps, table@),
    ensures
        table_correct(ps, r@),
        sorted_desc(r@),
        sum_values(r@) == sum_values(table@),
{
    let ghost total = sum_values(table@);
    let mut rest = table;
    let mut out: Vec<CommitMetrics> = Vec::new();
    while rest.len() > 0
        invariant
            names_distinct(out@),
            names_distinct(rest@),
            forall|i: int, j: int|
                0 <= i < out@.len() && 0 <= j < rest@.len() ==> (#[trigger] out@[i]).name@ != (
                #[trigger] rest@[j]).name@,
            forall|i: int| 0 <= i < out@.len() ==> entry_correct(ps, #[trigger] out@[i]),
            forall|i: int| 0 <= i < rest@.len() ==> entry_correct(ps, #[trigger] rest@[i]),
            forall|k: int|
                0 <= k < ps.len() ==> contains_name(out@, (#[trigger] ps[k]).0) || contains_name(
                    rest@,
                    ps[k].0,
                ),
            sorted_desc(out@),
            forall|i: int, j: int|
                0 <= i < out@.len() && 0 <= j < rest@.len() ==> (#[trigger] out@[i]).value >= (
                #[trigger] rest@[j]).value,
            sum_values(out@) + sum_values(rest@) == total,
        decreases rest@.len(),
    {
        let mut best: usize = 0;
        let mut i: usize = 1;
        while i < rest.len()
            invariant
                best < i <= rest@.len(),
                rest@.len() > 0,
                forall|j: int| 0 <= j < i ==> (#[trigger] rest@[j]).value <= rest@[best as int].value,
            decreases rest@.len() - i,
        {
            if rest[i].value > rest[best].value {
                best = i;
            }
            i += 1;
        }
        let ghost rest0 = rest@;
        let ghost out0 = out@;
        let e = rest.remove(best);
        out.push(e);
        proof {
            assert(out@ =~= out0.push(e));
            lemma_sum_remove(rest0, best as int);
            lemma_sum_push(out0, e);
            assert forall|k: int|
                0 <= k < ps.len() implies contains_name(out@, (#[trigger] ps[k]).0)
                || contains_name(rest@, ps[k].0) by {
                let n = ps[k].0;
                if contains_name(out0, n) {
                    let w = choose|w: int| 0 <= w < out0.len() && out0[w].name@ == n;
                    assert(out@[w].name@ == n);
                } else {
                    lemma_contains_after_remove(rest0, best as int, n);
                    if rest0[best as int].name@ == n {
                        assert(out@[out0.len() as int].name@ == n);
                    }
                }
            }
        }
    }
    out
}

/// Aggregate a commit list into its ranked author and file tables.
///
/// The author table is correct for one contribution per commit, the file
/// table for one contribution per touched path occurrence; both come out
/// sorted by non-increasing counter, and their counters sum to the number
/// of contributions. Entry order among equal counters is unspecified.
pub fn get_recent_commits_metric(recent_commits: &Vec<RemoteCommit>) -> (r: (
    Vec<CommitMetrics>,
    Vec<CommitMetrics>,
))
    requires
        recent_commits@.len() < u64::MAX,
        file_pairs(recent_commits@).len() < u64::MAX,
    ensures
        table_correct(author_pairs(recent_commits@), r.0@),
        table_correct(file_pairs(recent_commits@), r.1@),
        sorted_desc(r.0@),
        sorted_desc(r.1@),
        sum_values(r.0@) == recent_commits@.len(),
        sum_values(r.1@) == file_pairs(recent_commits@).len(),
{
    let ghost cs = recent_commits@;
    let mut recent_authors: Vec<CommitMetrics> = Vec::new();
    let mut recent_files: Vec<CommitMetrics> = Vec::new();
    let ghost mut fps: Seq<(Seq<char>, Seq<char>)> = Seq::empty();
    let mut k: usize = 0;
    proof {
        assert(cs.take(0) =~= Seq::<RemoteCommit>::empty());
        assert(author_pairs(cs.take(0)) =~= Seq::<(Seq<char>, Seq<char>)>::empty());
    }
    while k < recent_commits.len()
        invariant
            k <= cs.len(),
            cs == recent_commits@,
            cs.len() < u64::MAX,
            file_pairs(cs).len() < u64::MAX,
            table_correct(author_pairs(cs.take(k as int)), recent_authors@),
            sum_values(recent_authors@) == k,
            fps == file_pairs(cs.take(k as int)),
            table_correct(fps, recent_files@),
            sum_values(recent_files@) == fps.len(),
        decreases cs.len() - k,
    {
        let c = &recent_commits[k];
        proof {
            assert(author_pairs(cs.take(k as int)).len() == k);
        }
        add_pair(
            &mut recent_authors,
            Ghost(author_pairs(cs.take(k as int))),
            &c.author.name,
            &c.id,
        );
        proof {
            assert(author_pairs(cs.take(k + 1int)) =~= author_pairs(cs.take(k as int)).push(
                (c.author.name@, c.id@),
            ));
        }
        let mut j: usize = 0;
        while j < c.file_paths.len()
            invariant
                j <= c.file_paths@.len(),
                cs == recent_commits@,
                k < cs.len(),
                c == recent_commits@[k as int],
                file_pairs(cs).len() < u64::MAX,
                fps == file_pairs(cs.take(k as int)) + commit_file_pairs(*c).take(j as int),
                table_correct(fps, recent_files@),
                sum_values(recent_files@) == fps.len(),
            decreases c.file_paths@.len() - j,
        {
            proof {
                lemma_file_pairs_prefix_bound(cs, k + 1);
                assert(file_pairs(cs.take(k + 1int)) == file_pairs(cs.take(k as int))
                    + commit_file_pairs(cs[k as int])) by {
                    lemma_file_pairs_take_step(cs, k as int);
                }
                assert(fps.len() <= file_pairs(cs.take(k + 1int)).len());
            }
            add_pair(&mut recent_files, Ghost(fps), &c.file_paths[j], &c.id);
            proof {
                fps = fps.push((c.file_paths@[j as int]@, c.id@));
                assert(commit_file_pairs(*c).take(j + 1int) =~= commit_file_pairs(*c).take(
                    j as int,
                ).push((c.file_paths@[j as int]@, c.id@)));
                assert(fps =~= file_pairs(cs.take(k as int)) + commit_file_pairs(*c).take(
                    j + 1int,
                ));
            }
            j += 1;
        }
        proof {
            lemma_file_pairs_take_step(cs, k as int);
            assert(commit_file_pairs(*c).take(c.file_paths@.len() as int) =~= commit_file_pairs(
                *c,
            ));
            assert(fps =~= file_pairs(cs.take(k + 1int)));
        }
        k += 1;
    }
    proof {
        assert(cs.take(cs.len() as int) =~= cs);
    }
    let recent_authors = sort_by_value_desc(recent_authors, Ghost(author_pairs(cs)));
    let recent_files = sort_by_value_desc(recent_files, Ghost(file_pairs(cs)));
    (recent_authors, recent_files)
}

proof fn lemma_file_pairs_take_step(cs: Seq<RemoteCommit>, k: int)
    requires
        0 <= k < cs.len(),
    ensures
        file_pairs(cs.take(k + 1)) == file_pairs(cs.take(k)) + commit_file_pairs(cs[k]),
{
    assert(cs.take(k + 1).drop_last() =~= cs.take(k));
    assert(cs.take(k + 1).last() == cs[k]);
}

proof fn lemma_file_pairs_prefix_bound(cs: Seq<RemoteCommit>, k: int)
    requires
        0 <= k <= cs.len(),
    ensures
        file_pairs(cs.take(k)).len() <= file_pairs(cs).len(),
    decreases cs.len() - k,
{
    if k == cs.len() {
        assert(cs.take(k) =~= cs);
    } else {
        lemma_file_pairs_prefix_bound(cs, k + 1);
        lemma_file_pairs_take_step(cs, k);
    }
}

} // verus!
